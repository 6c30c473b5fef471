//! The Hub: its records, its addresses and what its answers mean.
use crate::cli::RepoType;
use crate::error;
use crate::error::{detailed_error, message_error, AppResult};
use crate::text;
use crate::text::{contains_char, debug_of, ends_with_char, split_text, starts_with_char};
use vstd::prelude::*;

pub mod client;
pub mod failure;
pub mod listing;

verus! {

/// Where tokens are made.
pub const TOKEN_SETTINGS_URL: &'static str = "https://huggingface.co/settings/tokens";

#[derive(Debug)]
pub struct UserRecord {
    pub id: String,
    pub name: Option<String>,
}

#[derive(Debug)]
pub struct OrganizationRecord {
    pub id: String,
    pub name: Option<String>,
}

#[derive(Debug)]
pub struct RepositoryRecord {
    pub repo_type: RepoType,
    pub id: String,
    pub private: bool,
}

/// A file or a directory of a repository.
#[derive(Debug)]
pub struct TreeEntry {
    pub entry_type: String,
    pub oid: String,
    pub size: u64,
    pub path: String,
}

/// The value of a [`TreeEntry`].
pub struct TreeEntryView {
    pub entry_type: Seq<char>,
    pub oid: Seq<char>,
    pub size: u64,
    pub path: Seq<char>,
}

impl TreeEntryView {
    pub open spec fn is_file(self) -> bool {
        self.entry_type == "file"@
    }

    pub open spec fn is_directory(self) -> bool {
        self.entry_type == "directory"@
    }
}

impl View for TreeEntry {
    type V = TreeEntryView;

    open spec fn view(&self) -> TreeEntryView {
        TreeEntryView {
            entry_type: self.entry_type@,
            oid: self.oid@,
            size: self.size,
            path: self.path@,
        }
    }
}

impl Clone for TreeEntry {
    fn clone(&self) -> (res: Self)
        ensures
            res == *self,
    {
        TreeEntry {
            entry_type: self.entry_type.clone(),
            oid: self.oid.clone(),
            size: self.size,
            path: self.path.clone(),
        }
    }
}

impl TreeEntry {
    pub fn is_file(&self) -> (res: bool)
        ensures
            res == self@.is_file(),
    {
        text::same_text(&self.entry_type, "file")
    }

    pub fn is_directory(&self) -> (res: bool)
        ensures
            res == self@.is_directory(),
    {
        text::same_text(&self.entry_type, "directory")
    }
}

/// The value of one header of a response.
#[derive(Debug)]
pub enum HeaderValue {
    Text(String),
    /// The value is no text; why not.
    Unreadable(String),
}

/// The value of a [`HeaderValue`].
pub enum HeaderView {
    Text(Seq<char>),
    Unreadable(Seq<char>),
}

impl View for HeaderValue {
    type V = HeaderView;

    open spec fn view(&self) -> HeaderView {
        match self {
            HeaderValue::Text(value) => HeaderView::Text(value@),
            HeaderValue::Unreadable(reason) => HeaderView::Unreadable(reason@),
        }
    }
}

/// The value of a header that a response may have.
pub open spec fn optional_header(header: Option<HeaderValue>) -> Option<HeaderView> {
    match header {
        Some(value) => Some(value@),
        None => None,
    }
}

/// The values of a header that a response may have several times.
pub open spec fn header_views(headers: Seq<HeaderValue>) -> Seq<HeaderView> {
    headers.map_values(|value: HeaderValue| value@)
}

/// The user that a token belongs to, with its organizations.
#[derive(Debug)]
pub struct Identity {
    pub name: String,
    pub orgs: Vec<IdentityOrganization>,
}

#[derive(Debug)]
pub struct IdentityOrganization {
    pub name: String,
}

/// What the Hub answers to a search.
#[derive(Debug)]
pub struct QuickSearchResponse {
    pub users: Vec<QuickUser>,
    pub orgs: Vec<QuickOrganization>,
    pub models: Vec<QuickRepository>,
    pub datasets: Vec<QuickRepository>,
    pub spaces: Vec<QuickRepository>,
}

impl Default for QuickSearchResponse {
    fn default() -> (res: Self)
        ensures
            res.users@.len() == 0,
            res.orgs@.len() == 0,
            res.models@.len() == 0,
            res.datasets@.len() == 0,
            res.spaces@.len() == 0,
    {
        QuickSearchResponse {
            users: Vec::new(),
            orgs: Vec::new(),
            models: Vec::new(),
            datasets: Vec::new(),
            spaces: Vec::new(),
        }
    }
}

#[derive(Debug)]
pub struct QuickUser {
    pub user: String,
    pub fullname: Option<String>,
}

#[derive(Debug)]
pub struct QuickOrganization {
    pub name: String,
    pub fullname: Option<String>,
}

#[derive(Debug)]
pub struct QuickRepository {
    pub id: String,
    pub private: bool,
}

// ---------------------------------------------------------------------------
// Search results
// ---------------------------------------------------------------------------

pub open spec fn user_record(user: QuickUser) -> UserRecord {
    UserRecord { id: user.user, name: user.fullname }
}

pub open spec fn organization_record(organization: QuickOrganization) -> OrganizationRecord {
    OrganizationRecord { id: organization.name, name: organization.fullname }
}

/// The record of a repository that was found.
pub open spec fn found(repository: QuickRepository, repo_type: RepoType) -> RepositoryRecord {
    RepositoryRecord { repo_type, id: repository.id, private: repository.private }
}

/// The first users of a search answer, `limit` at most.
pub fn found_users(users: &Vec<QuickUser>, limit: usize) -> (res: Vec<UserRecord>)
    ensures
        res@ == at_most(
            users@.map_values(|user: QuickUser| user_record(user)),
            limit as nat,
        ),
{
    let mut records: Vec<UserRecord> = Vec::new();
    let ghost all = users@.map_values(|user: QuickUser| user_record(user));
    let mut i: usize = 0;
    while i < users.len() && i < limit
        invariant
            i <= users@.len(),
            i <= limit,
            all.len() == users@.len(),
            forall|k: int| 0 <= k < all.len() ==> #[trigger] all[k] == user_record(users@[k]),
            records@ == all.take(i as int),
        decreases users@.len() - i,
    {
        records.push(
            UserRecord {
                id: users[i].user.clone(),
                name: text::clone_optional(&users[i].fullname),
            },
        );
        i = i + 1;
        proof {
            assert(records@ =~= all.take(i as int));
        }
    }
    proof {
        assert(records@ =~= at_most(
            users@.map_values(|user: QuickUser| user_record(user)),
            limit as nat,
        ));
    }
    records
}

/// The first organizations of a search answer, `limit` at most.
pub fn found_organizations(organizations: &Vec<QuickOrganization>, limit: usize) -> (res: Vec<
    OrganizationRecord,
>)
    ensures
        res@ == at_most(
            organizations@.map_values(|o: QuickOrganization| organization_record(o)),
            limit as nat,
        ),
{
    let mut records: Vec<OrganizationRecord> = Vec::new();
    let ghost all = organizations@.map_values(|o: QuickOrganization| organization_record(o));
    let mut i: usize = 0;
    while i < organizations.len() && i < limit
        invariant
            i <= organizations@.len(),
            i <= limit,
            all.len() == organizations@.len(),
            forall|k: int| 0 <= k < all.len() ==> #[trigger] all[k] == organization_record(organizations@[k]),
            records@ == all.take(i as int),
        decreases organizations@.len() - i,
    {
        records.push(
            OrganizationRecord {
                id: organizations[i].name.clone(),
                name: text::clone_optional(&organizations[i].fullname),
            },
        );
        i = i + 1;
        proof {
            assert(records@ =~= all.take(i as int));
        }
    }
    proof {
        assert(records@ =~= at_most(
            organizations@.map_values(|o: QuickOrganization| organization_record(o)),
            limit as nat,
        ));
    }
    records
}

fn repository_record(repository: &QuickRepository, repo_type: RepoType) -> (res: RepositoryRecord)
    ensures
        res == found(*repository, repo_type),
{
    RepositoryRecord { repo_type, id: repository.id.clone(), private: repository.private }
}

/// The first elements of a sequence, `limit` at most.
pub open spec fn at_most<T>(values: Seq<T>, limit: nat) -> Seq<T> {
    if values.len() <= limit {
        values
    } else {
        values.take(limit as int)
    }
}

/// The records of repositories of one type.
pub open spec fn records_of(values: Seq<QuickRepository>, repo_type: RepoType) -> Seq<
    RepositoryRecord,
> {
    values.map_values(|value: QuickRepository| found(value, repo_type))
}

/// The first repositories of one type, `limit` at most.
pub fn repositories(values: &Vec<QuickRepository>, repo_type: RepoType, limit: usize) -> (res: Vec<
    RepositoryRecord,
>)
    ensures
        res@ == at_most(records_of(values@, repo_type), limit as nat),
{
    let mut records: Vec<RepositoryRecord> = Vec::new();
    let ghost all = records_of(values@, repo_type);
    let mut i: usize = 0;
    while i < values.len() && i < limit
        invariant
            i <= values@.len(),
            i <= limit,
            all == records_of(values@, repo_type),
            records@ == all.take(i as int),
        decreases values@.len() - i,
    {
        records.push(repository_record(&values[i], repo_type));
        i = i + 1;
        proof {
            assert(records@ =~= all.take(i as int));
        }
    }
    proof {
        if all.len() <= limit {
            assert(all.take(i as int) =~= all);
        }
    }
    records
}

/// The element at `index`, if there is one.
pub open spec fn element<T>(values: Seq<T>, index: int) -> Seq<T> {
    if 0 <= index < values.len() {
        seq![values[index]]
    } else {
        Seq::empty()
    }
}

/// The first `rounds` rounds in which each sequence gives its next element, as long
/// as it has one.
pub open spec fn interleaved<T>(
    first: Seq<T>,
    second: Seq<T>,
    third: Seq<T>,
    rounds: nat,
) -> Seq<T>
    decreases rounds,
{
    if rounds == 0 {
        Seq::empty()
    } else {
        interleaved(first, second, third, (rounds - 1) as nat) + element(first, rounds - 1)
            + element(second, rounds - 1) + element(third, rounds - 1)
    }
}

/// The length of the longest of three sequences.
pub open spec fn longest<T>(first: Seq<T>, second: Seq<T>, third: Seq<T>) -> nat {
    if first.len() >= second.len() && first.len() >= third.len() {
        first.len()
    } else if second.len() >= third.len() {
        second.len()
    } else {
        third.len()
    }
}

/// Repositories of all types: a model, a dataset and a space in turn, `limit` at
/// most.
pub fn interleave_repositories(response: &QuickSearchResponse, limit: usize) -> (res: Vec<
    RepositoryRecord,
>)
    ensures
        ({
            let models = records_of(response.models@, RepoType::Model);
            let datasets = records_of(response.datasets@, RepoType::Dataset);
            let spaces = records_of(response.spaces@, RepoType::Space);
            let all = interleaved(models, datasets, spaces, longest(models, datasets, spaces));
            res@ == at_most(all, limit as nat)
        }),
{
    let ghost models = records_of(response.models@, RepoType::Model);
    let ghost datasets = records_of(response.datasets@, RepoType::Dataset);
    let ghost spaces = records_of(response.spaces@, RepoType::Space);
    let ghost rounds = longest(models, datasets, spaces);
    let ghost all = interleaved(models, datasets, spaces, rounds);
    let mut output: Vec<RepositoryRecord> = Vec::new();
    let mut i: usize = 0;
    while output.len() < limit && (i < response.models.len() || i < response.datasets.len() || i
        < response.spaces.len())
        invariant
            models == records_of(response.models@, RepoType::Model),
            datasets == records_of(response.datasets@, RepoType::Dataset),
            spaces == records_of(response.spaces@, RepoType::Space),
            rounds == longest(models, datasets, spaces),
            all == interleaved(models, datasets, spaces, rounds),
            i <= rounds,
            output@.len() <= limit,
            output@.len() < limit ==> output@ == interleaved(models, datasets, spaces, i as nat),
            output@.len() == limit ==> output@ == at_most(all, limit as nat),
        decreases rounds - i,
    {
        let ghost before = output@;
        proof {
            lemma_interleaved_grows(models, datasets, spaces, (i + 1) as nat, rounds);
            lemma_interleaved_grows(models, datasets, spaces, i as nat, rounds);
        }
        let ghost with_model = before + element(models, i as int);
        let ghost with_dataset = with_model + element(datasets, i as int);
        let ghost with_space = with_dataset + element(spaces, i as int);
        if i < response.models.len() {
            output.push(repository_record(&response.models[i], RepoType::Model));
        }
        proof {
            assert(output@ =~= with_model);
        }
        if output.len() < limit && i < response.datasets.len() {
            output.push(repository_record(&response.datasets[i], RepoType::Dataset));
        }
        proof {
            assert(output@ =~= at_most(with_dataset, limit as nat));
        }
        if output.len() < limit && i < response.spaces.len() {
            output.push(repository_record(&response.spaces[i], RepoType::Space));
        }
        proof {
            assert(output@ =~= at_most(with_space, limit as nat));
            assert(with_space == interleaved(models, datasets, spaces, (i + 1) as nat));
            if output@.len() == limit {
                assert(output@ =~= at_most(all, limit as nat));
            }
        }
        i = i + 1;
    }
    proof {
        if output@.len() < limit {
            assert(i == rounds);
        }
    }
    output
}

/// More rounds only add elements.
proof fn lemma_interleaved_grows<T>(
    first: Seq<T>,
    second: Seq<T>,
    third: Seq<T>,
    rounds: nat,
    later: nat,
)
    requires
        rounds <= later,
    ensures
        interleaved(first, second, third, rounds).is_prefix_of(
            interleaved(first, second, third, later),
        ),
    decreases later,
{
    if rounds < later {
        lemma_interleaved_grows(first, second, third, rounds, (later - 1) as nat);
    }
}

/// What a search for repositories found: of one type, or of all types in turn.
pub open spec fn found_repositories(
    response: QuickSearchResponse,
    repo_type: Option<RepoType>,
    limit: nat,
) -> Seq<RepositoryRecord> {
    let models = records_of(response.models@, RepoType::Model);
    let datasets = records_of(response.datasets@, RepoType::Dataset);
    let spaces = records_of(response.spaces@, RepoType::Space);
    let all = match repo_type {
        Some(RepoType::Model) => models,
        Some(RepoType::Dataset) => datasets,
        Some(RepoType::Space) => spaces,
        None => interleaved(models, datasets, spaces, longest(models, datasets, spaces)),
    };
    at_most(all, limit)
}

/// The repositories of a search answer.
pub fn select_repositories(
    response: &QuickSearchResponse,
    repo_type: Option<RepoType>,
    limit: usize,
) -> (res: Vec<RepositoryRecord>)
    ensures
        res@ == found_repositories(*response, repo_type, limit as nat),
{
    match repo_type {
        Some(RepoType::Model) => repositories(&response.models, RepoType::Model, limit),
        Some(RepoType::Dataset) => repositories(&response.datasets, RepoType::Dataset, limit),
        Some(RepoType::Space) => repositories(&response.spaces, RepoType::Space, limit),
        None => interleave_repositories(response, limit),
    }
}

/// A search never gives more records than were asked for, and gives all that were
/// found when there are no more than that.
pub proof fn lemma_search_respects_its_limit(
    response: QuickSearchResponse,
    repo_type: Option<RepoType>,
    limit: nat,
)
    ensures
        found_repositories(response, repo_type, limit).len() <= limit,
        repo_type is None && response.models@.len() + response.datasets@.len()
            + response.spaces@.len() <= limit ==> found_repositories(
            response,
            repo_type,
            limit,
        ).len() == response.models@.len() + response.datasets@.len() + response.spaces@.len(),
{
    let models = records_of(response.models@, RepoType::Model);
    let datasets = records_of(response.datasets@, RepoType::Dataset);
    let spaces = records_of(response.spaces@, RepoType::Space);
    lemma_interleaved_length(models, datasets, spaces, longest(models, datasets, spaces));
}

/// A limit is a maximum: what it leaves is a beginning that is no longer.
pub proof fn lemma_limit_is_a_maximum<T>(values: Seq<T>, limit: nat)
    ensures
        at_most(values, limit).len() <= limit,
        at_most(values, limit).is_prefix_of(values),
        values.len() <= limit ==> at_most(values, limit) == values,
{
    assert(values.subrange(0, values.len() as int) =~= values);
}

/// The lesser of two numbers.
spec fn least(a: nat, b: nat) -> nat {
    if a <= b {
        a
    } else {
        b
    }
}

proof fn lemma_interleaved_length<T>(
    first: Seq<T>,
    second: Seq<T>,
    third: Seq<T>,
    rounds: nat,
)
    ensures
        interleaved(first, second, third, rounds).len() == least(first.len(), rounds) + least(
            second.len(),
            rounds,
        ) + least(third.len(), rounds),
    decreases rounds,
{
    if rounds > 0 {
        lemma_interleaved_length(first, second, third, (rounds - 1) as nat);
    }
}

// ---------------------------------------------------------------------------
// What the Hub may name
// ---------------------------------------------------------------------------

/// Whether a part of a path would lead elsewhere than to a child.
pub open spec fn leads_away(component: Seq<char>) -> bool {
    component.len() == 0 || component == "."@ || component == ".."@
}

/// Whether a path can be taken as one inside a repository.
pub open spec fn safe_path(path: Seq<char>) -> bool {
    let parts = text::split(path, '/');
    &&& !path.contains('\\')
    &&& forall|i: int| 0 <= i < parts.len() ==> !leads_away(#[trigger] parts[i])
}

/// Why a path that the Hub named is refused, if it is.
pub open spec fn path_refusal(path: Seq<char>, require_file: bool) -> Option<Seq<char>> {
    if path.len() == 0 {
        if require_file {
            Some("file path cannot be empty"@)
        } else {
            None
        }
    } else if safe_path(path) {
        None
    } else {
        Some("unsafe repository path returned by Hub: "@ + text::debug_text(path))
    }
}

pub(crate) fn component_leads_away(component: &str) -> (res: bool)
    ensures
        res == leads_away(component@),
{
    component.is_empty() || text::same_text(component, ".") || text::same_text(component, "..")
}

/// Whether none of the parts leads away.
pub(crate) fn parts_are_safe(parts: &Vec<String>) -> (res: bool)
    ensures
        res == (forall|i: int|
            0 <= i < parts@.len() ==> !leads_away(#[trigger] text::texts(parts@)[i])),
{
    let mut i: usize = 0;
    while i < parts.len()
        invariant
            i <= parts@.len(),
            forall|k: int| 0 <= k < i ==> !leads_away(#[trigger] text::texts(parts@)[k]),
        decreases parts@.len() - i,
    {
        proof {
            assert(text::texts(parts@)[i as int] == parts@[i as int]@);
        }
        if component_leads_away(&parts[i]) {
            return false;
        }
        i = i + 1;
    }
    true
}

/// Accepts a path that stays inside its repository. The empty path stands for the
/// repository itself.
pub fn validate_remote_path(path: &str, require_file: bool) -> (res: AppResult<()>)
    ensures
        match res {
            Ok(()) => path_refusal(path@, require_file) is None,
            Err(error) => path_refusal(path@, require_file) matches Some(message) && error::says(
                error,
                message,
            ),
        },
{
    if path.is_empty() {
        return if require_file {
            Err(message_error("file path cannot be empty"))
        } else {
            Ok(())
        };
    }
    let parts = split_text(path, '/');
    proof {
        lemma_ends_of_path(path@);
        assert(text::texts(parts@).len() == parts@.len());
    }
    if starts_with_char(path, '/') || ends_with_char(path, '/') || contains_char(path, '\\') {
        return Err(detailed_error("unsafe repository path returned by Hub: ", &debug_of(path)));
    }
    if !parts_are_safe(&parts) {
        return Err(detailed_error("unsafe repository path returned by Hub: ", &debug_of(path)));
    }
    Ok(())
}

/// A path with a slash at an end has an empty part there.
proof fn lemma_ends_of_path(path: Seq<char>)
    requires
        path.len() > 0,
    ensures
        path[0] == '/' ==> text::split(path, '/')[0].len() == 0,
        path.last() == '/' ==> text::split(path, '/').last().len() == 0,
        text::split(path, '/').len() >= 1,
        path[0] == '/' ==> text::split(path, '/').len() >= 2,
    decreases path.len(),
{
    text::lemma_split(path, '/');
    let front = path.drop_last();
    text::lemma_split(front, '/');
    if front.len() > 0 {
        lemma_ends_of_path(front);
    }
}

/// Why a revision is refused, if it is.
pub open spec fn revision_refusal(revision: Seq<char>) -> Option<Seq<char>> {
    if revision.len() == 0 {
        Some("revision cannot be empty"@)
    } else {
        None
    }
}

pub fn validate_revision(revision: &str) -> (res: AppResult<()>)
    ensures
        match res {
            Ok(()) => revision_refusal(revision@) is None,
            Err(error) => revision_refusal(revision@) matches Some(message) && error::says(
                error,
                message,
            ),
        },
{
    if revision.is_empty() {
        Err(message_error("revision cannot be empty"))
    } else {
        Ok(())
    }
}

/// A hexadecimal digit of either case.
pub open spec fn is_hex_digit(c: char) -> bool {
    '0' <= c <= '9' || 'a' <= c <= 'f' || 'A' <= c <= 'F'
}

/// A full commit hash: forty hexadecimal digits.
pub open spec fn is_commit_hash(sha: Seq<char>) -> bool {
    sha.len() == 40 && forall|i: int| 0 <= i < sha.len() ==> is_hex_digit(#[trigger] sha[i])
}

/// Takes the commit that the Hub gave for a revision.
pub fn accept_revision(sha: String) -> (res: AppResult<String>)
    ensures
        match res {
            Ok(commit) => is_commit_hash(sha@) && commit == sha,
            Err(error) => !is_commit_hash(sha@) && error::says(
                error,
                "Hub returned an invalid repository commit hash"@,
            ),
        },
{
    let chars = text::chars_of(&sha);
    if chars.len() != 40 {
        return Err(message_error("Hub returned an invalid repository commit hash"));
    }
    let mut i: usize = 0;
    while i < chars.len()
        invariant
            i <= chars@.len(),
            chars@ == sha@,
            forall|k: int| 0 <= k < i ==> is_hex_digit(#[trigger] chars@[k]),
        decreases chars@.len() - i,
    {
        let c = chars[i];
        if !('0' <= c && c <= '9' || 'a' <= c && c <= 'f' || 'A' <= c && c <= 'F') {
            return Err(message_error("Hub returned an invalid repository commit hash"));
        }
        i = i + 1;
    }
    Ok(sha)
}

// ---------------------------------------------------------------------------
// Laws
// ---------------------------------------------------------------------------

/// The values of headers are those of each header, in their order.
pub proof fn lemma_values_of_headers(headers: Seq<HeaderValue>, header: Option<HeaderValue>)
    ensures
        header_views(headers).len() == headers.len(),
        forall|i: int|
            0 <= i < headers.len() ==> #[trigger] header_views(headers)[i] == headers[i]@,
        header is None <==> optional_header(header) is None,
        header matches Some(value) ==> optional_header(header) == Some(value@),
{
}

/// An entry is a file or a directory by its type alone, and never both.
pub proof fn lemma_entries_are_files_or_directories(entry: TreeEntryView)
    ensures
        entry.is_file() <==> entry.entry_type == "file"@,
        entry.is_directory() <==> entry.entry_type == "directory"@,
        !(entry.is_file() && entry.is_directory()),
{
    reveal_strlit("file");
    reveal_strlit("directory");
    assert("file"@.len() != "directory"@.len());
}

/// Each user that is shown has the name and the full name of the user that was found at the
/// same place, and as many are shown as were found or asked for.
pub proof fn lemma_found_users_are_shown(users: Seq<QuickUser>, limit: nat)
    ensures
        ({
            let shown = at_most(users.map_values(|user: QuickUser| user_record(user)), limit);
            &&& shown.len() == vstd::math::min(users.len() as int, limit as int)
            &&& forall|i: int|
                0 <= i < shown.len() ==> (#[trigger] shown[i]).id == users[i].user && shown[i].name
                    == users[i].fullname
        }),
{
}

/// Each organization that is shown has the name and the full name of the one that was found
/// at the same place, and as many are shown as were found or asked for.
pub proof fn lemma_found_organizations_are_shown(
    organizations: Seq<QuickOrganization>,
    limit: nat,
)
    ensures
        ({
            let shown = at_most(
                organizations.map_values(|o: QuickOrganization| organization_record(o)),
                limit,
            );
            &&& shown.len() == vstd::math::min(organizations.len() as int, limit as int)
            &&& forall|i: int|
                0 <= i < shown.len() ==> (#[trigger] shown[i]).id == organizations[i].name
                    && shown[i].name == organizations[i].fullname
        }),
{
}

/// A search for repositories of one type tells of those that were found of this type, in
/// their order, and of as many as were found or asked for.
pub proof fn lemma_found_repositories_of_one_type(
    response: QuickSearchResponse,
    repo_type: RepoType,
    limit: nat,
)
    ensures
        ({
            let found = found_repositories(response, Some(repo_type), limit);
            let listed = match repo_type {
                RepoType::Model => response.models@,
                RepoType::Dataset => response.datasets@,
                RepoType::Space => response.spaces@,
            };
            &&& found.len() == vstd::math::min(listed.len() as int, limit as int)
            &&& forall|i: int|
                0 <= i < found.len() ==> (#[trigger] found[i]).repo_type == repo_type && found[i].id
                    == listed[i].id && found[i].private == listed[i].private
        }),
{
}

proof fn lemma_places_in_turn<T>(first: Seq<T>, second: Seq<T>, third: Seq<T>, rounds: nat, i: int)
    requires
        0 <= i < rounds,
    ensures
        ({
            let all = interleaved(first, second, third, rounds);
            let a = vstd::math::min(i, first.len() as int);
            let b = vstd::math::min(i, second.len() as int);
            let c = vstd::math::min(i, third.len() as int);
            let a1 = vstd::math::min(i + 1, first.len() as int);
            let b1 = vstd::math::min(i + 1, second.len() as int);
            &&& i < first.len() ==> 0 <= a + b + c < all.len() && all[a + b + c] == first[i]
            &&& i < second.len() ==> 0 <= a1 + b + c < all.len() && all[a1 + b + c] == second[i]
            &&& i < third.len() ==> 0 <= a1 + b1 + c < all.len() && all[a1 + b1 + c] == third[i]
        }),
    decreases rounds,
{
    let before = interleaved(first, second, third, (rounds - 1) as nat);
    let all = interleaved(first, second, third, rounds);
    lemma_interleaved_length(first, second, third, (rounds - 1) as nat);
    if i < rounds - 1 {
        lemma_places_in_turn(first, second, third, (rounds - 1) as nat, i);
        assert(forall|k: int| 0 <= k < before.len() ==> all[k] == before[k]);
    }
}

/// A search for repositories of all types tells of a model, a dataset and a space in turn:
/// each stands behind those of its own type before it, and behind those of the other types
/// whose turn came earlier. As many are told of as were found or asked for.
pub proof fn lemma_found_repositories_take_turns(
    response: QuickSearchResponse,
    limit: nat,
    i: int,
)
    requires
        0 <= i,
    ensures
        ({
            let found = found_repositories(response, None, limit);
            let models = response.models@;
            let datasets = response.datasets@;
            let spaces = response.spaces@;
            let m = vstd::math::min(i, models.len() as int);
            let d = vstd::math::min(i, datasets.len() as int);
            let s = vstd::math::min(i, spaces.len() as int);
            let m1 = vstd::math::min(i + 1, models.len() as int);
            let d1 = vstd::math::min(i + 1, datasets.len() as int);
            &&& found.len() == vstd::math::min(
                (models.len() + datasets.len() + spaces.len()) as int,
                limit as int,
            )
            &&& i < models.len() && m + d + s < limit ==> {
                &&& found[m + d + s].repo_type == RepoType::Model
                &&& found[m + d + s].id == models[i].id
                &&& found[m + d + s].private == models[i].private
            }
            &&& i < datasets.len() && m1 + d + s < limit ==> {
                &&& found[m1 + d + s].repo_type == RepoType::Dataset
                &&& found[m1 + d + s].id == datasets[i].id
                &&& found[m1 + d + s].private == datasets[i].private
            }
            &&& i < spaces.len() && m1 + d1 + s < limit ==> {
                &&& found[m1 + d1 + s].repo_type == RepoType::Space
                &&& found[m1 + d1 + s].id == spaces[i].id
                &&& found[m1 + d1 + s].private == spaces[i].private
            }
        }),
{
    let models = records_of(response.models@, RepoType::Model);
    let datasets = records_of(response.datasets@, RepoType::Dataset);
    let spaces = records_of(response.spaces@, RepoType::Space);
    let rounds = longest(models, datasets, spaces);
    lemma_interleaved_length(models, datasets, spaces, rounds);
    if i < rounds {
        lemma_places_in_turn(models, datasets, spaces, rounds, i);
    }
}

/// A path that the Hub names is accepted exactly if it has no backslash and each of its
/// parts between slashes is neither empty nor one or two dots; besides, the empty path,
/// where no file is required. Nothing else in a path matters.
pub proof fn lemma_accepted_paths_stay_inside(path: Seq<char>, require_file: bool)
    ensures
        path.len() == 0 ==> (path_refusal(path, require_file) is None <==> !require_file),
        path.len() == 0 && require_file ==> path_refusal(path, require_file) == Some(
            "file path cannot be empty"@,
        ),
        path.len() > 0 ==> (path_refusal(path, require_file) is None <==> {
            &&& forall|k: int| 0 <= k < path.len() ==> #[trigger] path[k] != '\\'
            &&& forall|i: int, j: int| #[trigger]
                text::is_part(path, '/', i, j) ==> path.subrange(i, j) != Seq::<char>::empty()
                    && path.subrange(i, j) != seq!['.'] && path.subrange(i, j) != seq!['.', '.']
        }),
        path.len() > 0 && path_refusal(path, require_file) is Some ==> path_refusal(
            path,
            require_file,
        ) == Some("unsafe repository path returned by Hub: "@ + text::debug_text(path)),
        safe_path(path) <==> path.len() > 0 && path_refusal(path, require_file) is None,
{
    reveal_strlit(".");
    reveal_strlit("..");
    assert("."@ =~= seq!['.']);
    assert(".."@ =~= seq!['.', '.']);
    text::lemma_parts_are_enclosed(path, '/');
    let parts = text::split(path, '/');
    if path.len() == 0 {
        assert(parts[0] =~= Seq::<char>::empty());
        assert(leads_away(parts[0]));
    }
    assert(path.contains('\\') <==> !(forall|k: int|
        0 <= k < path.len() ==> #[trigger] path[k] != '\\'));
    if safe_path(path) {
        assert forall|i: int, j: int| #[trigger] text::is_part(path, '/', i, j) implies
            path.subrange(i, j) != Seq::<char>::empty() && path.subrange(i, j) != seq!['.']
            && path.subrange(i, j) != seq!['.', '.'] by {
            let k = choose|k: int| 0 <= k < parts.len() && parts[k] == path.subrange(i, j);
            assert(!leads_away(parts[k]));
        }
    }
    if forall|i: int, j: int| #[trigger]
        text::is_part(path, '/', i, j) ==> path.subrange(i, j) != Seq::<char>::empty()
            && path.subrange(i, j) != seq!['.'] && path.subrange(i, j) != seq!['.', '.'] {
        assert forall|k: int| 0 <= k < parts.len() implies !leads_away(#[trigger] parts[k]) by {
            assert(text::is_enclosed(parts[k], path, '/'));
            if parts[k].len() == 0 {
                assert(parts[k] =~= Seq::<char>::empty());
            }
        }
    }
}

/// A revision is refused exactly if it is empty.
pub proof fn lemma_only_empty_revisions_are_refused(revision: Seq<char>)
    ensures
        revision_refusal(revision) is None <==> revision.len() > 0,
        revision.len() == 0 ==> revision_refusal(revision) == Some("revision cannot be empty"@),
{
}

/// A commit is written in forty characters, each one of the sixteen digits in either case.
pub proof fn lemma_commits_are_forty_digits(sha: Seq<char>)
    ensures
        is_commit_hash(sha) <==> sha.len() == 40 && forall|i: int|
            0 <= i < sha.len() ==> "0123456789abcdefABCDEF"@.contains(#[trigger] sha[i]),
{
    reveal_strlit("0123456789abcdefABCDEF");
    let digits = "0123456789abcdefABCDEF"@;
    assert forall|c: char| #[trigger] is_hex_digit(c) <==> digits.contains(c) by {
        if is_hex_digit(c) {
            let k = if c <= '9' {
                c as int - 48
            } else if c >= 'a' {
                c as int - 97 + 10
            } else {
                c as int - 65 + 16
            };
            assert(digits[k] == c);
        }
        if digits.contains(c) {
            let k = choose|k: int| 0 <= k < digits.len() && digits[k] == c;
            assert(is_hex_digit(digits[k]));
        }
    }
    if is_commit_hash(sha) {
        assert forall|i: int| 0 <= i < sha.len() implies digits.contains(#[trigger] sha[i]) by {
            assert(is_hex_digit(sha[i]));
        }
    }
    if forall|i: int| 0 <= i < sha.len() ==> digits.contains(#[trigger] sha[i]) {
        assert forall|i: int| 0 <= i < sha.len() implies is_hex_digit(#[trigger] sha[i]) by {
            assert(digits.contains(sha[i]));
        }
    }
}

} // verus!
