//! The commands of the program and their arguments.
use crate::text;
use crate::text::{parse_number, split_text};
use std::path::PathBuf;
use std::str::FromStr;
use vstd::prelude::*;

verus! {

/// `std::path::PathBuf`, which is only carried from the command line to the file
/// system.
#[verifier::external_type_specification]
#[verifier::external_body]
pub struct ExPathBuf(PathBuf);

#[derive(Debug)]
pub struct Cli {
    pub command: Command,
}

#[derive(Debug)]
#[allow(inconsistent_fields)]
pub enum Command {
    /// Search Hub users, organizations, and repositories.
    Search { command: SearchCommand },
    /// List repositories and inspect repository contents.
    Repo { command: RepoCommand },
    /// Download files selected by exact paths or repository-relative globs.
    Download(DownloadArgs),
    /// Manage the stored Hugging Face token.
    Auth { command: AuthCommand },
}

#[derive(Debug)]
pub enum SearchCommand {
    /// Search user accounts.
    Users(SearchPeopleArgs),
    /// Search organizations.
    Orgs(SearchPeopleArgs),
    /// Search model, dataset, and Space repositories.
    Repos(SearchReposArgs),
}

#[derive(Debug)]
pub struct SearchPeopleArgs {
    /// Search text.
    pub query: String,
    /// Maximum number of results.
    pub limit: usize,
    /// Emit a JSON array instead of human-readable rows.
    pub json: bool,
}

#[derive(Debug)]
pub struct SearchReposArgs {
    /// Search text.
    pub query: String,
    /// Restrict results to one user or organization namespace.
    pub owner: Option<String>,
    /// Restrict results to one repository type.
    pub repo_type: Option<RepoType>,
    /// Maximum number of results.
    pub limit: usize,
    /// Emit a JSON array instead of human-readable rows.
    pub json: bool,
}

#[derive(Debug)]
pub enum RepoCommand {
    /// List repositories owned by a user or organization.
    List(RepoListArgs),
    /// List a repository tree, optionally filtered by globs.
    Tree(RepoTreeArgs),
    /// Write one repository file to standard output.
    Cat(RepoCatArgs),
}

#[derive(Debug)]
pub struct RepoListArgs {
    /// User or organization namespace; defaults to the authenticated user.
    pub owner: Option<String>,
    /// Restrict results to one repository type.
    pub repo_type: Option<RepoType>,
    /// Maximum number of results.
    pub limit: usize,
    /// Emit a JSON array instead of human-readable rows.
    pub json: bool,
}

#[derive(Debug)]
pub struct RepoTreeArgs {
    /// Repository identifier in OWNER/NAME form.
    pub repo: RepoSpec,
    /// Exact paths or globs; prefix a quoted pattern with ! to subtract it.
    pub patterns: Vec<String>,
    /// Repository type.
    pub repo_type: RepoType,
    /// Branch, tag, or commit.
    pub revision: String,
    /// Emit a JSON array instead of human-readable rows.
    pub json: bool,
}

#[derive(Debug)]
pub struct RepoCatArgs {
    /// Repository identifier in OWNER/NAME form.
    pub repo: RepoSpec,
    /// Exact repository-relative file path.
    pub path: String,
    /// Repository type.
    pub repo_type: RepoType,
    /// Branch, tag, or commit.
    pub revision: String,
}

#[derive(Debug)]
pub struct DownloadArgs {
    /// Repository identifier in OWNER/NAME form.
    pub repo: RepoSpec,
    /// Exact paths or globs; prefix a quoted pattern with ! to subtract it.
    pub patterns: Vec<String>,
    /// Repository type.
    pub repo_type: RepoType,
    /// Branch, tag, or commit.
    pub revision: String,
    /// Destination directory; defaults to the current directory.
    pub directory: Option<PathBuf>,
    /// Replace existing regular files.
    pub force: bool,
    /// Maximum number of simultaneous HTTP transfers.
    pub jobs: usize,
    /// Print selected paths without writing files.
    pub dry_run: bool,
}

#[derive(Debug)]
pub enum AuthCommand {
    /// Validate and store a Hugging Face token.
    Login {
        /// Read the token from standard input instead of prompting.
        with_token: bool,
    },
    /// Show the authenticated account and token source.
    Status,
    /// Remove the token stored by xhf.
    Logout,
}

/// The kinds of repositories on the Hub.
#[derive(Clone, Copy, Debug, PartialEq, Eq, Structural)]
pub enum RepoType {
    Model,
    Dataset,
    Space,
}

impl Default for RepoType {
    fn default() -> (res: Self)
        ensures
            res == RepoType::Model,
    {
        RepoType::Model
    }
}

impl RepoType {
    /// The word for one repository of the type.
    pub open spec fn singular_word(self) -> Seq<char> {
        match self {
            RepoType::Model => "model"@,
            RepoType::Dataset => "dataset"@,
            RepoType::Space => "space"@,
        }
    }

    /// The word for repositories of the type.
    pub open spec fn plural_word(self) -> Seq<char> {
        match self {
            RepoType::Model => "models"@,
            RepoType::Dataset => "datasets"@,
            RepoType::Space => "spaces"@,
        }
    }

    /// What stands before the owner in the address of a repository's page.
    pub open spec fn prefix_word(self) -> Option<Seq<char>> {
        match self {
            RepoType::Model => None,
            RepoType::Dataset => Some("datasets"@),
            RepoType::Space => Some("spaces"@),
        }
    }

    pub fn singular(self) -> (res: &'static str)
        ensures
            res@ == self.singular_word(),
    {
        match self {
            RepoType::Model => "model",
            RepoType::Dataset => "dataset",
            RepoType::Space => "space",
        }
    }

    pub fn plural(self) -> (res: &'static str)
        ensures
            res@ == self.plural_word(),
    {
        match self {
            RepoType::Model => "models",
            RepoType::Dataset => "datasets",
            RepoType::Space => "spaces",
        }
    }

    pub fn url_prefix(self) -> (res: Option<&'static str>)
        ensures
            text::optional_str(res) == self.prefix_word(),
    {
        match self {
            RepoType::Model => None,
            RepoType::Dataset => Some("datasets"),
            RepoType::Space => Some("spaces"),
        }
    }
}

/// A repository: its owner and its name.
#[derive(Debug)]
pub struct RepoSpec {
    owner: String,
    name: String,
}

/// The value of a [`RepoSpec`].
pub struct RepoSpecView {
    pub owner: Seq<char>,
    pub name: Seq<char>,
}

impl RepoSpecView {
    /// Both parts are there and neither holds a slash.
    pub open spec fn well_formed(self) -> bool {
        &&& self.owner.len() > 0
        &&& self.name.len() > 0
        &&& !self.owner.contains('/')
        &&& !self.name.contains('/')
    }

    /// The repository in OWNER/NAME form.
    pub open spec fn written(self) -> Seq<char> {
        self.owner + seq!['/'] + self.name
    }
}

impl View for RepoSpec {
    type V = RepoSpecView;

    closed spec fn view(&self) -> RepoSpecView {
        RepoSpecView { owner: self.owner@, name: self.name@ }
    }
}

/// The repository that a text names, or why it names none.
pub open spec fn repository(value: Seq<char>) -> Result<RepoSpecView, Seq<char>> {
    let parts = text::split(value, '/');
    if parts.len() == 1 {
        Err("repository must be written as OWNER/NAME"@)
    } else if parts.len() == 2 && parts[0].len() > 0 && parts[1].len() > 0 {
        Ok(RepoSpecView { owner: parts[0], name: parts[1] })
    } else {
        Err("repository must contain exactly one non-empty OWNER/NAME pair"@)
    }
}

impl RepoSpec {
    /// Reads a repository in OWNER/NAME form.
    pub fn parse(value: &str) -> (res: Result<Self, String>)
        ensures
            match res {
                Ok(spec) => repository(value@) == Ok::<RepoSpecView, Seq<char>>(spec@)
                    && spec@.well_formed(),
                Err(message) => repository(value@) == Err::<RepoSpecView, Seq<char>>(message@),
            },
    {
        let mut parts = split_text(value, '/');
        proof {
            text::lemma_split(value@, '/');
            assert(text::texts(parts@).len() == parts@.len());
        }
        if parts.len() == 1 {
            return Err("repository must be written as OWNER/NAME".to_owned());
        }
        let ghost written = text::texts(parts@);
        if parts.len() == 2 {
            proof {
                assert(written[0] == parts@[0]@);
                assert(written[1] == parts@[1]@);
            }
            if !parts[0].as_str().is_empty() && !parts[1].as_str().is_empty() {
                let name = parts.remove(1);
                let owner = parts.remove(0);
                return Ok(RepoSpec { owner, name });
            }
        }
        Err("repository must contain exactly one non-empty OWNER/NAME pair".to_owned())
    }

    pub fn owner(&self) -> (res: &str)
        ensures
            res@ == self@.owner,
    {
        &self.owner
    }

    pub fn name(&self) -> (res: &str)
        ensures
            res@ == self@.name,
    {
        &self.name
    }

    /// The repository in OWNER/NAME form.
    pub fn text(&self) -> (res: String)
        ensures
            res@ == self@.written(),
    {
        let mut out = self.owner.clone();
        out.push('/');
        out.append(self.name.as_str());
        proof {
            assert(out@ =~= self@.written());
        }
        out
    }
}

impl Clone for RepoSpec {
    fn clone(&self) -> (res: Self)
        ensures
            res@ == self@,
    {
        RepoSpec { owner: self.owner.clone(), name: self.name.clone() }
    }
}

impl FromStr for RepoSpec {
    type Err = String;

    fn from_str(value: &str) -> (res: Result<Self, String>)
        ensures
            match res {
                Ok(spec) => repository(value@) == Ok::<RepoSpecView, Seq<char>>(spec@)
                    && spec@.well_formed(),
                Err(message) => repository(value@) == Err::<RepoSpecView, Seq<char>>(message@),
            },
    {
        RepoSpec::parse(value)
    }
}

/// A repository is written as the text that it was read from.
pub proof fn lemma_repository_is_written_as_read(value: Seq<char>)
    ensures
        repository(value) matches Ok(spec) ==> spec.well_formed() && spec.written() == value,
{
    text::lemma_split(value, '/');
    let parts = text::split(value, '/');
    if repository(value) is Ok {
        assert(parts.drop_last() =~= seq![parts[0]]);
        assert(text::join(parts.drop_last(), seq!['/']) == parts[0]);
    }
}

/// A repository is read back from what it is written as.
pub proof fn lemma_repository_is_read_as_written(spec: RepoSpecView)
    requires
        spec.well_formed(),
    ensures
        repository(spec.written()) == Ok::<RepoSpecView, Seq<char>>(spec),
{
    lemma_split_pair(spec.owner, spec.name);
}

proof fn lemma_split_pair(left: Seq<char>, right: Seq<char>)
    requires
        !left.contains('/'),
        !right.contains('/'),
    ensures
        text::split(left + seq!['/'] + right, '/') == seq![left, right],
    decreases right.len(),
{
    let whole = left + seq!['/'] + right;
    let front = whole.drop_last();
    if right.len() == 0 {
        assert(front =~= left);
        lemma_split_whole(left);
        assert(right =~= Seq::<char>::empty());
        assert(text::split(whole, '/') =~= seq![left, right]);
    } else {
        assert(front =~= left + seq!['/'] + right.drop_last());
        assert forall|i: int| 0 <= i < right.drop_last().len() implies right.drop_last()[i]
            != '/' by {
            assert(right.contains(right[i]));
        }
        lemma_split_pair(left, right.drop_last());
        assert(right.contains(right.last()));
        assert(right.drop_last().push(right.last()) =~= right);
        assert(text::split(whole, '/') =~= seq![left, right]);
    }
}

proof fn lemma_split_whole(whole: Seq<char>)
    requires
        !whole.contains('/'),
    ensures
        text::split(whole, '/') == seq![whole],
    decreases whole.len(),
{
    if whole.len() == 0 {
        assert(whole =~= Seq::<char>::empty());
        assert(text::split(whole, '/') =~= seq![whole]);
    } else {
        let front = whole.drop_last();
        assert forall|i: int| 0 <= i < front.len() implies front[i] != '/' by {
            assert(whole.contains(whole[i]));
        }
        lemma_split_whole(front);
        assert(whole.contains(whole.last()));
        assert(front.push(whole.last()) =~= whole);
        assert(text::split(whole, '/') =~= seq![whole]);
    }
}

/// The positive number that a text writes for the option `name`, or a message.
pub open spec fn positive(name: Seq<char>, value: Seq<char>) -> Result<nat, Seq<char>> {
    match text::number(value, usize::MAX as nat) {
        Ok(number) => if number == 0 {
            Err(name + " must be greater than zero"@)
        } else {
            Ok(number)
        },
        Err(error) => Err("invalid "@ + name + ": "@ + error.wording()),
    }
}

fn parse_positive(name: &str, value: &str) -> (res: Result<usize, String>)
    ensures
        match res {
            Ok(number) => positive(name@, value@) == Ok::<nat, Seq<char>>(number as nat),
            Err(message) => positive(name@, value@) == Err::<nat, Seq<char>>(message@),
        },
{
    match parse_number(value, usize::MAX as u64) {
        Ok(0) => {
            let mut message = name.to_owned();
            message.append(" must be greater than zero");
            Err(message)
        },
        Ok(number) => Ok(number as usize),
        Err(error) => {
            let mut message = "invalid ".to_owned();
            message.append(name);
            message.append(": ");
            message.append(error.describe());
            Err(message)
        },
    }
}

/// Reads the argument of `--limit`.
pub fn parse_limit(value: &str) -> (res: Result<usize, String>)
    ensures
        match res {
            Ok(limit) => positive("limit"@, value@) == Ok::<nat, Seq<char>>(limit as nat),
            Err(message) => positive("limit"@, value@) == Err::<nat, Seq<char>>(message@),
        },
{
    parse_positive("limit", value)
}

/// Reads the argument of `--jobs`.
pub fn parse_jobs(value: &str) -> (res: Result<usize, String>)
    ensures
        match res {
            Ok(jobs) => positive("jobs"@, value@) == Ok::<nat, Seq<char>>(jobs as nat),
            Err(message) => positive("jobs"@, value@) == Err::<nat, Seq<char>>(message@),
        },
{
    parse_positive("jobs", value)
}

/// A text names a repository exactly if it is an owner and a name with one slash between
/// them, neither empty nor with a slash inside. One without a slash is told the form; any
/// other one, that there must be exactly one pair.
pub proof fn lemma_repository_is_one_pair(value: Seq<char>, owner: Seq<char>, name: Seq<char>)
    ensures
        repository(value) == Ok::<RepoSpecView, Seq<char>>(RepoSpecView { owner, name }) <==> {
            &&& value == owner + seq!['/'] + name
            &&& owner.len() > 0 && !owner.contains('/')
            &&& name.len() > 0 && !name.contains('/')
        },
        !value.contains('/') ==> repository(value) == Err::<RepoSpecView, Seq<char>>(
            "repository must be written as OWNER/NAME"@,
        ),
        value.contains('/') ==> repository(value) is Ok || repository(value) == Err::<
            RepoSpecView,
            Seq<char>,
        >("repository must contain exactly one non-empty OWNER/NAME pair"@),
{
    let spec = RepoSpecView { owner, name };
    lemma_repository_is_written_as_read(value);
    if value == owner + seq!['/'] + name && spec.well_formed() {
        lemma_repository_is_read_as_written(spec);
    }
    text::lemma_divided(value, '/');
    match text::divided(value, '/') {
        None => {
            lemma_split_whole(value);
        },
        Some((left, right)) => {
            text::lemma_parts_stand_between_separators(left, right, '/');
            text::lemma_split(right, '/');
            if !value.contains('/') {
                assert(value[left.len() as int] == '/');
            }
        },
    }
}

/// An option takes exactly the numbers from one on that fit: each is read as it is written,
/// and zero is refused with the option's name.
pub proof fn lemma_only_positive_numbers_are_options(name: Seq<char>, value: Seq<char>, n: nat)
    ensures
        0 < n <= usize::MAX ==> positive(name, text::decimal(n)) == Ok::<nat, Seq<char>>(n),
        positive(name, text::decimal(0)) == Err::<nat, Seq<char>>(
            name + " must be greater than zero"@,
        ),
        n > usize::MAX ==> positive(name, text::decimal(n)) is Err,
        positive(name, value) matches Ok(number) ==> 0 < number <= usize::MAX && text::number(
            value,
            usize::MAX as nat,
        ) == Ok::<nat, text::NumberError>(number),
        value.len() == 0 ==> positive(name, value) == Err::<nat, Seq<char>>(
            "invalid "@ + name + ": "@ + "cannot parse integer from empty string"@,
        ),
        text::number(value, usize::MAX as nat) == Err::<nat, text::NumberError>(
            text::NumberError::InvalidDigit,
        ) ==> positive(name, value) == Err::<nat, Seq<char>>(
            "invalid "@ + name + ": "@ + "invalid digit found in string"@,
        ),
        text::number(value, usize::MAX as nat) == Err::<nat, text::NumberError>(
            text::NumberError::Overflow,
        ) ==> positive(name, value) == Err::<nat, Seq<char>>(
            "invalid "@ + name + ": "@ + "number too large to fit in target type"@,
        ),
{
    text::lemma_number_is_read_as_written(n, usize::MAX as nat);
    text::lemma_number_is_read_as_written(0, usize::MAX as nat);
    text::lemma_only_digits_are_numbers(value, usize::MAX as nat);
}

/// Each type has a word of its own. Several repositories have that word with an s, which
/// also begins the addresses of their pages, except for models.
pub proof fn lemma_words_of_types(repo_type: RepoType)
    ensures
        repo_type.singular_word() == (match repo_type {
            RepoType::Model => "model"@,
            RepoType::Dataset => "dataset"@,
            RepoType::Space => "space"@,
        }),
        repo_type.plural_word() == repo_type.singular_word().push('s'),
        repo_type.prefix_word() is None <==> repo_type == RepoType::Model,
        repo_type != RepoType::Model ==> repo_type.prefix_word() == Some(repo_type.plural_word()),
{
    reveal_strlit("model");
    reveal_strlit("models");
    reveal_strlit("dataset");
    reveal_strlit("datasets");
    reveal_strlit("space");
    reveal_strlit("spaces");
    assert("models"@ =~= "model"@.push('s'));
    assert("datasets"@ =~= "dataset"@.push('s'));
    assert("spaces"@ =~= "space"@.push('s'));
}

} // verus!
