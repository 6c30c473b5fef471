//! What the commands accept and print.
use crate::cli::RepoType;
use crate::config::TokenSource;
use crate::download::selection;
use crate::error;
use crate::error::{message_error, AppResult};
use crate::hub::listing;
use crate::hub::{
    Identity, IdentityOrganization, OrganizationRecord, RepositoryRecord, TreeEntry, TreeEntryView,
    UserRecord, TOKEN_SETTINGS_URL,
};
use crate::patterns::{PatternSet, PatternSetView};
use crate::text;
use crate::text::{contains_char, decimal_text, escape_owned, join_texts};
use vstd::prelude::*;

verus! {

/// Whether a text can be the name of a user or an organization.
pub open spec fn is_namespace(owner: Seq<char>) -> bool {
    owner.len() > 0 && !owner.contains('/')
}

pub fn validate_owner(owner: &str) -> (res: AppResult<()>)
    ensures
        match res {
            Ok(()) => is_namespace(owner@),
            Err(error) => !is_namespace(owner@) && error::says(
                error,
                "owner must be a single non-empty Hub namespace"@,
            ),
        },
{
    if owner.is_empty() || contains_char(owner, '/') {
        Err(message_error("owner must be a single non-empty Hub namespace"))
    } else {
        Ok(())
    }
}

/// What asks for a token.
pub fn login_prompt() -> (res: String)
    ensures
        res@ == "Create a token: "@ + "https://huggingface.co/settings/tokens"@
            + "\nHugging Face token: "@,
{
    let mut prompt = "Create a token: ".to_owned();
    prompt.append(TOKEN_SETTINGS_URL);
    prompt.append("\nHugging Face token: ");
    prompt
}

// ---------------------------------------------------------------------------
// Search results
// ---------------------------------------------------------------------------

/// The line of a user or an organization: the identifier, and the display name if
/// there is one.
pub open spec fn name_line(id: Seq<char>, name: Option<Seq<char>>) -> Seq<char> {
    match name {
        Some(name) => if name.len() > 0 {
            text::escaped(id) + "\t"@ + text::escaped(name) + "\n"@
        } else {
            text::escaped(id) + "\n"@
        },
        None => text::escaped(id) + "\n"@,
    }
}

pub fn write_name_record(output: &mut String, id: &str, name: Option<&str>)
    ensures
        final(output)@ == old(output)@ + name_line(id@, text::optional_str(name)),
{
    let ghost before = output@;
    output.append(&escape_owned(id));
    if let Some(name) = name {
        if !name.is_empty() {
            output.append("\t");
            output.append(&escape_owned(name));
        }
    }
    output.append("\n");
    proof {
        assert(output@ =~= before + name_line(id@, text::optional_str(name)));
    }
}

fn write_optional_name(output: &mut String, id: &str, name: &Option<String>)
    ensures
        final(output)@ == old(output)@ + name_line(id@, text::optional_text(*name)),
{
    match name {
        Some(name) => write_name_record(output, id, Some(name.as_str())),
        None => write_name_record(output, id, None),
    }
}

/// The lines of users.
pub open spec fn user_lines(records: Seq<UserRecord>) -> Seq<char>
    decreases records.len(),
{
    if records.len() == 0 {
        Seq::empty()
    } else {
        user_lines(records.drop_last()) + name_line(
            records.last().id@,
            text::optional_text(records.last().name),
        )
    }
}

pub fn write_users(records: &Vec<UserRecord>) -> (res: String)
    ensures
        res@ == user_lines(records@),
{
    let mut output = String::new();
    let mut i: usize = 0;
    while i < records.len()
        invariant
            i <= records@.len(),
            output@ == user_lines(records@.take(i as int)),
        decreases records@.len() - i,
    {
        proof {
            assert(records@.take(i + 1).drop_last() =~= records@.take(i as int));
        }
        write_optional_name(&mut output, &records[i].id, &records[i].name);
        i = i + 1;
    }
    proof {
        assert(records@.take(i as int) =~= records@);
    }
    output
}

/// The lines of organizations.
pub open spec fn organization_lines(records: Seq<OrganizationRecord>) -> Seq<char>
    decreases records.len(),
{
    if records.len() == 0 {
        Seq::empty()
    } else {
        organization_lines(records.drop_last()) + name_line(
            records.last().id@,
            text::optional_text(records.last().name),
        )
    }
}

pub fn write_organizations(records: &Vec<OrganizationRecord>) -> (res: String)
    ensures
        res@ == organization_lines(records@),
{
    let mut output = String::new();
    let mut i: usize = 0;
    while i < records.len()
        invariant
            i <= records@.len(),
            output@ == organization_lines(records@.take(i as int)),
        decreases records@.len() - i,
    {
        proof {
            assert(records@.take(i + 1).drop_last() =~= records@.take(i as int));
        }
        write_optional_name(&mut output, &records[i].id, &records[i].name);
        i = i + 1;
    }
    proof {
        assert(records@.take(i as int) =~= records@);
    }
    output
}

/// The line of a repository: its type, its name and who may see it.
pub open spec fn repository_line(record: RepositoryRecord) -> Seq<char> {
    record.repo_type.singular_word() + "\t"@ + text::escaped(record.id@) + "\t"@ + (
    if record.private {
        "private"@
    } else {
        "public"@
    }) + "\n"@
}

/// The lines of repositories.
pub open spec fn repository_lines(records: Seq<RepositoryRecord>) -> Seq<char>
    decreases records.len(),
{
    if records.len() == 0 {
        Seq::empty()
    } else {
        repository_lines(records.drop_last()) + repository_line(records.last())
    }
}

pub fn write_repositories(records: &Vec<RepositoryRecord>) -> (res: String)
    ensures
        res@ == repository_lines(records@),
{
    let mut output = String::new();
    let mut i: usize = 0;
    while i < records.len()
        invariant
            i <= records@.len(),
            output@ == repository_lines(records@.take(i as int)),
        decreases records@.len() - i,
    {
        proof {
            assert(records@.take(i + 1).drop_last() =~= records@.take(i as int));
        }
        let mut line = records[i].repo_type.singular().to_owned();
        line.append("\t");
        line.append(&escape_owned(&records[i].id));
        line.append("\t");
        line.append(if records[i].private { "private" } else { "public" });
        line.append("\n");
        output.append(&line);
        i = i + 1;
    }
    proof {
        assert(records@.take(i as int) =~= records@);
    }
    output
}

// ---------------------------------------------------------------------------
// Repository contents
// ---------------------------------------------------------------------------

/// The entries that patterns select, in their order.
pub open spec fn chosen(entries: Seq<TreeEntry>, patterns: PatternSetView) -> Seq<TreeEntry>
    decreases entries.len(),
{
    if entries.len() == 0 {
        Seq::empty()
    } else {
        let before = chosen(entries.drop_last(), patterns);
        if patterns.selects(entries.last()@.path) {
            before.push(entries.last())
        } else {
            before
        }
    }
}

/// The entries whose verdict is set, in their order.
pub open spec fn picked(entries: Seq<TreeEntry>, verdicts: Seq<bool>) -> Seq<TreeEntry>
    decreases entries.len(),
{
    if entries.len() == 0 {
        Seq::empty()
    } else {
        let before = picked(entries.drop_last(), verdicts.drop_last());
        if verdicts.last() {
            before.push(entries.last())
        } else {
            before
        }
    }
}

proof fn lemma_picked_is_chosen(
    entries: Seq<TreeEntry>,
    patterns: PatternSetView,
    verdicts: Seq<bool>,
)
    requires
        verdicts.len() == entries.len(),
        forall|i: int|
            0 <= i < entries.len() ==> verdicts[i] == patterns.selects(
                (#[trigger] entries[i]).path@,
            ),
    ensures
        picked(entries, verdicts) == chosen(entries, patterns),
    decreases entries.len(),
{
    if entries.len() > 0 {
        let front = entries.drop_last();
        assert(forall|i: int| 0 <= i < front.len() ==> #[trigger] front[i] == entries[i]);
        lemma_picked_is_chosen(front, patterns, verdicts.drop_last());
        assert(verdicts[entries.len() - 1] == patterns.selects(entries[entries.len() - 1].path@));
    }
}

/// What is picked are the listed entries whose verdict is set, and no others.
pub proof fn lemma_picked_entries_are_listed(
    entries: Seq<TreeEntry>,
    verdicts: Seq<bool>,
    entry: TreeEntry,
)
    requires
        verdicts.len() == entries.len(),
    ensures
        picked(entries, verdicts).contains(entry) <==> exists|i: int|
            0 <= i < entries.len() && #[trigger] entries[i] == entry && verdicts[i],
    decreases entries.len(),
{
    if entries.len() > 0 {
        let n = entries.len() - 1;
        let front = entries.drop_last();
        let before = picked(front, verdicts.drop_last());
        let all = picked(entries, verdicts);
        lemma_picked_entries_are_listed(front, verdicts.drop_last(), entry);
        if before.contains(entry) {
            let i = choose|i: int|
                0 <= i < front.len() && #[trigger] front[i] == entry
                    && verdicts.drop_last()[i];
            assert(entries[i] == entry);
            let k = choose|k: int| 0 <= k < before.len() && before[k] == entry;
            assert(all[k] == entry);
        }
        if all.contains(entry) && !before.contains(entry) {
            let k = choose|k: int| 0 <= k < all.len() && all[k] == entry;
            assert(k == before.len());
            assert(entries[n] == entry);
        }
        if exists|i: int|
            0 <= i < entries.len() && #[trigger] entries[i] == entry && verdicts[i] {
            let i = choose|i: int|
                0 <= i < entries.len() && #[trigger] entries[i] == entry && verdicts[i];
            if i < n {
                assert(front[i] == entry);
            } else {
                assert(all[before.len() as int] == entry);
            }
        }
    }
}

/// The entries that patterns select. When patterns were given, there must be one. Where it
/// depends on the machine whether an entry is selected, either may be.
pub fn select_tree(entries: &Vec<TreeEntry>, patterns: &PatternSet, filtered: bool) -> (res: AppResult<
    Vec<TreeEntry>,
>)
    ensures
        match res {
            Ok(selected) => !(filtered && selected@.len() == 0),
            Err(error) => filtered && error::says(error, "tree patterns matched no entries"@),
        },
        exists|verdicts: Seq<bool>|
            selection::allowed(entries@, patterns@, verdicts) && match res {
                Ok(selected) => selected@ == #[trigger] picked(entries@, verdicts),
                Err(_) => picked(entries@, verdicts).len() == 0,
            },
        selection::decided(entries@, patterns@) ==> match res {
            Ok(selected) => selected@ == chosen(entries@, patterns@),
            Err(_) => chosen(entries@, patterns@).len() == 0,
        },
{
    let mut selected: Vec<TreeEntry> = Vec::new();
    let ghost mut verdicts: Seq<bool> = Seq::empty();
    let mut i: usize = 0;
    while i < entries.len()
        invariant
            i <= entries@.len(),
            selection::allowed(entries@.take(i as int), patterns@, verdicts),
            selected@ == picked(entries@.take(i as int), verdicts),
        decreases entries@.len() - i,
    {
        let ghost before = verdicts;
        let verdict = patterns.selects(&entries[i].path);
        if verdict {
            selected.push(entries[i].clone());
        }
        proof {
            verdicts = verdicts.push(verdict);
            let next = entries@.take(i + 1);
            assert(next.drop_last() =~= entries@.take(i as int));
            assert(next.last() == entries@[i as int]);
            assert(verdicts.drop_last() =~= before);
            assert forall|k: int| 0 <= k < next.len() implies patterns@.allows(
                (#[trigger] next[k]).path@,
                verdicts[k],
            ) by {
                if k < i {
                    assert(next[k] == entries@.take(i as int)[k]);
                }
            }
        }
        i = i + 1;
    }
    proof {
        assert(entries@.take(i as int) =~= entries@);
        assert(picked(entries@, verdicts) == selected@);
        if selection::decided(entries@, patterns@) {
            selection::lemma_decided_verdicts(entries@, patterns@, verdicts);
            lemma_picked_is_chosen(entries@, patterns@, verdicts);
        }
    }
    if filtered && selected.len() == 0 {
        return Err(message_error("tree patterns matched no entries"));
    }
    Ok(selected)
}

/// The line of an entry. Only a file has a size.
pub open spec fn entry_line(entry: TreeEntryView) -> Seq<char> {
    if entry.is_directory() {
        "dir\t"@ + text::escaped(entry.path) + "\n"@
    } else {
        "file\t"@ + text::decimal(entry.size as nat) + "\t"@ + text::escaped(entry.path) + "\n"@
    }
}

/// The lines of entries.
pub open spec fn entry_lines(entries: Seq<TreeEntryView>) -> Seq<char>
    decreases entries.len(),
{
    if entries.len() == 0 {
        Seq::empty()
    } else {
        entry_lines(entries.drop_last()) + entry_line(entries.last())
    }
}

pub fn write_tree(entries: &Vec<TreeEntry>) -> (res: String)
    ensures
        res@ == entry_lines(listing::entry_views(entries@)),
{
    let ghost all = listing::entry_views(entries@);
    let mut output = String::new();
    let mut i: usize = 0;
    while i < entries.len()
        invariant
            i <= entries@.len(),
            all == listing::entry_views(entries@),
            output@ == entry_lines(all.take(i as int)),
        decreases entries@.len() - i,
    {
        proof {
            assert(all.take(i + 1).drop_last() =~= all.take(i as int));
            assert(all.take(i + 1).last() == entries@[i as int]@);
        }
        let mut line = if entries[i].is_directory() {
            "dir\t".to_owned()
        } else {
            let mut line = "file\t".to_owned();
            line.append(&decimal_text(entries[i].size));
            line.append("\t");
            line
        };
        line.append(&escape_owned(&entries[i].path));
        line.append("\n");
        output.append(&line);
        i = i + 1;
    }
    proof {
        assert(all.take(i as int) =~= all);
    }
    output
}

// ---------------------------------------------------------------------------
// Authentication
// ---------------------------------------------------------------------------

/// What is printed after a login.
pub fn login_report(name: &str, environment_token_is_set: bool) -> (res: String)
    ensures
        res@ == "Logged in as "@ + text::escaped(name@) + "\n"@ + (if environment_token_is_set {
            "HF_TOKEN remains active and overrides the stored token.\n"@
        } else {
            Seq::empty()
        }),
{
    let mut report = "Logged in as ".to_owned();
    report.append(&escape_owned(name));
    report.append("\n");
    if environment_token_is_set {
        report.append("HF_TOKEN remains active and overrides the stored token.\n");
    }
    proof {
        if !environment_token_is_set {
            assert(report@ + Seq::<char>::empty() =~= report@);
        }
    }
    report
}

/// The names of organizations as they are shown.
pub open spec fn shown_names(organizations: Seq<IdentityOrganization>) -> Seq<Seq<char>> {
    organizations.map_values(|o: IdentityOrganization| text::escaped(o.name@))
}

/// What is printed of the user that a token belongs to.
pub open spec fn identity_lines(identity: Identity, source: TokenSource) -> Seq<char> {
    let first = text::escaped(identity.name@) + "\ntoken: "@ + (match source {
        TokenSource::Environment => "HF_TOKEN"@,
        TokenSource::File => "XDG token file"@,
    }) + "\n"@;
    if identity.orgs@.len() == 0 {
        first
    } else {
        first + "orgs: "@ + text::join(shown_names(identity.orgs@), ", "@) + "\n"@
    }
}

/// What is printed of the user that a token belongs to.
pub fn status_report(identity: &Identity, source: TokenSource) -> (res: String)
    ensures
        res@ == identity_lines(*identity, source),
{
    let mut report = escape_owned(&identity.name);
    report.append("\ntoken: ");
    report.append(
        match source {
            TokenSource::Environment => "HF_TOKEN",
            TokenSource::File => "XDG token file",
        },
    );
    report.append("\n");
    if identity.orgs.len() == 0 {
        return report;
    }
    let ghost all = shown_names(identity.orgs@);
    let mut names: Vec<String> = Vec::new();
    let mut i: usize = 0;
    while i < identity.orgs.len()
        invariant
            i <= identity.orgs@.len(),
            all == shown_names(identity.orgs@),
            text::texts(names@) == all.take(i as int),
        decreases identity.orgs@.len() - i,
    {
        let ghost before = names@;
        let name = escape_owned(&identity.orgs[i].name);
        names.push(name);
        i = i + 1;
        proof {
            assert(text::texts(names@) =~= text::texts(before).push(name@));
            assert(text::texts(names@) =~= all.take(i as int));
        }
    }
    proof {
        assert(all.take(i as int) =~= all);
    }
    report.append("orgs: ");
    report.append(&join_texts(&names, ", "));
    report.append("\n");
    report
}

/// What is printed after a logout.
pub open spec fn logout_line(removed: bool, environment_token_is_set: bool) -> Seq<char> {
    match (removed, environment_token_is_set) {
        (true, true) => "Stored token removed; HF_TOKEN remains active.\n"@,
        (true, false) => "Stored token removed.\n"@,
        (false, true) => "No stored token; HF_TOKEN remains active.\n"@,
        (false, false) => "No stored token.\n"@,
    }
}

pub fn logout_report(removed: bool, environment_token_is_set: bool) -> (res: &'static str)
    ensures
        res@ == logout_line(removed, environment_token_is_set),
{
    match (removed, environment_token_is_set) {
        (true, true) => "Stored token removed; HF_TOKEN remains active.\n",
        (true, false) => "Stored token removed.\n",
        (false, true) => "No stored token; HF_TOKEN remains active.\n",
        (false, false) => "No stored token.\n",
    }
}

// ---------------------------------------------------------------------------
// Laws
// ---------------------------------------------------------------------------

/// An owner is any name without a slash; an empty one is none.
pub proof fn lemma_owners_have_no_slash(owner: Seq<char>)
    ensures
        is_namespace(owner) <==> owner.len() > 0 && forall|i: int|
            0 <= i < owner.len() ==> #[trigger] owner[i] != '/',
{
    if owner.contains('/') {
        let i = choose|i: int| 0 <= i < owner.len() && owner[i] == '/';
        assert(owner[i] == '/');
    }
}

/// A user or an organization is printed on one line: the identifier and, behind a tab, the
/// full name if there is one that is not empty.
pub proof fn lemma_names_are_printed_behind_identifiers(id: Seq<char>, name: Seq<char>)
    ensures
        name_line(id, None) == text::escaped(id).push('\n'),
        name_line(id, Some(Seq::empty())) == text::escaped(id).push('\n'),
        name.len() > 0 ==> name_line(id, Some(name)) == (text::escaped(id).push('\t')
            + text::escaped(name)).push('\n'),
{
    reveal_strlit("\n");
    reveal_strlit("\t");
    assert(name_line(id, None) =~= text::escaped(id).push('\n'));
    assert(name_line(id, Some(Seq::empty())) =~= text::escaped(id).push('\n'));
    if name.len() > 0 {
        assert(name_line(id, Some(name)) =~= (text::escaped(id).push('\t')
            + text::escaped(name)).push('\n'));
    }
}

/// A repository is printed on one line: its type, its name, and whether it is private or
/// public, with tabs between them.
pub proof fn lemma_repositories_are_printed_with_who_may_see_them(record: RepositoryRecord)
    ensures
        repository_line(record) == ((match record.repo_type {
            RepoType::Model => "model"@,
            RepoType::Dataset => "dataset"@,
            RepoType::Space => "space"@,
        }).push('\t') + text::escaped(record.id@).push('\t') + if record.private {
            "private"@
        } else {
            "public"@
        }).push('\n'),
{
    reveal_strlit("\n");
    reveal_strlit("\t");
    assert(repository_line(record) =~= (record.repo_type.singular_word().push('\t')
        + text::escaped(record.id@).push('\t') + if record.private {
        "private"@
    } else {
        "public"@
    }).push('\n'));
}

/// A directory is printed by its path alone, a file with its size before it.
pub proof fn lemma_files_are_printed_with_their_size(entry: TreeEntryView)
    ensures
        entry.entry_type == "directory"@ ==> entry_line(entry) == ("dir"@.push('\t')
            + text::escaped(entry.path)).push('\n'),
        entry.entry_type == "file"@ ==> entry_line(entry) == ("file"@.push('\t') + text::decimal(
            entry.size as nat,
        ).push('\t') + text::escaped(entry.path)).push('\n'),
{
    reveal_strlit("\n");
    reveal_strlit("\t");
    reveal_strlit("dir");
    reveal_strlit("dir\t");
    reveal_strlit("file");
    reveal_strlit("file\t");
    reveal_strlit("directory");
    assert("dir\t"@ =~= "dir"@.push('\t'));
    assert("file\t"@ =~= "file"@.push('\t'));
    assert("file"@.len() != "directory"@.len());
    if entry.entry_type == "directory"@ {
        assert(entry_line(entry) =~= ("dir"@.push('\t') + text::escaped(entry.path)).push('\n'));
    }
    if entry.entry_type == "file"@ {
        assert(entry_line(entry) =~= ("file"@.push('\t') + text::decimal(entry.size as nat).push(
            '\t',
        ) + text::escaped(entry.path)).push('\n'));
    }
}

/// Users are printed one line after the other, in their order.
pub proof fn lemma_users_are_printed_in_order(records: Seq<UserRecord>, record: UserRecord)
    ensures
        user_lines(Seq::empty()) == Seq::<char>::empty(),
        user_lines(records.push(record)) == user_lines(records) + name_line(
            record.id@,
            match record.name {
                Some(name) => Some(name@),
                None => None,
            },
        ),
{
    assert(records.push(record).drop_last() =~= records);
}

/// Organizations are printed one line after the other, in their order.
pub proof fn lemma_organizations_are_printed_in_order(
    records: Seq<OrganizationRecord>,
    record: OrganizationRecord,
)
    ensures
        organization_lines(Seq::empty()) == Seq::<char>::empty(),
        organization_lines(records.push(record)) == organization_lines(records) + name_line(
            record.id@,
            match record.name {
                Some(name) => Some(name@),
                None => None,
            },
        ),
{
    assert(records.push(record).drop_last() =~= records);
}

/// Repositories and entries are printed one line after the other, in their order.
pub proof fn lemma_lines_are_printed_in_order(
    records: Seq<RepositoryRecord>,
    record: RepositoryRecord,
    entries: Seq<TreeEntryView>,
    entry: TreeEntryView,
)
    ensures
        repository_lines(Seq::empty()) == Seq::<char>::empty(),
        repository_lines(records.push(record)) == repository_lines(records) + repository_line(
            record,
        ),
        entry_lines(Seq::empty()) == Seq::<char>::empty(),
        entry_lines(entries.push(entry)) == entry_lines(entries) + entry_line(entry),
{
    assert(records.push(record).drop_last() =~= records);
    assert(entries.push(entry).drop_last() =~= entries);
}

/// The chosen entries are those whose paths the patterns select, in their order.
pub proof fn lemma_chosen_entries_are_those_that_patterns_select(
    entries: Seq<TreeEntry>,
    patterns: PatternSetView,
)
    ensures
        chosen(entries, patterns) == entries.filter(
            |entry: TreeEntry| patterns.selects(entry.path@),
        ),
    decreases entries.len(),
{
    reveal(Seq::filter);
    if entries.len() > 0 {
        lemma_chosen_entries_are_those_that_patterns_select(entries.drop_last(), patterns);
    }
}

/// The status names the user, where the token comes from, and the organizations, with commas
/// between them, if there are any.
pub proof fn lemma_status_names_user_token_and_organizations(
    identity: Identity,
    source: TokenSource,
)
    ensures
        ({
            let first = text::escaped(identity.name@) + "\ntoken: "@ + (match source {
                TokenSource::Environment => "HF_TOKEN"@,
                TokenSource::File => "XDG token file"@,
            }).push('\n');
            &&& identity.orgs@.len() == 0 ==> identity_lines(identity, source) == first
            &&& identity.orgs@.len() > 0 ==> identity_lines(identity, source) == first + "orgs: "@
                + text::join(
                Seq::new(
                    identity.orgs@.len(),
                    |i: int| text::escaped(identity.orgs@[i].name@),
                ),
                ", "@,
            ).push('\n')
        }),
{
    reveal_strlit("\n");
    let first = text::escaped(identity.name@) + "\ntoken: "@ + (match source {
        TokenSource::Environment => "HF_TOKEN"@,
        TokenSource::File => "XDG token file"@,
    }).push('\n');
    let names = Seq::new(identity.orgs@.len(), |i: int| text::escaped(identity.orgs@[i].name@));
    assert(shown_names(identity.orgs@) =~= names);
    if identity.orgs@.len() == 0 {
        assert(identity_lines(identity, source) =~= first);
    } else {
        assert(identity_lines(identity, source) =~= first + "orgs: "@ + text::join(
            names,
            ", "@,
        ).push('\n'));
    }
}

/// A logout tells whether a token was removed, and whether one of the environment stays.
pub proof fn lemma_logout_tells_what_was_removed_and_what_stays(removed: bool, environment: bool)
    ensures
        logout_line(removed, environment) == (if removed {
            "Stored token removed"@
        } else {
            "No stored token"@
        }) + (if environment {
            "; HF_TOKEN remains active.\n"@
        } else {
            ".\n"@
        }),
{
    reveal_strlit("Stored token removed");
    reveal_strlit("No stored token");
    reveal_strlit("; HF_TOKEN remains active.\n");
    reveal_strlit(".\n");
    reveal_strlit("Stored token removed; HF_TOKEN remains active.\n");
    reveal_strlit("Stored token removed.\n");
    reveal_strlit("No stored token; HF_TOKEN remains active.\n");
    reveal_strlit("No stored token.\n");
    assert(logout_line(removed, environment) =~= (if removed {
        "Stored token removed"@
    } else {
        "No stored token"@
    }) + (if environment {
        "; HF_TOKEN remains active.\n"@
    } else {
        ".\n"@
    }));
}

} // verus!
