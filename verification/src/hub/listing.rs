//! Listing the contents of a repository page by page.
use crate::cli::{RepoSpec, RepoType};
use crate::error::{detailed_error, message_error, AppError, AppResult, ErrorView};
use crate::hub;
use crate::hub::client;
use crate::hub::client::{HubClient, HubClientView, HubRequest, HubRequestView};
use crate::hub::{validate_remote_path, validate_revision, HeaderValue, HeaderView};
use crate::hub::{TreeEntry, TreeEntryView};
use crate::text;
use crate::text::{debug_of, same_text, split_once, split_text};
use crate::url;
use crate::url::{join_url, WebUrl, WebUrlView};
use vstd::prelude::*;

verus! {

// ---------------------------------------------------------------------------
// The link to the next page
// ---------------------------------------------------------------------------

/// What stands between the first `<` of a text and the next `>`.
pub open spec fn bracketed(part: Seq<char>) -> Option<Seq<char>> {
    match text::divided(part, '<') {
        Some((_, rest)) => match text::divided(rest, '>') {
            Some((target, _)) => Some(target),
            None => None,
        },
        None => None,
    }
}

/// The address that the first part which links to a next page names.
pub open spec fn linked(parts: Seq<Seq<char>>, endpoint: Seq<char>) -> Result<
    Option<WebUrlView>,
    Seq<char>,
>
    decreases parts.len(),
{
    if parts.len() == 0 {
        Ok(None)
    } else if !text::occurs("rel=\"next\""@, parts[0]) {
        linked(parts.drop_first(), endpoint)
    } else {
        match bracketed(parts[0]) {
            Some(target) => match url::url_join(endpoint, target) {
                Ok(url) => Ok(Some(url)),
                Err(reason) => Err("Hub returned an invalid next-page URL: "@ + reason),
            },
            None => Err("Hub returned a malformed next-page link"@),
        }
    }
}

/// The address of the next page that a `Link` header names.
pub open spec fn next_page(header: Option<HeaderView>, endpoint: Seq<char>) -> Result<
    Option<WebUrlView>,
    Seq<char>,
> {
    match header {
        None => Ok(None),
        Some(HeaderView::Text(value)) => linked(text::split(value, ','), endpoint),
        Some(HeaderView::Unreadable(reason)) => Err(
            "Hub returned a malformed pagination header: "@ + reason,
        ),
    }
}

/// The value of an optional address, or of the error that stands for it.
pub open spec fn followed(result: AppResult<Option<WebUrl>>) -> Result<
    Option<WebUrlView>,
    ErrorView,
> {
    match result {
        Ok(Some(url)) => Ok(Some(url@)),
        Ok(None) => Ok(None),
        Err(error) => Err(error@),
    }
}

/// A result whose error is a message.
pub open spec fn explained<T>(result: Result<T, Seq<char>>) -> Result<T, ErrorView> {
    match result {
        Ok(value) => Ok(value),
        Err(message) => Err(ErrorView::Message(message)),
    }
}

/// Reads the address of the next page out of the value of a `Link` header.
pub fn parse_next_link(value: &str, endpoint: &str) -> (res: AppResult<Option<WebUrl>>)
    ensures
        followed(res) == explained(linked(text::split(value@, ','), endpoint@)),
{
    let parts = split_text(value, ',');
    let ghost all = text::texts(parts@);
    let mut i: usize = 0;
    proof {
        assert(all.skip(0) =~= all);
    }
    while i < parts.len()
        invariant
            i <= parts@.len(),
            all == text::texts(parts@),
            all == text::split(value@, ','),
            linked(all, endpoint@) == linked(all.skip(i as int), endpoint@),
        decreases parts@.len() - i,
    {
        let ghost rest = all.skip(i as int);
        proof {
            assert(rest[0] == parts@[i as int]@);
            assert(rest.drop_first() =~= all.skip(i + 1));
        }
        if text::contains_text(&parts[i], "rel=\"next\"") {
            return match split_once(&parts[i], '<') {
                Some((_, rest)) => match split_once(&rest, '>') {
                    Some((target, _)) => match join_url(endpoint, &target) {
                        Ok(url) => Ok(Some(url)),
                        Err(reason) => Err(
                            detailed_error("Hub returned an invalid next-page URL: ", &reason),
                        ),
                    },
                    None => Err(message_error("Hub returned a malformed next-page link")),
                },
                None => Err(message_error("Hub returned a malformed next-page link")),
            };
        }
        i = i + 1;
    }
    Ok(None)
}

fn next_link(header: &Option<HeaderValue>, endpoint: &str) -> (res: AppResult<Option<WebUrl>>)
    ensures
        followed(res) == explained(next_page(hub::optional_header(*header), endpoint@)),
{
    match header {
        None => Ok(None),
        Some(HeaderValue::Text(value)) => parse_next_link(value, endpoint),
        Some(HeaderValue::Unreadable(reason)) => Err(
            detailed_error("Hub returned a malformed pagination header: ", reason),
        ),
    }
}

// ---------------------------------------------------------------------------
// The entries of a page
// ---------------------------------------------------------------------------

/// Why an entry is refused, if it is.
pub open spec fn entry_refusal(entry: TreeEntryView) -> Option<Seq<char>> {
    match hub::path_refusal(entry.path, false) {
        Some(message) => Some(message),
        None => if entry.is_file() || entry.is_directory() {
            None
        } else {
            Some(
                "Hub returned an unsupported tree entry type "@ + text::debug_text(
                    entry.entry_type,
                ) + " for "@ + text::debug_text(entry.path),
            )
        },
    }
}

/// Why the first refused entry of a page is refused, if there is one.
pub open spec fn page_refusal(entries: Seq<TreeEntryView>) -> Option<Seq<char>>
    decreases entries.len(),
{
    if entries.len() == 0 {
        None
    } else {
        match page_refusal(entries.drop_last()) {
            Some(message) => Some(message),
            None => entry_refusal(entries.last()),
        }
    }
}

/// The values of entries.
pub open spec fn entry_views(entries: Seq<TreeEntry>) -> Seq<TreeEntryView> {
    entries.map_values(|entry: TreeEntry| entry@)
}

fn validate_entry(entry: &TreeEntry) -> (res: AppResult<()>)
    ensures
        match res {
            Ok(()) => entry_refusal(entry@) is None,
            Err(error) => entry_refusal(entry@) matches Some(message) && error@
                == ErrorView::Message(message),
        },
{
    validate_remote_path(&entry.path, false)?;
    if !entry.is_file() && !entry.is_directory() {
        let mut message = "Hub returned an unsupported tree entry type ".to_owned();
        message.append(&debug_of(&entry.entry_type));
        message.append(" for ");
        message.append(&debug_of(&entry.path));
        return Err(AppError::message(message));
    }
    Ok(())
}

fn validate_page(page: &Vec<TreeEntry>) -> (res: AppResult<()>)
    ensures
        match res {
            Ok(()) => page_refusal(entry_views(page@)) is None,
            Err(error) => page_refusal(entry_views(page@)) matches Some(message) && error@
                == ErrorView::Message(message),
        },
{
    let ghost all = entry_views(page@);
    let mut i: usize = 0;
    while i < page.len()
        invariant
            i <= page@.len(),
            all == entry_views(page@),
            page_refusal(all.take(i as int)) is None,
        decreases page@.len() - i,
    {
        proof {
            assert(all.take(i + 1).drop_last() =~= all.take(i as int));
            assert(all.take(i + 1).last() == page@[i as int]@);
        }
        match validate_entry(&page[i]) {
            Ok(()) => {},
            Err(error) => {
                proof {
                    lemma_refusal_stays(all, i + 1);
                }
                return Err(error);
            },
        }
        i = i + 1;
    }
    proof {
        assert(all.take(i as int) =~= all);
    }
    Ok(())
}

proof fn lemma_refusal_stays(entries: Seq<TreeEntryView>, i: int)
    requires
        0 <= i <= entries.len(),
        page_refusal(entries.take(i)) is Some,
    ensures
        page_refusal(entries) == page_refusal(entries.take(i)),
    decreases entries.len(),
{
    if i == entries.len() {
        assert(entries.take(i) =~= entries);
    } else {
        assert(entries.drop_last().take(i) =~= entries.take(i));
        lemma_refusal_stays(entries.drop_last(), i);
    }
}

proof fn lemma_accepted_page(entries: Seq<TreeEntryView>)
    requires
        page_refusal(entries) is None,
    ensures
        forall|i: int|
            0 <= i < entries.len() ==> entry_refusal(#[trigger] entries[i]) is None,
    decreases entries.len(),
{
    if entries.len() > 0 {
        lemma_accepted_page(entries.drop_last());
        assert forall|i: int| 0 <= i < entries.len() implies entry_refusal(
            #[trigger] entries[i],
        ) is None by {
            if i < entries.len() - 1 {
                assert(entries.drop_last()[i] == entries[i]);
            }
        }
    }
}

// ---------------------------------------------------------------------------
// The listing
// ---------------------------------------------------------------------------

/// A listing under way: ask for a page, hand in the answer's `Link` header, then its
/// entries, until no page is left.
#[derive(Debug)]
pub struct TreeListing {
    next: Option<WebUrl>,
    visited: Vec<String>,
    entries: Vec<TreeEntry>,
}

/// The value of a [`TreeListing`].
pub struct TreeListingView {
    /// The page that is asked for next.
    pub next: Option<WebUrlView>,
    /// The addresses that were asked for.
    pub visited: Seq<Seq<char>>,
    /// The entries of the pages so far.
    pub entries: Seq<TreeEntryView>,
}

impl View for TreeListing {
    type V = TreeListingView;

    closed spec fn view(&self) -> TreeListingView {
        TreeListingView {
            next: match self.next {
                Some(url) => Some(url@),
                None => None,
            },
            visited: text::texts(self.visited@),
            entries: entry_views(self.entries@),
        }
    }
}

impl TreeListingView {
    /// No address was asked for twice, and every entry is a file or a directory with
    /// a path inside the repository.
    pub open spec fn well_formed(self) -> bool {
        &&& self.visited.no_duplicates()
        &&& forall|i: int|
            0 <= i < self.entries.len() ==> entry_refusal(#[trigger] self.entries[i]) is None
    }
}

/// The request for the next page, or why it is not sent. Nothing is asked for when
/// no page is left.
pub open spec fn page_request(listing: TreeListingView, client: HubClientView) -> Result<
    Option<HubRequestView>,
    Seq<char>,
> {
    match listing.next {
        None => Ok(None),
        Some(url) => if listing.visited.contains(url.text) {
            Err("Hub tree pagination returned a repeated cursor"@)
        } else {
            match client::origin_refusal(client, url) {
                Some(message) => Err(message),
                None => Ok(
                    Some(
                        client::request(
                            client,
                            url,
                            Seq::empty(),
                            "could not list repository contents"@,
                        ),
                    ),
                ),
            }
        },
    }
}

/// The listing once its next page was asked for.
pub open spec fn asked_for(listing: TreeListingView) -> TreeListingView {
    match listing.next {
        Some(url) if !listing.visited.contains(url.text) => TreeListingView {
            next: None,
            visited: listing.visited.push(url.text),
            entries: listing.entries,
        },
        _ => TreeListingView { next: None, ..listing },
    }
}

fn contains_text_in(texts: &Vec<String>, wanted: &str) -> (res: bool)
    ensures
        res == text::texts(texts@).contains(wanted@),
{
    let mut i: usize = 0;
    while i < texts.len()
        invariant
            i <= texts@.len(),
            forall|k: int| 0 <= k < i ==> #[trigger] text::texts(texts@)[k] != wanted@,
        decreases texts@.len() - i,
    {
        proof {
            assert(text::texts(texts@)[i as int] == texts@[i as int]@);
        }
        if same_text(&texts[i], wanted) {
            return true;
        }
        i = i + 1;
    }
    false
}

impl HubClient {
    /// Begins to list the contents of a repository at a revision.
    pub fn list_tree(&self, repo: &RepoSpec, repo_type: RepoType, revision: &str) -> (res: AppResult<
        TreeListing,
    >)
        requires
            client::addressable(repo@, revision@, Seq::empty()),
        ensures
            match (
                hub::revision_refusal(revision@),
                client::tree_address(self@, repo@, repo_type, revision@),
            ) {
                (Some(message), _) => res matches Err(error) && error@ == ErrorView::Message(
                    message,
                ),
                (None, Err(failure)) => res matches Err(error) && error@ == failure,
                (None, Ok(url)) => res matches Ok(listing) && listing@ == (TreeListingView {
                    next: Some(url),
                    visited: Seq::empty(),
                    entries: Seq::empty(),
                }) && listing@.well_formed(),
            },
    {
        validate_revision(revision)?;
        let url = self.tree_url(repo, repo_type, revision)?;
        let listing = TreeListing { next: Some(url), visited: Vec::new(), entries: Vec::new() };
        proof {
            assert(listing@.visited =~= Seq::empty());
            assert(listing@.entries =~= Seq::empty());
        }
        Ok(listing)
    }
}

impl TreeListing {
    /// The request for the next page, if a page is left.
    pub fn next_request(&mut self, client: &HubClient) -> (res: AppResult<Option<HubRequest>>)
        requires
            old(self)@.well_formed(),
        ensures
            final(self)@ == asked_for(old(self)@),
            final(self)@.well_formed(),
            match res {
                Ok(Some(request)) => page_request(old(self)@, client@) == Ok::<
                    Option<HubRequestView>,
                    Seq<char>,
                >(Some(request@)),
                Ok(None) => page_request(old(self)@, client@) == Ok::<
                    Option<HubRequestView>,
                    Seq<char>,
                >(None),
                Err(error) => page_request(old(self)@, client@) matches Err(message) && error@
                    == ErrorView::Message(message),
            },
    {
        let next = self.next.take();
        match next {
            None => Ok(None),
            Some(url) => {
                let ghost before = self.visited@;
                if contains_text_in(&self.visited, &url.text) {
                    return Err(message_error("Hub tree pagination returned a repeated cursor"));
                }
                self.visited.push(url.text.clone());
                proof {
                    assert(text::texts(self.visited@) =~= text::texts(before).push(url.text@));
                    assert(text::texts(self.visited@).no_duplicates());
                }
                client.validate_same_origin(&url)?;
                let request = client.get(
                    url,
                    Vec::new(),
                    "could not list repository contents".to_owned(),
                );
                proof {
                    assert(request@.query =~= Seq::empty());
                }
                Ok(Some(request))
            },
        }
    }

    /// Takes the `Link` header of the answer.
    pub fn accept_link(&mut self, header: &Option<HeaderValue>, client: &HubClient) -> (res: AppResult<()>)
        requires
            old(self)@.well_formed(),
        ensures
            final(self)@.well_formed(),
            match next_page(hub::optional_header(*header), client@.endpoint) {
                Ok(next) => res is Ok && final(self)@ == (TreeListingView { next, ..old(self)@ }),
                Err(message) => res matches Err(error) && error@ == ErrorView::Message(message)
                    && final(self)@ == old(self)@,
            },
    {
        match next_link(header, client.endpoint()) {
            Ok(next) => {
                self.next = next;
                Ok(())
            },
            Err(error) => Err(error),
        }
    }

    /// Takes the entries of the answer.
    pub fn accept_page(&mut self, page: Vec<TreeEntry>) -> (res: AppResult<()>)
        requires
            old(self)@.well_formed(),
        ensures
            final(self)@.well_formed(),
            match page_refusal(entry_views(page@)) {
                None => res is Ok && final(self)@ == (TreeListingView {
                    entries: old(self)@.entries + entry_views(page@),
                    ..old(self)@
                }),
                Some(message) => res matches Err(error) && error@ == ErrorView::Message(message)
                    && final(self)@ == old(self)@,
            },
    {
        validate_page(&page)?;
        let ghost before = self.entries@;
        let ghost added = page@;
        let mut page = page;
        self.entries.append(&mut page);
        proof {
            lemma_accepted_page(entry_views(added));
            assert(entry_views(self.entries@) =~= entry_views(before) + entry_views(added));
        }
        Ok(())
    }

    /// The entries of all pages.
    pub fn into_entries(self) -> (res: Vec<TreeEntry>)
        ensures
            entry_views(res@) == self@.entries,
    {
        self.entries
    }
}

/// However the Hub answers, a listing asks for no address twice, and only for
/// addresses at the origin of the endpoint.
pub proof fn lemma_listing_stays_at_its_origin(listing: TreeListingView, client: HubClientView)
    requires
        listing.well_formed(),
    ensures
        page_request(listing, client) matches Ok(Some(request)) ==> {
            &&& url::same_origin(request.url, client.parsed)
            &&& !listing.visited.contains(request.url.text)
            &&& asked_for(listing).visited == listing.visited.push(request.url.text)
            &&& request.token == client.token
        },
{
}

/// A result that holds an address, or none, is worth what it holds, or the very error.
pub proof fn lemma_values_of_links(
    result: AppResult<Option<WebUrl>>,
    read: Result<Option<WebUrlView>, Seq<char>>,
)
    ensures
        result matches Ok(Some(url)) ==> followed(result) == Ok::<Option<WebUrlView>, ErrorView>(
            Some(url@),
        ),
        result matches Ok(None) ==> followed(result) == Ok::<Option<WebUrlView>, ErrorView>(None),
        result matches Err(error) ==> followed(result) == Err::<Option<WebUrlView>, ErrorView>(
            error@,
        ),
        read matches Ok(next) ==> explained(read) == Ok::<Option<WebUrlView>, ErrorView>(next),
        read matches Err(message) ==> explained(read) == Err::<Option<WebUrlView>, ErrorView>(
            ErrorView::Message(message),
        ),
{
}

/// A page is the last one if no header, or no part of it, speaks of a next page. The first
/// part that does names the next page in angle brackets, as it is seen from the endpoint;
/// parts before it that do not are passed over.
pub proof fn lemma_next_page_is_the_one_in_brackets(
    skipped: Seq<Seq<char>>,
    lead: Seq<char>,
    target: Seq<char>,
    tail: Seq<char>,
    others: Seq<Seq<char>>,
    endpoint: Seq<char>,
)
    requires
        forall|i: int|
            0 <= i < skipped.len() ==> !text::occurs("rel=\"next\""@, #[trigger] skipped[i]),
    ensures
        next_page(None, endpoint) == Ok::<Option<WebUrlView>, Seq<char>>(None),
        linked(skipped, endpoint) == Ok::<Option<WebUrlView>, Seq<char>>(None),
        ({
            let part = lead + seq!['<'] + target + seq!['>'] + tail;
            !lead.contains('<') && !target.contains('>') && text::occurs("rel=\"next\""@, part)
                ==> linked(skipped + seq![part] + others, endpoint) == (match url::url_join(
                endpoint,
                target,
            ) {
                Ok(url) => Ok::<Option<WebUrlView>, Seq<char>>(Some(url)),
                Err(reason) => Err::<Option<WebUrlView>, Seq<char>>(
                    "Hub returned an invalid next-page URL: "@ + reason,
                ),
            })
        }),
        text::occurs("rel=\"next\""@, lead) && (!lead.contains('<') || !lead.contains('>'))
            ==> linked(skipped + seq![lead] + others, endpoint) == Err::<
            Option<WebUrlView>,
            Seq<char>,
        >("Hub returned a malformed next-page link"@),
    decreases skipped.len(),
{
    let part = lead + seq!['<'] + target + seq!['>'] + tail;
    if skipped.len() > 0 {
        let rest = skipped.drop_first();
        assert(forall|i: int| 0 <= i < rest.len() ==> #[trigger] rest[i] == skipped[i + 1]);
        lemma_next_page_is_the_one_in_brackets(rest, lead, target, tail, others, endpoint);
        assert((skipped + seq![part] + others).drop_first() =~= rest + seq![part] + others);
        assert((skipped + seq![lead] + others).drop_first() =~= rest + seq![lead] + others);
        assert((skipped + seq![part] + others)[0] == skipped[0]);
        assert((skipped + seq![lead] + others)[0] == skipped[0]);
    } else {
        assert((skipped + seq![part] + others)[0] == part);
        assert((skipped + seq![lead] + others)[0] == lead);
        if !lead.contains('<') && !target.contains('>') {
            let behind = target + seq!['>'] + tail;
            assert(part =~= lead + seq!['<'] + behind);
            text::lemma_division_is_unique(part, '<', lead, behind);
            text::lemma_division_is_unique(behind, '>', target, tail);
            assert(bracketed(part) == Some(target));
        }
        text::lemma_divided(lead, '<');
        if lead.contains('<') && !lead.contains('>') {
            let (left, right) = text::divided(lead, '<')->0;
            text::lemma_divided(right, '>');
            if text::divided(right, '>') is Some {
                let (inner, _) = text::divided(right, '>')->0;
                assert(right[inner.len() as int] == '>');
                assert(lead[left.len() as int + 1 + inner.len()] == '>');
            }
        }
        if !lead.contains('<') && text::divided(lead, '<') is Some {
            let (left, _) = text::divided(lead, '<')->0;
            assert(lead[left.len() as int] == '<');
        }
    }
}

/// The parts of a link header stand between commas; one that is no text is refused.
pub proof fn lemma_links_stand_between_commas(value: Seq<char>, endpoint: Seq<char>)
    ensures
        next_page(Some(HeaderView::Text(value)), endpoint) == linked(
            text::split(value, ','),
            endpoint,
        ),
        next_page(Some(HeaderView::Unreadable(value)), endpoint) == Err::<
            Option<WebUrlView>,
            Seq<char>,
        >("Hub returned a malformed pagination header: "@ + value),
{
}

spec fn stays_inside(entry: TreeEntryView) -> bool {
    let path = entry.path;
    &&& entry.entry_type == "file"@ || entry.entry_type == "directory"@
    &&& forall|k: int| 0 <= k < path.len() ==> #[trigger] path[k] != '\\'
    &&& path.len() > 0 ==> forall|i: int, j: int| #[trigger]
        text::is_part(path, '/', i, j) ==> path.subrange(i, j) != Seq::<char>::empty()
            && path.subrange(i, j) != seq!['.'] && path.subrange(i, j) != seq!['.', '.']
}

proof fn lemma_accepted_entries(entries: Seq<TreeEntryView>)
    ensures
        page_refusal(entries) is None <==> forall|n: int|
            0 <= n < entries.len() ==> stays_inside(#[trigger] entries[n]),
    decreases entries.len(),
{
    if entries.len() > 0 {
        let front = entries.drop_last();
        let last = entries.last();
        lemma_accepted_entries(front);
        hub::lemma_accepted_paths_stay_inside(last.path, false);
        assert(entry_refusal(last) is None <==> stays_inside(last));
        assert(forall|n: int| 0 <= n < front.len() ==> #[trigger] front[n] == entries[n]);
        assert(entries[entries.len() - 1] == last);
        if page_refusal(entries) is None {
            assert forall|n: int| 0 <= n < entries.len() implies stays_inside(
                #[trigger] entries[n],
            ) by {
                if n < front.len() {
                    assert(stays_inside(front[n]));
                }
            }
        }
    }
}

/// A page is accepted exactly if each of its entries is a file or a directory whose path is
/// empty or stays inside the repository: without a backslash, and with no part that is empty
/// or made of one or two dots.
pub proof fn lemma_pages_of_safe_entries_are_accepted(entries: Seq<TreeEntryView>)
    ensures
        page_refusal(entries) is None <==> forall|n: int|
            0 <= n < entries.len() ==> {
                let path = (#[trigger] entries[n]).path;
                &&& entries[n].entry_type == "file"@ || entries[n].entry_type == "directory"@
                &&& forall|k: int| 0 <= k < path.len() ==> #[trigger] path[k] != '\\'
                &&& path.len() > 0 ==> forall|i: int, j: int| #[trigger]
                    text::is_part(path, '/', i, j) ==> path.subrange(i, j) != Seq::<char>::empty()
                        && path.subrange(i, j) != seq!['.'] && path.subrange(i, j) != seq!['.', '.']
            },
{
    lemma_accepted_entries(entries);
    if page_refusal(entries) is Some {
        let n = choose|n: int| 0 <= n < entries.len() && !stays_inside(#[trigger] entries[n]);
        assert(!stays_inside(entries[n]));
    } else {
        assert(forall|n: int| 0 <= n < entries.len() ==> stays_inside(#[trigger] entries[n]));
    }
}

/// The next page is asked for exactly if it was not asked for before and stands at the
/// endpoint; then it is remembered. Without a next page nothing is asked for.
pub proof fn lemma_pages_are_asked_for_once(listing: TreeListingView, client: HubClientView)
    ensures
        listing.next is None ==> page_request(listing, client) == Ok::<
            Option<HubRequestView>,
            Seq<char>,
        >(None),
        listing.next matches Some(url) ==> {
            let home = url.scheme == client.parsed.scheme && url.host == client.parsed.host
                && url.port == client.parsed.port;
            &&& page_request(listing, client) is Ok <==> home && !listing.visited.contains(url.text)
            &&& page_request(listing, client) matches Ok(asked) ==> (asked matches Some(request)
                && request.url == url && request.token == client.token && request.query.len() == 0)
            &&& listing.visited.contains(url.text) ==> page_request(listing, client) == Err::<
                Option<HubRequestView>,
                Seq<char>,
            >("Hub tree pagination returned a repeated cursor"@)
            &&& asked_for(listing).visited.contains(url.text)
        },
        asked_for(listing).next is None,
        asked_for(listing).entries == listing.entries,
        listing.visited.is_prefix_of(asked_for(listing).visited),
{
    if let Some(url) = listing.next {
        let after = asked_for(listing).visited;
        if !listing.visited.contains(url.text) {
            assert(after[after.len() - 1] == url.text);
        }
    }
    let after = asked_for(listing).visited;
    assert(after.subrange(0, listing.visited.len() as int) =~= listing.visited);
}

/// The values of entries are those of each entry, in their order.
pub proof fn lemma_values_of_entries(entries: Seq<TreeEntry>)
    ensures
        entry_views(entries).len() == entries.len(),
        forall|i: int| 0 <= i < entries.len() ==> #[trigger] entry_views(entries)[i] == entries[i]@,
{
}

} // verus!
