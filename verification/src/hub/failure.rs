//! What is reported when the Hub refuses a request.
use crate::cli::{RepoSpecView, RepoType};
use crate::error::{AppError, ErrorView, IoFailure, IoFailureView};
use crate::hub::client;
use crate::text;
use crate::text::{contains_text, escape_owned, lower_text, same_text, trim_text};
use crate::url;
use crate::url::{origin_text, status_text, WebUrl, WebUrlView};
use vstd::prelude::*;

verus! {

/// How many bytes of a refusal are read.
pub const ERROR_BODY_LIMIT: u64 = 8192;

/// What `String::from_utf8_lossy` makes of bytes.
pub uninterp spec fn lossy_text(bytes: Seq<u8>) -> Seq<char>;

/// Reads bytes as text with `String::from_utf8_lossy`. The result depends on the
/// bytes alone, and is their text where they are UTF-8. What stands for other bytes
/// is named, not restated.
#[verifier::external_body]
fn text_of_bytes(bytes: &Vec<u8>) -> (res: String)
    ensures
        res@ == lossy_text(bytes@),
        vstd::utf8::valid_utf8(bytes@) ==> res@ == vstd::utf8::decode_utf8(bytes@),
{
    String::from_utf8_lossy(bytes).into_owned()
}

/// Whether a refusal says that the repository is gated.
pub open spec fn speaks_of_gate(body: Seq<char>) -> bool {
    let body = text::lowered(body);
    ||| text::occurs("not in the authorized list"@, body)
    ||| text::occurs("ask for access"@, body)
    ||| text::occurs("gated repo"@, body)
    ||| text::occurs("gated model"@, body)
}

pub fn is_gated_access_error(body: &str) -> (res: bool)
    ensures
        res == speaks_of_gate(body@),
{
    let body = lower_text(body);
    contains_text(&body, "not in the authorized list") || contains_text(&body, "ask for access")
        || contains_text(&body, "gated repo") || contains_text(&body, "gated model")
}

/// A repository in an address: what stands before its owner in its page's address,
/// the owner and the name.
pub open spec fn addressed_repository(segments: Seq<Seq<char>>) -> Option<
    (Option<Seq<char>>, Seq<char>, Seq<char>),
> {
    if segments.len() >= 3 && segments[2] == "resolve"@ {
        Some((None, segments[0], segments[1]))
    } else if segments.len() >= 4 && has_own_page(segments[0]) && segments[3] == "resolve"@ {
        Some((Some(segments[0]), segments[1], segments[2]))
    } else if segments.len() >= 5 && segments[0] == "api"@ && (segments[4] == "tree"@
        || segments[4] == "revision"@) {
        if segments[1] == "models"@ {
            Some((None, segments[2], segments[3]))
        } else if has_own_page(segments[1]) {
            Some((Some(segments[1]), segments[2], segments[3]))
        } else {
            None
        }
    } else {
        None
    }
}

/// The types of repositories whose pages' addresses begin with their type.
pub open spec fn has_own_page(kind: Seq<char>) -> bool {
    kind == "datasets"@ || kind == "spaces"@
}

/// The address of the page of the repository that a request was about.
pub open spec fn repository_page(url: WebUrlView) -> Option<Seq<char>> {
    match url.segments {
        None => None,
        Some(segments) => match addressed_repository(segments) {
            None => None,
            Some((prefix, owner, name)) => if owner.len() == 0 || name.len() == 0 {
                None
            } else {
                match prefix {
                    Some(prefix) => Some(
                        url::origin(url) + "/"@ + prefix + "/"@ + owner + "/"@ + name,
                    ),
                    None => Some(url::origin(url) + "/"@ + owner + "/"@ + name),
                }
            },
        },
    }
}

fn kind_has_own_page(kind: &str) -> (res: bool)
    ensures
        res == has_own_page(kind@),
{
    same_text(kind, "datasets") || same_text(kind, "spaces")
}

fn page_text(origin: &str, prefix: Option<&String>, owner: &str, name: &str) -> (res: Option<String>)
    ensures
        text::optional_text(res) == (if owner@.len() == 0 || name@.len() == 0 {
            None
        } else {
            match prefix {
                Some(prefix) => Some(origin@ + "/"@ + prefix@ + "/"@ + owner@ + "/"@ + name@),
                None => Some(origin@ + "/"@ + owner@ + "/"@ + name@),
            }
        }),
{
    if owner.is_empty() || name.is_empty() {
        return None;
    }
    let mut page = origin.to_owned();
    page.append("/");
    if let Some(prefix) = prefix {
        page.append(prefix);
        page.append("/");
    }
    page.append(owner);
    page.append("/");
    page.append(name);
    Some(page)
}

/// The address of the page of the repository that a request was about.
pub fn repository_page_url(url: &WebUrl) -> (res: Option<String>)
    ensures
        text::optional_text(res) == repository_page(url@),
{
    let segments = match &url.segments {
        Some(segments) => segments,
        None => {
            return None;
        },
    };
    let origin = origin_text(url);
    let ghost parts = text::texts(segments@);
    let length = segments.len();
    proof {
        assert(parts.len() == length);
        assert(forall|i: int| 0 <= i < length ==> parts[i] == (#[trigger] segments@[i])@);
    }
    if length >= 3 && same_text(&segments[2], "resolve") {
        page_text(&origin, None, &segments[0], &segments[1])
    } else if length >= 4 && kind_has_own_page(&segments[0]) && same_text(
        &segments[3],
        "resolve",
    ) {
        page_text(&origin, Some(&segments[0]), &segments[1], &segments[2])
    } else if length >= 5 && same_text(&segments[0], "api") && (same_text(&segments[4], "tree")
        || same_text(&segments[4], "revision")) {
        if same_text(&segments[1], "models") {
            page_text(&origin, None, &segments[2], &segments[3])
        } else if kind_has_own_page(&segments[1]) {
            page_text(&origin, Some(&segments[1]), &segments[2], &segments[3])
        } else {
            None
        }
    } else {
        None
    }
}

/// What may help against a refusal, if something is known.
pub open spec fn hint(status: u16, body: Seq<char>, url: WebUrlView) -> Option<Seq<char>> {
    if status == 401 {
        Some(
            "authenticate with 'xhf auth login'; create a token at "@
                + "https://huggingface.co/settings/tokens"@,
        )
    } else if status != 403 || !speaks_of_gate(body) {
        None
    } else {
        match repository_page(url) {
            Some(page) => Some(
                "the token's Hugging Face user has not been granted access to this gated repository; visit "@
                    + page + " in a browser, request access, and retry after approval"@,
            ),
            None => None,
        }
    }
}

/// What may help against a refusal, if something is known.
pub fn response_hint(status: u16, body: &str, url: &WebUrl) -> (res: Option<String>)
    ensures
        text::optional_text(res) == hint(status, body@, url@),
{
    if status == 401 {
        let mut hint = "authenticate with 'xhf auth login'; create a token at ".to_owned();
        hint.append(crate::hub::TOKEN_SETTINGS_URL);
        return Some(hint);
    }
    if status != 403 || !is_gated_access_error(body) {
        return None;
    }
    match repository_page_url(url) {
        Some(page) => {
            let mut hint =
                "the token's Hugging Face user has not been granted access to this gated repository; visit ".to_owned();
            hint.append(&page);
            hint.append(" in a browser, request access, and retry after approval");
            Some(hint)
        },
        None => None,
    }
}

/// What a refusal without a body is described by.
pub open spec fn described(status: u16) -> Seq<char> {
    if status == 401 {
        "authentication required or token rejected"@
    } else if status == 403 {
        "access forbidden"@
    } else if status == 404 {
        "resource not found"@
    } else if status == 429 {
        "rate limit exceeded"@
    } else {
        "Hub request failed"@
    }
}

pub fn status_description(status: u16) -> (res: &'static str)
    ensures
        res@ == described(status),
{
    match status {
        401 => "authentication required or token rejected",
        403 => "access forbidden",
        404 => "resource not found",
        429 => "rate limit exceeded",
        _ => "Hub request failed",
    }
}

/// The message for a refusal whose body reads `body`.
pub open spec fn refusal_message(
    context: Seq<char>,
    status: u16,
    url: WebUrlView,
    body: Seq<char>,
) -> Seq<char> {
    let shown = text::escaped(text::trimmed(body));
    let detail = if shown.len() == 0 {
        described(status)
    } else {
        shown
    };
    let message = context + ": "@ + url::status_line(status) + " for "@ + url.text + ": "@
        + detail;
    match hint(status, text::trimmed(body), url) {
        Some(hint) => message + "\nhint: "@ + hint,
        None => message,
    }
}

/// Words a refusal whose body reads `body`.
pub fn describe_refusal(context: &str, status: u16, url: &WebUrl, body: &str) -> (res: AppError)
    requires
        100 <= status <= 999,
    ensures
        res@ == ErrorView::Message(refusal_message(context@, status, url@, body@)),
{
    let body = trim_text(body);
    let hint = response_hint(status, &body, url);
    let shown = escape_owned(&body);
    let mut message = context.to_owned();
    message.append(": ");
    message.append(&status_text(status));
    message.append(" for ");
    message.append(&url.text);
    message.append(": ");
    if shown.as_str().is_empty() {
        message.append(status_description(status));
    } else {
        message.append(&shown);
    }
    if let Some(hint) = hint {
        message.append("\nhint: ");
        message.append(&hint);
    }
    AppError::message(message)
}

/// The error for a response that reports no success: its status, its address and
/// what could be read of its body.
pub open spec fn refusal(
    context: Seq<char>,
    status: u16,
    url: WebUrlView,
    body: Result<Seq<u8>, IoFailureView>,
) -> ErrorView {
    match body {
        Ok(bytes) => ErrorView::Message(
            refusal_message(context, status, url, lossy_text(bytes)),
        ),
        Err(source) => ErrorView::Io {
            context: context + "; could not read error response from "@ + url.text,
            source,
        },
    }
}

/// Words a response that reports no success.
pub fn http_error(
    context: &str,
    status: u16,
    url: &WebUrl,
    body: Result<Vec<u8>, IoFailure>,
) -> (res: AppError)
    requires
        100 <= status <= 999,
    ensures
        res@ == refusal(
            context@,
            status,
            url@,
            match body {
                Ok(bytes) => Ok(bytes@),
                Err(source) => Err(source@),
            },
        ),
{
    match body {
        Ok(bytes) => describe_refusal(context, status, url, &text_of_bytes(&bytes)),
        Err(source) => {
            let mut context = context.to_owned();
            context.append("; could not read error response from ");
            context.append(&url.text);
            AppError::io(context, source)
        },
    }
}

// ---------------------------------------------------------------------------
// Laws
// ---------------------------------------------------------------------------

/// A refusal speaks of a gate exactly if one of four phrases stands somewhere in it, in
/// letters of either case.
pub proof fn lemma_gates_are_spoken_of_in_four_phrases(body: Seq<char>)
    ensures
        speaks_of_gate(body) <==> exists|left: Seq<char>, phrase: Seq<char>, right: Seq<char>|
            {
                &&& text::lowered(body) == #[trigger] (left + phrase + right)
                &&& seq![
                    "not in the authorized list"@,
                    "ask for access"@,
                    "gated repo"@,
                    "gated model"@,
                ].contains(phrase)
            },
        speaks_of_gate(text::lowered(body)) == speaks_of_gate(body),
{
    let low = text::lowered(body);
    let phrases = seq![
        "not in the authorized list"@,
        "ask for access"@,
        "gated repo"@,
        "gated model"@,
    ];
    assert(text::lowered(low) =~= low);
    text::lemma_occurrence_has_sides(phrases[0], low);
    text::lemma_occurrence_has_sides(phrases[1], low);
    text::lemma_occurrence_has_sides(phrases[2], low);
    text::lemma_occurrence_has_sides(phrases[3], low);
    if speaks_of_gate(body) {
        let k = if text::occurs(phrases[0], low) {
            0int
        } else if text::occurs(phrases[1], low) {
            1
        } else if text::occurs(phrases[2], low) {
            2
        } else {
            3
        };
        let phrase = phrases[k];
        let (left, right) = choose|left: Seq<char>, right: Seq<char>|
            low == #[trigger] (left + phrase + right);
        assert(low == left + phrase + right);
        assert(phrases.contains(phrase));
    }
    if exists|left: Seq<char>, phrase: Seq<char>, right: Seq<char>|
        low == #[trigger] (left + phrase + right) && phrases.contains(phrase) {
        let (left, phrase, right) = choose|left: Seq<char>, phrase: Seq<char>, right: Seq<char>|
            low == #[trigger] (left + phrase + right) && phrases.contains(phrase);
        let k = choose|k: int| 0 <= k < phrases.len() && phrases[k] == phrase;
        assert(low == left + phrases[k] + right);
    }
}

/// The page of a repository is found from the address of each of its files and from the
/// addresses under which it is described: the origin, then the repository as its page is
/// named.
pub proof fn lemma_pages_are_found_from_requests(
    url: WebUrlView,
    repo: RepoSpecView,
    repo_type: RepoType,
    revision: Seq<char>,
    path: Seq<char>,
)
    requires
        repo.owner.len() > 0,
        repo.name.len() > 0,
        repo.owner != "resolve"@,
        repo.name != "resolve"@,
        url.segments == Some(client::file_segments(repo, repo_type, revision, path))
            || url.segments == Some(client::described_at(repo, repo_type, "tree"@, revision))
            || url.segments == Some(client::described_at(repo, repo_type, "revision"@, revision)),
    ensures
        repository_page(url) == Some(
            url::origin(url) + seq!['/'] + (match repo_type {
                RepoType::Model => Seq::empty(),
                RepoType::Dataset => "datasets"@ + seq!['/'],
                RepoType::Space => "spaces"@ + seq!['/'],
            }) + repo.owner + seq!['/'] + repo.name,
        ),
{
    reveal_strlit("/");
    reveal_strlit("api");
    reveal_strlit("models");
    reveal_strlit("datasets");
    reveal_strlit("spaces");
    reveal_strlit("resolve");
    reveal_strlit("tree");
    reveal_strlit("revision");
    assert("/"@ =~= seq!['/']);
    assert("api"@.len() == 3 && "models"@.len() == 6 && "datasets"@.len() == 8 && "spaces"@.len()
        == 6);
    assert("models"@[0] != "spaces"@[0]);
    let segments = url.segments->0;
    let page = repository_page(url);
    assert(segments.len() >= 5);
    if url.segments == Some(client::file_segments(repo, repo_type, revision, path)) {
        text::lemma_split(path, '/');
        match repo_type {
            RepoType::Model => {
                assert(segments[0] == repo.owner && segments[1] == repo.name && segments[2]
                    == "resolve"@);
            },
            _ => {
                assert(segments[0] == repo_type.prefix_word()->0 && segments[1] == repo.owner
                    && segments[2] == repo.name && segments[3] == "resolve"@);
            },
        }
    }
    assert(page->0 =~= url::origin(url) + seq!['/'] + (match repo_type {
        RepoType::Model => Seq::empty(),
        RepoType::Dataset => "datasets"@ + seq!['/'],
        RepoType::Space => "spaces"@ + seq!['/'],
    }) + repo.owner + seq!['/'] + repo.name);
}

/// Whoever is not known is told how to log in, and whoever is not let through a gate is told
/// where to ask for access. There is no other advice.
pub proof fn lemma_advice_fits_the_refusal(status: u16, body: Seq<char>, url: WebUrlView)
    ensures
        status == 401 ==> hint(status, body, url) == Some(
            "authenticate with 'xhf auth login'; create a token at "@
                + "https://huggingface.co/settings/tokens"@,
        ),
        status == 403 && speaks_of_gate(body) ==> (repository_page(url) matches Some(page) ==> hint(
            status,
            body,
            url,
        ) == Some(
            "the token's Hugging Face user has not been granted access to this gated repository; visit "@
                + page + " in a browser, request access, and retry after approval"@,
        )),
        hint(status, body, url) is Some ==> status == 401 || status == 403 && speaks_of_gate(body)
            && repository_page(url) is Some,
{
}

/// A refusal is worded by its context, its status and its address, then by what the Hub
/// wrote, made printable, or by what its status means if the Hub wrote nothing. Advice
/// stands on a line of its own.
pub proof fn lemma_refusals_say_what_the_hub_wrote(
    context: Seq<char>,
    status: u16,
    url: WebUrlView,
    body: Seq<char>,
    source: IoFailureView,
)
    ensures
        ({
            let written = text::trimmed(body);
            let lead = context + seq![':', ' '] + url::status_line(status) + " for "@ + url.text
                + seq![':', ' '];
            let meaning = if status == 401 {
                "authentication required or token rejected"@
            } else if status == 403 {
                "access forbidden"@
            } else if status == 404 {
                "resource not found"@
            } else if status == 429 {
                "rate limit exceeded"@
            } else {
                "Hub request failed"@
            };
            let said = lead + if written.len() == 0 {
                meaning
            } else {
                text::escaped(written)
            };
            refusal_message(context, status, url, body) == (match hint(status, written, url) {
                Some(advice) => said + "\nhint: "@ + advice,
                None => said,
            })
        }),
        refusal(context, status, url, Err(source)) == (ErrorView::Io {
            context: context + "; could not read error response from "@ + url.text,
            source,
        }),
        forall|bytes: Seq<u8>| #[trigger]
            refusal(context, status, url, Ok(bytes)) == ErrorView::Message(
                refusal_message(context, status, url, lossy_text(bytes)),
            ),
{
    reveal_strlit(": ");
    assert(": "@ =~= seq![':', ' ']);
    let written = text::trimmed(body);
    lemma_printed_length(written);
}

proof fn lemma_printed_length(text: Seq<char>)
    ensures
        text::escaped(text).len() >= text.len(),
    decreases text.len(),
{
    if text.len() > 0 {
        let front = text.drop_last();
        lemma_printed_length(front);
        assert(front.push(text.last()) =~= text);
        text::lemma_characters_are_printed_one_by_one(front, text.last());
    }
}

/// A page is found only in an address of a file, which has `resolve` behind the repository,
/// or in one under which a repository is described, which begins with `api`.
pub proof fn lemma_other_addresses_have_no_page(url: WebUrlView)
    ensures
        url.segments is None ==> repository_page(url) is None,
        url.segments matches Some(segments) && repository_page(url) is Some ==> {
            let segments = url.segments->0;
            ||| segments.len() >= 3 && segments[2] == "resolve"@
            ||| segments.len() >= 4 && segments[3] == "resolve"@ && (segments[0] == "datasets"@
                || segments[0] == "spaces"@)
            ||| segments.len() >= 5 && segments[0] == "api"@ && (segments[1] == "models"@
                || segments[1] == "datasets"@ || segments[1] == "spaces"@) && (segments[4]
                == "tree"@ || segments[4] == "revision"@)
        },
{
}

} // verus!
