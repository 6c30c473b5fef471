//! Web addresses, as `reqwest::Url` reads and builds them.
use crate::text;
use crate::text::{decimal_text, same_text};
use vstd::prelude::*;

verus! {

/// A parsed web address: how it is written, and the parts that the program reads.
#[derive(Debug)]
pub struct WebUrl {
    /// The whole address.
    pub text: String,
    pub scheme: String,
    pub host: Option<String>,
    /// The port, or the one that the scheme implies.
    pub port: Option<u16>,
    /// The parts of the path between its slashes, when it begins with one.
    pub segments: Option<Vec<String>>,
    /// Whether a path can be put behind the address.
    pub is_base: bool,
}

/// The value of a [`WebUrl`].
pub struct WebUrlView {
    pub text: Seq<char>,
    pub scheme: Seq<char>,
    pub host: Option<Seq<char>>,
    pub port: Option<u16>,
    pub segments: Option<Seq<Seq<char>>>,
    pub is_base: bool,
}

impl View for WebUrl {
    type V = WebUrlView;

    open spec fn view(&self) -> WebUrlView {
        WebUrlView {
            text: self.text@,
            scheme: self.scheme@,
            host: text::optional_text(self.host),
            port: self.port,
            segments: match self.segments {
                Some(segments) => Some(text::texts(segments@)),
                None => None,
            },
            is_base: self.is_base,
        }
    }
}

/// Whether two addresses have the same scheme, host and port.
pub open spec fn same_origin(left: WebUrlView, right: WebUrlView) -> bool {
    &&& left.scheme == right.scheme
    &&& left.host == right.host
    &&& left.port == right.port
}

/// The port that a scheme implies. Only schemes that imply one have an origin.
pub open spec fn default_port(scheme: Seq<char>) -> Option<u16> {
    if scheme == "http"@ || scheme == "ws"@ {
        Some(80)
    } else if scheme == "https"@ || scheme == "wss"@ {
        Some(443)
    } else if scheme == "ftp"@ {
        Some(21)
    } else {
        None
    }
}

/// The origin of an address in one text: its scheme, its host, and its port if it is
/// not the one that the scheme implies. An address without an origin has `null`.
pub open spec fn origin(url: WebUrlView) -> Seq<char> {
    match (default_port(url.scheme), url.host, url.port) {
        (Some(usual), Some(host), Some(port)) => if port == usual {
            url.scheme + "://"@ + host
        } else {
            url.scheme + "://"@ + host + ":"@ + text::decimal(port as nat)
        },
        _ => "null"@,
    }
}

fn implied_port(scheme: &str) -> (res: Option<u16>)
    ensures
        res == default_port(scheme@),
{
    if same_text(scheme, "http") || same_text(scheme, "ws") {
        Some(80)
    } else if same_text(scheme, "https") || same_text(scheme, "wss") {
        Some(443)
    } else if same_text(scheme, "ftp") {
        Some(21)
    } else {
        None
    }
}

/// The origin of an address in one text.
pub fn origin_text(url: &WebUrl) -> (res: String)
    ensures
        res@ == origin(url@),
{
    match (implied_port(&url.scheme), &url.host, url.port) {
        (Some(usual), Some(host), Some(port)) => {
            let mut out = url.scheme.clone();
            out.append("://");
            out.append(host);
            if port != usual {
                out.append(":");
                out.append(&decimal_text(port as u64));
            }
            out
        },
        _ => "null".to_owned(),
    }
}

/// How many characters the address and the parts put behind it may have: the
/// offsets inside an address are 32-bit numbers.
pub const URL_LIMIT: usize = 0x0200_0000;

/// The characters of all parts together.
pub open spec fn total_length(parts: Seq<Seq<char>>) -> nat
    decreases parts.len(),
{
    if parts.len() == 0 {
        0
    } else {
        total_length(parts.drop_last()) + parts.last().len()
    }
}

/// Whether the parts can be put behind an address.
pub open spec fn fit(segments: Seq<Seq<char>>) -> bool {
    segments.len() <= URL_LIMIT && total_length(segments) <= URL_LIMIT
}

/// Whether the parts can be put behind the address `base`.
pub open spec fn has_room(base: Seq<char>, segments: Seq<Seq<char>>) -> bool {
    base.len() <= URL_LIMIT && fit(segments)
}

pub(crate) proof fn lemma_total_length_of_both(left: Seq<Seq<char>>, right: Seq<Seq<char>>)
    ensures
        total_length(left + right) == total_length(left) + total_length(right),
    decreases right.len(),
{
    if right.len() == 0 {
        assert(left + right =~= left);
    } else {
        assert((left + right).drop_last() =~= left + right.drop_last());
        lemma_total_length_of_both(left, right.drop_last());
    }
}

/// The parts of a text are together no longer than the text.
pub(crate) proof fn lemma_parts_fit(value: Seq<char>, separator: char)
    ensures
        total_length(text::split(value, separator)) <= value.len(),
        text::split(value, separator).len() <= value.len() + 1,
    decreases value.len(),
{
    reveal_with_fuel(total_length, 2);
    let parts = text::split(value, separator);
    if value.len() == 0 {
        assert(parts.drop_last() =~= Seq::<Seq<char>>::empty());
    } else {
        let before = text::split(value.drop_last(), separator);
        lemma_parts_fit(value.drop_last(), separator);
        text::lemma_split(value.drop_last(), separator);
        if value.last() == separator {
            assert(parts.drop_last() =~= before);
        } else {
            assert(parts.drop_last() =~= before.drop_last());
        }
    }
}

impl Clone for WebUrl {
    fn clone(&self) -> (res: Self)
        ensures
            res@ == self@,
    {
        WebUrl {
            text: self.text.clone(),
            scheme: self.scheme.clone(),
            host: text::clone_optional(&self.host),
            port: self.port,
            segments: match &self.segments {
                Some(segments) => Some(text::clone_texts(segments)),
                None => None,
            },
            is_base: self.is_base,
        }
    }
}

/// The names and values of query parameters.
pub open spec fn pairs(parameters: Seq<(String, String)>) -> Seq<(Seq<char>, Seq<char>)> {
    parameters.map_values(|p: (String, String)| (p.0@, p.1@))
}

/// The characters of all names and values together.
pub open spec fn pairs_length(parameters: Seq<(Seq<char>, Seq<char>)>) -> nat
    decreases parameters.len(),
{
    if parameters.len() == 0 {
        0
    } else {
        pairs_length(parameters.drop_last()) + parameters.last().0.len()
            + parameters.last().1.len()
    }
}

/// Whether the parameters can be put behind an address.
pub open spec fn pairs_fit(parameters: Seq<(Seq<char>, Seq<char>)>) -> bool {
    parameters.len() <= URL_LIMIT && pairs_length(parameters) <= URL_LIMIT
}

/// What `reqwest::Url::parse` makes of a text: the address, or an error's wording.
pub uninterp spec fn url_parse(text: Seq<char>) -> Result<WebUrlView, Seq<char>>;

/// What `reqwest::Url::join` makes of a reference seen from the address `base`.
pub uninterp spec fn url_join(base: Seq<char>, reference: Seq<char>) -> Result<
    WebUrlView,
    Seq<char>,
>;

/// What replacing the path of the address `base` by `segments` gives, through
/// `reqwest::Url::path_segments_mut`.
pub uninterp spec fn url_with_path(base: Seq<char>, segments: Seq<Seq<char>>) -> Option<
    WebUrlView,
>;

/// The same with query parameters added, through `reqwest::Url::query_pairs_mut`.
pub uninterp spec fn url_with_query(
    base: Seq<char>,
    segments: Seq<Seq<char>>,
    parameters: Seq<(Seq<char>, Seq<char>)>,
) -> Option<WebUrlView>;

/// Reads an address with `reqwest::Url::parse`. The result depends on the text
/// alone; its parts are read with the accessors of `reqwest::Url`.
#[verifier::external_body]
pub(crate) fn parse_url(text: &str) -> (res: Result<WebUrl, String>)
    ensures
        match res {
            Ok(url) => url_parse(text@) == Ok::<WebUrlView, Seq<char>>(url@),
            Err(error) => url_parse(text@) == Err::<WebUrlView, Seq<char>>(error@),
        },
{
    let url = reqwest::Url::parse(text).map_err(|error| error.to_string())?;
    Ok(WebUrl {
        text: url.as_str().to_owned(),
        scheme: url.scheme().to_owned(),
        host: url.host_str().map(str::to_owned),
        port: url.port_or_known_default(),
        segments: url.path_segments().map(|s| s.map(str::to_owned).collect()),
        is_base: !url.cannot_be_a_base(),
    })
}

/// Resolves a reference against the address `base` with `reqwest::Url::join`. The
/// result depends on the two texts alone; an unreadable `base` gives the error of
/// reading it.
#[verifier::external_body]
pub(crate) fn join_url(base: &str, reference: &str) -> (res: Result<WebUrl, String>)
    ensures
        match res {
            Ok(url) => url_join(base@, reference@) == Ok::<WebUrlView, Seq<char>>(url@),
            Err(error) => url_join(base@, reference@) == Err::<WebUrlView, Seq<char>>(error@),
        },
{
    let base = reqwest::Url::parse(base).map_err(|error| error.to_string())?;
    let url = base.join(reference).map_err(|error| error.to_string())?;
    Ok(WebUrl {
        text: url.as_str().to_owned(),
        scheme: url.scheme().to_owned(),
        host: url.host_str().map(str::to_owned),
        port: url.port_or_known_default(),
        segments: url.path_segments().map(|s| s.map(str::to_owned).collect()),
        is_base: !url.cannot_be_a_base(),
    })
}

/// Replaces the path of the address `base` through
/// `reqwest::Url::path_segments_mut`, whose `clear` and `extend` percent-encode the
/// segments. The result depends on the address and the segments alone. An address
/// that can be read has such a path exactly when it is a base, and only the path
/// changes: scheme, host and port stay.
#[verifier::external_body]
pub(crate) fn with_path(base: &str, segments: &Vec<String>) -> (res: Option<WebUrl>)
    requires
        has_room(base@, text::texts(segments@)),
    ensures
        match res {
            Some(url) => url_with_path(base@, text::texts(segments@)) == Some(url@),
            None => url_with_path(base@, text::texts(segments@)) is None,
        },
        url_parse(base@) matches Ok(parsed) ==> {
            &&& res is Some <==> parsed.is_base
            &&& res matches Some(url) ==> same_origin(url@, parsed)
        },
{
    let mut url = reqwest::Url::parse(base).ok()?;
    url.path_segments_mut().ok()?.clear().extend(segments);
    Some(WebUrl {
        text: url.as_str().to_owned(),
        scheme: url.scheme().to_owned(),
        host: url.host_str().map(str::to_owned),
        port: url.port_or_known_default(),
        segments: url.path_segments().map(|s| s.map(str::to_owned).collect()),
        is_base: !url.cannot_be_a_base(),
    })
}

/// Replaces the path of the address `base` and appends query parameters, through
/// `reqwest::Url::path_segments_mut` and `reqwest::Url::query_pairs_mut`. The
/// result depends on the arguments alone. An address that can be read has such a
/// path exactly when it is a base; scheme, host and port stay.
#[verifier::external_body]
pub(crate) fn with_query(
    base: &str,
    segments: &Vec<String>,
    parameters: &Vec<(String, String)>,
) -> (res: Option<WebUrl>)
    requires
        has_room(base@, text::texts(segments@)),
        pairs_fit(pairs(parameters@)),
    ensures
        match res {
            Some(url) => url_with_query(
                base@,
                text::texts(segments@),
                pairs(parameters@),
            ) == Some(url@),
            None => url_with_query(base@, text::texts(segments@), pairs(parameters@)) is None,
        },
        url_parse(base@) matches Ok(parsed) ==> {
            &&& res is Some <==> parsed.is_base
            &&& res matches Some(url) ==> same_origin(url@, parsed)
        },
{
    let mut url = reqwest::Url::parse(base).ok()?;
    url.path_segments_mut().ok()?.clear().extend(segments);
    url.query_pairs_mut().extend_pairs(parameters);
    Some(WebUrl {
        text: url.as_str().to_owned(),
        scheme: url.scheme().to_owned(),
        host: url.host_str().map(str::to_owned),
        port: url.port_or_known_default(),
        segments: url.path_segments().map(|s| s.map(str::to_owned).collect()),
        is_base: !url.cannot_be_a_base(),
    })
}

impl WebUrl {
    /// Reads an address.
    pub fn parse(text: &str) -> (res: Result<Self, String>)
        ensures
            match res {
                Ok(url) => url_parse(text@) == Ok::<WebUrlView, Seq<char>>(url@),
                Err(reason) => url_parse(text@) == Err::<WebUrlView, Seq<char>>(reason@),
            },
    {
        parse_url(text)
    }
}

/// What `reqwest::StatusCode` prints for a code: the number and its usual phrase.
pub uninterp spec fn status_line(code: u16) -> Seq<char>;

/// The code of an HTTP status with its phrase, as `reqwest::StatusCode` prints it.
/// `from_u16` takes the codes from 100 to 999. The phrases are named, not restated.
#[verifier::external_body]
pub(crate) fn status_text(code: u16) -> (res: String)
    requires
        100 <= code <= 999,
    ensures
        res@ == status_line(code),
{
    reqwest::StatusCode::from_u16(code).unwrap().to_string()
}

// ---------------------------------------------------------------------------
// Laws
// ---------------------------------------------------------------------------

/// Two addresses have the same origin exactly if their schemes, their hosts and their ports
/// are the same, whatever else differs.
pub proof fn lemma_origin_is_scheme_host_and_port(left: WebUrlView, right: WebUrlView)
    ensures
        same_origin(left, right) <==> left.scheme == right.scheme && left.host == right.host
            && left.port == right.port,
{
}

/// The origin of a web address is written with its scheme and its host, and with its port
/// only if that is not the usual one: 80, 443 for a secure one, or 21 for a transfer.
pub proof fn lemma_origin_is_written_with_an_unusual_port(
    url: WebUrlView,
    host: Seq<char>,
    port: u16,
)
    requires
        url.host == Some(host),
        url.port == Some(port),
        url.scheme == "http"@ || url.scheme == "https"@ || url.scheme == "ws"@ || url.scheme
            == "wss"@ || url.scheme == "ftp"@,
    ensures
        ({
            let usual = if url.scheme == "http"@ || url.scheme == "ws"@ {
                80u16
            } else if url.scheme == "ftp"@ {
                21u16
            } else {
                443u16
            };
            origin(url) == if port == usual {
                url.scheme + seq![':', '/', '/'] + host
            } else {
                url.scheme + seq![':', '/', '/'] + host + seq![':'] + text::decimal(port as nat)
            }
        }),
{
    reveal_strlit("://");
    reveal_strlit(":");
    reveal_strlit("http");
    reveal_strlit("https");
    reveal_strlit("ws");
    reveal_strlit("wss");
    reveal_strlit("ftp");
    assert("://"@ =~= seq![':', '/', '/']);
    assert(":"@ =~= seq![':']);
    assert("https"@.len() == 5 && "http"@.len() == 4 && "ws"@.len() == 2);
    assert("wss"@.len() == 3 && "ftp"@.len() == 3 && "wss"@[0] != "ftp"@[0]);
}

/// An address without a host, or of a scheme that implies no port, has no origin to write.
pub proof fn lemma_other_addresses_have_no_origin(url: WebUrlView)
    requires
        url.host is None || url.port is None || (url.scheme != "http"@ && url.scheme != "https"@
            && url.scheme != "ws"@ && url.scheme != "wss"@ && url.scheme != "ftp"@),
    ensures
        origin(url) == "null"@,
{
}

} // verus!
