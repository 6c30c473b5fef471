//! Which requests are sent to the Hub.
use crate::cli::{RepoSpec, RepoSpecView, RepoType};
use crate::error::{detailed_error, message_error, AppError, AppResult, ErrorView};
use crate::hub;
use crate::hub::{validate_remote_path, validate_revision};
use crate::text;
use crate::text::{debug_of, decimal_text, same_optional, same_text};
use crate::url;
use crate::url::{parse_url, with_path, with_query, WebUrl, WebUrlView};
use vstd::prelude::*;

verus! {

const HUB_ENDPOINT: &'static str = "https://huggingface.co/";

/// One GET request.
#[derive(Debug)]
pub struct HubRequest {
    pub url: WebUrl,
    /// Parameters that are added to the query.
    pub query: Vec<(String, String)>,
    /// The bearer token.
    pub token: Option<String>,
    /// The value of the `Range` header.
    pub range: Option<String>,
    /// The value of the `If-Range` header.
    pub if_range: Option<String>,
    /// What an error that the request meets is prefixed with.
    pub context: String,
}

/// The value of a [`HubRequest`].
pub struct HubRequestView {
    pub url: WebUrlView,
    pub query: Seq<(Seq<char>, Seq<char>)>,
    pub token: Option<Seq<char>>,
    pub range: Option<Seq<char>>,
    pub if_range: Option<Seq<char>>,
    pub context: Seq<char>,
}

impl View for HubRequest {
    type V = HubRequestView;

    open spec fn view(&self) -> HubRequestView {
        HubRequestView {
            url: self.url@,
            query: url::pairs(self.query@),
            token: text::optional_text(self.token),
            range: text::optional_text(self.range),
            if_range: text::optional_text(self.if_range),
            context: self.context@,
        }
    }
}

/// The value of a request, or of the error that stands for it.
pub open spec fn asked(result: AppResult<HubRequest>) -> Result<HubRequestView, ErrorView> {
    match result {
        Ok(request) => Ok(request@),
        Err(error) => Err(error@),
    }
}

/// The value of an address, or of the error that stands for it.
pub open spec fn located(result: AppResult<WebUrl>) -> Result<WebUrlView, ErrorView> {
    match result {
        Ok(url) => Ok(url@),
        Err(error) => Err(error@),
    }
}

/// A Hub at one endpoint, seen with one token or none.
#[derive(Debug)]
pub struct HubClient {
    endpoint: String,
    parsed: WebUrl,
    token: Option<String>,
}

/// The value of a [`HubClient`].
pub struct HubClientView {
    /// The endpoint as it was written.
    pub endpoint: Seq<char>,
    /// The endpoint as it was read.
    pub parsed: WebUrlView,
    pub token: Option<Seq<char>>,
}

impl View for HubClient {
    type V = HubClientView;

    closed spec fn view(&self) -> HubClientView {
        HubClientView {
            endpoint: self.endpoint@,
            parsed: self.parsed@,
            token: text::optional_text(self.token),
        }
    }
}

/// A request that carries the client's token.
pub open spec fn request(
    client: HubClientView,
    url: WebUrlView,
    query: Seq<(Seq<char>, Seq<char>)>,
    context: Seq<char>,
) -> HubRequestView {
    HubRequestView { url, query, token: client.token, range: None, if_range: None, context }
}

/// The address with the path `segments` at the client's endpoint.
pub open spec fn api_address(client: HubClientView, segments: Seq<Seq<char>>) -> Result<
    WebUrlView,
    ErrorView,
> {
    if client.parsed.is_base {
        Ok(url::url_with_path(client.endpoint, segments)->0)
    } else {
        Err(ErrorView::Message("Hub endpoint cannot contain API paths"@))
    }
}

/// The request for the path `segments`.
pub open spec fn api_request(
    client: HubClientView,
    segments: Seq<Seq<char>>,
    query: Seq<(Seq<char>, Seq<char>)>,
    context: Seq<char>,
) -> Result<HubRequestView, ErrorView> {
    match api_address(client, segments) {
        Ok(url) => Ok(request(client, url, query, context)),
        Err(error) => Err(error),
    }
}

/// The path below which the Hub describes a repository at a revision.
pub open spec fn described_at(
    repo: RepoSpecView,
    repo_type: RepoType,
    view: Seq<char>,
    revision: Seq<char>,
) -> Seq<Seq<char>> {
    seq!["api"@, repo_type.plural_word(), repo.owner, repo.name, view, revision]
}

/// The request that resolves a revision to a commit.
pub open spec fn revision_request(
    client: HubClientView,
    repo: RepoSpecView,
    repo_type: RepoType,
    revision: Seq<char>,
) -> Result<HubRequestView, ErrorView> {
    match hub::revision_refusal(revision) {
        Some(message) => Err(ErrorView::Message(message)),
        None => api_request(
            client,
            described_at(repo, repo_type, "revision"@, revision),
            seq![("expand"@, "sha"@)],
            "could not resolve repository revision"@,
        ),
    }
}

/// The address of the first page of a repository's contents.
pub open spec fn tree_address(
    client: HubClientView,
    repo: RepoSpecView,
    repo_type: RepoType,
    revision: Seq<char>,
) -> Result<WebUrlView, ErrorView> {
    if client.parsed.is_base {
        Ok(
            url::url_with_query(
                client.endpoint,
                described_at(repo, repo_type, "tree"@, revision),
                seq![("recursive"@, "true"@), ("limit"@, "1000"@)],
            )->0,
        )
    } else {
        Err(ErrorView::Message("Hub endpoint cannot contain API paths"@))
    }
}

/// The path of a file of a repository at a revision.
pub open spec fn file_segments(
    repo: RepoSpecView,
    repo_type: RepoType,
    revision: Seq<char>,
    path: Seq<char>,
) -> Seq<Seq<char>> {
    let prefix = match repo_type.prefix_word() {
        Some(word) => seq![word],
        None => Seq::empty(),
    };
    prefix + seq![repo.owner, repo.name, "resolve"@, revision] + text::split(path, '/')
}

/// The address of a file of a repository at a revision.
pub open spec fn file_address(
    client: HubClientView,
    repo: RepoSpecView,
    repo_type: RepoType,
    revision: Seq<char>,
    path: Seq<char>,
) -> Result<WebUrlView, ErrorView> {
    match (hub::revision_refusal(revision), hub::path_refusal(path, true)) {
        (Some(message), _) => Err(ErrorView::Message(message)),
        (None, Some(message)) => Err(ErrorView::Message(message)),
        (None, None) => if client.parsed.is_base {
            Ok(
                url::url_with_path(
                    client.endpoint,
                    file_segments(repo, repo_type, revision, path),
                )->0,
            )
        } else {
            Err(ErrorView::Message("Hub endpoint cannot contain repository paths"@))
        },
    }
}

/// Why a request to `url` is not sent, if it is not: no request leaves the origin of
/// the endpoint.
pub open spec fn origin_refusal(client: HubClientView, url: WebUrlView) -> Option<Seq<char>> {
    if url::same_origin(url, client.parsed) {
        None
    } else {
        Some("Hub request attempted to leave the configured origin: "@ + url.text)
    }
}

/// The request for the whole of a file.
pub open spec fn file_request(client: HubClientView, url: WebUrlView, path: Seq<char>) -> Result<
    HubRequestView,
    ErrorView,
> {
    match origin_refusal(client, url) {
        Some(message) => Err(ErrorView::Message(message)),
        None => Ok(
            request(client, url, Seq::empty(), "could not download "@ + text::debug_text(path)),
        ),
    }
}

/// The request for the bytes of a file from `start` through `end`.
pub open spec fn file_range_request(
    client: HubClientView,
    url: WebUrlView,
    path: Seq<char>,
    start: u64,
    end: u64,
    if_range: Option<Seq<char>>,
) -> Result<HubRequestView, ErrorView> {
    match file_request(client, url, path) {
        Ok(whole) => Ok(
            HubRequestView {
                range: Some(
                    "bytes="@ + text::decimal(start as nat) + "-"@ + text::decimal(end as nat),
                ),
                if_range,
                ..whole
            },
        ),
        Err(error) => Err(error),
    }
}

/// An optional query parameter.
pub open spec fn parameter(name: Seq<char>, value: Option<Seq<char>>) -> Seq<
    (Seq<char>, Seq<char>),
> {
    match value {
        Some(value) => seq![(name, value)],
        None => Seq::empty(),
    }
}

/// The query parameters of a search.
pub open spec fn search_parameters(
    query: Option<Seq<char>>,
    owner: Option<Seq<char>>,
    result_type: Option<Seq<char>>,
    limit: nat,
) -> Seq<(Seq<char>, Seq<char>)> {
    parameter("q"@, query) + seq![("limit"@, text::decimal(limit))] + parameter(
        "type"@,
        result_type,
    ) + parameter("namespace"@, owner)
}

/// The request for a search.
pub open spec fn search_request(
    client: HubClientView,
    query: Option<Seq<char>>,
    owner: Option<Seq<char>>,
    result_type: Option<Seq<char>>,
    limit: nat,
) -> Result<HubRequestView, ErrorView> {
    api_request(
        client,
        seq!["api"@, "quicksearch"@],
        search_parameters(query, owner, result_type, limit),
        "Hub search failed"@,
    )
}

/// The request that asks whom the token belongs to.
pub open spec fn identity_request(client: HubClientView) -> Result<HubRequestView, ErrorView> {
    if client.token is None {
        Err(ErrorView::Message("no Hugging Face token is configured"@))
    } else {
        api_request(
            client,
            seq!["api"@, "whoami-v2"@],
            Seq::empty(),
            "could not authenticate with Hugging Face"@,
        )
    }
}

/// Whether the address of a file, or of a repository when `path` is empty, is short
/// enough to be written.
pub open spec fn addressable(repo: RepoSpecView, revision: Seq<char>, path: Seq<char>) -> bool {
    repo.owner.len() + repo.name.len() + revision.len() + path.len() + 64 <= url::URL_LIMIT
}

/// Tests whether an address is short enough to be written.
pub fn is_addressable(repo: &RepoSpec, revision: &str, path: &str) -> (res: bool)
    ensures
        res == addressable(repo@, revision@, path@),
{
    let owner = text::chars_of(repo.owner()).len();
    let name = text::chars_of(repo.name()).len();
    let revision = text::chars_of(revision).len();
    let path = text::chars_of(path).len();
    owner <= url::URL_LIMIT && name <= url::URL_LIMIT && revision <= url::URL_LIMIT && path
        <= url::URL_LIMIT && owner + name + revision + path + 64 <= url::URL_LIMIT
}

impl HubClient {
    #[verifier::type_invariant]
    spec fn was_read(self) -> bool {
        &&& url::url_parse(self.endpoint@) == Ok::<WebUrlView, Seq<char>>(self.parsed@)
        &&& self.endpoint@.len() <= url::URL_LIMIT
    }

    /// The public Hub.
    pub fn new(token: Option<String>) -> (res: AppResult<Self>)
        ensures
            match res {
                Ok(client) => {
                    &&& url::url_parse("https://huggingface.co/"@) == Ok::<WebUrlView, Seq<char>>(
                        client@.parsed,
                    )
                    &&& client@.endpoint == "https://huggingface.co/"@
                    &&& client@.token == text::optional_text(token)
                },
                Err(error) => url::url_parse("https://huggingface.co/"@) matches Err(reason)
                    && error@ == ErrorView::Message(
                    "invalid Hub endpoint "@ + text::debug_text("https://huggingface.co/"@)
                        + ": "@ + reason,
                ),
            },
    {
        proof {
            reveal_strlit("https://huggingface.co/");
        }
        Self::at_endpoint(HUB_ENDPOINT, token)
    }

    /// The Hub at `endpoint`.
    pub fn at_endpoint(endpoint: &str, token: Option<String>) -> (res: AppResult<Self>)
        requires
            endpoint@.len() <= url::URL_LIMIT,
        ensures
            match res {
                Ok(client) => {
                    &&& url::url_parse(endpoint@) == Ok::<WebUrlView, Seq<char>>(client@.parsed)
                    &&& client@.endpoint == endpoint@
                    &&& client@.token == text::optional_text(token)
                },
                Err(error) => url::url_parse(endpoint@) matches Err(reason) && error@
                    == ErrorView::Message(
                    "invalid Hub endpoint "@ + text::debug_text(endpoint@) + ": "@ + reason,
                ),
            },
    {
        match parse_url(endpoint) {
            Ok(parsed) => Ok(HubClient { endpoint: endpoint.to_owned(), parsed, token }),
            Err(reason) => {
                let mut message = "invalid Hub endpoint ".to_owned();
                message.append(&debug_of(endpoint));
                message.append(": ");
                message.append(&reason);
                Err(AppError::message(message))
            },
        }
    }

    /// The endpoint as it was written.
    pub fn endpoint(&self) -> (res: &str)
        ensures
            res@ == self@.endpoint,
    {
        &self.endpoint
    }

    /// The request that resolves a revision to a commit.
    pub fn resolve_revision(&self, repo: &RepoSpec, repo_type: RepoType, revision: &str) -> (res:
        AppResult<HubRequest>)
        requires
            addressable(repo@, revision@, Seq::empty()),
        ensures
            asked(res) == revision_request(self@, repo@, repo_type, revision@),
    {
        validate_revision(revision)?;
        let segments = describing_segments(repo, repo_type, "revision", revision);
        proof {
            reveal_strlit("revision");
            lemma_description_fits(repo@, repo_type, "revision"@, revision@);
        }
        let mut query: Vec<(String, String)> = Vec::new();
        query.push(("expand".to_owned(), "sha".to_owned()));
        proof {
            assert(url::pairs(query@) =~= seq![("expand"@, "sha"@)]);
        }
        self.api_request(&segments, query, "could not resolve repository revision")
    }

    /// The address of the first page of a repository's contents.
    pub fn tree_url(&self, repo: &RepoSpec, repo_type: RepoType, revision: &str) -> (res: AppResult<
        WebUrl,
    >)
        requires
            addressable(repo@, revision@, Seq::empty()),
        ensures
            located(res) == tree_address(self@, repo@, repo_type, revision@),
            res matches Ok(url) ==> url::same_origin(url@, self@.parsed),
    {
        proof {
            use_type_invariant(self);
            reveal_strlit("tree");
            lemma_description_fits(repo@, repo_type, "tree"@, revision@);
        }
        let segments = describing_segments(repo, repo_type, "tree", revision);
        let mut query: Vec<(String, String)> = Vec::new();
        query.push(("recursive".to_owned(), "true".to_owned()));
        query.push(("limit".to_owned(), "1000".to_owned()));
        proof {
            assert(url::pairs(query@) =~= seq![("recursive"@, "true"@), ("limit"@, "1000"@)]);
            lemma_tree_parameters_fit();
        }
        match with_query(&self.endpoint, &segments, &query) {
            Some(url) => Ok(url),
            None => Err(message_error("Hub endpoint cannot contain API paths")),
        }
    }

    /// The address of a file.
    pub fn file_url(&self, repo: &RepoSpec, repo_type: RepoType, revision: &str, path: &str) -> (res:
        AppResult<WebUrl>)
        requires
            addressable(repo@, revision@, path@),
        ensures
            located(res) == file_address(self@, repo@, repo_type, revision@, path@),
            res matches Ok(url) ==> url::same_origin(url@, self@.parsed),
    {
        proof {
            use_type_invariant(self);
        }
        validate_revision(revision)?;
        validate_remote_path(path, true)?;
        let mut segments: Vec<String> = Vec::new();
        if let Some(prefix) = repo_type.url_prefix() {
            segments.push(prefix.to_owned());
        }
        segments.push(repo.owner().to_owned());
        segments.push(repo.name().to_owned());
        segments.push("resolve".to_owned());
        segments.push(revision.to_owned());
        let ghost before = segments@;
        let mut components = text::split_text(path, '/');
        let ghost parts = components@;
        segments.append(&mut components);
        proof {
            assert(segments@ =~= before + parts);
            assert(text::texts(segments@) =~= text::texts(before) + text::texts(parts));
            assert(text::texts(segments@) =~= file_segments(repo@, repo_type, revision@, path@));
            lemma_file_segments_fit(repo@, repo_type, revision@, path@);
        }
        match with_path(&self.endpoint, &segments) {
            Some(url) => Ok(url),
            None => Err(message_error("Hub endpoint cannot contain repository paths")),
        }
    }

    /// The request for the whole of a file at `url`.
    pub fn file_request_for_url(&self, url: WebUrl, path: &str) -> (res: AppResult<HubRequest>)
        ensures
            asked(res) == file_request(self@, url@, path@),
    {
        self.validate_same_origin(&url)?;
        let mut context = "could not download ".to_owned();
        context.append(&debug_of(path));
        let request = self.get(url, Vec::new(), context);
        proof {
            assert(request@.query =~= Seq::empty());
        }
        Ok(request)
    }

    /// The request for the whole of a file.
    pub fn file_request(
        &self,
        repo: &RepoSpec,
        repo_type: RepoType,
        revision: &str,
        path: &str,
    ) -> (res: AppResult<HubRequest>)
        requires
            addressable(repo@, revision@, path@),
        ensures
            asked(res) == (match file_address(self@, repo@, repo_type, revision@, path@) {
                Ok(url) => Ok(
                    request(
                        self@,
                        url,
                        Seq::empty(),
                        "could not download "@ + text::debug_text(path@),
                    ),
                ),
                Err(error) => Err(error),
            }),
    {
        match self.file_url(repo, repo_type, revision, path) {
            Ok(url) => self.file_request_for_url(url, path),
            Err(error) => Err(error),
        }
    }

    /// The request for the bytes of the file at `url` from `start` through `end`, to
    /// be answered in part only if the file is still the one that `if_range` names.
    pub fn file_range_request(
        &self,
        url: WebUrl,
        path: &str,
        start: u64,
        end: u64,
        if_range: Option<&str>,
    ) -> (res: AppResult<HubRequest>)
        ensures
            asked(res) == file_range_request(
                self@,
                url@,
                path@,
                start,
                end,
                text::optional_str(if_range),
            ),
    {
        match self.file_request_for_url(url, path) {
            Ok(mut request) => {
                let mut range = "bytes=".to_owned();
                range.append(&decimal_text(start));
                range.append("-");
                range.append(&decimal_text(end));
                request.range = Some(range);
                request.if_range = match if_range {
                    Some(validator) => Some(validator.to_owned()),
                    None => None,
                };
                Ok(request)
            },
            Err(error) => Err(error),
        }
    }

    /// The request that asks whom the token belongs to.
    pub fn whoami(&self) -> (res: AppResult<HubRequest>)
        ensures
            asked(res) == identity_request(self@),
    {
        if self.token.is_none() {
            return Err(message_error("no Hugging Face token is configured"));
        }
        let mut segments: Vec<String> = Vec::new();
        segments.push("api".to_owned());
        segments.push("whoami-v2".to_owned());
        proof {
            assert(text::texts(segments@) =~= seq!["api"@, "whoami-v2"@]);
            reveal_strlit("api");
            reveal_strlit("whoami-v2");
            reveal_with_fuel(url::total_length, 3);
        }
        let query: Vec<(String, String)> = Vec::new();
        proof {
            assert(url::pairs(query@) =~= Seq::empty());
        }
        self.api_request(&segments, query, "could not authenticate with Hugging Face")
    }

    /// The request for a search.
    pub fn quick_search(
        &self,
        query: Option<&str>,
        owner: Option<&str>,
        result_type: Option<&str>,
        limit: usize,
    ) -> (res: AppResult<HubRequest>)
        ensures
            asked(res) == search_request(
                self@,
                text::optional_str(query),
                text::optional_str(owner),
                text::optional_str(result_type),
                limit as nat,
            ),
    {
        let mut segments: Vec<String> = Vec::new();
        segments.push("api".to_owned());
        segments.push("quicksearch".to_owned());
        proof {
            assert(text::texts(segments@) =~= seq!["api"@, "quicksearch"@]);
            reveal_strlit("api");
            reveal_strlit("quicksearch");
            reveal_with_fuel(url::total_length, 3);
        }
        let mut parameters: Vec<(String, String)> = Vec::new();
        if let Some(query) = query {
            parameters.push(("q".to_owned(), query.to_owned()));
        }
        parameters.push(("limit".to_owned(), decimal_text(limit as u64)));
        if let Some(result_type) = result_type {
            parameters.push(("type".to_owned(), result_type.to_owned()));
        }
        if let Some(owner) = owner {
            parameters.push(("namespace".to_owned(), owner.to_owned()));
        }
        proof {
            assert(url::pairs(parameters@) =~= search_parameters(
                text::optional_str(query),
                text::optional_str(owner),
                text::optional_str(result_type),
                limit as nat,
            ));
        }
        self.api_request(&segments, parameters, "Hub search failed")
    }

    /// The search for users.
    pub fn search_users(&self, query: &str, limit: usize) -> (res: AppResult<HubRequest>)
        ensures
            asked(res) == search_request(self@, Some(query@), None, Some("user"@), limit as nat),
    {
        self.quick_search(Some(query), None, Some("user"), limit)
    }

    /// The search for organizations.
    pub fn search_organizations(&self, query: &str, limit: usize) -> (res: AppResult<HubRequest>)
        ensures
            asked(res) == search_request(self@, Some(query@), None, Some("org"@), limit as nat),
    {
        self.quick_search(Some(query), None, Some("org"), limit)
    }

    /// The search for repositories, of one type or of all.
    pub fn search_repositories(
        &self,
        query: Option<&str>,
        owner: Option<&str>,
        repo_type: Option<RepoType>,
        limit: usize,
    ) -> (res: AppResult<HubRequest>)
        ensures
            asked(res) == search_request(
                self@,
                text::optional_str(query),
                text::optional_str(owner),
                match repo_type {
                    Some(repo_type) => Some(repo_type.singular_word()),
                    None => None,
                },
                limit as nat,
            ),
    {
        match repo_type {
            Some(repo_type) => self.quick_search(query, owner, Some(repo_type.singular()), limit),
            None => self.quick_search(query, owner, None, limit),
        }
    }

    /// Accepts an address at the origin of the endpoint.
    pub fn validate_same_origin(&self, url: &WebUrl) -> (res: AppResult<()>)
        ensures
            match res {
                Ok(()) => origin_refusal(self@, url@) is None,
                Err(error) => origin_refusal(self@, url@) matches Some(message) && error@
                    == ErrorView::Message(message),
            },
    {
        let same_port = match (url.port, self.parsed.port) {
            (Some(port), Some(own)) => port == own,
            (None, None) => true,
            _ => false,
        };
        if same_text(&url.scheme, &self.parsed.scheme) && same_optional(
            &url.host,
            &self.parsed.host,
        ) && same_port {
            Ok(())
        } else {
            Err(
                detailed_error(
                    "Hub request attempted to leave the configured origin: ",
                    &url.text,
                ),
            )
        }
    }

    /// The request for an address, with the client's token.
    pub(crate) fn get(&self, url: WebUrl, query: Vec<(String, String)>, context: String) -> (res:
        HubRequest)
        ensures
            res@ == request(self@, url@, url::pairs(query@), context@),
    {
        HubRequest {
            url,
            query,
            token: text::clone_optional(&self.token),
            range: None,
            if_range: None,
            context,
        }
    }

    fn endpoint_url(&self, segments: &Vec<String>) -> (res: AppResult<WebUrl>)
        requires
            url::fit(text::texts(segments@)),
        ensures
            located(res) == api_address(self@, text::texts(segments@)),
            res matches Ok(url) ==> url::same_origin(url@, self@.parsed),
    {
        proof {
            use_type_invariant(self);
        }
        match with_path(&self.endpoint, segments) {
            Some(url) => Ok(url),
            None => Err(message_error("Hub endpoint cannot contain API paths")),
        }
    }

    fn api_request(&self, segments: &Vec<String>, query: Vec<(String, String)>, context: &str) -> (res:
        AppResult<HubRequest>)
        requires
            url::fit(text::texts(segments@)),
        ensures
            asked(res) == api_request(
                self@,
                text::texts(segments@),
                url::pairs(query@),
                context@,
            ),
    {
        match self.endpoint_url(segments) {
            Ok(url) => Ok(self.get(url, query, context.to_owned())),
            Err(error) => Err(error),
        }
    }
}

fn describing_segments(repo: &RepoSpec, repo_type: RepoType, view: &str, revision: &str) -> (res:
    Vec<String>)
    ensures
        text::texts(res@) == described_at(repo@, repo_type, view@, revision@),
{
    let mut segments: Vec<String> = Vec::new();
    segments.push("api".to_owned());
    segments.push(repo_type.plural().to_owned());
    segments.push(repo.owner().to_owned());
    segments.push(repo.name().to_owned());
    segments.push(view.to_owned());
    segments.push(revision.to_owned());
    proof {
        assert(text::texts(segments@) =~= described_at(repo@, repo_type, view@, revision@));
    }
    segments
}

proof fn lemma_words_are_short()
    ensures
        forall|repo_type: RepoType| #[trigger] repo_type.plural_word().len() <= 8,
        forall|repo_type: RepoType|
            (#[trigger] repo_type.prefix_word()) matches Some(word) ==> word.len() <= 8,
        "api"@.len() == 3,
        "resolve"@.len() == 7,
{
    reveal_strlit("api");
    reveal_strlit("resolve");
    reveal_strlit("models");
    reveal_strlit("datasets");
    reveal_strlit("spaces");
}

proof fn lemma_tree_parameters_fit()
    ensures
        url::pairs_fit(seq![("recursive"@, "true"@), ("limit"@, "1000"@)]),
{
    reveal_strlit("recursive");
    reveal_strlit("true");
    reveal_strlit("limit");
    reveal_strlit("1000");
    let both = seq![("recursive"@, "true"@), ("limit"@, "1000"@)];
    let one = both.drop_last();
    assert(one =~= seq![("recursive"@, "true"@)]);
    assert(one.drop_last() =~= Seq::empty());
    reveal_with_fuel(url::pairs_length, 3);
}

proof fn lemma_description_fits(
    repo: RepoSpecView,
    repo_type: RepoType,
    view: Seq<char>,
    revision: Seq<char>,
)
    requires
        addressable(repo, revision, Seq::empty()),
        view.len() <= 8,
    ensures
        url::fit(described_at(repo, repo_type, view, revision)),
{
    lemma_words_are_short();
    let all = described_at(repo, repo_type, view, revision);
    assert(repo_type.plural_word().len() <= 8);
    assert(all.drop_last() =~= seq!["api"@, repo_type.plural_word(), repo.owner, repo.name, view]);
    let five = all.drop_last();
    assert(five.drop_last() =~= seq!["api"@, repo_type.plural_word(), repo.owner, repo.name]);
    let four = five.drop_last();
    assert(four.drop_last() =~= seq!["api"@, repo_type.plural_word(), repo.owner]);
    let three = four.drop_last();
    assert(three.drop_last() =~= seq!["api"@, repo_type.plural_word()]);
    let two = three.drop_last();
    assert(two.drop_last() =~= seq!["api"@]);
    assert(two.drop_last().drop_last() =~= Seq::empty());
    assert(url::total_length(two) == 3 + repo_type.plural_word().len()) by {
        reveal_with_fuel(url::total_length, 3);
    }
    assert(url::total_length(three) == url::total_length(two) + repo.owner.len());
    assert(url::total_length(four) == url::total_length(three) + repo.name.len());
    assert(url::total_length(five) == url::total_length(four) + view.len());
}

proof fn lemma_file_segments_fit(
    repo: RepoSpecView,
    repo_type: RepoType,
    revision: Seq<char>,
    path: Seq<char>,
)
    requires
        addressable(repo, revision, path),
    ensures
        url::fit(file_segments(repo, repo_type, revision, path)),
{
    lemma_words_are_short();
    let prefix = match repo_type.prefix_word() {
        Some(word) => seq![word],
        None => Seq::empty(),
    };
    assert(url::total_length(prefix) <= 8) by {
        reveal_with_fuel(url::total_length, 2);
        if prefix.len() == 1 {
            assert(prefix.drop_last() =~= Seq::empty());
        }
    }
    let middle = seq![repo.owner, repo.name, "resolve"@, revision];
    assert(middle.drop_last() =~= seq![repo.owner, repo.name, "resolve"@]);
    assert(middle.drop_last().drop_last() =~= seq![repo.owner, repo.name]);
    assert(middle.drop_last().drop_last().drop_last() =~= seq![repo.owner]);
    assert(middle.drop_last().drop_last().drop_last().drop_last() =~= Seq::empty());
    assert(url::total_length(middle) == repo.owner.len() + repo.name.len() + 7 + revision.len())
        by {
        reveal_with_fuel(url::total_length, 5);
    }
    url::lemma_total_length_of_both(prefix, middle);
    url::lemma_total_length_of_both(prefix + middle, text::split(path, '/'));
    url::lemma_parts_fit(path, '/');
}

// ---------------------------------------------------------------------------
// Laws
// ---------------------------------------------------------------------------

/// A result that holds a request or an address is worth what it holds, or the very error.
pub proof fn lemma_values_of_requests(request: AppResult<HubRequest>, address: AppResult<WebUrl>)
    ensures
        request matches Ok(sent) ==> asked(request) == Ok::<HubRequestView, ErrorView>(sent@),
        request matches Err(error) ==> asked(request) == Err::<HubRequestView, ErrorView>(error@),
        address matches Ok(url) ==> located(address) == Ok::<WebUrlView, ErrorView>(url@),
        address matches Err(error) ==> located(address) == Err::<WebUrlView, ErrorView>(error@),
{
}

/// A file is asked for below its repository's page, at its revision, by its own path.
pub proof fn lemma_files_are_addressed_below_their_repository(
    client: HubClientView,
    repo: RepoSpecView,
    repo_type: RepoType,
    revision: Seq<char>,
    path: Seq<char>,
)
    ensures
        text::join(file_segments(repo, repo_type, revision, path), seq!['/']) == (
        match repo_type {
            RepoType::Model => Seq::empty(),
            RepoType::Dataset => "datasets"@ + seq!['/'],
            RepoType::Space => "spaces"@ + seq!['/'],
        }) + repo.owner + seq!['/'] + repo.name + seq!['/'] + "resolve"@ + seq!['/'] + revision
            + seq!['/'] + path,
        revision.len() > 0 && hub::safe_path(path) && client.parsed.is_base ==> file_address(
            client,
            repo,
            repo_type,
            revision,
            path,
        ) == Ok::<WebUrlView, ErrorView>(
            url::url_with_path(
                client.endpoint,
                file_segments(repo, repo_type, revision, path),
            )->0,
        ),
        file_address(client, repo, repo_type, revision, path) is Ok ==> revision.len() > 0
            && hub::safe_path(path) && client.parsed.is_base,
        revision.len() == 0 ==> file_address(client, repo, repo_type, revision, path) == Err::<
            WebUrlView,
            ErrorView,
        >(ErrorView::Message("revision cannot be empty"@)),
{
    let parts = text::split(path, '/');
    let slash = seq!['/'];
    let middle = seq![repo.owner, repo.name, "resolve"@, revision];
    text::lemma_split(path, '/');
    hub::lemma_accepted_paths_stay_inside(path, true);
    lemma_joined_pair(repo.owner, repo.name);
    lemma_joined_pair("resolve"@, revision);
    let first = seq![repo.owner, repo.name];
    let second = seq!["resolve"@, revision];
    text::lemma_joined_texts_stand_in_order(first, second, revision, slash);
    assert(first + second =~= middle);
    text::lemma_joined_texts_stand_in_order(middle, parts, revision, slash);
    let rest = middle + parts;
    match repo_type.prefix_word() {
        Some(word) => {
            let prefix = seq![word];
            text::lemma_joined_texts_stand_in_order(prefix, rest, word, slash);
            assert(file_segments(repo, repo_type, revision, path) =~= prefix + rest);
        },
        None => {
            assert(file_segments(repo, repo_type, revision, path) =~= rest);
        },
    }
    assert(text::join(file_segments(repo, repo_type, revision, path), slash) =~= (
    match repo_type {
        RepoType::Model => Seq::empty(),
        RepoType::Dataset => "datasets"@ + seq!['/'],
        RepoType::Space => "spaces"@ + seq!['/'],
    }) + repo.owner + seq!['/'] + repo.name + seq!['/'] + "resolve"@ + seq!['/'] + revision
        + seq!['/'] + path);
}

proof fn lemma_joined_pair(left: Seq<char>, right: Seq<char>)
    ensures
        text::join(seq![left, right], seq!['/']) == left + seq!['/'] + right,
{
    text::lemma_joined_texts_stand_in_order(seq![left], seq![right], left, seq!['/']);
    text::lemma_joined_texts_stand_in_order(seq![left], seq![right], right, seq!['/']);
    assert(seq![left] + seq![right] =~= seq![left, right]);
}

/// The Hub is asked about a repository by its type, its owner, its name and the revision:
/// for its commit, or for everything in it.
pub proof fn lemma_repositories_are_described_by_name(
    client: HubClientView,
    repo: RepoSpecView,
    repo_type: RepoType,
    view: Seq<char>,
    revision: Seq<char>,
)
    ensures
        text::join(described_at(repo, repo_type, view, revision), seq!['/']) == "api"@ + seq!['/']
            + (match repo_type {
            RepoType::Model => "models"@,
            RepoType::Dataset => "datasets"@,
            RepoType::Space => "spaces"@,
        }) + seq!['/'] + repo.owner + seq!['/'] + repo.name + seq!['/'] + view + seq!['/']
            + revision,
        revision.len() == 0 ==> revision_request(client, repo, repo_type, revision) == Err::<
            HubRequestView,
            ErrorView,
        >(ErrorView::Message("revision cannot be empty"@)),
        revision.len() > 0 && client.parsed.is_base ==> {
            &&& revision_request(client, repo, repo_type, revision) matches Ok(request)
            &&& request.url == url::url_with_path(
                client.endpoint,
                described_at(repo, repo_type, "revision"@, revision),
            )->0
            &&& request.query == seq![("expand"@, "sha"@)]
            &&& request.token == client.token
            &&& request.range is None
            &&& request.if_range is None
        },
        client.parsed.is_base ==> tree_address(client, repo, repo_type, revision) == Ok::<
            WebUrlView,
            ErrorView,
        >(
            url::url_with_query(
                client.endpoint,
                described_at(repo, repo_type, "tree"@, revision),
                seq![("recursive"@, "true"@), ("limit"@, "1000"@)],
            )->0,
        ),
        !client.parsed.is_base ==> tree_address(client, repo, repo_type, revision) is Err,
{
    let word = repo_type.plural_word();
    let slash = seq!['/'];
    lemma_joined_pair("api"@, word);
    lemma_joined_pair(repo.owner, repo.name);
    lemma_joined_pair(view, revision);
    let one = seq!["api"@, word];
    let two = seq![repo.owner, repo.name];
    let three = seq![view, revision];
    text::lemma_joined_texts_stand_in_order(one, two, word, slash);
    text::lemma_joined_texts_stand_in_order(one + two, three, word, slash);
    assert(one + two + three =~= described_at(repo, repo_type, view, revision));
    assert(text::join(described_at(repo, repo_type, view, revision), slash) =~= "api"@ + seq!['/']
        + word + seq!['/'] + repo.owner + seq!['/'] + repo.name + seq!['/'] + view + seq!['/']
        + revision);
}

/// No request leaves the endpoint: one for a file is made exactly if its address has the
/// endpoint's scheme, host and port. It carries the client's token, asks for exactly the
/// bytes that were asked for, and under exactly the condition that was given.
pub proof fn lemma_requests_for_files_stay_at_the_endpoint(
    client: HubClientView,
    url: WebUrlView,
    path: Seq<char>,
    start: u64,
    end: u64,
    if_range: Option<Seq<char>>,
)
    ensures
        ({
            let home = url.scheme == client.parsed.scheme && url.host == client.parsed.host
                && url.port == client.parsed.port;
            let whole = file_request(client, url, path);
            let part = file_range_request(client, url, path, start, end, if_range);
            &&& origin_refusal(client, url) is None <==> home
            &&& !home ==> origin_refusal(client, url) == Some(
                "Hub request attempted to leave the configured origin: "@ + url.text,
            )
            &&& home ==> {
                &&& whole matches Ok(request)
                &&& request.url == url
                &&& request.query.len() == 0
                &&& request.token == client.token
                &&& request.range is None
                &&& request.if_range is None
                &&& request.context == "could not download "@ + text::debug_text(path)
            }
            &&& home ==> {
                &&& part matches Ok(request)
                &&& request.url == url
                &&& request.query.len() == 0
                &&& request.token == client.token
                &&& request.range == Some(
                    "bytes="@ + text::decimal(start as nat) + seq!['-'] + text::decimal(
                        end as nat,
                    ),
                )
                &&& request.if_range == if_range
            }
            &&& !home ==> whole is Err && part is Err
        }),
{
    reveal_strlit("-");
    assert("-"@ =~= seq!['-']);
}

/// A search asks for exactly what was given: the words, the type and the owner each if there
/// is one, and the limit always; nothing else is asked for.
pub proof fn lemma_searches_ask_for_what_was_given(
    client: HubClientView,
    query: Option<Seq<char>>,
    owner: Option<Seq<char>>,
    result_type: Option<Seq<char>>,
    limit: nat,
    name: Seq<char>,
    value: Seq<char>,
)
    ensures
        search_parameters(query, owner, result_type, limit).contains((name, value)) <==> {
            ||| name == "q"@ && query == Some(value)
            ||| name == "limit"@ && value == text::decimal(limit)
            ||| name == "type"@ && result_type == Some(value)
            ||| name == "namespace"@ && owner == Some(value)
        },
        client.parsed.is_base ==> {
            &&& search_request(client, query, owner, result_type, limit) matches Ok(request)
            &&& request.url == url::url_with_path(
                client.endpoint,
                seq!["api"@, "quicksearch"@],
            )->0
            &&& request.query == search_parameters(query, owner, result_type, limit)
            &&& request.token == client.token
            &&& request.range is None
        },
        !client.parsed.is_base ==> search_request(client, query, owner, result_type, limit) is Err,
{
    let all = search_parameters(query, owner, result_type, limit);
    let pair = (name, value);
    let first = parameter("q"@, query);
    let second = seq![("limit"@, text::decimal(limit))];
    let third = parameter("type"@, result_type);
    let fourth = parameter("namespace"@, owner);
    assert(all =~= first + second + third + fourth);
    if query is Some {
        assert(all[0] == ("q"@, query->0));
    }
    assert(all[first.len() as int] == ("limit"@, text::decimal(limit)));
    if result_type is Some {
        assert(all[first.len() as int + 1] == ("type"@, result_type->0));
    }
    if owner is Some {
        assert(all[first.len() as int + 1 + third.len()] == ("namespace"@, owner->0));
    }
}

/// Whom a token belongs to is asked only with a token, and with that one.
pub proof fn lemma_identity_needs_a_token(client: HubClientView)
    ensures
        client.token is None ==> identity_request(client) == Err::<HubRequestView, ErrorView>(
            ErrorView::Message("no Hugging Face token is configured"@),
        ),
        client.token is Some && client.parsed.is_base ==> {
            &&& identity_request(client) matches Ok(request)
            &&& request.url == url::url_with_path(client.endpoint, seq!["api"@, "whoami-v2"@])->0
            &&& request.token == client.token
            &&& request.query.len() == 0
        },
{
}

} // verus!
