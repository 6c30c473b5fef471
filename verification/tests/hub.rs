use xhf::cli::{RepoSpec, RepoType};
use xhf::error::{IoFailure, IoKind};
use xhf::hub::client::{is_addressable, HubClient, HubRequest};
use xhf::hub::failure::{
    describe_refusal, http_error, repository_page_url, response_hint, status_description,
    ERROR_BODY_LIMIT,
};
use xhf::hub::listing::parse_next_link;
use xhf::hub::{
    accept_revision, found_organizations, found_users, interleave_repositories,
    select_repositories, validate_remote_path, validate_revision, HeaderValue, QuickOrganization,
    QuickRepository, QuickSearchResponse, QuickUser, TreeEntry,
};
use xhf::url::{origin_text, WebUrl};

fn url(text: &str) -> WebUrl {
    WebUrl::parse(text).unwrap()
}

fn repo() -> RepoSpec {
    "owner/repo".parse().unwrap()
}

fn client() -> HubClient {
    HubClient::at_endpoint("http://127.0.0.1:8080/", Some("test-token".to_owned())).unwrap()
}

fn query(request: &HubRequest) -> Vec<(&str, &str)> {
    request
        .query
        .iter()
        .map(|(name, value)| (name.as_str(), value.as_str()))
        .collect()
}

#[test]
fn resolves_branches_tags_and_hashes_for_all_repository_types() {
    let sha = "0123456789abcdef0123456789abcdef01234567";
    for (repo_type, revision, path) in [
        (RepoType::Model, "main", "/api/models/owner/repo/revision/main"),
        (RepoType::Dataset, "v1.0", "/api/datasets/owner/repo/revision/v1.0"),
        (
            RepoType::Space,
            "refs/pr/1",
            "/api/spaces/owner/repo/revision/refs%2Fpr%2F1",
        ),
        (
            RepoType::Model,
            sha,
            "/api/models/owner/repo/revision/0123456789abcdef0123456789abcdef01234567",
        ),
    ] {
        let request = client().resolve_revision(&repo(), repo_type, revision).unwrap();
        assert_eq!(request.url.text, format!("http://127.0.0.1:8080{path}"));
        assert_eq!(query(&request), [("expand", "sha")]);
        assert_eq!(request.token.as_deref(), Some("test-token"));
        assert_eq!(accept_revision(sha.to_owned()).unwrap(), sha);
    }
}

#[test]
fn rejects_unresolved_or_malformed_commit_hashes() {
    for sha in ["main", "", "0123456789abcdef0123456789abcdef0123456z"] {
        let result = accept_revision(sha.to_owned());
        assert!(result.is_err(), "accepted {sha}");
        assert_eq!(
            result.unwrap_err().text(),
            "Hub returned an invalid repository commit hash"
        );
    }
}

#[test]
fn propagates_revision_resolution_http_errors() {
    let request = client().resolve_revision(&repo(), RepoType::Model, "missing").unwrap();
    let error = http_error(
        &request.context,
        404,
        &request.url,
        Ok(b"Revision not found".to_vec()),
    )
    .text();
    assert!(error.contains("could not resolve repository revision"));
    assert!(error.contains("404 Not Found"));
    assert_eq!(
        error,
        "could not resolve repository revision: 404 Not Found for \
         http://127.0.0.1:8080/api/models/owner/repo/revision/missing: Revision not found"
    );
}

fn repository(id: &str) -> QuickRepository {
    QuickRepository { id: id.to_owned(), private: false }
}

#[test]
fn interleaves_repository_types_up_to_limit() {
    let response = QuickSearchResponse {
        models: vec![repository("m/1"), repository("m/2")],
        datasets: vec![repository("d/1"), repository("d/2")],
        spaces: vec![repository("s/1"), repository("s/2")],
        ..QuickSearchResponse::default()
    };
    let records = interleave_repositories(&response, 4);
    assert_eq!(
        records.iter().map(|record| record.id.as_str()).collect::<Vec<_>>(),
        ["m/1", "d/1", "s/1", "m/2"]
    );
}

#[test]
fn interleaving_goes_on_when_a_type_runs_out() {
    let response = QuickSearchResponse {
        models: vec![repository("m/1")],
        spaces: vec![repository("s/1"), repository("s/2"), repository("s/3")],
        ..QuickSearchResponse::default()
    };
    let ids = |limit| {
        select_repositories(&response, None, limit)
            .into_iter()
            .map(|record| record.id)
            .collect::<Vec<_>>()
    };
    assert_eq!(ids(10), ["m/1", "s/1", "s/2", "s/3"]);
    assert_eq!(ids(2), ["m/1", "s/1"]);
    assert!(ids(0).is_empty());
    let spaces = select_repositories(&response, Some(RepoType::Space), 2);
    assert_eq!(spaces.len(), 2);
    assert_eq!(spaces[1].id, "s/2");
    assert_eq!(spaces[1].repo_type, RepoType::Space);
    assert!(select_repositories(&response, Some(RepoType::Dataset), 2).is_empty());
    assert_eq!(select_repositories(&response, Some(RepoType::Model), 2).len(), 1);
}

#[test]
fn takes_people_from_search_answers() {
    let users = vec![QuickUser { user: "alice".to_owned(), fullname: Some("Alice".to_owned()) }];
    let records = found_users(&users, 30);
    assert_eq!(records.len(), 1);
    assert_eq!(records[0].id, "alice");
    assert_eq!(records[0].name.as_deref(), Some("Alice"));
    let organizations = vec![QuickOrganization { name: "acme".to_owned(), fullname: None }];
    let records = found_organizations(&organizations, 30);
    assert_eq!(records.len(), 1);
    assert_eq!(records[0].id, "acme");
    assert_eq!(records[0].name, None);
}

#[test]
fn limits_people_in_search_answers() {
    let user = |name: &str| QuickUser { user: name.to_owned(), fullname: None };
    let users = vec![user("a"), user("b"), user("c")];
    let ids = |limit| {
        let records = found_users(&users, limit);
        records.into_iter().map(|record| record.id).collect::<Vec<_>>()
    };
    assert_eq!(ids(2), ["a", "b"]);
    assert_eq!(ids(3), ["a", "b", "c"]);
    assert!(ids(0).is_empty());
    let organization = |name: &str| QuickOrganization { name: name.to_owned(), fullname: None };
    let organizations = vec![organization("x"), organization("y")];
    assert_eq!(found_organizations(&organizations, 1).len(), 1);
    assert_eq!(found_organizations(&organizations, 1)[0].id, "x");
}

#[test]
fn names_origins() {
    let origin = |text: &str| origin_text(&url(text));
    assert_eq!(origin("https://huggingface.co/a?b#c"), "https://huggingface.co");
    assert_eq!(origin("https://huggingface.co:443/"), "https://huggingface.co");
    assert_eq!(origin("http://127.0.0.1:8080/"), "http://127.0.0.1:8080");
    assert_eq!(origin("http://[::1]:81/"), "http://[::1]:81");
    assert_eq!(origin("ftp://host/"), "ftp://host");
    assert_eq!(origin("file:///tmp"), "null");
    assert_eq!(origin("mailto:me"), "null");
    for text in ["https://huggingface.co:8443/a", "ws://h:80/", "wss://h:80/", "file:///a", "x:/a"] {
        assert_eq!(
            origin(text),
            reqwest::Url::parse(text).unwrap().origin().ascii_serialization()
        );
    }
}

#[test]
fn deeply_nested_addresses_are_read() {
    let nested = "blob:".repeat(100_000);
    let address = url(&nested);
    assert_eq!(address.scheme, "blob");
    assert_eq!(origin_text(&address), "null");
    let next = parse_next_link(
        &format!("<{nested}>; rel=\"next\""),
        "https://huggingface.co/",
    );
    let next = next.unwrap().unwrap();
    assert!(client().validate_same_origin(&next).is_err());
}

#[test]
fn rejects_unsafe_remote_paths() {
    assert!(validate_remote_path("../secret", true).is_err());
    assert!(validate_remote_path("folder\\secret", true).is_err());
    assert!(validate_remote_path("/rooted", true).is_err());
}

#[test]
fn explains_refused_paths_and_revisions() {
    assert!(validate_remote_path("", false).is_ok());
    assert!(validate_remote_path("folder/file", true).is_ok());
    assert_eq!(
        validate_remote_path("", true).unwrap_err().text(),
        "file path cannot be empty"
    );
    for path in ["a/", "a//b", "./a", "a/.."] {
        assert_eq!(
            validate_remote_path(path, false).unwrap_err().text(),
            format!("unsafe repository path returned by Hub: {path:?}")
        );
    }
    assert!(validate_revision("main").is_ok());
    assert_eq!(
        validate_revision("").unwrap_err().text(),
        "revision cannot be empty"
    );
}

#[test]
fn same_origin_comparison_includes_scheme_and_port() {
    let client = HubClient::at_endpoint("https://huggingface.co/", None).unwrap();
    let same = url("https://huggingface.co/api/models");
    let different = url("http://huggingface.co/api/models");
    assert!(client.validate_same_origin(&same).is_ok());
    assert!(client.validate_same_origin(&different).is_err());
}

#[test]
fn other_origins_are_refused() {
    let client = HubClient::new(None).unwrap();
    assert_eq!(client.endpoint(), "https://huggingface.co/");
    assert!(client
        .validate_same_origin(&url("https://huggingface.co:443/x"))
        .is_ok());
    for other in ["https://huggingface.co:8443/x", "https://example.com/x", "data:x"] {
        assert_eq!(
            client.validate_same_origin(&url(other)).unwrap_err().text(),
            format!("Hub request attempted to leave the configured origin: {other}")
        );
    }
    let request = client.file_request_for_url(url("https://example.com/x"), "x");
    assert!(request.is_err());
}

#[test]
fn parses_next_page_link() {
    let endpoint = "https://huggingface.co/";
    let header = "<https://huggingface.co/api/models/o/r/tree/main?cursor=next>; rel=\"next\"";
    assert_eq!(
        parse_next_link(header, endpoint).unwrap().unwrap().text,
        "https://huggingface.co/api/models/o/r/tree/main?cursor=next"
    );
    assert!(parse_next_link("", endpoint).unwrap().is_none());
}

#[test]
fn explains_malformed_page_links() {
    let endpoint = "https://huggingface.co/";
    assert!(parse_next_link("<x>; rel=\"prev\"", endpoint).unwrap().is_none());
    assert_eq!(
        parse_next_link("<a>; rel=\"prev\", </b?c=1>; rel=\"next\"", endpoint)
            .unwrap()
            .unwrap()
            .text,
        "https://huggingface.co/b?c=1"
    );
    for header in ["rel=\"next\"", "<a; rel=\"next\"", ">a<; rel=\"next\""] {
        assert_eq!(
            parse_next_link(header, endpoint).unwrap_err().text(),
            "Hub returned a malformed next-page link"
        );
    }
    assert!(parse_next_link("<http://[>; rel=\"next\"", endpoint)
        .unwrap_err()
        .text()
        .starts_with("Hub returned an invalid next-page URL: "));
}

#[test]
fn explains_how_to_authenticate_after_unauthorized_response() {
    let url = url("https://huggingface.co/owner/repo/resolve/main/file");
    let hint = response_hint(401, "authentication required", &url).unwrap();
    assert!(hint.contains("xhf auth login"));
    assert!(hint.contains("https://huggingface.co/settings/tokens"));
}

#[test]
fn explains_how_to_request_gated_repository_access() {
    let url = url("https://huggingface.co/orcarouter/model/resolve/main/.gitattributes");
    let hint = response_hint(
        403,
        "Access is restricted and you are not in the authorized list. Ask for access.",
        &url,
    )
    .unwrap();
    assert!(hint.contains("token's Hugging Face user"));
    assert!(hint.contains("https://huggingface.co/orcarouter/model"));
    assert!(hint.contains("retry after approval"));
}

#[test]
fn leaves_unrelated_forbidden_responses_without_a_gated_hint() {
    let url = url("https://huggingface.co/api/resource");
    assert!(response_hint(403, "forbidden", &url).is_none());
    assert!(repository_page_url(&url).is_none());
}

#[test]
fn derives_repository_pages_from_tree_api_urls() {
    let model = url("https://huggingface.co/api/models/owner/model/tree/main?recursive=true");
    let dataset = url("https://huggingface.co/api/datasets/owner/data/tree/main?recursive=true");
    assert_eq!(
        repository_page_url(&model).as_deref(),
        Some("https://huggingface.co/owner/model")
    );
    assert_eq!(
        repository_page_url(&dataset).as_deref(),
        Some("https://huggingface.co/datasets/owner/data")
    );
}

#[test]
fn preserves_gated_access_hints_during_revision_resolution() {
    for (kind, prefix) in [
        ("models", ""),
        ("datasets", "datasets/"),
        ("spaces", "spaces/"),
    ] {
        let url = url(&format!(
            "https://huggingface.co/api/{kind}/owner/repo/revision/main?expand=sha"
        ));
        let hint = response_hint(403, "Access to this gated repo is restricted", &url).unwrap();
        assert!(hint.contains(&format!("https://huggingface.co/{prefix}owner/repo")));
        assert!(hint.contains("retry after approval"));
    }
}

#[test]
fn derives_no_page_from_other_urls() {
    assert_eq!(
        repository_page_url(&url("https://huggingface.co/spaces/o/s/resolve/main/f")).as_deref(),
        Some("https://huggingface.co/spaces/o/s")
    );
    for other in [
        "https://huggingface.co/other/o/s/resolve/main/f",
        "https://huggingface.co//name/resolve/main/f",
        "https://huggingface.co/api/users/o/r/tree/main",
        "data:text/plain,x",
    ] {
        assert!(repository_page_url(&url(other)).is_none());
    }
}

#[test]
fn words_refusals() {
    assert_eq!(ERROR_BODY_LIMIT, 8 * 1024);
    let address = url("https://huggingface.co/x");
    assert_eq!(
        describe_refusal("failed", 429, &address, " \n").text(),
        "failed: 429 Too Many Requests for https://huggingface.co/x: rate limit exceeded"
    );
    assert_eq!(
        describe_refusal("failed", 500, &address, "a\u{1b}b").text(),
        "failed: 500 Internal Server Error for https://huggingface.co/x: a\\u{1b}b"
    );
    assert_eq!(
        http_error("failed", 401, &address, Ok(vec![b'n', 0xff])).text(),
        "failed: 401 Unauthorized for https://huggingface.co/x: n\u{fffd}\nhint: authenticate \
         with 'xhf auth login'; create a token at https://huggingface.co/settings/tokens"
    );
    let failure = IoFailure { kind: IoKind::Other, text: "reset".to_owned() };
    assert_eq!(
        http_error("failed", 500, &address, Err(failure)).text(),
        "failed; could not read error response from https://huggingface.co/x: reset"
    );
    assert_eq!(
        status_description(401),
        "authentication required or token rejected"
    );
    assert_eq!(status_description(403), "access forbidden");
    assert_eq!(status_description(404), "resource not found");
    assert_eq!(status_description(418), "Hub request failed");
}

#[test]
fn refuses_endpoints_that_are_no_base() {
    assert!(HubClient::at_endpoint("nowhere", None)
        .unwrap_err()
        .text()
        .starts_with("invalid Hub endpoint \"nowhere\": "));
    let client = HubClient::at_endpoint("data:text", Some("t".to_owned())).unwrap();
    assert_eq!(
        client.whoami().unwrap_err().text(),
        "Hub endpoint cannot contain API paths"
    );
    assert_eq!(
        client.tree_url(&repo(), RepoType::Model, "main").unwrap_err().text(),
        "Hub endpoint cannot contain API paths"
    );
    assert_eq!(
        client.file_url(&repo(), RepoType::Model, "main", "f").unwrap_err().text(),
        "Hub endpoint cannot contain repository paths"
    );
}

#[test]
fn builds_search_requests() {
    let request = client()
        .search_repositories(Some("llm"), Some("acme"), Some(RepoType::Dataset), 30)
        .unwrap();
    assert_eq!(request.url.text, "http://127.0.0.1:8080/api/quicksearch");
    assert_eq!(
        query(&request),
        [("q", "llm"), ("limit", "30"), ("type", "dataset"), ("namespace", "acme")]
    );
    assert_eq!(request.context, "Hub search failed");
    let request = client().search_repositories(None, Some("acme"), None, 5).unwrap();
    assert_eq!(query(&request), [("limit", "5"), ("namespace", "acme")]);
    let request = client().search_users("a", 1).unwrap();
    assert_eq!(query(&request), [("q", "a"), ("limit", "1"), ("type", "user")]);
    let request = client().search_organizations("a", 1).unwrap();
    assert_eq!(query(&request), [("q", "a"), ("limit", "1"), ("type", "org")]);
}

#[test]
fn asks_for_the_identity_with_a_token_only() {
    let request = client().whoami().unwrap();
    assert_eq!(request.url.text, "http://127.0.0.1:8080/api/whoami-v2");
    assert!(request.query.is_empty());
    assert_eq!(
        HubClient::new(None).unwrap().whoami().unwrap_err().text(),
        "no Hugging Face token is configured"
    );
}

#[test]
fn builds_file_requests() {
    let request = client()
        .file_request(&repo(), RepoType::Dataset, "main", "a b/c.bin")
        .unwrap();
    assert_eq!(
        request.url.text,
        "http://127.0.0.1:8080/datasets/owner/repo/resolve/main/a%20b/c.bin"
    );
    assert_eq!(request.context, "could not download \"a b/c.bin\"");
    assert_eq!(request.range, None);
    let address = client().file_url(&repo(), RepoType::Model, "main", "c.bin").unwrap();
    let ranged = client()
        .file_range_request(address, "c.bin", 4, 9, Some("\"etag\""))
        .unwrap();
    assert_eq!(
        ranged.url.text,
        "http://127.0.0.1:8080/owner/repo/resolve/main/c.bin"
    );
    assert_eq!(ranged.range.as_deref(), Some("bytes=4-9"));
    assert_eq!(ranged.if_range.as_deref(), Some("\"etag\""));
    assert_eq!(
        client().file_url(&repo(), RepoType::Model, "", "f").unwrap_err().text(),
        "revision cannot be empty"
    );
    assert!(client().file_url(&repo(), RepoType::Model, "main", "../f").is_err());
    assert!(is_addressable(&repo(), "main", "f"));
}

fn entry(entry_type: &str, path: &str) -> TreeEntry {
    TreeEntry {
        entry_type: entry_type.to_owned(),
        oid: "1".to_owned(),
        size: 4,
        path: path.to_owned(),
    }
}

fn link(text: &str) -> Option<HeaderValue> {
    Some(HeaderValue::Text(text.to_owned()))
}

#[test]
fn lists_pages_until_none_is_left() {
    let client = client();
    let mut listing = client.list_tree(&repo(), RepoType::Model, "main").unwrap();
    let first = listing.next_request(&client).unwrap().unwrap();
    assert_eq!(
        first.url.text,
        "http://127.0.0.1:8080/api/models/owner/repo/tree/main?recursive=true&limit=1000"
    );
    assert_eq!(first.token.as_deref(), Some("test-token"));
    listing
        .accept_link(&link("</tree?cursor=next>; rel=\"next\""), &client)
        .unwrap();
    listing
        .accept_page(vec![entry("file", "b.bin"), entry("directory", "d")])
        .unwrap();
    let second = listing.next_request(&client).unwrap().unwrap();
    assert_eq!(second.url.text, "http://127.0.0.1:8080/tree?cursor=next");
    listing.accept_link(&None, &client).unwrap();
    listing.accept_page(vec![entry("file", "a.bin")]).unwrap();
    assert!(listing.next_request(&client).unwrap().is_none());
    let paths: Vec<String> = listing.into_entries().into_iter().map(|e| e.path).collect();
    assert_eq!(paths, ["b.bin", "d", "a.bin"]);
}

#[test]
fn listing_refuses_repeated_and_foreign_pages() {
    let client = client();
    let mut listing = client.list_tree(&repo(), RepoType::Model, "main").unwrap();
    let first = listing.next_request(&client).unwrap().unwrap();
    listing
        .accept_link(&link(&format!("<{}>; rel=\"next\"", first.url.text)), &client)
        .unwrap();
    assert_eq!(
        listing.next_request(&client).unwrap_err().text(),
        "Hub tree pagination returned a repeated cursor"
    );
    let mut listing = client.list_tree(&repo(), RepoType::Model, "main").unwrap();
    listing.next_request(&client).unwrap().unwrap();
    listing
        .accept_link(&link("<http://example.com/>; rel=\"next\""), &client)
        .unwrap();
    assert_eq!(
        listing.next_request(&client).unwrap_err().text(),
        "Hub request attempted to leave the configured origin: http://example.com/"
    );
    let unreadable = Some(HeaderValue::Unreadable("not text".to_owned()));
    assert_eq!(
        listing.accept_link(&unreadable, &client).unwrap_err().text(),
        "Hub returned a malformed pagination header: not text"
    );
    assert!(client.list_tree(&repo(), RepoType::Model, "").is_err());
}

#[test]
fn listing_refuses_unsafe_and_unknown_entries() {
    let client = client();
    let mut listing = client.list_tree(&repo(), RepoType::Model, "main").unwrap();
    assert_eq!(
        listing.accept_page(vec![entry("file", "../a")]).unwrap_err().text(),
        "unsafe repository path returned by Hub: \"../a\""
    );
    assert_eq!(
        listing
            .accept_page(vec![entry("file", "a"), entry("link", "b")])
            .unwrap_err()
            .text(),
        "Hub returned an unsupported tree entry type \"link\" for \"b\""
    );
    assert!(listing.into_entries().is_empty());
}
