use xhf::cli::{parse_jobs, parse_limit, RepoSpec, RepoType};

#[test]
fn parses_download_jobs_and_rejects_zero() {
    assert_eq!(parse_jobs("7"), Ok(7));

    let result = parse_jobs("0");
    assert!(result.is_err());
    assert_eq!(result, Err("jobs must be greater than zero".to_owned()));
}

#[test]
fn rejects_zero_limit() {
    let result = parse_limit("0");
    assert!(result.is_err());
    assert_eq!(result, Err("limit must be greater than zero".to_owned()));
}

#[test]
fn explains_malformed_numbers() {
    assert_eq!(parse_limit("30"), Ok(30));
    assert_eq!(
        parse_limit("many"),
        Err("invalid limit: invalid digit found in string".to_owned())
    );
    assert_eq!(
        parse_jobs(""),
        Err("invalid jobs: cannot parse integer from empty string".to_owned())
    );
    assert_eq!(
        parse_jobs("99999999999999999999"),
        Err("invalid jobs: number too large to fit in target type".to_owned())
    );
}

#[test]
fn reads_repositories_back_as_written() {
    let repo: RepoSpec = "owner/repo".parse().unwrap();
    assert_eq!(repo.owner(), "owner");
    assert_eq!(repo.name(), "repo");
    assert_eq!(repo.text(), "owner/repo");
}

#[test]
fn refuses_malformed_repositories() {
    assert_eq!(
        RepoSpec::parse("owner").err(),
        Some("repository must be written as OWNER/NAME".to_owned())
    );
    for value in ["/repo", "owner/", "a/b/c", "/", "a//b"] {
        assert_eq!(
            RepoSpec::parse(value).err(),
            Some("repository must contain exactly one non-empty OWNER/NAME pair".to_owned())
        );
    }
}

#[test]
fn names_repository_types() {
    assert_eq!(RepoType::default(), RepoType::Model);
    assert_eq!(RepoType::Model.singular(), "model");
    assert_eq!(RepoType::Dataset.plural(), "datasets");
    assert_eq!(RepoType::Model.url_prefix(), None);
    assert_eq!(RepoType::Space.url_prefix(), Some("spaces"));
}
