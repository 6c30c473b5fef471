use xhf::app::{
    login_prompt, login_report, logout_report, select_tree, status_report, validate_owner,
    write_name_record, write_organizations, write_repositories, write_tree, write_users,
};
use xhf::cli::RepoType;
use xhf::config::TokenSource;
use xhf::hub::{
    Identity, IdentityOrganization, OrganizationRecord, RepositoryRecord, TreeEntry, UserRecord,
    TOKEN_SETTINGS_URL,
};
use xhf::patterns::PatternSet;

fn entry(entry_type: &str, size: u64, path: &str) -> TreeEntry {
    TreeEntry {
        entry_type: entry_type.to_owned(),
        oid: "oid".to_owned(),
        size,
        path: path.to_owned(),
    }
}

#[test]
fn login_prompt_links_to_token_settings() {
    assert_eq!(
        login_prompt(),
        format!("Create a token: {TOKEN_SETTINGS_URL}\nHugging Face token: ")
    );
}

#[test]
fn name_records_omit_empty_display_names() {
    let mut output = String::new();
    write_name_record(&mut output, "owner", Some(""));
    assert_eq!(output, "owner\n");
}

#[test]
fn prints_search_results() {
    let users = vec![
        UserRecord { id: "alice".to_owned(), name: Some("Alice\n".to_owned()) },
        UserRecord { id: "bob".to_owned(), name: None },
    ];
    assert_eq!(write_users(&users), "alice\tAlice\\n\nbob\n");
    let organizations =
        vec![OrganizationRecord { id: "acme".to_owned(), name: Some("Acme".to_owned()) }];
    assert_eq!(write_organizations(&organizations), "acme\tAcme\n");
    let repositories = vec![
        RepositoryRecord { repo_type: RepoType::Model, id: "a/m".to_owned(), private: false },
        RepositoryRecord { repo_type: RepoType::Space, id: "a/s".to_owned(), private: true },
    ];
    assert_eq!(
        write_repositories(&repositories),
        "model\ta/m\tpublic\nspace\ta/s\tprivate\n"
    );
}

#[test]
fn prints_selected_tree_entries() {
    let entries = vec![
        entry("directory", 0, "weights"),
        entry("file", 7, "weights/a.bin"),
        entry("file", 3, "README.md"),
    ];
    let everything = PatternSet::compile(&Vec::new()).unwrap();
    let all = select_tree(&entries, &everything, false).unwrap();
    assert_eq!(
        write_tree(&all),
        "dir\tweights\nfile\t7\tweights/a.bin\nfile\t3\tREADME.md\n"
    );
    let some = PatternSet::compile(&vec!["*.md".to_owned()]).unwrap();
    assert_eq!(
        write_tree(&select_tree(&entries, &some, true).unwrap()),
        "file\t3\tREADME.md\n"
    );
    let none = PatternSet::compile(&vec!["missing".to_owned()]).unwrap();
    assert_eq!(
        select_tree(&entries, &none, true).unwrap_err().text(),
        "tree patterns matched no entries"
    );
    assert!(select_tree(&Vec::new(), &everything, false).unwrap().is_empty());
}

#[test]
fn accepts_single_namespaces_only() {
    assert!(validate_owner("owner").is_ok());
    for owner in ["", "a/b"] {
        assert_eq!(
            validate_owner(owner).unwrap_err().text(),
            "owner must be a single non-empty Hub namespace"
        );
    }
}

#[test]
fn reports_authentication() {
    assert_eq!(login_report("alice", false), "Logged in as alice\n");
    assert_eq!(
        login_report("alice", true),
        "Logged in as alice\nHF_TOKEN remains active and overrides the stored token.\n"
    );
    let organization = |name: &str| IdentityOrganization { name: name.to_owned() };
    let alone = Identity { name: "alice".to_owned(), orgs: Vec::new() };
    assert_eq!(
        status_report(&alone, TokenSource::File),
        "alice\ntoken: XDG token file\n"
    );
    let member = Identity {
        name: "alice".to_owned(),
        orgs: vec![organization("acme"), organization("b\tc")],
    };
    assert_eq!(
        status_report(&member, TokenSource::Environment),
        "alice\ntoken: HF_TOKEN\norgs: acme, b\\tc\n"
    );
    assert_eq!(
        logout_report(true, true),
        "Stored token removed; HF_TOKEN remains active.\n"
    );
    assert_eq!(logout_report(true, false), "Stored token removed.\n");
    assert_eq!(
        logout_report(false, true),
        "No stored token; HF_TOKEN remains active.\n"
    );
    assert_eq!(logout_report(false, false), "No stored token.\n");
}
