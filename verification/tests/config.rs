use std::path::PathBuf;

use xhf::config::{
    accept_removal, accept_token_file, cleanup_after_error, next_attempt, normalize_token,
    temporary_name, token_file_contents, ConfigDirectory, Credentials, EnvironmentSnapshot,
    LocalPath, TokenLookup, TokenSource,
};
use xhf::error::{AppError, IoFailure, IoKind};

fn directory(path: &str) -> Option<ConfigDirectory> {
    Some(ConfigDirectory {
        path: path.as_bytes().to_vec(),
        absolute: path.starts_with('/'),
    })
}

fn home(path: &str) -> Option<Vec<u8>> {
    Some(path.as_bytes().to_vec())
}

fn joined(path: &LocalPath) -> PathBuf {
    let text = |bytes: &Vec<u8>| String::from_utf8(bytes.clone()).unwrap();
    let mut whole = PathBuf::from(text(&path.base));
    for part in &path.parts {
        whole.push(text(part));
    }
    whole
}

fn token(value: &str) -> Option<Vec<u8>> {
    Some(value.as_bytes().to_vec())
}

fn failure(kind: IoKind) -> IoFailure {
    IoFailure { kind, text: "denied".to_owned() }
}

#[test]
fn xdg_path_precedes_home() {
    let environment =
        EnvironmentSnapshot::new(directory("/tmp/xdg"), home("/tmp/home"), None);
    let credentials = Credentials::from_environment(&environment);
    assert_eq!(
        joined(credentials.token_path().unwrap()),
        PathBuf::from("/tmp/xdg/xhf/token")
    );
}

#[test]
fn environment_token_precedes_file() {
    let environment = EnvironmentSnapshot::new(None, home("/tmp/home"), token("from-env"));
    let credentials = Credentials::from_environment(&environment);
    match credentials.load().unwrap() {
        TokenLookup::Found(token, source) => {
            assert_eq!(token, "from-env");
            assert_eq!(source, TokenSource::Environment);
        }
        other => panic!("expected the environment token, found {other:?}"),
    }
}

#[test]
fn empty_environment_token_is_ignored() {
    let environment = EnvironmentSnapshot::new(None, None, token(""));
    let credentials = Credentials::from_environment(&environment);
    assert!(matches!(credentials.load().unwrap(), TokenLookup::Absent));
    assert!(!credentials.environment_token_is_set());
}

#[test]
fn stores_and_removes_token() {
    let environment = EnvironmentSnapshot::new(directory("/tmp/root"), None, None);
    let credentials = Credentials::from_environment(&environment);
    assert_eq!(
        joined(&credentials.store().unwrap()),
        PathBuf::from("/tmp/root/xhf/token")
    );
    match credentials.load().unwrap() {
        TokenLookup::File(path) => {
            assert_eq!(joined(&path), PathBuf::from("/tmp/root/xhf/token"))
        }
        other => panic!("expected the token file, found {other:?}"),
    }
    assert_eq!(
        accept_token_file(Ok(token_file_contents("secret")), "token").unwrap(),
        Some(("secret".to_owned(), TokenSource::File))
    );
    assert!(accept_removal(Ok(()), "token").unwrap());
    assert_eq!(
        accept_token_file(Err(failure(IoKind::NotFound)), "token").unwrap(),
        None
    );
    assert!(!accept_removal(Err(failure(IoKind::NotFound)), "token").unwrap());
}

#[test]
fn token_files_hold_one_line() {
    assert_eq!(token_file_contents("secret"), "secret\n");
    assert_eq!(
        accept_token_file(Ok(token_file_contents(" secret ")), "token").unwrap(),
        Some(("secret".to_owned(), TokenSource::File))
    );
}

#[test]
fn relative_xdg_path_is_ignored() {
    let environment = EnvironmentSnapshot::new(directory("xdg"), home("/home/me/"), None);
    let credentials = Credentials::from_environment(&environment);
    assert_eq!(
        joined(credentials.token_path().unwrap()),
        PathBuf::from("/home/me/.config/xhf/token")
    );
}

#[test]
fn nothing_is_stored_without_a_directory() {
    let environment = EnvironmentSnapshot::new(None, None, None);
    let credentials = Credentials::from_environment(&environment);
    assert!(credentials.token_path().is_none());
    assert_eq!(
        credentials.store().unwrap_err().text(),
        "cannot store a token because neither XDG_CONFIG_HOME nor HOME is available"
    );
}

#[test]
fn refuses_tokens_that_are_no_text_or_empty() {
    let environment = EnvironmentSnapshot::new(None, None, Some(vec![0xff, 0xfe]));
    let credentials = Credentials::from_environment(&environment);
    assert_eq!(
        credentials.load().unwrap_err().text(),
        "HF_TOKEN is not valid UTF-8"
    );
    let environment = EnvironmentSnapshot::new(None, None, token(" \n"));
    let credentials = Credentials::from_environment(&environment);
    assert_eq!(
        credentials.load().unwrap_err().text(),
        "Hugging Face token is empty"
    );
    assert_eq!(normalize_token(" t ".to_owned()).unwrap(), "t");
}

#[test]
fn missing_token_file_is_no_token() {
    assert_eq!(
        accept_token_file(Err(failure(IoKind::NotFound)), "p").unwrap(),
        None
    );
    assert_eq!(
        accept_token_file(Err(failure(IoKind::Other)), "p").unwrap_err().text(),
        "could not read token from p: denied"
    );
    assert_eq!(
        accept_removal(Err(failure(IoKind::Other)), "p").unwrap_err().text(),
        "could not remove stored token at p: denied"
    );
}

#[test]
fn tries_other_names_while_names_are_taken() {
    assert_eq!(temporary_name("token", 42, 7), ".token-42-7.tmp");
    assert_eq!(next_attempt(0, failure(IoKind::AlreadyExists), "d").unwrap(), 1);
    assert_eq!(
        next_attempt(99, failure(IoKind::AlreadyExists), "d").unwrap_err().text(),
        "could not allocate a temporary credential file in d"
    );
    assert_eq!(
        next_attempt(0, failure(IoKind::Other), "d").unwrap_err().text(),
        "could not create temporary credential file in d: denied"
    );
}

#[test]
fn reports_what_could_not_be_cleaned_up() {
    let original = || AppError::message("failed".to_owned());
    assert_eq!(cleanup_after_error(original(), Ok(()), "x").text(), "failed");
    assert_eq!(
        cleanup_after_error(original(), Err(failure(IoKind::NotFound)), "x").text(),
        "failed"
    );
    assert_eq!(
        cleanup_after_error(original(), Err(failure(IoKind::Other)), "temporary file x").text(),
        "failed; additionally could not remove temporary file x: denied"
    );
}
