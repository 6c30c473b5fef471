use xhf::error::{merge_results, record_error, AppError, IoFailure, IoKind};

fn message(text: &str) -> AppError {
    AppError::message(text.to_owned())
}

fn failure(kind: IoKind) -> IoFailure {
    IoFailure { kind, text: "broken".to_owned() }
}

#[test]
fn prints_context_before_cause() {
    assert_eq!(message("plain").text(), "plain");
    assert_eq!(
        AppError::io("could not write".to_owned(), failure(IoKind::Other)).text(),
        "could not write: broken"
    );
    assert_eq!(
        AppError::http("search".to_owned(), "timeout".to_owned()).text(),
        "search: timeout"
    );
    assert_eq!(
        AppError::json("decode".to_owned(), "eof".to_owned()).text(),
        "decode: eof"
    );
}

#[test]
fn recognizes_closed_pipes() {
    assert!(AppError::io(String::new(), failure(IoKind::BrokenPipe)).is_broken_pipe());
    assert!(!AppError::io(String::new(), failure(IoKind::Other)).is_broken_pipe());
    assert!(!message("broken pipe").is_broken_pipe());
}

#[test]
fn joins_two_errors_and_keeps_one() {
    assert!(merge_results(Ok(()), Ok(())).is_ok());
    assert_eq!(merge_results(Err(message("a")), Ok(())).unwrap_err().text(), "a");
    assert_eq!(merge_results(Ok(()), Err(message("b"))).unwrap_err().text(), "b");
    assert_eq!(
        merge_results(Err(message("a")), Err(message("b"))).unwrap_err().text(),
        "a; additionally b"
    );
}

#[test]
fn first_error_stays() {
    let mut first = None;
    record_error(&mut first, message("one"));
    record_error(&mut first, message("two"));
    assert_eq!(first.unwrap().text(), "one");
}
