//! Which answers to a request for file content are accepted.
use crate::download::tasks::{DownloadTask, DownloadTaskView};
use crate::error::{detailed_error, AppError, AppResult, ErrorView};
use crate::hub;
use crate::hub::{HeaderValue, HeaderView};
use crate::text;
use crate::text::{debug_of, decimal_text, parse_number, same_text, split_once, strip_prefix};
use crate::url;
use crate::url::status_text;
use vstd::prelude::*;

verus! {

/// The head of a successful answer to a request for file content.
#[derive(Debug)]
pub struct FileResponse {
    pub status: u16,
    pub content_length: Option<u64>,
    /// The `Content-Range` headers.
    pub content_ranges: Vec<HeaderValue>,
    /// The `ETag` headers.
    pub etags: Vec<HeaderValue>,
}

/// The value of a [`FileResponse`].
pub struct FileResponseView {
    pub status: u16,
    pub content_length: Option<u64>,
    pub content_ranges: Seq<HeaderView>,
    pub etags: Seq<HeaderView>,
}

impl View for FileResponse {
    type V = FileResponseView;

    open spec fn view(&self) -> FileResponseView {
        FileResponseView {
            status: self.status,
            content_length: self.content_length,
            content_ranges: hub::header_views(self.content_ranges@),
            etags: hub::header_views(self.etags@),
        }
    }
}

// ---------------------------------------------------------------------------
// Validators
// ---------------------------------------------------------------------------

/// A validator that can stand in an `If-Range` header: a weak one cannot.
pub open spec fn strong(etag: Option<Seq<char>>) -> Option<Seq<char>> {
    match etag {
        Some(value) => if "W/"@.is_prefix_of(value) {
            None
        } else {
            Some(value)
        },
        None => None,
    }
}

pub fn if_range_validator(etag: Option<&str>) -> (res: Option<&str>)
    ensures
        text::optional_str(res) == strong(text::optional_str(etag)),
{
    match etag {
        Some(value) => match strip_prefix(value, "W/") {
            Some(rest) => {
                proof {
                    assert("W/"@.is_prefix_of(value@));
                }
                None
            },
            None => Some(value),
        },
        None => None,
    }
}

/// The validator of a response.
pub open spec fn validator(response: FileResponseView, path: Seq<char>) -> Result<
    Option<Seq<char>>,
    Seq<char>,
> {
    if response.etags.len() == 0 {
        Ok(None)
    } else if response.etags.len() > 1 {
        Err("response for "@ + text::debug_text(path) + " returned multiple ETag headers"@)
    } else {
        match response.etags[0] {
            HeaderView::Text(value) => Ok(Some(value)),
            HeaderView::Unreadable(reason) => Err(
                "response for "@ + text::debug_text(path) + " returned invalid ETag: "@ + reason,
            ),
        }
    }
}

fn path_message(lead: &str, path: &str, tail: &str) -> (res: String)
    ensures
        res@ == lead@ + text::debug_text(path@) + tail@,
{
    let mut message = lead.to_owned();
    message.append(&debug_of(path));
    message.append(tail);
    message
}

/// The validator of a response.
pub fn response_etag(response: &FileResponse, remote_path: &str) -> (res: AppResult<
    Option<String>,
>)
    ensures
        match res {
            Ok(etag) => validator(response@, remote_path@) == Ok::<Option<Seq<char>>, Seq<char>>(
                text::optional_text(etag),
            ),
            Err(error) => validator(response@, remote_path@) matches Err(message) && error@
                == ErrorView::Message(message),
        },
{
    let count = response.etags.len();
    if count == 0 {
        return Ok(None);
    }
    if count > 1 {
        return Err(
            AppError::message(
                path_message("response for ", remote_path, " returned multiple ETag headers"),
            ),
        );
    }
    proof {
        assert(response@.etags[0] == response.etags@[0]@);
    }
    match &response.etags[0] {
        HeaderValue::Text(value) => Ok(Some(value.clone())),
        HeaderValue::Unreadable(reason) => {
            let mut message = path_message(
                "response for ",
                remote_path,
                " returned invalid ETag: ",
            );
            message.append(reason);
            Err(AppError::message(message))
        },
    }
}

// ---------------------------------------------------------------------------
// Content-Range
// ---------------------------------------------------------------------------

/// One number of a `Content-Range` header.
pub open spec fn range_number(name: Seq<char>, digits: Seq<char>) -> Result<nat, Seq<char>> {
    match text::number(digits, u64::MAX as nat) {
        Ok(number) => Ok(number),
        Err(error) => Err("invalid Content-Range "@ + name + ": "@ + error.wording()),
    }
}

/// The first byte, the last byte and the size of the file in a `Content-Range`
/// header, or why it is refused.
pub open spec fn content_range(value: Seq<char>) -> Result<(nat, nat, nat), Seq<char>> {
    if !"bytes "@.is_prefix_of(value) {
        Err("invalid Content-Range "@ + text::debug_text(value))
    } else {
        let rest = value.skip(6);
        match text::divided(rest, '/') {
            None => Err("invalid Content-Range "@ + text::debug_text(rest)),
            Some((range, size)) => match text::divided(range, '-') {
                None => Err("invalid Content-Range "@ + text::debug_text(rest)),
                Some((start, end)) => match (
                    range_number("start"@, start),
                    range_number("end"@, end),
                    range_number("size"@, size),
                ) {
                    (Err(message), _, _) => Err(message),
                    (_, Err(message), _) => Err(message),
                    (_, _, Err(message)) => Err(message),
                    (Ok(start), Ok(end), Ok(size)) => if start > end || end >= size {
                        Err(
                            "invalid Content-Range bounds: bytes "@ + text::decimal(start) + "-"@
                                + text::decimal(end) + "/"@ + text::decimal(size),
                        )
                    } else {
                        Ok((start, end, size))
                    },
                },
            },
        }
    }
}

fn parse_range_number(name: &str, digits: &str) -> (res: AppResult<u64>)
    ensures
        match res {
            Ok(number) => range_number(name@, digits@) == Ok::<nat, Seq<char>>(number as nat),
            Err(error) => range_number(name@, digits@) matches Err(message) && error@
                == ErrorView::Message(message),
        },
{
    match parse_number(digits, u64::MAX) {
        Ok(number) => Ok(number),
        Err(error) => {
            let mut message = "invalid Content-Range ".to_owned();
            message.append(name);
            message.append(": ");
            message.append(error.describe());
            Err(AppError::message(message))
        },
    }
}

fn append_range(message: &mut String, start: u64, end: u64, size: u64)
    ensures
        final(message)@ == old(message)@ + text::decimal(start as nat) + "-"@ + text::decimal(
            end as nat,
        ) + "/"@ + text::decimal(size as nat),
{
    message.append(&decimal_text(start));
    message.append("-");
    message.append(&decimal_text(end));
    message.append("/");
    message.append(&decimal_text(size));
}

/// Reads the value of a `Content-Range` header.
pub fn parse_content_range(value: &str) -> (res: AppResult<(u64, u64, u64)>)
    ensures
        match res {
            Ok((start, end, size)) => content_range(value@) == Ok::<(nat, nat, nat), Seq<char>>(
                (start as nat, end as nat, size as nat),
            ),
            Err(error) => content_range(value@) matches Err(message) && error@
                == ErrorView::Message(message),
        },
{
    proof {
        reveal_strlit("bytes ");
    }
    let rest = match strip_prefix(value, "bytes ") {
        Some(rest) => rest,
        None => {
            return Err(detailed_error("invalid Content-Range ", &debug_of(value)));
        },
    };
    proof {
        assert("bytes "@.is_prefix_of(value@));
        assert(rest@ =~= value@.skip(6));
    }
    let (range, size) = match split_once(&rest, '/') {
        Some(parts) => parts,
        None => {
            return Err(detailed_error("invalid Content-Range ", &debug_of(&rest)));
        },
    };
    let (start, end) = match split_once(&range, '-') {
        Some(parts) => parts,
        None => {
            return Err(detailed_error("invalid Content-Range ", &debug_of(&rest)));
        },
    };
    let start = parse_range_number("start", &start)?;
    let end = parse_range_number("end", &end)?;
    let size = parse_range_number("size", &size)?;
    if start > end || end >= size {
        let mut message = "invalid Content-Range bounds: bytes ".to_owned();
        append_range(&mut message, start, end, size);
        return Err(AppError::message(message));
    }
    Ok((start, end, size))
}

// ---------------------------------------------------------------------------
// Answers
// ---------------------------------------------------------------------------

/// The bytes that are expected of a partial answer.
pub struct ExpectedRange {
    pub start: u64,
    pub end: u64,
    pub size: u64,
}

/// The one `Content-Range` header of a partial answer.
pub open spec fn only_content_range(response: FileResponseView, path: Seq<char>) -> Result<
    Seq<char>,
    Seq<char>,
> {
    let lead = "range response for "@ + text::debug_text(path);
    if response.content_ranges.len() == 0 {
        Err(lead + " omitted Content-Range"@)
    } else if response.content_ranges.len() > 1 {
        Err(lead + " returned multiple Content-Range headers"@)
    } else {
        match response.content_ranges[0] {
            HeaderView::Text(value) => Ok(value),
            HeaderView::Unreadable(reason) => Err(
                lead + " returned invalid Content-Range: "@ + reason,
            ),
        }
    }
}

/// The validator of a partial answer that holds exactly the expected bytes of the
/// expected file, or why the answer is refused.
pub open spec fn accepted_range(
    response: FileResponseView,
    expected: ExpectedRange,
    etag: Option<Seq<char>>,
    path: Seq<char>,
) -> Result<Option<Seq<char>>, Seq<char>> {
    let lead = "range response for "@ + text::debug_text(path);
    match only_content_range(response, path) {
        Err(message) => Err(message),
        Ok(value) => match content_range(value) {
            Err(message) => Err(message),
            Ok((start, end, size)) => {
                let length = expected.end - expected.start + 1;
                if start != expected.start || end != expected.end || size != expected.size {
                    Err(
                        lead + " returned "@ + text::debug_text(value) + "; expected bytes "@
                            + text::decimal(expected.start as nat) + "-"@ + text::decimal(
                            expected.end as nat,
                        ) + "/"@ + text::decimal(expected.size as nat),
                    )
                } else if response.content_length is Some && response.content_length->0
                    != length {
                    Err(
                        lead + " has length "@ + text::decimal(
                            response.content_length->0 as nat,
                        ) + "; expected "@ + text::decimal(length as nat),
                    )
                } else {
                    match validator(response, path) {
                        Err(message) => Err(message),
                        Ok(received) => if etag is Some && received is Some && etag
                            != received {
                            Err(
                                "download validator changed while receiving "@
                                    + text::debug_text(path),
                            )
                        } else {
                            Ok(received)
                        },
                    }
                }
            },
        },
    }
}

fn content_range_of(response: &FileResponse, remote_path: &str) -> (res: AppResult<String>)
    ensures
        match res {
            Ok(value) => only_content_range(response@, remote_path@) == Ok::<
                Seq<char>,
                Seq<char>,
            >(value@),
            Err(error) => only_content_range(response@, remote_path@) matches Err(message)
                && error@ == ErrorView::Message(message),
        },
{
    let count = response.content_ranges.len();
    if count == 0 {
        return Err(
            AppError::message(
                path_message("range response for ", remote_path, " omitted Content-Range"),
            ),
        );
    }
    if count > 1 {
        return Err(
            AppError::message(
                path_message(
                    "range response for ",
                    remote_path,
                    " returned multiple Content-Range headers",
                ),
            ),
        );
    }
    proof {
        assert(response@.content_ranges[0] == response.content_ranges@[0]@);
    }
    match &response.content_ranges[0] {
        HeaderValue::Text(value) => Ok(value.clone()),
        HeaderValue::Unreadable(reason) => {
            let mut message = path_message(
                "range response for ",
                remote_path,
                " returned invalid Content-Range: ",
            );
            message.append(reason);
            Err(AppError::message(message))
        },
    }
}

/// Accepts a partial answer that holds exactly the expected bytes, and gives its
/// validator.
pub fn validate_range_response(
    response: &FileResponse,
    expected: &ExpectedRange,
    expected_etag: Option<&str>,
    remote_path: &str,
) -> (res: AppResult<Option<String>>)
    ensures
        match res {
            Ok(etag) => accepted_range(
                response@,
                *expected,
                text::optional_str(expected_etag),
                remote_path@,
            ) == Ok::<Option<Seq<char>>, Seq<char>>(text::optional_text(etag)),
            Err(error) => accepted_range(
                response@,
                *expected,
                text::optional_str(expected_etag),
                remote_path@,
            ) matches Err(message) && error@ == ErrorView::Message(message),
        },
{
    let value = content_range_of(response, remote_path)?;
    let (start, end, size) = parse_content_range(&value)?;
    if start != expected.start || end != expected.end || size != expected.size {
        let mut message = path_message("range response for ", remote_path, " returned ");
        message.append(&debug_of(&value));
        message.append("; expected bytes ");
        append_range(&mut message, expected.start, expected.end, expected.size);
        return Err(AppError::message(message));
    }
    proof {
        assert(start <= end < size);
    }
    let expected_length = end - start + 1;
    if let Some(length) = response.content_length {
        if length != expected_length {
            let mut message = path_message("range response for ", remote_path, " has length ");
            message.append(&decimal_text(length));
            message.append("; expected ");
            message.append(&decimal_text(expected_length));
            return Err(AppError::message(message));
        }
    }
    let etag = response_etag(response, remote_path)?;
    if let (Some(expected), Some(received)) = (expected_etag, &etag) {
        if !same_text(expected, received) {
            return Err(
                detailed_error(
                    "download validator changed while receiving ",
                    &debug_of(remote_path),
                ),
            );
        }
    }
    Ok(etag)
}

/// What the answer to a request for a range is.
#[derive(Debug)]
pub enum RangeAnswer {
    /// The requested bytes, with their validator.
    Partial(Option<String>),
    /// The whole file: the server does not answer in ranges.
    Whole,
}

/// The value of a [`RangeAnswer`].
pub enum RangeAnswerView {
    Partial(Option<Seq<char>>),
    Whole,
}

impl View for RangeAnswer {
    type V = RangeAnswerView;

    open spec fn view(&self) -> RangeAnswerView {
        match self {
            RangeAnswer::Partial(etag) => RangeAnswerView::Partial(text::optional_text(*etag)),
            RangeAnswer::Whole => RangeAnswerView::Whole,
        }
    }
}

/// What the answer to a request for a range is, or why it is refused.
pub open spec fn range_answer(
    response: FileResponseView,
    expected: ExpectedRange,
    etag: Option<Seq<char>>,
    path: Seq<char>,
) -> Result<RangeAnswerView, Seq<char>> {
    if response.status == 206 {
        match accepted_range(response, expected, etag, path) {
            Ok(received) => Ok(RangeAnswerView::Partial(received)),
            Err(message) => Err(message),
        }
    } else if response.status == 200 {
        Ok(RangeAnswerView::Whole)
    } else {
        Err(
            "range request for "@ + text::debug_text(path)
                + " returned unexpected successful status "@ + url::status_line(response.status),
        )
    }
}

/// Accepts the answer to a request for a range.
pub fn accept_range_response(
    response: &FileResponse,
    expected: &ExpectedRange,
    expected_etag: Option<&str>,
    remote_path: &str,
) -> (res: AppResult<RangeAnswer>)
    requires
        100 <= response.status <= 999,
    ensures
        match res {
            Ok(answer) => range_answer(
                response@,
                *expected,
                text::optional_str(expected_etag),
                remote_path@,
            ) == Ok::<RangeAnswerView, Seq<char>>(answer@),
            Err(error) => range_answer(
                response@,
                *expected,
                text::optional_str(expected_etag),
                remote_path@,
            ) matches Err(message) && error@ == ErrorView::Message(message),
        },
{
    match response.status {
        206 => match validate_range_response(response, expected, expected_etag, remote_path) {
            Ok(etag) => Ok(RangeAnswer::Partial(etag)),
            Err(error) => Err(error),
        },
        200 => Ok(RangeAnswer::Whole),
        _ => {
            let mut message = path_message(
                "range request for ",
                remote_path,
                " returned unexpected successful status ",
            );
            message.append(&status_text(response.status));
            Err(AppError::message(message))
        },
    }
}

/// The validator of the answer to a request for a whole file, or why the answer is
/// refused.
pub open spec fn full_answer(response: FileResponseView, task: DownloadTaskView) -> Result<
    Option<Seq<char>>,
    Seq<char>,
> {
    if response.status != 200 {
        Err(
            "full request for "@ + text::debug_text(task.remote_path)
                + " returned unexpected successful status "@ + url::status_line(response.status),
        )
    } else if response.content_length is Some && response.content_length->0
        != task.expected_length {
        Err(
            "downloaded file "@ + text::debug_text(task.remote_path)
                + " has unexpected response length: expected "@ + text::decimal(
                task.expected_length as nat,
            ) + ", received "@ + text::decimal(response.content_length->0 as nat),
        )
    } else {
        validator(response, task.remote_path)
    }
}

/// Accepts the answer to a request for a whole file, and gives its validator.
pub fn accept_full_response(response: &FileResponse, task: &DownloadTask) -> (res: AppResult<
    Option<String>,
>)
    requires
        100 <= response.status <= 999,
    ensures
        match res {
            Ok(etag) => full_answer(response@, task@) == Ok::<Option<Seq<char>>, Seq<char>>(
                text::optional_text(etag),
            ),
            Err(error) => full_answer(response@, task@) matches Err(message) && error@
                == ErrorView::Message(message),
        },
{
    if response.status != 200 {
        let mut message = path_message(
            "full request for ",
            &task.remote_path,
            " returned unexpected successful status ",
        );
        message.append(&status_text(response.status));
        return Err(AppError::message(message));
    }
    if let Some(length) = response.content_length {
        if length != task.expected_length {
            let mut message = path_message(
                "downloaded file ",
                &task.remote_path,
                " has unexpected response length: expected ",
            );
            message.append(&decimal_text(task.expected_length));
            message.append(", received ");
            message.append(&decimal_text(length));
            return Err(AppError::message(message));
        }
    }
    response_etag(response, &task.remote_path)
}

/// An accepted partial answer announces exactly the requested bytes of a file of the
/// expected size, and no other length.
pub proof fn lemma_accepted_ranges_are_the_requested_ones(
    response: FileResponseView,
    expected: ExpectedRange,
    etag: Option<Seq<char>>,
    path: Seq<char>,
)
    requires
        range_answer(response, expected, etag, path) matches Ok(RangeAnswerView::Partial(_)),
    ensures
        response.status == 206,
        response.content_ranges.len() == 1,
        response.content_ranges[0] matches HeaderView::Text(value) && content_range(value)
            == Ok::<(nat, nat, nat), Seq<char>>(
            (expected.start as nat, expected.end as nat, expected.size as nat),
        ),
        expected.start <= expected.end < expected.size,
        response.content_length is Some ==> response.content_length->0 == expected.end
            - expected.start + 1,
{
}

/// A validator that says of itself that it is weak is not sent back; any other one is sent as
/// it is.
pub proof fn lemma_only_weak_validators_are_held_back(value: Seq<char>)
    ensures
        strong(None) is None,
        value.len() >= 2 && value[0] == 'W' && value[1] == '/' ==> strong(Some(value)) is None,
        !(value.len() >= 2 && value[0] == 'W' && value[1] == '/') ==> strong(Some(value)) == Some(
            value,
        ),
{
    reveal_strlit("W/");
    if value.len() >= 2 && value[0] == 'W' && value[1] == '/' {
        assert(value.subrange(0, 2) =~= "W/"@);
    }
    if "W/"@.is_prefix_of(value) {
        assert(value.subrange(0, 2)[0] == 'W');
        assert(value.subrange(0, 2)[1] == '/');
    }
}

/// The validator of a response is that of its only header; several headers are refused, and
/// so is one that is no text.
pub proof fn lemma_validator_stands_in_the_only_header(response: FileResponseView, path: Seq<char>)
    ensures
        response.etags.len() == 0 ==> validator(response, path) == Ok::<
            Option<Seq<char>>,
            Seq<char>,
        >(None),
        response.etags.len() == 1 ==> validator(response, path) == (match response.etags[0] {
            HeaderView::Text(value) => Ok::<Option<Seq<char>>, Seq<char>>(Some(value)),
            HeaderView::Unreadable(reason) => Err::<Option<Seq<char>>, Seq<char>>(
                "response for "@ + text::debug_text(path) + " returned invalid ETag: "@ + reason,
            ),
        }),
        response.etags.len() > 1 ==> validator(response, path) == Err::<
            Option<Seq<char>>,
            Seq<char>,
        >("response for "@ + text::debug_text(path) + " returned multiple ETag headers"@),
{
}

/// A `Content-Range` header is read as it is written: the first byte, the last byte and the
/// size, if the first is not behind the last and the last lies inside the file.
pub proof fn lemma_content_range_is_read_as_written(start: nat, end: nat, size: nat)
    requires
        start <= u64::MAX,
        end <= u64::MAX,
        size <= u64::MAX,
    ensures
        ({
            let value = "bytes "@ + text::decimal(start) + seq!['-'] + text::decimal(end)
                + seq!['/'] + text::decimal(size);
            &&& start <= end < size ==> content_range(value) == Ok::<(nat, nat, nat), Seq<char>>(
                (start, end, size),
            )
            &&& !(start <= end < size) ==> content_range(value) == Err::<
                (nat, nat, nat),
                Seq<char>,
            >("invalid Content-Range bounds: "@ + value)
        }),
{
    reveal_strlit("bytes ");
    reveal_strlit("-");
    reveal_strlit("/");
    reveal_strlit("invalid Content-Range bounds: bytes ");
    reveal_strlit("invalid Content-Range bounds: ");
    assert("-"@ =~= seq!['-']);
    assert("/"@ =~= seq!['/']);
    assert("invalid Content-Range bounds: bytes "@ =~= "invalid Content-Range bounds: "@
        + "bytes "@);
    let a = text::decimal(start);
    let b = text::decimal(end);
    let c = text::decimal(size);
    let range = a + seq!['-'] + b;
    let rest = range + seq!['/'] + c;
    let value = "bytes "@ + a + seq!['-'] + b + seq!['/'] + c;
    assert(value =~= "bytes "@ + rest);
    assert(value.subrange(0, 6) =~= "bytes "@);
    assert(value.skip(6) =~= rest);
    text::lemma_decimal_is_positional(start);
    text::lemma_decimal_is_positional(end);
    text::lemma_number_is_read_as_written(start, u64::MAX as nat);
    text::lemma_number_is_read_as_written(end, u64::MAX as nat);
    text::lemma_number_is_read_as_written(size, u64::MAX as nat);
    assert(!range.contains('/')) by {
        if range.contains('/') {
            let k = choose|k: int| 0 <= k < range.len() && range[k] == '/';
            if k < a.len() {
                assert(range[k] == a[k]);
            } else if k > a.len() {
                assert(range[k] == b[k - a.len() - 1]);
            }
        }
    }
    assert(!a.contains('-')) by {
        if a.contains('-') {
            let k = choose|k: int| 0 <= k < a.len() && a[k] == '-';
            assert('0' <= a[k] <= '9');
        }
    }
    text::lemma_division_is_unique(rest, '/', range, c);
    text::lemma_division_is_unique(range, '-', a, b);
    if !(start <= end < size) {
        assert("invalid Content-Range bounds: bytes "@ + a + "-"@ + b + "/"@ + c
            =~= "invalid Content-Range bounds: "@ + value);
    }
}

/// A `Content-Range` header that is accepted writes three numbers, of which the first is not
/// larger than the second, nor the second as large as the third.
pub proof fn lemma_accepted_content_ranges_are_three_numbers(value: Seq<char>)
    ensures
        content_range(value) matches Ok((start, end, size)) ==> {
            &&& start <= end < size
            &&& exists|a: Seq<char>, b: Seq<char>, c: Seq<char>|
                {
                    &&& value == #[trigger] ("bytes "@ + a + seq!['-'] + b + seq!['/'] + c)
                    &&& text::number(a, u64::MAX as nat) == Ok::<nat, text::NumberError>(start)
                    &&& text::number(b, u64::MAX as nat) == Ok::<nat, text::NumberError>(end)
                    &&& text::number(c, u64::MAX as nat) == Ok::<nat, text::NumberError>(size)
                }
        },
{
    reveal_strlit("bytes ");
    if content_range(value) is Ok {
        let rest = value.skip(6);
        assert(value.subrange(0, 6) == "bytes "@);
        text::lemma_divided(rest, '/');
        let (range, c) = text::divided(rest, '/')->0;
        text::lemma_divided(range, '-');
        let (a, b) = text::divided(range, '-')->0;
        assert(value =~= value.subrange(0, 6) + rest);
        assert(value =~= "bytes "@ + a + seq!['-'] + b + seq!['/'] + c);
    }
}

/// An answer to the request for a range is accepted whenever it is right: status 206, one
/// `Content-Range` with the requested first and last byte and the size of the file, no other
/// length than the range has, at most one validator, and none that differs from a known one.
/// A validator that was not known before is no fault, nor is one that is not repeated. What
/// is accepted is the validator that came.
pub proof fn lemma_right_partial_answers_are_accepted(
    response: FileResponseView,
    expected: ExpectedRange,
    known: Option<Seq<char>>,
    received: Option<Seq<char>>,
    path: Seq<char>,
)
    requires
        response.status == 206,
        response.content_ranges == seq![
            HeaderView::Text(
                "bytes "@ + text::decimal(expected.start as nat) + seq!['-'] + text::decimal(
                    expected.end as nat,
                ) + seq!['/'] + text::decimal(expected.size as nat),
            ),
        ],
        expected.start <= expected.end < expected.size,
        response.content_length is None || response.content_length == Some(
            (expected.end - expected.start + 1) as u64,
        ),
        response.etags == (match received {
            Some(value) => seq![HeaderView::Text(value)],
            None => Seq::empty(),
        }),
    ensures
        known is None || received is None || known == received ==> range_answer(
            response,
            expected,
            known,
            path,
        ) == Ok::<RangeAnswerView, Seq<char>>(RangeAnswerView::Partial(received)),
        known is Some && received is Some && known != received ==> range_answer(
            response,
            expected,
            known,
            path,
        ) == Err::<RangeAnswerView, Seq<char>>(
            "download validator changed while receiving "@ + text::debug_text(path),
        ),
{
    lemma_content_range_is_read_as_written(
        expected.start as nat,
        expected.end as nat,
        expected.size as nat,
    );
    lemma_validator_stands_in_the_only_header(response, path);
}

/// Nothing else is taken for the requested bytes: whatever is accepted as a part has status
/// 206, exactly one `Content-Range` with the requested bytes, no other length, and at most
/// one validator, which is given back and does not differ from a known one.
pub proof fn lemma_only_right_partial_answers_are_accepted(
    response: FileResponseView,
    expected: ExpectedRange,
    known: Option<Seq<char>>,
    received: Option<Seq<char>>,
    path: Seq<char>,
)
    requires
        range_answer(response, expected, known, path) == Ok::<RangeAnswerView, Seq<char>>(
            RangeAnswerView::Partial(received),
        ),
    ensures
        response.status == 206,
        response.content_ranges.len() == 1,
        response.content_ranges[0] matches HeaderView::Text(value) && content_range(value) == Ok::<
            (nat, nat, nat),
            Seq<char>,
        >((expected.start as nat, expected.end as nat, expected.size as nat)),
        response.content_length matches Some(length) ==> length == expected.end - expected.start
            + 1,
        received is None ==> response.etags.len() == 0,
        received matches Some(value) ==> response.etags.len() == 1 && response.etags[0]
            == HeaderView::Text(value),
        known is None || received is None || known == received,
{
}

/// The status decides: 200 is the whole file, whatever else the answer says, and no other
/// status but 206 is a part of it.
pub proof fn lemma_status_decides_between_whole_and_part(
    response: FileResponseView,
    expected: ExpectedRange,
    known: Option<Seq<char>>,
    path: Seq<char>,
)
    ensures
        response.status == 200 <==> range_answer(response, expected, known, path) == Ok::<
            RangeAnswerView,
            Seq<char>,
        >(RangeAnswerView::Whole),
        response.status != 200 && response.status != 206 ==> range_answer(
            response,
            expected,
            known,
            path,
        ) == Err::<RangeAnswerView, Seq<char>>(
            "range request for "@ + text::debug_text(path)
                + " returned unexpected successful status "@ + url::status_line(response.status),
        ),
{
}

/// The answer to a request for a whole file is accepted exactly if its status is 200, it
/// announces no other length than the file has, and it has at most one validator, which is
/// what is given back.
pub proof fn lemma_whole_answers_have_the_length_of_the_file(
    response: FileResponseView,
    task: DownloadTaskView,
    received: Option<Seq<char>>,
)
    ensures
        full_answer(response, task) == Ok::<Option<Seq<char>>, Seq<char>>(received) <==> {
            &&& response.status == 200
            &&& response.content_length is None || response.content_length == Some(
                task.expected_length,
            )
            &&& match received {
                None => response.etags.len() == 0,
                Some(value) => response.etags.len() == 1 && response.etags[0] == HeaderView::Text(
                    value,
                ),
            }
        },
{
}

} // verus!
