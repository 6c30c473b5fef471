//! The errors of the program.
use vstd::prelude::*;

verus! {

/// What the program distinguishes among the operating system's errors.
#[derive(Clone, Copy, Debug, PartialEq, Eq, Structural)]
pub enum IoKind {
    NotFound,
    AlreadyExists,
    BrokenPipe,
    Other,
}

/// An error of the operating system: its kind and its wording.
#[derive(Debug)]
pub struct IoFailure {
    pub kind: IoKind,
    pub text: String,
}

/// The value of an [`IoFailure`].
pub struct IoFailureView {
    pub kind: IoKind,
    pub text: Seq<char>,
}

impl View for IoFailure {
    type V = IoFailureView;

    open spec fn view(&self) -> IoFailureView {
        IoFailureView { kind: self.kind, text: self.text@ }
    }
}

/// An error of the program. An error that came from elsewhere keeps its wording.
#[derive(Debug)]
#[allow(inconsistent_fields)]
pub enum AppError {
    Message(String),
    Io { context: String, source: IoFailure },
    Http { context: String, source: String },
    Json { context: String, source: String },
}

/// The value of an [`AppError`].
#[allow(inconsistent_fields)]
pub enum ErrorView {
    Message(Seq<char>),
    Io { context: Seq<char>, source: IoFailureView },
    Http { context: Seq<char>, source: Seq<char> },
    Json { context: Seq<char>, source: Seq<char> },
}

impl View for AppError {
    type V = ErrorView;

    open spec fn view(&self) -> ErrorView {
        match self {
            AppError::Message(message) => ErrorView::Message(message@),
            AppError::Io { context, source } => ErrorView::Io {
                context: context@,
                source: source@,
            },
            AppError::Http { context, source } => ErrorView::Http {
                context: context@,
                source: source@,
            },
            AppError::Json { context, source } => ErrorView::Json {
                context: context@,
                source: source@,
            },
        }
    }
}

impl ErrorView {
    /// What is printed for the error.
    pub open spec fn wording(self) -> Seq<char> {
        match self {
            ErrorView::Message(message) => message,
            ErrorView::Io { context, source } => context + ": "@ + source.text,
            ErrorView::Http { context, source } => context + ": "@ + source,
            ErrorView::Json { context, source } => context + ": "@ + source,
        }
    }
}

/// The result of a fallible step.
pub type AppResult<T> = Result<T, AppError>;

/// The value of a result that carries nothing.
pub open spec fn outcome(result: AppResult<()>) -> Result<(), ErrorView> {
    match result {
        Ok(()) => Ok(()),
        Err(error) => Err(error@),
    }
}

/// The value of an optional error.
pub open spec fn optional_error(error: Option<AppError>) -> Option<ErrorView> {
    match error {
        Some(error) => Some(error@),
        None => None,
    }
}

/// An error that a message alone describes.
pub open spec fn says(error: AppError, message: Seq<char>) -> bool {
    error@ == ErrorView::Message(message)
}

impl AppError {
    pub fn message(message: String) -> (res: Self)
        ensures
            res@ == ErrorView::Message(message@),
    {
        AppError::Message(message)
    }

    pub fn io(context: String, source: IoFailure) -> (res: Self)
        ensures
            res@ == (ErrorView::Io { context: context@, source: source@ }),
    {
        AppError::Io { context, source }
    }

    pub fn http(context: String, source: String) -> (res: Self)
        ensures
            res@ == (ErrorView::Http { context: context@, source: source@ }),
    {
        AppError::Http { context, source }
    }

    pub fn json(context: String, source: String) -> (res: Self)
        ensures
            res@ == (ErrorView::Json { context: context@, source: source@ }),
    {
        AppError::Json { context, source }
    }

    /// Whether a closed pipe at the reading end caused the error.
    pub fn is_broken_pipe(&self) -> (res: bool)
        ensures
            res == (self@ matches ErrorView::Io { source, .. } && source.kind
                == IoKind::BrokenPipe),
    {
        match self {
            AppError::Io { source, .. } => source.kind == IoKind::BrokenPipe,
            _ => false,
        }
    }

    /// What is printed for the error.
    pub fn text(&self) -> (res: String)
        ensures
            res@ == self@.wording(),
    {
        match self {
            AppError::Message(message) => message.clone(),
            AppError::Io { context, source } => in_context(context, &source.text),
            AppError::Http { context, source } => in_context(context, source),
            AppError::Json { context, source } => in_context(context, source),
        }
    }
}

fn in_context(context: &str, source: &str) -> (res: String)
    ensures
        res@ == context@ + ": "@ + source@,
{
    let mut text = context.to_owned();
    text.append(": ");
    text.append(source);
    text
}

/// An error that is described by a fixed message.
pub(crate) fn message_error(message: &str) -> (res: AppError)
    ensures
        says(res, message@),
{
    AppError::Message(message.to_owned())
}

/// An error whose message is `lead` followed by `detail`.
pub(crate) fn detailed_error(lead: &str, detail: &str) -> (res: AppError)
    ensures
        says(res, lead@ + detail@),
{
    let mut message = lead.to_owned();
    message.append(detail);
    AppError::Message(message)
}

/// An operating system error in the context `lead` followed by `detail`.
pub(crate) fn detailed_io(lead: &str, detail: &str, source: IoFailure) -> (res: AppError)
    ensures
        res@ == (ErrorView::Io { context: lead@ + detail@, source: source@ }),
{
    let mut context = lead.to_owned();
    context.append(detail);
    AppError::Io { context, source }
}

/// Two errors of which the second came while the first was handled.
pub open spec fn joined(first: ErrorView, second: Seq<char>) -> ErrorView {
    ErrorView::Message(first.wording() + "; additionally "@ + second)
}

/// Joins an error with the wording of a later one.
pub(crate) fn join_errors(first: &AppError, second: &str) -> (res: AppError)
    ensures
        res@ == joined(first@, second@),
{
    let mut message = first.text();
    message.append("; additionally ");
    message.append(second);
    AppError::Message(message)
}

/// The result of two steps that were both made: no error, the one that there is,
/// or both joined.
pub open spec fn merged(
    primary: Result<(), ErrorView>,
    secondary: Result<(), ErrorView>,
) -> Result<(), ErrorView> {
    match (primary, secondary) {
        (Ok(()), _) => secondary,
        (Err(_), Ok(())) => primary,
        (Err(first), Err(second)) => Err(joined(first, second.wording())),
    }
}

pub fn merge_results(primary: AppResult<()>, secondary: AppResult<()>) -> (res: AppResult<()>)
    ensures
        outcome(res) == merged(outcome(primary), outcome(secondary)),
{
    match (primary, secondary) {
        (Ok(()), Ok(())) => Ok(()),
        (Ok(()), Err(error)) => Err(error),
        (Err(error), Ok(())) => Err(error),
        (Err(first), Err(second)) => {
            let wording = second.text();
            Err(join_errors(&first, &wording))
        },
    }
}

/// The error that stands after another one was met: the first one stays.
pub open spec fn recorded(first: Option<ErrorView>, error: ErrorView) -> Option<ErrorView> {
    match first {
        Some(_) => first,
        None => Some(error),
    }
}

pub fn record_error(first_error: &mut Option<AppError>, error: AppError)
    ensures
        optional_error(*final(first_error)) == recorded(
            optional_error(*old(first_error)),
            error@,
        ),
{
    if first_error.is_none() {
        *first_error = Some(error);
    }
}

// ---------------------------------------------------------------------------
// Laws
// ---------------------------------------------------------------------------

/// A result is worth what it holds: success, or the very error.
pub proof fn lemma_values_of_results(result: AppResult<()>, error: Option<AppError>)
    ensures
        result is Ok <==> outcome(result) == Ok::<(), ErrorView>(()),
        result matches Err(failure) ==> outcome(result) == Err::<(), ErrorView>(failure@),
        error is None <==> optional_error(error) is None,
        error matches Some(failure) ==> optional_error(error) == Some(failure@),
{
}

/// A message is printed as it is; an error from elsewhere is printed behind its context.
pub proof fn lemma_errors_are_printed_in_their_context(
    context: Seq<char>,
    source: Seq<char>,
    kind: IoKind,
)
    ensures
        ErrorView::Message(context).wording() == context,
        (ErrorView::Io {
            context,
            source: IoFailureView { kind, text: source },
        }).wording() == context + seq![':', ' '] + source,
        (ErrorView::Http { context, source }).wording() == context + seq![':', ' '] + source,
        (ErrorView::Json { context, source }).wording() == context + seq![':', ' '] + source,
{
    reveal_strlit(": ");
    assert(": "@ =~= seq![':', ' ']);
}

/// Two steps succeed together only if both do. One error is kept as it is, and of two, both
/// are worded, the first one first.
pub proof fn lemma_no_error_is_lost(
    primary: Result<(), ErrorView>,
    secondary: Result<(), ErrorView>,
)
    ensures
        merged(primary, secondary) is Ok <==> primary is Ok && secondary is Ok,
        primary is Ok ==> merged(primary, secondary) == secondary,
        primary is Err && secondary is Ok ==> merged(primary, secondary) == primary,
        primary matches Err(first) ==> (secondary matches Err(second) ==> (merged(
            primary,
            secondary,
        ) matches Err(both) && both.wording() == first.wording() + "; additionally "@
            + second.wording())),
{
}

/// The first error that is recorded stays, whatever comes after it.
pub proof fn lemma_the_first_recorded_error_stays(first: ErrorView, second: ErrorView)
    ensures
        recorded(None, first) == Some(first),
        recorded(recorded(None, first), second) == Some(first),
{
}

} // verus!
