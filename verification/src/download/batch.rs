//! The course of a download of several files.
//!
//! The batch decides what comes next; its caller reports progress, runs the workers,
//! installs files and prints, and hands back what came of it.
use crate::download::ranges;
use crate::download::resume;
use crate::download::resume::{FileTransfer, FileTransferView};
use crate::error;
use crate::error::{
    join_errors, message_error, record_error, AppError, AppResult, ErrorView, IoFailure,
    IoFailureView,
};
use crate::text;
use crate::text::debug_of;
use vstd::prelude::*;

verus! {

// ---------------------------------------------------------------------------
// Work
// ---------------------------------------------------------------------------

/// One request of a file: for one of its ranges or for all of it.
#[derive(Clone, Copy, Debug, PartialEq, Eq, Structural)]
pub enum WorkKind {
    Range(usize),
    Full,
}

/// One request.
#[derive(Clone, Copy, Debug, PartialEq, Eq, Structural)]
pub struct WorkItem {
    pub file_index: usize,
    pub kind: WorkKind,
}

/// The requests for the ranges of a file that miss bytes, in their order.
pub open spec fn range_work(file_index: usize, ranges: Seq<ranges::RangeProgress>) -> Result<
    Seq<WorkItem>,
    Seq<char>,
>
    decreases ranges.len(),
{
    if ranges.len() == 0 {
        Ok(Seq::empty())
    } else {
        match range_work(file_index, ranges.drop_last()) {
            Err(message) => Err(message),
            Ok(work) => if ranges.last().end == u64::MAX {
                Err("download range exceeds u64"@)
            } else if ranges.last().next <= ranges.last().end {
                Ok(
                    work.push(
                        WorkItem {
                            file_index,
                            kind: WorkKind::Range((ranges.len() - 1) as usize),
                        },
                    ),
                )
            } else {
                Ok(work)
            },
        }
    }
}

/// The requests that one file adds: none when the whole file will be requested.
pub open spec fn file_work(file_index: usize, transfer: FileTransferView) -> Result<
    Seq<WorkItem>,
    Seq<char>,
> {
    if transfer.fallback {
        Ok(Seq::empty())
    } else {
        range_work(file_index, transfer.metadata.ranges)
    }
}

proof fn lemma_work_error_stays(file_index: usize, ranges: Seq<ranges::RangeProgress>, i: int)
    requires
        0 <= i <= ranges.len(),
        range_work(file_index, ranges.take(i)) is Err,
    ensures
        range_work(file_index, ranges) == range_work(file_index, ranges.take(i)),
    decreases ranges.len(),
{
    if i == ranges.len() {
        assert(ranges.take(i) =~= ranges);
    } else {
        assert(ranges.drop_last().take(i) =~= ranges.take(i));
        lemma_work_error_stays(file_index, ranges.drop_last(), i);
    }
}

/// The requests for the ranges of a file that miss bytes.
pub fn collect_range_work(file_index: usize, transfer: &FileTransfer) -> (res: AppResult<
    Vec<WorkItem>,
>)
    ensures
        match res {
            Ok(work) => file_work(file_index, transfer@) == Ok::<Seq<WorkItem>, Seq<char>>(work@),
            Err(error) => file_work(file_index, transfer@) matches Err(message) && error@
                == ErrorView::Message(message),
        },
{
    let mut work: Vec<WorkItem> = Vec::new();
    if transfer.falls_back() {
        return Ok(work);
    }
    let ranges = &transfer.metadata().ranges;
    let mut i: usize = 0;
    proof {
        assert(range_work(file_index, ranges@.take(0)) == Ok::<Seq<WorkItem>, Seq<char>>(
            Seq::empty(),
        ));
    }
    while i < ranges.len()
        invariant
            i <= ranges@.len(),
            ranges@ == transfer@.metadata.ranges,
            !transfer@.fallback,
            range_work(file_index, ranges@.take(i as int)) == Ok::<Seq<WorkItem>, Seq<char>>(
                work@,
            ),
        decreases ranges@.len() - i,
    {
        proof {
            assert(ranges@.take(i + 1).drop_last() =~= ranges@.take(i as int));
            assert(ranges@.take(i + 1).last() == ranges@[i as int]);
        }
        if ranges[i].end == u64::MAX {
            proof {
                lemma_work_error_stays(file_index, ranges@, i + 1);
            }
            return Err(message_error("download range exceeds u64"));
        }
        if ranges[i].next <= ranges[i].end {
            work.push(WorkItem { file_index, kind: WorkKind::Range(i) });
        }
        i = i + 1;
    }
    proof {
        assert(ranges@.take(i as int) =~= ranges@);
    }
    Ok(work)
}

/// How many workers run: no more than jobs, and no more than there is work.
pub fn worker_count(jobs: usize, work: usize) -> (res: usize)
    ensures
        res == ranges::lesser(jobs as int, work as int),
        res <= jobs,
{
    if jobs <= work {
        jobs
    } else {
        work
    }
}

/// Why a worker cannot do an item, if it cannot.
pub open spec fn work_refusal(item: WorkItem, tasks: nat, present: Seq<bool>) -> Option<
    Seq<char>,
> {
    if item.file_index >= tasks {
        Some("download work index is out of range"@)
    } else if item.file_index >= present.len() || !present[item.file_index as int] {
        Some("download work has no transfer state"@)
    } else {
        None
    }
}

/// Accepts an item for a file that is under way.
pub fn check_work(item: &WorkItem, tasks: usize, present: &Vec<bool>) -> (res: AppResult<()>)
    ensures
        match res {
            Ok(()) => work_refusal(*item, tasks as nat, present@) is None,
            Err(error) => work_refusal(*item, tasks as nat, present@) matches Some(message)
                && error@ == ErrorView::Message(message),
        },
{
    if item.file_index >= tasks {
        return Err(message_error("download work index is out of range"));
    }
    if item.file_index >= present.len() || !present[item.file_index] {
        return Err(message_error("download work has no transfer state"));
    }
    Ok(())
}

// ---------------------------------------------------------------------------
// Actions and events
// ---------------------------------------------------------------------------

/// What the batch's caller does next.
#[derive(Debug)]
pub enum BatchAction {
    /// Report that a file is begun.
    Start(usize),
    /// Request all ranges that miss bytes.
    RunRanges,
    /// Begin a file anew if the server sends it only as a whole.
    Restart(usize),
    /// Request these files as a whole.
    RunFull(Vec<usize>),
    /// Install a file if it is complete. When it is not and `blame` is set, report it
    /// as failed.
    Settle { index: usize, blame: bool },
    /// Print the destination of a file.
    Print(usize),
    /// Nothing is left to do.
    Finish,
}

/// The value of a [`BatchAction`].
pub enum BatchActionView {
    Start(nat),
    RunRanges,
    Restart(nat),
    RunFull(Seq<usize>),
    Settle { index: nat, blame: bool },
    Print(nat),
    Finish,
}

impl View for BatchAction {
    type V = BatchActionView;

    open spec fn view(&self) -> BatchActionView {
        match self {
            BatchAction::Start(index) => BatchActionView::Start(*index as nat),
            BatchAction::RunRanges => BatchActionView::RunRanges,
            BatchAction::Restart(index) => BatchActionView::Restart(*index as nat),
            BatchAction::RunFull(files) => BatchActionView::RunFull(files@),
            BatchAction::Settle { index, blame } => BatchActionView::Settle {
                index: *index as nat,
                blame: *blame,
            },
            BatchAction::Print(index) => BatchActionView::Print(*index as nat),
            BatchAction::Finish => BatchActionView::Finish,
        }
    }
}

/// What came of an action.
#[derive(Debug)]
#[allow(inconsistent_fields)]
pub enum BatchEvent {
    /// The start was reported, or could not be.
    Started(AppResult<()>),
    /// The workers are done, or there was no work to give them.
    PhaseEnded(AppResult<()>),
    /// The file need not begin anew.
    Kept,
    /// The file begins anew.
    Restarted,
    /// The file could not begin anew; whether its failure could be reported.
    RestartFailed { error: AppError, report: AppResult<()> },
    Installed,
    /// The file could not be installed; whether its failure could be reported.
    InstallFailed { error: AppError, report: AppResult<()> },
    /// The file is not complete; whether its failure could be reported, if it was to
    /// be.
    Incomplete { report: AppResult<()> },
    Printed(Result<(), IoFailure>),
}

/// The value of a [`BatchEvent`].
#[allow(inconsistent_fields)]
pub enum BatchEventView {
    Started(Result<(), ErrorView>),
    PhaseEnded(Result<(), ErrorView>),
    Kept,
    Restarted,
    RestartFailed { error: ErrorView, report: Result<(), ErrorView> },
    Installed,
    InstallFailed { error: ErrorView, report: Result<(), ErrorView> },
    Incomplete { report: Result<(), ErrorView> },
    Printed(Result<(), IoFailureView>),
}

impl View for BatchEvent {
    type V = BatchEventView;

    open spec fn view(&self) -> BatchEventView {
        match self {
            BatchEvent::Started(result) => BatchEventView::Started(error::outcome(*result)),
            BatchEvent::PhaseEnded(result) => BatchEventView::PhaseEnded(error::outcome(*result)),
            BatchEvent::Kept => BatchEventView::Kept,
            BatchEvent::Restarted => BatchEventView::Restarted,
            BatchEvent::RestartFailed { error, report } => BatchEventView::RestartFailed {
                error: error@,
                report: error::outcome(*report),
            },
            BatchEvent::Installed => BatchEventView::Installed,
            BatchEvent::InstallFailed { error, report } => BatchEventView::InstallFailed {
                error: error@,
                report: error::outcome(*report),
            },
            BatchEvent::Incomplete { report } => BatchEventView::Incomplete {
                report: error::outcome(*report),
            },
            BatchEvent::Printed(result) => BatchEventView::Printed(
                match result {
                    Ok(()) => Ok(()),
                    Err(failure) => Err(failure@),
                },
            ),
        }
    }
}

/// What happens while the workers run.
#[derive(Debug)]
pub enum PhaseEvent {
    /// Progress was reported, or could not be.
    Advanced(AppResult<()>),
    /// The work on a file failed; whether the failure could be reported.
    Failed { index: usize, error: AppError, report: AppResult<()> },
    /// A worker could not be started.
    SpawnFailed(IoFailure),
    /// A worker ended.
    WorkerEnded(AppResult<()>),
    /// A worker panicked.
    WorkerLost,
}

/// The value of a [`PhaseEvent`].
pub enum PhaseEventView {
    Advanced(Result<(), ErrorView>),
    Failed { index: nat, error: ErrorView, report: Result<(), ErrorView> },
    SpawnFailed(IoFailureView),
    WorkerEnded(Result<(), ErrorView>),
    WorkerLost,
}

impl View for PhaseEvent {
    type V = PhaseEventView;

    open spec fn view(&self) -> PhaseEventView {
        match self {
            PhaseEvent::Advanced(result) => PhaseEventView::Advanced(error::outcome(*result)),
            PhaseEvent::Failed { index, error, report } => PhaseEventView::Failed {
                index: *index as nat,
                error: error@,
                report: error::outcome(*report),
            },
            PhaseEvent::SpawnFailed(failure) => PhaseEventView::SpawnFailed(failure@),
            PhaseEvent::WorkerEnded(result) => PhaseEventView::WorkerEnded(
                error::outcome(*result),
            ),
            PhaseEvent::WorkerLost => PhaseEventView::WorkerLost,
        }
    }
}

// ---------------------------------------------------------------------------
// The batch
// ---------------------------------------------------------------------------

/// How far the batch has come. An index is that of the file that is looked at next.
#[derive(Clone, Copy, Debug, PartialEq, Eq, Structural)]
pub enum BatchStage {
    Starting(usize),
    Ranging,
    Restarting(usize),
    Fulling,
    Settling(usize),
    Printing(usize),
    Done,
}

/// The course of a download.
#[derive(Debug)]
pub struct Batch {
    paths: Vec<String>,
    present: Vec<bool>,
    completed: Vec<bool>,
    failed: Vec<bool>,
    full_work: Vec<usize>,
    first_error: Option<AppError>,
    phase_error: Option<AppError>,
    stage: BatchStage,
}

/// The value of a [`Batch`].
pub struct BatchView {
    /// The repository paths of the files.
    pub paths: Seq<Seq<char>>,
    /// Which files are under way; an earlier run installed the others.
    pub present: Seq<bool>,
    /// Which files are installed.
    pub completed: Seq<bool>,
    /// Which files have failed.
    pub failed: Seq<bool>,
    /// Which files begin anew.
    pub full_work: Seq<usize>,
    /// The error that the batch will end with.
    pub first_error: Option<ErrorView>,
    /// The first error of the workers that run.
    pub phase_error: Option<ErrorView>,
    pub stage: BatchStage,
}

impl View for Batch {
    type V = BatchView;

    closed spec fn view(&self) -> BatchView {
        BatchView {
            paths: text::texts(self.paths@),
            present: self.present@,
            completed: self.completed@,
            failed: self.failed@,
            full_work: self.full_work@,
            first_error: error::optional_error(self.first_error),
            phase_error: error::optional_error(self.phase_error),
            stage: self.stage,
        }
    }
}

impl BatchView {
    /// A failed file means an error; a file that is under way is complete only once it
    /// was installed; and a file that was settled is complete, has failed, or was
    /// given up for an error.
    pub open spec fn well_formed(self) -> bool {
        &&& self.present.len() == self.paths.len()
        &&& self.completed.len() == self.paths.len()
        &&& self.failed.len() == self.paths.len()
        &&& self.paths.len() <= usize::MAX
        &&& forall|i: int|
            0 <= i < self.failed.len() && #[trigger] self.failed[i] ==> self.first_error is Some
                || self.phase_error is Some
        &&& forall|i: int|
            0 <= i < self.present.len() && !#[trigger] self.present[i] ==> self.completed[i]
        &&& match self.stage {
            BatchStage::Starting(index) => index <= self.paths.len() && self.first_error is None
                && self.phase_error is None,
            BatchStage::Ranging => self.first_error is None,
            BatchStage::Restarting(index) => index <= self.paths.len() && self.first_error is None
                && self.phase_error is None,
            BatchStage::Fulling => self.first_error is None,
            BatchStage::Settling(index) => index <= self.paths.len() && self.phase_error is None
                && self.settled(index as int),
            BatchStage::Printing(index) => index <= self.paths.len() && self.phase_error is None
                && self.settled(self.paths.len() as int),
            BatchStage::Done => self.phase_error is None && self.settled(self.paths.len() as int),
        }
    }

    /// Whether each of the first files is complete, unless there is an error.
    pub open spec fn settled(self, count: int) -> bool {
        forall|i: int|
            0 <= i < count ==> #[trigger] self.completed[i] || self.first_error is Some
    }
}

/// The first index from `from` on whose flag is set, or the number of flags.
pub open spec fn next_set(flags: Seq<bool>, from: nat) -> nat
    decreases flags.len() - from,
{
    if from >= flags.len() {
        flags.len()
    } else if flags[from as int] {
        from
    } else {
        next_set(flags, from + 1)
    }
}

/// Which files are under way and have not failed.
pub open spec fn unfailed(batch: BatchView) -> Seq<bool> {
    Seq::new(batch.present.len(), |i: int| batch.present[i] && !batch.failed[i])
}

/// The stage moved on to the next file that there is something to do for, or to what
/// follows when there is none.
pub open spec fn normalized_stage(batch: BatchView) -> BatchStage {
    let count = batch.paths.len();
    match batch.stage {
        BatchStage::Starting(index) => {
            let next = next_set(batch.present, index as nat);
            if next < count {
                BatchStage::Starting(next as usize)
            } else {
                BatchStage::Ranging
            }
        },
        BatchStage::Restarting(index) => {
            let next = next_set(batch.present, index as nat);
            if next < count {
                BatchStage::Restarting(next as usize)
            } else {
                BatchStage::Fulling
            }
        },
        BatchStage::Settling(index) => {
            let next = next_set(unfailed(batch), index as nat);
            if next < count {
                BatchStage::Settling(next as usize)
            } else {
                printing_stage(batch, 0)
            }
        },
        BatchStage::Printing(index) => printing_stage(batch, index as nat),
        _ => batch.stage,
    }
}

/// The stage that prints the next complete file from `index` on.
pub open spec fn printing_stage(batch: BatchView, index: nat) -> BatchStage {
    let next = next_set(batch.completed, index);
    if next < batch.paths.len() {
        BatchStage::Printing(next as usize)
    } else {
        BatchStage::Done
    }
}

/// The batch with its stage moved on.
pub open spec fn normalized(batch: BatchView) -> BatchView {
    BatchView { stage: normalized_stage(batch), ..batch }
}

/// The action of a batch whose stage was moved on.
pub open spec fn action(batch: BatchView) -> BatchActionView {
    match batch.stage {
        BatchStage::Starting(index) => BatchActionView::Start(index as nat),
        BatchStage::Ranging => BatchActionView::RunRanges,
        BatchStage::Restarting(index) => BatchActionView::Restart(index as nat),
        BatchStage::Fulling => BatchActionView::RunFull(batch.full_work),
        BatchStage::Settling(index) => BatchActionView::Settle {
            index: index as nat,
            blame: batch.first_error is None,
        },
        BatchStage::Printing(index) => BatchActionView::Print(index as nat),
        BatchStage::Done => BatchActionView::Finish,
    }
}

/// The result of a batch.
pub open spec fn result(batch: BatchView) -> Result<(), ErrorView> {
    match batch.first_error {
        Some(error) => Err(error),
        None => Ok(()),
    }
}

/// Whether an event can come of the batch's action.
pub open spec fn awaits(batch: BatchView, event: BatchEventView) -> bool {
    match batch.stage {
        BatchStage::Starting(index) => index < batch.paths.len() && event is Started,
        BatchStage::Ranging => event is PhaseEnded,
        BatchStage::Restarting(index) => index < batch.paths.len() && (event is Kept
            || event is Restarted || event is RestartFailed),
        BatchStage::Fulling => event is PhaseEnded,
        BatchStage::Settling(index) => index < batch.paths.len() && (event is Installed
            || event is InstallFailed || event is Incomplete),
        BatchStage::Printing(index) => index < batch.paths.len() && event is Printed,
        BatchStage::Done => false,
    }
}

/// The batch with an error that stands unless there was one before.
pub open spec fn with_error(batch: BatchView, error: ErrorView) -> BatchView {
    BatchView { first_error: error::recorded(batch.first_error, error), ..batch }
}

/// An error, joined with the error of reporting it.
pub open spec fn with_report(error: ErrorView, report: Result<(), ErrorView>) -> ErrorView {
    match report {
        Ok(()) => error,
        Err(second) => error::joined(error, second.wording()),
    }
}

/// The batch in which a file has failed.
pub open spec fn with_failure(
    batch: BatchView,
    index: nat,
    error: ErrorView,
    report: Result<(), ErrorView>,
) -> BatchView {
    with_error(
        BatchView { failed: batch.failed.update(index as int, true), ..batch },
        with_report(error, report),
    )
}

/// The batch after its workers are done: an error ends what was to come.
pub open spec fn after_phase(
    batch: BatchView,
    result: Result<(), ErrorView>,
    next: BatchStage,
) -> BatchView {
    let ended = BatchView { phase_error: None, ..batch };
    match (result, batch.phase_error) {
        (Err(error), _) => BatchView { stage: BatchStage::Settling(0), ..with_error(ended, error) },
        (Ok(()), Some(error)) => BatchView {
            stage: BatchStage::Settling(0),
            ..with_error(ended, error)
        },
        (Ok(()), None) => BatchView { stage: next, ..ended },
    }
}

/// The message for a file that the workers left incomplete.
pub open spec fn stopped_early(path: Seq<char>) -> ErrorView {
    ErrorView::Message("download workers stopped before completing "@ + text::debug_text(path))
}

/// The batch after an event.
pub open spec fn accepted(batch: BatchView, event: BatchEventView) -> BatchView {
    match (batch.stage, event) {
        (BatchStage::Starting(index), BatchEventView::Started(result)) => match result {
            Ok(()) => BatchView { stage: BatchStage::Starting((index + 1) as usize), ..batch },
            Err(error) => BatchView {
                stage: BatchStage::Settling(0),
                ..with_error(batch, error)
            },
        },
        (BatchStage::Ranging, BatchEventView::PhaseEnded(result)) => after_phase(
            batch,
            result,
            BatchStage::Restarting(0),
        ),
        (BatchStage::Restarting(index), BatchEventView::Kept) => BatchView {
            stage: BatchStage::Restarting((index + 1) as usize),
            ..batch
        },
        (BatchStage::Restarting(index), BatchEventView::Restarted) => BatchView {
            full_work: batch.full_work.push(index),
            stage: BatchStage::Restarting((index + 1) as usize),
            ..batch
        },
        (
            BatchStage::Restarting(index),
            BatchEventView::RestartFailed { error, report },
        ) => BatchView {
            stage: BatchStage::Settling(0),
            ..with_failure(batch, index as nat, error, report)
        },
        (BatchStage::Fulling, BatchEventView::PhaseEnded(result)) => after_phase(
            batch,
            result,
            BatchStage::Settling(0),
        ),
        (BatchStage::Settling(index), BatchEventView::Installed) => BatchView {
            completed: batch.completed.update(index as int, true),
            stage: BatchStage::Settling((index + 1) as usize),
            ..batch
        },
        (
            BatchStage::Settling(index),
            BatchEventView::InstallFailed { error, report },
        ) => BatchView {
            stage: BatchStage::Settling((index + 1) as usize),
            ..with_failure(batch, index as nat, error, report)
        },
        (BatchStage::Settling(index), BatchEventView::Incomplete { report }) => {
            let after = if batch.first_error is None {
                with_failure(
                    batch,
                    index as nat,
                    stopped_early(batch.paths[index as int]),
                    report,
                )
            } else {
                batch
            };
            BatchView { stage: BatchStage::Settling((index + 1) as usize), ..after }
        },
        (BatchStage::Printing(index), BatchEventView::Printed(result)) => match result {
            Ok(()) => BatchView { stage: BatchStage::Printing((index + 1) as usize), ..batch },
            Err(source) => BatchView {
                stage: BatchStage::Done,
                ..with_error(
                    batch,
                    ErrorView::Io { context: "could not write download output"@, source },
                )
            },
        },
        _ => batch,
    }
}

/// The batch after something happened while the workers run, and whether they stop.
pub open spec fn observed(batch: BatchView, event: PhaseEventView) -> (BatchView, bool) {
    match event {
        PhaseEventView::Advanced(Ok(())) => (batch, false),
        PhaseEventView::Advanced(Err(error)) => (
            BatchView { phase_error: error::recorded(batch.phase_error, error), ..batch },
            true,
        ),
        PhaseEventView::Failed { index, error, report } => if index < batch.failed.len() {
            (
                BatchView {
                    failed: batch.failed.update(index as int, true),
                    phase_error: error::recorded(
                        batch.phase_error,
                        with_report(error, report),
                    ),
                    ..batch
                },
                true,
            )
        } else {
            (
                BatchView {
                    phase_error: error::recorded(
                        batch.phase_error,
                        ErrorView::Message("download failure index is out of range"@),
                    ),
                    ..batch
                },
                true,
            )
        },
        PhaseEventView::SpawnFailed(source) => (
            BatchView {
                phase_error: error::recorded(
                    batch.phase_error,
                    ErrorView::Io { context: "could not start download worker"@, source },
                ),
                ..batch
            },
            true,
        ),
        PhaseEventView::WorkerEnded(Ok(())) => (batch, false),
        PhaseEventView::WorkerEnded(Err(error)) => (
            BatchView { phase_error: error::recorded(batch.phase_error, error), ..batch },
            true,
        ),
        PhaseEventView::WorkerLost => (
            BatchView {
                phase_error: error::recorded(
                    batch.phase_error,
                    ErrorView::Message("download worker terminated unexpectedly"@),
                ),
                ..batch
            },
            true,
        ),
    }
}

fn reported_error(error: AppError, report: AppResult<()>) -> (res: AppError)
    ensures
        res@ == with_report(error@, error::outcome(report)),
{
    match report {
        Ok(()) => error,
        Err(second) => {
            let wording = second.text();
            join_errors(&error, &wording)
        },
    }
}

fn io_error(context: &str, failure: IoFailure) -> (res: AppError)
    ensures
        res@ == (ErrorView::Io { context: context@, source: failure@ }),
{
    AppError::io(context.to_owned(), failure)
}

/// The first index from `from` on whose flag is set, or the number of flags.
fn next_flag(flags: &Vec<bool>, from: usize) -> (res: usize)
    requires
        from <= flags@.len(),
    ensures
        res == next_set(flags@, from as nat),
        from <= res <= flags@.len(),
{
    let mut i: usize = from;
    while i < flags.len() && !flags[i]
        invariant
            from <= i <= flags@.len(),
            next_set(flags@, from as nat) == next_set(flags@, i as nat),
        decreases flags@.len() - i,
    {
        i = i + 1;
    }
    i
}

/// Which of `values` are not set.
spec fn negated(values: Seq<bool>) -> Seq<bool> {
    values.map_values(|value: bool| !value)
}

impl Batch {
    /// Begins the download of files. A file that is not under way was installed by an
    /// earlier run.
    pub fn new(paths: Vec<String>, present: Vec<bool>) -> (res: AppResult<Self>)
        ensures
            match res {
                Ok(batch) => {
                    &&& paths@.len() == present@.len()
                    &&& batch@.well_formed()
                    &&& batch@ == (BatchView {
                        paths: text::texts(paths@),
                        present: present@,
                        completed: present@.map_values(|value: bool| !value),
                        failed: Seq::new(paths@.len(), |i: int| false),
                        full_work: Seq::empty(),
                        first_error: None,
                        phase_error: None,
                        stage: BatchStage::Starting(0),
                    })
                },
                Err(error) => paths@.len() != present@.len() && error@ == ErrorView::Message(
                    "download state length mismatch"@,
                ),
            },
    {
        if paths.len() != present.len() {
            return Err(message_error("download state length mismatch"));
        }
        let mut completed: Vec<bool> = Vec::new();
        let mut failed: Vec<bool> = Vec::new();
        let mut i: usize = 0;
        while i < present.len()
            invariant
                i <= present@.len(),
                completed@ == negated(present@.take(i as int)),
                failed@ == Seq::new(i as nat, |k: int| false),
            decreases present@.len() - i,
        {
            completed.push(!present[i]);
            failed.push(false);
            i = i + 1;
            proof {
                assert(completed@ =~= negated(present@.take(i as int)));
                assert(failed@ =~= Seq::new(i as nat, |k: int| false));
            }
        }
        proof {
            assert(present@.take(i as int) =~= present@);
            assert(completed@ =~= present@.map_values(|value: bool| !value));
            assert(failed@ =~= Seq::new(paths@.len(), |k: int| false));
        }
        let count = paths.len();
        let batch = Batch {
            paths,
            present,
            completed,
            failed,
            full_work: Vec::new(),
            first_error: None,
            phase_error: None,
            stage: BatchStage::Starting(0),
        };
        proof {
            assert(batch@.paths.len() == count);
        }
        Ok(batch)
    }

    /// The next action.
    pub fn next_action(&mut self) -> (res: BatchAction)
        requires
            old(self)@.well_formed(),
        ensures
            final(self)@ == normalized(old(self)@),
            final(self)@.well_formed(),
            match final(self)@.stage {
                BatchStage::Starting(index) => index < final(self)@.paths.len(),
                BatchStage::Restarting(index) => index < final(self)@.paths.len(),
                BatchStage::Settling(index) => index < final(self)@.paths.len(),
                BatchStage::Printing(index) => index < final(self)@.paths.len(),
                _ => true,
            },
            res@ == action(final(self)@),
    {
        match self.stage {
            BatchStage::Starting(index) => {
                let next = next_flag(&self.present, index);
                self.stage = if next < self.paths.len() {
                    BatchStage::Starting(next)
                } else {
                    BatchStage::Ranging
                };
            },
            BatchStage::Restarting(index) => {
                let next = next_flag(&self.present, index);
                self.stage = if next < self.paths.len() {
                    BatchStage::Restarting(next)
                } else {
                    BatchStage::Fulling
                };
            },
            BatchStage::Settling(index) => {
                let next = self.next_unfailed(index);
                if next < self.paths.len() {
                    self.stage = BatchStage::Settling(next);
                } else {
                    self.print_from(0);
                }
            },
            BatchStage::Printing(index) => {
                self.print_from(index);
            },
            _ => {},
        }
        match self.stage {
            BatchStage::Starting(index) => BatchAction::Start(index),
            BatchStage::Ranging => BatchAction::RunRanges,
            BatchStage::Restarting(index) => BatchAction::Restart(index),
            BatchStage::Fulling => {
                let files = self.full_work.clone();
                proof {
                    assert(files@ =~= self.full_work@);
                }
                BatchAction::RunFull(files)
            },
            BatchStage::Settling(index) => BatchAction::Settle {
                index,
                blame: self.first_error.is_none(),
            },
            BatchStage::Printing(index) => BatchAction::Print(index),
            BatchStage::Done => BatchAction::Finish,
        }
    }

    /// The result.
    pub fn finish(self) -> (res: AppResult<()>)
        ensures
            error::outcome(res) == result(self@),
    {
        match self.first_error {
            Some(error) => Err(error),
            None => Ok(()),
        }
    }

    /// The first file from `from` on that is under way and has not failed.
    fn next_unfailed(&self, from: usize) -> (res: usize)
        requires
            self@.well_formed(),
            from <= self@.paths.len(),
            self@.phase_error is None,
            self@.settled(from as int),
        ensures
            res == next_set(unfailed(self@), from as nat),
            from <= res <= self@.paths.len(),
            self@.settled(res as int),
            res < self@.paths.len() ==> self@.present[res as int] && !self@.failed[res as int],
    {
        let count = self.paths.len();
        let mut i: usize = from;
        while i < count && !(self.present[i] && !self.failed[i])
            invariant
                from <= i <= count,
                count == self@.paths.len(),
                self@.well_formed(),
                self@.phase_error is None,
                self@.settled(i as int),
                next_set(unfailed(self@), from as nat) == next_set(unfailed(self@), i as nat),
            decreases count - i,
        {
            proof {
                assert(!unfailed(self@)[i as int]);
                if !self@.present[i as int] {
                    assert(self@.completed[i as int]);
                } else {
                    assert(self@.failed[i as int]);
                }
            }
            i = i + 1;
        }
        proof {
            if i < count {
                assert(unfailed(self@)[i as int]);
            }
        }
        i
    }

    fn print_from(&mut self, index: usize)
        requires
            old(self)@.completed.len() == old(self)@.paths.len(),
            old(self)@.paths.len() <= usize::MAX,
            index <= old(self)@.paths.len(),
        ensures
            final(self)@ == (BatchView {
                stage: printing_stage(old(self)@, index as nat),
                ..old(self)@
            }),
            final(self)@.stage matches BatchStage::Printing(next) ==> next
                < final(self)@.paths.len(),
    {
        let next = next_flag(&self.completed, index);
        self.stage = if next < self.paths.len() {
            BatchStage::Printing(next)
        } else {
            BatchStage::Done
        };
    }

    /// Takes what came of the last action.
    pub fn accept(&mut self, event: BatchEvent)
        requires
            old(self)@.well_formed(),
            awaits(old(self)@, event@),
        ensures
            final(self)@ == accepted(old(self)@, event@),
            final(self)@.well_formed(),
    {
        match (self.stage, event) {
            (BatchStage::Starting(index), BatchEvent::Started(result)) => match result {
                Ok(()) => {
                    self.stage = BatchStage::Starting(index + 1);
                },
                Err(error) => {
                    record_error(&mut self.first_error, error);
                    self.stage = BatchStage::Settling(0);
                },
            },
            (BatchStage::Ranging, BatchEvent::PhaseEnded(result)) => {
                self.end_phase(result, BatchStage::Restarting(0));
            },
            (BatchStage::Restarting(index), BatchEvent::Kept) => {
                self.stage = BatchStage::Restarting(index + 1);
            },
            (BatchStage::Restarting(index), BatchEvent::Restarted) => {
                self.full_work.push(index);
                self.stage = BatchStage::Restarting(index + 1);
            },
            (BatchStage::Restarting(index), BatchEvent::RestartFailed { error, report }) => {
                self.fail(index, error, report);
                self.stage = BatchStage::Settling(0);
            },
            (BatchStage::Fulling, BatchEvent::PhaseEnded(result)) => {
                self.end_phase(result, BatchStage::Settling(0));
            },
            (BatchStage::Settling(index), BatchEvent::Installed) => {
                self.completed.set(index, true);
                self.stage = BatchStage::Settling(index + 1);
            },
            (BatchStage::Settling(index), BatchEvent::InstallFailed { error, report }) => {
                self.fail(index, error, report);
                self.stage = BatchStage::Settling(index + 1);
            },
            (BatchStage::Settling(index), BatchEvent::Incomplete { report }) => {
                if self.first_error.is_none() {
                    proof {
                        assert(self@.paths[index as int] == self.paths@[index as int]@);
                    }
                    let mut message = "download workers stopped before completing ".to_owned();
                    message.append(&debug_of(&self.paths[index]));
                    self.fail(index, AppError::message(message), report);
                }
                self.stage = BatchStage::Settling(index + 1);
            },
            (BatchStage::Printing(index), BatchEvent::Printed(result)) => match result {
                Ok(()) => {
                    self.stage = BatchStage::Printing(index + 1);
                },
                Err(failure) => {
                    let error = io_error("could not write download output", failure);
                    record_error(&mut self.first_error, error);
                    self.stage = BatchStage::Done;
                },
            },
            _ => {},
        }
    }

    /// Takes what happened while the workers run, and tells whether they stop.
    pub fn observe(&mut self, event: PhaseEvent) -> (res: bool)
        requires
            old(self)@.well_formed(),
            old(self)@.stage is Ranging || old(self)@.stage is Fulling,
        ensures
            (final(self)@, res) == observed(old(self)@, event@),
            final(self)@.well_formed(),
    {
        match event {
            PhaseEvent::Advanced(Ok(())) => false,
            PhaseEvent::Advanced(Err(error)) => {
                record_error(&mut self.phase_error, error);
                true
            },
            PhaseEvent::Failed { index, error, report } => {
                if index < self.failed.len() {
                    self.failed.set(index, true);
                } else {
                    record_error(
                        &mut self.phase_error,
                        message_error("download failure index is out of range"),
                    );
                }
                record_error(&mut self.phase_error, reported_error(error, report));
                true
            },
            PhaseEvent::SpawnFailed(failure) => {
                let error = io_error("could not start download worker", failure);
                record_error(&mut self.phase_error, error);
                true
            },
            PhaseEvent::WorkerEnded(Ok(())) => false,
            PhaseEvent::WorkerEnded(Err(error)) => {
                record_error(&mut self.phase_error, error);
                true
            },
            PhaseEvent::WorkerLost => {
                record_error(
                    &mut self.phase_error,
                    message_error("download worker terminated unexpectedly"),
                );
                true
            },
        }
    }

    fn fail(&mut self, index: usize, error: AppError, report: AppResult<()>)
        requires
            index < old(self)@.failed.len(),
        ensures
            final(self)@ == with_failure(
                old(self)@,
                index as nat,
                error@,
                error::outcome(report),
            ),
    {
        self.failed.set(index, true);
        record_error(&mut self.first_error, reported_error(error, report));
    }

    fn end_phase(&mut self, result: AppResult<()>, next: BatchStage)
        ensures
            final(self)@ == after_phase(old(self)@, error::outcome(result), next),
    {
        let phase_error = self.phase_error.take();
        match (result, phase_error) {
            (Err(error), _) => {
                record_error(&mut self.first_error, error);
                self.stage = BatchStage::Settling(0);
            },
            (Ok(()), Some(error)) => {
                record_error(&mut self.first_error, error);
                self.stage = BatchStage::Settling(0);
            },
            (Ok(()), None) => {
                self.stage = next;
            },
        }
    }
}

// ---------------------------------------------------------------------------
// Laws
// ---------------------------------------------------------------------------

/// A batch succeeds only if every file is installed and none has failed.
pub proof fn lemma_success_means_all_files(batch: BatchView)
    requires
        batch.well_formed(),
        batch.stage == BatchStage::Done,
        result(batch) is Ok,
    ensures
        forall|i: int| 0 <= i < batch.paths.len() ==> #[trigger] batch.completed[i],
        forall|i: int| 0 <= i < batch.paths.len() ==> !#[trigger] batch.failed[i],
{
}

/// A file becomes complete only by being installed, and only while it is under way
/// and has not failed.
pub proof fn lemma_only_installed_files_are_complete(
    batch: BatchView,
    event: BatchEventView,
    index: int,
)
    requires
        batch.well_formed(),
        awaits(normalized(batch), event),
        0 <= index < batch.paths.len(),
        !batch.completed[index],
        accepted(normalized(batch), event).completed[index],
    ensures
        event is Installed,
        action(normalized(batch)) matches BatchActionView::Settle { index: settled, .. }
            && settled == index,
        batch.present[index],
        !batch.failed[index],
{
    lemma_next_set(batch.present, 0);
    if let BatchStage::Settling(from) = batch.stage {
        lemma_next_set(unfailed(batch), from as nat);
    }
}

/// Only the destinations of complete files are printed.
pub proof fn lemma_only_complete_files_are_printed(batch: BatchView)
    requires
        batch.well_formed(),
    ensures
        action(normalized(batch)) matches BatchActionView::Print(index) ==> index
            < batch.paths.len() && batch.completed[index as int],
{
    match batch.stage {
        BatchStage::Settling(_) => lemma_next_set(batch.completed, 0),
        BatchStage::Printing(from) => lemma_next_set(batch.completed, from as nat),
        _ => {},
    }
}

proof fn lemma_next_set(flags: Seq<bool>, from: nat)
    requires
        from <= flags.len(),
    ensures
        from <= next_set(flags, from) <= flags.len(),
        next_set(flags, from) < flags.len() ==> flags[next_set(flags, from) as int],
    decreases flags.len() - from,
{
    if from < flags.len() && !flags[from as int] {
        lemma_next_set(flags, from + 1);
    }
}

/// The first error stands: no later event replaces it, and once there is one, no
/// further work is begun.
pub proof fn lemma_first_error_stands(batch: BatchView, event: BatchEventView)
    requires
        batch.well_formed(),
        awaits(batch, event),
        batch.first_error is Some,
    ensures
        accepted(batch, event).first_error == batch.first_error,
        !(action(normalized(accepted(batch, event))) is Start),
        !(action(normalized(accepted(batch, event))) is RunRanges),
        !(action(normalized(accepted(batch, event))) is Restart),
        !(action(normalized(accepted(batch, event))) is RunFull),
{
}

/// While workers run, the first of their errors stands, and every failure stops them.
pub proof fn lemma_failures_stop_the_workers(batch: BatchView, event: PhaseEventView)
    ensures
        batch.phase_error is Some ==> observed(batch, event).0.phase_error == batch.phase_error,
        observed(batch, event).1 ==> observed(batch, event).0.phase_error is Some,
        !observed(batch, event).1 ==> observed(batch, event).0 == batch,
{
}

proof fn lemma_range_work(file_index: usize, ranges: Seq<ranges::RangeProgress>, size: int)
    requires
        ranges::tile(0, size, ranges),
        size <= u64::MAX,
        ranges.len() <= usize::MAX,
    ensures
        range_work(file_index, ranges) is Ok,
        forall|k: usize|
            (#[trigger] range_work(file_index, ranges)->Ok_0.contains(
                WorkItem { file_index, kind: WorkKind::Range(k) },
            )) <==> k < ranges.len() && ranges[k as int].next <= ranges[k as int].end,
        range_work(file_index, ranges)->Ok_0.len() == ranges::unfinished(ranges),
    decreases ranges.len(),
{
    if ranges.len() > 0 {
        let front = ranges.drop_last();
        lemma_range_work(file_index, front, ranges.last().start as int);
        let before = range_work(file_index, front)->Ok_0;
        let work = range_work(file_index, ranges)->Ok_0;
        let last = WorkItem { file_index, kind: WorkKind::Range((ranges.len() - 1) as usize) };
        assert forall|k: usize|
            (#[trigger] work.contains(WorkItem { file_index, kind: WorkKind::Range(k) })) <==> k
                < ranges.len() && ranges[k as int].next <= ranges[k as int].end by {
            let item = WorkItem { file_index, kind: WorkKind::Range(k) };
            assert(before.contains(item) <==> k < front.len() && front[k as int].next
                <= front[k as int].end);
            if work.contains(item) {
                let i = choose|i: int| 0 <= i < work.len() && work[i] == item;
                if i < before.len() {
                    assert(before[i] == item);
                }
            }
            if before.contains(item) {
                let i = choose|i: int| 0 <= i < before.len() && before[i] == item;
                assert(work[i] == item);
            }
            if k == ranges.len() - 1 && ranges[k as int].next <= ranges[k as int].end {
                assert(work[work.len() - 1] == item);
            }
        }
    }
}

proof fn lemma_later_ranges_start_later(from: int, to: int, ranges: Seq<ranges::RangeProgress>, i: int)
    requires
        ranges::tile(from, to, ranges),
        0 <= i < ranges.len(),
    ensures
        ranges[i].end < to,
        forall|j: int| i < j < ranges.len() ==> ranges[i].end < (#[trigger] ranges[j]).start,
    decreases ranges.len(),
{
    let front = ranges.drop_last();
    if i < front.len() {
        lemma_later_ranges_start_later(from, ranges.last().start as int, front, i);
        assert forall|j: int| i < j < ranges.len() implies ranges[i].end < (
        #[trigger] ranges[j]).start by {
            if j < front.len() {
                assert(front[j] == ranges[j]);
            }
        }
    }
}

/// Whether the request for range `k` of a file asks for byte `offset`.
pub open spec fn requests(transfer: FileTransferView, k: usize, offset: int) -> bool {
    resume::pending(transfer, k as nat) matches Ok(Some((start, end))) && start <= offset <= end
}

/// The workers get a request for every unfinished range and for no other, and every
/// byte that is missing is asked for exactly once.
pub proof fn lemma_missing_bytes_are_requested_once(file_index: usize, transfer: FileTransferView)
    requires
        ranges::valid_ranges(transfer.metadata.size, transfer.metadata.ranges),
        transfer.metadata.ranges.len() <= usize::MAX,
        !transfer.fallback,
    ensures
        file_work(file_index, transfer) is Ok,
        file_work(file_index, transfer)->Ok_0.len() == ranges::unfinished(
            transfer.metadata.ranges,
        ),
        forall|k: usize, offset: int|
            #[trigger] requests(transfer, k, offset) ==> file_work(
                file_index,
                transfer,
            )->Ok_0.contains(WorkItem { file_index, kind: WorkKind::Range(k) }) && ranges::lacks(
                transfer.metadata.ranges,
                offset,
            ),
        forall|offset: int| #[trigger]
            ranges::lacks(transfer.metadata.ranges, offset) ==> exists|k: usize|
                requests(transfer, k, offset),
        forall|j: usize, k: usize, offset: int|
            #[trigger] requests(transfer, j, offset) && #[trigger] requests(transfer, k, offset)
                ==> j == k,
{
    let ranges = transfer.metadata.ranges;
    let size = transfer.metadata.size as int;
    lemma_range_work(file_index, ranges, size);
    assert forall|k: usize, offset: int| #[trigger] requests(transfer, k, offset) implies file_work(
        file_index,
        transfer,
    )->Ok_0.contains(WorkItem { file_index, kind: WorkKind::Range(k) }) && ranges::lacks(
        ranges,
        offset,
    ) by {
        assert(ranges[k as int].lacks(offset));
    }
    assert forall|offset: int| #[trigger] ranges::lacks(ranges, offset) implies exists|k: usize|
        requests(transfer, k, offset) by {
        let i = choose|i: int| 0 <= i < ranges.len() && (#[trigger] ranges[i]).lacks(offset);
        lemma_later_ranges_start_later(0, size, ranges, i);
        assert(requests(transfer, i as usize, offset));
    }
    assert forall|j: usize, k: usize, offset: int|
        #[trigger] requests(transfer, j, offset) && #[trigger] requests(
            transfer,
            k,
            offset,
        ) implies j == k by {
        lemma_starts(0, size, ranges);
        if j < k {
            lemma_later_ranges_start_later(0, size, ranges, j as int);
            assert(ranges[k as int].start <= ranges[k as int].next);
        } else if k < j {
            lemma_later_ranges_start_later(0, size, ranges, k as int);
            assert(ranges[j as int].start <= ranges[j as int].next);
        }
    }
}

proof fn lemma_starts(from: int, to: int, ranges: Seq<ranges::RangeProgress>)
    requires
        ranges::tile(from, to, ranges),
    ensures
        forall|i: int| 0 <= i < ranges.len() ==> (#[trigger] ranges[i]).start <= ranges[i].next,
    decreases ranges.len(),
{
    if ranges.len() > 0 {
        lemma_starts(from, ranges.last().start as int, ranges.drop_last());
        assert forall|i: int| 0 <= i < ranges.len() implies (#[trigger] ranges[i]).start
            <= ranges[i].next by {
            if i < ranges.len() - 1 {
                assert(ranges.drop_last()[i] == ranges[i]);
            }
        }
    }
}

/// The next file that a flag is set for is the first one from where the search begins; there
/// is none if no flag from there on is set.
pub proof fn lemma_the_first_set_flag_is_found(flags: Seq<bool>, from: nat)
    requires
        from <= flags.len(),
    ensures
        from <= next_set(flags, from) <= flags.len(),
        forall|i: int| from <= i < next_set(flags, from) ==> !#[trigger] flags[i],
        next_set(flags, from) < flags.len() ==> flags[next_set(flags, from) as int],
    decreases flags.len() - from,
{
    if from < flags.len() && !flags[from as int] {
        lemma_the_first_set_flag_is_found(flags, from + 1);
    }
}

/// The requests of a file are one for each of its ranges that misses bytes, and none if the
/// file will be requested as a whole.
pub proof fn lemma_ranges_that_miss_bytes_are_requested(
    file_index: usize,
    transfer: FileTransferView,
    k: usize,
)
    requires
        ranges::valid_ranges(transfer.metadata.size, transfer.metadata.ranges),
        transfer.metadata.ranges.len() <= usize::MAX,
    ensures
        transfer.fallback ==> file_work(file_index, transfer) == Ok::<Seq<WorkItem>, Seq<char>>(
            Seq::empty(),
        ),
        !transfer.fallback ==> (file_work(file_index, transfer) matches Ok(work) && (work.contains(
            WorkItem { file_index, kind: WorkKind::Range(k) },
        ) <==> k < transfer.metadata.ranges.len() && transfer.metadata.ranges[k as int].next
            <= transfer.metadata.ranges[k as int].end)),
{
    lemma_range_work(file_index, transfer.metadata.ranges, transfer.metadata.size as int);
}

/// As many workers run as there is work for, and no more than there are jobs.
pub proof fn lemma_workers_are_limited_by_jobs_and_work(jobs: int, work: int)
    ensures
        ranges::lesser(jobs, work) == vstd::math::min(jobs, work),
{
}

/// A worker takes an item exactly if its file is one of the batch and under way.
pub proof fn lemma_work_is_done_for_files_under_way(item: WorkItem, tasks: nat, present: Seq<bool>)
    ensures
        work_refusal(item, tasks, present) is None <==> item.file_index < tasks && item.file_index
            < present.len() && present[item.file_index as int],
        item.file_index >= tasks ==> work_refusal(item, tasks, present) == Some(
            "download work index is out of range"@,
        ),
        item.file_index < tasks && work_refusal(item, tasks, present) is Some ==> work_refusal(
            item,
            tasks,
            present,
        ) == Some("download work has no transfer state"@),
{
}

/// What comes next concerns the first file that is left. Files under way are begun one after
/// the other, then their ranges are run; they are asked for a new beginning one after the
/// other, then those that begin anew are run; those that have not failed are settled, and
/// the complete ones are printed, each once, in their order. Then nothing is left.
pub proof fn lemma_files_are_taken_in_their_order(batch: BatchView, index: usize, j: int)
    requires
        batch.well_formed(),
        index <= j <= batch.paths.len(),
    ensures
        ({
            let next = action(normalized(batch));
            let waits = |flags: Seq<bool>|
                (forall|i: int| index <= i < j ==> !#[trigger] flags[i]) && (j < flags.len()
                    ==> flags[j]);
            &&& batch.stage == BatchStage::Starting(index) && waits(batch.present) ==> next == if j
                < batch.paths.len() {
                BatchActionView::Start(j as nat)
            } else {
                BatchActionView::RunRanges
            }
            &&& batch.stage == BatchStage::Restarting(index) && waits(batch.present) ==> next == if j
                < batch.paths.len() {
                BatchActionView::Restart(j as nat)
            } else {
                BatchActionView::RunFull(batch.full_work)
            }
            &&& batch.stage == BatchStage::Printing(index) && waits(batch.completed) ==> next == if j
                < batch.paths.len() {
                BatchActionView::Print(j as nat)
            } else {
                BatchActionView::Finish
            }
            &&& batch.stage == BatchStage::Settling(index) && j < batch.paths.len()
                && batch.present[j] && !batch.failed[j] && (forall|i: int|
                index <= i < j ==> !(#[trigger] batch.present[i]) || batch.failed[i]) ==> next == (
            BatchActionView::Settle { index: j as nat, blame: batch.first_error is None })
            &&& batch.stage is Ranging ==> next is RunRanges
            &&& batch.stage is Fulling ==> next == BatchActionView::RunFull(batch.full_work)
            &&& batch.stage is Done ==> next is Finish
        }),
        normalized(batch) == (BatchView { stage: normalized(batch).stage, ..batch }),
{
    let from = index as nat;
    lemma_the_first_set_flag_is_found(batch.present, from);
    lemma_the_first_set_flag_is_found(batch.completed, from);
    let free = unfailed(batch);
    lemma_the_first_set_flag_is_found(free, from);
    let a = next_set(batch.present, from) as int;
    let c = next_set(batch.completed, from) as int;
    let f = next_set(free, from) as int;
    if a < batch.present.len() {
        assert(batch.present[a]);
    }
    if c < batch.completed.len() {
        assert(batch.completed[c]);
    }
    if f < free.len() {
        assert(free[f]);
        assert(batch.present[f] && !batch.failed[f]);
    }
    if j < batch.paths.len() {
        if j < a {
            assert(!batch.present[j]);
        }
        if j < c {
            assert(!batch.completed[j]);
        }
        if j < f {
            assert(!free[j]);
        }
    }
}

/// Once no file is left to settle, the complete ones are printed from the first one on.
pub proof fn lemma_settled_batches_print(batch: BatchView, index: usize, j: int)
    requires
        batch.well_formed(),
        batch.stage == BatchStage::Settling(index),
        forall|i: int|
            index <= i < batch.paths.len() ==> !(#[trigger] batch.present[i]) || batch.failed[i],
        0 <= j <= batch.paths.len(),
        forall|i: int| 0 <= i < j ==> !#[trigger] batch.completed[i],
        j < batch.paths.len() ==> batch.completed[j],
    ensures
        action(normalized(batch)) == if j < batch.paths.len() {
            BatchActionView::Print(j as nat)
        } else {
            BatchActionView::Finish
        },
{
    let free = unfailed(batch);
    lemma_the_first_set_flag_is_found(free, index as nat);
    lemma_the_first_set_flag_is_found(batch.completed, 0);
    let f = next_set(free, index as nat) as int;
    if f < free.len() {
        assert(free[f]);
        assert(batch.present[f] && !batch.failed[f]);
    }
    let c = next_set(batch.completed, 0) as int;
    if c < batch.completed.len() {
        assert(batch.completed[c]);
    }
    if j < c {
        assert(!batch.completed[j]);
    }
}

/// Without a failure a batch goes on to what follows and has no error: from one file to the
/// next, from the ranges to the new beginnings, and from there to the settling. A file that
/// begins anew is run as a whole, one that is installed is complete, and nothing else of the
/// batch changes.
pub proof fn lemma_without_failures_a_batch_goes_on(batch: BatchView, index: usize)
    requires
        index < usize::MAX,
        batch.phase_error is None,
    ensures
        ({
            let next = (index + 1) as usize;
            let at = |stage: BatchStage| BatchView { stage, ..batch };
            &&& accepted(at(BatchStage::Starting(index)), BatchEventView::Started(Ok(()))) == at(
                BatchStage::Starting(next),
            )
            &&& accepted(at(BatchStage::Ranging), BatchEventView::PhaseEnded(Ok(()))) == at(
                BatchStage::Restarting(0),
            )
            &&& accepted(at(BatchStage::Restarting(index)), BatchEventView::Kept) == at(
                BatchStage::Restarting(next),
            )
            &&& accepted(at(BatchStage::Restarting(index)), BatchEventView::Restarted) == (
            BatchView {
                full_work: batch.full_work.push(index),
                ..at(BatchStage::Restarting(next))
            })
            &&& accepted(at(BatchStage::Fulling), BatchEventView::PhaseEnded(Ok(()))) == at(
                BatchStage::Settling(0),
            )
            &&& accepted(at(BatchStage::Settling(index)), BatchEventView::Installed) == (
            BatchView {
                completed: batch.completed.update(index as int, true),
                ..at(BatchStage::Settling(next))
            })
            &&& accepted(at(BatchStage::Printing(index)), BatchEventView::Printed(Ok(()))) == at(
                BatchStage::Printing(next),
            )
        }),
        result(batch) is Ok <==> batch.first_error is None,
        batch.first_error matches Some(error) ==> result(batch) == Err::<(), ErrorView>(error),
{
}

/// A failure is what a batch ends with, unless there was one before: the failure itself, with
/// that of reporting it behind it. What the batch was about to begin is given up, and what is
/// there is settled; a file that could not begin anew or be installed has failed. A file that
/// was left incomplete is blamed only if nothing else is.
pub proof fn lemma_failures_are_what_a_batch_ends_with(
    batch: BatchView,
    index: usize,
    error: ErrorView,
    source: IoFailureView,
)
    requires
        index < batch.failed.len(),
        index < batch.paths.len(),
        index < usize::MAX,
        batch.first_error is None,
        batch.phase_error is None,
    ensures
        ({
            let at = |stage: BatchStage| BatchView { stage, ..batch };
            let started = accepted(
                at(BatchStage::Starting(index)),
                BatchEventView::Started(Err(error)),
            );
            let ranged = accepted(at(BatchStage::Ranging), BatchEventView::PhaseEnded(Err(error)));
            let fulled = accepted(at(BatchStage::Fulling), BatchEventView::PhaseEnded(Err(error)));
            let restarted = accepted(
                at(BatchStage::Restarting(index)),
                BatchEventView::RestartFailed { error, report: Ok(()) },
            );
            let installed = accepted(
                at(BatchStage::Settling(index)),
                BatchEventView::InstallFailed { error, report: Ok(()) },
            );
            let incomplete = accepted(
                at(BatchStage::Settling(index)),
                BatchEventView::Incomplete { report: Ok(()) },
            );
            let printed = accepted(
                at(BatchStage::Printing(index)),
                BatchEventView::Printed(Err(source)),
            );
            &&& started.first_error == Some(error) && started.stage == BatchStage::Settling(0)
                && started.failed == batch.failed
            &&& ranged.first_error == Some(error) && ranged.stage == BatchStage::Settling(0)
            &&& fulled.first_error == Some(error) && fulled.stage == BatchStage::Settling(0)
            &&& restarted.first_error == Some(error) && restarted.stage == BatchStage::Settling(0)
                && restarted.failed == batch.failed.update(index as int, true)
            &&& installed.first_error == Some(error) && installed.stage == BatchStage::Settling(
                (index + 1) as usize,
            ) && installed.failed == batch.failed.update(index as int, true) && installed.completed
                == batch.completed
            &&& incomplete.first_error == Some(
                ErrorView::Message(
                    "download workers stopped before completing "@ + text::debug_text(
                        batch.paths[index as int],
                    ),
                ),
            ) && incomplete.failed == batch.failed.update(index as int, true)
                && incomplete.completed == batch.completed && incomplete.stage
                == BatchStage::Settling((index + 1) as usize)
            &&& printed.first_error == Some(
                ErrorView::Io { context: "could not write download output"@, source },
            ) && printed.stage is Done
        }),
        ({
            let blamed = BatchView {
                first_error: Some(error),
                stage: BatchStage::Settling(index),
                ..batch
            };
            accepted(blamed, BatchEventView::Incomplete { report: Ok(()) }) == (BatchView {
                stage: BatchStage::Settling((index + 1) as usize),
                ..blamed
            })
        }),
{
}

/// An error of the workers ends their phase like a failure of the phase itself.
pub proof fn lemma_errors_of_workers_end_their_phase(
    batch: BatchView,
    error: ErrorView,
    other: ErrorView,
)
    requires
        batch.first_error is None,
        batch.phase_error == Some(error),
        batch.stage is Ranging || batch.stage is Fulling,
    ensures
        ({
            let after = accepted(batch, BatchEventView::PhaseEnded(Ok(())));
            &&& after.first_error == Some(error)
            &&& after.phase_error is None
            &&& after.stage == BatchStage::Settling(0)
            &&& accepted(batch, BatchEventView::PhaseEnded(Err(other))).first_error == Some(other)
        }),
{
}

/// An error that could not be reported is worded with the error of reporting it behind it.
pub proof fn lemma_unreported_errors_are_joined(error: ErrorView, second: ErrorView)
    ensures
        with_report(error, Ok(())) == error,
        with_report(error, Err(second)).wording() == error.wording() + "; additionally "@
            + second.wording(),
{
}

/// While workers run, progress and a worker that ends well change nothing and stop nobody.
/// Everything else stops them and is kept as their error, unless there was one before; a
/// failure of a file marks that file and no other.
pub proof fn lemma_workers_go_on_without_failures(
    batch: BatchView,
    index: nat,
    error: ErrorView,
    source: IoFailureView,
)
    requires
        batch.phase_error is None,
    ensures
        observed(batch, PhaseEventView::Advanced(Ok(()))) == (batch, false),
        observed(batch, PhaseEventView::WorkerEnded(Ok(()))) == (batch, false),
        observed(batch, PhaseEventView::Advanced(Err(error))) == (
            BatchView { phase_error: Some(error), ..batch },
            true,
        ),
        observed(batch, PhaseEventView::WorkerEnded(Err(error))) == (
            BatchView { phase_error: Some(error), ..batch },
            true,
        ),
        observed(batch, PhaseEventView::SpawnFailed(source)) == (
            BatchView {
                phase_error: Some(
                    ErrorView::Io { context: "could not start download worker"@, source },
                ),
                ..batch
            },
            true,
        ),
        observed(batch, PhaseEventView::WorkerLost) == (
            BatchView {
                phase_error: Some(
                    ErrorView::Message("download worker terminated unexpectedly"@),
                ),
                ..batch
            },
            true,
        ),
        index < batch.failed.len() ==> observed(
            batch,
            PhaseEventView::Failed { index, error, report: Ok(()) },
        ) == (
            BatchView {
                phase_error: Some(error),
                failed: batch.failed.update(index as int, true),
                ..batch
            },
            true,
        ),
        index >= batch.failed.len() ==> observed(
            batch,
            PhaseEventView::Failed { index, error, report: Ok(()) },
        ) == (
            BatchView {
                phase_error: Some(ErrorView::Message("download failure index is out of range"@)),
                ..batch
            },
            true,
        ),
{
}

/// A batch takes every answer to its action on a file or on a phase, and nothing once it is
/// done.
pub proof fn lemma_every_answer_is_taken(batch: BatchView, event: BatchEventView)
    ensures
        (batch.stage matches BatchStage::Starting(index) && index < batch.paths.len() ==> (awaits(
            batch,
            event,
        ) <==> event is Started)),
        batch.stage is Ranging || batch.stage is Fulling ==> (awaits(batch, event)
            <==> event is PhaseEnded),
        (batch.stage matches BatchStage::Restarting(index) && index < batch.paths.len() ==> (
        awaits(batch, event) <==> event is Kept || event is Restarted || event is RestartFailed)),
        (batch.stage matches BatchStage::Settling(index) && index < batch.paths.len() ==> (awaits(
            batch,
            event,
        ) <==> event is Installed || event is InstallFailed || event is Incomplete)),
        (batch.stage matches BatchStage::Printing(index) && index < batch.paths.len() ==> (awaits(
            batch,
            event,
        ) <==> event is Printed)),
        batch.stage is Done ==> !awaits(batch, event),
{
}

} // verus!
