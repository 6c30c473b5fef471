//! Storing the body of a response, with checkpoints on the way.
//!
//! The writer decides; its caller reads, writes and saves, and hands back what came
//! of it.
use crate::download::ranges;
use crate::download::resume;
use crate::download::resume::ResumeView;
use crate::error;
use crate::error::{
    detailed_io, merge_results, message_error, AppError, AppResult, ErrorView, IoFailure,
    IoFailureView,
};
use crate::text;
use crate::text::{debug_of, decimal_text};
use vstd::prelude::*;

verus! {

/// How many bytes are read at once.
pub const COPY_BUFFER_SIZE: usize = 65_536;

/// After how many bytes a checkpoint is made.
pub const CHECKPOINT_BYTES: u64 = 8_388_608;

/// What the writer's caller does next.
#[derive(Debug)]
#[allow(inconsistent_fields)]
pub enum WriterAction {
    /// Read at most `limit` bytes of the response.
    Read { limit: usize },
    /// Write the `length` bytes that were read.
    Write { length: usize },
    /// Count `length` bytes as received and report the progress.
    Report { length: u64 },
    /// Make the bytes before `position` durable and record the position.
    Checkpoint { position: u64 },
    /// Nothing: this is the result.
    Finish { outcome: AppResult<()> },
}

/// The value of a [`WriterAction`].
#[allow(inconsistent_fields)]
pub enum WriterActionView {
    Read { limit: nat },
    Write { length: nat },
    Report { length: nat },
    Checkpoint { position: nat },
    Finish { outcome: Result<(), ErrorView> },
}

impl View for WriterAction {
    type V = WriterActionView;

    open spec fn view(&self) -> WriterActionView {
        match self {
            WriterAction::Read { limit } => WriterActionView::Read { limit: *limit as nat },
            WriterAction::Write { length } => WriterActionView::Write { length: *length as nat },
            WriterAction::Report { length } => WriterActionView::Report {
                length: *length as nat,
            },
            WriterAction::Checkpoint { position } => WriterActionView::Checkpoint {
                position: *position as nat,
            },
            WriterAction::Finish { outcome } => WriterActionView::Finish {
                outcome: error::outcome(*outcome),
            },
        }
    }
}

/// What came of an action.
#[derive(Debug)]
pub enum WriterEvent {
    /// So many bytes were read; none when the response is at its end.
    Read(usize),
    ReadFailed(IoFailure),
    Written,
    WriteFailed(IoFailure),
    Reported,
    /// The bytes could not be counted.
    CountFailed(AppError),
    /// The progress could not be reported.
    ReportFailed(AppError),
    Checkpointed(AppResult<()>),
}

/// The value of a [`WriterEvent`].
pub enum WriterEventView {
    Read(nat),
    ReadFailed(IoFailureView),
    Written,
    WriteFailed(IoFailureView),
    Reported,
    CountFailed(ErrorView),
    ReportFailed(ErrorView),
    Checkpointed(Result<(), ErrorView>),
}

impl View for WriterEvent {
    type V = WriterEventView;

    open spec fn view(&self) -> WriterEventView {
        match self {
            WriterEvent::Read(count) => WriterEventView::Read(*count as nat),
            WriterEvent::ReadFailed(failure) => WriterEventView::ReadFailed(failure@),
            WriterEvent::Written => WriterEventView::Written,
            WriterEvent::WriteFailed(failure) => WriterEventView::WriteFailed(failure@),
            WriterEvent::Reported => WriterEventView::Reported,
            WriterEvent::CountFailed(error) => WriterEventView::CountFailed(error@),
            WriterEvent::ReportFailed(error) => WriterEventView::ReportFailed(error@),
            WriterEvent::Checkpointed(result) => WriterEventView::Checkpointed(
                error::outcome(*result),
            ),
        }
    }
}

/// What the writer waits for.
#[derive(Debug)]
#[allow(inconsistent_fields)]
enum Stage {
    Reading { limit: usize },
    Writing { length: usize },
    Reporting,
    Saving,
    Probing,
    Closing { outcome: AppResult<()>, position: u64 },
    Finished,
}

/// What the writer waits for: bytes, the end of a write, of a report, of a
/// checkpoint, the end of the response, the last checkpoint, or nothing.
#[allow(inconsistent_fields)]
pub enum StageView {
    Reading { limit: nat },
    Writing { length: nat },
    Reporting,
    Saving,
    Probing,
    Closing { outcome: Result<(), ErrorView>, position: nat },
    Finished,
}

impl View for Stage {
    type V = StageView;

    closed spec fn view(&self) -> StageView {
        match self {
            Stage::Reading { limit } => StageView::Reading { limit: *limit as nat },
            Stage::Writing { length } => StageView::Writing { length: *length as nat },
            Stage::Reporting => StageView::Reporting,
            Stage::Saving => StageView::Saving,
            Stage::Probing => StageView::Probing,
            Stage::Closing { outcome, position } => StageView::Closing {
                outcome: error::outcome(*outcome),
                position: *position as nat,
            },
            Stage::Finished => StageView::Finished,
        }
    }
}

/// Stores the bytes `start..=end` of a file as a response delivers them.
#[derive(Debug)]
pub struct RangeWriter {
    remote_path: String,
    start: u64,
    end: u64,
    next: u64,
    checkpointed: u64,
    observe_fallback: bool,
    stage: Stage,
}

/// The value of a [`RangeWriter`].
pub struct RangeWriterView {
    pub path: Seq<char>,
    pub start: nat,
    pub end: nat,
    /// The offset behind the last byte that was written.
    pub next: nat,
    /// The offset up to which a checkpoint was made on the way.
    pub checkpointed: nat,
    /// Whether the writer gives way when the whole file is to be requested.
    pub observes: bool,
    pub stage: StageView,
}

impl View for RangeWriter {
    type V = RangeWriterView;

    closed spec fn view(&self) -> RangeWriterView {
        RangeWriterView {
            path: self.remote_path@,
            start: self.start as nat,
            end: self.end as nat,
            next: self.next as nat,
            checkpointed: self.checkpointed as nat,
            observes: self.observe_fallback,
            stage: self.stage@,
        }
    }
}

impl RangeWriterView {
    /// Whether the positions agree: checkpoints never run ahead of the bytes written, none
    /// is made on the way at the end of the range, and nothing is written behind the range.
    /// A writer that starts behind its range has nothing to write and stays there.
    pub open spec fn is_placed(self) -> bool {
        &&& self.start <= self.checkpointed <= self.next
        &&& self.next <= self.end + 1 || self.next == self.start
        &&& self.checkpointed <= self.end || self.start > self.end
        &&& self.end < u64::MAX
    }

    /// Besides, nothing is read or written behind the range, and success is only near when
    /// the range is complete or the writer gave way.
    pub open spec fn well_formed(self) -> bool {
        &&& self.is_placed()
        &&& match self.stage {
            StageView::Reading { limit } => 0 < limit <= COPY_BUFFER_SIZE && limit <= self.end + 1
                - self.next,
            StageView::Writing { length } => 0 < length <= self.end + 1 - self.next,
            StageView::Saving => self.next <= self.end,
            StageView::Probing => self.next > self.end,
            StageView::Closing { outcome, position } => {
                &&& position == self.next || position == self.checkpointed
                &&& outcome is Ok ==> position == self.next && (self.next > self.end
                    || self.observes)
            },
            _ => true,
        }
    }
}

/// Whether an event can come of the action that the writer waits for.
pub open spec fn expects(writer: RangeWriterView, event: WriterEventView) -> bool {
    match writer.stage {
        StageView::Reading { limit } => match event {
            WriterEventView::Read(count) => count <= limit,
            WriterEventView::ReadFailed(_) => true,
            _ => false,
        },
        StageView::Writing { .. } => event is Written || event is WriteFailed,
        StageView::Reporting => event is Reported || event is CountFailed || event is ReportFailed,
        StageView::Saving => event is Checkpointed,
        StageView::Probing => event is Read || event is ReadFailed,
        StageView::Closing { .. } => event is Checkpointed,
        StageView::Finished => false,
    }
}

/// The writer that makes a last checkpoint at `position` before it ends.
pub open spec fn closing(
    writer: RangeWriterView,
    outcome: Result<(), ErrorView>,
    position: nat,
) -> (RangeWriterView, WriterActionView) {
    (
        RangeWriterView { stage: StageView::Closing { outcome, position }, ..writer },
        WriterActionView::Checkpoint { position },
    )
}

/// The writer that has ended.
pub open spec fn finished(writer: RangeWriterView, outcome: Result<(), ErrorView>) -> (
    RangeWriterView,
    WriterActionView,
) {
    (
        RangeWriterView { stage: StageView::Finished, ..writer },
        WriterActionView::Finish { outcome },
    )
}

/// How many bytes are read at once when so many are missing.
pub open spec fn read_limit(missing: int) -> nat {
    if missing < COPY_BUFFER_SIZE {
        missing as nat
    } else {
        COPY_BUFFER_SIZE as nat
    }
}

/// The next thing to read: bytes of the range, or the end of the response behind it.
/// When the whole file is to be requested, a writer that observes this gives way.
pub open spec fn continued(writer: RangeWriterView, fallback: bool) -> (
    RangeWriterView,
    WriterActionView,
) {
    if writer.next > writer.end {
        (
            RangeWriterView { stage: StageView::Probing, ..writer },
            WriterActionView::Read { limit: 1 },
        )
    } else if writer.observes && fallback {
        closing(writer, Ok(()), writer.next)
    } else {
        let limit = read_limit(writer.end + 1 - writer.next);
        (
            RangeWriterView { stage: StageView::Reading { limit }, ..writer },
            WriterActionView::Read { limit },
        )
    }
}

/// The message for a response that ended too early.
pub open spec fn truncation(writer: RangeWriterView) -> Seq<char> {
    "downloaded range for "@ + text::debug_text(writer.path) + " was truncated at byte "@
        + text::decimal(writer.next) + "; expected through byte "@ + text::decimal(writer.end)
}

/// The message for a response that did not end.
pub open spec fn excess(writer: RangeWriterView) -> Seq<char> {
    "downloaded range for "@ + text::debug_text(writer.path) + " exceeded requested end byte "@
        + text::decimal(writer.end)
}

/// An error of the operating system in a context that names the file.
pub open spec fn io_error(lead: Seq<char>, path: Seq<char>, source: IoFailureView) -> ErrorView {
    ErrorView::Io { context: lead + text::debug_text(path), source }
}

/// What the writer does after an event.
pub open spec fn stepped(writer: RangeWriterView, event: WriterEventView, fallback: bool) -> (
    RangeWriterView,
    WriterActionView,
) {
    match (writer.stage, event) {
        (StageView::Reading { .. }, WriterEventView::Read(count)) => if count == 0 {
            closing(writer, Err(ErrorView::Message(truncation(writer))), writer.next)
        } else {
            (
                RangeWriterView { stage: StageView::Writing { length: count }, ..writer },
                WriterActionView::Write { length: count },
            )
        },
        (StageView::Reading { .. }, WriterEventView::ReadFailed(failure)) => closing(
            writer,
            Err(io_error("could not read downloaded file "@, writer.path, failure)),
            writer.next,
        ),
        (StageView::Writing { length }, WriterEventView::Written) => (
            RangeWriterView {
                next: writer.next + length,
                stage: StageView::Reporting,
                ..writer
            },
            WriterActionView::Report { length },
        ),
        (StageView::Writing { .. }, WriterEventView::WriteFailed(failure)) => closing(
            writer,
            Err(io_error("could not write downloaded file "@, writer.path, failure)),
            writer.next,
        ),
        (StageView::Reporting, WriterEventView::CountFailed(error)) => finished(
            writer,
            Err(error),
        ),
        (StageView::Reporting, WriterEventView::ReportFailed(error)) => closing(
            writer,
            Err(error),
            writer.next,
        ),
        (StageView::Reporting, WriterEventView::Reported) => if writer.next <= writer.end
            && writer.next - writer.checkpointed >= CHECKPOINT_BYTES {
            (
                RangeWriterView { stage: StageView::Saving, ..writer },
                WriterActionView::Checkpoint { position: writer.next },
            )
        } else {
            continued(writer, fallback)
        },
        (StageView::Saving, WriterEventView::Checkpointed(result)) => match result {
            Err(error) => finished(writer, Err(error)),
            Ok(()) => continued(
                RangeWriterView { checkpointed: writer.next, ..writer },
                fallback,
            ),
        },
        (StageView::Probing, WriterEventView::Read(count)) => if count == 0 {
            closing(writer, Ok(()), writer.next)
        } else {
            closing(writer, Err(ErrorView::Message(excess(writer))), writer.checkpointed)
        },
        (StageView::Probing, WriterEventView::ReadFailed(failure)) => closing(
            writer,
            Err(io_error("could not finish downloaded file "@, writer.path, failure)),
            writer.checkpointed,
        ),
        (StageView::Closing { outcome, .. }, WriterEventView::Checkpointed(result)) => finished(
            writer,
            error::merged(outcome, result),
        ),
        _ => (writer, WriterActionView::Finish { outcome: Ok(()) }),
    }
}

impl RangeWriter {
    /// A writer for the bytes `start..=end` of a file, of which there are none when `start`
    /// lies behind `end`. It gives way to a request for the whole file when
    /// `observe_fallback` is set.
    pub fn new(remote_path: &str, start: u64, end: u64, observe_fallback: bool) -> (res: AppResult<
        Self,
    >)
        ensures
            match res {
                Ok(writer) => {
                    &&& end < u64::MAX
                    &&& writer@.well_formed()
                    &&& writer@ == (RangeWriterView {
                        path: remote_path@,
                        start: start as nat,
                        end: end as nat,
                        next: start as nat,
                        checkpointed: start as nat,
                        observes: observe_fallback,
                        stage: StageView::Reporting,
                    })
                },
                Err(error) => end == u64::MAX && error::says(error, "download range exceeds u64"@),
            },
    {
        if end == u64::MAX {
            return Err(message_error("download range exceeds u64"));
        }
        Ok(
            RangeWriter {
                remote_path: remote_path.to_owned(),
                start,
                end,
                next: start,
                checkpointed: start,
                observe_fallback,
                stage: Stage::Reporting,
            },
        )
    }

    /// The first action.
    pub fn begin(&mut self, fallback: bool) -> (res: WriterAction)
        requires
            old(self)@.well_formed(),
        ensures
            (final(self)@, res@) == continued(old(self)@, fallback),
            final(self)@.well_formed(),
    {
        self.resume(fallback)
    }

    /// The action that follows an event.
    pub fn step(&mut self, event: WriterEvent, fallback: bool) -> (res: WriterAction)
        requires
            old(self)@.well_formed(),
            expects(old(self)@, event@),
        ensures
            (final(self)@, res@) == stepped(old(self)@, event@, fallback),
            final(self)@.well_formed(),
    {
        let mut stage = Stage::Finished;
        std::mem::swap(&mut stage, &mut self.stage);
        match (stage, event) {
            (Stage::Reading { .. }, WriterEvent::Read(count)) => {
                if count == 0 {
                    let error = self.truncation_error();
                    let position = self.next;
                    self.close(Err(error), position)
                } else {
                    self.stage = Stage::Writing { length: count };
                    WriterAction::Write { length: count }
                }
            },
            (Stage::Reading { .. }, WriterEvent::ReadFailed(failure)) => {
                let error = detailed_io(
                    "could not read downloaded file ",
                    &debug_of(&self.remote_path),
                    failure,
                );
                let position = self.next;
                self.close(Err(error), position)
            },
            (Stage::Writing { length }, WriterEvent::Written) => {
                self.next = self.next + length as u64;
                self.stage = Stage::Reporting;
                WriterAction::Report { length: length as u64 }
            },
            (Stage::Writing { .. }, WriterEvent::WriteFailed(failure)) => {
                let error = detailed_io(
                    "could not write downloaded file ",
                    &debug_of(&self.remote_path),
                    failure,
                );
                let position = self.next;
                self.close(Err(error), position)
            },
            (Stage::Reporting, WriterEvent::CountFailed(error)) => WriterAction::Finish {
                outcome: Err(error),
            },
            (Stage::Reporting, WriterEvent::ReportFailed(error)) => {
                let position = self.next;
                self.close(Err(error), position)
            },
            (Stage::Reporting, WriterEvent::Reported) => {
                if self.next <= self.end && self.next - self.checkpointed >= CHECKPOINT_BYTES {
                    self.stage = Stage::Saving;
                    WriterAction::Checkpoint { position: self.next }
                } else {
                    self.resume(fallback)
                }
            },
            (Stage::Saving, WriterEvent::Checkpointed(result)) => match result {
                Err(error) => WriterAction::Finish { outcome: Err(error) },
                Ok(()) => {
                    self.checkpointed = self.next;
                    self.resume(fallback)
                },
            },
            (Stage::Probing, WriterEvent::Read(count)) => {
                if count == 0 {
                    let position = self.next;
                    self.close(Ok(()), position)
                } else {
                    let error = self.excess_error();
                    let position = self.checkpointed;
                    self.close(Err(error), position)
                }
            },
            (Stage::Probing, WriterEvent::ReadFailed(failure)) => {
                let error = detailed_io(
                    "could not finish downloaded file ",
                    &debug_of(&self.remote_path),
                    failure,
                );
                let position = self.checkpointed;
                self.close(Err(error), position)
            },
            (Stage::Closing { outcome, .. }, WriterEvent::Checkpointed(result)) => {
                WriterAction::Finish { outcome: merge_results(outcome, result) }
            },
            _ => WriterAction::Finish { outcome: Ok(()) },
        }
    }

    fn resume(&mut self, fallback: bool) -> (res: WriterAction)
        requires
            old(self)@.is_placed(),
        ensures
            (final(self)@, res@) == continued(old(self)@, fallback),
            final(self)@.well_formed(),
    {
        if self.next > self.end {
            self.stage = Stage::Probing;
            return WriterAction::Read { limit: 1 };
        }
        if self.observe_fallback && fallback {
            let position = self.next;
            return self.close(Ok(()), position);
        }
        let missing = self.end + 1 - self.next;
        let limit = if missing < COPY_BUFFER_SIZE as u64 {
            missing as usize
        } else {
            COPY_BUFFER_SIZE
        };
        self.stage = Stage::Reading { limit };
        WriterAction::Read { limit }
    }

    fn close(&mut self, outcome: AppResult<()>, position: u64) -> (res: WriterAction)
        requires
            old(self)@.is_placed(),
            position == old(self)@.next || position == old(self)@.checkpointed,
            outcome is Ok ==> position == old(self)@.next && (old(self)@.next > old(self)@.end
                || old(self)@.observes),
        ensures
            (final(self)@, res@) == closing(
                old(self)@,
                error::outcome(outcome),
                position as nat,
            ),
            final(self)@.well_formed(),
    {
        self.stage = Stage::Closing { outcome, position };
        WriterAction::Checkpoint { position }
    }

    fn truncation_error(&self) -> (res: AppError)
        ensures
            res@ == ErrorView::Message(truncation(self@)),
    {
        let mut message = "downloaded range for ".to_owned();
        message.append(&debug_of(&self.remote_path));
        message.append(" was truncated at byte ");
        message.append(&decimal_text(self.next));
        message.append("; expected through byte ");
        message.append(&decimal_text(self.end));
        AppError::message(message)
    }

    fn excess_error(&self) -> (res: AppError)
        ensures
            res@ == ErrorView::Message(excess(self@)),
    {
        let mut message = "downloaded range for ".to_owned();
        message.append(&debug_of(&self.remote_path));
        message.append(" exceeded requested end byte ");
        message.append(&decimal_text(self.end));
        AppError::message(message)
    }
}

// ---------------------------------------------------------------------------
// Laws
// ---------------------------------------------------------------------------

/// A writer ends in success only when it wrote every byte of its range, saw the end
/// of the response behind them and made a checkpoint there, or gave way to a request
/// for the whole file.
pub proof fn lemma_success_means_all_bytes(
    writer: RangeWriterView,
    event: WriterEventView,
    fallback: bool,
)
    requires
        writer.well_formed(),
        expects(writer, event),
        stepped(writer, event, fallback).1 == (WriterActionView::Finish { outcome: Ok(()) }),
    ensures
        event == WriterEventView::Checkpointed(Ok(())),
        writer.stage matches StageView::Closing { outcome, position } && outcome is Ok && position
            == writer.next,
        writer.next > writer.end || writer.observes,
        writer.start <= writer.end + 1 ==> writer.next == writer.end + 1 || writer.observes,
{
}

/// A writer comes near success only from the end of the response behind the last byte of
/// the range, right behind it unless the writer started further on, or from giving way.
pub proof fn lemma_success_needs_the_end_of_the_response(
    writer: RangeWriterView,
    event: WriterEventView,
    fallback: bool,
)
    requires
        writer.well_formed(),
        expects(writer, event),
        stepped(writer, event, fallback).0.stage matches StageView::Closing { outcome, .. }
            && outcome is Ok,
    ensures
        (writer.stage is Probing && event == WriterEventView::Read(0) && writer.next
            > writer.end) || (writer.observes && fallback),
        writer.start <= writer.end + 1 && !(writer.observes && fallback) ==> writer.next
            == writer.end + 1,
{
}

/// The position moves exactly by the bytes that were written.
pub proof fn lemma_position_counts_written_bytes(
    writer: RangeWriterView,
    event: WriterEventView,
    fallback: bool,
)
    requires
        writer.well_formed(),
        expects(writer, event),
    ensures
        ({
            let after = stepped(writer, event, fallback).0;
            match (writer.stage, event) {
                (StageView::Writing { length }, WriterEventView::Written) => after.next
                    == writer.next + length,
                _ => after.next == writer.next,
            }
        }),
{
}

/// A checkpoint records only bytes that were written, and never goes back.
pub proof fn lemma_checkpoints_cover_written_bytes(
    writer: RangeWriterView,
    event: WriterEventView,
    fallback: bool,
)
    requires
        writer.well_formed(),
        expects(writer, event),
    ensures
        stepped(writer, event, fallback).1 matches WriterActionView::Checkpoint { position }
            ==> writer.checkpointed <= position <= stepped(writer, event, fallback).0.next,
        writer.checkpointed <= stepped(writer, event, fallback).0.checkpointed,
{
}

/// A checkpoint that a writer asks for is recorded: while the range in the metadata stands
/// where the writer last saved it, and the writer did not start further on than right
/// behind the range, the position fits into the range, and the range then stands there.
pub proof fn lemma_checkpoints_are_recorded(
    writer: RangeWriterView,
    event: WriterEventView,
    fallback: bool,
    metadata: ResumeView,
    index: nat,
    etag: Option<Seq<char>>,
)
    requires
        writer.well_formed(),
        writer.start <= writer.end + 1,
        expects(writer, event),
        index < metadata.ranges.len(),
        metadata.ranges[index as int].end == writer.end,
        metadata.ranges[index as int].next <= writer.checkpointed,
    ensures
        stepped(writer, event, fallback).1 matches WriterActionView::Checkpoint { position } ==> {
            let (after, result) = resume::checkpointed(
                metadata,
                index,
                position as u64,
                etag,
                writer.path,
            );
            &&& after.ranges[index as int].next == position
            &&& result is Ok <==> !resume::validator_changed(metadata.etag, etag)
        },
{
}

/// After a response that did not end behind the range, or whose end could not be seen,
/// the range stays incomplete: the last checkpoint is made before its end, and what is
/// recorded still misses bytes.
pub proof fn lemma_overlong_response_leaves_the_range_incomplete(
    writer: RangeWriterView,
    event: WriterEventView,
    fallback: bool,
    metadata: ResumeView,
    index: nat,
    etag: Option<Seq<char>>,
)
    requires
        writer.well_formed(),
        writer.start <= writer.end,
        writer.stage is Probing,
        expects(writer, event),
        event != WriterEventView::Read(0),
        index < metadata.ranges.len(),
        metadata.ranges[index as int].end == writer.end,
        metadata.ranges[index as int].next <= writer.checkpointed,
    ensures
        stepped(writer, event, fallback).1 matches WriterActionView::Checkpoint { position } && {
            let after = resume::checkpointed(
                metadata,
                index,
                position as u64,
                etag,
                writer.path,
            ).0;
            &&& position <= writer.end
            &&& after.ranges[index as int].next <= after.ranges[index as int].end
            &&& !ranges::complete(after.ranges)
        },
{
    let position = writer.checkpointed;
    let after = resume::checkpointed(metadata, index, position as u64, etag, writer.path).0;
    assert(after.ranges[index as int].next == position);
    if ranges::complete(after.ranges) {
        assert(after.ranges[index as int].next == after.ranges[index as int].end + 1);
    }
}

/// A writer reads what is missing, 65536 bytes at most at once; behind the last byte it looks
/// for the end of the response. While bytes are missing it gives way to a request for the
/// whole file if it observes one, after a checkpoint where it stands. Nothing else changes.
pub proof fn lemma_writers_read_what_is_missing(writer: RangeWriterView, fallback: bool)
    ensures
        ({
            let (after, action) = continued(writer, fallback);
            &&& after == (RangeWriterView { stage: after.stage, ..writer })
            &&& writer.next > writer.end ==> after.stage is Probing && action == (
            WriterActionView::Read { limit: 1 })
            &&& writer.next <= writer.end && writer.observes && fallback ==> {
                &&& action == (WriterActionView::Checkpoint { position: writer.next })
                &&& after.stage == (StageView::Closing { outcome: Ok(()), position: writer.next })
            }
            &&& writer.next <= writer.end && !(writer.observes && fallback) ==> {
                let limit = vstd::math::min(writer.end + 1 - writer.next, 65536) as nat;
                &&& action == (WriterActionView::Read { limit })
                &&& after.stage == (StageView::Reading { limit })
            }
        }),
{
}

/// Bytes that were read are written, all of them; bytes that were written are counted and
/// move the position by as many. Nothing else changes.
pub proof fn lemma_what_is_read_is_written_and_counted(
    writer: RangeWriterView,
    limit: nat,
    count: nat,
    fallback: bool,
)
    requires
        count > 0,
    ensures
        ({
            let reading = RangeWriterView { stage: StageView::Reading { limit }, ..writer };
            let (after, action) = stepped(reading, WriterEventView::Read(count), fallback);
            &&& action == (WriterActionView::Write { length: count })
            &&& after == (RangeWriterView { stage: StageView::Writing { length: count }, ..writer })
        }),
        ({
            let writing = RangeWriterView { stage: StageView::Writing { length: count }, ..writer };
            let (after, action) = stepped(writing, WriterEventView::Written, fallback);
            &&& action == (WriterActionView::Report { length: count })
            &&& after == (RangeWriterView {
                next: writer.next + count,
                stage: StageView::Reporting,
                ..writer
            })
        }),
{
}

/// A checkpoint is made on the way once eight mebibytes were written since the last one and
/// bytes are missing; from then on the next one is counted from there. Otherwise the writer
/// goes on at once.
pub proof fn lemma_checkpoints_are_made_every_eight_mebibytes(
    writer: RangeWriterView,
    error: ErrorView,
    fallback: bool,
)
    ensures
        ({
            let reporting = RangeWriterView { stage: StageView::Reporting, ..writer };
            let (after, action) = stepped(reporting, WriterEventView::Reported, fallback);
            let due = writer.next <= writer.end && writer.next - writer.checkpointed >= 8 * 1024
                * 1024;
            &&& due ==> action == (WriterActionView::Checkpoint { position: writer.next }) && after
                == (RangeWriterView { stage: StageView::Saving, ..writer })
            &&& !due ==> (after, action) == continued(reporting, fallback)
        }),
        ({
            let saving = RangeWriterView { stage: StageView::Saving, ..writer };
            let saved = stepped(saving, WriterEventView::Checkpointed(Ok(())), fallback);
            let failed = stepped(saving, WriterEventView::Checkpointed(Err(error)), fallback);
            &&& saved == continued(
                RangeWriterView { checkpointed: writer.next, ..saving },
                fallback,
            )
            &&& failed.1 == (WriterActionView::Finish { outcome: Err(error) })
            &&& failed.0.stage is Finished
        }),
{
}

/// A response that ends right behind the range closes with success where it stands; one that
/// goes on, or whose end cannot be seen, closes with an error where the last checkpoint was.
/// One that ends too early, or fails, closes with an error where the writer stands.
pub proof fn lemma_ends_of_responses_close_the_writer(
    writer: RangeWriterView,
    limit: nat,
    count: nat,
    failure: IoFailureView,
    fallback: bool,
)
    requires
        count > 0,
    ensures
        ({
            let probing = RangeWriterView { stage: StageView::Probing, ..writer };
            let ended = stepped(probing, WriterEventView::Read(0), fallback);
            let more = stepped(probing, WriterEventView::Read(count), fallback);
            let failed = stepped(probing, WriterEventView::ReadFailed(failure), fallback);
            &&& ended.1 == (WriterActionView::Checkpoint { position: writer.next })
            &&& ended.0.stage == (StageView::Closing { outcome: Ok(()), position: writer.next })
            &&& more.1 == (WriterActionView::Checkpoint { position: writer.checkpointed })
            &&& more.0.stage == (StageView::Closing {
                outcome: Err(
                    ErrorView::Message(
                        "downloaded range for "@ + text::debug_text(writer.path)
                            + " exceeded requested end byte "@ + text::decimal(writer.end),
                    ),
                ),
                position: writer.checkpointed,
            })
            &&& failed.1 == (WriterActionView::Checkpoint { position: writer.checkpointed })
            &&& failed.0.stage == (StageView::Closing {
                outcome: Err(
                    ErrorView::Io {
                        context: "could not finish downloaded file "@ + text::debug_text(
                            writer.path,
                        ),
                        source: failure,
                    },
                ),
                position: writer.checkpointed,
            })
        }),
        ({
            let reading = RangeWriterView { stage: StageView::Reading { limit }, ..writer };
            let early = stepped(reading, WriterEventView::Read(0), fallback);
            let failed = stepped(reading, WriterEventView::ReadFailed(failure), fallback);
            &&& early.1 == (WriterActionView::Checkpoint { position: writer.next })
            &&& early.0.stage == (StageView::Closing {
                outcome: Err(
                    ErrorView::Message(
                        "downloaded range for "@ + text::debug_text(writer.path)
                            + " was truncated at byte "@ + text::decimal(writer.next)
                            + "; expected through byte "@ + text::decimal(writer.end),
                    ),
                ),
                position: writer.next,
            })
            &&& failed.1 == (WriterActionView::Checkpoint { position: writer.next })
            &&& failed.0.stage == (StageView::Closing {
                outcome: Err(
                    ErrorView::Io {
                        context: "could not read downloaded file "@ + text::debug_text(
                            writer.path,
                        ),
                        source: failure,
                    },
                ),
                position: writer.next,
            })
        }),
{
}

/// What cannot be written or reported closes the writer with that error where it stands; what
/// cannot be counted ends it at once.
pub proof fn lemma_failures_on_the_way_close_the_writer(
    writer: RangeWriterView,
    length: nat,
    failure: IoFailureView,
    error: ErrorView,
    fallback: bool,
)
    ensures
        ({
            let writing = RangeWriterView { stage: StageView::Writing { length }, ..writer };
            let failed = stepped(writing, WriterEventView::WriteFailed(failure), fallback);
            &&& failed.1 == (WriterActionView::Checkpoint { position: writer.next })
            &&& failed.0.next == writer.next
            &&& failed.0.stage == (StageView::Closing {
                outcome: Err(
                    ErrorView::Io {
                        context: "could not write downloaded file "@ + text::debug_text(
                            writer.path,
                        ),
                        source: failure,
                    },
                ),
                position: writer.next,
            })
        }),
        ({
            let reporting = RangeWriterView { stage: StageView::Reporting, ..writer };
            let unreported = stepped(reporting, WriterEventView::ReportFailed(error), fallback);
            let uncounted = stepped(reporting, WriterEventView::CountFailed(error), fallback);
            &&& unreported.1 == (WriterActionView::Checkpoint { position: writer.next })
            &&& unreported.0.stage == (StageView::Closing {
                outcome: Err(error),
                position: writer.next,
            })
            &&& uncounted.1 == (WriterActionView::Finish { outcome: Err(error) })
            &&& uncounted.0.stage is Finished
        }),
{
}

/// A writer that closes ends with what it closes with, if the last checkpoint is made; with
/// the error of that checkpoint otherwise, behind its own if there is one.
pub proof fn lemma_closing_ends_with_the_last_checkpoint(
    writer: RangeWriterView,
    outcome: Result<(), ErrorView>,
    position: nat,
    error: ErrorView,
    fallback: bool,
)
    ensures
        ({
            let closing = RangeWriterView {
                stage: StageView::Closing { outcome, position },
                ..writer
            };
            let saved = stepped(closing, WriterEventView::Checkpointed(Ok(())), fallback);
            let failed = stepped(closing, WriterEventView::Checkpointed(Err(error)), fallback);
            &&& saved.0.stage is Finished
            &&& outcome is Ok ==> saved.1 == (WriterActionView::Finish { outcome: Ok(()) })
            &&& outcome matches Err(own) ==> saved.1 == (WriterActionView::Finish {
                outcome: Err(own),
            })
            &&& outcome is Ok ==> failed.1 == (WriterActionView::Finish { outcome: Err(error) })
            &&& outcome matches Err(own) ==> (failed.1 matches WriterActionView::Finish {
                outcome: ended,
            } && (ended matches Err(both) && both.wording() == own.wording() + "; additionally "@
                + error.wording()))
        }),
{
}

/// A range that one read can hold is stored by the bytes themselves: once they are read,
/// written and reported, and the response ends and the checkpoint behind them is made, the
/// writer has succeeded.
pub proof fn lemma_a_delivered_range_is_stored(writer: RangeWriterView, length: nat)
    requires
        0 < length <= 65536,
        writer.next + length == writer.end + 1,
        writer.checkpointed == writer.next,
    ensures
        ({
            let (first, asked) = continued(writer, false);
            let (second, _) = stepped(first, WriterEventView::Read(length), false);
            let (third, _) = stepped(second, WriterEventView::Written, false);
            let (fourth, probed) = stepped(third, WriterEventView::Reported, false);
            let (fifth, saved) = stepped(fourth, WriterEventView::Read(0), false);
            let (_, ended) = stepped(fifth, WriterEventView::Checkpointed(Ok(())), false);
            &&& asked == (WriterActionView::Read { limit: length })
            &&& probed == (WriterActionView::Read { limit: 1 })
            &&& saved == (WriterActionView::Checkpoint { position: writer.end + 1 })
            &&& ended == (WriterActionView::Finish { outcome: Ok(()) })
        }),
{
}

/// A writer takes every answer to what it asked for: bytes or a failure to a read, and no more
/// bytes than it asked for; success or a failure to a write; success or either failure to a
/// report; every outcome of a checkpoint. Once it has ended it takes nothing.
pub proof fn lemma_every_answer_is_taken(writer: RangeWriterView, event: WriterEventView)
    ensures
        (writer.stage matches StageView::Reading { limit } ==> (expects(writer, event) <==> (
        event matches WriterEventView::Read(count) && count <= limit) || event is ReadFailed)),
        writer.stage is Probing ==> (expects(writer, event) <==> event is Read
            || event is ReadFailed),
        writer.stage is Writing ==> (expects(writer, event) <==> event is Written
            || event is WriteFailed),
        writer.stage is Reporting ==> (expects(writer, event) <==> event is Reported
            || event is CountFailed || event is ReportFailed),
        writer.stage is Saving || writer.stage is Closing ==> (expects(writer, event)
            <==> event is Checkpointed),
        writer.stage is Finished ==> !expects(writer, event),
{
}

} // verus!
