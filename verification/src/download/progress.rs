//! What is reported of a download under way.
//!
//! The writer keeps the state and words the reports; its caller measures the time and
//! writes.
use crate::download::tasks;
use crate::download::tasks::{DownloadTask, DownloadTaskView};
use crate::download::units;
use crate::download::units::{format_bytes, format_transfer, Estimate, EstimateView};
use crate::error::{message_error, AppError, AppResult, ErrorView, IoFailure, IoFailureView, IoKind};
use crate::text;
use crate::text::{decimal_text, escape_owned};
use vstd::prelude::*;

verus! {

/// What a file is doing.
#[derive(Clone, Copy, Debug, PartialEq, Eq, Structural)]
pub enum TransferState {
    Downloading,
    Resuming,
    Syncing,
}

impl TransferState {
    pub open spec fn word(self) -> Seq<char> {
        match self {
            TransferState::Downloading => "downloading"@,
            TransferState::Resuming => "resuming"@,
            TransferState::Syncing => "syncing"@,
        }
    }

    pub fn as_str(self) -> (res: &'static str)
        ensures
            res@ == self.word(),
    {
        match self {
            TransferState::Downloading => "downloading",
            TransferState::Resuming => "resuming",
            TransferState::Syncing => "syncing",
        }
    }
}

/// A file under way.
#[derive(Debug)]
struct ActiveProgress {
    expected_length: Option<u64>,
    transferred: u64,
    session_start_transferred: u64,
    state: TransferState,
    estimate: Estimate,
}

/// The state of a file under way.
pub struct ActiveView {
    pub expected_length: Option<u64>,
    pub transferred: u64,
    /// The bytes that were there when the run began.
    pub session_start: u64,
    pub state: TransferState,
    pub estimate: EstimateView,
}

impl View for ActiveProgress {
    type V = ActiveView;

    closed spec fn view(&self) -> ActiveView {
        ActiveView {
            expected_length: self.expected_length,
            transferred: self.transferred,
            session_start: self.session_start_transferred,
            state: self.state,
            estimate: self.estimate@,
        }
    }
}

#[derive(Debug)]
struct ProgressFile {
    path: String,
    active: Option<ActiveProgress>,
}

/// A file of the download: how its path is shown, and its state while it is under
/// way.
pub struct ProgressFileView {
    pub path: Seq<char>,
    pub active: Option<ActiveView>,
}

impl View for ProgressFile {
    type V = ProgressFileView;

    closed spec fn view(&self) -> ProgressFileView {
        ProgressFileView {
            path: self.path@,
            active: match self.active {
                Some(active) => Some(active@),
                None => None,
            },
        }
    }
}

/// The reports of a download.
#[derive(Debug)]
pub struct ProgressWriter {
    interactive: bool,
    disabled: bool,
    rendered_lines: usize,
    files: Vec<ProgressFile>,
}

/// The value of a [`ProgressWriter`].
pub struct ProgressView {
    /// Whether the lines of the files under way are kept up to date on a terminal.
    pub interactive: bool,
    /// Whether nothing is written any more.
    pub disabled: bool,
    /// How many lines stand on the terminal.
    pub rendered_lines: nat,
    pub files: Seq<ProgressFileView>,
}

spec fn file_views(files: Seq<ProgressFile>) -> Seq<ProgressFileView> {
    files.map_values(|file: ProgressFile| file@)
}

impl View for ProgressWriter {
    type V = ProgressView;

    closed spec fn view(&self) -> ProgressView {
        ProgressView {
            interactive: self.interactive,
            disabled: self.disabled,
            rendered_lines: self.rendered_lines as nat,
            files: file_views(self.files@),
        }
    }
}

// ---------------------------------------------------------------------------
// Lines
// ---------------------------------------------------------------------------

/// The line of a file under way.
pub open spec fn file_line(
    index: nat,
    count: nat,
    state: Seq<char>,
    path: Seq<char>,
    active: ActiveView,
) -> Seq<char> {
    "["@ + text::decimal(index + 1) + "/"@ + text::decimal(count) + "] "@ + state + " "@ + path
        + " "@ + units::transfer_text(
        active.transferred,
        active.expected_length,
        active.estimate,
    )
}

/// How many files are under way.
pub open spec fn active_count(files: Seq<ProgressFileView>) -> nat
    decreases files.len(),
{
    if files.len() == 0 {
        0
    } else {
        active_count(files.drop_last()) + if files.last().active is Some {
            1nat
        } else {
            0nat
        }
    }
}

/// The lines of the files under way, with a line break between them.
pub open spec fn active_lines(files: Seq<ProgressFileView>, count: nat) -> Seq<char>
    decreases files.len(),
{
    if files.len() == 0 {
        Seq::empty()
    } else {
        let before = active_lines(files.drop_last(), count);
        match files.last().active {
            None => before,
            Some(active) => {
                let line = file_line(
                    (files.len() - 1) as nat,
                    count,
                    active.state.word(),
                    files.last().path,
                    active,
                );
                if active_count(files.drop_last()) > 0 {
                    before + "\n"@ + line
                } else {
                    line
                }
            },
        }
    }
}

/// What takes `lines` lines off the terminal.
pub open spec fn clearing(lines: nat) -> Seq<char>
    decreases lines,
{
    if lines == 0 {
        Seq::empty()
    } else if lines == 1 {
        "\r\x1b[2K"@
    } else {
        clearing((lines - 1) as nat) + "\x1b[1A\r\x1b[2K"@
    }
}

// ---------------------------------------------------------------------------
// Changes
// ---------------------------------------------------------------------------

/// Why the state of a file cannot be changed, if it cannot.
pub open spec fn inactive(progress: ProgressView, index: nat) -> Option<Seq<char>> {
    if index >= progress.files.len() {
        Some("download progress index is out of range"@)
    } else if progress.files[index as int].active is None {
        Some("download progress is not active"@)
    } else {
        None
    }
}

/// The progress with a new state of one file.
pub open spec fn with_active(
    progress: ProgressView,
    index: nat,
    active: Option<ActiveView>,
) -> ProgressView {
    ProgressView {
        files: progress.files.update(
            index as int,
            ProgressFileView { active, ..progress.files[index as int] },
        ),
        ..progress
    }
}

/// The state of a file that begins.
pub open spec fn begun(expected_length: u64, transferred: u64, estimate: EstimateView) -> ActiveView {
    ActiveView {
        expected_length: Some(expected_length),
        transferred,
        session_start: transferred,
        state: if transferred == 0 {
            TransferState::Downloading
        } else {
            TransferState::Resuming
        },
        estimate,
    }
}

/// The larger of two numbers.
pub open spec fn larger(a: u64, b: u64) -> u64 {
    if a >= b {
        a
    } else {
        b
    }
}

/// The progress after a write: it ends with the first one that fails. A reader that
/// has gone away is no error.
pub open spec fn after_write(progress: ProgressView, written: Result<(), IoFailureView>) -> (
    ProgressView,
    Result<(), ErrorView>,
) {
    match written {
        Ok(()) => (progress, Ok(())),
        Err(source) => (
            ProgressView { disabled: true, ..progress },
            if source.kind == IoKind::BrokenPipe {
                Ok(())
            } else {
                Err(ErrorView::Io { context: "could not write download progress"@, source })
            },
        ),
    }
}

/// The text that opens a download.
pub open spec fn opening(
    file_count: nat,
    total_bytes: nat,
    root: Seq<char>,
    transfer_limit: nat,
) -> Seq<char> {
    let noun = if file_count == 1 {
        "file"@
    } else {
        "files"@
    };
    let transfer_noun = if transfer_limit == 1 {
        "transfer"@
    } else {
        "transfers"@
    };
    "Downloading "@ + text::decimal(file_count) + " "@ + noun + " ("@ + units::bytes_text(
        total_bytes,
    ) + ") to "@ + text::escaped(root) + " with up to "@ + text::decimal(transfer_limit)
        + " simultaneous "@ + transfer_noun + "\n"@
}

/// The text that opens a download.
pub fn start_batch(file_count: usize, total_bytes: u64, root: &str, transfer_limit: usize) -> (res:
    String)
    ensures
        res@ == opening(
            file_count as nat,
            total_bytes as nat,
            root@,
            transfer_limit as nat,
        ),
{
    let mut out = "Downloading ".to_owned();
    out.append(&decimal_text(file_count as u64));
    out.append(" ");
    out.append(if file_count == 1 { "file" } else { "files" });
    out.append(" (");
    out.append(&format_bytes(total_bytes));
    out.append(") to ");
    out.append(&escape_owned(root));
    out.append(" with up to ");
    out.append(&decimal_text(transfer_limit as u64));
    out.append(" simultaneous ");
    out.append(if transfer_limit == 1 { "transfer" } else { "transfers" });
    out.append("\n");
    out
}

/// How many milliseconds lie between two reports of a transfer.
pub const PROGRESS_INTERVAL: u64 = 200;

/// Whether a transfer reports, so many milliseconds after its last report.
pub fn report_is_due(report_periodically: bool, elapsed: u64) -> (res: bool)
    ensures
        res == (report_periodically && elapsed >= 200),
{
    report_periodically && elapsed >= PROGRESS_INTERVAL
}

/// What is known of a file under way when its estimate is made.
#[derive(Clone, Copy, Debug)]
pub struct Measure {
    pub transferred: u64,
    /// The bytes that came in this run.
    pub session_transferred: u64,
    pub expected: Option<u64>,
}

/// What is known of a file under way.
pub open spec fn measured(active: ActiveView) -> Measure {
    Measure {
        transferred: active.transferred,
        session_transferred: if active.transferred >= active.session_start {
            (active.transferred - active.session_start) as u64
        } else {
            0
        },
        expected: active.expected_length,
    }
}

fn no_estimate() -> (res: Estimate)
    ensures
        res@ == nothing_estimated(),
{
    Estimate { percentage: "0.0".to_owned(), rate: "0 B".to_owned(), seconds_left: None }
}

/// The estimate of a file before the first one is made.
pub open spec fn nothing_estimated() -> EstimateView {
    EstimateView { percentage: "0.0"@, rate: "0 B"@, seconds_left: None }
}

/// The files of a download before any is begun.
pub open spec fn idle(tasks: Seq<DownloadTaskView>) -> Seq<ProgressFileView> {
    tasks.map_values(
        |task: DownloadTaskView|
            ProgressFileView { path: text::escaped(task.remote_path), active: None },
    )
}

impl ProgressWriter {
    pub fn new(interactive: bool, tasks: &Vec<DownloadTask>) -> (res: Self)
        ensures
            res@ == (ProgressView {
                interactive,
                disabled: false,
                rendered_lines: 0,
                files: idle(tasks::task_views(tasks@)),
            }),
    {
        let ghost all = idle(tasks::task_views(tasks@));
        let mut files: Vec<ProgressFile> = Vec::new();
        let mut i: usize = 0;
        while i < tasks.len()
            invariant
                i <= tasks@.len(),
                all == idle(tasks::task_views(tasks@)),
                file_views(files@) == all.take(i as int),
            decreases tasks@.len() - i,
        {
            let ghost before = files@;
            let file = ProgressFile { path: escape_owned(&tasks[i].remote_path), active: None };
            files.push(file);
            i = i + 1;
            proof {
                assert(file_views(files@) =~= file_views(before).push(file@));
                assert(file@ == all[i - 1]);
                assert(file_views(files@) =~= all.take(i as int));
            }
        }
        proof {
            assert(all.take(i as int) =~= all);
        }
        ProgressWriter { interactive, disabled: false, rendered_lines: 0, files }
    }

    /// Begins a file.
    pub fn started(&mut self, index: usize, expected_length: u64, transferred: u64) -> (res: AppResult<
        (),
    >)
        ensures
            if index >= old(self)@.files.len() {
                res matches Err(error) && error@ == ErrorView::Message(
                    "download progress index is out of range"@,
                ) && final(self)@ == old(self)@
            } else if old(self)@.files[index as int].active is Some {
                res matches Err(error) && error@ == ErrorView::Message(
                    "download progress started twice"@,
                ) && final(self)@ == old(self)@
            } else {
                res is Ok && final(self)@ == with_active(
                    old(self)@,
                    index as nat,
                    Some(begun(expected_length, transferred, nothing_estimated())),
                )
            },
    {
        if index >= self.files.len() {
            return Err(message_error("download progress index is out of range"));
        }
        proof {
            assert(self@.files[index as int] == self.files@[index as int]@);
        }
        if self.files[index].active.is_some() {
            return Err(message_error("download progress started twice"));
        }
        let state = if transferred == 0 {
            TransferState::Downloading
        } else {
            TransferState::Resuming
        };
        self.set_active(
            index,
            Some(
                ActiveProgress {
                    expected_length: Some(expected_length),
                    transferred,
                    session_start_transferred: transferred,
                    state,
                    estimate: no_estimate(),
                },
            ),
        );
        Ok(())
    }

    /// Begins a file anew.
    pub fn restarted(&mut self, index: usize) -> (res: AppResult<()>)
        ensures
            match inactive(old(self)@, index as nat) {
                Some(message) => res matches Err(error) && error@ == ErrorView::Message(message)
                    && final(self)@ == old(self)@,
                None => res is Ok && final(self)@ == with_active(
                    old(self)@,
                    index as nat,
                    Some(
                        ActiveView {
                            transferred: 0,
                            session_start: 0,
                            state: TransferState::Downloading,
                            ..old(self)@.files[index as int].active->0
                        },
                    ),
                ),
            },
    {
        let mut active = self.take_active(index)?;
        active.transferred = 0;
        active.session_start_transferred = 0;
        active.state = TransferState::Downloading;
        self.set_active(index, Some(active));
        proof {
            assert(self@.files =~= with_active(
                old(self)@,
                index as nat,
                Some(active@),
            ).files);
        }
        Ok(())
    }

    /// Records that a file has come to `transferred` bytes at least.
    pub fn advanced(&mut self, index: usize, transferred: u64) -> (res: AppResult<()>)
        ensures
            match inactive(old(self)@, index as nat) {
                Some(message) => res matches Err(error) && error@ == ErrorView::Message(message)
                    && final(self)@ == old(self)@,
                None => res is Ok && final(self)@ == with_active(
                    old(self)@,
                    index as nat,
                    Some(
                        ActiveView {
                            transferred: larger(
                                old(self)@.files[index as int].active->0.transferred,
                                transferred,
                            ),
                            state: TransferState::Downloading,
                            ..old(self)@.files[index as int].active->0
                        },
                    ),
                ),
            },
    {
        self.moved(index, transferred, TransferState::Downloading)
    }

    /// Records that a file is made durable.
    pub fn syncing(&mut self, index: usize, transferred: u64) -> (res: AppResult<()>)
        ensures
            match inactive(old(self)@, index as nat) {
                Some(message) => res matches Err(error) && error@ == ErrorView::Message(message)
                    && final(self)@ == old(self)@,
                None => res is Ok && final(self)@ == with_active(
                    old(self)@,
                    index as nat,
                    Some(
                        ActiveView {
                            transferred: larger(
                                old(self)@.files[index as int].active->0.transferred,
                                transferred,
                            ),
                            state: TransferState::Syncing,
                            ..old(self)@.files[index as int].active->0
                        },
                    ),
                ),
            },
    {
        self.moved(index, transferred, TransferState::Syncing)
    }

    fn moved(&mut self, index: usize, transferred: u64, state: TransferState) -> (res: AppResult<()>)
        ensures
            match inactive(old(self)@, index as nat) {
                Some(message) => res matches Err(error) && error@ == ErrorView::Message(message)
                    && final(self)@ == old(self)@,
                None => res is Ok && final(self)@ == with_active(
                    old(self)@,
                    index as nat,
                    Some(
                        ActiveView {
                            transferred: larger(
                                old(self)@.files[index as int].active->0.transferred,
                                transferred,
                            ),
                            state,
                            ..old(self)@.files[index as int].active->0
                        },
                    ),
                ),
            },
    {
        let mut active = self.take_active(index)?;
        if transferred > active.transferred {
            active.transferred = transferred;
        }
        active.state = state;
        self.set_active(index, Some(active));
        proof {
            assert(self@.files =~= with_active(
                old(self)@,
                index as nat,
                Some(active@),
            ).files);
        }
        Ok(())
    }

    /// Records what was estimated of a file.
    pub fn estimated(&mut self, index: usize, estimate: Estimate) -> (res: AppResult<()>)
        ensures
            match inactive(old(self)@, index as nat) {
                Some(message) => res matches Err(error) && error@ == ErrorView::Message(message)
                    && final(self)@ == old(self)@,
                None => res is Ok && final(self)@ == with_active(
                    old(self)@,
                    index as nat,
                    Some(
                        ActiveView {
                            estimate: estimate@,
                            ..old(self)@.files[index as int].active->0
                        },
                    ),
                ),
            },
    {
        let mut active = self.take_active(index)?;
        active.estimate = estimate;
        self.set_active(index, Some(active));
        proof {
            assert(self@.files =~= with_active(
                old(self)@,
                index as nat,
                Some(active@),
            ).files);
        }
        Ok(())
    }

    /// What is known of a file, if it is under way.
    pub fn measure(&self, index: usize) -> (res: Option<Measure>)
        ensures
            match inactive(self@, index as nat) {
                Some(_) => res is None,
                None => res == Some(measured(self@.files[index as int].active->0)),
            },
    {
        if index >= self.files.len() {
            return None;
        }
        proof {
            assert(self@.files[index as int] == self.files@[index as int]@);
        }
        match &self.files[index].active {
            Some(active) => {
                let session_transferred = if active.transferred
                    >= active.session_start_transferred {
                    active.transferred - active.session_start_transferred
                } else {
                    0
                };
                Some(
                    Measure {
                        transferred: active.transferred,
                        session_transferred,
                        expected: active.expected_length,
                    },
                )
            },
            None => None,
        }
    }

    /// How many bytes a file has come to.
    pub fn transferred(&self, index: usize) -> (res: AppResult<u64>)
        ensures
            match inactive(self@, index as nat) {
                Some(message) => res matches Err(error) && error@ == ErrorView::Message(message),
                None => res == Ok::<u64, AppError>(
                    self@.files[index as int].active->0.transferred,
                ),
            },
    {
        if index >= self.files.len() {
            return Err(message_error("download progress index is out of range"));
        }
        proof {
            assert(self@.files[index as int] == self.files@[index as int]@);
        }
        match &self.files[index].active {
            Some(active) => Ok(active.transferred),
            None => Err(message_error("download progress is not active")),
        }
    }

    /// Records how many bytes a file has come to in the end.
    pub fn concluded(&mut self, index: usize, transferred: u64) -> (res: AppResult<()>)
        ensures
            match inactive(old(self)@, index as nat) {
                Some(message) => res matches Err(error) && error@ == ErrorView::Message(message)
                    && final(self)@ == old(self)@,
                None => res is Ok && final(self)@ == with_active(
                    old(self)@,
                    index as nat,
                    Some(
                        ActiveView { transferred, ..old(self)@.files[index as int].active->0 },
                    ),
                ),
            },
    {
        let mut active = self.take_active(index)?;
        active.transferred = transferred;
        self.set_active(index, Some(active));
        proof {
            assert(self@.files =~= with_active(
                old(self)@,
                index as nat,
                Some(active@),
            ).files);
        }
        Ok(())
    }

    /// Ends a file and gives its last line.
    pub fn complete(&mut self, index: usize, state: &str) -> (res: AppResult<String>)
        ensures
            match inactive(old(self)@, index as nat) {
                Some(message) => res matches Err(error) && error@ == ErrorView::Message(message)
                    && final(self)@ == old(self)@,
                None => {
                    &&& res matches Ok(line)
                    &&& line@ == file_line(
                        index as nat,
                        old(self)@.files.len(),
                        state@,
                        old(self)@.files[index as int].path,
                        old(self)@.files[index as int].active->0,
                    ) + "\n"@
                    &&& final(self)@ == with_active(old(self)@, index as nat, None)
                },
            },
    {
        let line = self.line(index, state)?;
        self.set_active(index, None);
        Ok(line)
    }

    /// The line of a file, with its line break.
    pub fn line(&self, index: usize, state: &str) -> (res: AppResult<String>)
        ensures
            match inactive(self@, index as nat) {
                Some(message) => res matches Err(error) && error@ == ErrorView::Message(message),
                None => {
                    &&& res matches Ok(line)
                    &&& line@ == file_line(
                        index as nat,
                        self@.files.len(),
                        state@,
                        self@.files[index as int].path,
                        self@.files[index as int].active->0,
                    ) + "\n"@
                },
            },
    {
        let count = self.files.len();
        if index >= count {
            return Err(message_error("download progress index is out of range"));
        }
        proof {
            assert(self@.files[index as int] == self.files@[index as int]@);
        }
        match &self.files[index].active {
            Some(active) => {
                let mut line = line_text(index, count, state, &self.files[index].path, active);
                line.append("\n");
                Ok(line)
            },
            None => Err(message_error("download progress is not active")),
        }
    }

    /// What is written when a file has begun.
    pub fn start_report(&mut self, index: usize) -> (res: AppResult<String>)
        ensures
            if old(self)@.interactive {
                &&& res matches Ok(block)
                &&& block@ == active_lines(old(self)@.files, old(self)@.files.len())
                &&& final(self)@ == (ProgressView {
                    rendered_lines: active_count(old(self)@.files),
                    ..old(self)@
                })
            } else {
                &&& final(self)@ == old(self)@
                &&& match inactive(old(self)@, index as nat) {
                    Some(message) => res matches Err(error) && error@ == ErrorView::Message(
                        message,
                    ),
                    None => {
                        let active = old(self)@.files[index as int].active->0;
                        &&& res matches Ok(line)
                        &&& line@ == file_line(
                            index as nat,
                            old(self)@.files.len(),
                            if active.transferred == 0 {
                                "downloading"@
                            } else {
                                "resuming"@
                            },
                            old(self)@.files[index as int].path,
                            active,
                        ) + "\n"@
                    },
                }
            },
    {
        if self.interactive {
            return Ok(self.render_active());
        }
        match self.transferred(index) {
            Ok(transferred) => self.line(
                index,
                if transferred == 0 { "downloading" } else { "resuming" },
            ),
            Err(error) => Err(error),
        }
    }

    /// What is written when a file begins anew.
    pub fn restart_report(&mut self, index: usize) -> (res: AppResult<String>)
        ensures
            if old(self)@.interactive {
                &&& res matches Ok(block)
                &&& block@ == active_lines(old(self)@.files, old(self)@.files.len())
                &&& final(self)@ == (ProgressView {
                    rendered_lines: active_count(old(self)@.files),
                    ..old(self)@
                })
            } else {
                &&& final(self)@ == old(self)@
                &&& match inactive(old(self)@, index as nat) {
                    Some(message) => res matches Err(error) && error@ == ErrorView::Message(
                        message,
                    ),
                    None => {
                        &&& res matches Ok(line)
                        &&& line@ == file_line(
                            index as nat,
                            old(self)@.files.len(),
                            "restarting without ranges"@,
                            old(self)@.files[index as int].path,
                            old(self)@.files[index as int].active->0,
                        ) + "\n"@
                    },
                }
            },
    {
        if self.interactive {
            return Ok(self.render_active());
        }
        self.line(index, "restarting without ranges")
    }

    /// The lines of the files under way, which then stand on the terminal. Nothing
    /// when there is no terminal.
    pub fn render_active(&mut self) -> (res: String)
        ensures
            if old(self)@.interactive {
                &&& res@ == active_lines(old(self)@.files, old(self)@.files.len())
                &&& final(self)@ == (ProgressView {
                    rendered_lines: active_count(old(self)@.files),
                    ..old(self)@
                })
            } else {
                &&& res@ == Seq::<char>::empty()
                &&& final(self)@ == old(self)@
            },
    {
        let mut block = String::new();
        if !self.interactive {
            return block;
        }
        let ghost all = self@.files;
        let count = self.files.len();
        let mut rendered_lines: usize = 0;
        let mut i: usize = 0;
        proof {
            assert(all.len() == count);
        }
        while i < count
            invariant
                i <= count,
                count == self.files@.len(),
                count == all.len(),
                all == self@.files,
                self@ == old(self)@,
                rendered_lines <= i,
                rendered_lines == active_count(all.take(i as int)),
                block@ == active_lines(all.take(i as int), count as nat),
            decreases count - i,
        {
            proof {
                assert(all.take(i + 1).drop_last() =~= all.take(i as int));
                assert(all.take(i + 1).last() == self.files@[i as int]@);
                lemma_no_lines(all.take(i as int), count as nat);
            }
            if let Some(active) = &self.files[i].active {
                if rendered_lines > 0 {
                    block.append("\n");
                }
                let line = line_text(
                    i,
                    count,
                    active.state.as_str(),
                    &self.files[i].path,
                    active,
                );
                block.append(&line);
                rendered_lines = rendered_lines + 1;
                proof {
                    assert(block@ =~= active_lines(all.take(i + 1), count as nat));
                }
            }
            i = i + 1;
        }
        proof {
            assert(all.take(i as int) =~= all);
        }
        self.rendered_lines = rendered_lines;
        block
    }

    /// What takes the lines off the terminal.
    pub fn clear_active(&mut self) -> (res: String)
        ensures
            if old(self)@.interactive {
                &&& res@ == clearing(old(self)@.rendered_lines)
                &&& final(self)@ == (ProgressView { rendered_lines: 0, ..old(self)@ })
            } else {
                &&& res@ == Seq::<char>::empty()
                &&& final(self)@ == old(self)@
            },
    {
        if !self.interactive || self.rendered_lines == 0 {
            return String::new();
        }
        let lines = self.rendered_lines;
        let mut control = "\r\x1b[2K".to_owned();
        let mut i: usize = 1;
        while i < lines
            invariant
                1 <= i <= lines,
                control@ == clearing(i as nat),
            decreases lines - i,
        {
            control.append("\x1b[1A\r\x1b[2K");
            i = i + 1;
        }
        self.rendered_lines = 0;
        control
    }

    /// Whether a text is written at all.
    pub fn admits(&self, message: &str) -> (res: bool)
        ensures
            res == (!self@.disabled && message@.len() > 0),
    {
        !self.disabled && !message.is_empty()
    }

    /// Takes what came of a write.
    pub fn written(&mut self, result: Result<(), IoFailure>) -> (res: AppResult<()>)
        ensures
            ({
                let (after, reported) = after_write(
                    old(self)@,
                    match result {
                        Ok(()) => Ok(()),
                        Err(failure) => Err(failure@),
                    },
                );
                final(self)@ == after && crate::error::outcome(res) == reported
            }),
    {
        match result {
            Ok(()) => Ok(()),
            Err(failure) => {
                self.disabled = true;
                if failure.kind == IoKind::BrokenPipe {
                    Ok(())
                } else {
                    Err(AppError::io("could not write download progress".to_owned(), failure))
                }
            },
        }
    }

    /// Takes the state of a file out.
    fn take_active(&mut self, index: usize) -> (res: AppResult<ActiveProgress>)
        ensures
            match inactive(old(self)@, index as nat) {
                Some(message) => res matches Err(error) && error@ == ErrorView::Message(message)
                    && final(self)@ == old(self)@,
                None => res matches Ok(active) && Some(active@)
                    == old(self)@.files[index as int].active && final(self)@ == with_active(
                    old(self)@,
                    index as nat,
                    None,
                ),
            },
    {
        if index >= self.files.len() {
            return Err(message_error("download progress index is out of range"));
        }
        proof {
            assert(self@.files[index as int] == self.files@[index as int]@);
        }
        let active = self.files[index].active.take();
        proof {
            assert(self@.files =~= old(self)@.files.update(
                index as int,
                ProgressFileView { active: None, ..old(self)@.files[index as int] },
            ));
        }
        match active {
            Some(active) => Ok(active),
            None => {
                proof {
                    assert(self@.files =~= old(self)@.files);
                }
                Err(message_error("download progress is not active"))
            },
        }
    }

    fn set_active(&mut self, index: usize, active: Option<ActiveProgress>)
        requires
            index < old(self)@.files.len(),
        ensures
            final(self)@ == with_active(
                old(self)@,
                index as nat,
                match active {
                    Some(active) => Some(active@),
                    None => None,
                },
            ),
    {
        self.files[index].active = active;
        proof {
            assert(self@.files =~= with_active(
                old(self)@,
                index as nat,
                match active {
                    Some(active) => Some(active@),
                    None => None,
                },
            ).files);
        }
    }
}

fn line_text(index: usize, count: usize, state: &str, path: &str, active: &ActiveProgress) -> (res:
    String)
    requires
        index < count,
    ensures
        res@ == file_line(index as nat, count as nat, state@, path@, active@),
{
    let mut line = "[".to_owned();
    line.append(&decimal_text((index + 1) as u64));
    line.append("/");
    line.append(&decimal_text(count as u64));
    line.append("] ");
    line.append(state);
    line.append(" ");
    line.append(path);
    line.append(" ");
    line.append(&format_transfer(active.transferred, active.expected_length, &active.estimate));
    line
}

proof fn lemma_no_lines(files: Seq<ProgressFileView>, count: nat)
    ensures
        active_count(files) == 0 ==> active_lines(files, count) == Seq::<char>::empty(),
    decreases files.len(),
{
    if files.len() > 0 {
        lemma_no_lines(files.drop_last(), count);
    }
}

// ---------------------------------------------------------------------------
// Laws
// ---------------------------------------------------------------------------

/// Each state has its word.
pub proof fn lemma_words_of_states(state: TransferState)
    ensures
        state.word() == (match state {
            TransferState::Downloading => "downloading"@,
            TransferState::Resuming => "resuming"@,
            TransferState::Syncing => "syncing"@,
        }),
{
}

/// The line of a file tells its number, counted from one, among all files, its state, its
/// path and how far it has come.
pub proof fn lemma_lines_tell_number_state_path_and_progress(
    index: nat,
    count: nat,
    state: Seq<char>,
    path: Seq<char>,
    active: ActiveView,
)
    ensures
        file_line(index, count, state, path, active) == seq!['['] + text::decimal(index + 1)
            + seq!['/'] + text::decimal(count) + seq![']', ' '] + state + seq![' '] + path
            + seq![' '] + units::transfer_text(
            active.transferred,
            active.expected_length,
            active.estimate,
        ),
{
    reveal_strlit("[");
    reveal_strlit("/");
    reveal_strlit("] ");
    reveal_strlit(" ");
    assert("["@ =~= seq!['[']);
    assert("/"@ =~= seq!['/']);
    assert("] "@ =~= seq![']', ' ']);
    assert(" "@ =~= seq![' ']);
}

/// The files under way are counted, and their lines stand one below the other in their
/// order, with a line break between any two and none at the end. A file that is not under
/// way has no line.
pub proof fn lemma_files_under_way_have_one_line_each(
    files: Seq<ProgressFileView>,
    file: ProgressFileView,
    count: nat,
)
    ensures
        active_count(Seq::empty()) == 0,
        file.active is None ==> active_count(files.push(file)) == active_count(files)
            && active_lines(files.push(file), count) == active_lines(files, count),
        file.active matches Some(active) ==> {
            let line = file_line(files.len(), count, active.state.word(), file.path, active);
            &&& active_count(files.push(file)) == active_count(files) + 1
            &&& active_count(files) == 0 ==> active_lines(files.push(file), count) == line
            &&& active_count(files) > 0 ==> active_lines(files.push(file), count) == active_lines(
                files,
                count,
            ).push('\n') + line
        },
        active_count(files) <= files.len(),
    decreases files.len(),
{
    reveal_strlit("\n");
    assert("\n"@ =~= seq!['\n']);
    assert(files.push(file).drop_last() =~= files);
    if let Some(active) = file.active {
        let line = file_line(files.len(), count, active.state.word(), file.path, active);
        if active_count(files) > 0 {
            assert(active_lines(files.push(file), count) =~= active_lines(files, count).push('\n')
                + line);
        }
    }
    if files.len() > 0 {
        lemma_files_under_way_have_one_line_each(files.drop_last(), files.last(), count);
        assert(files.drop_last().push(files.last()) =~= files);
    }
}

/// One line is cleared where it stands; each further one after going up a line.
pub proof fn lemma_lines_are_cleared_upwards(lines: nat)
    ensures
        clearing(0) == Seq::<char>::empty(),
        clearing(1) == "\r\x1b[2K"@,
        lines > 0 ==> clearing(lines + 1) == clearing(lines) + "\x1b[1A"@ + "\r\x1b[2K"@,
{
    reveal_strlit("\x1b[1A\r\x1b[2K");
    reveal_strlit("\x1b[1A");
    reveal_strlit("\r\x1b[2K");
    assert("\x1b[1A\r\x1b[2K"@ =~= "\x1b[1A"@ + "\r\x1b[2K"@);
    if lines > 0 {
        assert(clearing(lines + 1) =~= clearing(lines) + "\x1b[1A"@ + "\r\x1b[2K"@);
    }
}

/// A file can be changed exactly if it is under way. A change leaves its path and all other
/// files as they are.
pub proof fn lemma_only_files_under_way_change(
    progress: ProgressView,
    index: nat,
    active: Option<ActiveView>,
)
    ensures
        inactive(progress, index) is None <==> index < progress.files.len()
            && progress.files[index as int].active is Some,
        index >= progress.files.len() ==> inactive(progress, index) == Some(
            "download progress index is out of range"@,
        ),
        index < progress.files.len() ==> {
            let after = with_active(progress, index, active);
            &&& after.files.len() == progress.files.len()
            &&& after.files[index as int].active == active
            &&& after.files[index as int].path == progress.files[index as int].path
            &&& forall|i: int|
                0 <= i < progress.files.len() && i != index ==> #[trigger] after.files[i]
                    == progress.files[i]
            &&& after.interactive == progress.interactive
            &&& after.disabled == progress.disabled
            &&& after.rendered_lines == progress.rendered_lines
        },
{
}

/// A file begins with the bytes that are there: it downloads if there are none, and resumes
/// otherwise. What comes in this run is counted from there, and progress never goes back.
pub proof fn lemma_progress_counts_from_where_it_began(
    expected: u64,
    there: u64,
    estimate: EstimateView,
    came: u64,
    other: u64,
)
    ensures
        ({
            let file = begun(expected, there, estimate);
            &&& file.expected_length == Some(expected)
            &&& file.transferred == there
            &&& there == 0 <==> file.state == TransferState::Downloading
            &&& there > 0 <==> file.state == TransferState::Resuming
            &&& measured(file).session_transferred == 0
            &&& measured(file).transferred == there
            &&& measured(file).expected == Some(expected)
            &&& there <= came ==> measured(
                ActiveView { transferred: came, ..file },
            ).session_transferred == came - there
            &&& came < there ==> measured(
                ActiveView { transferred: came, ..file },
            ).session_transferred == 0
        }),
        larger(came, other) >= came,
        larger(came, other) >= other,
        larger(came, other) == came || larger(came, other) == other,
{
}

/// A write that succeeds changes nothing. The first one that fails ends all writing, and is an
/// error unless the reader has gone away.
pub proof fn lemma_failed_writes_end_the_reports(progress: ProgressView, source: IoFailureView)
    ensures
        after_write(progress, Ok(())) == (progress, Ok::<(), ErrorView>(())),
        after_write(progress, Err(source)).0 == (ProgressView { disabled: true, ..progress }),
        source.kind == IoKind::BrokenPipe ==> after_write(progress, Err(source)).1 is Ok,
        source.kind != IoKind::BrokenPipe ==> after_write(progress, Err(source)).1 == Err::<
            (),
            ErrorView,
        >(ErrorView::Io { context: "could not write download progress"@, source }),
{
}

/// A download opens with the number of its files, their size, where they go, and how many
/// transfers there may be, each counted in the singular or the plural.
pub proof fn lemma_downloads_open_with_their_numbers(
    files: nat,
    bytes: nat,
    root: Seq<char>,
    transfers: nat,
)
    ensures
        opening(files, bytes, root, transfers) == "Downloading "@ + text::decimal(files) + (
        if files == 1 {
            " file ("@
        } else {
            " files ("@
        }) + units::bytes_text(bytes) + ") to "@ + text::escaped(root) + " with up to "@
            + text::decimal(transfers) + " simultaneous transfer"@ + (if transfers == 1 {
            Seq::empty()
        } else {
            seq!['s']
        }) + seq!['\n'],
{
    reveal_strlit(" ");
    reveal_strlit("file");
    reveal_strlit("files");
    reveal_strlit(" (");
    reveal_strlit(" file (");
    reveal_strlit(" files (");
    reveal_strlit(" simultaneous ");
    reveal_strlit(" simultaneous transfer");
    reveal_strlit("transfer");
    reveal_strlit("transfers");
    reveal_strlit("\n");
    assert(" "@ + "file"@ + " ("@ =~= " file ("@);
    assert(" "@ + "files"@ + " ("@ =~= " files ("@);
    assert(" simultaneous "@ + "transfer"@ =~= " simultaneous transfer"@);
    assert("transfers"@ =~= "transfer"@ + seq!['s']);
    assert(opening(files, bytes, root, transfers) =~= "Downloading "@ + text::decimal(files) + (
    if files == 1 {
        " file ("@
    } else {
        " files ("@
    }) + units::bytes_text(bytes) + ") to "@ + text::escaped(root) + " with up to "@
        + text::decimal(transfers) + " simultaneous transfer"@ + (if transfers == 1 {
        Seq::empty()
    } else {
        seq!['s']
    }) + seq!['\n']);
}

/// Before anything is begun, every file has its path, made printable, and none is under way.
pub proof fn lemma_no_file_is_under_way_at_first(tasks: Seq<DownloadTaskView>)
    ensures
        idle(tasks).len() == tasks.len(),
        forall|i: int|
            0 <= i < tasks.len() ==> (#[trigger] idle(tasks)[i]).path == text::escaped(
                tasks[i].remote_path,
            ) && idle(tasks)[i].active is None,
        nothing_estimated().percentage == "0.0"@,
        nothing_estimated().rate == "0 B"@,
        nothing_estimated().seconds_left is None,
{
}

} // verus!
