//! What is known of a file that is being downloaded, and what of it a later run may
//! trust.
use crate::cli::RepoType;
use crate::download::ranges;
use crate::download::response;
use crate::download::response::{
    if_range_validator, ExpectedRange, FileResponseView, RangeAnswer, RangeAnswerView,
};
use crate::download::ranges::{
    partition_ranges, ranges_are_complete, ranges_are_valid, received_bytes, repartition,
    RangeProgress,
};
use crate::download::tasks::{DownloadTask, DownloadTaskView};
use crate::error::{message_error, AppError, AppResult, ErrorView};
use crate::hub::client;
use crate::hub::client::{HubClient, HubClientView, HubRequest, HubRequestView};
use crate::text;
use crate::text::{debug_of, decimal_text, same_text};
use vstd::prelude::*;

verus! {

/// The version of the metadata that is written and understood.
pub const RESUME_VERSION: u8 = 1;

/// The metadata that is stored beside an unfinished file.
#[derive(Debug)]
pub struct ResumeMetadataV1 {
    pub version: u8,
    pub repo: String,
    pub repo_type: RepoType,
    pub commit: String,
    pub path: String,
    pub oid: String,
    pub size: u64,
    pub etag: Option<String>,
    pub ranges: Vec<RangeProgress>,
}

/// The value of a [`ResumeMetadataV1`].
pub struct ResumeView {
    pub version: u8,
    pub repo: Seq<char>,
    pub repo_type: RepoType,
    pub commit: Seq<char>,
    pub path: Seq<char>,
    pub oid: Seq<char>,
    pub size: u64,
    pub etag: Option<Seq<char>>,
    pub ranges: Seq<RangeProgress>,
}

impl View for ResumeMetadataV1 {
    type V = ResumeView;

    open spec fn view(&self) -> ResumeView {
        ResumeView {
            version: self.version,
            repo: self.repo@,
            repo_type: self.repo_type,
            commit: self.commit@,
            path: self.path@,
            oid: self.oid@,
            size: self.size,
            etag: text::optional_text(self.etag),
            ranges: self.ranges@,
        }
    }
}

/// Whether metadata speaks of the very file that a task downloads, in this version,
/// with ranges that divide it.
pub open spec fn describes(metadata: ResumeView, task: DownloadTaskView) -> bool {
    &&& metadata.version == RESUME_VERSION
    &&& metadata.repo == task.repo
    &&& metadata.repo_type == task.repo_type
    &&& metadata.commit == task.commit
    &&& metadata.path == task.remote_path
    &&& metadata.oid == task.oid
    &&& metadata.size == task.expected_length
    &&& ranges::valid_ranges(metadata.size, metadata.ranges)
}

pub fn metadata_matches(task: &DownloadTask, metadata: &ResumeMetadataV1) -> (res: bool)
    ensures
        res == describes(metadata@, task@),
{
    metadata.version == RESUME_VERSION && same_text(&metadata.repo, &task.repo)
        && metadata.repo_type == task.repo_type && same_text(&metadata.commit, &task.commit)
        && same_text(&metadata.path, &task.remote_path) && same_text(&metadata.oid, &task.oid)
        && metadata.size == task.expected_length && ranges_are_valid(
        metadata.size,
        &metadata.ranges,
    )
}

pub fn metadata_is_complete(metadata: &ResumeMetadataV1) -> (res: bool)
    ensures
        res == ranges::complete(metadata@.ranges),
{
    ranges_are_complete(&metadata.ranges)
}

/// A counted number of bytes, or the error that stands for it.
pub open spec fn counted(result: AppResult<u64>) -> Result<nat, ErrorView> {
    match result {
        Ok(total) => Ok(total as nat),
        Err(error) => Err(error@),
    }
}

/// How many bytes metadata says were received.
pub open spec fn transferred(metadata: ResumeView) -> Result<nat, ErrorView> {
    match ranges::count_received(metadata.ranges) {
        Ok(total) => Ok(total),
        Err(message) => Err(ErrorView::Message(message)),
    }
}

/// How many bytes metadata says were received.
pub fn transferred_bytes(metadata: &ResumeMetadataV1) -> (res: AppResult<u64>)
    ensures
        counted(res) == transferred(metadata@),
{
    received_bytes(&metadata.ranges)
}

/// The metadata of a file of which nothing was received.
pub open spec fn fresh(task: DownloadTaskView, jobs: usize) -> ResumeView {
    ResumeView {
        version: RESUME_VERSION,
        repo: task.repo,
        repo_type: task.repo_type,
        commit: task.commit,
        path: task.remote_path,
        oid: task.oid,
        size: task.expected_length,
        etag: None,
        ranges: ranges::initial_ranges(task.expected_length, jobs),
    }
}

/// The metadata of a file of which nothing was received.
pub fn fresh_metadata(task: &DownloadTask, jobs: usize) -> (res: AppResult<ResumeMetadataV1>)
    requires
        task@.expected_length > 0 ==> jobs > 0,
    ensures
        res matches Ok(metadata) && metadata@ == fresh(task@, jobs),
{
    match partition_ranges(task.expected_length, jobs) {
        Ok(ranges) => Ok(
            ResumeMetadataV1 {
                version: RESUME_VERSION,
                repo: task.repo.clone(),
                repo_type: task.repo_type,
                commit: task.commit.clone(),
                path: task.remote_path.clone(),
                oid: task.oid.clone(),
                size: task.expected_length,
                etag: None,
                ranges,
            },
        ),
        Err(error) => Err(error),
    }
}

/// Divides what is missing among more transfers, when there are fewer unfinished
/// ranges than transfers could work on. Tells whether the ranges changed.
pub fn repartition_unfinished_ranges(metadata: &mut ResumeMetadataV1, jobs: usize) -> (res: AppResult<
    bool,
>)
    ensures
        match ranges::repartitioned(old(metadata)@.size, old(metadata)@.ranges, jobs) {
            Ok(Some(rebuilt)) => res == Ok::<bool, AppError>(true) && final(metadata)@ == (
            ResumeView { ranges: rebuilt, ..old(metadata)@ }),
            Ok(None) => res == Ok::<bool, AppError>(false) && final(metadata)@ == old(metadata)@,
            Err(message) => res matches Err(error) && error@ == ErrorView::Message(message)
                && final(metadata)@ == old(metadata)@,
        },
{
    match repartition(metadata.size, &metadata.ranges, jobs) {
        Ok(Some(rebuilt)) => {
            metadata.ranges = rebuilt;
            Ok(true)
        },
        Ok(None) => Ok(false),
        Err(error) => Err(error),
    }
}

// ---------------------------------------------------------------------------
// Resuming
// ---------------------------------------------------------------------------

/// What was found where the metadata of a file is stored.
#[derive(Debug)]
pub enum MetadataRead {
    Missing,
    Invalid,
    Valid(ResumeMetadataV1),
}

/// The value of a [`MetadataRead`].
pub enum MetadataReadView {
    Missing,
    Invalid,
    Valid(ResumeView),
}

impl View for MetadataRead {
    type V = MetadataReadView;

    open spec fn view(&self) -> MetadataReadView {
        match self {
            MetadataRead::Missing => MetadataReadView::Missing,
            MetadataRead::Invalid => MetadataReadView::Invalid,
            MetadataRead::Valid(metadata) => MetadataReadView::Valid(metadata@),
        }
    }
}

/// The stored metadata that can be trusted: it describes the file, and the bytes
/// that it speaks of are there in full length.
pub open spec fn trusted(
    task: DownloadTaskView,
    read: MetadataReadView,
    partial: Option<u64>,
) -> Option<ResumeView> {
    match read {
        MetadataReadView::Valid(metadata) => if partial == Some(task.expected_length)
            && describes(metadata, task) {
            Some(metadata)
        } else {
            None
        },
        _ => None,
    }
}

/// Takes stored metadata if it can be trusted. The file is started anew otherwise.
pub fn trust_metadata(task: &DownloadTask, read: MetadataRead, partial: Option<u64>) -> (res: Option<
    ResumeMetadataV1,
>)
    ensures
        match res {
            Some(metadata) => trusted(task@, read@, partial) == Some(metadata@),
            None => trusted(task@, read@, partial) is None,
        },
{
    match (read, partial) {
        (MetadataRead::Valid(metadata), Some(length)) => if length == task.expected_length
            && metadata_matches(task, &metadata) {
            Some(metadata)
        } else {
            None
        },
        _ => None,
    }
}

/// Whether metadata says that the whole file was received.
pub open spec fn says_complete(task: DownloadTaskView, read: MetadataReadView) -> bool {
    match read {
        MetadataReadView::Valid(metadata) => describes(metadata, task) && ranges::complete(
            metadata.ranges,
        ),
        _ => false,
    }
}

/// Whether metadata says that the whole file was received.
pub fn is_complete_in(task: &DownloadTask, read: &MetadataRead) -> (res: bool)
    ensures
        res == says_complete(task@, read@),
{
    match read {
        MetadataRead::Valid(metadata) => metadata_matches(task, metadata) && metadata_is_complete(
            metadata,
        ),
        _ => false,
    }
}

/// Whether an earlier run installed the file and was stopped before it removed the
/// metadata: the metadata says that all was received, the partial file is gone, and
/// the destination has the length of the file.
pub open spec fn recovered(
    task: DownloadTaskView,
    read: MetadataReadView,
    partial: Option<u64>,
    destination: Option<u64>,
) -> bool {
    &&& says_complete(task, read)
    &&& partial is None
    &&& destination == Some(task.expected_length)
}

pub fn is_recovered(
    task: &DownloadTask,
    read: &MetadataRead,
    partial: Option<u64>,
    destination: Option<u64>,
) -> (res: bool)
    ensures
        res == recovered(task@, read@, partial, destination),
{
    is_complete_in(task, read) && partial.is_none() && match destination {
        Some(length) => length == task.expected_length,
        None => false,
    }
}

/// The metadata that a download goes on with.
pub open spec fn resumed(
    task: DownloadTaskView,
    read: MetadataReadView,
    partial: Option<u64>,
    jobs: usize,
) -> ResumeView {
    let base = match trusted(task, read, partial) {
        Some(metadata) => metadata,
        None => fresh(task, jobs),
    };
    match ranges::repartitioned(base.size, base.ranges, jobs) {
        Ok(Some(rebuilt)) => ResumeView { ranges: rebuilt, ..base },
        _ => base,
    }
}

/// Whatever was stored, a download goes on with metadata that describes the file.
/// What trusted metadata says was received is kept, byte for byte. Missing, invalid
/// or stale metadata restarts the file from byte zero.
pub proof fn lemma_resume_or_restart(
    task: DownloadTaskView,
    read: MetadataReadView,
    partial: Option<u64>,
    jobs: usize,
)
    requires
        trusted(task, read, partial) is None && task.expected_length > 0 ==> jobs > 0,
    ensures
        describes(resumed(task, read, partial, jobs), task),
        transferred(resumed(task, read, partial, jobs)) is Ok,
        match trusted(task, read, partial) {
            Some(metadata) => {
                &&& ranges::received(resumed(task, read, partial, jobs).ranges)
                    == ranges::received(metadata.ranges)
                &&& forall|offset: int| #[trigger]
                    ranges::lacks(resumed(task, read, partial, jobs).ranges, offset)
                        <==> ranges::lacks(metadata.ranges, offset)
            },
            None => {
                &&& ranges::received(resumed(task, read, partial, jobs).ranges) == 0
                &&& forall|offset: int| #[trigger]
                    ranges::lacks(resumed(task, read, partial, jobs).ranges, offset) <==> 0
                        <= offset < task.expected_length
            },
        },
{
    let base = match trusted(task, read, partial) {
        Some(metadata) => metadata,
        None => fresh(task, jobs),
    };
    if trusted(task, read, partial) is None {
        ranges::lemma_initial_ranges(task.expected_length, jobs);
        ranges::lemma_untouched(0, task.expected_length as int, base.ranges);
    }
    ranges::lemma_repartition_keeps_progress(base.size, base.ranges, jobs);
    ranges::lemma_valid_ranges_are_counted(base.size, resumed(task, read, partial, jobs).ranges);
}

/// A file that was divided anew has as many unfinished ranges as there are
/// transfers, or as bytes that are missing.
pub proof fn lemma_resumed_ranges_use_all_jobs(
    task: DownloadTaskView,
    read: MetadataReadView,
    partial: Option<u64>,
    jobs: usize,
)
    requires
        trusted(task, read, partial) is None && task.expected_length > 0 ==> jobs > 0,
    ensures
        ({
            let ranges = resumed(task, read, partial, jobs).ranges;
            ranges::unfinished(ranges) >= ranges::wanted(ranges, jobs)
        }),
{
    let base = match trusted(task, read, partial) {
        Some(metadata) => metadata,
        None => fresh(task, jobs),
    };
    if trusted(task, read, partial) is None {
        ranges::lemma_initial_ranges(task.expected_length, jobs);
    }
    ranges::lemma_repartition_keeps_progress(base.size, base.ranges, jobs);
}

// ---------------------------------------------------------------------------
// Checkpoints
// ---------------------------------------------------------------------------

/// Whether a response's validator contradicts the one that is known.
pub open spec fn validator_changed(known: Option<Seq<char>>, received: Option<Seq<char>>) -> bool {
    known is Some && received is Some && known != received
}

/// The metadata once a range was received up to `next`, and what is reported. A
/// changed validator is reported after the position was recorded.
pub open spec fn checkpointed(
    metadata: ResumeView,
    index: nat,
    next: u64,
    etag: Option<Seq<char>>,
    path: Seq<char>,
) -> (ResumeView, Result<(), Seq<char>>) {
    if index >= metadata.ranges.len() {
        (metadata, Err("download range index is out of bounds"@))
    } else {
        let range = metadata.ranges[index as int];
        if range.end == u64::MAX {
            (metadata, Err("download range exceeds u64"@))
        } else if next < range.next || next > range.end + 1 {
            (
                metadata,
                Err(
                    "invalid checkpoint for "@ + text::debug_text(path) + ": byte "@
                        + text::decimal(next as nat) + " is outside "@ + text::decimal(
                        range.next as nat,
                    ) + "-"@ + text::decimal((range.end + 1) as nat),
                ),
            )
        } else {
            let advanced = ResumeView {
                ranges: metadata.ranges.update(index as int, RangeProgress { next, ..range }),
                ..metadata
            };
            if validator_changed(metadata.etag, etag) {
                (
                    advanced,
                    Err(
                        "download validator changed while receiving "@ + text::debug_text(path),
                    ),
                )
            } else if metadata.etag is None {
                (ResumeView { etag, ..advanced }, Ok(()))
            } else {
                (advanced, Ok(()))
            }
        }
    }
}

/// A result whose error is a message.
pub open spec fn reported(result: Result<(), Seq<char>>) -> Result<(), ErrorView> {
    match result {
        Ok(()) => Ok(()),
        Err(message) => Err(ErrorView::Message(message)),
    }
}

fn validator_error(path: &str) -> (res: AppError)
    ensures
        res@ == ErrorView::Message(
            "download validator changed while receiving "@ + text::debug_text(path@),
        ),
{
    let mut message = "download validator changed while receiving ".to_owned();
    message.append(&debug_of(path));
    AppError::message(message)
}

impl ResumeMetadataV1 {
    /// Records that a range was received up to `next`, by a response with the
    /// validator `etag`.
    pub fn checkpoint(
        &mut self,
        range_index: usize,
        next: u64,
        etag: Option<&str>,
        remote_path: &str,
    ) -> (res: AppResult<()>)
        ensures
            ({
                let (after, result) = checkpointed(
                    old(self)@,
                    range_index as nat,
                    next,
                    text::optional_str(etag),
                    remote_path@,
                );
                final(self)@ == after && crate::error::outcome(res) == reported(result)
            }),
    {
        if range_index >= self.ranges.len() {
            return Err(message_error("download range index is out of bounds"));
        }
        let range = self.ranges[range_index];
        if range.end == u64::MAX {
            return Err(message_error("download range exceeds u64"));
        }
        let after_end = range.end + 1;
        if next < range.next || next > after_end {
            let mut message = "invalid checkpoint for ".to_owned();
            message.append(&debug_of(remote_path));
            message.append(": byte ");
            message.append(&decimal_text(next));
            message.append(" is outside ");
            message.append(&decimal_text(range.next));
            message.append("-");
            message.append(&decimal_text(after_end));
            return Err(AppError::message(message));
        }
        self.ranges.set(
            range_index,
            RangeProgress { start: range.start, next, end: range.end },
        );
        match (&self.etag, etag) {
            (Some(expected), Some(received)) => {
                if !same_text(expected, received) {
                    return Err(validator_error(remote_path));
                }
            },
            (None, Some(received)) => {
                self.etag = Some(received.to_owned());
            },
            _ => {},
        }
        Ok(())
    }
}

proof fn lemma_tile_advance(
    from: int,
    to: int,
    ranges: Seq<RangeProgress>,
    index: int,
    next: u64,
)
    requires
        ranges::tile(from, to, ranges),
        0 <= index < ranges.len(),
        ranges[index].next <= next <= ranges[index].end + 1,
    ensures
        ({
            let after = ranges.update(index, RangeProgress { next, ..ranges[index] });
            &&& ranges::tile(from, to, after)
            &&& ranges::received(after) == ranges::received(ranges) + (next - ranges[index].next)
        }),
    decreases ranges.len(),
{
    let after = ranges.update(index, RangeProgress { next, ..ranges[index] });
    if index == ranges.len() - 1 {
        assert(after.drop_last() =~= ranges.drop_last());
    } else {
        lemma_tile_advance(from, ranges.last().start as int, ranges.drop_last(), index, next);
        assert(after.drop_last() =~= ranges.drop_last().update(
            index,
            RangeProgress { next, ..ranges.drop_last()[index] },
        ));
    }
}

/// A checkpoint keeps what makes metadata trustworthy, and progress never goes back:
/// what was received stays received, and as many bytes are added as the range moved.
pub proof fn lemma_checkpoint_keeps_progress(
    metadata: ResumeView,
    index: nat,
    next: u64,
    etag: Option<Seq<char>>,
    path: Seq<char>,
)
    requires
        ranges::valid_ranges(metadata.size, metadata.ranges),
    ensures
        ({
            let (after, result) = checkpointed(metadata, index, next, etag, path);
            &&& ranges::valid_ranges(after.size, after.ranges)
            &&& ranges::received(metadata.ranges) <= ranges::received(after.ranges)
            &&& result is Ok ==> ranges::received(after.ranges) - ranges::received(
                metadata.ranges,
            ) == next - metadata.ranges[index as int].next
            &&& forall|offset: int| #[trigger]
                ranges::lacks(after.ranges, offset) ==> ranges::lacks(metadata.ranges, offset)
            &&& after.repo == metadata.repo && after.repo_type == metadata.repo_type
                && after.commit == metadata.commit && after.path == metadata.path && after.oid
                == metadata.oid && after.size == metadata.size && after.version
                == metadata.version
        }),
{
    let (after, result) = checkpointed(metadata, index, next, etag, path);
    if after.ranges != metadata.ranges {
        lemma_tile_advance(0, metadata.size as int, metadata.ranges, index as int, next);
        assert forall|offset: int| #[trigger] ranges::lacks(after.ranges, offset) implies
            ranges::lacks(metadata.ranges, offset) by {
            let i = choose|i: int|
                0 <= i < after.ranges.len() && (#[trigger] after.ranges[i]).lacks(offset);
            assert(metadata.ranges[i].lacks(offset));
        }
    } else if result is Ok {
        assert(after.ranges[index as int] == metadata.ranges[index as int]);
    }
}

// ---------------------------------------------------------------------------
// The state of one file
// ---------------------------------------------------------------------------

/// One file under way.
#[derive(Debug)]
pub struct FileTransfer {
    metadata: ResumeMetadataV1,
    transferred: u64,
    fallback: bool,
}

/// The value of a [`FileTransfer`].
pub struct FileTransferView {
    pub metadata: ResumeView,
    /// The bytes received, checkpointed or not.
    pub transferred: u64,
    /// Whether the server sends the file only as a whole.
    pub fallback: bool,
}

impl View for FileTransfer {
    type V = FileTransferView;

    closed spec fn view(&self) -> FileTransferView {
        FileTransferView {
            metadata: self.metadata@,
            transferred: self.transferred,
            fallback: self.fallback,
        }
    }
}

/// The bytes of a range that are still to be requested.
#[derive(Debug)]
pub struct PendingRange {
    pub start: u64,
    pub end: u64,
    /// The validator of the bytes that were received.
    pub etag: Option<String>,
}

impl PendingRange {
    /// What is expected of the answer.
    pub fn expected(&self, task: &DownloadTask) -> (res: ExpectedRange)
        ensures
            res == (ExpectedRange { start: self.start, end: self.end, size: task@.expected_length }),
    {
        ExpectedRange { start: self.start, end: self.end, size: task.expected_length }
    }
}

/// What is still to be requested of a range: nothing when it is complete or the
/// whole file will be requested.
pub open spec fn pending(transfer: FileTransferView, index: nat) -> Result<
    Option<(u64, u64)>,
    Seq<char>,
> {
    if transfer.fallback {
        Ok(None)
    } else if index >= transfer.metadata.ranges.len() {
        Err("download range index is out of bounds"@)
    } else {
        let range = transfer.metadata.ranges[index as int];
        if range.end == u64::MAX {
            Err("download range exceeds u64"@)
        } else if range.next > range.end {
            Ok(None)
        } else {
            Ok(Some((range.next, range.end)))
        }
    }
}

/// The request for what is missing of a range: for its bytes from the first missing one
/// on, to be answered in part only if the file is still the one that was begun. A weak
/// validator cannot ensure that and is not sent.
pub open spec fn range_request(
    transfer: FileTransferView,
    client: HubClientView,
    task: DownloadTaskView,
    index: nat,
) -> Result<Option<HubRequestView>, ErrorView> {
    match pending(transfer, index) {
        Err(message) => Err(ErrorView::Message(message)),
        Ok(None) => Ok(None),
        Ok(Some((start, end))) => match client::file_range_request(
            client,
            task.url,
            task.remote_path,
            start,
            end,
            response::strong(transfer.metadata.etag),
        ) {
            Ok(request) => Ok(Some(request)),
            Err(error) => Err(error),
        },
    }
}

/// The bytes of a whole file, if it has any.
pub open spec fn whole_range(task: DownloadTaskView) -> Option<(u64, u64)> {
    if task.expected_length == 0 {
        None
    } else {
        Some((0, (task.expected_length - 1) as u64))
    }
}

/// The request for a whole file. An empty one is not requested.
pub open spec fn whole_request(client: HubClientView, task: DownloadTaskView) -> Result<
    Option<HubRequestView>,
    ErrorView,
> {
    if whole_range(task) is None {
        Ok(None)
    } else {
        match client::file_request(client, task.url, task.remote_path) {
            Ok(request) => Ok(Some(request)),
            Err(error) => Err(error),
        }
    }
}

/// The value of a request that may not be needed, or of the error that stands for it.
pub open spec fn needed(result: AppResult<Option<HubRequest>>) -> Result<
    Option<HubRequestView>,
    ErrorView,
> {
    match result {
        Ok(Some(request)) => Ok(Some(request@)),
        Ok(None) => Ok(None),
        Err(error) => Err(error@),
    }
}

/// The bytes of a whole file, if it has any.
pub fn full_range(task: &DownloadTask) -> (res: Option<(u64, u64)>)
    ensures
        res == whole_range(task@),
{
    if task.expected_length == 0 {
        None
    } else {
        Some((0, task.expected_length - 1))
    }
}

/// The request for a whole file, if it has any bytes.
pub fn full_request(client: &HubClient, task: &DownloadTask) -> (res: AppResult<
    Option<HubRequest>,
>)
    ensures
        needed(res) == whole_request(client@, task@),
{
    if full_range(task).is_none() {
        return Ok(None);
    }
    match client.file_request_for_url(task.url.clone(), &task.remote_path) {
        Ok(request) => Ok(Some(request)),
        Err(error) => Err(error),
    }
}

/// What must hold of the metadata before a file is installed.
pub open spec fn installation_refusal(
    transfer: FileTransferView,
    task: DownloadTaskView,
) -> Option<ErrorView> {
    if !ranges::complete(transfer.metadata.ranges) {
        Some(
            ErrorView::Message(
                "cannot finalize incomplete download "@ + text::debug_text(task.remote_path),
            ),
        )
    } else {
        match transferred(transfer.metadata) {
            Err(error) => Some(error),
            Ok(total) => if total != task.expected_length {
                Some(
                    ErrorView::Message(
                        "completed download "@ + text::debug_text(task.remote_path)
                            + " covers "@ + text::decimal(total) + " bytes; expected "@
                            + text::decimal(task.expected_length as nat),
                    ),
                )
            } else if transfer.transferred != task.expected_length {
                Some(
                    ErrorView::Message(
                        "download progress for "@ + text::debug_text(task.remote_path) + " is "@
                            + text::decimal(transfer.transferred as nat) + " bytes; expected "@
                            + text::decimal(task.expected_length as nat),
                    ),
                )
            } else {
                None
            },
        }
    }
}

/// Why a partial file of the given length is not installed, if it is not.
pub open spec fn length_refusal(task: DownloadTaskView, length: Option<u64>) -> Option<Seq<char>> {
    match length {
        None => Some("completed partial download is missing"@),
        Some(length) => if length != task.expected_length {
            Some(
                "partial download "@ + text::debug_text(task.remote_path) + " has length "@
                    + text::decimal(length as nat) + "; expected "@ + text::decimal(
                    task.expected_length as nat,
                ),
            )
        } else {
            None
        },
    }
}

fn count_error(
    lead: &str,
    path: &str,
    middle: &str,
    count: u64,
    tail: &str,
    expected: u64,
) -> (res: AppError)
    ensures
        res@ == ErrorView::Message(
            lead@ + text::debug_text(path@) + middle@ + text::decimal(count as nat) + tail@
                + text::decimal(expected as nat),
        ),
{
    let mut message = lead.to_owned();
    message.append(&debug_of(path));
    message.append(middle);
    message.append(&decimal_text(count));
    message.append(tail);
    message.append(&decimal_text(expected));
    AppError::message(message)
}

impl FileTransfer {
    /// Goes on with a file from its metadata.
    pub fn new(metadata: ResumeMetadataV1) -> (res: AppResult<Self>)
        ensures
            match res {
                Ok(transfer) => transferred(metadata@) == Ok::<nat, ErrorView>(
                    transfer@.transferred as nat,
                ) && transfer@.metadata == metadata@ && !transfer@.fallback,
                Err(error) => transferred(metadata@) == Err::<nat, ErrorView>(error@),
            },
    {
        match transferred_bytes(&metadata) {
            Ok(transferred) => Ok(FileTransfer { metadata, transferred, fallback: false }),
            Err(error) => Err(error),
        }
    }

    /// What is still to be requested of a range.
    pub fn pending_range(&self, range_index: usize) -> (res: AppResult<Option<PendingRange>>)
        ensures
            match res {
                Ok(Some(range)) => pending(self@, range_index as nat) == Ok::<
                    Option<(u64, u64)>,
                    Seq<char>,
                >(Some((range.start, range.end))) && text::optional_text(range.etag)
                    == self@.metadata.etag,
                Ok(None) => pending(self@, range_index as nat) == Ok::<
                    Option<(u64, u64)>,
                    Seq<char>,
                >(None),
                Err(error) => pending(self@, range_index as nat) matches Err(message) && error@
                    == ErrorView::Message(message),
            },
    {
        if self.fallback {
            return Ok(None);
        }
        if range_index >= self.metadata.ranges.len() {
            return Err(message_error("download range index is out of bounds"));
        }
        let range = self.metadata.ranges[range_index];
        if range.end == u64::MAX {
            return Err(message_error("download range exceeds u64"));
        }
        if range.next > range.end {
            return Ok(None);
        }
        Ok(
            Some(
                PendingRange {
                    start: range.next,
                    end: range.end,
                    etag: text::clone_optional(&self.metadata.etag),
                },
            ),
        )
    }

    /// The request for what is missing of a range, if anything is to be requested.
    pub fn range_request(&self, client: &HubClient, task: &DownloadTask, range_index: usize) -> (res:
        AppResult<Option<HubRequest>>)
        ensures
            needed(res) == range_request(self@, client@, task@, range_index as nat),
    {
        match self.pending_range(range_index) {
            Err(error) => Err(error),
            Ok(None) => Ok(None),
            Ok(Some(range)) => {
                let etag = match &range.etag {
                    Some(etag) => Some(etag.as_str()),
                    None => None,
                };
                match client.file_range_request(
                    task.url.clone(),
                    &task.remote_path,
                    range.start,
                    range.end,
                    if_range_validator(etag),
                ) {
                    Ok(request) => Ok(Some(request)),
                    Err(error) => Err(error),
                }
            },
        }
    }

    /// Takes the answer to a request for a range: when the whole file came, it will be
    /// requested as a whole.
    pub fn accept_answer(&mut self, answer: &RangeAnswer)
        ensures
            final(self)@ == (FileTransferView {
                fallback: old(self)@.fallback || answer@ is Whole,
                ..old(self)@
            }),
    {
        if let RangeAnswer::Whole = answer {
            self.fallback = true;
        }
    }

    /// Records that a range was received up to `next`, by a response with the validator
    /// `etag`.
    pub fn checkpoint(
        &mut self,
        range_index: usize,
        next: u64,
        etag: Option<&str>,
        remote_path: &str,
    ) -> (res: AppResult<()>)
        ensures
            ({
                let (after, result) = checkpointed(
                    old(self)@.metadata,
                    range_index as nat,
                    next,
                    text::optional_str(etag),
                    remote_path@,
                );
                final(self)@ == (FileTransferView { metadata: after, ..old(self)@ })
                    && crate::error::outcome(res) == reported(result)
            }),
    {
        self.metadata.checkpoint(range_index, next, etag, remote_path)
    }

    pub fn metadata(&self) -> (res: &ResumeMetadataV1)
        ensures
            res@ == self@.metadata,
    {
        &self.metadata
    }

    /// The bytes received, checkpointed or not.
    pub fn transferred(&self) -> (res: u64)
        ensures
            res == self@.transferred,
    {
        self.transferred
    }

    /// Whether the server sends the file only as a whole.
    pub fn falls_back(&self) -> (res: bool)
        ensures
            res == self@.fallback,
    {
        self.fallback
    }

    /// Counts received bytes and tells how many there are now.
    pub fn advance(&mut self, read: u64) -> (res: AppResult<u64>)
        ensures
            final(self)@ == (FileTransferView {
                transferred: old(self)@.transferred.wrapping_add(read),
                ..old(self)@
            }),
            match res {
                Ok(transferred) => transferred == old(self)@.transferred + read,
                Err(error) => old(self)@.transferred + read > u64::MAX && error@
                    == ErrorView::Message("download progress exceeds u64"@),
            },
    {
        let sum = self.transferred.checked_add(read);
        self.transferred = self.transferred.wrapping_add(read);
        match sum {
            Some(transferred) => Ok(transferred),
            None => Err(message_error("download progress exceeds u64")),
        }
    }

    /// Starts anew from fresh metadata.
    pub fn restart(&mut self, metadata: ResumeMetadataV1)
        ensures
            final(self)@ == (FileTransferView {
                metadata: metadata@,
                transferred: 0,
                fallback: false,
            }),
    {
        self.metadata = metadata;
        self.transferred = 0;
        self.fallback = false;
    }

    /// Tells whether the whole file must be requested, and forgets it.
    pub fn take_fallback(&mut self) -> (res: bool)
        ensures
            res == old(self)@.fallback,
            final(self)@ == (FileTransferView { fallback: false, ..old(self)@ }),
    {
        let fallback = self.fallback;
        self.fallback = false;
        fallback
    }

    pub fn is_complete(&self) -> (res: bool)
        ensures
            res == ranges::complete(self@.metadata.ranges),
    {
        metadata_is_complete(&self.metadata)
    }

    /// Accepts a file of which every byte was received.
    pub fn check_received(&self, task: &DownloadTask) -> (res: AppResult<()>)
        ensures
            match res {
                Ok(()) => installation_refusal(self@, task@) is None,
                Err(error) => installation_refusal(self@, task@) == Some(error@),
            },
    {
        if !self.is_complete() {
            let mut message = "cannot finalize incomplete download ".to_owned();
            message.append(&debug_of(&task.remote_path));
            return Err(AppError::message(message));
        }
        let total = transferred_bytes(&self.metadata)?;
        if total != task.expected_length {
            return Err(
                count_error(
                    "completed download ",
                    &task.remote_path,
                    " covers ",
                    total,
                    " bytes; expected ",
                    task.expected_length,
                ),
            );
        }
        if self.transferred != task.expected_length {
            return Err(
                count_error(
                    "download progress for ",
                    &task.remote_path,
                    " is ",
                    self.transferred,
                    " bytes; expected ",
                    task.expected_length,
                ),
            );
        }
        Ok(())
    }
}

/// What must be stored before a file goes on.
#[derive(Clone, Copy, Debug, PartialEq, Eq, Structural)]
pub enum Storage {
    /// Nothing: what is stored stands.
    Keep,
    /// The metadata, whose ranges were divided anew.
    Update,
    /// An empty partial file and the metadata: what was stored cannot be trusted.
    Reset,
}

/// What must be stored before a file goes on.
pub open spec fn storage(
    task: DownloadTaskView,
    read: MetadataReadView,
    partial: Option<u64>,
    jobs: usize,
) -> Storage {
    match trusted(task, read, partial) {
        None => Storage::Reset,
        Some(metadata) => match ranges::repartitioned(metadata.size, metadata.ranges, jobs) {
            Ok(Some(_)) => Storage::Update,
            _ => Storage::Keep,
        },
    }
}

/// A file that goes on or begins anew.
#[derive(Debug)]
pub struct PreparedTransfer {
    pub transfer: FileTransfer,
    pub storage: Storage,
}

/// Goes on with a file from what an earlier run stored, if it can be trusted, and
/// begins it anew otherwise.
pub fn prepare_transfer(
    task: &DownloadTask,
    read: MetadataRead,
    partial: Option<u64>,
    jobs: usize,
) -> (res: AppResult<PreparedTransfer>)
    requires
        trusted(task@, read@, partial) is None && task@.expected_length > 0 ==> jobs > 0,
    ensures
        res matches Ok(prepared) && {
            &&& prepared.transfer@.metadata == resumed(task@, read@, partial, jobs)
            &&& prepared.transfer@.transferred == ranges::received(
                resumed(task@, read@, partial, jobs).ranges,
            )
            &&& !prepared.transfer@.fallback
            &&& prepared.storage == storage(task@, read@, partial, jobs)
        },
{
    proof {
        let base = match trusted(task@, read@, partial) {
            Some(metadata) => metadata,
            None => fresh(task@, jobs),
        };
        lemma_resume_or_restart(task@, read@, partial, jobs);
        if trusted(task@, read@, partial) is None {
            ranges::lemma_initial_ranges(task@.expected_length, jobs);
            ranges::lemma_untouched(0, base.size as int, base.ranges);
        }
        ranges::lemma_repartition_keeps_progress(base.size, base.ranges, jobs);
        ranges::lemma_valid_ranges_are_counted(
            base.size,
            resumed(task@, read@, partial, jobs).ranges,
        );
    }
    let (mut metadata, stored) = match trust_metadata(task, read, partial) {
        Some(metadata) => (metadata, true),
        None => (fresh_metadata(task, jobs)?, false),
    };
    let changed = repartition_unfinished_ranges(&mut metadata, jobs)?;
    let transfer = FileTransfer::new(metadata)?;
    let storage = if !stored {
        Storage::Reset
    } else if changed {
        Storage::Update
    } else {
        Storage::Keep
    };
    Ok(PreparedTransfer { transfer, storage })
}

/// Accepts a partial file that has the length of the file.
pub fn check_partial_length(task: &DownloadTask, length: Option<u64>) -> (res: AppResult<()>)
    ensures
        match res {
            Ok(()) => length_refusal(task@, length) is None,
            Err(error) => length_refusal(task@, length) matches Some(message) && error@
                == ErrorView::Message(message),
        },
{
    match length {
        None => Err(message_error("completed partial download is missing")),
        Some(length) => if length != task.expected_length {
            Err(
                count_error(
                    "partial download ",
                    &task.remote_path,
                    " has length ",
                    length,
                    "; expected ",
                    task.expected_length,
                ),
            )
        } else {
            Ok(())
        },
    }
}

/// A file whose metadata describes it is installed only once none of its bytes is
/// missing.
pub proof fn lemma_installed_files_are_whole(transfer: FileTransferView, task: DownloadTaskView)
    requires
        describes(transfer.metadata, task),
        installation_refusal(transfer, task) is None,
    ensures
        forall|offset: int|
            0 <= offset < task.expected_length ==> !#[trigger] ranges::lacks(
                transfer.metadata.ranges,
                offset,
            ),
        transfer.transferred == task.expected_length,
{
    assert forall|offset: int| 0 <= offset < task.expected_length implies
        !#[trigger] ranges::lacks(transfer.metadata.ranges, offset) by {
        if ranges::lacks(transfer.metadata.ranges, offset) {
            let i = choose|i: int|
                0 <= i < transfer.metadata.ranges.len()
                    && (#[trigger] transfer.metadata.ranges[i]).lacks(offset);
            assert(transfer.metadata.ranges[i].next == transfer.metadata.ranges[i].end + 1);
        }
    }
}

/// A range that misses bytes is requested from the first missing one through its end,
/// with the validator if it is a strong one; a range that misses none is not requested.
/// Exactly the answers of status 200 are taken as the whole file, and one that is neither
/// whole nor partial is refused.
pub proof fn lemma_missing_range_is_requested_and_answered(
    transfer: FileTransferView,
    client: HubClientView,
    task: DownloadTaskView,
    index: nat,
    response: FileResponseView,
)
    requires
        !transfer.fallback,
        index < transfer.metadata.ranges.len(),
        transfer.metadata.ranges[index as int].end < u64::MAX,
    ensures
        ({
            let range = transfer.metadata.ranges[index as int];
            let expected = ExpectedRange {
                start: range.next,
                end: range.end,
                size: task.expected_length,
            };
            let answer = response::range_answer(
                response,
                expected,
                transfer.metadata.etag,
                task.remote_path,
            );
            &&& range.next > range.end ==> range_request(transfer, client, task, index) == Ok::<
                Option<HubRequestView>,
                ErrorView,
            >(None)
            &&& range.next <= range.end ==> {
                match range_request(transfer, client, task, index) {
                    Ok(Some(request)) => {
                        &&& request.url == task.url
                        &&& request.range == Some(
                            "bytes="@ + text::decimal(range.next as nat) + "-"@ + text::decimal(
                                range.end as nat,
                            ),
                        )
                        &&& request.if_range == response::strong(transfer.metadata.etag)
                    },
                    Ok(None) => false,
                    Err(_) => client::origin_refusal(client, task.url) is Some,
                }
            }
            &&& response.status == 200 ==> answer == Ok::<RangeAnswerView, Seq<char>>(
                RangeAnswerView::Whole,
            )
            &&& answer == Ok::<RangeAnswerView, Seq<char>>(RangeAnswerView::Whole)
                ==> response.status == 200
            &&& response.status != 200 && response.status != 206 ==> answer is Err
        }),
{
}

/// A result that counts bytes, holds a request or reports is worth what it holds, or the very
/// error.
pub proof fn lemma_values_of_steps(
    count: AppResult<u64>,
    request: AppResult<Option<HubRequest>>,
    report: Result<(), Seq<char>>,
)
    ensures
        count matches Ok(total) ==> counted(count) == Ok::<nat, ErrorView>(total as nat),
        count matches Err(error) ==> counted(count) == Err::<nat, ErrorView>(error@),
        request matches Ok(Some(sent)) ==> needed(request) == Ok::<
            Option<HubRequestView>,
            ErrorView,
        >(Some(sent@)),
        request matches Ok(None) ==> needed(request) == Ok::<Option<HubRequestView>, ErrorView>(
            None,
        ),
        request matches Err(error) ==> needed(request) == Err::<
            Option<HubRequestView>,
            ErrorView,
        >(error@),
        report is Ok ==> reported(report) == Ok::<(), ErrorView>(()),
        report matches Err(message) ==> reported(report) == Err::<(), ErrorView>(
            ErrorView::Message(message),
        ),
{
}

/// Metadata speaks of a file exactly if all of it does: the version, the repository and its
/// type, the commit, the path, the object, the size, and ranges that divide that many bytes.
pub proof fn lemma_metadata_describes_one_file(metadata: ResumeView, task: DownloadTaskView)
    ensures
        describes(metadata, task) <==> {
            &&& metadata.version == 1
            &&& metadata.repo == task.repo
            &&& metadata.repo_type == task.repo_type
            &&& metadata.commit == task.commit
            &&& metadata.path == task.remote_path
            &&& metadata.oid == task.oid
            &&& metadata.size == task.expected_length
            &&& ranges::valid_ranges(task.expected_length, metadata.ranges)
        },
{
}

/// Stored metadata is trusted exactly if it could be read, speaks of the file, and the bytes
/// stand beside it in full length; then it is taken as it is.
pub proof fn lemma_stale_metadata_is_not_trusted(
    task: DownloadTaskView,
    read: MetadataReadView,
    partial: Option<u64>,
    metadata: ResumeView,
)
    ensures
        trusted(task, read, partial) == Some(metadata) <==> {
            &&& read == MetadataReadView::Valid(metadata)
            &&& partial == Some(task.expected_length)
            &&& describes(metadata, task)
        },
        trusted(task, read, partial) is None <==> {
            ||| read is Missing
            ||| read is Invalid
            ||| partial != Some(task.expected_length)
            ||| !describes(read->Valid_0, task)
        },
{
}

/// A file counts as installed by an earlier run exactly if its metadata speaks of it and says
/// that nothing is missing, nothing is left of the partial file, and what stands at the
/// destination has its length.
pub proof fn lemma_installed_files_are_recovered(
    task: DownloadTaskView,
    read: MetadataReadView,
    partial: Option<u64>,
    destination: Option<u64>,
)
    ensures
        recovered(task, read, partial, destination) <==> {
            &&& read matches MetadataReadView::Valid(metadata) && describes(metadata, task) && (
            forall|offset: int| !#[trigger] ranges::lacks(metadata.ranges, offset))
            &&& partial is None
            &&& destination == Some(task.expected_length)
        },
{
    if let MetadataReadView::Valid(metadata) = read {
        if describes(metadata, task) {
            ranges::lemma_complete_files_miss_nothing(metadata.size, metadata.ranges);
        }
    }
}

/// Trusted metadata keeps its validator and, where enough of its ranges are unfinished, its
/// ranges; then nothing is stored. Where they are divided anew, they are stored; and where
/// nothing is trusted, no validator is known, and everything is stored anew.
pub proof fn lemma_what_changed_is_stored(
    task: DownloadTaskView,
    read: MetadataReadView,
    partial: Option<u64>,
    jobs: usize,
)
    requires
        trusted(task, read, partial) is None && task.expected_length > 0 ==> jobs > 0,
    ensures
        match trusted(task, read, partial) {
            None => {
                &&& storage(task, read, partial, jobs) == Storage::Reset
                &&& resumed(task, read, partial, jobs).etag is None
            },
            Some(metadata) => {
                &&& resumed(task, read, partial, jobs).etag == metadata.etag
                &&& ranges::unfinished(metadata.ranges) >= vstd::math::min(
                    jobs as int,
                    ranges::missing(metadata.ranges) as int,
                ) ==> storage(task, read, partial, jobs) == Storage::Keep && resumed(
                    task,
                    read,
                    partial,
                    jobs,
                ) == metadata
                &&& ranges::unfinished(metadata.ranges) < vstd::math::min(
                    jobs as int,
                    ranges::missing(metadata.ranges) as int,
                ) ==> storage(task, read, partial, jobs) == Storage::Update && ranges::unfinished(
                    resumed(task, read, partial, jobs).ranges,
                ) == vstd::math::min(
                    jobs as int,
                    ranges::missing(metadata.ranges) as int,
                )
            },
        },
{
    if let Some(metadata) = trusted(task, read, partial) {
        ranges::lemma_repartition_keeps_progress(metadata.size, metadata.ranges, jobs);
    }
}

/// A checkpoint inside a range moves the mark of that range there and no other; the first
/// validator that comes is kept. It is refused, and nothing changes, if there is no such
/// range or the position is not between the mark and the end. A validator that differs from
/// the kept one is reported, though the mark has moved.
pub proof fn lemma_checkpoints_move_one_mark(
    metadata: ResumeView,
    index: nat,
    next: u64,
    etag: Option<Seq<char>>,
    path: Seq<char>,
)
    ensures
        ({
            let (after, result) = checkpointed(metadata, index, next, etag, path);
            let inside = index < metadata.ranges.len() && metadata.ranges[index as int].end
                < u64::MAX && metadata.ranges[index as int].next <= next
                <= metadata.ranges[index as int].end + 1;
            let differs = metadata.etag is Some && etag is Some && metadata.etag != etag;
            &&& result is Ok <==> inside && !differs
            &&& !inside ==> after == metadata
            &&& inside ==> {
                &&& after.ranges.len() == metadata.ranges.len()
                &&& after.ranges[index as int].next == next
                &&& after.ranges[index as int].start == metadata.ranges[index as int].start
                &&& after.ranges[index as int].end == metadata.ranges[index as int].end
                &&& forall|i: int|
                    0 <= i < metadata.ranges.len() && i != index ==> #[trigger] after.ranges[i]
                        == metadata.ranges[i]
                &&& after.etag == if metadata.etag is None {
                    etag
                } else {
                    metadata.etag
                }
            }
            &&& inside && differs ==> result == Err::<(), Seq<char>>(
                "download validator changed while receiving "@ + text::debug_text(path),
            )
            &&& index >= metadata.ranges.len() ==> result == Err::<(), Seq<char>>(
                "download range index is out of bounds"@,
            )
            &&& index < metadata.ranges.len() && !inside && metadata.ranges[index as int].end
                < u64::MAX ==> result == Err::<(), Seq<char>>(
                "invalid checkpoint for "@ + text::debug_text(path) + ": byte "@ + text::decimal(
                    next as nat,
                ) + " is outside "@ + text::decimal(metadata.ranges[index as int].next as nat)
                    + "-"@ + text::decimal((metadata.ranges[index as int].end + 1) as nat),
            )
            &&& index < metadata.ranges.len() && metadata.ranges[index as int].end == u64::MAX
                ==> result == Err::<(), Seq<char>>("download range exceeds u64"@)
            &&& after == (ResumeView { ranges: after.ranges, etag: after.etag, ..metadata })
        }),
{
}

/// Of a range, what stands behind its mark is still to be requested, unless the whole file
/// will be; the whole of a file is all of its bytes, and an empty file has none to request.
pub proof fn lemma_what_is_missing_is_requested(
    transfer: FileTransferView,
    client: HubClientView,
    task: DownloadTaskView,
    index: nat,
)
    ensures
        transfer.fallback ==> pending(transfer, index) == Ok::<Option<(u64, u64)>, Seq<char>>(None),
        !transfer.fallback && index >= transfer.metadata.ranges.len() ==> pending(transfer, index)
            == Err::<Option<(u64, u64)>, Seq<char>>("download range index is out of bounds"@),
        !transfer.fallback && index < transfer.metadata.ranges.len() ==> {
            let range = transfer.metadata.ranges[index as int];
            &&& range.next <= range.end < u64::MAX ==> pending(transfer, index) == Ok::<
                Option<(u64, u64)>,
                Seq<char>,
            >(Some((range.next, range.end)))
            &&& range.end < range.next ==> pending(transfer, index) == Ok::<
                Option<(u64, u64)>,
                Seq<char>,
            >(None)
        },
        task.expected_length == 0 ==> whole_range(task) is None && whole_request(client, task)
            == Ok::<Option<HubRequestView>, ErrorView>(None),
        task.expected_length > 0 ==> whole_range(task) == Some(
            (0u64, (task.expected_length - 1) as u64),
        ),
        task.expected_length > 0 && client::origin_refusal(client, task.url) is None ==> {
            &&& whole_request(client, task) matches Ok(Some(request))
            &&& request.url == task.url
            &&& request.range is None
            &&& request.if_range is None
            &&& request.token == client.token
        },
        task.expected_length > 0 && client::origin_refusal(client, task.url) is Some
            ==> whole_request(client, task) is Err,
{
}

/// A file is installed exactly if every range is complete, the ranges have received its
/// length, and so many bytes were counted; and the partial file exactly if it has that
/// length.
pub proof fn lemma_whole_files_are_installed(
    transfer: FileTransferView,
    task: DownloadTaskView,
    length: Option<u64>,
)
    requires
        describes(transfer.metadata, task),
    ensures
        installation_refusal(transfer, task) is None <==> {
            &&& forall|offset: int| !#[trigger] ranges::lacks(transfer.metadata.ranges, offset)
            &&& transfer.transferred == task.expected_length
        },
        length_refusal(task, length) is None <==> length == Some(task.expected_length),
        length is None ==> length_refusal(task, length) == Some(
            "completed partial download is missing"@,
        ),
{
    ranges::lemma_complete_files_miss_nothing(transfer.metadata.size, transfer.metadata.ranges);
    ranges::lemma_valid_ranges_are_counted(transfer.metadata.size, transfer.metadata.ranges);
}

} // verus!
