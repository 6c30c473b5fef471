//! What may stand where files and their sidecars are stored.
use crate::config;
use crate::config::{copy_bytes, ConfigDirectory, LocalPath, LocalPathView};
use crate::download::tasks;
use crate::download::tasks::{parent_of, DownloadTask, DownloadTaskView, Root, RootView};
use crate::error::{
    detailed_error, detailed_io, message_error, AppError, AppResult, ErrorView, IoFailure,
    IoFailureView,
};
use crate::patterns;
use crate::text;
use vstd::prelude::*;

verus! {

/// What stands at a path. A symbolic link is not followed.
#[derive(Debug)]
pub enum PathStatus {
    Missing,
    Symlink,
    /// A regular file and its length.
    File(u64),
    Directory,
    /// Something that is neither a file nor a directory.
    Other,
    /// The path could not be inspected.
    Failed(IoFailure),
}

/// The value of a [`PathStatus`].
pub enum PathStatusView {
    Missing,
    Symlink,
    File(u64),
    Directory,
    Other,
    Failed(IoFailureView),
}

impl View for PathStatus {
    type V = PathStatusView;

    open spec fn view(&self) -> PathStatusView {
        match self {
            PathStatus::Missing => PathStatusView::Missing,
            PathStatus::Symlink => PathStatusView::Symlink,
            PathStatus::File(length) => PathStatusView::File(*length),
            PathStatus::Directory => PathStatusView::Directory,
            PathStatus::Other => PathStatusView::Other,
            PathStatus::Failed(failure) => PathStatusView::Failed(failure@),
        }
    }
}

// ---------------------------------------------------------------------------
// Single paths
// ---------------------------------------------------------------------------

/// Where files are downloaded to: the directory that was asked for, seen from the
/// current one, or the current one.
pub open spec fn chosen_root(configured: Option<(Seq<u8>, bool)>, current: Seq<u8>) -> LocalPathView {
    match configured {
        Some((path, true)) => LocalPathView { base: path, parts: Seq::empty() },
        Some((path, false)) => LocalPathView { base: current, parts: seq![path] },
        None => LocalPathView { base: current, parts: Seq::empty() },
    }
}

/// Where files are downloaded to.
pub fn destination_root(configured: Option<&ConfigDirectory>, current_directory: Vec<u8>) -> (res:
    LocalPath)
    ensures
        res@ == chosen_root(
            match configured {
                Some(directory) => Some((directory.path@, directory.absolute)),
                None => None,
            },
            current_directory@,
        ),
{
    let mut parts: Vec<Vec<u8>> = Vec::new();
    proof {
        assert(config::part_views(parts@) =~= Seq::empty());
    }
    match configured {
        Some(directory) => if directory.absolute {
            LocalPath { base: copy_bytes(&directory.path), parts }
        } else {
            parts.push(copy_bytes(&directory.path));
            proof {
                assert(config::part_views(parts@) =~= seq![directory.path@]);
            }
            LocalPath { base: current_directory, parts }
        },
        None => LocalPath { base: current_directory, parts },
    }
}

/// The length of the regular file at a path, if something is there.
pub open spec fn file_length(
    status: PathStatusView,
    shown: Seq<char>,
    description: Seq<char>,
) -> Result<Option<u64>, ErrorView> {
    match status {
        PathStatusView::Missing => Ok(None),
        PathStatusView::File(length) => Ok(Some(length)),
        PathStatusView::Symlink => Err(
            ErrorView::Message(description + " cannot be a symbolic link: "@ + shown),
        ),
        PathStatusView::Failed(source) => Err(
            ErrorView::Io { context: "could not inspect "@ + description + " "@ + shown, source },
        ),
        _ => Err(ErrorView::Message(description + " is not a regular file: "@ + shown)),
    }
}

/// The value of an optional length, or of the error that stands for it.
pub open spec fn length_view(result: AppResult<Option<u64>>) -> Result<Option<u64>, ErrorView> {
    match result {
        Ok(length) => Ok(length),
        Err(error) => Err(error@),
    }
}

/// The length of the regular file at a path, if something is there. What is no
/// regular file is refused.
pub fn regular_file_length(status: PathStatus, shown: &str, description: &str) -> (res: AppResult<
    Option<u64>,
>)
    ensures
        length_view(res) == file_length(status@, shown@, description@),
{
    match status {
        PathStatus::Missing => Ok(None),
        PathStatus::File(length) => Ok(Some(length)),
        PathStatus::Symlink => {
            let mut message = description.to_owned();
            message.append(" cannot be a symbolic link: ");
            message.append(shown);
            Err(AppError::message(message))
        },
        PathStatus::Failed(failure) => {
            let mut context = "could not inspect ".to_owned();
            context.append(description);
            context.append(" ");
            context.append(shown);
            Err(AppError::io(context, failure))
        },
        _ => {
            let mut message = description.to_owned();
            message.append(" is not a regular file: ");
            message.append(shown);
            Err(AppError::message(message))
        },
    }
}

/// A decision, or the error that stands for it.
pub open spec fn decided(result: AppResult<bool>) -> Result<bool, ErrorView> {
    match result {
        Ok(value) => Ok(value),
        Err(error) => Err(error@),
    }
}

/// Whether the root must be made.
pub open spec fn root_is_missing(status: PathStatusView, shown: Seq<char>) -> Result<
    bool,
    ErrorView,
> {
    match status {
        PathStatusView::Missing => Ok(true),
        PathStatusView::Directory => Ok(false),
        PathStatusView::Symlink => Err(
            ErrorView::Message("download directory cannot be a symbolic link: "@ + shown),
        ),
        PathStatusView::Failed(source) => Err(
            ErrorView::Io { context: "could not inspect download directory "@ + shown, source },
        ),
        _ => Err(ErrorView::Message("download destination is not a directory: "@ + shown)),
    }
}

/// Whether the root must be made. What is no directory is refused.
pub fn prepare_root(status: PathStatus, shown: &str) -> (res: AppResult<bool>)
    ensures
        decided(res) == root_is_missing(status@, shown@),
{
    match status {
        PathStatus::Missing => Ok(true),
        PathStatus::Directory => Ok(false),
        PathStatus::Symlink => Err(
            detailed_error("download directory cannot be a symbolic link: ", shown),
        ),
        PathStatus::Failed(failure) => Err(
            detailed_io("could not inspect download directory ", shown, failure),
        ),
        _ => Err(detailed_error("download destination is not a directory: ", shown)),
    }
}

/// Whether a directory between the root and a file is missing. `inspection` is what
/// the error of a failed inspection begins with.
pub open spec fn directory_is_missing(
    status: PathStatusView,
    shown: Seq<char>,
    inspection: Seq<char>,
) -> Result<bool, ErrorView> {
    match status {
        PathStatusView::Missing => Ok(true),
        PathStatusView::Directory => Ok(false),
        PathStatusView::Symlink => Err(
            ErrorView::Message("refusing to traverse symbolic link "@ + shown),
        ),
        PathStatusView::Failed(source) => Err(
            ErrorView::Io { context: inspection + shown, source },
        ),
        _ => Err(ErrorView::Message("download parent is not a directory: "@ + shown)),
    }
}

fn inspect_directory(status: PathStatus, shown: &str, inspection: &str) -> (res: AppResult<bool>)
    ensures
        decided(res) == directory_is_missing(status@, shown@, inspection@),
{
    match status {
        PathStatus::Missing => Ok(true),
        PathStatus::Directory => Ok(false),
        PathStatus::Symlink => Err(detailed_error("refusing to traverse symbolic link ", shown)),
        PathStatus::Failed(failure) => Err(detailed_io(inspection, shown, failure)),
        _ => Err(detailed_error("download parent is not a directory: ", shown)),
    }
}

/// Whether a directory below the root must be made. Nothing but a directory is
/// passed.
pub fn ensure_directory(status: PathStatus, shown: &str) -> (res: AppResult<bool>)
    ensures
        decided(res) == directory_is_missing(
            status@,
            shown@,
            "could not inspect download directory "@,
        ),
{
    inspect_directory(status, shown, "could not inspect download directory ")
}

/// Why a file cannot be installed at a path, if it cannot.
pub open spec fn target_refusal(
    status: PathStatusView,
    shown: Seq<char>,
    replaceable: bool,
) -> Option<ErrorView> {
    match status {
        PathStatusView::Missing => None,
        PathStatusView::File(_) => if replaceable {
            None
        } else {
            Some(
                ErrorView::Message(
                    "download target already exists; use --force to replace it: "@ + shown,
                ),
            )
        },
        PathStatusView::Symlink => Some(
            ErrorView::Message("refusing to replace symbolic link "@ + shown),
        ),
        PathStatusView::Failed(source) => Some(
            ErrorView::Io { context: "could not inspect download target "@ + shown, source },
        ),
        _ => Some(ErrorView::Message("download target is not a regular file: "@ + shown)),
    }
}

fn inspect_target(status: PathStatus, shown: &str, replaceable: bool) -> (res: AppResult<()>)
    ensures
        match res {
            Ok(()) => target_refusal(status@, shown@, replaceable) is None,
            Err(error) => target_refusal(status@, shown@, replaceable) == Some(error@),
        },
{
    match status {
        PathStatus::Missing => Ok(()),
        PathStatus::File(_) => if replaceable {
            Ok(())
        } else {
            Err(
                detailed_error(
                    "download target already exists; use --force to replace it: ",
                    shown,
                ),
            )
        },
        PathStatus::Symlink => Err(detailed_error("refusing to replace symbolic link ", shown)),
        PathStatus::Failed(failure) => Err(
            detailed_io("could not inspect download target ", shown, failure),
        ),
        _ => Err(detailed_error("download target is not a regular file: ", shown)),
    }
}

// ---------------------------------------------------------------------------
// The directories of files
// ---------------------------------------------------------------------------

/// The directories between the root and a file, from the top.
pub open spec fn directories(path: Seq<char>) -> Seq<Seq<char>>
    decreases path.len(),
    via directories_decreases
{
    match tasks::parent(path) {
        Some(directory) => directories(directory).push(directory),
        None => Seq::empty(),
    }
}

#[via_fn]
proof fn directories_decreases(path: Seq<char>) {
    lemma_parent_is_shorter(path);
}

proof fn lemma_parent_is_shorter(path: Seq<char>)
    ensures
        tasks::parent(path) matches Some(directory) ==> directory.len() < path.len(),
    decreases path.len(),
{
    if path.len() > 0 && path.last() != '/' {
        lemma_parent_is_shorter(path.drop_last());
    }
}

/// The directories between the root and a file, from the top.
pub fn directories_of(path: &str) -> (res: Vec<String>)
    ensures
        text::texts(res@) == directories(path@),
    decreases path@.len(),
{
    proof {
        lemma_parent_is_shorter(path@);
    }
    match parent_of(path) {
        Some(directory) => {
            let mut above = directories_of(&directory);
            let ghost before = above@;
            above.push(directory);
            proof {
                assert(text::texts(above@) =~= text::texts(before).push(directory@));
            }
            above
        },
        None => {
            let none: Vec<String> = Vec::new();
            proof {
                assert(text::texts(none@) =~= Seq::empty());
            }
            none
        },
    }
}

/// The directories of all tasks, each from the top, in the order of the tasks.
pub open spec fn task_directories(tasks: Seq<DownloadTaskView>) -> Seq<Seq<char>>
    decreases tasks.len(),
{
    if tasks.len() == 0 {
        Seq::empty()
    } else {
        task_directories(tasks.drop_last()) + directories(tasks.last().destination)
    }
}

/// The directories that must be there before the tasks begin, in the order in which
/// they are made.
pub fn prepare_task_directories(tasks: &Vec<DownloadTask>) -> (res: Vec<String>)
    ensures
        text::texts(res@) == task_directories(tasks::task_views(tasks@)),
{
    let ghost all = tasks::task_views(tasks@);
    let mut out: Vec<String> = Vec::new();
    let mut i: usize = 0;
    proof {
        assert(text::texts(out@) =~= Seq::empty());
    }
    while i < tasks.len()
        invariant
            i <= tasks@.len(),
            all == tasks::task_views(tasks@),
            text::texts(out@) == task_directories(all.take(i as int)),
        decreases tasks@.len() - i,
    {
        proof {
            assert(all.take(i + 1).drop_last() =~= all.take(i as int));
            assert(all.take(i + 1).last() == tasks@[i as int]@);
        }
        let mut more = directories_of(&tasks[i].destination);
        let ghost before = out@;
        let ghost added = more@;
        out.append(&mut more);
        proof {
            assert(text::texts(out@) =~= text::texts(before) + text::texts(added));
        }
        i = i + 1;
    }
    proof {
        assert(all.take(i as int) =~= all);
    }
    out
}

// ---------------------------------------------------------------------------
// The inspection before a download
// ---------------------------------------------------------------------------

/// Inspects the way to every target, and every target, before anything is written.
#[derive(Debug)]
pub struct Preflight {
    targets: Vec<String>,
    recovered: Vec<bool>,
    force: bool,
    index: usize,
    depth: usize,
}

/// The value of a [`Preflight`].
pub struct PreflightView {
    pub targets: Seq<Seq<char>>,
    /// Which targets an earlier run installed.
    pub recovered: Seq<bool>,
    pub force: bool,
    /// The target that is looked at.
    pub index: nat,
    /// How many of its directories were passed.
    pub depth: nat,
}

impl View for Preflight {
    type V = PreflightView;

    closed spec fn view(&self) -> PreflightView {
        PreflightView {
            targets: text::texts(self.targets@),
            recovered: self.recovered@,
            force: self.force,
            index: self.index as nat,
            depth: self.depth as nat,
        }
    }
}

impl PreflightView {
    pub open spec fn well_formed(self) -> bool {
        &&& self.recovered.len() == self.targets.len()
        &&& self.index <= self.targets.len()
        &&& self.index < self.targets.len() ==> self.depth <= directories(
            self.targets[self.index as int],
        ).len()
        &&& self.index == self.targets.len() ==> self.depth == 0
    }

    /// The path that is inspected next: the directories of a target from the top,
    /// then the target. Nothing when all targets were inspected.
    pub open spec fn next_path(self) -> Option<Seq<char>> {
        if self.index >= self.targets.len() {
            None
        } else {
            let target = self.targets[self.index as int];
            if self.depth < directories(target).len() {
                Some(directories(target)[self.depth as int])
            } else {
                Some(target)
            }
        }
    }
}

/// The inspection once it knows what stands at its next path. Below a directory that
/// is missing, no further directory is inspected.
pub open spec fn inspected(preflight: PreflightView, root: RootView, status: PathStatusView) -> Result<
    PreflightView,
    ErrorView,
> {
    let target = preflight.targets[preflight.index as int];
    let shown = tasks::shown(root, preflight.next_path()->0);
    if preflight.depth < directories(target).len() {
        match directory_is_missing(status, shown, "could not inspect download parent "@) {
            Ok(true) => Ok(PreflightView { depth: directories(target).len(), ..preflight }),
            Ok(false) => Ok(PreflightView { depth: preflight.depth + 1, ..preflight }),
            Err(error) => Err(error),
        }
    } else {
        match target_refusal(
            status,
            shown,
            preflight.force || preflight.recovered[preflight.index as int],
        ) {
            None => Ok(PreflightView { index: preflight.index + 1, depth: 0, ..preflight }),
            Some(error) => Err(error),
        }
    }
}

/// The targets of tasks.
pub open spec fn target_paths(tasks: Seq<DownloadTaskView>) -> Seq<Seq<char>> {
    tasks.map_values(|task: DownloadTaskView| task.destination)
}

impl Preflight {
    /// Begins the inspection. Existing files may be replaced when `force` is set, or
    /// when an earlier run installed them.
    pub fn new(tasks: &Vec<DownloadTask>, recovered: Vec<bool>, force: bool) -> (res: AppResult<
        Self,
    >)
        ensures
            match res {
                Ok(preflight) => {
                    &&& tasks@.len() == recovered@.len()
                    &&& preflight@.well_formed()
                    &&& preflight@ == (PreflightView {
                        targets: target_paths(tasks::task_views(tasks@)),
                        recovered: recovered@,
                        force,
                        index: 0,
                        depth: 0,
                    })
                },
                Err(error) => tasks@.len() != recovered@.len() && error@ == ErrorView::Message(
                    "download recovery state length mismatch"@,
                ),
            },
    {
        if tasks.len() != recovered.len() {
            return Err(message_error("download recovery state length mismatch"));
        }
        let ghost all = target_paths(tasks::task_views(tasks@));
        let mut targets: Vec<String> = Vec::new();
        let mut i: usize = 0;
        while i < tasks.len()
            invariant
                i <= tasks@.len(),
                all == target_paths(tasks::task_views(tasks@)),
                text::texts(targets@) == all.take(i as int),
            decreases tasks@.len() - i,
        {
            let ghost before = targets@;
            targets.push(tasks[i].destination.clone());
            i = i + 1;
            proof {
                assert(text::texts(targets@) =~= text::texts(before).push(all[i - 1]));
                assert(text::texts(targets@) =~= all.take(i as int));
            }
        }
        proof {
            assert(all.take(i as int) =~= all);
        }
        Ok(Preflight { targets, recovered, force, index: 0, depth: 0 })
    }

    /// The path that is inspected next, if one is left.
    pub fn next_path(&self) -> (res: Option<String>)
        requires
            self@.well_formed(),
        ensures
            text::optional_text(res) == self@.next_path(),
    {
        if self.index >= self.targets.len() {
            return None;
        }
        proof {
            assert(self@.targets[self.index as int] == self.targets@[self.index as int]@);
        }
        let above = directories_of(&self.targets[self.index]);
        proof {
            assert(text::texts(above@).len() == above@.len());
        }
        if self.depth < above.len() {
            proof {
                assert(text::texts(above@)[self.depth as int] == above@[self.depth as int]@);
            }
            Some(above[self.depth].clone())
        } else {
            Some(self.targets[self.index].clone())
        }
    }

    /// Takes what stands at the path that was inspected.
    pub fn accept(&mut self, root: &Root, status: PathStatus) -> (res: AppResult<()>)
        requires
            old(self)@.well_formed(),
            old(self)@.next_path() is Some,
        ensures
            match inspected(old(self)@, root@, status@) {
                Ok(after) => res is Ok && final(self)@ == after && final(self)@.well_formed(),
                Err(failure) => res matches Err(error) && error@ == failure && final(self)@
                    == old(self)@,
            },
    {
        proof {
            assert(self@.targets[self.index as int] == self.targets@[self.index as int]@);
        }
        let above = directories_of(&self.targets[self.index]);
        proof {
            assert(text::texts(above@).len() == above@.len());
        }
        if self.depth < above.len() {
            proof {
                assert(text::texts(above@)[self.depth as int] == above@[self.depth as int]@);
            }
            let shown = root.shown(&above[self.depth]);
            match inspect_directory(status, &shown, "could not inspect download parent ") {
                Ok(true) => {
                    self.depth = above.len();
                    Ok(())
                },
                Ok(false) => {
                    self.depth = self.depth + 1;
                    Ok(())
                },
                Err(error) => Err(error),
            }
        } else {
            let shown = root.shown(&self.targets[self.index]);
            let count = self.targets.len();
            proof {
                assert(self.index < count);
            }
            let replaceable = self.force || self.recovered[self.index];
            match inspect_target(status, &shown, replaceable) {
                Ok(()) => {
                    self.index = self.index + 1;
                    self.depth = 0;
                    Ok(())
                },
                Err(error) => Err(error),
            }
        }
    }
}

/// The inspection passes a symbolic link nowhere, passes an existing target only if
/// it is a regular file that may be replaced, and passes a directory only if it is
/// one or is missing.
pub proof fn lemma_preflight_passes_nothing_unsafe(
    preflight: PreflightView,
    root: RootView,
    status: PathStatusView,
)
    requires
        preflight.well_formed(),
        preflight.next_path() is Some,
        inspected(preflight, root, status) is Ok,
    ensures
        !(status is Symlink),
        !(status is Other),
        !(status is Failed),
        preflight.depth < directories(preflight.targets[preflight.index as int]).len()
            ==> status is Directory || status is Missing,
        preflight.depth == directories(preflight.targets[preflight.index as int]).len() ==> {
            ||| status is Missing
            ||| status is File && (preflight.force
                || preflight.recovered[preflight.index as int])
        },
{
}

// ---------------------------------------------------------------------------
// Laws
// ---------------------------------------------------------------------------

/// A result that decides or measures is worth what it holds, or the very error.
pub proof fn lemma_values_of_inspections(decision: AppResult<bool>, length: AppResult<Option<u64>>)
    ensures
        decision matches Ok(value) ==> decided(decision) == Ok::<bool, ErrorView>(value),
        decision matches Err(error) ==> decided(decision) == Err::<bool, ErrorView>(error@),
        length matches Ok(value) ==> length_view(length) == Ok::<Option<u64>, ErrorView>(value),
        length matches Err(error) ==> length_view(length) == Err::<Option<u64>, ErrorView>(error@),
{
}

/// Files go to the directory that was asked for: as it is if it is absolute, below the
/// current one otherwise; and to the current one if none was asked for.
pub proof fn lemma_files_go_where_was_asked(path: Seq<u8>, current: Seq<u8>)
    ensures
        chosen_root(Some((path, true)), current).base == path,
        chosen_root(Some((path, true)), current).parts.len() == 0,
        chosen_root(Some((path, false)), current).base == current,
        chosen_root(Some((path, false)), current).parts == seq![path],
        chosen_root(None, current).base == current,
        chosen_root(None, current).parts.len() == 0,
{
}

/// A regular file has its length, and a missing one has none; whatever else stands at a path
/// is refused and named.
pub proof fn lemma_only_regular_files_have_a_length(
    status: PathStatusView,
    length: u64,
    shown: Seq<char>,
    description: Seq<char>,
)
    ensures
        file_length(status, shown, description) == Ok::<Option<u64>, ErrorView>(None)
            <==> status is Missing,
        file_length(status, shown, description) == Ok::<Option<u64>, ErrorView>(Some(length))
            <==> status == PathStatusView::File(length),
        status is Symlink ==> file_length(status, shown, description) == Err::<
            Option<u64>,
            ErrorView,
        >(ErrorView::Message(description + " cannot be a symbolic link: "@ + shown)),
        status is Directory || status is Other ==> file_length(status, shown, description) == Err::<
            Option<u64>,
            ErrorView,
        >(ErrorView::Message(description + " is not a regular file: "@ + shown)),
        status matches PathStatusView::Failed(source) ==> file_length(status, shown, description)
            == Err::<Option<u64>, ErrorView>(
            ErrorView::Io { context: "could not inspect "@ + description + " "@ + shown, source },
        ),
{
}

/// A directory is made where nothing is, and used where one is; nothing else is passed, least
/// of all a symbolic link. So it is with the root and with what lies below it.
pub proof fn lemma_only_directories_are_passed(
    status: PathStatusView,
    shown: Seq<char>,
    inspection: Seq<char>,
)
    ensures
        root_is_missing(status, shown) == Ok::<bool, ErrorView>(true) <==> status is Missing,
        root_is_missing(status, shown) == Ok::<bool, ErrorView>(false) <==> status is Directory,
        directory_is_missing(status, shown, inspection) == Ok::<bool, ErrorView>(true)
            <==> status is Missing,
        directory_is_missing(status, shown, inspection) == Ok::<bool, ErrorView>(false)
            <==> status is Directory,
        status is Symlink ==> root_is_missing(status, shown) == Err::<bool, ErrorView>(
            ErrorView::Message("download directory cannot be a symbolic link: "@ + shown),
        ),
        status is Symlink ==> directory_is_missing(status, shown, inspection) == Err::<
            bool,
            ErrorView,
        >(ErrorView::Message("refusing to traverse symbolic link "@ + shown)),
        status is File || status is Other ==> root_is_missing(status, shown) == Err::<
            bool,
            ErrorView,
        >(ErrorView::Message("download destination is not a directory: "@ + shown)),
        status is File || status is Other ==> directory_is_missing(status, shown, inspection)
            == Err::<bool, ErrorView>(
            ErrorView::Message("download parent is not a directory: "@ + shown),
        ),
{
}

/// A target is free where nothing is, and a regular file is one if it may be replaced. What
/// may not be replaced is told how to be; nothing else can be.
pub proof fn lemma_only_regular_files_are_replaced(
    status: PathStatusView,
    shown: Seq<char>,
    replaceable: bool,
)
    ensures
        target_refusal(status, shown, replaceable) is None <==> status is Missing || status is File
            && replaceable,
        status is File && !replaceable ==> target_refusal(status, shown, replaceable) == Some(
            ErrorView::Message(
                "download target already exists; use --force to replace it: "@ + shown,
            ),
        ),
        status is Symlink ==> target_refusal(status, shown, replaceable) == Some(
            ErrorView::Message("refusing to replace symbolic link "@ + shown),
        ),
        status is Directory || status is Other ==> target_refusal(status, shown, replaceable)
            == Some(ErrorView::Message("download target is not a regular file: "@ + shown)),
{
}

/// The directories of a file are what stands before each slash of its path, the shorter ones
/// first.
pub proof fn lemma_directories_end_before_slashes(path: Seq<char>, directory: Seq<char>)
    ensures
        directories(path).contains(directory) <==> (directory + seq!['/']).is_prefix_of(path),
        forall|i: int, j: int|
            0 <= i < j < directories(path).len() ==> (#[trigger] directories(path)[i]).len() < (
            #[trigger] directories(path)[j]).len(),
{
    reveal_strlit("/");
    assert("/"@ =~= seq!['/']);
    lemma_same_directories(path);
    patterns::lemma_directories_above(path, directory);
}

proof fn lemma_same_directories(path: Seq<char>)
    ensures
        directories(path) == patterns::directories_above(path),
    decreases path.len(),
{
    if path.len() > 0 {
        let front = path.drop_last();
        lemma_same_directories(front);
        if path.last() != '/' {
            assert(tasks::parent(path) == tasks::parent(front));
            assert(directories(path) == directories(front));
        }
    }
}

/// The directories that must be there are those of every file, one file after the other.
pub proof fn lemma_every_file_has_its_directories(
    tasks: Seq<DownloadTaskView>,
    i: int,
    directory: Seq<char>,
)
    requires
        0 <= i < tasks.len(),
    ensures
        (directory + seq!['/']).is_prefix_of(tasks[i].destination) ==> task_directories(
            tasks,
        ).contains(directory),
        task_directories(tasks).contains(directory) ==> exists|k: int|
            0 <= k < tasks.len() && (directory + seq!['/']).is_prefix_of(
                (#[trigger] tasks[k]).destination,
            ),
{
    lemma_directories_of_all(tasks, directory);
    lemma_directories_end_before_slashes(tasks[i].destination, directory);
    if task_directories(tasks).contains(directory) {
        let k = choose|k: int|
            0 <= k < tasks.len() && directories((#[trigger] tasks[k]).destination).contains(
                directory,
            );
        lemma_directories_end_before_slashes(tasks[k].destination, directory);
    }
}

proof fn lemma_directories_of_all(tasks: Seq<DownloadTaskView>, directory: Seq<char>)
    ensures
        task_directories(tasks).contains(directory) <==> exists|k: int|
            0 <= k < tasks.len() && directories((#[trigger] tasks[k]).destination).contains(
                directory,
            ),
    decreases tasks.len(),
{
    if tasks.len() > 0 {
        let front = tasks.drop_last();
        let n = tasks.len() - 1;
        let before = task_directories(front);
        let own = directories(tasks.last().destination);
        let all = task_directories(tasks);
        lemma_directories_of_all(front, directory);
        if before.contains(directory) {
            let k = choose|k: int|
                0 <= k < front.len() && directories((#[trigger] front[k]).destination).contains(
                    directory,
                );
            assert(tasks[k] == front[k]);
            let m = choose|m: int| 0 <= m < before.len() && before[m] == directory;
            assert(all[m] == directory);
        }
        if own.contains(directory) {
            let m = choose|m: int| 0 <= m < own.len() && own[m] == directory;
            assert(all[before.len() + m] == directory);
            assert(directories(tasks[n].destination).contains(directory));
        }
        if all.contains(directory) {
            let m = choose|m: int| 0 <= m < all.len() && all[m] == directory;
            if m < before.len() {
                assert(before[m] == directory);
            } else {
                assert(own[m - before.len()] == directory);
            }
        }
        if exists|k: int|
            0 <= k < tasks.len() && directories((#[trigger] tasks[k]).destination).contains(
                directory,
            ) {
            let k = choose|k: int|
                0 <= k < tasks.len() && directories((#[trigger] tasks[k]).destination).contains(
                    directory,
                );
            if k < n {
                assert(front[k] == tasks[k]);
            }
        }
    }
}

/// What may be passed is passed. A directory on the way leads to the next one, and below a
/// missing one there is none to look at. A target that is missing leads to the next target,
/// and so does a regular file if files are replaced by force or an earlier run installed it.
/// Nothing else changes, and every other finding ends the inspection.
pub proof fn lemma_preflight_passes_what_may_be_passed(
    preflight: PreflightView,
    root: RootView,
    status: PathStatusView,
)
    requires
        preflight.well_formed(),
        preflight.index < preflight.targets.len(),
    ensures
        ({
            let target = preflight.targets[preflight.index as int];
            let count = directories(target).len();
            let after = inspected(preflight, root, status);
            &&& preflight.depth < count && status is Directory ==> after == Ok::<
                PreflightView,
                ErrorView,
            >(PreflightView { depth: preflight.depth + 1, ..preflight })
            &&& preflight.depth < count && status is Missing ==> after == Ok::<
                PreflightView,
                ErrorView,
            >(PreflightView { depth: count, ..preflight })
            &&& preflight.depth < count && !(status is Directory) && !(status is Missing)
                ==> after is Err
            &&& preflight.depth == count && status is Missing ==> after == Ok::<
                PreflightView,
                ErrorView,
            >(PreflightView { index: preflight.index + 1, depth: 0, ..preflight })
            &&& preflight.depth == count && status is File && (preflight.force
                || preflight.recovered[preflight.index as int]) ==> after == Ok::<
                PreflightView,
                ErrorView,
            >(PreflightView { index: preflight.index + 1, depth: 0, ..preflight })
            &&& preflight.depth == count && status is File && !preflight.force
                && !preflight.recovered[preflight.index as int] ==> after == Err::<
                PreflightView,
                ErrorView,
            >(
                ErrorView::Message(
                    "download target already exists; use --force to replace it: "@ + tasks::shown(
                        root,
                        target,
                    ),
                ),
            )
            &&& preflight.depth == count && !(status is File) && !(status is Missing)
                ==> after is Err
            &&& preflight.depth < count ==> preflight.next_path() == Some(
                directories(target)[preflight.depth as int],
            )
            &&& preflight.depth == count ==> preflight.next_path() == Some(target)
        }),
{
}

/// The targets are the destinations of the tasks, in their order.
pub proof fn lemma_targets_are_destinations(tasks: Seq<DownloadTaskView>)
    ensures
        target_paths(tasks).len() == tasks.len(),
        forall|i: int|
            0 <= i < tasks.len() ==> #[trigger] target_paths(tasks)[i] == tasks[i].destination,
{
}

} // verus!
