//! Where the selected files and their sidecars are stored.
use crate::cli::{RepoSpec, RepoSpecView, RepoType};
use crate::error::{detailed_error, AppError, AppResult, ErrorView};
use crate::hub;
use crate::hub::client;
use crate::hub::client::{HubClient, HubClientView};
use crate::hub::{parts_are_safe, TreeEntry, TreeEntryView};
use crate::hub::listing;
use crate::patterns;
use crate::text;
use crate::text::{contains_char, debug_of, hexadecimal_text, split_text, zero_pad};
use crate::url::{WebUrl, WebUrlView};
use vstd::hash_set::StringHashSet;
use vstd::prelude::*;

verus! {

// ---------------------------------------------------------------------------
// Local paths
// ---------------------------------------------------------------------------

/// The directory that files are downloaded to: how it is shown, and what separates
/// the parts of a path. Paths below it are written with slashes.
#[derive(Debug)]
pub struct Root {
    pub text: String,
    pub separator: char,
}

/// The value of a [`Root`].
pub struct RootView {
    pub text: Seq<char>,
    pub separator: char,
}

impl View for Root {
    type V = RootView;

    open spec fn view(&self) -> RootView {
        RootView { text: self.text@, separator: self.separator }
    }
}

/// A path with `separator` in place of slashes.
pub open spec fn localized(path: Seq<char>, separator: char) -> Seq<char> {
    path.map_values(
        |c: char|
            if c == '/' {
                separator
            } else {
                c
            },
    )
}

/// How a path below the root is shown.
pub open spec fn shown(root: RootView, relative: Seq<char>) -> Seq<char> {
    let base = if root.text.len() == 0 || root.text.last() == root.separator {
        root.text
    } else {
        root.text.push(root.separator)
    };
    base + localized(relative, root.separator)
}

impl Root {
    /// How a path below the root is shown.
    pub fn shown(&self, relative: &str) -> (res: String)
        ensures
            res@ == shown(self@, relative@),
    {
        let mut out = self.text.clone();
        if !out.as_str().is_empty() && !text::ends_with_char(&out, self.separator) {
            out.push(self.separator);
        }
        let ghost base = out@;
        let chars = text::chars_of(relative);
        let mut i: usize = 0;
        while i < chars.len()
            invariant
                i <= chars@.len(),
                chars@ == relative@,
                out@ == base + localized(relative@.take(i as int), self.separator),
            decreases chars@.len() - i,
        {
            let c = chars[i];
            let ghost before = out@;
            out.push(if c == '/' { self.separator } else { c });
            i = i + 1;
            proof {
                assert(out@ =~= base + localized(relative@.take(i as int), self.separator));
            }
        }
        proof {
            assert(relative@.take(i as int) =~= relative@);
        }
        out
    }
}

/// The directory of a path, if it is not the root.
pub open spec fn parent(path: Seq<char>) -> Option<Seq<char>>
    decreases path.len(),
{
    if path.len() == 0 {
        None
    } else if path.last() == '/' {
        Some(path.drop_last())
    } else {
        parent(path.drop_last())
    }
}

/// The directory of a path, if it is not the root.
pub(crate) fn parent_of(path: &str) -> (res: Option<String>)
    ensures
        text::optional_text(res) == parent(path@),
{
    let chars = text::chars_of(path);
    let mut n: usize = chars.len();
    proof {
        assert(path@.take(n as int) =~= path@);
    }
    while n > 0
        invariant
            n <= chars@.len(),
            chars@ == path@,
            parent(path@.take(n as int)) == parent(path@),
        decreases n,
    {
        proof {
            assert(path@.take(n as int).drop_last() =~= path@.take(n - 1));
        }
        if chars[n - 1] == '/' {
            let directory = text::text_of(&chars, 0, n - 1);
            proof {
                assert(directory@ =~= path@.take(n - 1));
            }
            return Some(directory);
        }
        n = n - 1;
    }
    None
}

/// The path itself or the nearest directory above it that is in `paths`.
pub open spec fn nearest(path: Seq<char>, paths: Set<Seq<char>>) -> Option<Seq<char>>
    decreases path.len(),
    via nearest_decreases
{
    if paths.contains(path) {
        Some(path)
    } else {
        match parent(path) {
            Some(directory) => nearest(directory, paths),
            None => None,
        }
    }
}

#[via_fn]
proof fn nearest_decreases(path: Seq<char>, paths: Set<Seq<char>>) {
    lemma_parent(path);
}

/// A path is its directory, a slash and a name without one.
pub proof fn lemma_parent(path: Seq<char>)
    ensures
        match parent(path) {
            Some(directory) => {
                &&& directory.len() < path.len()
                &&& directory.is_prefix_of(path)
                &&& path[directory.len() as int] == '/'
                &&& forall|i: int| directory.len() < i < path.len() ==> #[trigger] path[i] != '/'
            },
            None => forall|i: int| 0 <= i < path.len() ==> #[trigger] path[i] != '/',
        },
    decreases path.len(),
{
    if path.len() > 0 && path.last() != '/' {
        let front = path.drop_last();
        lemma_parent(front);
        assert forall|i: int| 0 <= i < path.len() - 1 implies #[trigger] path[i] == front[i] by {}
    }
}

/// Neither the path nor a directory above it is in `paths` when none is found.
proof fn lemma_nearest(path: Seq<char>, paths: Set<Seq<char>>, above: Seq<char>)
    requires
        nearest(path, paths) is None,
        above == path || patterns::descends(path, above),
    ensures
        !paths.contains(above),
    decreases path.len(),
{
    if above != path {
        lemma_parent(path);
        let at = above.len() as int;
        assert(path[at] == '/');
        let directory = parent(path)->0;
        assert(parent(path) is Some);
        assert(at <= directory.len());
        assert(path.subrange(0, directory.len() as int) =~= directory);
        assert(path.subrange(0, at) =~= above);
        if at == directory.len() {
            assert(above =~= directory);
        } else {
            assert(directory[at] == path[at]);
            assert(directory.subrange(0, at) =~= above);
            assert(above.is_prefix_of(directory));
        }
        lemma_nearest(directory, paths, above);
    }
}

/// The path itself or the nearest directory above it that is in `paths`.
fn nearest_of(path: &str, paths: &StringHashSet) -> (res: Option<String>)
    ensures
        text::optional_text(res) == nearest(path@, paths@),
{
    let mut current = path.to_owned();
    loop
        invariant
            nearest(current@, paths@) == nearest(path@, paths@),
        decreases current@.len(),
    {
        if paths.contains(&current) {
            return Some(current);
        }
        proof {
            lemma_parent(current@);
        }
        match parent_of(&current) {
            Some(directory) => {
                current = directory;
            },
            None => {
                return None;
            },
        }
    }
}

/// The local path of a repository path: the same parts, none of which leads
/// elsewhere than to a child.
pub fn repository_path(path: &str) -> (res: AppResult<String>)
    ensures
        match res {
            Ok(relative) => hub::safe_path(path@) && relative@ == path@,
            Err(error) => !hub::safe_path(path@) && error@ == ErrorView::Message(
                "unsafe repository path: "@ + text::debug_text(path@),
            ),
        },
{
    let parts = split_text(path, '/');
    proof {
        assert(text::texts(parts@).len() == parts@.len());
    }
    if contains_char(path, '\\') || !parts_are_safe(&parts) {
        return Err(detailed_error("unsafe repository path: ", &debug_of(path)));
    }
    Ok(path.to_owned())
}

// ---------------------------------------------------------------------------
// Sidecars
// ---------------------------------------------------------------------------

const FNV1A_64_OFFSET_BASIS: u64 = 0xcbf29ce484222325;

const FNV1A_64_PRIME: u64 = 0x00000100000001b3;

/// The 64-bit FNV-1a hash of bytes.
pub open spec fn fnv1a(bytes: Seq<u8>) -> u64
    decreases bytes.len(),
{
    if bytes.len() == 0 {
        0xcbf29ce484222325
    } else {
        (fnv1a(bytes.drop_last()) ^ (bytes.last() as u64)).wrapping_mul(0x00000100000001b3)
    }
}

/// The 64-bit FNV-1a hash of bytes.
pub fn stable_hash(value: &[u8]) -> (res: u64)
    ensures
        res == fnv1a(value@),
{
    let mut hash: u64 = FNV1A_64_OFFSET_BASIS;
    let mut i: usize = 0;
    while i < value.len()
        invariant
            i <= value@.len(),
            hash == fnv1a(value@.take(i as int)),
        decreases value@.len() - i,
    {
        proof {
            assert(value@.take(i + 1).drop_last() =~= value@.take(i as int));
        }
        hash = (hash ^ (value[i] as u64)).wrapping_mul(FNV1A_64_PRIME);
        i = i + 1;
    }
    proof {
        assert(value@.take(i as int) =~= value@);
    }
    hash
}

/// What the sidecars of a file are named after: the repository and the file.
pub open spec fn identity(repo_type: RepoType, repo: Seq<char>, path: Seq<char>) -> Seq<char> {
    repo_type.singular_word() + "\0"@ + repo + "\0"@ + path
}

/// The name of a file's sidecars without their extension.
pub open spec fn sidecar_stem(repo_type: RepoType, repo: Seq<char>, path: Seq<char>) -> Seq<char> {
    ".xhf-"@ + text::zero_padded(
        text::hexadecimal(fnv1a(vstd::utf8::encode_utf8(identity(repo_type, repo, path))) as nat),
        16,
    )
}

/// The path of `name` in a directory, which is the root when it is empty.
pub open spec fn within(directory: Seq<char>, name: Seq<char>) -> Seq<char> {
    if directory.len() == 0 {
        name
    } else {
        directory + "/"@ + name
    }
}

fn path_within(directory: &str, stem: &str, extension: &str) -> (res: String)
    ensures
        res@ == within(directory@, stem@ + extension@),
{
    let mut name = stem.to_owned();
    name.append(extension);
    if directory.is_empty() {
        return name;
    }
    let mut path = directory.to_owned();
    path.append("/");
    path.append(&name);
    path
}

/// Where the bytes, the metadata and the metadata under way of a file are kept, in
/// the directory of the file.
pub fn sidecar_paths_for(directory: &str, repo_type: RepoType, repo: &str, remote_path: &str) -> (res:
    (String, String, String))
    ensures
        ({
            let stem = sidecar_stem(repo_type, repo@, remote_path@);
            &&& res.0@ == within(directory@, stem + ".part"@)
            &&& res.1@ == within(directory@, stem + ".meta"@)
            &&& res.2@ == within(directory@, stem + ".meta.tmp"@)
        }),
{
    let mut whole = repo_type.singular().to_owned();
    whole.append("\0");
    whole.append(repo);
    whole.append("\0");
    whole.append(remote_path);
    let hash = stable_hash(whole.as_str().as_bytes());
    let mut stem = ".xhf-".to_owned();
    stem.append(&zero_pad(&hexadecimal_text(hash), 16));
    (
        path_within(directory, &stem, ".part"),
        path_within(directory, &stem, ".meta"),
        path_within(directory, &stem, ".meta.tmp"),
    )
}

// ---------------------------------------------------------------------------
// Tasks
// ---------------------------------------------------------------------------

/// One file to download. Its paths are those below the root.
#[derive(Debug)]
pub struct DownloadTask {
    pub index: usize,
    pub remote_path: String,
    pub destination: String,
    pub partial_path: String,
    pub metadata_path: String,
    pub metadata_temporary_path: String,
    pub url: WebUrl,
    pub expected_length: u64,
    pub repo: String,
    pub repo_type: RepoType,
    pub commit: String,
    pub oid: String,
}

/// The value of a [`DownloadTask`].
pub struct DownloadTaskView {
    pub index: nat,
    pub remote_path: Seq<char>,
    pub destination: Seq<char>,
    pub partial_path: Seq<char>,
    pub metadata_path: Seq<char>,
    pub metadata_temporary_path: Seq<char>,
    pub url: WebUrlView,
    pub expected_length: u64,
    pub repo: Seq<char>,
    pub repo_type: RepoType,
    pub commit: Seq<char>,
    pub oid: Seq<char>,
}

impl View for DownloadTask {
    type V = DownloadTaskView;

    open spec fn view(&self) -> DownloadTaskView {
        DownloadTaskView {
            index: self.index as nat,
            remote_path: self.remote_path@,
            destination: self.destination@,
            partial_path: self.partial_path@,
            metadata_path: self.metadata_path@,
            metadata_temporary_path: self.metadata_temporary_path@,
            url: self.url@,
            expected_length: self.expected_length,
            repo: self.repo@,
            repo_type: self.repo_type,
            commit: self.commit@,
            oid: self.oid@,
        }
    }
}

/// The values of tasks.
pub open spec fn task_views(tasks: Seq<DownloadTask>) -> Seq<DownloadTaskView> {
    tasks.map_values(|task: DownloadTask| task@)
}

/// Where files come from and go to: a repository at a commit, and a directory.
pub struct Source<'a> {
    pub client: &'a HubClient,
    pub repo: &'a RepoSpec,
    pub repo_type: RepoType,
    pub revision: &'a str,
    pub root: &'a Root,
}

/// The value of a [`Source`].
pub struct SourceView {
    pub client: HubClientView,
    pub repo: RepoSpecView,
    pub repo_type: RepoType,
    pub revision: Seq<char>,
    pub root: RootView,
}

impl<'a> View for Source<'a> {
    type V = SourceView;

    open spec fn view(&self) -> SourceView {
        SourceView {
            client: self.client@,
            repo: self.repo@,
            repo_type: self.repo_type,
            revision: self.revision@,
            root: self.root@,
        }
    }
}

/// The task that downloads an entry.
pub open spec fn task_for(source: SourceView, index: nat, entry: TreeEntryView) -> Result<
    DownloadTaskView,
    ErrorView,
> {
    if !hub::safe_path(entry.path) {
        Err(ErrorView::Message("unsafe repository path: "@ + text::debug_text(entry.path)))
    } else {
        match client::file_address(
            source.client,
            source.repo,
            source.repo_type,
            source.revision,
            entry.path,
        ) {
            Err(error) => Err(error),
            Ok(url) => {
                let directory = match parent(entry.path) {
                    Some(directory) => directory,
                    None => Seq::empty(),
                };
                let stem = sidecar_stem(source.repo_type, source.repo.written(), entry.path);
                Ok(
                    DownloadTaskView {
                        index,
                        remote_path: entry.path,
                        destination: entry.path,
                        partial_path: within(directory, stem + ".part"@),
                        metadata_path: within(directory, stem + ".meta"@),
                        metadata_temporary_path: within(directory, stem + ".meta.tmp"@),
                        url,
                        expected_length: entry.size,
                        repo: source.repo.written(),
                        repo_type: source.repo_type,
                        commit: source.revision,
                        oid: entry.oid,
                    },
                )
            },
        }
    }
}

/// The sidecars of tasks.
pub open spec fn sidecars(tasks: Seq<DownloadTaskView>) -> Set<Seq<char>>
    decreases tasks.len(),
{
    if tasks.len() == 0 {
        Set::empty()
    } else {
        let task = tasks.last();
        sidecars(tasks.drop_last()).insert(task.partial_path).insert(task.metadata_path).insert(
            task.metadata_temporary_path,
        )
    }
}

/// The destinations of tasks.
pub open spec fn destinations(tasks: Seq<DownloadTaskView>) -> Set<Seq<char>>
    decreases tasks.len(),
{
    if tasks.len() == 0 {
        Set::empty()
    } else {
        destinations(tasks.drop_last()).insert(tasks.last().destination)
    }
}

/// The first sidecar of a task that is taken already.
pub open spec fn taken_sidecar(taken: Set<Seq<char>>, task: DownloadTaskView) -> Option<
    Seq<char>,
> {
    if taken.contains(task.partial_path) {
        Some(task.partial_path)
    } else if taken.insert(task.partial_path).contains(task.metadata_path) {
        Some(task.metadata_path)
    } else if taken.insert(task.partial_path).insert(task.metadata_path).contains(
        task.metadata_temporary_path,
    ) {
        Some(task.metadata_temporary_path)
    } else {
        None
    }
}

/// The tasks that download `files`, one for each in order.
pub open spec fn prepared(source: SourceView, files: Seq<TreeEntryView>) -> Result<
    Seq<DownloadTaskView>,
    ErrorView,
>
    decreases files.len(),
{
    if files.len() == 0 {
        Ok(Seq::empty())
    } else {
        match prepared(source, files.drop_last()) {
            Err(error) => Err(error),
            Ok(tasks) => match task_for(source, (files.len() - 1) as nat, files.last()) {
                Err(error) => Err(error),
                Ok(task) => match taken_sidecar(sidecars(tasks), task) {
                    Some(path) => Err(
                        ErrorView::Message(
                            "selected files produce the same download sidecar path: "@ + shown(
                                source.root,
                                path,
                            ),
                        ),
                    ),
                    None => Ok(tasks.push(task)),
                },
            },
        }
    }
}

/// The first destination that an earlier task has already.
pub open spec fn repeated_destination(tasks: Seq<DownloadTaskView>) -> Option<Seq<char>>
    decreases tasks.len(),
{
    if tasks.len() == 0 {
        None
    } else {
        match repeated_destination(tasks.drop_last()) {
            Some(path) => Some(path),
            None => if destinations(tasks.drop_last()).contains(tasks.last().destination) {
                Some(tasks.last().destination)
            } else {
                None
            },
        }
    }
}

/// The sidecar that lies in the way of a task's destination, or the destination in
/// the way of one of its sidecars.
pub open spec fn sidecar_conflict(
    task: DownloadTaskView,
    all_sidecars: Set<Seq<char>>,
    all_destinations: Set<Seq<char>>,
) -> Option<Seq<char>> {
    match nearest(task.destination, all_sidecars) {
        Some(path) => Some(path),
        None => match nearest(task.partial_path, all_destinations) {
            Some(path) => Some(path),
            None => match nearest(task.metadata_path, all_destinations) {
                Some(path) => Some(path),
                None => nearest(task.metadata_temporary_path, all_destinations),
            },
        },
    }
}

/// The destination that would have to be a directory for a task.
pub open spec fn file_above(task: DownloadTaskView, all_destinations: Set<Seq<char>>) -> Option<
    Seq<char>,
> {
    match parent(task.destination) {
        Some(directory) => nearest(directory, all_destinations),
        None => None,
    }
}

/// Why the first task whose paths are in conflict with others is refused.
pub open spec fn first_conflict(
    root: RootView,
    tasks: Seq<DownloadTaskView>,
    all_sidecars: Set<Seq<char>>,
    all_destinations: Set<Seq<char>>,
) -> Option<Seq<char>>
    decreases tasks.len(),
{
    if tasks.len() == 0 {
        None
    } else {
        match first_conflict(root, tasks.drop_last(), all_sidecars, all_destinations) {
            Some(message) => Some(message),
            None => match sidecar_conflict(tasks.last(), all_sidecars, all_destinations) {
                Some(path) => Some(
                    "download sidecar path conflicts with a selected repository file: "@ + shown(
                        root,
                        path,
                    ),
                ),
                None => match file_above(tasks.last(), all_destinations) {
                    Some(path) => Some(
                        "selected repository file is the parent of another selected file: "@
                            + shown(root, path),
                    ),
                    None => None,
                },
            },
        }
    }
}

/// Why tasks cannot be downloaded together, if they cannot.
pub open spec fn conflict(root: RootView, tasks: Seq<DownloadTaskView>) -> Option<Seq<char>> {
    match repeated_destination(tasks) {
        Some(path) => Some(
            "selected files produce the same download destination: "@ + shown(root, path),
        ),
        None => first_conflict(root, tasks, sidecars(tasks), destinations(tasks)),
    }
}

/// The tasks that download `files`, when they do not get in each other's way.
pub open spec fn planned(source: SourceView, files: Seq<TreeEntryView>) -> Result<
    Seq<DownloadTaskView>,
    ErrorView,
> {
    match prepared(source, files) {
        Err(error) => Err(error),
        Ok(tasks) => match conflict(source.root, tasks) {
            Some(message) => Err(ErrorView::Message(message)),
            None => Ok(tasks),
        },
    }
}

/// The values of tasks, or of the error that stands for them.
pub open spec fn planned_view(result: AppResult<Vec<DownloadTask>>) -> Result<
    Seq<DownloadTaskView>,
    ErrorView,
> {
    match result {
        Ok(tasks) => Ok(task_views(tasks@)),
        Err(error) => Err(error@),
    }
}

/// Whether the addresses of all files are short enough to be written.
pub open spec fn all_addressable(source: SourceView, files: Seq<TreeEntryView>) -> bool {
    forall|i: int|
        0 <= i < files.len() ==> client::addressable(
            source.repo,
            source.revision,
            (#[trigger] files[i]).path,
        )
}

fn prepare_task(source: &Source<'_>, repo: &str, index: usize, entry: &TreeEntry) -> (res: AppResult<
    DownloadTask,
>)
    requires
        client::addressable(source@.repo, source@.revision, entry@.path),
        repo@ == source@.repo.written(),
    ensures
        match res {
            Ok(task) => task_for(source@, index as nat, entry@) == Ok::<
                DownloadTaskView,
                ErrorView,
            >(task@),
            Err(error) => task_for(source@, index as nat, entry@) == Err::<
                DownloadTaskView,
                ErrorView,
            >(error@),
        },
{
    let destination = repository_path(&entry.path)?;
    let directory = match parent_of(&destination) {
        Some(directory) => directory,
        None => String::new(),
    };
    proof {
        assert(directory@ == (match parent(entry@.path) {
            Some(directory) => directory,
            None => Seq::empty(),
        }));
    }
    let url = source.client.file_url(source.repo, source.repo_type, source.revision, &entry.path)?;
    let (partial_path, metadata_path, metadata_temporary_path) = sidecar_paths_for(
        &directory,
        source.repo_type,
        repo,
        &entry.path,
    );
    Ok(
        DownloadTask {
            index,
            remote_path: entry.path.clone(),
            destination,
            partial_path,
            metadata_path,
            metadata_temporary_path,
            url,
            expected_length: entry.size,
            repo: repo.to_owned(),
            repo_type: source.repo_type,
            commit: source.revision.to_owned(),
            oid: entry.oid.clone(),
        },
    )
}

fn path_error(lead: &str, root: &Root, path: &str) -> (res: AppError)
    ensures
        res@ == ErrorView::Message(lead@ + shown(root@, path@)),
{
    detailed_error(lead, &root.shown(path))
}

/// Takes the sidecars of a task, unless one of them is taken already.
fn take_sidecars(taken: &mut StringHashSet, task: &DownloadTask) -> (res: Option<String>)
    ensures
        text::optional_text(res) == taken_sidecar(old(taken)@, task@),
        res is None ==> final(taken)@ == old(taken)@.insert(task@.partial_path).insert(
            task@.metadata_path,
        ).insert(task@.metadata_temporary_path),
{
    if !taken.insert(task.partial_path.clone()) {
        return Some(task.partial_path.clone());
    }
    if !taken.insert(task.metadata_path.clone()) {
        return Some(task.metadata_path.clone());
    }
    if !taken.insert(task.metadata_temporary_path.clone()) {
        return Some(task.metadata_temporary_path.clone());
    }
    None
}

proof fn lemma_preparation_fails(source: SourceView, files: Seq<TreeEntryView>, i: int)
    requires
        0 <= i <= files.len(),
        prepared(source, files.take(i)) is Err,
    ensures
        prepared(source, files) == prepared(source, files.take(i)),
    decreases files.len(),
{
    if i == files.len() {
        assert(files.take(i) =~= files);
    } else {
        assert(files.drop_last().take(i) =~= files.take(i));
        lemma_preparation_fails(source, files.drop_last(), i);
    }
}

/// Plans the download of `files`.
pub fn prepare_tasks(source: &Source<'_>, files: &Vec<TreeEntry>) -> (res: AppResult<
    Vec<DownloadTask>,
>)
    requires
        all_addressable(source@, listing::entry_views(files@)),
    ensures
        planned_view(res) == planned(source@, listing::entry_views(files@)),
{
    let ghost all = listing::entry_views(files@);
    let repo = source.repo.text();
    let mut tasks: Vec<DownloadTask> = Vec::new();
    let mut taken = StringHashSet::new();
    let mut i: usize = 0;
    proof {
        assert(task_views(tasks@) =~= Seq::empty());
    }
    while i < files.len()
        invariant
            i <= files@.len(),
            all == listing::entry_views(files@),
            all_addressable(source@, all),
            repo@ == source@.repo.written(),
            tasks@.len() == i,
            prepared(source@, all.take(i as int)) == Ok::<Seq<DownloadTaskView>, ErrorView>(
                task_views(tasks@),
            ),
            taken@ == sidecars(task_views(tasks@)),
        decreases files@.len() - i,
    {
        proof {
            assert(all.take(i + 1).drop_last() =~= all.take(i as int));
            assert(all.take(i + 1).last() == files@[i as int]@);
            assert(client::addressable(source@.repo, source@.revision, all[i as int].path));
        }
        match prepare_task(source, &repo, i, &files[i]) {
            Err(error) => {
                proof {
                    lemma_preparation_fails(source@, all, i + 1);
                }
                return Err(error);
            },
            Ok(task) => {
                match take_sidecars(&mut taken, &task) {
                    Some(path) => {
                        proof {
                            lemma_preparation_fails(source@, all, i + 1);
                        }
                        return Err(
                            path_error(
                                "selected files produce the same download sidecar path: ",
                                source.root,
                                &path,
                            ),
                        );
                    },
                    None => {},
                }
                let ghost before = tasks@;
                tasks.push(task);
                proof {
                    assert(task_views(tasks@) =~= task_views(before).push(task@));
                    assert(task_views(tasks@).drop_last() =~= task_views(before));
                }
            },
        }
        i = i + 1;
    }
    proof {
        assert(all.take(i as int) =~= all);
    }
    validate_task_paths(source.root, &tasks, &taken)?;
    Ok(tasks)
}

proof fn lemma_repetition_stays(tasks: Seq<DownloadTaskView>, i: int)
    requires
        0 <= i <= tasks.len(),
        repeated_destination(tasks.take(i)) is Some,
    ensures
        repeated_destination(tasks) == repeated_destination(tasks.take(i)),
    decreases tasks.len(),
{
    if i == tasks.len() {
        assert(tasks.take(i) =~= tasks);
    } else {
        assert(tasks.drop_last().take(i) =~= tasks.take(i));
        lemma_repetition_stays(tasks.drop_last(), i);
    }
}

proof fn lemma_conflict_stays(
    root: RootView,
    tasks: Seq<DownloadTaskView>,
    all_sidecars: Set<Seq<char>>,
    all_destinations: Set<Seq<char>>,
    i: int,
)
    requires
        0 <= i <= tasks.len(),
        first_conflict(root, tasks.take(i), all_sidecars, all_destinations) is Some,
    ensures
        first_conflict(root, tasks, all_sidecars, all_destinations) == first_conflict(
            root,
            tasks.take(i),
            all_sidecars,
            all_destinations,
        ),
    decreases tasks.len(),
{
    if i == tasks.len() {
        assert(tasks.take(i) =~= tasks);
    } else {
        assert(tasks.drop_last().take(i) =~= tasks.take(i));
        lemma_conflict_stays(root, tasks.drop_last(), all_sidecars, all_destinations, i);
    }
}

fn conflict_of(task: &DownloadTask, all_sidecars: &StringHashSet, all_destinations: &StringHashSet) -> (res:
    Option<String>)
    ensures
        text::optional_text(res) == sidecar_conflict(task@, all_sidecars@, all_destinations@),
{
    if let Some(path) = nearest_of(&task.destination, all_sidecars) {
        return Some(path);
    }
    if let Some(path) = nearest_of(&task.partial_path, all_destinations) {
        return Some(path);
    }
    if let Some(path) = nearest_of(&task.metadata_path, all_destinations) {
        return Some(path);
    }
    nearest_of(&task.metadata_temporary_path, all_destinations)
}

fn file_above_of(task: &DownloadTask, all_destinations: &StringHashSet) -> (res: Option<String>)
    ensures
        text::optional_text(res) == file_above(task@, all_destinations@),
{
    match parent_of(&task.destination) {
        Some(directory) => nearest_of(&directory, all_destinations),
        None => None,
    }
}

/// Accepts tasks that do not get in each other's way.
fn validate_task_paths(root: &Root, tasks: &Vec<DownloadTask>, all_sidecars: &StringHashSet) -> (res:
    AppResult<()>)
    requires
        all_sidecars@ == sidecars(task_views(tasks@)),
    ensures
        match res {
            Ok(()) => conflict(root@, task_views(tasks@)) is None,
            Err(error) => conflict(root@, task_views(tasks@)) matches Some(message) && error@
                == ErrorView::Message(message),
        },
{
    let ghost all = task_views(tasks@);
    let mut paths = StringHashSet::new();
    let mut i: usize = 0;
    while i < tasks.len()
        invariant
            i <= tasks@.len(),
            all == task_views(tasks@),
            paths@ == destinations(all.take(i as int)),
            repeated_destination(all.take(i as int)) is None,
        decreases tasks@.len() - i,
    {
        proof {
            assert(all.take(i + 1).drop_last() =~= all.take(i as int));
            assert(all.take(i + 1).last() == tasks@[i as int]@);
        }
        if !paths.insert(tasks[i].destination.clone()) {
            proof {
                lemma_repetition_stays(all, i + 1);
            }
            return Err(
                path_error(
                    "selected files produce the same download destination: ",
                    root,
                    &tasks[i].destination,
                ),
            );
        }
        i = i + 1;
    }
    proof {
        assert(all.take(i as int) =~= all);
    }
    let mut k: usize = 0;
    while k < tasks.len()
        invariant
            k <= tasks@.len(),
            all == task_views(tasks@),
            all_sidecars@ == sidecars(all),
            paths@ == destinations(all),
            repeated_destination(all) is None,
            first_conflict(root@, all.take(k as int), all_sidecars@, paths@) is None,
        decreases tasks@.len() - k,
    {
        proof {
            assert(all.take(k + 1).drop_last() =~= all.take(k as int));
            assert(all.take(k + 1).last() == tasks@[k as int]@);
        }
        if let Some(path) = conflict_of(&tasks[k], all_sidecars, &paths) {
            proof {
                lemma_conflict_stays(root@, all, all_sidecars@, paths@, k + 1);
            }
            return Err(
                path_error(
                    "download sidecar path conflicts with a selected repository file: ",
                    root,
                    &path,
                ),
            );
        }
        if let Some(path) = file_above_of(&tasks[k], &paths) {
            proof {
                lemma_conflict_stays(root@, all, all_sidecars@, paths@, k + 1);
            }
            return Err(
                path_error(
                    "selected repository file is the parent of another selected file: ",
                    root,
                    &path,
                ),
            );
        }
        k = k + 1;
    }
    proof {
        assert(all.take(k as int) =~= all);
    }
    Ok(())
}

// ---------------------------------------------------------------------------
// Laws
// ---------------------------------------------------------------------------

/// Whether one path is the other or stands below it.
pub open spec fn overlap(below: Seq<char>, above: Seq<char>) -> bool {
    below == above || patterns::descends(below, above)
}

/// Whether a path is one of a task's sidecars.
pub open spec fn is_sidecar(task: DownloadTaskView, path: Seq<char>) -> bool {
    ||| path == task.partial_path
    ||| path == task.metadata_path
    ||| path == task.metadata_temporary_path
}

proof fn lemma_members(tasks: Seq<DownloadTaskView>, i: int, path: Seq<char>)
    requires
        0 <= i < tasks.len(),
    ensures
        destinations(tasks).contains(tasks[i].destination),
        is_sidecar(tasks[i], path) ==> sidecars(tasks).contains(path),
    decreases tasks.len(),
{
    if i < tasks.len() - 1 {
        lemma_members(tasks.drop_last(), i, path);
    }
}

proof fn lemma_destinations_differ(tasks: Seq<DownloadTaskView>, i: int, j: int)
    requires
        repeated_destination(tasks) is None,
        0 <= i < j < tasks.len(),
    ensures
        tasks[i].destination != tasks[j].destination,
    decreases tasks.len(),
{
    if j == tasks.len() - 1 {
        lemma_members(tasks.drop_last(), i, Seq::empty());
    } else {
        lemma_destinations_differ(tasks.drop_last(), i, j);
    }
}

proof fn lemma_no_conflict_at(
    root: RootView,
    tasks: Seq<DownloadTaskView>,
    all_sidecars: Set<Seq<char>>,
    all_destinations: Set<Seq<char>>,
    i: int,
)
    requires
        first_conflict(root, tasks, all_sidecars, all_destinations) is None,
        0 <= i < tasks.len(),
    ensures
        sidecar_conflict(tasks[i], all_sidecars, all_destinations) is None,
        file_above(tasks[i], all_destinations) is None,
    decreases tasks.len(),
{
    if i < tasks.len() - 1 {
        lemma_no_conflict_at(root, tasks.drop_last(), all_sidecars, all_destinations, i);
    }
}

proof fn lemma_prepared_tasks(source: SourceView, files: Seq<TreeEntryView>)
    requires
        prepared(source, files) is Ok,
    ensures
        ({
            let tasks = prepared(source, files)->Ok_0;
            &&& tasks.len() == files.len()
            &&& forall|i: int|
                0 <= i < files.len() ==> task_for(source, i as nat, files[i]) == Ok::<
                    DownloadTaskView,
                    ErrorView,
                >(#[trigger] tasks[i])
            &&& forall|i: int, j: int, path: Seq<char>|
                #![trigger is_sidecar(tasks[i], path), is_sidecar(tasks[j], path)]
                0 <= i < j < tasks.len() ==> !(is_sidecar(tasks[i], path) && is_sidecar(
                    tasks[j],
                    path,
                ))
        }),
    decreases files.len(),
{
    if files.len() > 0 {
        let front = files.drop_last();
        lemma_prepared_tasks(source, front);
        let tasks = prepared(source, files)->Ok_0;
        let before = prepared(source, front)->Ok_0;
        assert forall|i: int| 0 <= i < files.len() implies task_for(source, i as nat, files[i])
            == Ok::<DownloadTaskView, ErrorView>(#[trigger] tasks[i]) by {
            if i < front.len() {
                assert(tasks[i] == before[i]);
                assert(front[i] == files[i]);
            }
        }
        assert forall|i: int, j: int, path: Seq<char>|
            #![trigger is_sidecar(tasks[i], path), is_sidecar(tasks[j], path)]
            0 <= i < j < tasks.len() implies !(is_sidecar(tasks[i], path) && is_sidecar(
            tasks[j],
            path,
        )) by {
            assert(tasks[i] == before[i]);
            if j < before.len() {
                assert(tasks[j] == before[j]);
                assert(!(is_sidecar(before[i], path) && is_sidecar(before[j], path)));
            } else if is_sidecar(tasks[i], path) {
                lemma_members(before, i, path);
            }
        }
    }
}

/// Planned tasks do not get in each other's way: there is one for each file, stored
/// at the file's own path; no two files share a destination or a sidecar; no
/// destination is a sidecar, lies below one or above one; and no destination lies
/// below another.
pub proof fn lemma_tasks_do_not_collide(source: SourceView, files: Seq<TreeEntryView>)
    ensures
        planned(source, files) matches Ok(tasks) ==> {
            &&& tasks.len() == files.len()
            &&& forall|i: int|
                0 <= i < files.len() ==> (#[trigger] tasks[i]).destination == files[i].path
                    && hub::safe_path(files[i].path) && tasks[i].index == i
            &&& forall|i: int, j: int|
                0 <= i < tasks.len() && 0 <= j < tasks.len() && i != j ==> !overlap(
                    (#[trigger] tasks[i]).destination,
                    (#[trigger] tasks[j]).destination,
                )
            &&& forall|i: int, j: int, path: Seq<char>|
                #![trigger is_sidecar(tasks[i], path), is_sidecar(tasks[j], path)]
                0 <= i < j < tasks.len() ==> !(is_sidecar(tasks[i], path) && is_sidecar(
                    tasks[j],
                    path,
                ))
            &&& forall|i: int, j: int, path: Seq<char>|
                #![trigger tasks[i].destination, is_sidecar(tasks[j], path)]
                0 <= i < tasks.len() && 0 <= j < tasks.len() && is_sidecar(tasks[j], path)
                    ==> !overlap(tasks[i].destination, path) && !overlap(
                    path,
                    tasks[i].destination,
                )
        },
{
    if planned(source, files) is Ok {
        let tasks = planned(source, files)->Ok_0;
        lemma_prepared_tasks(source, files);
        let all_sidecars = sidecars(tasks);
        let all_destinations = destinations(tasks);
        assert forall|i: int, j: int|
            0 <= i < tasks.len() && 0 <= j < tasks.len() && i != j implies !overlap(
            (#[trigger] tasks[i]).destination,
            (#[trigger] tasks[j]).destination,
        ) by {
            if i < j {
                lemma_destinations_differ(tasks, i, j);
            } else {
                lemma_destinations_differ(tasks, j, i);
            }
            lemma_members(tasks, j, Seq::empty());
            lemma_no_conflict_at(source.root, tasks, all_sidecars, all_destinations, i);
            let below = tasks[i].destination;
            let above = tasks[j].destination;
            if patterns::descends(below, above) {
                lemma_below_directory(below, above);
                lemma_nearest(parent(below)->0, all_destinations, above);
            }
        }
        assert forall|i: int, j: int, path: Seq<char>|
            #![trigger tasks[i].destination, is_sidecar(tasks[j], path)]
            0 <= i < tasks.len() && 0 <= j < tasks.len() && is_sidecar(
                tasks[j],
                path,
            ) implies !overlap(tasks[i].destination, path) && !overlap(
            path,
            tasks[i].destination,
        ) by {
            lemma_members(tasks, j, path);
            lemma_members(tasks, i, path);
            lemma_no_conflict_at(source.root, tasks, all_sidecars, all_destinations, i);
            lemma_no_conflict_at(source.root, tasks, all_sidecars, all_destinations, j);
            if overlap(tasks[i].destination, path) {
                lemma_nearest(tasks[i].destination, all_sidecars, path);
            }
            if overlap(path, tasks[i].destination) {
                lemma_nearest(path, all_destinations, tasks[i].destination);
            }
        }
    }
}

/// What lies below a path lies in a directory that is the path or lies below it.
proof fn lemma_below_directory(below: Seq<char>, above: Seq<char>)
    requires
        patterns::descends(below, above),
    ensures
        parent(below) is Some,
        overlap(parent(below)->0, above),
{
    lemma_parent(below);
    let at = above.len() as int;
    assert(below[at] == '/');
    let directory = parent(below)->0;
    assert(at <= directory.len());
    assert(below.subrange(0, directory.len() as int) =~= directory);
    assert(below.subrange(0, at) =~= above);
    if at == directory.len() {
        assert(above =~= directory);
    } else {
        assert(directory[at] == below[at]);
        assert(directory.subrange(0, at) =~= above);
    }
}

/// The values of tasks are those of each task, in their order; a result that plans them is
/// worth what it holds, or the very error.
pub proof fn lemma_values_of_tasks(tasks: Seq<DownloadTask>, result: AppResult<Vec<DownloadTask>>)
    ensures
        task_views(tasks).len() == tasks.len(),
        forall|i: int| 0 <= i < tasks.len() ==> #[trigger] task_views(tasks)[i] == tasks[i]@,
        result matches Ok(plan) ==> planned_view(result) == Ok::<Seq<DownloadTaskView>, ErrorView>(
            task_views(plan@),
        ),
        result matches Err(error) ==> planned_view(result) == Err::<
            Seq<DownloadTaskView>,
            ErrorView,
        >(error@),
{
}

/// A path is shown behind the root, with one separator between them, and with the separator
/// of the machine wherever it has a slash.
pub proof fn lemma_paths_are_shown_below_the_root(root: RootView, relative: Seq<char>)
    ensures
        ({
            let text = shown(root, relative);
            let lead = text.len() - relative.len();
            &&& root.text.len() == 0 || root.text.last() == root.separator ==> text.take(lead)
                == root.text
            &&& root.text.len() > 0 && root.text.last() != root.separator ==> text.take(lead)
                == root.text.push(root.separator)
            &&& forall|i: int|
                0 <= i < relative.len() ==> (#[trigger] text[lead + i] == if relative[i] == '/' {
                    root.separator
                } else {
                    relative[i]
                })
        }),
{
    let text = shown(root, relative);
    let lead = text.len() - relative.len();
    let base = if root.text.len() == 0 || root.text.last() == root.separator {
        root.text
    } else {
        root.text.push(root.separator)
    };
    assert(text.take(lead) =~= base);
}

/// A path below the root is its name alone, or its directory, a slash and its name.
pub proof fn lemma_paths_stand_in_their_directory(directory: Seq<char>, name: Seq<char>)
    ensures
        within(Seq::empty(), name) == name,
        directory.len() > 0 ==> within(directory, name) == directory + seq!['/'] + name,
        directory.len() > 0 && !name.contains('/') ==> parent(within(directory, name)) == Some(
            directory,
        ),
        !name.contains('/') ==> parent(name) is None,
{
    reveal_strlit("/");
    assert("/"@ =~= seq!['/']);
    lemma_parent(name);
    if !name.contains('/') && parent(name) is Some {
        assert(name[parent(name)->0.len() as int] == '/');
    }
    if directory.len() > 0 && !name.contains('/') {
        let path = within(directory, name);
        lemma_parent(path);
        assert(path[directory.len() as int] == '/');
        let found = parent(path)->0;
        if found.len() < directory.len() {
            assert(path[directory.len() as int] != '/');
        }
        if found.len() > directory.len() {
            assert(path[found.len() as int] == name[found.len() - directory.len() - 1]);
        }
        assert(found =~= directory) by {
            assert(path.subrange(0, found.len() as int) == found);
            assert(path.subrange(0, directory.len() as int) =~= directory);
        }
    }
}

/// The hash of bytes begins with a fixed number and takes one byte after the other: the byte
/// changes its lowest bits, and the whole is multiplied by a fixed prime, in 64 bits.
pub proof fn lemma_hash_takes_one_byte_after_the_other(bytes: Seq<u8>, byte: u8)
    ensures
        fnv1a(Seq::empty()) == 14695981039346656037,
        fnv1a(bytes.push(byte)) as int == ((fnv1a(bytes) ^ (byte as u64)) * 1099511628211)
            % 0x1_0000_0000_0000_0000,
{
    assert(bytes.push(byte).drop_last() =~= bytes);
}

/// The sidecars of a file stand beside it, hidden, and are named after a hash of the type,
/// the repository and the path, in sixteen digits or more. What they hold tells them apart.
pub proof fn lemma_sidecars_are_named_after_the_file(
    repo_type: RepoType,
    repo: Seq<char>,
    path: Seq<char>,
)
    ensures
        ({
            let word = match repo_type {
                RepoType::Model => "model"@,
                RepoType::Dataset => "dataset"@,
                RepoType::Space => "space"@,
            };
            let hash = fnv1a(
                vstd::utf8::encode_utf8(word + seq!['\0'] + repo + seq!['\0'] + path),
            );
            let stem = sidecar_stem(repo_type, repo, path);
            &&& stem.take(5) == ".xhf-"@
            &&& stem.skip(5) == text::zero_padded(text::hexadecimal(hash as nat), 16)
            &&& stem.len() >= 21
            &&& forall|i: int|
                5 <= i < stem.len() ==> '0' <= #[trigger] stem[i] <= '9' || 'a' <= stem[i] <= 'f'
        }),
{
    reveal_strlit(".xhf-");
    reveal_strlit("\0");
    assert("\0"@ =~= seq!['\0']);
    let whole = identity(repo_type, repo, path);
    let stem = sidecar_stem(repo_type, repo, path);
    let digits = text::hexadecimal(fnv1a(vstd::utf8::encode_utf8(whole)) as nat);
    let padded = text::zero_padded(digits, 16);
    text::lemma_padding_adds_zeros(digits, 16);
    text::lemma_hexadecimal_is_positional(fnv1a(vstd::utf8::encode_utf8(whole)) as nat);
    assert(stem.take(5) =~= ".xhf-"@);
    assert(stem.skip(5) =~= padded);
    assert forall|i: int| 5 <= i < stem.len() implies '0' <= #[trigger] stem[i] <= '9' || 'a'
        <= stem[i] <= 'f' by {
        let k = i - 5;
        let zeros = padded.len() - digits.len();
        assert(stem[i] == padded[k]);
        if k >= zeros {
            assert(padded.skip(zeros)[k - zeros] == padded[k]);
            assert(digits[k - zeros] == padded[k]);
        }
    }
}

/// The task of a file is made exactly if its path stays inside the repository and an address
/// can be made. It asks for that address and takes over what is known of the file, and
/// stores it at its own path, with its sidecars beside it.
pub proof fn lemma_tasks_take_over_what_is_known(
    source: SourceView,
    index: nat,
    entry: TreeEntryView,
)
    ensures
        task_for(source, index, entry) is Ok <==> hub::safe_path(entry.path) && source.revision.len()
            > 0 && source.client.parsed.is_base,
        !hub::safe_path(entry.path) ==> task_for(source, index, entry) == Err::<
            DownloadTaskView,
            ErrorView,
        >(ErrorView::Message("unsafe repository path: "@ + text::debug_text(entry.path))),
        task_for(source, index, entry) matches Ok(task) ==> {
            let stem = sidecar_stem(source.repo_type, source.repo.written(), entry.path);
            let beside = |name: Seq<char>|
                match parent(entry.path) {
                    Some(directory) => directory + seq!['/'] + name,
                    None => name,
                };
            &&& task.index == index
            &&& task.remote_path == entry.path
            &&& task.destination == entry.path
            &&& task.partial_path == beside(stem + ".part"@)
            &&& task.metadata_path == beside(stem + ".meta"@)
            &&& task.metadata_temporary_path == beside(stem + ".meta.tmp"@)
            &&& client::file_address(
                source.client,
                source.repo,
                source.repo_type,
                source.revision,
                entry.path,
            ) == Ok::<WebUrlView, ErrorView>(task.url)
            &&& task.expected_length == entry.size
            &&& task.repo == source.repo.owner + seq!['/'] + source.repo.name
            &&& task.repo_type == source.repo_type
            &&& task.commit == source.revision
            &&& task.oid == entry.oid
        },
{
    client::lemma_files_are_addressed_below_their_repository(
        source.client,
        source.repo,
        source.repo_type,
        source.revision,
        entry.path,
    );
    reveal_strlit("/");
    assert("/"@ =~= seq!['/']);
    hub::lemma_accepted_paths_stay_inside(entry.path, true);
    if hub::safe_path(entry.path) {
        if let Some(directory) = parent(entry.path) {
            lemma_parent(entry.path);
            if directory.len() == 0 {
                assert(text::is_part(entry.path, '/', 0, 0));
                assert(entry.path.subrange(0, 0) =~= Seq::<char>::empty());
            }
        }
    }
}

proof fn lemma_origins(tasks: Seq<DownloadTaskView>, path: Seq<char>)
    ensures
        destinations(tasks).contains(path) ==> exists|i: int|
            0 <= i < tasks.len() && (#[trigger] tasks[i]).destination == path,
        sidecars(tasks).contains(path) ==> exists|i: int|
            0 <= i < tasks.len() && is_sidecar(#[trigger] tasks[i], path),
    decreases tasks.len(),
{
    if tasks.len() > 0 {
        let front = tasks.drop_last();
        let n = tasks.len() - 1;
        lemma_origins(front, path);
        assert(forall|i: int| 0 <= i < front.len() ==> #[trigger] front[i] == tasks[i]);
        if destinations(front).contains(path) {
            let i = choose|i: int| 0 <= i < front.len() && (#[trigger] front[i]).destination == path;
            assert(tasks[i].destination == path);
        }
        if sidecars(front).contains(path) {
            let i = choose|i: int| 0 <= i < front.len() && is_sidecar(#[trigger] front[i], path);
            assert(is_sidecar(tasks[i], path));
        }
        if tasks[n].destination == path {
            assert(tasks[n].destination == path);
        }
        if is_sidecar(tasks[n], path) {
            assert(is_sidecar(tasks[n], path));
        }
    }
}

proof fn lemma_nearest_is_above(path: Seq<char>, paths: Set<Seq<char>>)
    ensures
        nearest(path, paths) matches Some(found) ==> paths.contains(found) && overlap(path, found),
    decreases path.len(),
{
    if !paths.contains(path) {
        lemma_parent(path);
        if let Some(directory) = parent(path) {
            lemma_nearest_is_above(directory, paths);
            if let Some(found) = nearest(directory, paths) {
                assert(path.subrange(0, directory.len() as int) == directory);
                if found == directory {
                    assert(patterns::descends(path, found));
                } else {
                    assert(directory.subrange(0, found.len() as int) == found);
                    assert(path.subrange(0, found.len() as int) =~= found);
                    assert(path[found.len() as int] == directory[found.len() as int]);
                    assert(patterns::descends(path, found));
                }
            }
        }
    }
}

proof fn lemma_extensions_differ(source: SourceView, index: nat, entry: TreeEntryView)
    ensures
        task_for(source, index, entry) matches Ok(task) ==> task.partial_path
            != task.metadata_path && task.partial_path != task.metadata_temporary_path
            && task.metadata_path != task.metadata_temporary_path,
{
    reveal_strlit(".part");
    reveal_strlit(".meta");
    reveal_strlit(".meta.tmp");
    if let Ok(task) = task_for(source, index, entry) {
        assert(task.partial_path.last() == 't');
        assert(task.metadata_path.last() == 'a');
        assert(task.metadata_temporary_path.last() == 'p');
    }
}

proof fn lemma_all_are_prepared(
    source: SourceView,
    files: Seq<TreeEntryView>,
    tasks: Seq<DownloadTaskView>,
)
    requires
        tasks.len() == files.len(),
        forall|i: int|
            0 <= i < files.len() ==> task_for(source, i as nat, files[i]) == Ok::<
                DownloadTaskView,
                ErrorView,
            >(#[trigger] tasks[i]),
        forall|i: int, j: int, path: Seq<char>|
            #![trigger is_sidecar(tasks[i], path), is_sidecar(tasks[j], path)]
            0 <= i < j < tasks.len() ==> !(is_sidecar(tasks[i], path) && is_sidecar(
                tasks[j],
                path,
            )),
    ensures
        prepared(source, files) == Ok::<Seq<DownloadTaskView>, ErrorView>(tasks),
    decreases files.len(),
{
    if files.len() == 0 {
        assert(tasks =~= Seq::empty());
    } else {
        let n = files.len() - 1;
        let front = files.drop_last();
        let before = tasks.drop_last();
        assert forall|i: int| 0 <= i < front.len() implies task_for(source, i as nat, front[i])
            == Ok::<DownloadTaskView, ErrorView>(#[trigger] before[i]) by {
            assert(before[i] == tasks[i]);
            assert(front[i] == files[i]);
        }
        assert forall|i: int, j: int, path: Seq<char>|
            #![trigger is_sidecar(before[i], path), is_sidecar(before[j], path)]
            0 <= i < j < before.len() implies !(is_sidecar(before[i], path) && is_sidecar(
            before[j],
            path,
        )) by {
            assert(before[i] == tasks[i] && before[j] == tasks[j]);
            assert(!(is_sidecar(tasks[i], path) && is_sidecar(tasks[j], path)));
        }
        lemma_all_are_prepared(source, front, before);
        let task = tasks[n];
        lemma_extensions_differ(source, n as nat, files[n]);
        assert forall|path: Seq<char>| #[trigger] is_sidecar(task, path) implies !sidecars(
            before,
        ).contains(path) by {
            lemma_origins(before, path);
            if sidecars(before).contains(path) {
                let i = choose|i: int|
                    0 <= i < before.len() && is_sidecar(#[trigger] before[i], path);
                assert(is_sidecar(tasks[i], path));
                assert(is_sidecar(tasks[n], path));
            }
        }
        assert(is_sidecar(task, task.partial_path));
        assert(is_sidecar(task, task.metadata_path));
        assert(is_sidecar(task, task.metadata_temporary_path));
        assert(taken_sidecar(sidecars(before), task) is None);
        assert(before.push(task) =~= tasks);
    }
}

proof fn lemma_nothing_repeats(tasks: Seq<DownloadTaskView>)
    requires
        forall|i: int, j: int|
            0 <= i < j < tasks.len() ==> (#[trigger] tasks[i]).destination != (
            #[trigger] tasks[j]).destination,
    ensures
        repeated_destination(tasks) is None,
    decreases tasks.len(),
{
    if tasks.len() > 0 {
        let front = tasks.drop_last();
        let n = tasks.len() - 1;
        assert(forall|i: int| 0 <= i < front.len() ==> #[trigger] front[i] == tasks[i]);
        assert forall|i: int, j: int| 0 <= i < j < front.len() implies (
        #[trigger] front[i]).destination != (#[trigger] front[j]).destination by {
            assert(tasks[i].destination != tasks[j].destination);
        }
        lemma_nothing_repeats(front);
        lemma_origins(front, tasks[n].destination);
        if destinations(front).contains(tasks[n].destination) {
            let i = choose|i: int|
                0 <= i < front.len() && (#[trigger] front[i]).destination == tasks[n].destination;
            assert(tasks[i].destination != tasks[n].destination);
        }
    }
}

proof fn lemma_nothing_conflicts(root: RootView, tasks: Seq<DownloadTaskView>, count: int)
    requires
        0 <= count <= tasks.len(),
        forall|i: int, j: int|
            0 <= i < tasks.len() && 0 <= j < tasks.len() && i != j ==> !overlap(
                (#[trigger] tasks[i]).destination,
                (#[trigger] tasks[j]).destination,
            ),
        forall|i: int, j: int, path: Seq<char>|
            #![trigger tasks[i].destination, is_sidecar(tasks[j], path)]
            0 <= i < tasks.len() && 0 <= j < tasks.len() && is_sidecar(tasks[j], path) ==> !overlap(
                tasks[i].destination,
                path,
            ) && !overlap(path, tasks[i].destination),
    ensures
        first_conflict(root, tasks.take(count), sidecars(tasks), destinations(tasks)) is None,
    decreases count,
{
    if count > 0 {
        let k = count - 1;
        let task = tasks[k];
        let all_sidecars = sidecars(tasks);
        let all_destinations = destinations(tasks);
        lemma_nothing_conflicts(root, tasks, k);
        assert(tasks.take(count).drop_last() =~= tasks.take(k));
        assert(tasks.take(count).last() == task);
        lemma_nearest_is_above(task.destination, all_sidecars);
        if let Some(found) = nearest(task.destination, all_sidecars) {
            lemma_origins(tasks, found);
            let j = choose|j: int| 0 <= j < tasks.len() && is_sidecar(#[trigger] tasks[j], found);
            assert(!overlap(tasks[k].destination, found));
        }
        assert forall|path: Seq<char>| #[trigger] is_sidecar(task, path) implies nearest(
            path,
            all_destinations,
        ) is None by {
            lemma_nearest_is_above(path, all_destinations);
            if let Some(found) = nearest(path, all_destinations) {
                lemma_origins(tasks, found);
                let j = choose|j: int|
                    0 <= j < tasks.len() && (#[trigger] tasks[j]).destination == found;
                assert(is_sidecar(tasks[k], path));
                assert(!overlap(path, tasks[j].destination));
            }
        }
        assert(is_sidecar(task, task.partial_path));
        assert(is_sidecar(task, task.metadata_path));
        assert(is_sidecar(task, task.metadata_temporary_path));
        if let Some(directory) = parent(task.destination) {
            lemma_nearest_is_above(directory, all_destinations);
            if let Some(found) = nearest(directory, all_destinations) {
                lemma_origins(tasks, found);
                let j = choose|j: int|
                    0 <= j < tasks.len() && (#[trigger] tasks[j]).destination == found;
                lemma_parent(task.destination);
                let path = task.destination;
                assert(path.subrange(0, directory.len() as int) == directory);
                if found != directory {
                    assert(directory.subrange(0, found.len() as int) == found);
                    assert(path.subrange(0, found.len() as int) =~= found);
                    assert(path[found.len() as int] == directory[found.len() as int]);
                }
                assert(overlap(path, found));
                assert(found.len() < path.len());
                assert(j != k);
                assert(!overlap(tasks[k].destination, tasks[j].destination));
            }
        }
    }
}

/// Files that do not get in each other's way are planned: if each has a task, no destination
/// is another one or lies below it, no two files share a sidecar, and no sidecar is a
/// destination, lies below one or above one, the plan is those tasks.
pub proof fn lemma_files_that_do_not_collide_are_planned(
    source: SourceView,
    files: Seq<TreeEntryView>,
    tasks: Seq<DownloadTaskView>,
)
    requires
        tasks.len() == files.len(),
        forall|i: int|
            0 <= i < files.len() ==> task_for(source, i as nat, files[i]) == Ok::<
                DownloadTaskView,
                ErrorView,
            >(#[trigger] tasks[i]),
        forall|i: int, j: int|
            0 <= i < tasks.len() && 0 <= j < tasks.len() && i != j ==> !overlap(
                (#[trigger] tasks[i]).destination,
                (#[trigger] tasks[j]).destination,
            ),
        forall|i: int, j: int, path: Seq<char>|
            #![trigger is_sidecar(tasks[i], path), is_sidecar(tasks[j], path)]
            0 <= i < j < tasks.len() ==> !(is_sidecar(tasks[i], path) && is_sidecar(
                tasks[j],
                path,
            )),
        forall|i: int, j: int, path: Seq<char>|
            #![trigger tasks[i].destination, is_sidecar(tasks[j], path)]
            0 <= i < tasks.len() && 0 <= j < tasks.len() && is_sidecar(tasks[j], path) ==> !overlap(
                tasks[i].destination,
                path,
            ) && !overlap(path, tasks[i].destination),
    ensures
        planned(source, files) == Ok::<Seq<DownloadTaskView>, ErrorView>(tasks),
{
    lemma_all_are_prepared(source, files, tasks);
    assert forall|i: int, j: int| 0 <= i < j < tasks.len() implies (
    #[trigger] tasks[i]).destination != (#[trigger] tasks[j]).destination by {
        assert(!overlap(tasks[i].destination, tasks[j].destination));
    }
    lemma_nothing_repeats(tasks);
    lemma_nothing_conflicts(source.root, tasks, tasks.len() as int);
    assert(tasks.take(tasks.len() as int) =~= tasks);
}

} // verus!
