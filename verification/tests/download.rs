use xhf::cli::{RepoSpec, RepoType};
use xhf::config::ConfigDirectory;
use xhf::download::batch::{
    check_work, collect_range_work, worker_count, Batch, BatchAction, BatchEvent, PhaseEvent,
    WorkItem, WorkKind,
};
use xhf::download::files::{
    destination_root, directories_of, ensure_directory, prepare_root, prepare_task_directories,
    regular_file_length, PathStatus, Preflight,
};
use xhf::download::progress::{report_is_due, start_batch, ProgressWriter};
use xhf::download::ranges::{partition_interval, partition_ranges, ranges_are_valid, RangeProgress};
use xhf::download::response::{
    accept_full_response, accept_range_response, if_range_validator, parse_content_range,
    ExpectedRange, FileResponse, RangeAnswer,
};
use xhf::download::resume::{
    check_partial_length, fresh_metadata, full_range, full_request, is_recovered, prepare_transfer,
    repartition_unfinished_ranges, transferred_bytes, trust_metadata, FileTransfer, MetadataRead,
    ResumeMetadataV1, Storage, RESUME_VERSION,
};
use xhf::download::selection::{check_jobs, dry_run_text, select_files, total_bytes};
use xhf::download::tasks::{
    prepare_tasks, repository_path, sidecar_paths_for, stable_hash, DownloadTask, Root, Source,
};
use xhf::download::units::{format_bytes, format_duration, format_eta, format_transfer, Estimate};
use xhf::download::writer::{RangeWriter, WriterAction, WriterEvent, COPY_BUFFER_SIZE};
use xhf::error::{AppError, AppResult, IoFailure, IoKind};
use xhf::hub::client::HubClient;
use xhf::hub::{accept_revision, HeaderValue, TreeEntry};
use xhf::patterns::PatternSet;
use xhf::url::WebUrl;

const COMMIT: &str = "0123456789abcdef0123456789abcdef01234567";

fn failure(kind: IoKind) -> IoFailure {
    IoFailure { kind, text: "denied".to_owned() }
}

fn message(text: &str) -> AppError {
    AppError::message(text.to_owned())
}

fn root() -> Root {
    Root { text: "/downloads".to_owned(), separator: '/' }
}

fn range(start: u64, next: u64, end: u64) -> RangeProgress {
    RangeProgress { start, next, end }
}

fn entry(path: &str, size: u64) -> TreeEntry {
    TreeEntry {
        entry_type: "file".to_owned(),
        oid: "1".to_owned(),
        size,
        path: path.to_owned(),
    }
}

fn local_task(expected_length: u64) -> DownloadTask {
    let url = WebUrl::parse(&format!(
        "https://huggingface.co/owner/repo/resolve/{COMMIT}/weights.bin"
    ))
    .unwrap();
    let (partial_path, metadata_path, metadata_temporary_path) =
        sidecar_paths_for("", RepoType::Model, "owner/repo", "weights.bin");
    DownloadTask {
        index: 0,
        remote_path: "weights.bin".to_owned(),
        destination: "weights.bin".to_owned(),
        partial_path,
        metadata_path,
        metadata_temporary_path,
        url,
        expected_length,
        repo: "owner/repo".to_owned(),
        repo_type: RepoType::Model,
        commit: COMMIT.to_owned(),
        oid: "oid".to_owned(),
    }
}

fn tasks_for(files: &Vec<TreeEntry>) -> AppResult<Vec<DownloadTask>> {
    let client = HubClient::new(None).unwrap();
    let repo: RepoSpec = "owner/repo".parse().unwrap();
    let root = root();
    prepare_tasks(
        &Source {
            client: &client,
            repo: &repo,
            repo_type: RepoType::Model,
            revision: "main",
            root: &root,
        },
        files,
    )
}

// Paths and tasks

#[test]
fn converts_repository_paths_without_traversal() {
    assert_eq!(repository_path("folder/file.txt").unwrap(), "folder/file.txt");
    assert!(repository_path("../file.txt").is_err());
    assert!(repository_path("folder\\file.txt").is_err());
}

#[test]
fn refuses_empty_repository_paths() {
    for path in ["", "a//b", "/a", "a/"] {
        assert_eq!(
            repository_path(path).unwrap_err().text(),
            format!("unsafe repository path: {path:?}")
        );
    }
}

#[test]
fn derives_stable_sidecar_names_from_repository_identity() {
    assert_eq!(stable_hash(b""), 0xcbf29ce484222325);
    assert_eq!(stable_hash(b"a"), 0xaf63dc4c8601ec8c);
    let directory = "sidecar-names";
    let first = sidecar_paths_for(directory, RepoType::Model, "o/r", "a.bin");
    let same = sidecar_paths_for(directory, RepoType::Model, "o/r", "a.bin");
    let second = sidecar_paths_for(directory, RepoType::Model, "o/r", "b.bin");
    assert_eq!(first, same);
    assert_ne!(first, second);
    let extension = |path: &str| {
        std::path::Path::new(path)
            .extension()
            .and_then(|extension| extension.to_str())
            .map(str::to_owned)
    };
    assert_eq!(extension(&first.0).as_deref(), Some("part"));
    assert_eq!(extension(&first.1).as_deref(), Some("meta"));
}

#[test]
fn sidecars_stand_beside_the_file() {
    let hash = stable_hash(b"dataset\0o/r\0d/a.bin");
    let (partial, metadata, temporary) =
        sidecar_paths_for("d", RepoType::Dataset, "o/r", "d/a.bin");
    assert_eq!(partial, format!("d/.xhf-{hash:016x}.part"));
    assert_eq!(metadata, format!("d/.xhf-{hash:016x}.meta"));
    assert_eq!(temporary, format!("d/.xhf-{hash:016x}.meta.tmp"));
}

#[test]
fn rejects_partial_paths_that_conflict_with_repository_files() {
    let (partial_name, _, _) = sidecar_paths_for("", RepoType::Model, "owner/repo", "a.bin");
    let conflict_paths = [partial_name.clone(), format!("{partial_name}/nested.bin")];
    for conflict_path in conflict_paths {
        let files = vec![entry("a.bin", 4), entry(&conflict_path, 4)];
        let result = tasks_for(&files);
        assert!(result.is_err());
        assert!(result
            .err()
            .unwrap()
            .text()
            .contains("conflicts with a selected repository file"));
    }
}

#[test]
fn plans_one_task_for_each_file() {
    let tasks = tasks_for(&vec![entry("a.bin", 4), entry("d/b.bin", 5)]).unwrap();
    assert_eq!(tasks.len(), 2);
    assert_eq!(tasks[1].index, 1);
    assert_eq!(tasks[1].destination, "d/b.bin");
    assert!(tasks[1].partial_path.starts_with("d/.xhf-"));
    assert_eq!(
        tasks[1].url.text,
        "https://huggingface.co/owner/repo/resolve/main/d/b.bin"
    );
    assert_eq!(tasks[1].expected_length, 5);
    assert_eq!(tasks[1].repo, "owner/repo");
    assert_eq!(tasks[1].commit, "main");
    assert_eq!(
        prepare_task_directories(&tasks),
        ["d"]
    );
}

#[test]
fn refuses_files_in_each_others_way() {
    assert_eq!(
        tasks_for(&vec![entry("a", 1), entry("a", 1)]).unwrap_err().text(),
        format!(
            "selected files produce the same download sidecar path: /downloads/{}",
            sidecar_paths_for("", RepoType::Model, "owner/repo", "a").0
        )
    );
    assert_eq!(
        tasks_for(&vec![entry("a", 1), entry("a/b", 1)]).unwrap_err().text(),
        "download sidecar path conflicts with a selected repository file: /downloads/a"
    );
    assert_eq!(
        tasks_for(&vec![entry("../a", 1)]).unwrap_err().text(),
        "unsafe repository path: \"../a\""
    );
}

#[test]
fn shows_paths_below_the_root() {
    assert_eq!(root().shown("a/b"), "/downloads/a/b");
    let top = Root { text: "/".to_owned(), separator: '/' };
    assert_eq!(top.shown("a/b"), "/a/b");
    let other = Root { text: "C:\\x".to_owned(), separator: '\\' };
    assert_eq!(other.shown("a/b"), "C:\\x\\a\\b");
}

#[test]
fn chooses_the_destination() {
    let directory = |path: &str, absolute| ConfigDirectory {
        path: path.as_bytes().to_vec(),
        absolute,
    };
    let current = || b"/work".to_vec();
    let root = destination_root(None, current());
    assert_eq!((root.base, root.parts.len()), (current(), 0));
    let root = destination_root(Some(&directory("/d", true)), current());
    assert_eq!((root.base, root.parts.len()), (b"/d".to_vec(), 0));
    let root = destination_root(Some(&directory("d", false)), current());
    assert_eq!((root.base, root.parts), (current(), vec![b"d".to_vec()]));
}

// Selection

#[test]
fn dry_run_uses_resolved_revision_without_creating_destination() {
    let client = HubClient::at_endpoint("http://127.0.0.1:8080/", None).unwrap();
    let repo: RepoSpec = "owner/repo".parse().unwrap();
    let request = client.resolve_revision(&repo, RepoType::Model, "main").unwrap();
    assert_eq!(
        request.url.text,
        "http://127.0.0.1:8080/api/models/owner/repo/revision/main"
    );
    let revision = accept_revision(COMMIT.to_owned()).unwrap();
    let mut listing = client.list_tree(&repo, RepoType::Model, &revision).unwrap();
    let mut next = Some("</next?cursor=2>; rel=\"next\"");
    for page in [vec![entry("c.bin", 4)], vec![entry("a.bin", 4), entry("b.bin", 4)]] {
        let request = listing.next_request(&client).unwrap().unwrap();
        let path = match next {
            Some(_) => format!("api/models/owner/repo/tree/{COMMIT}?recursive=true&limit=1000"),
            None => "next?cursor=2".to_owned(),
        };
        assert_eq!(request.url.text, format!("http://127.0.0.1:8080/{path}"));
        let link = next.take().map(|link| HeaderValue::Text(link.to_owned()));
        listing.accept_link(&link, &client).unwrap();
        listing.accept_page(page).unwrap();
    }
    assert!(listing.next_request(&client).unwrap().is_none());
    let entries = listing.into_entries();
    let patterns = PatternSet::compile(&Vec::new()).unwrap();
    let files = select_files(&entries, &patterns).unwrap();
    assert_eq!(dry_run_text(&files), "a.bin\nb.bin\nc.bin\n");
}

#[test]
fn selects_sorted_files_only() {
    let mut entries: Vec<TreeEntry> = ["z", "b/c", "a", "b.x", "\u{e9}", "b/a"]
        .iter()
        .map(|path| entry(path, 2))
        .collect();
    let mut directory = entry("b", 0);
    directory.entry_type = "directory".to_owned();
    entries.push(directory);
    let patterns = PatternSet::compile(&vec!["!z".to_owned()]).unwrap();
    let files = select_files(&entries, &patterns).unwrap();
    let paths: Vec<&str> = files.iter().map(|file| file.path.as_str()).collect();
    assert_eq!(paths, ["a", "b.x", "b/a", "b/c", "\u{e9}"]);
    assert_eq!(total_bytes(&files).unwrap(), 10);
    let none = PatternSet::compile(&vec!["missing".to_owned()]).unwrap();
    assert_eq!(
        select_files(&entries, &none).unwrap_err().text(),
        "download patterns matched no files"
    );
}

#[test]
fn selects_paths_with_backslashes() {
    let entries = vec![entry("z\\y", 1), entry("b", 2), entry("a\\b", 3)];
    let patterns = PatternSet::compile(&vec!["b".to_owned(), "z\\y".to_owned()]).unwrap();
    let files = select_files(&entries, &patterns).unwrap();
    let paths: Vec<&str> = files.iter().map(|file| file.path.as_str()).collect();
    assert_eq!(paths, ["b", "z\\y"]);
    let patterns = PatternSet::compile(&vec!["!z\\y".to_owned()]).unwrap();
    let files = select_files(&entries, &patterns).unwrap();
    let paths: Vec<&str> = files.iter().map(|file| file.path.as_str()).collect();
    assert_eq!(paths, ["a\\b", "b"]);
}

#[test]
fn refuses_uncountable_sizes_and_no_jobs() {
    assert_eq!(
        total_bytes(&vec![entry("a", u64::MAX), entry("b", 1)]).unwrap_err().text(),
        "selected repository files exceed the supported total size"
    );
    assert!(check_jobs(1).is_ok());
    assert_eq!(check_jobs(0).unwrap_err().text(), "jobs must be greater than zero");
}

// What stands at paths

#[test]
fn rejects_file_in_parent_chain() {
    let tasks = tasks_for(&vec![entry("parent/child", 1)]).unwrap();
    let mut preflight = Preflight::new(&tasks, vec![false], false).unwrap();
    assert_eq!(preflight.next_path().as_deref(), Some("parent"));
    let result = preflight.accept(&root(), PathStatus::File(15));
    assert!(result.is_err());
    assert_eq!(
        result.unwrap_err().text(),
        "download parent is not a directory: /downloads/parent"
    );
}

#[test]
fn inspects_directories_then_the_target() {
    let tasks = tasks_for(&vec![entry("a/b/c", 1), entry("d", 1)]).unwrap();
    let mut preflight = Preflight::new(&tasks, vec![false, true], false).unwrap();
    let mut seen = Vec::new();
    for status in [
        PathStatus::Directory,
        PathStatus::Missing,
        PathStatus::Missing,
        PathStatus::File(1),
    ] {
        seen.push(preflight.next_path().unwrap());
        preflight.accept(&root(), status).unwrap();
    }
    assert_eq!(seen, ["a", "a/b", "a/b/c", "d"]);
    assert!(preflight.next_path().is_none());
    assert_eq!(directories_of("a/b/c"), ["a", "a/b"]);
}

#[test]
fn skips_directories_below_a_missing_one() {
    let tasks = tasks_for(&vec![entry("a/b/c", 1)]).unwrap();
    let mut preflight = Preflight::new(&tasks, vec![false], true).unwrap();
    preflight.accept(&root(), PathStatus::Missing).unwrap();
    assert_eq!(preflight.next_path().as_deref(), Some("a/b/c"));
}

#[test]
fn refuses_unsafe_targets() {
    let refusal = |status, force| {
        let tasks = tasks_for(&vec![entry("c", 1)]).unwrap();
        Preflight::new(&tasks, vec![false], force)
            .unwrap()
            .accept(&root(), status)
            .unwrap_err()
            .text()
    };
    assert_eq!(
        refusal(PathStatus::File(3), false),
        "download target already exists; use --force to replace it: /downloads/c"
    );
    assert_eq!(
        refusal(PathStatus::Symlink, true),
        "refusing to replace symbolic link /downloads/c"
    );
    assert_eq!(
        refusal(PathStatus::Directory, true),
        "download target is not a regular file: /downloads/c"
    );
    assert_eq!(
        refusal(PathStatus::Failed(failure(IoKind::Other)), true),
        "could not inspect download target /downloads/c: denied"
    );
    let tasks = tasks_for(&vec![entry("a/c", 1)]).unwrap();
    assert_eq!(
        Preflight::new(&tasks, vec![false], false)
            .unwrap()
            .accept(&root(), PathStatus::Symlink)
            .unwrap_err()
            .text(),
        "refusing to traverse symbolic link /downloads/a"
    );
    assert_eq!(
        Preflight::new(&tasks, Vec::new(), false).unwrap_err().text(),
        "download recovery state length mismatch"
    );
}

#[test]
fn decides_by_what_stands_at_a_path() {
    assert_eq!(
        regular_file_length(PathStatus::File(3), "p", "partial download").unwrap(),
        Some(3)
    );
    assert_eq!(
        regular_file_length(PathStatus::Missing, "p", "partial download").unwrap(),
        None
    );
    assert_eq!(
        regular_file_length(PathStatus::Symlink, "p", "resume metadata").unwrap_err().text(),
        "resume metadata cannot be a symbolic link: p"
    );
    assert_eq!(
        regular_file_length(PathStatus::Other, "p", "resume metadata").unwrap_err().text(),
        "resume metadata is not a regular file: p"
    );
    assert_eq!(
        regular_file_length(PathStatus::Failed(failure(IoKind::Other)), "p", "partial download")
            .unwrap_err()
            .text(),
        "could not inspect partial download p: denied"
    );
    assert!(prepare_root(PathStatus::Missing, "r").unwrap());
    assert!(!prepare_root(PathStatus::Directory, "r").unwrap());
    assert_eq!(
        prepare_root(PathStatus::Symlink, "r").unwrap_err().text(),
        "download directory cannot be a symbolic link: r"
    );
    assert_eq!(
        prepare_root(PathStatus::File(1), "r").unwrap_err().text(),
        "download destination is not a directory: r"
    );
    assert_eq!(
        prepare_root(PathStatus::Failed(failure(IoKind::Other)), "r").unwrap_err().text(),
        "could not inspect download directory r: denied"
    );
    assert!(ensure_directory(PathStatus::Missing, "d").unwrap());
    assert!(!ensure_directory(PathStatus::Directory, "d").unwrap());
    assert_eq!(
        ensure_directory(PathStatus::Failed(failure(IoKind::Other)), "d").unwrap_err().text(),
        "could not inspect download directory d: denied"
    );
}

// Ranges and resumed state

#[test]
fn partitions_a_file_into_balanced_contiguous_ranges() {
    assert_eq!(
        partition_ranges(12, 5).unwrap(),
        [
            RangeProgress { start: 0, next: 0, end: 2 },
            RangeProgress { start: 3, next: 3, end: 5 },
            RangeProgress { start: 6, next: 6, end: 7 },
            RangeProgress { start: 8, next: 8, end: 9 },
            RangeProgress { start: 10, next: 10, end: 11 },
        ]
    );
    assert!(partition_ranges(0, 5).unwrap().is_empty());
    assert_eq!(partition_ranges(2, 5).unwrap().len(), 2);
}

#[test]
fn refuses_impossible_partitions() {
    assert_eq!(
        partition_interval(4, 5, 3).unwrap_err().text(),
        "download interval partition count is invalid"
    );
    assert_eq!(
        partition_interval(6, 4, 1).unwrap_err().text(),
        "download interval is invalid"
    );
    assert_eq!(
        partition_interval(0, 4, 0).unwrap_err().text(),
        "download interval partition count is invalid"
    );
    assert_eq!(partition_interval(3, 9, 2).unwrap(), [range(3, 3, 6), range(7, 7, 9)]);
}

fn metadata(size: u64, ranges: Vec<RangeProgress>) -> ResumeMetadataV1 {
    ResumeMetadataV1 {
        version: RESUME_VERSION,
        repo: "owner/repo".to_owned(),
        repo_type: RepoType::Model,
        commit: COMMIT.to_owned(),
        path: "weights.bin".to_owned(),
        oid: "oid".to_owned(),
        size,
        etag: Some("\"etag\"".to_owned()),
        ranges,
    }
}

#[test]
fn resume_state_expands_pending_ranges_for_more_jobs() {
    let mut metadata = ResumeMetadataV1 {
        version: RESUME_VERSION,
        repo: "owner/repo".to_owned(),
        repo_type: RepoType::Model,
        commit: COMMIT.to_owned(),
        path: "weights.bin".to_owned(),
        oid: "weights-oid".to_owned(),
        size: 12,
        etag: Some("\"etag\"".to_owned()),
        ranges: vec![
            RangeProgress { start: 0, next: 3, end: 5 },
            RangeProgress { start: 6, next: 6, end: 11 },
        ],
    };

    assert!(repartition_unfinished_ranges(&mut metadata, 5).unwrap());
    assert_eq!(transferred_bytes(&metadata).unwrap(), 3);
    assert_eq!(
        metadata.ranges.iter().filter(|range| range.next <= range.end).count(),
        5
    );
    assert!(ranges_are_valid(metadata.size, &metadata.ranges));
}

#[test]
fn few_jobs_leave_ranges_alone() {
    let mut metadata = metadata(12, vec![range(0, 3, 5), range(6, 6, 11)]);
    assert!(!repartition_unfinished_ranges(&mut metadata, 2).unwrap());
    assert_eq!(metadata.ranges, [range(0, 3, 5), range(6, 6, 11)]);
}

#[test]
fn orphan_partial_without_metadata_restarts_from_zero() {
    let task = local_task(12);
    let orphan = Some(35);
    assert!(trust_metadata(&task, MetadataRead::Missing, orphan).is_none());
    let prepared = prepare_transfer(&task, MetadataRead::Missing, orphan, 3).unwrap();
    assert_eq!(prepared.storage, Storage::Reset);
    assert_eq!(prepared.transfer.transferred(), 0);
    let metadata = prepared.transfer.metadata();
    assert!(metadata.ranges.iter().all(|range| range.next == range.start));
    assert_eq!(metadata.ranges.len(), 3);
    assert_eq!(metadata.size, 12);
}

#[test]
fn changed_file_identity_discards_persisted_offsets() {
    let mut task = local_task(12);
    let mut stored = fresh_metadata(&task, 2).unwrap();
    stored.checkpoint(0, 3, None, "weights.bin").unwrap();
    task.oid = "replacement-oid".to_owned();

    let prepared = prepare_transfer(&task, MetadataRead::Valid(stored), Some(12), 2).unwrap();
    assert_eq!(prepared.storage, Storage::Reset);
    assert_eq!(prepared.transfer.transferred(), 0);
    let metadata = prepared.transfer.metadata();
    assert_eq!(metadata.oid, "replacement-oid");
    assert!(metadata.ranges.iter().all(|range| range.next == range.start));
}

#[test]
fn completed_metadata_recovers_a_post_rename_crash() {
    let task = local_task(4);
    let mut stored = fresh_metadata(&task, 2).unwrap();
    for index in 0..stored.ranges.len() {
        let after_end = stored.ranges[index].end + 1;
        stored.checkpoint(index, after_end, None, "weights.bin").unwrap();
    }
    let read = MetadataRead::Valid(stored);
    assert!(is_recovered(&task, &read, None, Some(4)));
    assert!(!is_recovered(&task, &read, Some(4), Some(4)));
    assert!(!is_recovered(&task, &read, None, Some(3)));
    assert!(!is_recovered(&task, &read, None, None));
    assert!(!is_recovered(&task, &MetadataRead::Invalid, None, Some(4)));
    let mut preflight = Preflight::new(&vec![task], vec![true], false).unwrap();
    assert_eq!(preflight.next_path().as_deref(), Some("weights.bin"));
    preflight.accept(&root(), PathStatus::File(4)).unwrap();
}

#[test]
fn trusts_only_metadata_that_describes_the_file() {
    let task = local_task(12);
    let good = || metadata(12, vec![range(0, 3, 5), range(6, 6, 11)]);
    let kept = trust_metadata(&task, MetadataRead::Valid(good()), Some(12)).unwrap();
    assert_eq!(FileTransfer::new(kept).unwrap().transferred(), 3);
    let trusted = |metadata, partial| {
        trust_metadata(&task, MetadataRead::Valid(metadata), partial).is_some()
    };
    assert!(!trusted(good(), None));
    assert!(!trusted(good(), Some(11)));
    let mut changed = good();
    changed.version = 2;
    assert!(!trusted(changed, Some(12)));
    let mut changed = good();
    changed.commit = "other".to_owned();
    assert!(!trusted(changed, Some(12)));
    let mut changed = good();
    changed.repo_type = RepoType::Space;
    assert!(!trusted(changed, Some(12)));
    for ranges in [
        vec![],
        vec![range(0, 0, 5)],
        vec![range(0, 0, 5), range(7, 7, 11)],
        vec![range(0, 7, 5), range(6, 6, 11)],
        vec![range(0, 0, 12)],
        vec![range(0, 0, u64::MAX)],
    ] {
        assert!(!trusted(metadata(12, ranges), Some(12)));
    }
    assert!(trust_metadata(&task, MetadataRead::Invalid, Some(12)).is_none());
}

#[test]
fn trusted_ranges_go_on_as_they_are() {
    let task = local_task(12);
    let stored = metadata(12, vec![range(0, 3, 5), range(6, 6, 11)]);
    let prepared = prepare_transfer(&task, MetadataRead::Valid(stored), Some(12), 2).unwrap();
    assert_eq!(prepared.storage, Storage::Keep);
    assert_eq!(prepared.transfer.transferred(), 3);
    assert_eq!(prepared.transfer.metadata().etag.as_deref(), Some("\"etag\""));
    assert_eq!(
        prepared.transfer.metadata().ranges,
        [range(0, 3, 5), range(6, 6, 11)]
    );
}

#[test]
fn trusted_ranges_need_no_jobs() {
    let task = local_task(12);
    let stored = metadata(12, vec![range(0, 3, 5), range(6, 6, 11)]);
    let prepared = prepare_transfer(&task, MetadataRead::Valid(stored), Some(12), 0).unwrap();
    assert_eq!(prepared.storage, Storage::Keep);
    assert_eq!(prepared.transfer.transferred(), 3);
    assert_eq!(
        prepared.transfer.metadata().ranges,
        [range(0, 3, 5), range(6, 6, 11)]
    );
}

#[test]
fn checkpoints_move_one_range_forward() {
    let mut stored = metadata(12, vec![range(0, 3, 5), range(6, 6, 11)]);
    stored.checkpoint(1, 9, Some("\"etag\""), "weights.bin").unwrap();
    assert_eq!(stored.ranges, [range(0, 3, 5), range(6, 9, 11)]);
    assert_eq!(
        stored.checkpoint(0, 2, None, "weights.bin").unwrap_err().text(),
        "invalid checkpoint for \"weights.bin\": byte 2 is outside 3-6"
    );
    assert_eq!(
        stored.checkpoint(0, 7, None, "weights.bin").unwrap_err().text(),
        "invalid checkpoint for \"weights.bin\": byte 7 is outside 3-6"
    );
    assert_eq!(
        stored.checkpoint(2, 7, None, "weights.bin").unwrap_err().text(),
        "download range index is out of bounds"
    );
    assert_eq!(
        stored.checkpoint(0, 4, Some("\"new\""), "weights.bin").unwrap_err().text(),
        "download validator changed while receiving \"weights.bin\""
    );
    assert_eq!(stored.ranges[0].next, 4);
    stored.etag = None;
    stored.checkpoint(0, 5, Some("\"new\""), "weights.bin").unwrap();
    assert_eq!(stored.etag.as_deref(), Some("\"new\""));
}

#[test]
fn transfers_know_what_is_pending() {
    let mut transfer =
        FileTransfer::new(metadata(12, vec![range(0, 6, 5), range(6, 8, 11)])).unwrap();
    assert_eq!(transfer.transferred(), 8);
    assert!(transfer.pending_range(0).unwrap().is_none());
    let pending = transfer.pending_range(1).unwrap().unwrap();
    assert_eq!((pending.start, pending.end), (8, 11));
    assert_eq!(pending.etag.as_deref(), Some("\"etag\""));
    assert_eq!(
        transfer.pending_range(2).unwrap_err().text(),
        "download range index is out of bounds"
    );
    assert_eq!(transfer.advance(4).unwrap(), 12);
    assert!(!transfer.is_complete());
    transfer.accept_answer(&RangeAnswer::Whole);
    assert!(transfer.pending_range(1).unwrap().is_none());
    assert!(transfer.take_fallback());
    assert!(!transfer.take_fallback());
    transfer.restart(metadata(12, vec![range(0, 0, 11)]));
    assert_eq!(transfer.transferred(), 0);
    transfer.advance(u64::MAX).unwrap();
    assert_eq!(
        transfer.advance(1).unwrap_err().text(),
        "download progress exceeds u64"
    );
}

#[test]
fn requests_what_is_missing_of_a_range() {
    let client = HubClient::new(None).unwrap();
    let task = local_task(12);
    let stored = || metadata(12, vec![range(0, 6, 5), range(6, 8, 11)]);
    let mut transfer = FileTransfer::new(stored()).unwrap();
    assert!(transfer.range_request(&client, &task, 0).unwrap().is_none());
    let request = transfer.range_request(&client, &task, 1).unwrap().unwrap();
    assert_eq!(request.url.text, task.url.text);
    assert_eq!(request.range.as_deref(), Some("bytes=8-11"));
    assert_eq!(request.if_range.as_deref(), Some("\"etag\""));
    assert!(transfer.range_request(&client, &task, 2).is_err());
    let pending = transfer.pending_range(1).unwrap().unwrap();
    let expected = pending.expected(&task);
    assert_eq!((expected.start, expected.end, expected.size), (8, 11, 12));
    transfer.accept_answer(&RangeAnswer::Partial(None));
    assert!(!transfer.falls_back());
    transfer.accept_answer(&RangeAnswer::Whole);
    assert!(transfer.falls_back());
    assert_eq!(transfer.metadata().ranges, stored().ranges);
    assert!(transfer.range_request(&client, &task, 1).unwrap().is_none());
    let mut weak = stored();
    weak.etag = Some("W/\"etag\"".to_owned());
    let request = FileTransfer::new(weak).unwrap().range_request(&client, &task, 1);
    assert_eq!(request.unwrap().unwrap().if_range, None);
    let other = HubClient::at_endpoint("http://127.0.0.1:8080/", None).unwrap();
    let refused = FileTransfer::new(stored()).unwrap().range_request(&other, &task, 1);
    assert!(refused.is_err());
}

#[test]
fn requests_whole_files_unless_they_are_empty() {
    let client = HubClient::new(None).unwrap();
    let task = local_task(12);
    let request = full_request(&client, &task).unwrap().unwrap();
    assert_eq!(request.url.text, task.url.text);
    assert_eq!(request.range, None);
    assert_eq!(full_range(&task), Some((0, 11)));
    let empty = local_task(0);
    assert!(full_request(&client, &empty).unwrap().is_none());
    assert_eq!(full_range(&empty), None);
}

#[test]
fn transfers_record_checkpoints() {
    let stored = metadata(12, vec![range(0, 3, 5), range(6, 6, 11)]);
    let mut transfer = FileTransfer::new(stored).unwrap();
    transfer.checkpoint(1, 9, None, "weights.bin").unwrap();
    assert_eq!(transfer.metadata().ranges, [range(0, 3, 5), range(6, 9, 11)]);
    assert!(transfer.checkpoint(1, 8, None, "weights.bin").is_err());
}

#[test]
fn installs_only_whole_files() {
    let task = local_task(12);
    let mut transfer = FileTransfer::new(metadata(12, vec![range(0, 12, 11)])).unwrap();
    assert!(transfer.check_received(&task).is_ok());
    transfer.advance(1).unwrap();
    assert_eq!(
        transfer.check_received(&task).unwrap_err().text(),
        "download progress for \"weights.bin\" is 13 bytes; expected 12"
    );
    let short = FileTransfer::new(metadata(12, vec![range(0, 11, 10)])).unwrap();
    assert_eq!(
        short.check_received(&task).unwrap_err().text(),
        "completed download \"weights.bin\" covers 11 bytes; expected 12"
    );
    let open = FileTransfer::new(metadata(12, vec![range(0, 11, 11)])).unwrap();
    assert_eq!(
        open.check_received(&task).unwrap_err().text(),
        "cannot finalize incomplete download \"weights.bin\""
    );
    assert!(check_partial_length(&task, Some(12)).is_ok());
    assert_eq!(
        check_partial_length(&task, None).unwrap_err().text(),
        "completed partial download is missing"
    );
    assert_eq!(
        check_partial_length(&task, Some(3)).unwrap_err().text(),
        "partial download \"weights.bin\" has length 3; expected 12"
    );
}

// Responses

#[test]
fn rejects_malformed_or_inconsistent_content_ranges() {
    assert_eq!(parse_content_range("bytes 2-4/10").unwrap(), (2, 4, 10));
    assert!(parse_content_range("items 2-4/10").is_err());
    assert!(parse_content_range("bytes 4-2/10").is_err());
    assert!(parse_content_range("bytes 2-10/10").is_err());
    assert!(parse_content_range("bytes 2-4/*").is_err());
}

#[test]
fn explains_refused_content_ranges() {
    let refusal = |value| parse_content_range(value).unwrap_err().text();
    assert_eq!(refusal("items 2-4/10"), "invalid Content-Range \"items 2-4/10\"");
    assert_eq!(refusal("bytes 2-4"), "invalid Content-Range \"2-4\"");
    assert_eq!(refusal("bytes 24/10"), "invalid Content-Range \"24/10\"");
    assert_eq!(
        refusal("bytes x-4/10"),
        "invalid Content-Range start: invalid digit found in string"
    );
    assert_eq!(
        refusal("bytes 2-/10"),
        "invalid Content-Range end: cannot parse integer from empty string"
    );
    assert_eq!(
        refusal("bytes 2-4/*"),
        "invalid Content-Range size: invalid digit found in string"
    );
    assert_eq!(
        refusal("bytes 4-2/10"),
        "invalid Content-Range bounds: bytes 4-2/10"
    );
}

fn header(text: &str) -> HeaderValue {
    HeaderValue::Text(text.to_owned())
}

fn partial(range: &str, length: Option<u64>, etags: Vec<HeaderValue>) -> FileResponse {
    FileResponse {
        status: 206,
        content_length: length,
        content_ranges: vec![header(range)],
        etags,
    }
}

#[test]
fn accepts_exactly_the_requested_range() {
    let expected = ExpectedRange { start: 2, end: 4, size: 10 };
    let accept = |response: &FileResponse, etag| {
        accept_range_response(response, &expected, etag, "f")
    };
    match accept(&partial("bytes 2-4/10", Some(3), vec![header("\"e\"")]), Some("\"e\"")).unwrap() {
        RangeAnswer::Partial(etag) => assert_eq!(etag.as_deref(), Some("\"e\"")),
        RangeAnswer::Whole => panic!("expected a partial answer"),
    }
    assert!(matches!(
        accept(&partial("bytes 2-4/10", None, Vec::new()), Some("\"e\"")).unwrap(),
        RangeAnswer::Partial(None)
    ));
    let refusal = |response: FileResponse| accept(&response, Some("\"e\"")).unwrap_err().text();
    assert_eq!(
        refusal(partial("bytes 2-5/10", None, Vec::new())),
        "range response for \"f\" returned \"bytes 2-5/10\"; expected bytes 2-4/10"
    );
    assert_eq!(
        refusal(partial("bytes 2-4/10", Some(4), Vec::new())),
        "range response for \"f\" has length 4; expected 3"
    );
    assert_eq!(
        refusal(partial("bytes 2-4/10", None, vec![header("\"n\"")])),
        "download validator changed while receiving \"f\""
    );
    assert_eq!(
        refusal(partial("bytes 2-4/10", None, vec![header("a"), header("b")])),
        "response for \"f\" returned multiple ETag headers"
    );
    let unreadable = || HeaderValue::Unreadable("bad".to_owned());
    assert_eq!(
        refusal(partial("bytes 2-4/10", None, vec![unreadable()])),
        "response for \"f\" returned invalid ETag: bad"
    );
    let headers = |content_ranges| FileResponse {
        status: 206,
        content_length: None,
        content_ranges,
        etags: Vec::new(),
    };
    assert_eq!(
        refusal(headers(Vec::new())),
        "range response for \"f\" omitted Content-Range"
    );
    assert_eq!(
        refusal(headers(vec![header("a"), header("b")])),
        "range response for \"f\" returned multiple Content-Range headers"
    );
    assert_eq!(
        refusal(headers(vec![unreadable()])),
        "range response for \"f\" returned invalid Content-Range: bad"
    );
}

#[test]
fn tells_whole_answers_from_partial_ones() {
    let answer = |status, content_length| FileResponse {
        status,
        content_length,
        content_ranges: Vec::new(),
        etags: vec![header("\"e\"")],
    };
    let expected = ExpectedRange { start: 0, end: 11, size: 12 };
    assert!(matches!(
        accept_range_response(&answer(200, None), &expected, None, "f").unwrap(),
        RangeAnswer::Whole
    ));
    assert_eq!(
        accept_range_response(&answer(204, None), &expected, None, "f").unwrap_err().text(),
        "range request for \"f\" returned unexpected successful status 204 No Content"
    );
    let task = local_task(12);
    assert_eq!(
        accept_full_response(&answer(200, Some(12)), &task).unwrap().as_deref(),
        Some("\"e\"")
    );
    assert_eq!(
        accept_full_response(&answer(206, None), &task).unwrap_err().text(),
        "full request for \"weights.bin\" returned unexpected successful status 206 Partial Content"
    );
    assert_eq!(
        accept_full_response(&answer(200, Some(3)), &task).unwrap_err().text(),
        "downloaded file \"weights.bin\" has unexpected response length: expected 12, received 3"
    );
    assert_eq!(if_range_validator(Some("\"e\"")), Some("\"e\""));
    assert_eq!(if_range_validator(Some("W/\"e\"")), None);
    assert_eq!(if_range_validator(None), None);
}

// Storing a response

/// Runs a writer over a body that is delivered in pieces, and gives the checkpoints
/// and the result.
fn store(
    start: u64,
    end: u64,
    body: u64,
    piece: usize,
    fallback_at: Option<u64>,
) -> (Vec<u64>, AppResult<()>) {
    let mut writer = RangeWriter::new("f", start, end, true).unwrap();
    let mut delivered = 0;
    let mut checkpoints = Vec::new();
    let fallback = |delivered: u64| fallback_at.is_some_and(|at| delivered >= at);
    let mut action = writer.begin(fallback(0));
    loop {
        let event = match action {
            WriterAction::Read { limit } => {
                let rest = usize::try_from(body - delivered).unwrap();
                let count = limit.min(piece).min(rest);
                delivered += count as u64;
                WriterEvent::Read(count)
            }
            WriterAction::Write { .. } => WriterEvent::Written,
            WriterAction::Report { .. } => WriterEvent::Reported,
            WriterAction::Checkpoint { position } => {
                checkpoints.push(position);
                WriterEvent::Checkpointed(Ok(()))
            }
            WriterAction::Finish { outcome } => return (checkpoints, outcome),
        };
        action = writer.step(event, fallback(delivered));
    }
}

#[test]
fn stores_a_range_with_checkpoints() {
    let megabyte = 1024 * 1024;
    let (checkpoints, outcome) =
        store(100, 100 + 20 * megabyte - 1, 20 * megabyte, COPY_BUFFER_SIZE, None);
    assert!(outcome.is_ok());
    assert_eq!(
        checkpoints,
        [100 + 8 * megabyte, 100 + 16 * megabyte, 100 + 20 * megabyte]
    );
}

#[test]
fn truncated_and_excessive_bodies_fail_after_a_checkpoint() {
    let (checkpoints, outcome) = store(0, 9, 4, 3, None);
    assert_eq!(checkpoints, [4]);
    assert_eq!(
        outcome.unwrap_err().text(),
        "downloaded range for \"f\" was truncated at byte 4; expected through byte 9"
    );
    let (checkpoints, outcome) = store(5, 9, 6, 100, None);
    assert_eq!(checkpoints, [5]);
    assert_eq!(
        outcome.unwrap_err().text(),
        "downloaded range for \"f\" exceeded requested end byte 9"
    );
}

#[test]
fn writer_gives_way_to_a_full_download() {
    let (checkpoints, outcome) = store(0, 9, 10, 2, Some(4));
    assert!(outcome.is_ok());
    assert_eq!(checkpoints, [4]);
}

#[test]
fn ranges_without_bytes_only_see_the_end() {
    for start in [10, 14] {
        let (checkpoints, outcome) = store(start, 9, 0, COPY_BUFFER_SIZE, None);
        assert!(outcome.is_ok());
        assert_eq!(checkpoints, [start]);
        let (checkpoints, outcome) = store(start, 9, 3, COPY_BUFFER_SIZE, None);
        assert_eq!(
            outcome.unwrap_err().text(),
            "downloaded range for \"f\" exceeded requested end byte 9"
        );
        assert_eq!(checkpoints, [start]);
    }
}

#[test]
fn writer_reports_what_failed() {
    assert_eq!(
        RangeWriter::new("f", 0, u64::MAX, false).unwrap_err().text(),
        "download range exceeds u64"
    );
    let begun = || {
        let mut writer = RangeWriter::new("f", 0, 9, false).unwrap();
        assert!(matches!(writer.begin(true), WriterAction::Read { limit: 10 }));
        writer
    };
    let finish = |writer: &mut RangeWriter, result| {
        match writer.step(WriterEvent::Checkpointed(result), false) {
            WriterAction::Finish { outcome } => outcome.unwrap_err().text(),
            other => panic!("expected the end, found {other:?}"),
        }
    };
    let mut writer = begun();
    let action = writer.step(WriterEvent::ReadFailed(failure(IoKind::Other)), false);
    assert!(matches!(action, WriterAction::Checkpoint { position: 0 }));
    assert_eq!(
        finish(&mut writer, Err(message("disk full"))),
        "could not read downloaded file \"f\": denied; additionally disk full"
    );
    let mut writer = begun();
    writer.step(WriterEvent::Read(10), false);
    let action = writer.step(WriterEvent::WriteFailed(failure(IoKind::Other)), false);
    assert!(matches!(action, WriterAction::Checkpoint { position: 0 }));
    assert_eq!(
        finish(&mut writer, Ok(())),
        "could not write downloaded file \"f\": denied"
    );
    let mut writer = begun();
    writer.step(WriterEvent::Read(10), false);
    writer.step(WriterEvent::Written, false);
    let action = writer.step(WriterEvent::Reported, false);
    assert!(matches!(action, WriterAction::Read { limit: 1 }));
    writer.step(WriterEvent::ReadFailed(failure(IoKind::Other)), false);
    assert_eq!(
        finish(&mut writer, Ok(())),
        "could not finish downloaded file \"f\": denied"
    );
    let mut writer = begun();
    writer.step(WriterEvent::Read(3), false);
    writer.step(WriterEvent::Written, false);
    let action = writer.step(WriterEvent::ReportFailed(message("closed")), false);
    assert!(matches!(action, WriterAction::Checkpoint { position: 3 }));
    assert_eq!(finish(&mut writer, Ok(())), "closed");
    let mut writer = begun();
    writer.step(WriterEvent::Read(3), false);
    writer.step(WriterEvent::Written, false);
    match writer.step(WriterEvent::CountFailed(message("too many")), false) {
        WriterAction::Finish { outcome } => assert_eq!(outcome.unwrap_err().text(), "too many"),
        other => panic!("expected the end, found {other:?}"),
    }
}

// The course of a download

fn work(file_index: usize, kind: WorkKind) -> WorkItem {
    WorkItem { file_index, kind }
}

#[test]
fn one_file_uses_all_jobs_for_distinct_ranges() {
    let task = local_task(100);
    let transfer = FileTransfer::new(fresh_metadata(&task, 5).unwrap()).unwrap();
    let items = collect_range_work(0, &transfer).unwrap();
    assert_eq!(worker_count(5, items.len()), 5);
    let mut requested = Vec::new();
    for item in items {
        match item.kind {
            WorkKind::Range(index) => {
                let pending = transfer.pending_range(index).unwrap().unwrap();
                requested.push((pending.start, pending.end));
            }
            WorkKind::Full => panic!("expected ranges"),
        }
    }
    assert_eq!(requested, [(0, 19), (20, 39), (40, 59), (60, 79), (80, 99)]);
}

#[test]
fn interrupted_ranges_continue_from_persisted_offsets() {
    let task = local_task(20);
    let mut stored = fresh_metadata(&task, 2).unwrap();
    stored.checkpoint(0, 4, Some("\"test-etag\""), "weights.bin").unwrap();
    stored.checkpoint(1, 20, Some("\"test-etag\""), "weights.bin").unwrap();
    assert_eq!(stored.ranges[0].next, 4);
    let prepared = prepare_transfer(&task, MetadataRead::Valid(stored), Some(20), 2).unwrap();
    assert_eq!(prepared.storage, Storage::Update);
    let transfer = prepared.transfer;
    assert_eq!(transfer.transferred(), 14);
    let mut starts = Vec::new();
    for item in collect_range_work(0, &transfer).unwrap() {
        if let WorkKind::Range(index) = item.kind {
            starts.push(transfer.pending_range(index).unwrap().unwrap().start);
        }
    }
    assert!(starts.iter().all(|start| *start >= 4));
    assert!(starts.iter().any(|start| *start == 4));
}

#[test]
fn workers_get_only_what_is_missing() {
    let mut transfer =
        FileTransfer::new(metadata(12, vec![range(0, 6, 5), range(6, 8, 11)])).unwrap();
    assert_eq!(
        collect_range_work(3, &transfer).unwrap(),
        [work(3, WorkKind::Range(1))]
    );
    transfer.accept_answer(&RangeAnswer::Whole);
    assert!(collect_range_work(3, &transfer).unwrap().is_empty());
    assert_eq!(worker_count(3, 2), 2);
    assert_eq!(worker_count(2, 3), 2);
    let present = vec![true, false];
    assert!(check_work(&work(0, WorkKind::Full), 2, &present).is_ok());
    assert_eq!(
        check_work(&work(1, WorkKind::Full), 2, &present).unwrap_err().text(),
        "download work has no transfer state"
    );
    assert_eq!(
        check_work(&work(2, WorkKind::Full), 2, &present).unwrap_err().text(),
        "download work index is out of range"
    );
}

fn batch(present: &[bool]) -> Batch {
    let paths = (0..present.len()).map(|index| format!("f{index}")).collect();
    Batch::new(paths, present.to_vec()).unwrap()
}

#[test]
fn a_batch_runs_through_its_stages() {
    let mut batch = batch(&[true, false, true]);
    let mut printed = Vec::new();
    let mut stages = Vec::new();
    loop {
        let event = match batch.next_action() {
            BatchAction::Start(index) => {
                stages.push(format!("start {index}"));
                BatchEvent::Started(Ok(()))
            }
            BatchAction::RunRanges => {
                stages.push("ranges".to_owned());
                BatchEvent::PhaseEnded(Ok(()))
            }
            BatchAction::Restart(2) => BatchEvent::Restarted,
            BatchAction::Restart(_) => BatchEvent::Kept,
            BatchAction::RunFull(files) => {
                stages.push(format!("full {files:?}"));
                BatchEvent::PhaseEnded(Ok(()))
            }
            BatchAction::Settle { index, blame } => {
                assert!(blame);
                stages.push(format!("settle {index}"));
                BatchEvent::Installed
            }
            BatchAction::Print(index) => {
                printed.push(index);
                BatchEvent::Printed(Ok(()))
            }
            BatchAction::Finish => break,
        };
        batch.accept(event);
    }
    assert_eq!(
        stages,
        ["start 0", "start 2", "ranges", "full [2]", "settle 0", "settle 2"]
    );
    assert_eq!(printed, [0, 1, 2]);
    assert!(batch.finish().is_ok());
}

#[test]
fn a_failed_file_leaves_the_others_installed() {
    let mut batch = batch(&[true, true]);
    for _ in 0..2 {
        assert!(matches!(batch.next_action(), BatchAction::Start(_)));
        batch.accept(BatchEvent::Started(Ok(())));
    }
    assert!(matches!(batch.next_action(), BatchAction::RunRanges));
    assert!(!batch.observe(PhaseEvent::Advanced(Ok(()))));
    assert!(batch.observe(PhaseEvent::Failed {
        index: 0,
        error: message("connection lost"),
        report: Err(message("no terminal")),
    }));
    assert!(!batch.observe(PhaseEvent::WorkerEnded(Ok(()))));
    assert!(batch.observe(PhaseEvent::WorkerLost));
    batch.accept(BatchEvent::PhaseEnded(Ok(())));
    assert!(matches!(
        batch.next_action(),
        BatchAction::Settle { index: 1, blame: false }
    ));
    batch.accept(BatchEvent::Installed);
    assert!(matches!(batch.next_action(), BatchAction::Print(1)));
    batch.accept(BatchEvent::Printed(Ok(())));
    assert!(matches!(batch.next_action(), BatchAction::Finish));
    assert_eq!(
        batch.finish().unwrap_err().text(),
        "connection lost; additionally no terminal"
    );
}

#[test]
fn incomplete_files_are_blamed_once() {
    let mut batch = batch(&[true, true]);
    for _ in 0..2 {
        batch.next_action();
        batch.accept(BatchEvent::Started(Ok(())));
    }
    batch.next_action();
    batch.accept(BatchEvent::PhaseEnded(Ok(())));
    for _ in 0..2 {
        assert!(matches!(batch.next_action(), BatchAction::Restart(_)));
        batch.accept(BatchEvent::Kept);
    }
    assert!(matches!(batch.next_action(), BatchAction::RunFull(_)));
    batch.accept(BatchEvent::PhaseEnded(Ok(())));
    assert!(matches!(
        batch.next_action(),
        BatchAction::Settle { index: 0, blame: true }
    ));
    batch.accept(BatchEvent::Incomplete { report: Ok(()) });
    assert!(matches!(
        batch.next_action(),
        BatchAction::Settle { index: 1, blame: false }
    ));
    batch.accept(BatchEvent::Incomplete { report: Ok(()) });
    assert!(matches!(batch.next_action(), BatchAction::Finish));
    assert_eq!(
        batch.finish().unwrap_err().text(),
        "download workers stopped before completing \"f0\""
    );
}

#[test]
fn batches_report_what_failed() {
    assert_eq!(
        Batch::new(vec!["f".to_owned()], Vec::new()).unwrap_err().text(),
        "download state length mismatch"
    );
    let mut started = batch(&[true]);
    started.next_action();
    started.accept(BatchEvent::Started(Err(message("no start"))));
    assert!(matches!(started.next_action(), BatchAction::Settle { .. }));
    started.accept(BatchEvent::InstallFailed { error: message("late"), report: Ok(()) });
    assert!(matches!(started.next_action(), BatchAction::Finish));
    assert_eq!(started.finish().unwrap_err().text(), "no start");

    let mut spawned = batch(&[true]);
    spawned.next_action();
    spawned.accept(BatchEvent::Started(Ok(())));
    spawned.next_action();
    assert!(spawned.observe(PhaseEvent::SpawnFailed(failure(IoKind::Other))));
    assert!(spawned.observe(PhaseEvent::Failed {
        index: 7,
        error: message("x"),
        report: Ok(()),
    }));
    spawned.accept(BatchEvent::PhaseEnded(Ok(())));
    spawned.next_action();
    assert_eq!(
        spawned.finish().unwrap_err().text(),
        "could not start download worker: denied"
    );

    let mut restarted = batch(&[true]);
    restarted.next_action();
    restarted.accept(BatchEvent::Started(Ok(())));
    restarted.next_action();
    restarted.accept(BatchEvent::PhaseEnded(Ok(())));
    restarted.next_action();
    restarted.accept(BatchEvent::RestartFailed { error: message("no disk"), report: Ok(()) });
    assert!(matches!(restarted.next_action(), BatchAction::Finish));
    assert_eq!(restarted.finish().unwrap_err().text(), "no disk");

    let mut printing = batch(&[false]);
    printing.next_action();
    printing.accept(BatchEvent::PhaseEnded(Ok(())));
    printing.next_action();
    printing.accept(BatchEvent::PhaseEnded(Ok(())));
    assert!(matches!(printing.next_action(), BatchAction::Print(0)));
    printing.accept(BatchEvent::Printed(Err(failure(IoKind::BrokenPipe))));
    assert!(matches!(printing.next_action(), BatchAction::Finish));
    let error = printing.finish().unwrap_err();
    assert_eq!(error.text(), "could not write download output: denied");
    assert!(error.is_broken_pipe());
}

// Progress

#[test]
fn formats_progress_units_and_durations() {
    assert_eq!(format_bytes(0), "0 B");
    assert_eq!(format_bytes(1536), "1.5 KiB");
    assert_eq!(format_duration(5), "5s");
    assert_eq!(format_duration(65), "1m 05s");
    assert_eq!(format_duration(3665), "1h 01m 05s");
}

/// The amount of bytes as floating-point arithmetic writes it.
fn reference_bytes(bytes: u64) -> String {
    const UNITS: [&str; 5] = ["B", "KiB", "MiB", "GiB", "TiB"];
    let mut value = bytes as f64;
    let mut unit = 0;
    while value >= 1024.0 && unit < UNITS.len() - 1 {
        value /= 1024.0;
        unit += 1;
    }
    if unit == 0 || value >= 100.0 {
        format!("{value:.0} {}", UNITS[unit])
    } else {
        format!("{value:.1} {}", UNITS[unit])
    }
}

#[test]
fn formats_bytes_as_floating_point_does() {
    let mut amounts = vec![0, 1, 1023, 1024, 1025, 102_399, 102_400, 104_857, u64::MAX];
    for shift in 0..64 {
        for offset in [0_u64, 1, 2, 3, 0x33, 0x333, 0x3_3333] {
            amounts.push((1_u64 << shift).wrapping_add(offset));
            amounts.push((1_u64 << shift).wrapping_sub(offset));
            amounts.push((3_u64 << shift).wrapping_add(offset));
        }
    }
    let mut state = 1_u64;
    for _ in 0..2000 {
        state = state.wrapping_mul(6364136223846793005).wrapping_add(1442695040888963407);
        amounts.push(state);
        amounts.push(state >> (state % 64));
    }
    for amount in amounts {
        assert_eq!(format_bytes(amount), reference_bytes(amount), "{amount}");
    }
}

fn estimate(seconds_left: Option<u64>) -> Estimate {
    Estimate {
        percentage: "75.0".to_owned(),
        rate: "128 B".to_owned(),
        seconds_left,
    }
}

/// What is measured of a transfer of which `session` bytes came in `seconds` seconds.
fn measured(transferred: u64, session: u64, expected: u64, seconds: f64) -> Estimate {
    let rate = session as f64 / seconds;
    let left = (expected - transferred) as f64 / rate;
    Estimate {
        percentage: format!("{:.1}", transferred as f64 * 100.0 / expected as f64),
        rate: format!("{rate:.0} B"),
        seconds_left: if left.is_finite() { Some(left.ceil() as u64) } else { None },
    }
}

#[test]
fn calculates_resumed_rate_from_current_session_bytes() {
    assert_eq!(
        format_transfer(768, Some(1024), &measured(768, 256, 1024, 2.0)),
        "768 B/1.0 KiB (75.0%) 128 B/s ETA 2s"
    );
    assert_eq!(
        format_transfer(768, Some(1024), &measured(768, 0, 1024, 2.0)),
        "768 B/1.0 KiB (75.0%) 0 B/s ETA --"
    );
}

#[test]
fn writes_transfers() {
    assert_eq!(
        format_transfer(768, Some(1024), &estimate(Some(2))),
        "768 B/1.0 KiB (75.0%) 128 B/s ETA 2s"
    );
    assert_eq!(
        format_transfer(768, Some(1024), &estimate(None)),
        "768 B/1.0 KiB (75.0%) 128 B/s ETA --"
    );
    assert_eq!(format_transfer(768, None, &estimate(None)), "768 B 128 B/s");
    assert_eq!(format_eta(1024, 1024, None), "0s");
}

#[test]
fn reports_noninteractive_file_progress() {
    let tasks = vec![local_task(4)];
    let mut progress_output = start_batch(1, 4, "/downloads", 1);
    let mut progress = ProgressWriter::new(false, &tasks);
    assert_eq!(progress.clear_active(), "");
    progress.started(0, 4, 0).unwrap();
    progress_output.push_str(&progress.start_report(0).unwrap());
    progress.advanced(0, 4).unwrap();
    progress_output.push_str(&progress.render_active());
    progress.syncing(0, 4).unwrap();
    progress_output.push_str(&progress.render_active());
    progress.concluded(0, 4).unwrap();
    progress_output.push_str(&progress.complete(0, "downloaded").unwrap());
    progress_output.push_str(&progress.clear_active());

    assert!(progress_output.contains("Downloading 1 file (4 B)"));
    assert!(progress_output.contains("with up to 1 simultaneous transfer"));
    assert!(progress_output.contains("[1/1] downloading weights.bin"));
    assert!(progress_output.contains("[1/1] downloaded weights.bin"));
}

#[test]
fn opens_a_download() {
    assert_eq!(
        start_batch(2, 1536, "/a\nb", 3),
        "Downloading 2 files (1.5 KiB) to /a\\nb with up to 3 simultaneous transfers\n"
    );
}

#[test]
fn redraws_lines_on_a_terminal() {
    let tasks = tasks_for(&vec![entry("a", 8), entry("b", 4)]).unwrap();
    let mut progress = ProgressWriter::new(true, &tasks);
    progress.started(0, 8, 0).unwrap();
    progress.estimated(0, estimate(None)).unwrap();
    assert_eq!(
        progress.start_report(0).unwrap(),
        "[1/2] downloading a 0 B/8 B (75.0%) 128 B/s ETA --"
    );
    assert_eq!(progress.clear_active(), "\r\u{1b}[2K");
    progress.started(1, 4, 2).unwrap();
    progress.estimated(1, estimate(Some(60))).unwrap();
    assert_eq!(
        progress.start_report(1).unwrap(),
        "[1/2] downloading a 0 B/8 B (75.0%) 128 B/s ETA --\n\
         [2/2] resuming b 2 B/4 B (75.0%) 128 B/s ETA 1m 00s"
    );
    assert_eq!(progress.clear_active(), "\r\u{1b}[2K\u{1b}[1A\r\u{1b}[2K");
    assert_eq!(progress.clear_active(), "");
    progress.advanced(0, 6).unwrap();
    progress.advanced(0, 5).unwrap();
    let measure = progress.measure(0).unwrap();
    assert_eq!(measure.transferred, 6);
    assert_eq!(measure.session_transferred, 6);
    assert_eq!(measure.expected, Some(8));
    progress.restarted(1).unwrap();
    assert_eq!(progress.transferred(1).unwrap(), 0);
    progress.concluded(0, 8).unwrap();
    assert_eq!(
        progress.complete(0, "failed").unwrap(),
        "[1/2] failed a 8 B/8 B (75.0%) 128 B/s ETA 0s\n"
    );
    assert_eq!(
        progress.render_active(),
        "[2/2] downloading b 0 B/4 B (75.0%) 128 B/s ETA 1m 00s"
    );
}

#[test]
fn progress_refuses_files_that_are_not_under_way() {
    let tasks = vec![local_task(4)];
    let mut progress = ProgressWriter::new(false, &tasks);
    assert_eq!(
        progress.advanced(0, 1).unwrap_err().text(),
        "download progress is not active"
    );
    assert_eq!(
        progress.started(1, 1, 0).unwrap_err().text(),
        "download progress index is out of range"
    );
    progress.started(0, 4, 1).unwrap();
    assert_eq!(
        progress.started(0, 4, 1).unwrap_err().text(),
        "download progress started twice"
    );
    assert!(progress.start_report(0).unwrap().starts_with("[1/1] resuming weights.bin "));
    assert!(progress
        .restart_report(0)
        .unwrap()
        .starts_with("[1/1] restarting without ranges weights.bin "));
}

#[test]
fn progress_ends_with_the_first_failed_write() {
    let mut progress = ProgressWriter::new(false, &Vec::new());
    assert!(progress.admits("x"));
    assert!(!progress.admits(""));
    progress.written(Ok(())).unwrap();
    progress.written(Err(failure(IoKind::BrokenPipe))).unwrap();
    assert!(!progress.admits("x"));
    assert_eq!(
        progress.written(Err(failure(IoKind::Other))).unwrap_err().text(),
        "could not write download progress: denied"
    );
}

#[test]
fn reports_at_most_every_interval() {
    assert!(report_is_due(true, 200));
    assert!(!report_is_due(true, 199));
    assert!(!report_is_due(false, 1000));
}
