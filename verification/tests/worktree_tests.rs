//! End-to-end exercises of the worktree index: populating a tree through
//! scan steps, querying paths, reconciling change events, and the facade.

use worktree::entry::{Entry, EntrySummary, Error, PathEntry};
use worktree::inode_map::{Edit, InodeMap};
use worktree::reconcile::{EventObs, FsMeta};
use worktree::scan::{ChildMeta, ScanJob};
use worktree::snapshot::Snapshot;
use worktree::worktree::{save_buffer_size, ScanState, Worktree};

fn n(s: &str) -> Vec<u8> {
    s.as_bytes().to_vec()
}

fn p(components: &[&str]) -> Vec<Vec<u8>> {
    components.iter().map(|c| n(c)).collect()
}

fn dir_meta(name: &str, inode: u64) -> ChildMeta {
    ChildMeta { name: n(name), inode, is_dir: true, is_symlink: false, rule_ignored: false }
}

fn file_meta(name: &str, inode: u64) -> ChildMeta {
    ChildMeta { name: n(name), inode, is_dir: false, is_symlink: false, rule_ignored: false }
}

/// Builds the snapshot of the tree used by the populate-and-search
/// scenario: `root_link -> root { apple, banana { carrot { date, endive } },
/// fennel { grape } }`, scanned through a symlinked root.
fn populate_sample() -> (Snapshot, Vec<u64>) {
    let mut snap = Snapshot::new(1, p(&["tmp"]));
    let root = ChildMeta {
        name: n("root_link"),
        inode: 1,
        is_dir: true,
        is_symlink: true,
        rule_ignored: false,
    };
    let root_job = snap.scan_root(&root).expect("root is a directory");
    let jobs = snap.scan_dir_step(
        &root_job,
        &vec![file_meta("apple", 2), dir_meta("banana", 3), dir_meta("fennel", 4)],
    );
    assert_eq!(jobs.len(), 2);
    let banana_jobs = snap.scan_dir_step(&jobs[0], &vec![dir_meta("carrot", 5)]);
    assert_eq!(banana_jobs.len(), 1);
    let none = snap.scan_dir_step(&banana_jobs[0], &vec![file_meta("date", 6), file_meta("endive", 7)]);
    assert_eq!(none.len(), 0);
    let none2 = snap.scan_dir_step(&jobs[1], &vec![file_meta("grape", 8)]);
    assert_eq!(none2.len(), 0);
    (snap, vec![2, 6, 7, 8])
}

#[test]
fn test_populate_and_search() {
    let (snap, files) = populate_sample();
    assert_eq!(snap.file_count(), 4);
    let date = snap.inode_for_path(&p(&["banana", "carrot", "date"])).unwrap();
    assert_eq!(date, 6);
    assert_eq!(
        snap.path_for_inode(date, true).unwrap(),
        p(&["root_link", "banana", "carrot", "date"])
    );
    assert_eq!(snap.path_for_inode(date, false).unwrap(), p(&["banana", "carrot", "date"]));
    // The matcher data carries the joined, lowered path.
    match snap.get(6).unwrap() {
        Entry::File { path, .. } => {
            assert_eq!(path.path_chars, n("root_link/banana/carrot/date"));
        }
        _ => panic!("date is a file"),
    }
    // Every file inode is present.
    for ino in files {
        assert!(snap.get(ino).is_some());
    }
}

#[test]
fn test_path_round_trip() {
    let (snap, _) = populate_sample();
    for comps in [
        vec!["apple"],
        vec!["banana"],
        vec!["banana", "carrot"],
        vec!["banana", "carrot", "endive"],
        vec!["fennel", "grape"],
    ] {
        let path: Vec<Vec<u8>> = comps.iter().map(|c| n(c)).collect();
        let ino = snap.inode_for_path(&path).unwrap();
        assert_eq!(snap.path_for_inode(ino, false).unwrap(), path);
    }
    assert_eq!(snap.inode_for_path(&p(&["banana", "apple"])), None);
}

#[test]
fn test_file_count_matches_files() {
    let (snap, _) = populate_sample();
    let tree = Worktree {
        snapshot: snap,
        scan_state: ScanState::Idle,
        poll_scheduled: false,
    };
    let files = tree.files();
    assert_eq!(files.len(), tree.file_count());
    assert_eq!(files, vec![2, 6, 7, 8]);
}

#[test]
fn test_root_is_a_file() {
    let mut snap = Snapshot::new(7, p(&["somewhere"]));
    let root = file_meta("file1", 41);
    assert!(snap.scan_root(&root).is_none());
    assert_eq!(snap.file_count(), 1);
    assert_eq!(snap.path_for_inode(41, true).unwrap(), p(&["file1"]));
    assert_eq!(snap.path_for_inode(41, false).unwrap(), p(&[]));
}

#[test]
fn test_save_buffer_size() {
    // The writer's capacity is the content size, capped at 10 KiB: the
    // save of "a line of text.\n" repeated 10_240 times uses the cap.
    assert_eq!(save_buffer_size("a line of text.\n".len() * 10 * 1024), 10 * 1024);
    assert_eq!(save_buffer_size(16), 16);
    assert_eq!(save_buffer_size(0), 0);
    assert_eq!(save_buffer_size(10 * 1024), 10 * 1024);
}

fn rescan_sample() -> Snapshot {
    // dir1 { dir3 { file } }, dir2 {}
    let mut snap = Snapshot::new(2, p(&["base"]));
    let root = dir_meta("the_dir", 10);
    let root_job = snap.scan_root(&root).unwrap();
    let jobs = snap.scan_dir_step(&root_job, &vec![dir_meta("dir1", 11), dir_meta("dir2", 12)]);
    let dir1_jobs = snap.scan_dir_step(&jobs[0], &vec![dir_meta("dir3", 13)]);
    snap.scan_dir_step(&dir1_jobs[0], &vec![file_meta("file", 14)]);
    snap.scan_dir_step(&jobs[1], &vec![]);
    snap
}

#[test]
fn test_rescan() {
    let mut snap = rescan_sample();
    assert_eq!(snap.file_count(), 1);
    let dir_inode = snap.inode_for_path(&p(&["dir1", "dir3"])).unwrap();
    assert_eq!(dir_inode, 13);
    assert_eq!(snap.path_for_inode(dir_inode, false).unwrap(), p(&["dir1", "dir3"]));

    // The directory restructuring moves the recorded inode under dir2;
    // reconciliation notices the known inode at the new path and
    // relocates it instead of recreating it.
    let jobs = snap.process_events(vec![EventObs {
        path: p(&["dir2", "dir3"]),
        fs: Some(FsMeta { inode: 13, is_dir: true, is_symlink: false, rule_ignored: false }),
    }]);
    assert_eq!(jobs.len(), 0);
    assert_eq!(snap.path_for_inode(dir_inode, false).unwrap(), p(&["dir2", "dir3"]));
    assert_eq!(snap.inode_for_path(&p(&["dir2", "dir3"])), Some(dir_inode));
    // The subtree moved with it: the file kept its inode and path.
    assert_eq!(snap.inode_for_path(&p(&["dir2", "dir3", "file"])), Some(14));
    assert_eq!(snap.file_count(), 1);
}

#[test]
fn test_handle_survives_rename() {
    let snap = rescan_sample();
    let mut tree = Worktree {
        snapshot: snap,
        scan_state: ScanState::Idle,
        poll_scheduled: false,
    };
    let handle = tree.file(14).unwrap();
    assert_eq!(handle.entry_id(), (2, 14));
    assert_eq!(handle.path(&tree).unwrap(), p(&["dir1", "dir3", "file"]));
    tree.snapshot.process_events(vec![EventObs {
        path: p(&["dir2", "dir3"]),
        fs: Some(FsMeta { inode: 13, is_dir: true, is_symlink: false, rule_ignored: false }),
    }]);
    // Same handle, same identity, new path.
    assert_eq!(handle.entry_id(), (2, 14));
    assert_eq!(handle.path(&tree).unwrap(), p(&["dir2", "dir3", "file"]));
}

#[test]
fn test_removal_cascade() {
    // a { b { c } }: deleting `a` at the filesystem removes a, b and c
    // in one batch.
    let mut snap = Snapshot::new(3, p(&["base"]));
    let root_job = snap.scan_root(&dir_meta("top", 20)).unwrap();
    let jobs = snap.scan_dir_step(&root_job, &vec![dir_meta("a", 21)]);
    let a_jobs = snap.scan_dir_step(&jobs[0], &vec![dir_meta("b", 22)]);
    snap.scan_dir_step(&a_jobs[0], &vec![file_meta("c", 23)]);
    assert_eq!(snap.file_count(), 1);

    let jobs = snap.process_events(vec![EventObs { path: p(&["a"]), fs: None }]);
    assert_eq!(jobs.len(), 0);
    assert!(snap.get(21).is_none());
    assert!(snap.get(22).is_none());
    assert!(snap.get(23).is_none());
    assert!(snap.get(20).is_some());
    assert_eq!(snap.file_count(), 0);
}

#[test]
fn test_root_removal_empties_tree() {
    let mut snap = rescan_sample();
    snap.process_events(vec![EventObs { path: p(&[]), fs: None }]);
    assert!(snap.root_entry().is_none());
    assert_eq!(snap.entries.len(), 0);
    assert_eq!(snap.file_count(), 0);
}

#[test]
fn test_empty_batch_is_identity() {
    let mut snap = rescan_sample();
    let before_count = snap.file_count();
    let before_path = snap.path_for_inode(14, true).unwrap();
    let before_len = snap.entries.len();
    let jobs = snap.process_events(Vec::new());
    assert_eq!(jobs.len(), 0);
    assert_eq!(snap.file_count(), before_count);
    assert_eq!(snap.path_for_inode(14, true).unwrap(), before_path);
    assert_eq!(snap.entries.len(), before_len);
}

#[test]
fn test_ignored_directory() {
    // .gitignore holding `build/` makes the evaluator match the build
    // directory; entries under an ignored directory inherit the mark but
    // stay visible to path lookups.
    let mut snap = Snapshot::new(4, p(&["base"]));
    let root_job = snap.scan_root(&dir_meta("proj", 30)).unwrap();
    let build = ChildMeta {
        name: n("build"),
        inode: 32,
        is_dir: true,
        is_symlink: false,
        rule_ignored: true,
    };
    let jobs = snap.scan_dir_step(&root_job, &vec![file_meta(".gitignore", 31), build]);
    assert_eq!(jobs.len(), 1);
    // The job below an ignored directory carries no matcher.
    assert!(!jobs[0].has_matcher);
    snap.scan_dir_step(&jobs[0], &vec![file_meta("output.bin", 33)]);

    assert!(snap.get(32).unwrap().is_ignored());
    assert!(snap.get(33).unwrap().is_ignored());
    assert!(!snap.get(31).unwrap().is_ignored());
    assert_eq!(snap.inode_for_path(&p(&["build", "output.bin"])), Some(33));
}

#[test]
fn test_git_always_ignored() {
    let mut snap = Snapshot::new(5, p(&["base"]));
    let root_job = snap.scan_root(&dir_meta("proj", 50)).unwrap();
    let jobs = snap.scan_dir_step(&root_job, &vec![dir_meta(".git", 51), dir_meta("src", 52)]);
    assert!(snap.get(51).unwrap().is_ignored());
    assert!(!snap.get(52).unwrap().is_ignored());
    // Deeper down it is just as ignored, rule files or not.
    let deep = snap.scan_dir_step(&jobs[1], &vec![dir_meta(".git", 53)]);
    assert!(snap.get(53).unwrap().is_ignored());
    assert!(!deep[0].has_matcher);
}

#[test]
fn test_live_event_during_scan() {
    // Subscribe before scanning: an event that arrives mid-scan for an
    // already scanned directory lands in the final snapshot.
    let mut snap = Snapshot::new(6, p(&["base"]));
    let root_job = snap.scan_root(&dir_meta("top", 60)).unwrap();
    let jobs = snap.scan_dir_step(&root_job, &vec![dir_meta("seen", 61), dir_meta("later", 62)]);
    snap.scan_dir_step(&jobs[0], &vec![]);
    // The file appears under `seen` after that directory was scanned.
    let more = snap.process_events(vec![EventObs {
        path: p(&["seen", "fresh"]),
        fs: Some(FsMeta { inode: 63, is_dir: false, is_symlink: false, rule_ignored: false }),
    }]);
    assert_eq!(more.len(), 0);
    // The scan then finishes the remaining directory.
    snap.scan_dir_step(&jobs[1], &vec![file_meta("old", 64)]);
    assert_eq!(snap.inode_for_path(&p(&["seen", "fresh"])), Some(63));
    assert_eq!(snap.inode_for_path(&p(&["later", "old"])), Some(64));
    assert_eq!(snap.file_count(), 2);
}

#[test]
fn test_new_directory_event_requests_rescan() {
    let mut snap = rescan_sample();
    let jobs = snap.process_events(vec![EventObs {
        path: p(&["foo"]),
        fs: Some(FsMeta { inode: 70, is_dir: true, is_symlink: false, rule_ignored: false }),
    }]);
    assert_eq!(jobs.len(), 1);
    assert_eq!(jobs[0].ino, 70);
    assert_eq!(jobs[0].relative_path, p(&["the_dir", "foo"]));
    assert!(jobs[0].has_matcher);
    // The pending directory can then be scanned.
    let mut snap = snap;
    snap.scan_dir_step(&jobs[0], &vec![file_meta("inner", 71)]);
    assert_eq!(snap.inode_for_path(&p(&["foo", "inner"])), Some(71));
}

#[test]
fn test_metadata_refresh() {
    let mut snap = rescan_sample();
    snap.process_events(vec![EventObs {
        path: p(&["dir1", "dir3", "file"]),
        fs: Some(FsMeta { inode: 14, is_dir: false, is_symlink: true, rule_ignored: true }),
    }]);
    let e = snap.get(14).unwrap();
    assert!(e.is_ignored());
    assert_eq!(snap.inode_for_path(&p(&["dir1", "dir3", "file"])), Some(14));
    assert_eq!(snap.file_count(), 1);
}

#[test]
fn test_facade_and_polling() {
    let mut tree = Worktree::new(9, p(&["home", "proj"]));
    assert_eq!(tree.file_count(), 0);
    assert!(!tree.is_scanning());

    // The scanner publishes a snapshot mid-scan; a poll gets scheduled
    // once, and again only while scanning continues.
    let mut live = Snapshot::new(9, p(&["home", "proj"]));
    live.scan_root(&file_meta("f", 90));
    let schedule = tree.observe_scan_state(ScanState::Scanning, live.cloned());
    assert!(schedule);
    assert!(tree.is_scanning());
    let again = tree.observe_scan_state(ScanState::Scanning, live.cloned());
    assert!(!again);
    let after_poll = tree.poll_fired(live.cloned());
    assert!(after_poll);
    let done = tree.observe_scan_state(ScanState::Idle, live.cloned());
    assert!(!done);
    assert!(!tree.is_scanning());

    assert_eq!(tree.file_count(), 1);
    assert!(tree.has_inode(90));
    assert!(!tree.has_inode(91));
    assert_eq!(tree.abs_path_for_inode(90).unwrap(), p(&["home", "proj"]));
    assert!(tree.contains_path(&p(&["home", "proj", "f"])));
    assert!(!tree.contains_path(&p(&["home", "other"])));
    assert_eq!(tree.relativize(&p(&["home", "proj", "a", "b"])).unwrap(), p(&["a", "b"]));
    assert_eq!(tree.relativize(&p(&["etc"])), Err(Error::PathOutOfRoot));
    assert_eq!(tree.path_for_inode(91, false), Err(Error::NotFound(91)));
    match tree.file(91) {
        Err(Error::NotFound(ino)) => assert_eq!(ino, 91),
        _ => panic!("unknown inode must be refused"),
    }
}

#[test]
fn test_parentless_entry_is_root() {
    // In a published snapshot, the only entry without a parent is the
    // root.
    let (snap, _) = populate_sample();
    let n = snap.entries.len();
    for i in 0..n {
        let e = snap.entries.entry_at(i);
        if e.parent().is_none() {
            assert_eq!(e.ino(), 1);
        }
    }
    match snap.root_entry().unwrap() {
        Entry::Dir { parent, .. } => assert!(parent.is_none()),
        _ => panic!("root is a directory"),
    }
}

#[test]
fn test_children_point_back_at_directory() {
    // Every child a directory lists resolves to an entry whose parent is
    // that directory.
    let (snap, _) = populate_sample();
    let n = snap.entries.len();
    for i in 0..n {
        let e = snap.entries.entry_at(i);
        if let Entry::Dir { inode, children, .. } = e {
            for c in children {
                assert_eq!(snap.get(*c).unwrap().parent(), Some(*inode));
            }
        }
    }
}

#[test]
fn test_entry_summary_fold() {
    let mut acc = EntrySummary::empty();
    assert_eq!(acc.max_ino, 0);
    assert_eq!(acc.file_count, 0);
    acc.add_summary(&EntrySummary { max_ino: 5, file_count: 1 });
    acc.add_summary(&EntrySummary { max_ino: 9, file_count: 0 });
    acc.add_summary(&EntrySummary { max_ino: 12, file_count: 3 });
    assert_eq!(acc.max_ino, 12);
    assert_eq!(acc.file_count, 4);
}

#[test]
fn test_inode_map_edit_batch() {
    let mut m = InodeMap::new();
    let mk = |ino: u64, name: &str| Entry::File {
        parent: Some(1),
        name: n(name),
        inode: ino,
        is_symlink: false,
        is_ignored: false,
        path: PathEntry { ino, path_chars: n(name), is_ignored: false },
    };
    let priors = m.edit(vec![
        Edit::Insert(mk(4, "d")),
        Edit::Insert(mk(2, "b")),
        Edit::Insert(mk(3, "c")),
        Edit::Remove(2),
        Edit::Insert(mk(4, "d2")),
    ]);
    // The removal and the overwrite each displaced one entry.
    assert_eq!(priors.len(), 2);
    assert_eq!(m.len(), 2);
    assert!(m.get(3).is_some());
    assert!(m.get(2).is_none());
    let s = m.summary();
    assert_eq!(s.max_ino, 4);
    assert_eq!(s.file_count, 2);
}

#[test]
fn test_path_entry_lowers_ascii() {
    let pe = PathEntry::new(77, &p(&["Root_Link", "BANANA", "File.TXT"]), false);
    assert_eq!(pe.path_chars, n("root_link/banana/file.txt"));
    assert_eq!(pe.ino, 77);
    assert!(!pe.is_ignored);
}

#[test]
fn test_symlink_root() {
    // A symlink-rooted worktree: the canonical target is scanned, while
    // paths are reported under the link's name.
    let (snap, _) = populate_sample();
    match snap.root_entry().unwrap() {
        Entry::Dir { is_symlink, name, .. } => {
            assert!(*is_symlink);
            assert_eq!(name, &n("root_link"));
        }
        _ => panic!("root is a directory"),
    }
    let grape = snap.inode_for_path(&p(&["fennel", "grape"])).unwrap();
    assert_eq!(snap.path_for_inode(grape, true).unwrap(), p(&["root_link", "fennel", "grape"]));
}

#[test]
fn test_events_sorted_and_deduplicated() {
    // Events arrive unsorted and with duplicates; the first occurrence
    // per path wins and parents are handled before descendants.
    let mut snap = rescan_sample();
    let fs = |ino: u64, dir: bool| Some(FsMeta {
        inode: ino,
        is_dir: dir,
        is_symlink: false,
        rule_ignored: false,
    });
    let jobs = snap.process_events(vec![
        EventObs { path: p(&["zulu", "sub"]), fs: fs(81, false) },
        EventObs { path: p(&["zulu"]), fs: fs(80, true) },
        EventObs { path: p(&["zulu"]), fs: fs(99, true) },
    ]);
    // `zulu` is new: it gets one rescan job, and the descendant event is
    // subsumed by it; the duplicate is dropped.
    assert_eq!(jobs.len(), 1);
    assert_eq!(jobs[0].ino, 80);
    assert_eq!(snap.inode_for_path(&p(&["zulu"])), Some(80));
    assert_eq!(snap.inode_for_path(&p(&["zulu", "sub"])), None);
}
