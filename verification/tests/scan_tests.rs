use bfinder::scan::{scan_directory, ChildRecord, ChildStatus};
use bfinder::selector::TopNHeap;
use bfinder::stats::ScanStats;
use bfinder::traverse::Traversal;

const DIR_MODE: u32 = 0o040755;
const FILE_MODE: u32 = 0o100644;
const LINK_MODE: u32 = 0o120777;

fn child(name: &str, path: &str, status: ChildStatus) -> ChildRecord {
    ChildRecord {
        name: name.as_bytes().to_vec(),
        path: path.as_bytes().to_vec(),
        status,
    }
}

fn file(name: &str, path: &str, size: u64) -> ChildRecord {
    child(name, path, ChildStatus::Stat { mode: FILE_MODE, size })
}

fn dir(name: &str, path: &str) -> ChildRecord {
    child(name, path, ChildStatus::Stat { mode: DIR_MODE, size: 0 })
}

fn ranked_pairs(v: &[bfinder::entry::FileEntry]) -> Vec<(u64, String)> {
    v.iter()
        .map(|e| (e.size, String::from_utf8(e.path.clone()).unwrap()))
        .collect()
}

#[test]
fn one_directory_is_counted_and_fed_in_order() {
    let children = vec![
        file("b.txt", "/d/b.txt", 10),
        dir("sub", "/d/sub"),
        file("a.txt", "/d/a.txt", 20),
        child("dev", "/d/dev", ChildStatus::Stat { mode: 0o020644, size: 0 }),
    ];
    let mut heap = TopNHeap::new(5);
    let mut stats = ScanStats::new();
    let mut subdirs: Vec<Vec<u8>> = Vec::new();
    scan_directory(children, 0, &mut heap, &mut stats, &mut subdirs);
    assert_eq!(stats.files_scanned, 2);
    assert_eq!(stats.dirs_scanned, 1);
    assert_eq!(stats.errors, 0);
    assert_eq!(subdirs, vec![b"/d/sub".to_vec()]);
    assert_eq!(heap.into_vec().len(), 2);
}

#[test]
fn failed_children_and_unreadable_entries_are_errors_not_fatal() {
    let children = vec![
        file("keep.txt", "/d/keep.txt", 7),
        child("gone", "/d/gone", ChildStatus::StatFailed),
        child("gone2", "/d/gone2", ChildStatus::StatFailed),
    ];
    let mut heap = TopNHeap::new(5);
    let mut stats = ScanStats::new();
    let mut subdirs: Vec<Vec<u8>> = Vec::new();
    scan_directory(children, 3, &mut heap, &mut stats, &mut subdirs);
    assert_eq!(stats.errors, 5); // 3 unreadable listing slots + 2 failed queries
    assert_eq!(stats.files_scanned, 1);
    let held = heap.into_vec();
    assert_eq!(held.len(), 1);
    assert_eq!(held[0].size, 7);
}

#[test]
fn symlink_to_a_large_file_never_enters_the_ranking() {
    let children = vec![
        file("small.txt", "/d/small.txt", 1),
        child("biglink", "/d/biglink", ChildStatus::Stat { mode: LINK_MODE, size: 999999 }),
    ];
    let mut heap = TopNHeap::new(5);
    let mut stats = ScanStats::new();
    let mut subdirs: Vec<Vec<u8>> = Vec::new();
    scan_directory(children, 0, &mut heap, &mut stats, &mut subdirs);
    assert_eq!(stats.files_scanned, 1);
    let ranked = bfinder::merge::merge_heaps(vec![heap], 5);
    assert_eq!(ranked_pairs(&ranked), vec![(1, "/d/small.txt".to_string())]);
}

fn run_example_tree(capacity: usize) -> (Vec<bfinder::entry::FileEntry>, ScanStats) {
    // /a/1.txt (500), /a/2.txt (500), /b/3.txt (1000)
    let mut t = Traversal::new(b"/".to_vec(), capacity);

    let frontier = t.take_frontier();
    assert_eq!(frontier, vec![b"/".to_vec()]);
    let root_children = vec![dir("a", "/a"), dir("b", "/b")];
    let mut heap = TopNHeap::new(capacity);
    let mut stats = ScanStats::new();
    let mut subdirs: Vec<Vec<u8>> = Vec::new();
    scan_directory(root_children, 0, &mut heap, &mut stats, &mut subdirs);
    t.absorb(heap, stats, subdirs);

    let frontier = t.take_frontier();
    assert_eq!(frontier, vec![b"/a".to_vec(), b"/b".to_vec()]);
    for d in frontier {
        let children = if d == b"/a".to_vec() {
            vec![
                file("1.txt", "/a/1.txt", 500),
                file("2.txt", "/a/2.txt", 500),
            ]
        } else {
            vec![file("3.txt", "/b/3.txt", 1000)]
        };
        let mut heap = TopNHeap::new(capacity);
        let mut stats = ScanStats::new();
        let mut subdirs: Vec<Vec<u8>> = Vec::new();
        scan_directory(children, 0, &mut heap, &mut stats, &mut subdirs);
        t.absorb(heap, stats, subdirs);
    }

    assert!(!t.has_work());
    t.finish()
}

#[test]
fn example_tree_capacity_two_ranks_big_file_then_path_tie() {
    let (ranked, stats) = run_example_tree(2);
    assert_eq!(ranked_pairs(&ranked), vec![
        (1000, "/b/3.txt".to_string()),
        (500, "/a/1.txt".to_string()),
    ]);
    assert_eq!(stats.files_scanned, 3);
    assert_eq!(stats.dirs_scanned, 2);
    assert_eq!(stats.errors, 0);
}

#[test]
fn capacity_zero_yields_nothing_but_still_counts_files() {
    let (ranked, stats) = run_example_tree(0);
    assert_eq!(ranked.len(), 0);
    assert_eq!(stats.files_scanned, 3);
}

#[test]
fn a_failing_sibling_directory_does_not_disturb_the_ranking() {
    // Two subdirectories; one cannot be listed at all. Its failure is
    // one error, and the other's files still rank normally.
    let mut t = Traversal::new(b"/".to_vec(), 3);

    let _ = t.take_frontier();
    let root_children = vec![dir("good", "/good"), dir("locked", "/locked")];
    let mut heap = TopNHeap::new(3);
    let mut stats = ScanStats::new();
    let mut subdirs: Vec<Vec<u8>> = Vec::new();
    scan_directory(root_children, 0, &mut heap, &mut stats, &mut subdirs);
    t.absorb(heap, stats, subdirs);

    let frontier = t.take_frontier();
    assert_eq!(frontier.len(), 2);
    for d in frontier {
        let mut heap = TopNHeap::new(3);
        let mut stats = ScanStats::new();
        let mut subdirs: Vec<Vec<u8>> = Vec::new();
        if d == b"/good".to_vec() {
            let children = vec![file("f.txt", "/good/f.txt", 64)];
            scan_directory(children, 0, &mut heap, &mut stats, &mut subdirs);
        } else {
            // Permission denied: the listing itself failed.
            stats.record_error();
        }
        t.absorb(heap, stats, subdirs);
    }

    let (ranked, stats) = t.finish();
    assert_eq!(ranked_pairs(&ranked), vec![(64, "/good/f.txt".to_string())]);
    assert_eq!(stats.errors, 1);
    assert_eq!(stats.dirs_scanned, 2);
    assert_eq!(stats.files_scanned, 1);
}

#[test]
fn stats_sum_across_workers() {
    let mut a = ScanStats::new();
    let mut b = ScanStats::new();
    b.files_scanned = 3;
    b.dirs_scanned = 2;
    b.errors = 1;
    a.merge_from(&b);
    a.merge_from(&b);
    assert_eq!(a.files_scanned, 6);
    assert_eq!(a.dirs_scanned, 4);
    assert_eq!(a.errors, 2);
}
