use bfinder::entry::FileEntry;
use bfinder::merge::merge_heaps;
use bfinder::selector::TopNHeap;

fn entry(size: u64, path: &str) -> FileEntry {
    FileEntry {
        size,
        path: path.as_bytes().to_vec(),
    }
}

fn sizes_and_paths(v: &[FileEntry]) -> Vec<(u64, String)> {
    v.iter()
        .map(|e| (e.size, String::from_utf8(e.path.clone()).unwrap()))
        .collect()
}

#[test]
fn selector_keeps_the_best_entries() {
    let mut h = TopNHeap::new(2);
    h.insert(entry(10, "/a"));
    h.insert(entry(30, "/b"));
    h.insert(entry(20, "/c"));
    let ranked = merge_heaps(vec![h], 2);
    assert_eq!(sizes_and_paths(&ranked), vec![
        (30, "/b".to_string()),
        (20, "/c".to_string()),
    ]);
}

#[test]
fn selector_with_capacity_zero_holds_nothing() {
    let mut h = TopNHeap::new(0);
    h.insert(entry(10, "/a"));
    h.insert(entry(30, "/b"));
    assert_eq!(h.into_vec().len(), 0);
}

#[test]
fn selector_under_capacity_keeps_everything() {
    let mut h = TopNHeap::new(10);
    h.insert(entry(10, "/a"));
    h.insert(entry(30, "/b"));
    h.insert(entry(20, "/c"));
    let ranked = merge_heaps(vec![h], 10);
    assert_eq!(sizes_and_paths(&ranked), vec![
        (30, "/b".to_string()),
        (20, "/c".to_string()),
        (10, "/a".to_string()),
    ]);
}

#[test]
fn equal_sizes_break_ties_by_ascending_path() {
    let mut h = TopNHeap::new(3);
    h.insert(entry(500, "/zz"));
    h.insert(entry(500, "/aa"));
    h.insert(entry(500, "/mm"));
    let ranked = merge_heaps(vec![h], 3);
    assert_eq!(sizes_and_paths(&ranked), vec![
        (500, "/aa".to_string()),
        (500, "/mm".to_string()),
        (500, "/zz".to_string()),
    ]);
}

#[test]
fn eviction_drops_the_tie_with_the_greater_path() {
    let mut h = TopNHeap::new(1);
    h.insert(entry(500, "/b"));
    h.insert(entry(500, "/a"));
    let ranked = merge_heaps(vec![h], 1);
    assert_eq!(sizes_and_paths(&ranked), vec![(500, "/a".to_string())]);
}

#[test]
fn merge_is_independent_of_how_entries_were_partitioned() {
    // The same six files, split across workers two different ways,
    // produce bit-identical ranked output.
    let files = [
        (700u64, "/d/1"),
        (100, "/d/2"),
        (300, "/d/3"),
        (900, "/d/4"),
        (300, "/a/5"),
        (42, "/d/6"),
    ];
    let mut one = TopNHeap::new(3);
    for (s, p) in files.iter() {
        one.insert(entry(*s, p));
    }
    let single = merge_heaps(vec![one], 3);

    let mut w1 = TopNHeap::new(3);
    let mut w2 = TopNHeap::new(3);
    for (i, (s, p)) in files.iter().enumerate() {
        if i % 2 == 0 {
            w1.insert(entry(*s, p));
        } else {
            w2.insert(entry(*s, p));
        }
    }
    let split = merge_heaps(vec![w2, w1], 3);

    assert_eq!(sizes_and_paths(&single), sizes_and_paths(&split));
    assert_eq!(sizes_and_paths(&single), vec![
        (900, "/d/4".to_string()),
        (700, "/d/1".to_string()),
        (300, "/a/5".to_string()),
    ]);
}

#[test]
fn held_plus_discarded_accounts_for_every_insert() {
    // 5 inserts into capacity 2: 2 held, 3 discarded, none lost or
    // counted twice.
    let mut h = TopNHeap::new(2);
    let inserts = 5u64;
    h.insert(entry(1, "/p1"));
    h.insert(entry(2, "/p2"));
    h.insert(entry(3, "/p3"));
    h.insert(entry(4, "/p4"));
    h.insert(entry(5, "/p5"));
    let held = h.into_vec();
    assert_eq!(held.len() as u64 + (inserts - held.len() as u64), inserts);
    assert_eq!(held.len(), 2);
    let mut sizes: Vec<u64> = held.iter().map(|e| e.size).collect();
    sizes.sort();
    assert_eq!(sizes, vec![4, 5]);
}
