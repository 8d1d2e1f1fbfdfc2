//! One directory's scan: the caller lists the directory exactly once
//! and issues exactly one link-unaware metadata query per child, then
//! hands the results in as plain records. The scan sorts them into a
//! deterministic order, classifies each child, feeds regular files into
//! the caller's bounded selector, collects subdirectories for the next
//! round, and counts everything — continuing past per-child failures.

use crate::classify::{classify_stat, spec_classify, EntryMetadata};
use crate::entry::{
    lemma_lex_lt_asymmetric, lemma_lex_lt_connected, lemma_lex_lt_irreflexive,
    lemma_lex_lt_transitive, lex_lt, lex_lt_bytes, EntryV, FileEntry,
};
use crate::selector::TopNHeap;
use crate::stats::ScanStats;
use vstd::prelude::*;
use vstd::relations::{sorted_by, total_ordering};

verus! {

broadcast use vstd::multiset::group_multiset_axioms, vstd::seq_lib::group_to_multiset_ensures;

/// What the single metadata query for one child reported.
#[derive(Debug, Clone, Copy, PartialEq, Eq, Structural)]
pub enum ChildStatus {
    /// The query succeeded: the raw `st_mode` word and the byte size.
    Stat { mode: u32, size: u64 },
    /// The query failed; the child is skipped and counted as an error.
    StatFailed,
}

/// One child of a directory listing, as handed in by the caller: its
/// name within the directory, its full path, and the metadata result.
pub struct ChildRecord {
    pub name: Vec<u8>,
    pub path: Vec<u8>,
    pub status: ChildStatus,
}

/// Mathematical value of a child record.
#[verifier::ext_equal]
pub ghost struct ChildV {
    pub name: Seq<u8>,
    pub path: Seq<u8>,
    pub status: ChildStatus,
}

impl View for ChildRecord {
    type V = ChildV;

    open spec fn view(&self) -> ChildV {
        ChildV { name: self.name@, path: self.path@, status: self.status }
    }
}

pub open spec fn children_view(s: Seq<ChildRecord>) -> Seq<ChildV> {
    s.map_values(|c: ChildRecord| c@)
}

pub open spec fn paths_view(s: Seq<Vec<u8>>) -> Seq<Seq<u8>> {
    s.map_values(|p: Vec<u8>| p@)
}

/// Tie-break order on metadata results, so that the listing order is a
/// total order even on degenerate listings with repeated names.
pub open spec fn status_lt(a: ChildStatus, b: ChildStatus) -> bool {
    match (a, b) {
        (
            ChildStatus::Stat { mode: m1, size: s1 },
            ChildStatus::Stat { mode: m2, size: s2 },
        ) => m1 < m2 || (m1 == m2 && s1 < s2),
        (ChildStatus::Stat { .. }, ChildStatus::StatFailed) => true,
        _ => false,
    }
}

/// The deterministic listing order: by name (bytewise), then by path,
/// then by metadata result. On a real listing names are unique, so this
/// is simply name order.
pub open spec fn child_lt(a: ChildV, b: ChildV) -> bool {
    ||| lex_lt(a.name, b.name)
    ||| (a.name == b.name && lex_lt(a.path, b.path))
    ||| (a.name == b.name && a.path == b.path && status_lt(a.status, b.status))
}

pub open spec fn child_le(a: ChildV, b: ChildV) -> bool {
    a == b || child_lt(a, b)
}

pub open spec fn child_le_fn() -> spec_fn(ChildV, ChildV) -> bool {
    |a: ChildV, b: ChildV| child_le(a, b)
}

/// The listing a directory's children are processed in: the caller's
/// records sorted by the deterministic listing order.
pub open spec fn sorted_listing(s: Seq<ChildRecord>) -> Seq<ChildV> {
    children_view(s).sort_by(child_le_fn())
}

proof fn lemma_child_lt_asymmetric(a: ChildV, b: ChildV)
    requires
        child_lt(a, b),
    ensures
        !child_lt(b, a),
{
    lemma_lex_lt_irreflexive(a.name);
    lemma_lex_lt_irreflexive(a.path);
    if lex_lt(a.name, b.name) {
        lemma_lex_lt_asymmetric(a.name, b.name);
    } else if a.name == b.name && lex_lt(a.path, b.path) {
        lemma_lex_lt_asymmetric(a.path, b.path);
    }
}

proof fn lemma_child_lt_transitive(a: ChildV, b: ChildV, c: ChildV)
    requires
        child_lt(a, b),
        child_lt(b, c),
    ensures
        child_lt(a, c),
{
    if lex_lt(a.name, b.name) && lex_lt(b.name, c.name) {
        lemma_lex_lt_transitive(a.name, b.name, c.name);
    } else if a.name == b.name && a.name == c.name {
        if lex_lt(a.path, b.path) && lex_lt(b.path, c.path) {
            lemma_lex_lt_transitive(a.path, b.path, c.path);
        }
    }
}

proof fn lemma_child_connected(a: ChildV, b: ChildV)
    ensures
        child_lt(a, b) || child_lt(b, a) || a == b,
{
    lemma_lex_lt_connected(a.name, b.name);
    lemma_lex_lt_connected(a.path, b.path);
    if !child_lt(a, b) && !child_lt(b, a) {
        assert(a =~= b);
    }
}

proof fn lemma_child_le_transitive(a: ChildV, b: ChildV, c: ChildV)
    requires
        child_le(a, b),
        child_le(b, c),
    ensures
        child_le(a, c),
{
    if a != b && b != c {
        lemma_child_lt_transitive(a, b, c);
    }
}

/// The listing order is a total order, so a sorted listing is unique:
/// the traversal order is fully determined by the listing's contents.
pub proof fn lemma_child_le_total_ordering()
    ensures
        total_ordering(child_le_fn()),
{
    let r = child_le_fn();
    assert forall|x: ChildV, y: ChildV| #[trigger] r(x, y) && #[trigger] r(y, x) implies x
        == y by {
        if x != y {
            lemma_child_lt_asymmetric(x, y);
        }
    }
    assert forall|x: ChildV, y: ChildV, z: ChildV|
        #[trigger] r(x, y) && #[trigger] r(y, z) implies r(x, z) by {
        lemma_child_le_transitive(x, y, z);
    }
    assert forall|x: ChildV, y: ChildV| #[trigger] r(x, y) || #[trigger] r(y, x) by {
        lemma_child_connected(x, y);
    }
}

// --- What a processed listing contributes ---

/// The child is a regular file: its mode's `S_IFMT` bits are `S_IFREG`.
pub open spec fn is_file_child(c: ChildV) -> bool {
    match c.status {
        ChildStatus::Stat { mode, size } => mode & 0o170000 == 0o100000,
        ChildStatus::StatFailed => false,
    }
}

/// The child is a directory: its mode's `S_IFMT` bits are `S_IFDIR`.
pub open spec fn is_dir_child(c: ChildV) -> bool {
    match c.status {
        ChildStatus::Stat { mode, size } => mode & 0o170000 == 0o040000,
        ChildStatus::StatFailed => false,
    }
}

/// The ranked entry a regular-file child contributes.
pub open spec fn file_entry_of(c: ChildV) -> EntryV {
    EntryV {
        size: match c.status {
            ChildStatus::Stat { mode, size } => size,
            ChildStatus::StatFailed => 0,
        },
        path: c.path,
    }
}

/// The ranked entries of the regular files in a listing, in order.
pub open spec fn file_entries(s: Seq<ChildV>) -> Seq<EntryV>
    decreases s.len(),
{
    if s.len() == 0 {
        Seq::empty()
    } else if is_file_child(s.last()) {
        file_entries(s.drop_last()).push(file_entry_of(s.last()))
    } else {
        file_entries(s.drop_last())
    }
}

/// The paths of the subdirectories in a listing, in order.
pub open spec fn dir_paths(s: Seq<ChildV>) -> Seq<Seq<u8>>
    decreases s.len(),
{
    if s.len() == 0 {
        Seq::empty()
    } else if is_dir_child(s.last()) {
        dir_paths(s.drop_last()).push(s.last().path)
    } else {
        dir_paths(s.drop_last())
    }
}

/// How many children of a listing failed their metadata query.
pub open spec fn count_errors(s: Seq<ChildV>) -> nat
    decreases s.len(),
{
    if s.len() == 0 {
        0
    } else {
        count_errors(s.drop_last()) + if s.last().status == ChildStatus::StatFailed {
            1nat
        } else {
            0nat
        }
    }
}

/// `e` is the ranked entry of some regular-file child of the listing.
pub open spec fn from_a_file_child(s: Seq<ChildV>, e: EntryV) -> bool {
    exists|i: int| 0 <= i < s.len() && #[trigger] is_file_child(s[i]) && e == file_entry_of(s[i])
}

/// Everything a scan feeds into the selector pool comes from a child
/// classified as a regular file. A symbolic link is never classified as
/// one (its `S_IFMT` bits are `S_IFLNK`, not `S_IFREG`), so no symlink
/// can ever appear in the ranked output.
pub proof fn lemma_pool_entries_are_files(s: Seq<ChildV>)
    ensures
        forall|j: int|
            0 <= j < file_entries(s).len() ==> from_a_file_child(s, #[trigger] file_entries(s)[j]),
    decreases s.len(),
{
    if s.len() > 0 {
        let pre = s.drop_last();
        lemma_pool_entries_are_files(pre);
        assert forall|j: int| 0 <= j < file_entries(s).len() implies from_a_file_child(
            s,
            #[trigger] file_entries(s)[j],
        ) by {
            if is_file_child(s.last()) && j == file_entries(s).len() - 1 {
                assert(is_file_child(s[s.len() - 1]));
                assert(file_entries(s)[j] == file_entry_of(s[s.len() - 1]));
            } else {
                assert(file_entries(s)[j] == file_entries(pre)[j]);
                let i = choose|i: int|
                    0 <= i < pre.len() && #[trigger] is_file_child(pre[i]) && file_entries(pre)[j]
                        == file_entry_of(pre[i]);
                assert(is_file_child(s[i]));
            }
        }
    }
}

/// A scan's `files_scanned` increase equals the number of entries it
/// adds to the selector's pool, so held entries plus entries the
/// bounded selector discards always add up to the files counted.
pub proof fn lemma_scan_accounting(s: Seq<ChildV>)
    ensures
        file_entries(s).to_multiset().len() == file_entries(s).len(),
{
}

proof fn lemma_effect_lens(s: Seq<ChildV>)
    ensures
        file_entries(s).len() <= s.len(),
        dir_paths(s).len() <= s.len(),
        count_errors(s) <= s.len(),
    decreases s.len(),
{
    if s.len() > 0 {
        lemma_effect_lens(s.drop_last());
    }
}

// --- Executable pieces ---

fn status_lt_exec(a: ChildStatus, b: ChildStatus) -> (r: bool)
    ensures
        r == status_lt(a, b),
{
    match (a, b) {
        (
            ChildStatus::Stat { mode: m1, size: s1 },
            ChildStatus::Stat { mode: m2, size: s2 },
        ) => m1 < m2 || (m1 == m2 && s1 < s2),
        (ChildStatus::Stat { mode: _, size: _ }, ChildStatus::StatFailed) => true,
        _ => false,
    }
}

/// Decides the deterministic listing order between two child records.
fn child_lt_exec(a: &ChildRecord, b: &ChildRecord) -> (r: bool)
    ensures
        r == child_lt(a@, b@),
{
    if lex_lt_bytes(&a.name, &b.name) {
        return true;
    }
    if lex_lt_bytes(&b.name, &a.name) {
        proof {
            lemma_lex_lt_irreflexive(a@.name);
            lemma_lex_lt_irreflexive(a@.path);
        }
        return false;
    }
    proof {
        lemma_lex_lt_connected(a@.name, b@.name);
    }
    if lex_lt_bytes(&a.path, &b.path) {
        return true;
    }
    if lex_lt_bytes(&b.path, &a.path) {
        proof {
            lemma_lex_lt_irreflexive(a@.path);
        }
        return false;
    }
    proof {
        lemma_lex_lt_connected(a@.path, b@.path);
    }
    status_lt_exec(a.status, b.status)
}

/// Copies a byte vector.
fn copy_bytes(src: &Vec<u8>) -> (r: Vec<u8>)
    ensures
        r@ == src@,
{
    let mut r: Vec<u8> = Vec::new();
    let mut i: usize = 0;
    proof {
        assert(r@ =~= src@.take(0));
    }
    while i < src.len()
        invariant
            i <= src@.len(),
            r@ == src@.take(i as int),
        decreases src@.len() - i,
    {
        r.push(src[i]);
        proof {
            assert(src@.take(i as int).push(src@[i as int]) =~= src@.take(i + 1));
        }
        i = i + 1;
    }
    proof {
        assert(src@.take(src@.len() as int) =~= src@);
    }
    r
}

/// Sorts the records into the deterministic listing order.
fn sort_children(children: Vec<ChildRecord>) -> (r: Vec<ChildRecord>)
    ensures
        children_view(r@) == children_view(children@).sort_by(child_le_fn()),
{
    let ghost orig = children_view(children@);
    let mut pending = children;
    let mut out: Vec<ChildRecord> = Vec::new();
    proof {
        assert(children_view(out@) =~= Seq::<ChildV>::empty());
        assert(children_view(out@).to_multiset().add(children_view(pending@).to_multiset())
            =~= orig.to_multiset());
    }
    while pending.len() > 0
        invariant
            sorted_by(children_view(out@), child_le_fn()),
            forall|i: int, j: int|
                0 <= i < out@.len() && 0 <= j < pending@.len() ==> child_le(
                    #[trigger] children_view(out@)[i],
                    #[trigger] children_view(pending@)[j],
                ),
            children_view(out@).to_multiset().add(children_view(pending@).to_multiset())
                == orig.to_multiset(),
        decreases pending@.len(),
    {
        // Find the least remaining record.
        let mut mi: usize = 0;
        let mut i: usize = 1;
        while i < pending.len()
            invariant
                mi < i <= pending@.len(),
                forall|j: int|
                    0 <= j < i ==> child_le(
                        children_view(pending@)[mi as int],
                        #[trigger] children_view(pending@)[j],
                    ),
            decreases pending@.len() - i,
        {
            let less = child_lt_exec(&pending[i], &pending[mi]);
            proof {
                let sv = children_view(pending@);
                if less {
                    assert forall|j: int| 0 <= j < i + 1 implies child_le(
                        sv[i as int],
                        #[trigger] sv[j],
                    ) by {
                        if j < i {
                            lemma_child_le_transitive(sv[i as int], sv[mi as int], sv[j]);
                        }
                    }
                } else {
                    lemma_child_connected(sv[mi as int], sv[i as int]);
                }
            }
            if less {
                mi = i;
            }
            i = i + 1;
        }
        let ghost pv = children_view(pending@);
        let ghost ov = children_view(out@);
        let ghost least = pv[mi as int];
        let c = pending.remove(mi);
        out.push(c);
        proof {
            assert(children_view(pending@) =~= pv.remove(mi as int));
            assert(children_view(out@) =~= ov.push(least));
            let ov2 = children_view(out@);
            let pv2 = children_view(pending@);
            assert(sorted_by(ov2, child_le_fn())) by {
                assert forall|i1: int, j1: int| 0 <= i1 < j1 < ov2.len() implies child_le_fn()(
                    ov2[i1],
                    ov2[j1],
                ) by {
                    if j1 == ov2.len() - 1 {
                        assert(child_le(ov[i1], least));
                    }
                }
            }
            assert forall|i1: int, j1: int|
                0 <= i1 < ov2.len() && 0 <= j1 < pv2.len() implies child_le(
                #[trigger] ov2[i1],
                #[trigger] pv2[j1],
            ) by {
                let j0: int = if j1 < mi {
                    j1
                } else {
                    j1 + 1
                };
                assert(pv2[j1] == pv[j0]);
                if i1 == ov2.len() - 1 {
                    assert(child_le(least, pv[j0]));
                } else {
                    assert(child_le(ov[i1], pv[j0]));
                }
            }
            assert(ov2.to_multiset().add(pv2.to_multiset()) =~= orig.to_multiset()) by {
                assert(pv2.to_multiset() == pv.to_multiset().remove(least));
                assert(ov2.to_multiset() =~= ov.to_multiset().insert(least));
                assert(pv.to_multiset().contains(least)) by {
                    assert(pv.contains(pv[mi as int]));
                }
            }
        }
    }
    proof {
        assert(children_view(pending@).to_multiset().len() == 0);
        assert(children_view(out@).to_multiset() =~= orig.to_multiset());
        lemma_child_le_total_ordering();
        orig.lemma_sort_by_ensures(child_le_fn());
        vstd::seq_lib::lemma_sorted_unique(
            children_view(out@),
            orig.sort_by(child_le_fn()),
            child_le_fn(),
        );
    }
    out
}

/// Scans one directory from its listing: counts `unreadable` listing
/// failures, sorts the readable children into the deterministic order,
/// classifies each exactly once from its single metadata result, feeds
/// regular files into the selector, appends subdirectory paths in
/// order, and counts a failed child as one error without stopping.
pub fn scan_directory(
    children: Vec<ChildRecord>,
    unreadable: u64,
    top_n: &mut TopNHeap,
    stats: &mut ScanStats,
    subdirs: &mut Vec<Vec<u8>>,
)
    requires
        old(top_n).inv(),
        old(stats).files_scanned + children@.len() <= u64::MAX,
        old(stats).dirs_scanned + children@.len() <= u64::MAX,
        old(stats).errors + unreadable + children@.len() <= u64::MAX,
    ensures
        final(top_n).inv(),
        final(top_n).cap() == old(top_n).cap(),
        final(top_n).pool() == old(top_n).pool().add(
            file_entries(sorted_listing(children@)).to_multiset(),
        ),
        final(stats).files_scanned == old(stats).files_scanned + file_entries(
            sorted_listing(children@),
        ).len(),
        final(stats).dirs_scanned == old(stats).dirs_scanned + dir_paths(
            sorted_listing(children@),
        ).len(),
        final(stats).errors == old(stats).errors + unreadable + count_errors(
            sorted_listing(children@),
        ),
        paths_view(final(subdirs)@) == paths_view(old(subdirs)@) + dir_paths(
            sorted_listing(children@),
        ),
{
    let ghost n_children = children@.len();
    let ghost sc = sorted_listing(children@);
    proof {
        lemma_child_le_total_ordering();
        children_view(children@).lemma_sort_by_ensures(child_le_fn());
        assert(sc.len() == sc.to_multiset().len());
        assert(children_view(children@).len() == children_view(children@).to_multiset().len());
        assert(sc.len() == children_view(children@).len());
    }
    stats.errors = stats.errors + unreadable;
    let sorted = sort_children(children);
    let ghost old_pool = top_n.pool();
    let ghost old_stats = *stats;
    let ghost old_subs = paths_view(subdirs@);
    let mut i: usize = 0;
    proof {
        assert(children_view(sorted@) == sc);
        assert(file_entries(sc.take(0)) =~= Seq::<EntryV>::empty());
        assert(dir_paths(sc.take(0)) =~= Seq::<Seq<u8>>::empty());
        assert(count_errors(sc.take(0)) == 0);
        assert(top_n.pool().add(file_entries(sc.take(0)).to_multiset()) =~= top_n.pool());
        assert(old_subs + dir_paths(sc.take(0)) =~= old_subs);
    }
    while i < sorted.len()
        invariant
            i <= sorted@.len(),
            children_view(sorted@) == sc,
            sc.len() <= n_children,
            top_n.inv(),
            top_n.cap() == old(top_n).cap(),
            top_n.pool() == old_pool.add(file_entries(sc.take(i as int)).to_multiset()),
            stats.files_scanned == old_stats.files_scanned + file_entries(
                sc.take(i as int),
            ).len(),
            stats.dirs_scanned == old_stats.dirs_scanned + dir_paths(sc.take(i as int)).len(),
            stats.errors == old_stats.errors + count_errors(sc.take(i as int)),
            paths_view(subdirs@) == old_subs + dir_paths(sc.take(i as int)),
            old_stats.files_scanned + n_children <= u64::MAX,
            old_stats.dirs_scanned + n_children <= u64::MAX,
            old_stats.errors + n_children <= u64::MAX,
        decreases sorted@.len() - i,
    {
        let ghost pre = sc.take(i as int);
        let ghost cur = sc[i as int];
        proof {
            lemma_effect_lens(pre);
            assert(sc.take(i + 1).drop_last() =~= pre);
            assert(sc.take(i + 1).last() == cur);
        }
        match sorted[i].status {
            ChildStatus::Stat { mode, size } => {
                let md = classify_stat(mode, size);
                match md {
                    EntryMetadata::RegularFile { size: fsize } => {
                        stats.files_scanned = stats.files_scanned + 1;
                        let path = copy_bytes(&sorted[i].path);
                        let e = FileEntry { size: fsize, path };
                        proof {
                            assert(e@ == file_entry_of(cur));
                            assert(is_file_child(cur));
                        }
                        top_n.insert(e);
                        proof {
                            assert(file_entries(sc.take(i + 1)) =~= file_entries(pre).push(
                                file_entry_of(cur),
                            ));
                            assert(top_n.pool() =~= old_pool.add(
                                file_entries(sc.take(i + 1)).to_multiset(),
                            ));
                        }
                    },
                    EntryMetadata::Directory => {
                        stats.dirs_scanned = stats.dirs_scanned + 1;
                        let path = copy_bytes(&sorted[i].path);
                        let ghost subs = subdirs@;
                        subdirs.push(path);
                        proof {
                            assert(is_dir_child(cur));
                            assert(paths_view(subdirs@) =~= paths_view(subs).push(cur.path));
                            assert(dir_paths(sc.take(i + 1)) =~= dir_paths(pre).push(cur.path));
                            assert(paths_view(subdirs@) =~= old_subs + dir_paths(
                                sc.take(i + 1),
                            ));
                        }
                    },
                    EntryMetadata::Other => {
                        proof {
                            assert(!is_file_child(cur));
                            assert(!is_dir_child(cur));
                            assert(file_entries(sc.take(i + 1)) =~= file_entries(pre));
                            assert(dir_paths(sc.take(i + 1)) =~= dir_paths(pre));
                        }
                    },
                }
            },
            ChildStatus::StatFailed => {
                stats.errors = stats.errors + 1;
                proof {
                    assert(!is_file_child(cur));
                    assert(!is_dir_child(cur));
                }
            },
        }
        proof {
            assert(file_entries(sc.take(i + 1)).to_multiset() =~= if is_file_child(cur) {
                file_entries(pre).to_multiset().insert(file_entry_of(cur))
            } else {
                file_entries(pre).to_multiset()
            });
        }
        i = i + 1;
    }
    proof {
        assert(sc.take(sc.len() as int) =~= sc);
    }
}

} // verus!
