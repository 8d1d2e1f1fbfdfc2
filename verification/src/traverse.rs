//! Level-synchronized traversal state. The traversal proceeds in
//! rounds: the caller takes the whole frontier (the directories at the
//! current depth), scans every directory in it — concurrently if it
//! likes, each worker with its own selector and counters — and deposits
//! each worker's results back. Only when a round's results are all
//! deposited does the next frontier exist, so depth k is finished
//! before depth k+1 begins. `finish` then merges every deposited
//! selector into the final ranked list.

use crate::entry::{rank_ge_fn, EntryV, FileEntry};
use crate::merge::{merge_heaps, sum_pools};
use crate::selector::{entries_view, is_top_of, TopNHeap};
use crate::stats::ScanStats;
use vstd::multiset::Multiset;
use vstd::prelude::*;
use vstd::relations::sorted_by;

verus! {

broadcast use vstd::multiset::group_multiset_axioms;

/// The traversal's whole state between rounds: the selectors and
/// counters deposited so far, and the frontier for the next round.
pub struct Traversal {
    capacity: usize,
    heaps: Vec<TopNHeap>,
    stats: ScanStats,
    frontier: Vec<Vec<u8>>,
}

impl Traversal {
    /// Every entry ever inserted into a deposited selector.
    pub closed spec fn pool(self) -> Multiset<EntryV> {
        sum_pools(self.heaps@)
    }

    pub closed spec fn cap(self) -> nat {
        self.capacity as nat
    }

    /// The counters summed over all deposits so far.
    pub closed spec fn stats(self) -> ScanStats {
        self.stats
    }

    /// The directories waiting for the next round.
    pub closed spec fn frontier(self) -> Seq<Seq<u8>> {
        self.frontier@.map_values(|p: Vec<u8>| p@)
    }

    pub closed spec fn inv(self) -> bool {
        forall|i: int|
            0 <= i < self.heaps@.len() ==> (#[trigger] self.heaps@[i].inv())
                && self.heaps@[i].cap() == self.capacity as nat
    }

    /// A traversal about to scan: the frontier holds just the root.
    pub fn new(root: Vec<u8>, capacity: usize) -> (r: Self)
        ensures
            r.inv(),
            r.cap() == capacity,
            r.pool() == Multiset::<EntryV>::empty(),
            r.stats() == (ScanStats { files_scanned: 0, dirs_scanned: 0, errors: 0 }),
            r.frontier() == seq![root@],
    {
        let ghost rootv = root@;
        let mut frontier: Vec<Vec<u8>> = Vec::new();
        frontier.push(root);
        let r = Traversal { capacity, heaps: Vec::new(), stats: ScanStats::new(), frontier };
        proof {
            assert(r.frontier() =~= seq![rootv]);
        }
        r
    }

    /// The counters accumulated so far, for callers that must bound
    /// further additions.
    pub fn stats_so_far(&self) -> (r: ScanStats)
        ensures
            r == self.stats(),
    {
        self.stats
    }

    /// Whether another round is needed.
    pub fn has_work(&self) -> (r: bool)
        ensures
            r == (self.frontier().len() > 0),
    {
        self.frontier.len() > 0
    }

    /// Hands the caller the whole current frontier and leaves it empty;
    /// the next frontier grows only from the results the caller then
    /// deposits, which is what keeps the rounds level-synchronized.
    pub fn take_frontier(&mut self) -> (r: Vec<Vec<u8>>)
        requires
            old(self).inv(),
        ensures
            final(self).inv(),
            final(self).cap() == old(self).cap(),
            final(self).pool() == old(self).pool(),
            final(self).stats() == old(self).stats(),
            final(self).frontier() == Seq::<Seq<u8>>::empty(),
            r@.map_values(|p: Vec<u8>| p@) == old(self).frontier(),
    {
        let mut taken: Vec<Vec<u8>> = Vec::new();
        core::mem::swap(&mut taken, &mut self.frontier);
        proof {
            assert(final(self).frontier() =~= Seq::<Seq<u8>>::empty());
        }
        taken
    }

    /// Deposits one worker's results for a round: its selector, its
    /// counters, and the subdirectories it discovered, which join the
    /// next frontier.
    pub fn absorb(&mut self, heap: TopNHeap, worker_stats: ScanStats, subdirs: Vec<Vec<u8>>)
        requires
            old(self).inv(),
            heap.inv(),
            heap.cap() == old(self).cap(),
            old(self).stats().files_scanned + worker_stats.files_scanned <= u64::MAX,
            old(self).stats().dirs_scanned + worker_stats.dirs_scanned <= u64::MAX,
            old(self).stats().errors + worker_stats.errors <= u64::MAX,
        ensures
            final(self).inv(),
            final(self).cap() == old(self).cap(),
            final(self).pool() == old(self).pool().add(heap.pool()),
            final(self).stats().files_scanned == old(self).stats().files_scanned
                + worker_stats.files_scanned,
            final(self).stats().dirs_scanned == old(self).stats().dirs_scanned
                + worker_stats.dirs_scanned,
            final(self).stats().errors == old(self).stats().errors + worker_stats.errors,
            final(self).frontier() == old(self).frontier() + subdirs@.map_values(
                |p: Vec<u8>| p@,
            ),
    {
        let ghost pre = self.heaps@;
        self.heaps.push(heap);
        proof {
            assert(self.heaps@.drop_last() =~= pre);
            assert(self.heaps@.last() == heap);
            assert(forall|i: int|
                0 <= i < pre.len() ==> self.heaps@[i] == #[trigger] pre[i]);
        }
        self.stats.merge_from(&worker_stats);
        let mut subdirs = subdirs;
        let ghost front_pre = self.frontier@;
        let ghost subs = subdirs@;
        self.frontier.append(&mut subdirs);
        proof {
            assert(self.frontier@ =~= front_pre + subs);
            assert(self.frontier@.map_values(|p: Vec<u8>| p@) =~= front_pre.map_values(
                |p: Vec<u8>| p@,
            ) + subs.map_values(|p: Vec<u8>| p@));
        }
    }

    /// Merges every deposited selector into the final ranked list:
    /// sorted best first, a best-ranked selection of at most `cap`
    /// entries from everything any worker ever saw, together with the
    /// summed counters.
    pub fn finish(self) -> (r: (Vec<FileEntry>, ScanStats))
        requires
            self.inv(),
        ensures
            sorted_by(entries_view(r.0@), rank_ge_fn()),
            is_top_of(entries_view(r.0@).to_multiset(), self.pool(), self.cap()),
            r.0@.len() <= self.cap(),
            r.1 == self.stats(),
    {
        let ranked = merge_heaps(self.heaps, self.capacity);
        (ranked, self.stats)
    }
}

} // verus!
