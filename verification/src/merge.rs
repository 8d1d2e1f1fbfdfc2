//! Deterministic merge: every per-worker selector is folded into one
//! fresh bounded selector, and the held entries are then sorted into
//! final order (size descending, path ascending). The output depends
//! only on the multiset of discovered files and the capacity.

use crate::entry::{
    lemma_rank_connected, lemma_rank_ge_transitive, lemma_rank_total_ordering, rank_ge,
    rank_ge_fn, ranks_above_exec, EntryV, FileEntry,
};
use crate::selector::{entries_view, is_top_of, lemma_top_absorb, lemma_top_of_unique, TopNHeap};
use vstd::multiset::Multiset;
use vstd::prelude::*;
use vstd::relations::sorted_by;

verus! {

broadcast use vstd::multiset::group_multiset_axioms, vstd::seq_lib::group_to_multiset_ensures;

/// All entries held by a sequence of selectors.
pub open spec fn sum_contents(hs: Seq<TopNHeap>) -> Multiset<EntryV>
    decreases hs.len(),
{
    if hs.len() == 0 {
        Multiset::empty()
    } else {
        sum_contents(hs.drop_last()).add(hs.last().contents())
    }
}

/// All entries ever inserted into a sequence of selectors.
pub open spec fn sum_pools(hs: Seq<TopNHeap>) -> Multiset<EntryV>
    decreases hs.len(),
{
    if hs.len() == 0 {
        Multiset::empty()
    } else {
        sum_pools(hs.drop_last()).add(hs.last().pool())
    }
}

/// A best-ranked selection over what a row of selectors still holds
/// (plus any context `r`) is best-ranked over everything they ever saw
/// (plus `r`): the per-worker bounded selectors discard nothing that
/// could still reach the global top.
pub proof fn lemma_sum_absorb(
    m: Multiset<EntryV>,
    hs: Seq<TopNHeap>,
    r: Multiset<EntryV>,
    cap: nat,
)
    requires
        forall|i: int| 0 <= i < hs.len() ==> (#[trigger] hs[i].inv()) && hs[i].cap() == cap,
        is_top_of(m, sum_contents(hs).add(r), cap),
    ensures
        is_top_of(m, sum_pools(hs).add(r), cap),
    decreases hs.len(),
{
    if hs.len() == 0 {
        assert(sum_contents(hs).add(r) =~= sum_pools(hs).add(r));
    } else {
        let pre = hs.drop_last();
        let c = hs.last().contents();
        let p = hs.last().pool();
        assert(hs.last().inv());
        assert(sum_contents(hs).add(r) =~= sum_contents(pre).add(c.add(r)));
        lemma_sum_absorb(m, pre, c.add(r), cap);
        assert(sum_pools(pre).add(c.add(r)) =~= (sum_pools(pre).add(r)).add(c));
        lemma_top_absorb(m, sum_pools(pre).add(r), c, p, cap);
        assert((sum_pools(pre).add(r)).add(p) =~= sum_pools(hs).add(r));
    }
}

/// The ranked output is a function of the discovered pool and the
/// capacity alone: any two sorted best-ranked selections over the same
/// pool are the same sequence, bit for bit. Worker count, scheduling
/// and merge order cannot change it.
pub proof fn lemma_ranking_deterministic(
    r1: Seq<EntryV>,
    r2: Seq<EntryV>,
    pool: Multiset<EntryV>,
    cap: nat,
)
    requires
        sorted_by(r1, rank_ge_fn()),
        sorted_by(r2, rank_ge_fn()),
        is_top_of(r1.to_multiset(), pool, cap),
        is_top_of(r2.to_multiset(), pool, cap),
    ensures
        r1 == r2,
{
    lemma_top_of_unique(r1.to_multiset(), r2.to_multiset(), pool, cap);
    lemma_rank_total_ordering();
    vstd::seq_lib::lemma_sorted_unique(r1, r2, rank_ge_fn());
}

/// Merges per-worker selectors into the final ranked list: every held
/// entry is re-inserted into one fresh selector of the same capacity,
/// and the survivors are sorted by rank, best first. The result is a
/// best-ranked selection from everything the workers ever saw.
pub fn merge_heaps(heaps: Vec<TopNHeap>, capacity: usize) -> (r: Vec<FileEntry>)
    requires
        forall|i: int|
            0 <= i < heaps@.len() ==> (#[trigger] heaps@[i].inv()) && heaps@[i].cap() == capacity,
    ensures
        sorted_by(entries_view(r@), rank_ge_fn()),
        is_top_of(entries_view(r@).to_multiset(), sum_pools(heaps@), capacity as nat),
        r@.len() <= capacity,
{
    let ghost hs = heaps@;
    let mut heaps = heaps;
    let mut final_heap = TopNHeap::new(capacity);
    while heaps.len() > 0
        invariant
            final_heap.inv(),
            final_heap.cap() == capacity,
            forall|i: int|
                0 <= i < heaps@.len() ==> (#[trigger] heaps@[i].inv()) && heaps@[i].cap()
                    == capacity,
            final_heap.pool().add(sum_contents(heaps@)) == sum_contents(hs),
        decreases heaps@.len(),
    {
        let ghost pre = heaps@;
        let h = heaps.pop().unwrap();
        proof {
            assert(heaps@ =~= pre.drop_last());
            assert(sum_contents(pre) == sum_contents(pre.drop_last()).add(h.contents()));
        }
        let ghost hc = h.contents();
        let mut entries = h.into_vec();
        let ghost pool_before = final_heap.pool();
        while entries.len() > 0
            invariant
                final_heap.inv(),
                final_heap.cap() == capacity,
                final_heap.pool().add(entries_view(entries@).to_multiset()) == pool_before.add(
                    hc,
                ),
            decreases entries@.len(),
        {
            let ghost es = entries@;
            let e = entries.pop().unwrap();
            proof {
                assert(entries@ =~= es.drop_last());
                assert(es.drop_last() =~= es.remove(es.len() - 1));
                let vs = entries_view(es);
                assert(entries_view(es.remove(es.len() - 1)) =~= vs.remove(vs.len() - 1));
                assert(vs.remove(vs.len() - 1).to_multiset() == vs.to_multiset().remove(
                    vs.last(),
                ));
                assert(e@ == vs.last());
            }
            final_heap.insert(e);
            proof {
                assert(final_heap.pool().add(entries_view(entries@).to_multiset())
                    =~= pool_before.add(hc));
            }
        }
        proof {
            assert(entries_view(entries@).to_multiset().len() == 0);
            assert(final_heap.pool().add(entries_view(entries@).to_multiset())
                =~= final_heap.pool());
            assert(final_heap.pool().add(sum_contents(heaps@)) =~= sum_contents(hs)) by {
                assert(pool_before.add(hc).add(sum_contents(pre.drop_last())) =~= pool_before.add(
                    sum_contents(pre),
                ));
            }
        }
    }
    proof {
        assert(sum_contents(heaps@) =~= Multiset::<EntryV>::empty());
        assert(final_heap.pool() =~= sum_contents(hs));
        lemma_sum_absorb(
            final_heap.contents(),
            hs,
            Multiset::empty(),
            capacity as nat,
        );
        assert(sum_contents(hs).add(Multiset::<EntryV>::empty()) =~= sum_contents(hs));
        assert(sum_pools(hs).add(Multiset::<EntryV>::empty()) =~= sum_pools(hs));
    }
    sort_ranked(final_heap.into_vec())
}

/// Sorts entries by rank, best first, preserving the multiset.
fn sort_ranked(pending: Vec<FileEntry>) -> (r: Vec<FileEntry>)
    ensures
        sorted_by(entries_view(r@), rank_ge_fn()),
        entries_view(r@).to_multiset() == entries_view(pending@).to_multiset(),
        r@.len() == pending@.len(),
{
    let ghost orig = entries_view(pending@).to_multiset();
    let mut pending = pending;
    let mut out: Vec<FileEntry> = Vec::new();
    proof {
        assert(entries_view(out@) =~= Seq::<EntryV>::empty());
        assert(entries_view(out@).to_multiset().add(entries_view(pending@).to_multiset())
            =~= orig);
    }
    while pending.len() > 0
        invariant
            sorted_by(entries_view(out@), rank_ge_fn()),
            forall|i: int, j: int|
                0 <= i < out@.len() && 0 <= j < pending@.len() ==> rank_ge(
                    #[trigger] entries_view(out@)[i],
                    #[trigger] entries_view(pending@)[j],
                ),
            entries_view(out@).to_multiset().add(entries_view(pending@).to_multiset()) == orig,
            out@.len() + pending@.len() == orig.len(),
        decreases pending@.len(),
    {
        // Find the best-ranked remaining entry.
        let mut bi: usize = 0;
        let mut i: usize = 1;
        while i < pending.len()
            invariant
                bi < i <= pending@.len(),
                forall|j: int|
                    0 <= j < i ==> rank_ge(
                        entries_view(pending@)[bi as int],
                        #[trigger] entries_view(pending@)[j],
                    ),
            decreases pending@.len() - i,
        {
            let better = ranks_above_exec(&pending[i], &pending[bi]);
            proof {
                let sv = entries_view(pending@);
                if better {
                    assert forall|j: int| 0 <= j < i + 1 implies rank_ge(
                        sv[i as int],
                        #[trigger] sv[j],
                    ) by {
                        if j < i {
                            lemma_rank_ge_transitive(sv[i as int], sv[bi as int], sv[j]);
                        }
                    }
                } else {
                    lemma_rank_connected(sv[bi as int], sv[i as int]);
                }
            }
            if better {
                bi = i;
            }
            i = i + 1;
        }
        let ghost pv = entries_view(pending@);
        let ghost ov = entries_view(out@);
        let ghost best = pv[bi as int];
        let e = pending.remove(bi);
        out.push(e);
        proof {
            assert(entries_view(pending@) =~= pv.remove(bi as int));
            assert(entries_view(out@) =~= ov.push(best));
            let ov2 = entries_view(out@);
            let pv2 = entries_view(pending@);
            assert(sorted_by(ov2, rank_ge_fn())) by {
                assert forall|i1: int, j1: int| 0 <= i1 < j1 < ov2.len() implies rank_ge_fn()(
                    ov2[i1],
                    ov2[j1],
                ) by {
                    if j1 == ov2.len() - 1 {
                        assert(rank_ge(ov[i1], best));
                    }
                }
            }
            assert forall|i1: int, j1: int|
                0 <= i1 < ov2.len() && 0 <= j1 < pv2.len() implies rank_ge(
                #[trigger] ov2[i1],
                #[trigger] pv2[j1],
            ) by {
                let j0: int = if j1 < bi {
                    j1
                } else {
                    j1 + 1
                };
                assert(pv2[j1] == pv[j0]);
                if i1 == ov2.len() - 1 {
                    assert(rank_ge(best, pv[j0]));
                } else {
                    assert(rank_ge(ov[i1], pv[j0]));
                }
            }
            assert(ov2.to_multiset().add(pv2.to_multiset()) =~= orig) by {
                assert(pv2.to_multiset() == pv.to_multiset().remove(best));
                assert(ov2.to_multiset() =~= ov.to_multiset().insert(best));
                assert(pv.to_multiset().contains(best)) by {
                    assert(pv.contains(pv[bi as int]));
                }
            }
        }
    }
    proof {
        assert(entries_view(pending@).to_multiset().len() == 0);
        assert(entries_view(out@).to_multiset().add(entries_view(pending@).to_multiset())
            =~= entries_view(out@).to_multiset());
    }
    out
}

} // verus!
