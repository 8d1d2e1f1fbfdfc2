//! The bounded top-N selector: a fixed-capacity structure that retains
//! only the best-ranked entries seen so far, evicting the worst-ranked
//! entry whenever an insert pushes it over capacity.

use crate::entry::{
    lemma_rank_connected, lemma_rank_ge_antisymmetric, lemma_rank_ge_transitive, rank_ge,
    ranks_above_exec, EntryV, FileEntry,
};
use vstd::multiset::Multiset;
use vstd::prelude::*;

verus! {

broadcast use vstd::multiset::group_multiset_axioms, vstd::seq_lib::group_to_multiset_ensures;

/// The entries of a sequence, as mathematical values.
pub open spec fn entries_view(s: Seq<FileEntry>) -> Seq<EntryV> {
    s.map_values(|e: FileEntry| e@)
}

/// `m` is a best-ranked selection from `pool` of size at most `cap`:
/// it is drawn from `pool`, holds `min(cap, pool.len())` entries, and
/// every entry held ranks at least as high as every entry left out.
pub open spec fn is_top_of(m: Multiset<EntryV>, pool: Multiset<EntryV>, cap: nat) -> bool {
    &&& m.subset_of(pool)
    &&& m.len() == if pool.len() <= cap {
        pool.len()
    } else {
        cap
    }
    &&& forall|x: EntryV, y: EntryV|
        #[trigger] m.contains(x) && #[trigger] pool.sub(m).contains(y) ==> rank_ge(x, y)
}

/// A multiset drawn from a pool of no more than `cap` entries is the
/// whole pool.
pub proof fn lemma_subset_full(m: Multiset<EntryV>, pool: Multiset<EntryV>)
    requires
        m.subset_of(pool),
        m.len() == pool.len(),
    ensures
        m == pool,
{
    assert(pool.sub(m).len() == 0);
    assert(pool.sub(m) =~= Multiset::<EntryV>::empty()) by {
        vstd::multiset::lemma_multiset_empty_len(pool.sub(m));
    }
    assert forall|v: EntryV| m.count(v) == pool.count(v) by {
        assert(pool.sub(m).count(v) == 0);
    }
    assert(m =~= pool);
}

/// With fewer entries than `cap` in the pool, the selection is the pool
/// itself; an insert then just joins the selection.
proof fn lemma_top_insert_room(c: Multiset<EntryV>, p: Multiset<EntryV>, cap: nat, e: EntryV)
    requires
        is_top_of(c, p, cap),
        c.len() < cap,
    ensures
        is_top_of(c.insert(e), p.insert(e), cap),
{
    lemma_subset_full(c, p);
    assert(c.insert(e) =~= p.insert(e));
    assert forall|x: EntryV, y: EntryV|
        #[trigger] c.insert(e).contains(x) && #[trigger] p.insert(e).sub(c.insert(e)).contains(
            y,
        ) implies rank_ge(x, y) by {
        assert(p.insert(e).sub(c.insert(e)).count(y) == 0);
    }
}

/// With the selection full, inserting `e` and evicting a worst-ranked
/// entry `w` of the enlarged selection keeps it a best-ranked selection
/// from the enlarged pool.
proof fn lemma_top_insert_full(
    c: Multiset<EntryV>,
    p: Multiset<EntryV>,
    cap: nat,
    e: EntryV,
    w: EntryV,
)
    requires
        is_top_of(c, p, cap),
        c.len() == cap,
        c.insert(e).contains(w),
        forall|x: EntryV| #[trigger] c.insert(e).contains(x) ==> rank_ge(x, w),
    ensures
        is_top_of(c.insert(e).remove(w), p.insert(e), cap),
{
    let c2 = c.insert(e);
    let m = c2.remove(w);
    let p2 = p.insert(e);
    assert(m.subset_of(p2)) by {
        assert forall|v: EntryV| m.count(v) <= p2.count(v) by {
            assert(c.count(v) <= p.count(v));
        }
    }
    assert(c2.len() == cap + 1);
    assert(m.len() == cap) by {
        assert(Multiset::singleton(w).subset_of(c2)) by {
            assert forall|v: EntryV| Multiset::singleton(w).count(v) <= c2.count(v) by {
                if v != w {
                    assert(Multiset::singleton(w).count(v) == 0);
                }
            }
        }
        assert(c2.sub(Multiset::singleton(w)).len() == c2.len() - 1);
    }
    assert(p.len() >= c.len()) by {
        assert(p.sub(c).len() == p.len() - c.len());
    }
    assert forall|x: EntryV, y: EntryV|
        #[trigger] m.contains(x) && #[trigger] p2.sub(m).contains(y) implies rank_ge(x, y) by {
        assert(c2.contains(x));
        assert(rank_ge(x, w));
        if y == w {
        } else {
            // The eviction put one copy of `w` back among the discarded;
            // any other discarded entry was already outside `c`.
            assert(p2.sub(m).count(y) == p.count(y) + (if y == e {
                1int
            } else {
                0int
            }) - m.count(y));
            assert(m.count(y) == c.count(y) + (if y == e {
                1int
            } else {
                0int
            }));
            assert(p.count(y) > c.count(y));
            assert(p.sub(c).contains(y));
            if c.count(x) > 0 {
                assert(c.contains(x));
            } else {
                assert(x == e);
                assert(w != e);
                assert(c.contains(w));
                assert(rank_ge(w, y));
                assert(rank_ge(e, w));
                lemma_rank_ge_transitive(e, w, y);
            }
        }
    }
}

/// A best-ranked selection from a pool is unique: two selections of the
/// same capacity from the same pool hold exactly the same entries. This
/// is why the scan's ranked output cannot depend on scheduling.
pub proof fn lemma_top_of_unique(
    m1: Multiset<EntryV>,
    m2: Multiset<EntryV>,
    pool: Multiset<EntryV>,
    cap: nat,
)
    requires
        is_top_of(m1, pool, cap),
        is_top_of(m2, pool, cap),
    ensures
        m1 == m2,
{
    assert forall|v: EntryV| m1.count(v) == m2.count(v) by {
        lemma_top_of_count_le(m1, m2, pool, cap, v);
        lemma_top_of_count_le(m2, m1, pool, cap, v);
    }
    assert(m1 =~= m2);
}

/// No entry can be held with higher multiplicity by one best-ranked
/// selection than by another over the same pool.
proof fn lemma_top_of_count_le(
    m1: Multiset<EntryV>,
    m2: Multiset<EntryV>,
    pool: Multiset<EntryV>,
    cap: nat,
    v: EntryV,
)
    requires
        is_top_of(m1, pool, cap),
        is_top_of(m2, pool, cap),
    ensures
        m1.count(v) <= m2.count(v),
{
    if m1.count(v) > m2.count(v) {
        assert(m1.contains(v));
        assert(pool.sub(m2).contains(v));
        if exists|w: EntryV| m2.count(w) > m1.count(w) {
            let w = choose|w: EntryV| m2.count(w) > m1.count(w);
            assert(m2.contains(w));
            assert(pool.sub(m1).contains(w));
            assert(rank_ge(v, w));
            assert(rank_ge(w, v));
            lemma_rank_ge_antisymmetric(v, w);
        } else {
            assert(m2.subset_of(m1));
            lemma_subset_full(m2, m1);
        }
    }
}

/// When the pool fits within the capacity, the selection is the whole
/// pool: nothing is ever discarded.
pub proof fn lemma_top_of_small_pool(m: Multiset<EntryV>, pool: Multiset<EntryV>, cap: nat)
    requires
        is_top_of(m, pool, cap),
        pool.len() <= cap,
    ensures
        m == pool,
{
    lemma_subset_full(m, pool);
}

/// Held entries plus discarded entries account for the pool exactly:
/// every inserted entry is counted once and only once.
pub proof fn lemma_top_no_double_count(m: Multiset<EntryV>, pool: Multiset<EntryV>, cap: nat)
    requires
        is_top_of(m, pool, cap),
    ensures
        m.len() + pool.sub(m).len() == pool.len(),
{
    assert(pool.sub(m).len() == pool.len() - m.len());
}

/// A best-ranked selection taken over another selection's held entries
/// (plus anything else, `d`) is still best-ranked over that selection's
/// whole pool (plus `d`): discarding through an intermediate bounded
/// selector loses nothing from the top.
pub proof fn lemma_top_absorb(
    m: Multiset<EntryV>,
    d: Multiset<EntryV>,
    c: Multiset<EntryV>,
    p: Multiset<EntryV>,
    cap: nat,
)
    requires
        is_top_of(m, d.add(c), cap),
        is_top_of(c, p, cap),
    ensures
        is_top_of(m, d.add(p), cap),
{
    if c.len() < cap {
        lemma_subset_full(c, p);
    } else {
        assert(c.len() == cap);
        assert(p.len() >= c.len()) by {
            assert(p.sub(c).len() == p.len() - c.len());
        }
        assert(m.subset_of(d.add(p))) by {
            assert forall|u: EntryV| m.count(u) <= d.add(p).count(u) by {
                assert(m.count(u) <= d.add(c).count(u));
                assert(c.count(u) <= p.count(u));
            }
        }
        assert(m.len() == cap);
        assert(d.add(p).len() >= cap);
        assert forall|x: EntryV, y: EntryV|
            #[trigger] m.contains(x) && #[trigger] d.add(p).sub(m).contains(y) implies rank_ge(
            x,
            y,
        ) by {
            if d.add(c).count(y) > m.count(y) {
                assert(d.add(c).sub(m).contains(y));
            } else {
                assert(d.add(c).count(y) == m.count(y));
                assert(p.count(y) > c.count(y));
                assert(p.sub(c).contains(y));
                if exists|u: EntryV| c.count(u) > m.count(u) {
                    let u = choose|u: EntryV| c.count(u) > m.count(u);
                    assert(d.add(c).count(u) > m.count(u));
                    assert(d.add(c).sub(m).contains(u));
                    assert(rank_ge(x, u));
                    assert(c.contains(u));
                    assert(rank_ge(u, y));
                    lemma_rank_ge_transitive(x, u, y);
                } else {
                    assert(c.subset_of(m));
                    lemma_subset_full(c, m);
                    assert(c.contains(x));
                }
            }
        }
    }
}

/// A fixed-capacity selector over ranked entries. It records (as ghost
/// state) the pool of every entry ever inserted, and its held entries
/// are always a best-ranked selection from that pool.
pub struct TopNHeap {
    entries: Vec<FileEntry>,
    capacity: usize,
    inserted: Ghost<Multiset<EntryV>>,
}

impl TopNHeap {
    /// The entries currently held.
    pub closed spec fn contents(self) -> Multiset<EntryV> {
        entries_view(self.entries@).to_multiset()
    }

    /// Every entry ever inserted.
    pub closed spec fn pool(self) -> Multiset<EntryV> {
        self.inserted@
    }

    pub closed spec fn cap(self) -> nat {
        self.capacity as nat
    }

    pub open spec fn inv(self) -> bool {
        is_top_of(self.contents(), self.pool(), self.cap())
    }

    pub fn new(capacity: usize) -> (r: Self)
        ensures
            r.inv(),
            r.cap() == capacity,
            r.pool() == Multiset::<EntryV>::empty(),
            r.contents() == Multiset::<EntryV>::empty(),
    {
        let r = TopNHeap {
            entries: Vec::new(),
            capacity,
            inserted: Ghost(Multiset::empty()),
        };
        proof {
            assert(entries_view(r.entries@) =~= Seq::<EntryV>::empty());
            assert(r.contents().len() == 0);
            vstd::multiset::lemma_multiset_empty_len(r.contents());
            assert(r.contents() =~= Multiset::<EntryV>::empty());
            assert forall|x: EntryV, y: EntryV|
                #[trigger] r.contents().contains(x) && #[trigger] r.pool().sub(
                    r.contents(),
                ).contains(y) implies rank_ge(x, y) by {}
        }
        r
    }

    /// Admits `entry`; if the selector then exceeds its capacity, the
    /// single worst-ranked held entry is evicted.
    pub fn insert(&mut self, entry: FileEntry)
        requires
            old(self).inv(),
        ensures
            final(self).inv(),
            final(self).cap() == old(self).cap(),
            final(self).pool() == old(self).pool().insert(entry@),
    {
        let ghost old_c = self.contents();
        let ghost old_p = self.pool();
        let ghost ev = entry@;
        self.inserted = Ghost(self.inserted@.insert(entry@));
        self.entries.push(entry);
        proof {
            let s_old = entries_view(old(self).entries@);
            assert(entries_view(self.entries@) =~= s_old.push(ev));
            assert(self.contents() =~= old_c.insert(ev));
        }
        if self.entries.len() > self.capacity {
            let ghost c2 = self.contents();
            // Find the worst-ranked held entry.
            let mut wi: usize = 0;
            let mut i: usize = 1;
            while i < self.entries.len()
                invariant
                    wi < i <= self.entries@.len(),
                    forall|j: int|
                        0 <= j < i ==> rank_ge(
                            #[trigger] entries_view(self.entries@)[j],
                            entries_view(self.entries@)[wi as int],
                        ),
                decreases self.entries@.len() - i,
            {
                let worse = ranks_above_exec(&self.entries[wi], &self.entries[i]);
                proof {
                    let sv = entries_view(self.entries@);
                    if worse {
                        assert forall|j: int| 0 <= j < i + 1 implies rank_ge(
                            #[trigger] sv[j],
                            sv[i as int],
                        ) by {
                            if j < i {
                                lemma_rank_ge_transitive(sv[j], sv[wi as int], sv[i as int]);
                            }
                        }
                    } else {
                        lemma_rank_connected(sv[i as int], sv[wi as int]);
                    }
                }
                if worse {
                    wi = i;
                }
                i = i + 1;
            }
            let ghost w = entries_view(self.entries@)[wi as int];
            proof {
                let sv = entries_view(self.entries@);
                assert(c2.contains(w)) by {
                    assert(sv.contains(sv[wi as int]));
                }
                assert forall|x: EntryV| #[trigger] c2.contains(x) implies rank_ge(x, w) by {
                    assert(sv.contains(x));
                    let j = choose|j: int| 0 <= j < sv.len() && sv[j] == x;
                    assert(rank_ge(sv[j], sv[wi as int]));
                }
                lemma_top_insert_full(old_c, old_p, self.cap(), ev, w);
            }
            self.entries.remove(wi);
            proof {
                let s_mid = entries_view(old(self).entries@).push(ev);
                assert(entries_view(self.entries@) =~= s_mid.remove(wi as int));
                assert(self.contents() =~= old_c.insert(ev).remove(w));
            }
        } else {
            proof {
                if old_c.len() < self.cap() {
                    lemma_top_insert_room(old_c, old_p, self.cap(), ev);
                } else {
                    // The vector cannot already be over capacity.
                    assert(old_c.len() == entries_view(old(self).entries@).len());
                }
            }
        }
    }

    /// Yields the held entries, in no particular order; the selector is
    /// consumed.
    pub fn into_vec(self) -> (r: Vec<FileEntry>)
        ensures
            entries_view(r@).to_multiset() == self.contents(),
    {
        self.entries
    }
}

} // verus!
