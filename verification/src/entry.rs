//! Ranked entries and the strict total order used everywhere: size
//! descending first, path ascending (bytewise lexicographic) to break ties.

use vstd::prelude::*;
use vstd::relations::total_ordering;

verus! {

/// Mathematical value of a ranked entry: a byte count and a path.
#[verifier::ext_equal]
pub ghost struct EntryV {
    pub size: u64,
    pub path: Seq<u8>,
}

/// A regular file with its size and path, ranked by `ranks_above`.
#[derive(Debug)]
pub struct FileEntry {
    pub size: u64,
    pub path: Vec<u8>,
}

impl View for FileEntry {
    type V = EntryV;

    open spec fn view(&self) -> EntryV {
        EntryV { size: self.size, path: self.path@ }
    }
}

/// Strict lexicographic order on byte sequences.
pub open spec fn lex_lt(a: Seq<u8>, b: Seq<u8>) -> bool
    decreases a.len(),
{
    if b.len() == 0 {
        false
    } else if a.len() == 0 {
        true
    } else if a[0] < b[0] {
        true
    } else if a[0] > b[0] {
        false
    } else {
        lex_lt(a.drop_first(), b.drop_first())
    }
}

/// `a` is ranked strictly above `b`: larger size wins; equal sizes are
/// broken by the lexicographically smaller path.
pub open spec fn ranks_above(a: EntryV, b: EntryV) -> bool {
    a.size > b.size || (a.size == b.size && lex_lt(a.path, b.path))
}

/// `a` is ranked at least as high as `b`.
pub open spec fn rank_ge(a: EntryV, b: EntryV) -> bool {
    a == b || ranks_above(a, b)
}

/// The ranking as a binary relation, for use with vstd's order vocabulary.
pub open spec fn rank_ge_fn() -> spec_fn(EntryV, EntryV) -> bool {
    |a: EntryV, b: EntryV| rank_ge(a, b)
}

pub proof fn lemma_lex_lt_irreflexive(a: Seq<u8>)
    ensures
        !lex_lt(a, a),
    decreases a.len(),
{
    if a.len() > 0 {
        lemma_lex_lt_irreflexive(a.drop_first());
    }
}

pub proof fn lemma_lex_lt_asymmetric(a: Seq<u8>, b: Seq<u8>)
    requires
        lex_lt(a, b),
    ensures
        !lex_lt(b, a),
    decreases a.len(),
{
    if a.len() > 0 && b.len() > 0 && a[0] == b[0] {
        lemma_lex_lt_asymmetric(a.drop_first(), b.drop_first());
    }
}

pub proof fn lemma_lex_lt_connected(a: Seq<u8>, b: Seq<u8>)
    ensures
        lex_lt(a, b) || lex_lt(b, a) || a == b,
    decreases a.len(),
{
    if a.len() == 0 && b.len() == 0 {
        assert(a =~= b);
    } else if a.len() > 0 && b.len() > 0 && a[0] == b[0] {
        lemma_lex_lt_connected(a.drop_first(), b.drop_first());
        if !lex_lt(a, b) && !lex_lt(b, a) {
            assert(a.drop_first() =~= b.drop_first());
            assert(a =~= b) by {
                assert(forall|i: int|
                    1 <= i < a.len() ==> #[trigger] a[i] == a.drop_first()[i - 1]
                        && b[i] == b.drop_first()[i - 1]);
            }
        }
    }
}

pub proof fn lemma_lex_lt_transitive(a: Seq<u8>, b: Seq<u8>, c: Seq<u8>)
    requires
        lex_lt(a, b),
        lex_lt(b, c),
    ensures
        lex_lt(a, c),
    decreases a.len(),
{
    if a.len() > 0 && b.len() > 0 && c.len() > 0 && a[0] == b[0] && b[0] == c[0] {
        lemma_lex_lt_transitive(a.drop_first(), b.drop_first(), c.drop_first());
    }
}

pub proof fn lemma_ranks_above_asymmetric(a: EntryV, b: EntryV)
    requires
        ranks_above(a, b),
    ensures
        !ranks_above(b, a),
        a != b,
{
    if a.size == b.size {
        lemma_lex_lt_asymmetric(a.path, b.path);
    }
}

pub proof fn lemma_rank_connected(a: EntryV, b: EntryV)
    ensures
        ranks_above(a, b) || ranks_above(b, a) || a == b,
{
    if a.size == b.size {
        lemma_lex_lt_connected(a.path, b.path);
        if !lex_lt(a.path, b.path) && !lex_lt(b.path, a.path) {
            assert(a =~= b);
        }
    }
}

pub proof fn lemma_rank_ge_transitive(a: EntryV, b: EntryV, c: EntryV)
    requires
        rank_ge(a, b),
        rank_ge(b, c),
    ensures
        rank_ge(a, c),
{
    if a != b && b != c && a.size == b.size && b.size == c.size {
        lemma_lex_lt_transitive(a.path, b.path, c.path);
    }
}

pub proof fn lemma_rank_ge_antisymmetric(a: EntryV, b: EntryV)
    requires
        rank_ge(a, b),
        rank_ge(b, a),
    ensures
        a == b,
{
    if a != b {
        lemma_ranks_above_asymmetric(a, b);
    }
}

/// The ranking is a total order, so a sequence sorted by it is unique
/// for a given multiset of entries.
pub proof fn lemma_rank_total_ordering()
    ensures
        total_ordering(rank_ge_fn()),
{
    let r = rank_ge_fn();
    assert forall|x: EntryV, y: EntryV| #[trigger] r(x, y) && #[trigger] r(y, x) implies x
        == y by {
        lemma_rank_ge_antisymmetric(x, y);
    }
    assert forall|x: EntryV, y: EntryV, z: EntryV| #[trigger] r(x, y) && #[trigger] r(y, z) implies
        r(x, z) by {
        lemma_rank_ge_transitive(x, y, z);
    }
    assert forall|x: EntryV, y: EntryV| #[trigger] r(x, y) || #[trigger] r(y, x) by {
        lemma_rank_connected(x, y);
    }
}

/// Bytewise lexicographic comparison of two byte vectors.
pub fn lex_lt_bytes(a: &Vec<u8>, b: &Vec<u8>) -> (r: bool)
    ensures
        r == lex_lt(a@, b@),
{
    let mut i: usize = 0;
    proof {
        assert(a@.skip(0) =~= a@);
        assert(b@.skip(0) =~= b@);
    }
    loop
        invariant
            i <= a.len(),
            i <= b.len(),
            forall|j: int| 0 <= j < i ==> a@[j] == b@[j],
            lex_lt(a@, b@) == lex_lt(a@.skip(i as int), b@.skip(i as int)),
        decreases a.len() - i,
    {
        if i >= b.len() {
            assert(b@.skip(i as int).len() == 0);
            return false;
        }
        if i >= a.len() {
            assert(a@.skip(i as int).len() == 0);
            return true;
        }
        let x = a[i];
        let y = b[i];
        if x < y {
            return true;
        }
        if x > y {
            return false;
        }
        proof {
            assert(a@.skip(i as int).drop_first() =~= a@.skip(i + 1));
            assert(b@.skip(i as int).drop_first() =~= b@.skip(i + 1));
        }
        i = i + 1;
    }
}

/// Decides whether `a` is ranked strictly above `b` under the total order.
pub fn ranks_above_exec(a: &FileEntry, b: &FileEntry) -> (r: bool)
    ensures
        r == ranks_above(a@, b@),
{
    if a.size > b.size {
        true
    } else if a.size < b.size {
        false
    } else {
        lex_lt_bytes(&a.path, &b.path)
    }
}

} // verus!
