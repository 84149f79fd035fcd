//! Sequence helpers shared by the player-state and combat modules: removing a
//! set of positions from a sequence, counting how many positions a list of
//! indices hits, and small executable index-list utilities.

use vstd::prelude::*;

verus! {

/// The sequence `s` with every position named in `idx` removed; the kept
/// elements stay in order.
pub open spec fn remove_indices<A>(s: Seq<A>, idx: Seq<usize>) -> Seq<A>
    decreases s.len(),
{
    if s.len() == 0 {
        Seq::empty()
    } else {
        let prefix = remove_indices(s.drop_last(), idx);
        if idx.contains((s.len() - 1) as usize) {
            prefix
        } else {
            prefix.push(s.last())
        }
    }
}

/// The elements of `s` at the positions named in `idx`, kept in position
/// order: the complement of `remove_indices`.
pub open spec fn select_indices<A>(s: Seq<A>, idx: Seq<usize>) -> Seq<A>
    decreases s.len(),
{
    if s.len() == 0 {
        Seq::empty()
    } else {
        let prefix = select_indices(s.drop_last(), idx);
        if idx.contains((s.len() - 1) as usize) {
            prefix.push(s.last())
        } else {
            prefix
        }
    }
}

/// How many of the positions `0 .. n` the index list `idx` names.
pub open spec fn hits(n: int, idx: Seq<usize>) -> int
    decreases n,
{
    if n <= 0 {
        0
    } else {
        hits(n - 1, idx) + if idx.contains((n - 1) as usize) {
            1int
        } else {
            0int
        }
    }
}

/// Removing positions shortens a sequence by exactly the number of positions
/// hit.
pub proof fn lemma_remove_indices_len<A>(s: Seq<A>, idx: Seq<usize>)
    ensures
        remove_indices(s, idx).len() == s.len() - hits(s.len() as int, idx),
        select_indices(s, idx).len() == hits(s.len() as int, idx),
        hits(s.len() as int, idx) <= s.len(),
        0 <= hits(s.len() as int, idx),
    decreases s.len(),
{
    if s.len() > 0 {
        lemma_remove_indices_len(s.drop_last(), idx);
    }
}

pub proof fn lemma_hits_empty(n: int, idx: Seq<usize>)
    requires
        idx.len() == 0,
    ensures
        hits(n, idx) == 0,
    decreases n,
{
    if n > 0 {
        lemma_hits_empty(n - 1, idx);
    }
}

/// Adding one index not already in the list raises the hit count by one when
/// the index is in range, and not at all otherwise.
pub proof fn lemma_hits_fresh(n: int, idx: Seq<usize>, v: usize)
    requires
        !idx.contains(v),
        n <= usize::MAX,
    ensures
        hits(n, idx.push(v)) == hits(n, idx) + if 0 <= v < n {
            1int
        } else {
            0int
        },
    decreases n,
{
    if n > 0 {
        lemma_hits_fresh(n - 1, idx, v);
        assert(idx.push(v).contains((n - 1) as usize) <==> (idx.contains((n - 1) as usize) || v == (
        n - 1) as usize)) by {
            if idx.push(v).contains((n - 1) as usize) {
                let w = choose|i: int|
                    0 <= i < idx.push(v).len() && idx.push(v)[i] == (n - 1) as usize;
                if w < idx.len() {
                    assert(idx[w] == (n - 1) as usize);
                }
            }
            if idx.contains((n - 1) as usize) {
                let w = choose|i: int| 0 <= i < idx.len() && idx[i] == (n - 1) as usize;
                assert(idx.push(v)[w] == (n - 1) as usize);
            }
            if v == (n - 1) as usize {
                assert(idx.push(v)[idx.len() as int] == v);
            }
        }
    }
}

/// A duplicate-free list of indices, all below `n`, hits exactly its own
/// length among the positions `0 .. n`.
pub proof fn lemma_hits_distinct_in_range(n: int, idx: Seq<usize>)
    requires
        idx.no_duplicates(),
        forall|k: int| 0 <= k < idx.len() ==> #[trigger] idx[k] < n,
        n <= usize::MAX,
    ensures
        hits(n, idx) == idx.len(),
    decreases idx.len(),
{
    if idx.len() == 0 {
        lemma_hits_empty(n, idx);
    } else {
        let v = idx.last();
        let rest = idx.drop_last();
        assert(!rest.contains(v));
        lemma_hits_distinct_in_range(n, rest);
        lemma_hits_fresh(n, rest, v);
        assert(idx =~= rest.push(v));
    }
}

/// Every element kept by `remove_indices`, and every element picked out by
/// `select_indices`, occurs in the original sequence.
pub proof fn lemma_remove_indices_elements<A>(s: Seq<A>, idx: Seq<usize>)
    ensures
        forall|j: int|
            0 <= j < remove_indices(s, idx).len() ==> s.contains(
                #[trigger] remove_indices(s, idx)[j],
            ),
        forall|j: int|
            0 <= j < select_indices(s, idx).len() ==> s.contains(
                #[trigger] select_indices(s, idx)[j],
            ),
    decreases s.len(),
{
    if s.len() > 0 {
        lemma_remove_indices_elements(s.drop_last(), idx);
        assert forall|j: int| 0 <= j < remove_indices(s, idx).len() implies s.contains(
            #[trigger] remove_indices(s, idx)[j],
        ) by {
            let r = remove_indices(s, idx);
            let prefix = remove_indices(s.drop_last(), idx);
            if j < prefix.len() {
                let w = choose|i: int| 0 <= i < s.drop_last().len() && s.drop_last()[i] == prefix[j];
                assert(s[w] == prefix[j]);
            } else {
                assert(s[s.len() - 1] == r[j]);
            }
        }
        assert forall|j: int| 0 <= j < select_indices(s, idx).len() implies s.contains(
            #[trigger] select_indices(s, idx)[j],
        ) by {
            let r = select_indices(s, idx);
            let prefix = select_indices(s.drop_last(), idx);
            if j < prefix.len() {
                let w = choose|i: int| 0 <= i < s.drop_last().len() && s.drop_last()[i] == prefix[j];
                assert(s[w] == prefix[j]);
            } else {
                assert(s[s.len() - 1] == r[j]);
            }
        }
    }
}

/// A duplicate-free sequence of indices all below `n` has at most `n`
/// elements.
pub proof fn lemma_distinct_bounded(s: Seq<usize>, n: nat)
    requires
        s.no_duplicates(),
        forall|k: int| 0 <= k < s.len() ==> #[trigger] s[k] < n,
    ensures
        s.len() <= n,
{
    let t = s.map_values(|x: usize| x as int);
    assert(t.no_duplicates()) by {
        assert forall|i: int, j: int| 0 <= i < j < t.len() implies t[i] != t[j] by {
            assert(s[i] != s[j]);
        }
    }
    t.unique_seq_to_set();
    vstd::set_lib::lemma_int_range(0, n as int);
    assert(t.to_set().subset_of(vstd::set_lib::set_int_range(0, n as int))) by {
        assert forall|x: int| t.to_set().contains(x) implies 0 <= x < n by {
            let w = choose|i: int| 0 <= i < t.len() && t[i] == x;
            assert(s[w] < n);
        }
    }
    vstd::set_lib::lemma_len_subset(t.to_set(), vstd::set_lib::set_int_range(0, n as int));
}

/// Removing no positions keeps the sequence as it is.
pub proof fn lemma_remove_indices_none<A>(s: Seq<A>, idx: Seq<usize>)
    requires
        idx.len() == 0,
    ensures
        remove_indices(s, idx) == s,
    decreases s.len(),
{
    if s.len() > 0 {
        lemma_remove_indices_none(s.drop_last(), idx);
        assert(remove_indices(s, idx) =~= s);
    }
}

/// The selected and the kept positions together carry exactly the original
/// cards: removal and selection partition the sequence's multiset.
pub proof fn lemma_remove_indices_multiset<A>(s: Seq<A>, idx: Seq<usize>)
    ensures
        select_indices(s, idx).to_multiset().add(remove_indices(s, idx).to_multiset())
            == s.to_multiset(),
    decreases s.len(),
{
    broadcast use vstd::seq_lib::group_to_multiset_ensures;
    broadcast use vstd::multiset::group_multiset_axioms;

    if s.len() == 0 {
        assert(select_indices(s, idx).to_multiset().add(remove_indices(s, idx).to_multiset())
            =~= s.to_multiset());
    } else {
        lemma_remove_indices_multiset(s.drop_last(), idx);
        assert(s.drop_last().push(s.last()) =~= s);
        let sel = select_indices(s.drop_last(), idx);
        let rem = remove_indices(s.drop_last(), idx);
        if idx.contains((s.len() - 1) as usize) {
            assert(sel.push(s.last()).to_multiset().add(rem.to_multiset()) =~= sel.to_multiset().add(
                rem.to_multiset(),
            ).insert(s.last()));
        } else {
            assert(sel.to_multiset().add(rem.push(s.last()).to_multiset()) =~= sel.to_multiset().add(
                rem.to_multiset(),
            ).insert(s.last()));
        }
    }
}

/// A fresh copy of a vector of plain values.
pub fn copy_vec<T: Copy>(v: &Vec<T>) -> (r: Vec<T>)
    ensures
        r@ == v@,
{
    let mut r: Vec<T> = Vec::new();
    let mut i: usize = 0;
    while i < v.len()
        invariant
            0 <= i <= v@.len(),
            r@ == v@.take(i as int),
        decreases v@.len() - i,
    {
        r.push(v[i]);
        proof {
            assert(r@ =~= v@.take(i + 1));
        }
        i += 1;
    }
    proof {
        assert(v@.take(v@.len() as int) =~= v@);
    }
    r
}

/// Whether an index list contains a given value.
pub fn contains_index(v: &Vec<usize>, x: usize) -> (b: bool)
    ensures
        b == v@.contains(x),
{
    let mut i: usize = 0;
    while i < v.len()
        invariant
            0 <= i <= v@.len(),
            forall|k: int| 0 <= k < i ==> v@[k] != x,
        decreases v@.len() - i,
    {
        if v[i] == x {
            return true;
        }
        i += 1;
    }
    false
}

/// Whether an index list names the same index twice.
pub fn has_duplicate(v: &Vec<usize>) -> (b: bool)
    ensures
        b == !v@.no_duplicates(),
{
    let mut i: usize = 0;
    while i < v.len()
        invariant
            0 <= i <= v@.len(),
            forall|k1: int, k2: int| 0 <= k1 < k2 < i ==> v@[k1] != v@[k2],
        decreases v@.len() - i,
    {
        let mut j: usize = 0;
        while j < i
            invariant
                0 <= j <= i < v@.len(),
                forall|k1: int, k2: int| 0 <= k1 < k2 < i ==> v@[k1] != v@[k2],
                forall|k: int| 0 <= k < j ==> v@[k] != v@[i as int],
            decreases i - j,
        {
            if v[j] == v[i] {
                return true;
            }
            j += 1;
        }
        i += 1;
    }
    false
}

} // verus!
