//! Validation and shaping of blocking decisions: the defender's (blocker,
//! attacker) pairs are checked for legality and grouped into an assignment,
//! the attacker's reordering of each blocker list is checked to cover the
//! same assignment, and unblocked attackers are added with empty lists. The
//! result is a well-formed assignment for the combat resolver.

use vstd::prelude::*;

use crate::cards::Creature;
use crate::combat::key_appears;
use crate::player_state::ContractBreach;
use crate::seqs::contains_index;
use crate::seqs::has_duplicate;

verus! {

/// The validity check of the defender's blocking pairs, in pair order: each
/// pair must name an attacking creature and an untapped defending creature,
/// and no creature may block twice.
pub open spec fn block_check_from(
    pairs: Seq<(usize, usize)>,
    num_attacker_creatures: int,
    defender_creatures: Seq<Creature>,
    attackers: Seq<usize>,
    k: int,
) -> Result<(), ContractBreach>
    decreases pairs.len() - k,
{
    if k < 0 || k >= pairs.len() {
        Ok(())
    } else if pairs[k].1 >= num_attacker_creatures {
        Err(ContractBreach::BlockTargetOutOfRange)
    } else if !attackers.contains(pairs[k].1) {
        Err(ContractBreach::BlockTargetNotAttacking)
    } else if pairs[k].0 >= defender_creatures.len() {
        Err(ContractBreach::BlockerOutOfRange)
    } else if defender_creatures[pairs[k].0 as int].tapped {
        Err(ContractBreach::BlockerTapped)
    } else if pairs.take(k).map_values(|p: (usize, usize)| p.0).contains(pairs[k].0) {
        Err(ContractBreach::DoubleBlock)
    } else {
        block_check_from(pairs, num_attacker_creatures, defender_creatures, attackers, k + 1)
    }
}

pub open spec fn block_check(
    pairs: Seq<(usize, usize)>,
    num_attacker_creatures: int,
    defender_creatures: Seq<Creature>,
    attackers: Seq<usize>,
) -> Result<(), ContractBreach> {
    block_check_from(pairs, num_attacker_creatures, defender_creatures, attackers, 0)
}

/// Pairs that are all legal pass the blocking check: each names an attacking
/// creature and an untapped defending creature, and no blocker repeats.
pub proof fn lemma_block_check_all_ok(
    pairs: Seq<(usize, usize)>,
    num_attacker_creatures: int,
    defender_creatures: Seq<Creature>,
    attackers: Seq<usize>,
    k: int,
)
    requires
        0 <= k <= pairs.len(),
        forall|j: int|
            0 <= j < pairs.len() ==> (#[trigger] pairs[j]).1 < num_attacker_creatures
                && attackers.contains(pairs[j].1) && pairs[j].0 < defender_creatures.len()
                && !defender_creatures[pairs[j].0 as int].tapped,
        forall|j1: int, j2: int| 0 <= j1 < j2 < pairs.len() ==> pairs[j1].0 != pairs[j2].0,
    ensures
        block_check_from(pairs, num_attacker_creatures, defender_creatures, attackers, k) is Ok,
    decreases pairs.len() - k,
{
    if k < pairs.len() {
        let pb = pairs.take(k).map_values(|p: (usize, usize)| p.0);
        if pb.contains(pairs[k].0) {
            let w = choose|w: int| 0 <= w < pb.len() && pb[w] == pairs[k].0;
            assert(pairs[w].0 == pairs[k].0);
        }
        lemma_block_check_all_ok(pairs, num_attacker_creatures, defender_creatures, attackers, k + 1);
    }
}

/// The attacker indices that occur in the pairs, each once, in order of first
/// appearance.
pub open spec fn distinct_keys(pairs: Seq<(usize, usize)>) -> Seq<usize>
    decreases pairs.len(),
{
    if pairs.len() == 0 {
        Seq::empty()
    } else {
        let prefix = distinct_keys(pairs.drop_last());
        if prefix.contains(pairs.last().1) {
            prefix
        } else {
            prefix.push(pairs.last().1)
        }
    }
}

/// The blockers assigned to attacker `a`, in pair order.
pub open spec fn blockers_of(pairs: Seq<(usize, usize)>, a: usize) -> Seq<usize>
    decreases pairs.len(),
{
    if pairs.len() == 0 {
        Seq::empty()
    } else {
        let prefix = blockers_of(pairs.drop_last(), a);
        if pairs.last().1 == a {
            prefix.push(pairs.last().0)
        } else {
            prefix
        }
    }
}

/// The blocker components of the pairs, in order.
pub open spec fn pair_blockers(pairs: Seq<(usize, usize)>) -> Seq<usize> {
    pairs.map_values(|p: (usize, usize)| p.0)
}

/// Every blocker assigned to `a` occurs among the pairs' blockers.
pub proof fn lemma_blockers_of_provenance(pairs: Seq<(usize, usize)>, a: usize)
    ensures
        forall|x: int|
            0 <= x < blockers_of(pairs, a).len() ==> pair_blockers(pairs).contains(
                #[trigger] blockers_of(pairs, a)[x],
            ),
    decreases pairs.len(),
{
    if pairs.len() > 0 {
        lemma_blockers_of_provenance(pairs.drop_last(), a);
        assert(pair_blockers(pairs.drop_last()) =~= pair_blockers(pairs).drop_last());
        assert forall|x: int| 0 <= x < blockers_of(pairs, a).len() implies pair_blockers(
            pairs,
        ).contains(#[trigger] blockers_of(pairs, a)[x]) by {
            let bo_dl = blockers_of(pairs.drop_last(), a);
            if x < bo_dl.len() {
                assert(pair_blockers(pairs.drop_last()).contains(bo_dl[x]));
                let w = choose|w: int|
                    0 <= w < pair_blockers(pairs.drop_last()).len() && pair_blockers(
                        pairs.drop_last(),
                    )[w] == bo_dl[x];
                assert(pair_blockers(pairs)[w] == bo_dl[x]);
            } else {
                assert(pair_blockers(pairs)[pairs.len() - 1] == pairs.last().0);
            }
        }
    }
}

/// With every blocker used at most once, two different attackers get disjoint
/// blocker lists.
pub proof fn lemma_blockers_of_disjoint(pairs: Seq<(usize, usize)>, a1: usize, a2: usize)
    requires
        forall|j1: int, j2: int| 0 <= j1 < j2 < pairs.len() ==> pairs[j1].0 != pairs[j2].0,
        a1 != a2,
    ensures
        forall|x1: int, x2: int|
            0 <= x1 < blockers_of(pairs, a1).len() && 0 <= x2 < blockers_of(pairs, a2).len()
                ==> blockers_of(pairs, a1)[x1] != blockers_of(pairs, a2)[x2],
    decreases pairs.len(),
{
    if pairs.len() > 0 {
        let dl = pairs.drop_last();
        lemma_blockers_of_disjoint(dl, a1, a2);
        lemma_blockers_of_provenance(dl, a1);
        lemma_blockers_of_provenance(dl, a2);
        assert forall|x1: int, x2: int|
            0 <= x1 < blockers_of(pairs, a1).len() && 0 <= x2 < blockers_of(pairs, a2).len()
                implies blockers_of(pairs, a1)[x1] != blockers_of(pairs, a2)[x2] by {
            let bo1 = blockers_of(pairs, a1);
            let bo2 = blockers_of(pairs, a2);
            let bo1_dl = blockers_of(dl, a1);
            let bo2_dl = blockers_of(dl, a2);
            if x1 >= bo1_dl.len() && x2 < bo2_dl.len() {
                assert(pair_blockers(dl).contains(bo2_dl[x2]));
                let w = choose|w: int|
                    0 <= w < pair_blockers(dl).len() && pair_blockers(dl)[w] == bo2_dl[x2];
                assert(pairs[w].0 == bo2[x2]);
                assert(pairs[w].0 != pairs[pairs.len() - 1].0);
            } else if x1 < bo1_dl.len() && x2 >= bo2_dl.len() {
                assert(pair_blockers(dl).contains(bo1_dl[x1]));
                let w = choose|w: int|
                    0 <= w < pair_blockers(dl).len() && pair_blockers(dl)[w] == bo1_dl[x1];
                assert(pairs[w].0 == bo1[x1]);
                assert(pairs[w].0 != pairs[pairs.len() - 1].0);
            }
        }
    }
}

/// With every blocker used at most once, no attacker's blocker list repeats
/// an index.
pub proof fn lemma_blockers_of_no_dup(pairs: Seq<(usize, usize)>, a: usize)
    requires
        forall|j1: int, j2: int| 0 <= j1 < j2 < pairs.len() ==> pairs[j1].0 != pairs[j2].0,
    ensures
        blockers_of(pairs, a).no_duplicates(),
    decreases pairs.len(),
{
    if pairs.len() > 0 {
        let dl = pairs.drop_last();
        lemma_blockers_of_no_dup(dl, a);
        lemma_blockers_of_provenance(dl, a);
        let bo = blockers_of(pairs, a);
        let bo_dl = blockers_of(dl, a);
        assert forall|x1: int, x2: int| 0 <= x1 < x2 < bo.len() implies bo[x1] != bo[x2] by {
            if x2 >= bo_dl.len() {
                assert(pair_blockers(dl).contains(bo_dl[x1]));
                let w = choose|w: int|
                    0 <= w < pair_blockers(dl).len() && pair_blockers(dl)[w] == bo_dl[x1];
                assert(pairs[w].0 == bo[x1]);
                assert(pairs[w].0 != pairs[pairs.len() - 1].0);
            }
        }
    }
}

/// The blocker list of the first entry keyed `a`, or empty when none is.
pub open spec fn lookup(arrangement: Seq<(usize, Vec<usize>)>, a: usize) -> Seq<usize>
    decreases arrangement.len(),
{
    if arrangement.len() == 0 {
        Seq::empty()
    } else if arrangement.first().0 == a {
        arrangement.first().1@
    } else {
        lookup(arrangement.drop_first(), a)
    }
}

/// A front-to-back scan that stops at `f` pins down `lookup` and shows the
/// key occurs.
pub proof fn lemma_lookup_found(arrangement: Seq<(usize, Vec<usize>)>, a: usize, f: int)
    requires
        0 <= f < arrangement.len(),
        arrangement[f].0 == a,
        forall|j: int| 0 <= j < f ==> arrangement[j].0 != a,
    ensures
        lookup(arrangement, a) == arrangement[f].1@,
    decreases f,
{
    if f > 0 {
        lemma_lookup_found(arrangement.drop_first(), a, f - 1);
        assert forall|j: int| 0 <= j < f - 1 implies arrangement.drop_first()[j].0 != a by {
            assert(arrangement[j + 1].0 != a);
        }
    }
}

/// A key found at some entry occurs in the arrangement.
pub proof fn lemma_key_appears_at(arrangement: Seq<(usize, Vec<usize>)>, f: int)
    requires
        0 <= f < arrangement.len(),
    ensures
        key_appears(arrangement, arrangement[f].0),
    decreases arrangement.len(),
{
    if f < arrangement.len() - 1 {
        lemma_key_appears_at(arrangement.drop_last(), f);
    }
}

/// A key that occurs in the arrangement is the key of some entry.
pub proof fn lemma_key_appears_index(arrangement: Seq<(usize, Vec<usize>)>, a: usize)
    requires
        key_appears(arrangement, a),
    ensures
        exists|f: int| 0 <= f < arrangement.len() && (#[trigger] arrangement[f]).0 == a,
    decreases arrangement.len(),
{
    if arrangement.len() > 0 {
        if arrangement.last().0 == a {
            assert(arrangement[arrangement.len() - 1].0 == a);
        } else {
            lemma_key_appears_index(arrangement.drop_last(), a);
            let f = choose|f: int|
                0 <= f < arrangement.drop_last().len() && (#[trigger] arrangement.drop_last()[f]).0
                    == a;
            assert(arrangement[f].0 == a);
        }
    }
}

/// Finds the first entry keyed `a`, with its index.
#[verifier::loop_isolation(false)]
pub fn find_key(arrangement: &Vec<(usize, Vec<usize>)>, a: usize) -> (r: Option<usize>)
    ensures
        r matches Some(f) ==> f < arrangement@.len() && arrangement@[f as int].0 == a && (forall|
            j: int,
        | 0 <= j < f ==> arrangement@[j].0 != a) && key_appears(arrangement@, a) && lookup(
            arrangement@,
            a,
        ) == arrangement@[f as int].1@,
        r is None ==> !key_appears(arrangement@, a) && forall|j: int|
            0 <= j < arrangement@.len() ==> arrangement@[j].0 != a,
{
    let mut f: usize = 0;
    while f < arrangement.len()
        invariant
            0 <= f <= arrangement@.len(),
            forall|j: int| 0 <= j < f ==> arrangement@[j].0 != a,
        decreases arrangement@.len() - f,
    {
        if arrangement[f].0 == a {
            proof {
                lemma_key_appears_at(arrangement@, f as int);
                lemma_lookup_found(arrangement@, a, f as int);
            }
            return Some(f);
        }
        f += 1;
    }
    proof {
        if key_appears(arrangement@, a) {
            lemma_key_appears_index(arrangement@, a);
        }
    }
    None
}

/// Validates the defender's blocking pairs and groups them by attacker, in
/// order of first appearance; each attacker's blockers keep pair order. The
/// result is ready to be reordered by the attacker and resolved.
#[verifier::loop_isolation(false)]
#[verifier::rlimit(60)]
pub fn group_blocks(
    pairs: &Vec<(usize, usize)>,
    num_attacker_creatures: usize,
    defender_creatures: &Vec<Creature>,
    attackers: &Vec<usize>,
) -> (r: Result<Vec<(usize, Vec<usize>)>, ContractBreach>)
    ensures
        r matches Err(e) ==> Err::<(), ContractBreach>(e) == block_check(
            pairs@,
            num_attacker_creatures as int,
            defender_creatures@,
            attackers@,
        ),
        r is Ok <==> block_check(
            pairs@,
            num_attacker_creatures as int,
            defender_creatures@,
            attackers@,
        ) is Ok,
        r matches Ok(g) ==> {
            &&& g@.len() == distinct_keys(pairs@).len()
            &&& forall|k: int| 0 <= k < g@.len() ==> (#[trigger] g@[k]).0 == distinct_keys(pairs@)[k]
            &&& forall|k: int|
                0 <= k < g@.len() ==> (#[trigger] g@[k]).1@ == blockers_of(pairs@, g@[k].0)
            &&& forall|k1: int, k2: int| 0 <= k1 < k2 < g@.len() ==> g@[k1].0 != g@[k2].0
            &&& forall|k: int|
                0 <= k < g@.len() ==> (#[trigger] g@[k]).0 < num_attacker_creatures
                    && attackers@.contains(g@[k].0)
            &&& forall|k: int| 0 <= k < g@.len() ==> (#[trigger] g@[k]).1@.no_duplicates()
            &&& forall|k: int, b: int|
                0 <= k < g@.len() && 0 <= b < (#[trigger] g@[k]).1@.len() ==> (
                #[trigger] g@[k].1@[b]) < defender_creatures@.len()
                    && !defender_creatures@[g@[k].1@[b] as int].tapped
            &&& forall|k1: int, b1: int, k2: int, b2: int|
                0 <= k1 < g@.len() && 0 <= b1 < g@[k1].1@.len() && 0 <= k2 < g@.len() && 0 <= b2
                    < g@[k2].1@.len() && k1 != k2 ==> (#[trigger] g@[k1].1@[b1]) != (
                #[trigger] g@[k2].1@[b2])
        },
{
    let ghost nac = num_attacker_creatures as int;
    // Validate every pair, in order.
    let mut k: usize = 0;
    while k < pairs.len()
        invariant
            0 <= k <= pairs@.len(),
            block_check(pairs@, nac, defender_creatures@, attackers@) == block_check_from(
                pairs@,
                nac,
                defender_creatures@,
                attackers@,
                k as int,
            ),
            forall|j: int|
                0 <= j < k ==> (#[trigger] pairs@[j]).1 < num_attacker_creatures
                    && attackers@.contains(pairs@[j].1) && pairs@[j].0 < defender_creatures@.len()
                    && !defender_creatures@[pairs@[j].0 as int].tapped,
            forall|j1: int, j2: int| 0 <= j1 < j2 < k ==> pairs@[j1].0 != pairs@[j2].0,
        decreases pairs@.len() - k,
    {
        let (blocker, attacker) = pairs[k];
        if attacker >= num_attacker_creatures {
            return Err(ContractBreach::BlockTargetOutOfRange);
        }
        if !contains_index(attackers, attacker) {
            return Err(ContractBreach::BlockTargetNotAttacking);
        }
        if blocker >= defender_creatures.len() {
            return Err(ContractBreach::BlockerOutOfRange);
        }
        if defender_creatures[blocker].tapped {
            return Err(ContractBreach::BlockerTapped);
        }
        let mut dup = false;
        let mut j: usize = 0;
        while j < k
            invariant
                0 <= j <= k,
                dup ==> pairs@.take(k as int).map_values(|p: (usize, usize)| p.0).contains(
                    pairs@[k as int].0,
                ),
                !dup ==> forall|j2: int| 0 <= j2 < j ==> pairs@[j2].0 != pairs@[k as int].0,
            decreases k - j,
        {
            if pairs[j].0 == blocker {
                proof {
                    assert(pairs@.take(k as int).map_values(|p: (usize, usize)| p.0)[j as int]
                        == pairs@[k as int].0);
                }
                dup = true;
            }
            j += 1;
        }
        proof {
            if !dup {
                let pb = pairs@.take(k as int).map_values(|p: (usize, usize)| p.0);
                if pb.contains(pairs@[k as int].0) {
                    let w = choose|w: int| 0 <= w < pb.len() && pb[w] == pairs@[k as int].0;
                    assert(pairs@[w].0 == pairs@[k as int].0);
                }
            }
        }
        if dup {
            return Err(ContractBreach::DoubleBlock);
        }
        k += 1;
    }
    // The attackers that were blocked, in order of first appearance.
    let mut keys: Vec<usize> = Vec::new();
    let mut k: usize = 0;
    while k < pairs.len()
        invariant
            0 <= k <= pairs@.len(),
            keys@ == distinct_keys(pairs@.take(k as int)),
            forall|j1: int, j2: int| 0 <= j1 < j2 < keys@.len() ==> keys@[j1] != keys@[j2],
            forall|j: int|
                0 <= j < keys@.len() ==> (#[trigger] keys@[j]) < num_attacker_creatures
                    && attackers@.contains(keys@[j]),
        decreases pairs@.len() - k,
    {
        let (_, attacker) = pairs[k];
        proof {
            assert(pairs@.take(k + 1).drop_last() =~= pairs@.take(k as int));
            assert(pairs@.take(k + 1).last() == pairs@[k as int]);
        }
        if !contains_index(&keys, attacker) {
            keys.push(attacker);
        }
        k += 1;
    }
    proof {
        assert(pairs@.take(pairs@.len() as int) =~= pairs@);
    }
    // Collect each blocked attacker's blockers, in pair order.
    let mut grouped: Vec<(usize, Vec<usize>)> = Vec::new();
    let mut kk: usize = 0;
    while kk < keys.len()
        invariant
            0 <= kk <= keys@.len(),
            grouped@.len() == kk,
            forall|k2: int| 0 <= k2 < kk ==> (#[trigger] grouped@[k2]).0 == keys@[k2],
            forall|k2: int|
                0 <= k2 < kk ==> (#[trigger] grouped@[k2]).1@ == blockers_of(pairs@, keys@[k2]),
            forall|k2: int, b: int|
                0 <= k2 < kk && 0 <= b < (#[trigger] grouped@[k2]).1@.len() ==> (
                #[trigger] grouped@[k2].1@[b]) < defender_creatures@.len()
                    && !defender_creatures@[grouped@[k2].1@[b] as int].tapped,
            forall|k2: int| 0 <= k2 < kk ==> (#[trigger] grouped@[k2]).1@.no_duplicates(),
        decreases keys@.len() - kk,
    {
        let key = keys[kk];
        let mut list: Vec<usize> = Vec::new();
        let mut j: usize = 0;
        while j < pairs.len()
            invariant
                0 <= j <= pairs@.len(),
                list@ == blockers_of(pairs@.take(j as int), key),
                forall|x: int|
                    0 <= x < list@.len() ==> (#[trigger] list@[x]) < defender_creatures@.len()
                        && !defender_creatures@[list@[x] as int].tapped,
            decreases pairs@.len() - j,
        {
            proof {
                assert(pairs@.take(j + 1).drop_last() =~= pairs@.take(j as int));
                assert(pairs@.take(j + 1).last() == pairs@[j as int]);
            }
            let (blocker, attacker) = pairs[j];
            if attacker == key {
                list.push(blocker);
            }
            j += 1;
        }
        proof {
            assert(pairs@.take(pairs@.len() as int) =~= pairs@);
            lemma_blockers_of_no_dup(pairs@, key);
        }
        grouped.push((key, list));
        kk += 1;
    }
    proof {
        assert forall|k1: int, b1: int, k2: int, b2: int|
            0 <= k1 < grouped@.len() && 0 <= b1 < grouped@[k1].1@.len() && 0 <= k2 < grouped@.len()
                && 0 <= b2 < grouped@[k2].1@.len() && k1 != k2 implies (
        #[trigger] grouped@[k1].1@[b1]) != (#[trigger] grouped@[k2].1@[b2]) by {
            lemma_blockers_of_disjoint(pairs@, grouped@[k1].0, grouped@[k2].0);
        }
    }
    Ok(grouped)
}

/// Whether the keys of a proposed ordering cover exactly the arrangement's
/// attackers: as many entries, no attacker twice, none that was not blocked.
pub open spec fn ordering_keys_ok(
    arrangement: Seq<(usize, Vec<usize>)>,
    ordered: Seq<(usize, Vec<usize>)>,
) -> bool {
    &&& ordered.len() == arrangement.len()
    &&& forall|k1: int, k2: int| 0 <= k1 < k2 < ordered.len() ==> ordered[k1].0 != ordered[k2].0
    &&& forall|k: int|
        0 <= k < ordered.len() ==> key_appears(arrangement, (#[trigger] ordered[k]).0)
}

/// Whether each entry of a proposed ordering merely reorders the blockers the
/// arrangement assigned to the same attacker.
pub open spec fn ordering_lists_ok(
    arrangement: Seq<(usize, Vec<usize>)>,
    ordered: Seq<(usize, Vec<usize>)>,
) -> bool {
    forall|k: int|
        0 <= k < ordered.len() ==> {
            let base = lookup(arrangement, (#[trigger] ordered[k]).0);
            &&& ordered[k].1@.len() == base.len()
            &&& ordered[k].1@.no_duplicates()
            &&& (forall|b: int| 0 <= b < ordered[k].1@.len() ==> base.contains(ordered[k].1@[b]))
            &&& (forall|b: int| 0 <= b < base.len() ==> ordered[k].1@.contains(#[trigger] base[b]))
        }
}

/// Validates the attacker's reordering of the blocking arrangement: the same
/// attackers, each with the same set of blockers, merely resequenced. On
/// success the ordering is returned unchanged.
#[verifier::loop_isolation(false)]
#[verifier::rlimit(60)]
pub fn validate_ordering(
    arrangement: &Vec<(usize, Vec<usize>)>,
    ordered: Vec<(usize, Vec<usize>)>,
    num_attacker_creatures: usize,
    defender_creatures: &Vec<Creature>,
) -> (r: Result<Vec<(usize, Vec<usize>)>, ContractBreach>)
    requires
        forall|k1: int, k2: int|
            0 <= k1 < k2 < arrangement@.len() ==> arrangement@[k1].0 != arrangement@[k2].0,
        forall|k: int|
            0 <= k < arrangement@.len() ==> (#[trigger] arrangement@[k]).0 < num_attacker_creatures,
        forall|k: int, b: int|
            0 <= k < arrangement@.len() && 0 <= b < (#[trigger] arrangement@[k]).1@.len() ==> (
            #[trigger] arrangement@[k].1@[b]) < defender_creatures@.len()
                && !defender_creatures@[arrangement@[k].1@[b] as int].tapped,
        forall|k1: int, b1: int, k2: int, b2: int|
            0 <= k1 < arrangement@.len() && 0 <= b1 < arrangement@[k1].1@.len() && 0 <= k2
                < arrangement@.len() && 0 <= b2 < arrangement@[k2].1@.len() && k1 != k2 ==> (
            #[trigger] arrangement@[k1].1@[b1]) != (#[trigger] arrangement@[k2].1@[b2]),
    ensures
        r == (if !ordering_keys_ok(arrangement@, ordered@) {
            Err::<Vec<(usize, Vec<usize>)>, ContractBreach>(ContractBreach::OrderingWrongAttackers)
        } else if !ordering_lists_ok(arrangement@, ordered@) {
            Err(ContractBreach::OrderingWrongBlockers)
        } else {
            Ok(ordered)
        }),
        r matches Ok(g) ==> {
            &&& g@ == ordered@
            &&& forall|k1: int, k2: int| 0 <= k1 < k2 < g@.len() ==> g@[k1].0 != g@[k2].0
            &&& forall|k: int|
                0 <= k < g@.len() ==> (#[trigger] g@[k]).0 < num_attacker_creatures
            &&& forall|k: int| 0 <= k < g@.len() ==> (#[trigger] g@[k]).1@.no_duplicates()
            &&& forall|k: int, b: int|
                0 <= k < g@.len() && 0 <= b < (#[trigger] g@[k]).1@.len() ==> (
                #[trigger] g@[k].1@[b]) < defender_creatures@.len()
                    && !defender_creatures@[g@[k].1@[b] as int].tapped
            &&& forall|k1: int, b1: int, k2: int, b2: int|
                0 <= k1 < g@.len() && 0 <= b1 < g@[k1].1@.len() && 0 <= k2 < g@.len() && 0 <= b2
                    < g@[k2].1@.len() && k1 != k2 ==> (#[trigger] g@[k1].1@[b1]) != (
                #[trigger] g@[k2].1@[b2])
        },
{
    if ordered.len() != arrangement.len() {
        return Err(ContractBreach::OrderingWrongAttackers);
    }
    // Key side: each ordered attacker occurs once and was actually blocked.
    let mut k: usize = 0;
    while k < ordered.len()
        invariant
            0 <= k <= ordered@.len(),
            ordered@.len() == arrangement@.len(),
            forall|j1: int, j2: int| 0 <= j1 < j2 < k ==> ordered@[j1].0 != ordered@[j2].0,
            forall|j: int|
                0 <= j < k ==> key_appears(arrangement@, (#[trigger] ordered@[j]).0),
        decreases ordered@.len() - k,
    {
        let mut j: usize = 0;
        while j < k
            invariant
                0 <= j <= k < ordered@.len(),
                forall|j2: int| 0 <= j2 < j ==> ordered@[j2].0 != ordered@[k as int].0,
            decreases k - j,
        {
            if ordered[j].0 == ordered[k].0 {
                return Err(ContractBreach::OrderingWrongAttackers);
            }
            j += 1;
        }
        match find_key(arrangement, ordered[k].0) {
            Some(_) => {},
            None => {
                return Err(ContractBreach::OrderingWrongAttackers);
            },
        }
        k += 1;
    }
    // List side: each entry is a permutation of the blockers the defender
    // assigned to that attacker.
    let mut k: usize = 0;
    while k < ordered.len()
        invariant
            0 <= k <= ordered@.len(),
            ordering_keys_ok(arrangement@, ordered@),
            forall|j: int|
                0 <= j < k ==> {
                    let base = lookup(arrangement@, (#[trigger] ordered@[j]).0);
                    &&& ordered@[j].1@.len() == base.len()
                    &&& ordered@[j].1@.no_duplicates()
                    &&& (forall|b: int|
                        0 <= b < ordered@[j].1@.len() ==> base.contains(ordered@[j].1@[b]))
                    &&& (forall|b: int|
                        0 <= b < base.len() ==> ordered@[j].1@.contains(#[trigger] base[b]))
                },
        decreases ordered@.len() - k,
    {
        let f = match find_key(arrangement, ordered[k].0) {
            Some(f) => f,
            None => {
                proof {
                    assert(false);
                }
                return Err(ContractBreach::OrderingWrongAttackers);
            },
        };
        let base = &arrangement[f].1;
        let entry = &ordered[k].1;
        if entry.len() != base.len() {
            return Err(ContractBreach::OrderingWrongBlockers);
        }
        if has_duplicate(entry) {
            return Err(ContractBreach::OrderingWrongBlockers);
        }
        let mut b: usize = 0;
        while b < entry.len()
            invariant
                0 <= b <= entry@.len(),
                base@ == lookup(arrangement@, ordered@[k as int].0),
                entry@ == ordered@[k as int].1@,
                forall|b2: int| 0 <= b2 < b ==> base@.contains(#[trigger] entry@[b2]),
            decreases entry@.len() - b,
        {
            if !contains_index(base, entry[b]) {
                return Err(ContractBreach::OrderingWrongBlockers);
            }
            b += 1;
        }
        let mut b: usize = 0;
        while b < base.len()
            invariant
                0 <= b <= base@.len(),
                base@ == lookup(arrangement@, ordered@[k as int].0),
                entry@ == ordered@[k as int].1@,
                forall|b2: int| 0 <= b2 < b ==> entry@.contains(#[trigger] base@[b2]),
            decreases base@.len() - b,
    {
            if !contains_index(entry, base[b]) {
                return Err(ContractBreach::OrderingWrongBlockers);
            }
            b += 1;
        }
        k += 1;
    }
    // The ordering is legal; its per-entry facts follow from the
    // arrangement's, through the entry each attacker was looked up in.
    proof {
        assert(ordering_keys_ok(arrangement@, ordered@));
        assert(ordering_lists_ok(arrangement@, ordered@));
        assert forall|k2: int| 0 <= k2 < ordered@.len() implies (#[trigger] ordered@[k2]).0
            < num_attacker_creatures by {
            lemma_key_appears_index(arrangement@, ordered@[k2].0);
            let f = choose|f: int|
                0 <= f < arrangement@.len() && (#[trigger] arrangement@[f]).0 == ordered@[k2].0;
        }
        assert forall|k2: int, b: int|
            0 <= k2 < ordered@.len() && 0 <= b < (#[trigger] ordered@[k2]).1@.len() implies (
        #[trigger] ordered@[k2].1@[b]) < defender_creatures@.len()
            && !defender_creatures@[ordered@[k2].1@[b] as int].tapped by {
            lemma_key_appears_index(arrangement@, ordered@[k2].0);
            let f = choose|f: int|
                0 <= f < arrangement@.len() && (#[trigger] arrangement@[f]).0 == ordered@[k2].0;
            let ff = first_key_index(arrangement@, ordered@[k2].0, f);
            let base = lookup(arrangement@, ordered@[k2].0);
            assert(base.contains(ordered@[k2].1@[b]));
            let w = choose|w: int| 0 <= w < base.len() && base[w] == ordered@[k2].1@[b];
            assert(arrangement@[ff].1@[w] == ordered@[k2].1@[b]);
        }
        assert forall|k1: int, b1: int, k2: int, b2: int|
            0 <= k1 < ordered@.len() && 0 <= b1 < ordered@[k1].1@.len() && 0 <= k2 < ordered@.len()
                && 0 <= b2 < ordered@[k2].1@.len() && k1 != k2 implies (
        #[trigger] ordered@[k1].1@[b1]) != (#[trigger] ordered@[k2].1@[b2]) by {
            lemma_key_appears_index(arrangement@, ordered@[k1].0);
            let f1 = choose|f: int|
                0 <= f < arrangement@.len() && (#[trigger] arrangement@[f]).0 == ordered@[k1].0;
            let ff1 = first_key_index(arrangement@, ordered@[k1].0, f1);
            lemma_key_appears_index(arrangement@, ordered@[k2].0);
            let f2 = choose|f: int|
                0 <= f < arrangement@.len() && (#[trigger] arrangement@[f]).0 == ordered@[k2].0;
            let ff2 = first_key_index(arrangement@, ordered@[k2].0, f2);
            let base1 = lookup(arrangement@, ordered@[k1].0);
            let base2 = lookup(arrangement@, ordered@[k2].0);
            assert(base1.contains(ordered@[k1].1@[b1]));
            let w1 = choose|w: int| 0 <= w < base1.len() && base1[w] == ordered@[k1].1@[b1];
            assert(base2.contains(ordered@[k2].1@[b2]));
            let w2 = choose|w: int| 0 <= w < base2.len() && base2[w] == ordered@[k2].1@[b2];
            assert(arrangement@[ff1].1@[w1] == ordered@[k1].1@[b1]);
            assert(arrangement@[ff2].1@[w2] == ordered@[k2].1@[b2]);
            assert(ff1 != ff2);
        }
    }
    Ok(ordered)
}

/// The index of the first entry keyed `a`, given that some entry at or before
/// `f` is.
proof fn first_key_index(arrangement: Seq<(usize, Vec<usize>)>, a: usize, f: int) -> (r: int)
    requires
        0 <= f < arrangement.len(),
        arrangement[f].0 == a,
    ensures
        0 <= r < arrangement.len(),
        arrangement[r].0 == a,
        forall|j: int| 0 <= j < r ==> arrangement[j].0 != a,
        lookup(arrangement, a) == arrangement[r].1@,
    decreases f,
{
    if forall|j: int| 0 <= j < f ==> arrangement[j].0 != a {
        lemma_lookup_found(arrangement, a, f);
        f
    } else {
        let w = choose|j: int| 0 <= j < f && (#[trigger] arrangement[j]).0 == a;
        first_key_index(arrangement, a, w)
    }
}

/// Appends an empty blocker list for every declared attacker that was not
/// blocked, completing the assignment the combat resolver consumes.
#[verifier::loop_isolation(false)]
pub fn append_unblocked(
    assignment: Vec<(usize, Vec<usize>)>,
    attackers: &Vec<usize>,
    num_attacker_creatures: usize,
    defender_creatures: &Vec<Creature>,
) -> (r: Vec<(usize, Vec<usize>)>)
    requires
        forall|k1: int, k2: int|
            0 <= k1 < k2 < assignment@.len() ==> assignment@[k1].0 != assignment@[k2].0,
        forall|k: int|
            0 <= k < assignment@.len() ==> (#[trigger] assignment@[k]).0 < num_attacker_creatures,
        forall|k: int| 0 <= k < assignment@.len() ==> (#[trigger] assignment@[k]).1@.no_duplicates(),
        forall|k: int, b: int|
            0 <= k < assignment@.len() && 0 <= b < (#[trigger] assignment@[k]).1@.len() ==> (
            #[trigger] assignment@[k].1@[b]) < defender_creatures@.len(),
        forall|k1: int, b1: int, k2: int, b2: int|
            0 <= k1 < assignment@.len() && 0 <= b1 < assignment@[k1].1@.len() && 0 <= k2
                < assignment@.len() && 0 <= b2 < assignment@[k2].1@.len() && k1 != k2 ==> (
            #[trigger] assignment@[k1].1@[b1]) != (#[trigger] assignment@[k2].1@[b2]),
        forall|j: int| 0 <= j < attackers@.len() ==> #[trigger] attackers@[j] < num_attacker_creatures,
        attackers@.no_duplicates(),
    ensures
        crate::combat::assignment_wf(
            r@,
            num_attacker_creatures as int,
            defender_creatures@.len() as int,
        ),
        r@.len() >= assignment@.len(),
        r@.len() <= assignment@.len() + attackers@.len(),
        forall|k: int| 0 <= k < assignment@.len() ==> #[trigger] r@[k] == assignment@[k],
        forall|k: int|
            assignment@.len() <= k < r@.len() ==> (#[trigger] r@[k]).1@.len() == 0,
        forall|j: int|
            0 <= j < attackers@.len() ==> key_appears(r@, #[trigger] attackers@[j]),
{
    let ghost base_len = assignment@.len();
    let mut all = assignment;
    let mut j: usize = 0;
    while j < attackers.len()
        invariant
            0 <= j <= attackers@.len(),
            all@.len() >= base_len,
            all@.len() <= base_len + j,
            forall|j2: int|
                0 <= j2 < j ==> key_appears(all@, #[trigger] attackers@[j2]),
            forall|k: int| 0 <= k < base_len ==> #[trigger] all@[k] == assignment@[k],
            forall|k: int| base_len <= k < all@.len() ==> (#[trigger] all@[k]).1@.len() == 0,
            forall|k1: int, k2: int| 0 <= k1 < k2 < all@.len() ==> all@[k1].0 != all@[k2].0,
            forall|k: int|
                0 <= k < all@.len() ==> (#[trigger] all@[k]).0 < num_attacker_creatures,
            forall|k: int| 0 <= k < all@.len() ==> (#[trigger] all@[k]).1@.no_duplicates(),
            forall|k: int, b: int|
                0 <= k < all@.len() && 0 <= b < (#[trigger] all@[k]).1@.len() ==> (
                #[trigger] all@[k].1@[b]) < defender_creatures@.len(),
            forall|k1: int, b1: int, k2: int, b2: int|
                0 <= k1 < all@.len() && 0 <= b1 < all@[k1].1@.len() && 0 <= k2 < all@.len() && 0
                    <= b2 < all@[k2].1@.len() && k1 != k2 ==> (#[trigger] all@[k1].1@[b1]) != (
                #[trigger] all@[k2].1@[b2]),
        decreases attackers@.len() - j,
    {
        let a = attackers[j];
        let ghost all0 = all@;
        match find_key(&all, a) {
            Some(_) => {},
            None => {
                all.push((a, Vec::new()));
            },
        }
        proof {
            // The earlier attackers keep occurring: pushing an entry only
            // adds a key.
            if all@.len() > all0.len() {
                assert(all@.drop_last() =~= all0);
            }
            assert forall|j2: int| 0 <= j2 <= j implies key_appears(
                all@,
                #[trigger] attackers@[j2],
            ) by {
                lemma_key_appears_grows(all0, all@, attackers@[j2]);
                if j2 == j && all@.len() == all0.len() {
                    assert(key_appears(all@, attackers@[j2]));
                }
            }
        }
        j += 1;
    }
    all
}

/// A key that occurs keeps occurring when the assignment is extended by one
/// entry (or not at all).
proof fn lemma_key_appears_grows(
    before: Seq<(usize, Vec<usize>)>,
    after: Seq<(usize, Vec<usize>)>,
    a: usize,
)
    requires
        after == before || (after.len() == before.len() + 1 && after.drop_last() == before),
    ensures
        key_appears(before, a) ==> key_appears(after, a),
{
}

} // verus!
