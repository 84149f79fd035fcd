//! The combat resolver: a pure, deterministic function from the attacking
//! creatures, the defending creatures, and the ordered blocking assignment to
//! the defender's life loss and the casualties on both sides.
//!
//! Per attacking creature, independently: an unblocked attacker deals its full
//! power to the defending player; a blocked attacker assigns its power to its
//! blockers in the listed order, and a blocker dies exactly when its whole
//! toughness is covered by the remaining budget. Separately, the attacker dies
//! exactly when its blockers' summed power meets its toughness.

use vstd::prelude::*;

use crate::cards::Creature;
use crate::seqs::lemma_distinct_bounded;

verus! {

/// How many leading blockers of the ordered list die to an attacker with the
/// given damage budget: each listed blocker consumes its toughness from the
/// budget and dies, until one's toughness exceeds what is left.
pub open spec fn kill_count(budget: int, blockers: Seq<usize>, defenders: Seq<Creature>) -> int
    decreases blockers.len(),
{
    if blockers.len() == 0 {
        0
    } else if defenders[blockers.first() as int].spec_tou() > budget {
        0
    } else {
        1 + kill_count(
            budget - defenders[blockers.first() as int].spec_tou(),
            blockers.drop_first(),
            defenders,
        )
    }
}

pub proof fn lemma_kill_count_bounds(budget: int, blockers: Seq<usize>, defenders: Seq<Creature>)
    ensures
        0 <= kill_count(budget, blockers, defenders) <= blockers.len(),
    decreases blockers.len(),
{
    if blockers.len() > 0 && defenders[blockers.first() as int].spec_tou() <= budget {
        lemma_kill_count_bounds(
            budget - defenders[blockers.first() as int].spec_tou(),
            blockers.drop_first(),
            defenders,
        );
    }
}

/// The summed power of the listed blockers.
pub open spec fn sum_pow(blockers: Seq<usize>, defenders: Seq<Creature>) -> int
    decreases blockers.len(),
{
    if blockers.len() == 0 {
        0
    } else {
        sum_pow(blockers.drop_last(), defenders) + defenders[blockers.last() as int].spec_pow()
    }
}

/// The life the defending player loses to one assignment entry: the
/// attacker's full power when unblocked, nothing when blocked.
pub open spec fn entry_life_loss(e: (usize, Vec<usize>), attackers: Seq<Creature>) -> int {
    if e.1@.len() == 0 {
        attackers[e.0 as int].spec_pow() as int
    } else {
        0
    }
}

/// Whether one assignment entry kills its attacker: some blocker is assigned
/// and the blockers' summed power meets the attacker's toughness.
pub open spec fn entry_attacker_dies(
    e: (usize, Vec<usize>),
    attackers: Seq<Creature>,
    defenders: Seq<Creature>,
) -> bool {
    e.1@.len() > 0 && sum_pow(e.1@, defenders) >= attackers[e.0 as int].spec_tou()
}

/// The blockers one assignment entry kills: the leading run of the ordered
/// list that the attacker's power fully covers.
pub open spec fn entry_dead_blockers(
    e: (usize, Vec<usize>),
    attackers: Seq<Creature>,
    defenders: Seq<Creature>,
) -> Seq<usize> {
    e.1@.take(kill_count(attackers[e.0 as int].spec_pow() as int, e.1@, defenders))
}

/// The defender's total life loss over an assignment.
pub open spec fn spec_life_loss(
    assignment: Seq<(usize, Vec<usize>)>,
    attackers: Seq<Creature>,
) -> int
    decreases assignment.len(),
{
    if assignment.len() == 0 {
        0
    } else {
        spec_life_loss(assignment.drop_last(), attackers) + entry_life_loss(
            assignment.last(),
            attackers,
        )
    }
}

/// The indices of the attackers that die, in assignment order.
pub open spec fn spec_dead_attackers(
    assignment: Seq<(usize, Vec<usize>)>,
    attackers: Seq<Creature>,
    defenders: Seq<Creature>,
) -> Seq<usize>
    decreases assignment.len(),
{
    if assignment.len() == 0 {
        Seq::empty()
    } else {
        let prefix = spec_dead_attackers(assignment.drop_last(), attackers, defenders);
        if entry_attacker_dies(assignment.last(), attackers, defenders) {
            prefix.push(assignment.last().0)
        } else {
            prefix
        }
    }
}

/// The indices of the blockers that die, in assignment order and, within an
/// entry, in the listed order.
pub open spec fn spec_dead_blockers(
    assignment: Seq<(usize, Vec<usize>)>,
    attackers: Seq<Creature>,
    defenders: Seq<Creature>,
) -> Seq<usize>
    decreases assignment.len(),
{
    if assignment.len() == 0 {
        Seq::empty()
    } else {
        spec_dead_blockers(assignment.drop_last(), attackers, defenders) + entry_dead_blockers(
            assignment.last(),
            attackers,
            defenders,
        )
    }
}

/// A well-formed blocking assignment over the two battlefields: every key is
/// a distinct attacker index in range, every blocker list is duplicate-free
/// and in range, and no blocker appears under two different attackers.
pub open spec fn assignment_wf(
    assignment: Seq<(usize, Vec<usize>)>,
    num_attackers: int,
    num_defenders: int,
) -> bool {
    &&& forall|k: int|
        0 <= k < assignment.len() ==> (#[trigger] assignment[k]).0 < num_attackers
    &&& forall|k1: int, k2: int|
        0 <= k1 < k2 < assignment.len() ==> assignment[k1].0 != assignment[k2].0
    &&& forall|k: int|
        0 <= k < assignment.len() ==> (#[trigger] assignment[k]).1@.no_duplicates()
    &&& forall|k: int, b: int|
        0 <= k < assignment.len() && 0 <= b < (#[trigger] assignment[k]).1@.len() ==> (
        #[trigger] assignment[k].1@[b]) < num_defenders
    &&& forall|k1: int, b1: int, k2: int, b2: int|
        0 <= k1 < assignment.len() && 0 <= b1 < assignment[k1].1@.len() && 0 <= k2
            < assignment.len() && 0 <= b2 < assignment[k2].1@.len() && k1 != k2 ==> (
        #[trigger] assignment[k1].1@[b1]) != (#[trigger] assignment[k2].1@[b2])
}

/// Whether `x` occurs in some blocker list of the assignment.
pub open spec fn blocker_appears(assignment: Seq<(usize, Vec<usize>)>, x: usize) -> bool
    decreases assignment.len(),
{
    if assignment.len() == 0 {
        false
    } else {
        blocker_appears(assignment.drop_last(), x) || assignment.last().1@.contains(x)
    }
}

/// Whether `x` is the attacker key of some assignment entry.
pub open spec fn key_appears(assignment: Seq<(usize, Vec<usize>)>, x: usize) -> bool
    decreases assignment.len(),
{
    if assignment.len() == 0 {
        false
    } else {
        key_appears(assignment.drop_last(), x) || assignment.last().0 == x
    }
}

/// In a well-formed assignment, a blocker that occurs among the first `e`
/// entries cannot occur again in entry `f`.
proof fn lemma_blocker_fresh(
    assignment: Seq<(usize, Vec<usize>)>,
    na: int,
    nd: int,
    e: int,
    f: int,
    y: usize,
)
    requires
        assignment_wf(assignment, na, nd),
        blocker_appears(assignment.take(e), y),
        0 <= e <= f < assignment.len(),
    ensures
        forall|b: int| 0 <= b < assignment[f].1@.len() ==> assignment[f].1@[b] != y,
    decreases e,
{
    let t = assignment.take(e);
    assert(e > 0);
    assert(t.drop_last() =~= assignment.take(e - 1));
    assert(t.last() == assignment[e - 1]);
    if t.last().1@.contains(y) {
        let wb = choose|b: int| 0 <= b < assignment[e - 1].1@.len() && #[trigger] assignment[e - 1].1@[b] == y;
        assert forall|b: int| 0 <= b < assignment[f].1@.len() implies assignment[f].1@[b] != y by {
            assert(assignment[e - 1].1@[wb] != assignment[f].1@[b]);
        }
    } else {
        lemma_blocker_fresh(assignment, na, nd, e - 1, f, y);
    }
}

/// In a well-formed assignment, an attacker keyed among the first `e` entries
/// cannot key entry `f` as well.
proof fn lemma_key_fresh(
    assignment: Seq<(usize, Vec<usize>)>,
    na: int,
    nd: int,
    e: int,
    f: int,
    y: usize,
)
    requires
        assignment_wf(assignment, na, nd),
        key_appears(assignment.take(e), y),
        0 <= e <= f < assignment.len(),
    ensures
        assignment[f].0 != y,
    decreases e,
{
    let t = assignment.take(e);
    assert(e > 0);
    assert(t.drop_last() =~= assignment.take(e - 1));
    assert(t.last() == assignment[e - 1]);
    if t.last().0 == y {
        assert(assignment[e - 1].0 != assignment[f].0);
    } else {
        lemma_key_fresh(assignment, na, nd, e - 1, f, y);
    }
}

/// The result of resolving one combat: the defending player's life loss and
/// the creature indices that die on each side.
pub struct CombatOutcome {
    pub life_loss: u64,
    pub dead_attackers: Vec<usize>,
    pub dead_blockers: Vec<usize>,
}

/// Resolves combat. Pure and deterministic: the outcome is exactly the spec
/// functions above applied to the inputs, and the casualty lists are
/// duplicate-free battlefield indices, ready to be removed.
#[verifier::loop_isolation(false)]
#[verifier::rlimit(60)]
pub fn resolve_combat(
    attackers: &Vec<Creature>,
    defenders: &Vec<Creature>,
    assignment: &Vec<(usize, Vec<usize>)>,
) -> (outcome: CombatOutcome)
    requires
        assignment_wf(assignment@, attackers@.len() as int, defenders@.len() as int),
        forall|i: int| 0 <= i < attackers@.len() ==> (#[trigger] attackers@[i]).valid(),
        forall|i: int| 0 <= i < defenders@.len() ==> (#[trigger] defenders@[i]).valid(),
        attackers@.len() <= 60,
        defenders@.len() <= 60,
    ensures
        outcome.life_loss == spec_life_loss(assignment@, attackers@),
        outcome.life_loss <= 960,
        outcome.dead_attackers@ == spec_dead_attackers(assignment@, attackers@, defenders@),
        outcome.dead_attackers@.no_duplicates(),
        forall|j: int|
            0 <= j < outcome.dead_attackers@.len() ==> #[trigger] outcome.dead_attackers@[j]
                < attackers@.len(),
        outcome.dead_blockers@ == spec_dead_blockers(assignment@, attackers@, defenders@),
        outcome.dead_blockers@.no_duplicates(),
        forall|j: int|
            0 <= j < outcome.dead_blockers@.len() ==> #[trigger] outcome.dead_blockers@[j]
                < defenders@.len(),
{
    proof {
        broadcast use crate::cards::lemma_allowed_stat_line_bounds;

        let keys = assignment@.map_values(|e: (usize, Vec<usize>)| e.0);
        assert(keys.no_duplicates());
        lemma_distinct_bounded(keys, attackers@.len() as nat);
        assert(assignment@.len() <= 60);
    }
    let mut life_loss: u64 = 0;
    let mut dead_attackers: Vec<usize> = Vec::new();
    let mut dead_blockers: Vec<usize> = Vec::new();
    let mut e: usize = 0;
    while e < assignment.len()
        invariant
            0 <= e <= assignment@.len(),
            life_loss == spec_life_loss(assignment@.take(e as int), attackers@),
            life_loss <= 16 * e,
            dead_attackers@ == spec_dead_attackers(
                assignment@.take(e as int),
                attackers@,
                defenders@,
            ),
            dead_attackers@.no_duplicates(),
            forall|j: int|
                0 <= j < dead_attackers@.len() ==> #[trigger] dead_attackers@[j]
                    < attackers@.len(),
            forall|j: int|
                0 <= j < dead_attackers@.len() ==> key_appears(
                    assignment@.take(e as int),
                    #[trigger] dead_attackers@[j],
                ),
            dead_blockers@ == spec_dead_blockers(assignment@.take(e as int), attackers@, defenders@),
            dead_blockers@.no_duplicates(),
            forall|j: int|
                0 <= j < dead_blockers@.len() ==> blocker_appears(
                    assignment@.take(e as int),
                    #[trigger] dead_blockers@[j],
                ),
            forall|j: int|
                0 <= j < dead_blockers@.len() ==> #[trigger] dead_blockers@[j] < defenders@.len(),
        decreases assignment@.len() - e,
    {
        proof {
            assert(assignment@.take(e + 1).drop_last() =~= assignment@.take(e as int));
            assert(assignment@.take(e + 1).last() == assignment@[e as int]);
        }
        let attacker: usize = assignment[e].0;
        let attacker_pow = attackers[attacker].pow();
        proof {
            assert(attackers@[attacker as int].valid());
            assert(attacker_pow <= 16);
        }
        let ghost bs = assignment@[e as int].1@;
        let ghost dead0 = dead_blockers@;
        let ghost deada0 = dead_attackers@;
        if assignment[e].1.len() == 0 {
            life_loss = life_loss + attacker_pow;
        } else {
            // Walk the ordered blocker list, spending the attacker's power as
            // a running budget; each fully covered blocker dies.
            let mut remaining: u64 = attacker_pow;
            proof {
                assert(bs.skip(0) =~= bs);
            }
            let mut j: usize = 0;
            let mut stopped = false;
            while j < assignment[e].1.len() && !stopped
                invariant
                    0 <= j <= bs.len(),
                    !stopped ==> kill_count(attacker_pow as int, bs, defenders@) == j + kill_count(
                        remaining as int,
                        bs.skip(j as int),
                        defenders@,
                    ),
                    stopped ==> kill_count(attacker_pow as int, bs, defenders@) == j,
                    dead_blockers@ == dead0 + bs.take(j as int),
                decreases bs.len() - j + if stopped {
                    0int
                } else {
                    1int
                },
            {
                proof {
                    lemma_kill_count_bounds(remaining as int, bs.skip(j as int), defenders@);
                }
                let blocker: usize = assignment[e].1[j];
                let blocker_tou = defenders[blocker].tou();
                proof {
                    assert(bs.skip(j as int).first() == bs[j as int]);
                    assert(bs.skip(j as int).drop_first() =~= bs.skip(j + 1));
                }
                if blocker_tou > remaining {
                    proof {
                        assert(kill_count(remaining as int, bs.skip(j as int), defenders@) == 0);
                    }
                    stopped = true;
                } else {
                    remaining = remaining - blocker_tou;
                    dead_blockers.push(blocker);
                    proof {
                        assert(dead_blockers@ =~= dead0 + bs.take(j + 1));
                    }
                    j += 1;
                }
            }
            proof {
                if !stopped {
                    assert(bs.skip(j as int) =~= Seq::<usize>::empty());
                }
                assert(bs.take(j as int) =~= bs.take(
                    kill_count(attacker_pow as int, bs, defenders@),
                ));
            }
            // Separately, the blockers strike back with their summed power.
            proof {
                lemma_distinct_bounded(bs, defenders@.len() as nat);
            }
            let mut total_pow: u64 = 0;
            let mut b: usize = 0;
            while b < assignment[e].1.len()
                invariant
                    0 <= b <= bs.len(),
                    bs == assignment@[e as int].1@,
                    0 <= e < assignment@.len(),
                    bs.len() <= 60,
                    total_pow == sum_pow(bs.take(b as int), defenders@),
                    total_pow <= 16 * b,
                decreases bs.len() - b,
            {
                let blocker: usize = assignment[e].1[b];
                proof {
                    assert(bs.take(b + 1).drop_last() =~= bs.take(b as int));
                    assert(bs.take(b + 1).last() == bs[b as int]);
                    assert(defenders@[blocker as int].valid());
                }
                total_pow = total_pow + defenders[blocker].pow();
                b += 1;
            }
            proof {
                assert(bs.take(bs.len() as int) =~= bs);
            }
            let attacker_tou = attackers[attacker].tou();
            if total_pow >= attacker_tou {
                dead_attackers.push(attacker);
            }
            // The new casualties this entry added stay distinct from all
            // earlier ones: a blocker blocks only one attacker, and each
            // attacker keys at most one entry.
            proof {
                lemma_kill_count_bounds(attacker_pow as int, bs, defenders@);
                assert forall|j1: int, j2: int|
                    0 <= j1 < j2 < dead_blockers@.len() implies dead_blockers@[j1]
                    != dead_blockers@[j2] by {
                    if j1 < dead0.len() && j2 >= dead0.len() {
                        lemma_blocker_fresh(
                            assignment@,
                            attackers@.len() as int,
                            defenders@.len() as int,
                            e as int,
                            e as int,
                            dead0[j1],
                        );
                        assert(assignment@[e as int].1@[j2 - dead0.len()] != dead0[j1]);
                    }
                }
                assert forall|j1: int, j2: int|
                    0 <= j1 < j2 < dead_attackers@.len() implies dead_attackers@[j1]
                    != dead_attackers@[j2] by {
                    if j2 >= deada0.len() {
                        lemma_key_fresh(
                            assignment@,
                            attackers@.len() as int,
                            defenders@.len() as int,
                            e as int,
                            e as int,
                            deada0[j1],
                        );
                    }
                }
            }
        }
        proof {
            assert(assignment@.take(e + 1).drop_last() =~= assignment@.take(e as int));
            assert forall|j: int| 0 <= j < dead_blockers@.len() implies blocker_appears(
                assignment@.take(e + 1),
                #[trigger] dead_blockers@[j],
            ) by {
                if j >= dead0.len() {
                    assert(bs.contains(dead_blockers@[j])) by {
                        assert(bs[j - dead0.len()] == dead_blockers@[j]);
                    }
                }
            }
            assert forall|j: int| 0 <= j < dead_attackers@.len() implies key_appears(
                assignment@.take(e + 1),
                #[trigger] dead_attackers@[j],
            ) by {
            }
        }
        e += 1;
    }
    proof {
        assert(assignment@.take(assignment@.len() as int) =~= assignment@);
    }
    CombatOutcome { life_loss, dead_attackers, dead_blockers }
}

} // verus!
