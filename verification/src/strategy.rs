//! The decision-makers and the values they exchange with the turn engine: the
//! per-decision snapshot of game state (`PlayerView`), the decision payloads,
//! and the closed set of automated players.

use vstd::prelude::*;

use crate::cards::Card;
use crate::cards::Creature;
use crate::cards::CreatureCard;
use crate::blocks::blockers_of;
use crate::seqs::contains_index;

verus! {

/// A mulligan decision: take another mulligan, or keep the drawn hand after
/// bottoming the named hand positions.
pub enum MuliganChoice {
    Muligan,
    KeepExcept(Vec<usize>),
}

/// The information available to a player at a decision point: the player's own
/// full state and the public part of the opponent's, captured as an ephemeral
/// snapshot.
pub struct PlayerView {
    pub num_turn: u64,
    pub hand: Vec<Card>,
    pub num_lands: u64,
    pub creatures: Vec<Creature>,
    pub deck_size: usize,
    pub oth_hand_size: usize,
    pub oth_lands: u64,
    pub oth_creatures: Vec<Creature>,
    pub oth_deck_size: usize,
}

/// A main-phase decision: whether to play a land, and which hand positions to
/// cast as creatures, in order.
pub struct MainPhasePlays {
    pub land: bool,
    pub cards: Vec<usize>,
}

/// The closed set of automated players. Each variant answers the six decision
/// points deterministically from the view it is handed.
#[derive(Clone, Copy, Debug, PartialEq, Eq, Structural)]
pub enum Player {
    LandsSuck,
    MemnitesDontBlock,
    LandsRule,
}

/// The one card a player's deck is built from: lands for `LandsRule`, the
/// 0-cost 1/1 creature for the other players. Every card such a player ever
/// holds satisfies this predicate.
pub open spec fn deck_card_ok(p: Player, c: Card) -> bool {
    if p is LandsRule {
        c is Land
    } else {
        c matches Card::Creature(cc) && cc.spec_cmc() == 0 && cc.spec_pow() == 1 && cc.spec_tou()
            == 1
    }
}

/// The sequence `0, 1, .., n - 1` as an index list.
fn index_range(n: usize) -> (r: Vec<usize>)
    ensures
        r@.len() == n,
        forall|i: int| 0 <= i < n ==> #[trigger] r@[i] == i,
{
    let mut r: Vec<usize> = Vec::new();
    let mut i: usize = 0;
    while i < n
        invariant
            0 <= i <= n,
            r@.len() == i,
            forall|k: int| 0 <= k < i ==> #[trigger] r@[k] == k,
        decreases n - i,
    {
        r.push(i);
        i += 1;
    }
    r
}

/// Stable insertion of `x` into `s`, ordered by the toughness of the creature
/// each index names: `x` lands after every element whose key is at most its
/// own.
pub open spec fn insert_by_tou(s: Seq<usize>, x: usize, cs: Seq<Creature>) -> Seq<usize>
    decreases s.len(),
{
    if s.len() == 0 {
        seq![x]
    } else if cs[s.last() as int].spec_tou() <= cs[x as int].spec_tou() {
        s.push(x)
    } else {
        insert_by_tou(s.drop_last(), x, cs).push(s.last())
    }
}

/// Stable insertion sort of an index list by the toughness of the creatures
/// the indices name.
pub open spec fn sort_by_tou(s: Seq<usize>, cs: Seq<Creature>) -> Seq<usize>
    decreases s.len(),
{
    if s.len() == 0 {
        Seq::empty()
    } else {
        insert_by_tou(sort_by_tou(s.drop_last(), cs), s.last(), cs)
    }
}

/// Inserting at a position `p` such that everything from `p` on has a strictly
/// larger key, and the element just before `p` (if any) does not, is exactly
/// `insert_by_tou`.
proof fn lemma_insert_by_tou_split(s: Seq<usize>, x: usize, cs: Seq<Creature>, p: int)
    requires
        0 <= p <= s.len(),
        p > 0 ==> cs[s[p - 1] as int].spec_tou() <= cs[x as int].spec_tou(),
        forall|i: int| p <= i < s.len() ==> cs[#[trigger] s[i] as int].spec_tou() > cs[x as int].spec_tou(),
    ensures
        insert_by_tou(s, x, cs) =~= s.take(p).push(x) + s.skip(p),
    decreases s.len(),
{
    if s.len() == 0 {
    } else if p == s.len() {
        assert(s.take(p) =~= s);
    } else {
        lemma_insert_by_tou_split(s.drop_last(), x, cs, p);
        assert(s.drop_last().take(p) =~= s.take(p));
        assert(s.drop_last().skip(p).push(s.last()) =~= s.skip(p));
    }
}

/// Stable insertion adds exactly the inserted index to the list's multiset.
pub proof fn lemma_insert_by_tou_multiset(s: Seq<usize>, x: usize, cs: Seq<Creature>)
    ensures
        insert_by_tou(s, x, cs).to_multiset() == s.to_multiset().insert(x),
    decreases s.len(),
{
    broadcast use vstd::seq_lib::group_to_multiset_ensures;
    broadcast use vstd::multiset::group_multiset_axioms;

    if s.len() == 0 {
        assert(seq![x] =~= Seq::<usize>::empty().push(x));
        assert(insert_by_tou(s, x, cs).to_multiset() =~= s.to_multiset().insert(x));
    } else if cs[s.last() as int].spec_tou() <= cs[x as int].spec_tou() {
    } else {
        lemma_insert_by_tou_multiset(s.drop_last(), x, cs);
        assert(s.drop_last().push(s.last()) =~= s);
        assert(insert_by_tou(s.drop_last(), x, cs).push(s.last()).to_multiset()
            =~= s.to_multiset().insert(x));
    }
}

/// The sort is a permutation: it keeps the list's multiset of indices.
pub proof fn lemma_sort_by_tou_multiset(s: Seq<usize>, cs: Seq<Creature>)
    ensures
        sort_by_tou(s, cs).to_multiset() == s.to_multiset(),
    decreases s.len(),
{
    broadcast use vstd::seq_lib::group_to_multiset_ensures;

    if s.len() > 0 {
        lemma_sort_by_tou_multiset(s.drop_last(), cs);
        lemma_insert_by_tou_multiset(sort_by_tou(s.drop_last(), cs), s.last(), cs);
        assert(s.drop_last().push(s.last()) =~= s);
    }
}

/// Sorts an index list, stably and in ascending order of the toughness of the
/// creatures the indices name.
fn sort_indices_by_tou(v: &Vec<usize>, cs: &Vec<Creature>) -> (r: Vec<usize>)
    requires
        forall|k: int| 0 <= k < v@.len() ==> #[trigger] v@[k] < cs@.len(),
    ensures
        r@ == sort_by_tou(v@, cs@),
{
    let mut r: Vec<usize> = Vec::new();
    let mut i: usize = 0;
    while i < v.len()
        invariant
            0 <= i <= v@.len(),
            forall|k: int| 0 <= k < v@.len() ==> #[trigger] v@[k] < cs@.len(),
            forall|k: int| 0 <= k < r@.len() ==> #[trigger] r@[k] < cs@.len(),
            r@ == sort_by_tou(v@.take(i as int), cs@),
        decreases v@.len() - i,
    {
        let x = v[i];
        let mut p: usize = r.len();
        while p > 0 && cs[r[p - 1]].tou() > cs[x].tou()
            invariant
                0 <= p <= r@.len(),
                forall|k: int| 0 <= k < r@.len() ==> #[trigger] r@[k] < cs@.len(),
                x < cs@.len(),
                forall|k: int|
                    p <= k < r@.len() ==> cs@[#[trigger] r@[k] as int].spec_tou() > cs@[x as int].spec_tou(),
            decreases p,
        {
            p -= 1;
        }
        proof {
            lemma_insert_by_tou_split(r@, x, cs@, p as int);
        }
        r.insert(p, x);
        proof {
            assert(r@ =~= sort_by_tou(v@.take(i as int), cs@).take(p as int).push(x) + sort_by_tou(
                v@.take(i as int),
                cs@,
            ).skip(p as int));
            assert(v@.take(i + 1).drop_last() =~= v@.take(i as int));
            assert(v@.take(i + 1).last() == x);
        }
        i += 1;
    }
    proof {
        assert(v@.take(v@.len() as int) =~= v@);
    }
    r
}

impl Player {
    /// Builds this player's 60-card deck: all lands for `LandsRule`, sixty
    /// copies of the 0-cost 1/1 creature for the other players.
    pub fn make_deck(&mut self) -> (deck: Vec<Card>)
        ensures
            *final(self) == *old(self),
            deck@.len() == 60,
            forall|i: int| 0 <= i < deck@.len() ==> (#[trigger] deck@[i]).valid(),
            forall|i: int| 0 <= i < deck@.len() ==> deck_card_ok(*old(self), #[trigger] deck@[i]),
    {
        let card = match self {
            Player::LandsSuck | Player::MemnitesDontBlock => {
                match CreatureCard::try_new(0, 1, 1) {
                    Ok(c) => Card::Creature(c),
                    Err(()) => vstd::pervasive::unreached(),
                }
            },
            Player::LandsRule => Card::Land,
        };
        let mut deck: Vec<Card> = Vec::new();
        let mut i: usize = 0;
        while i < 60
            invariant
                0 <= i <= 60,
                deck@.len() == i,
                forall|k: int| 0 <= k < i ==> #[trigger] deck@[k] == card,
            decreases 60 - i,
        {
            deck.push(card);
            i += 1;
        }
        deck
    }

    /// The mulligan decision: every player here keeps its first hand.
    pub fn muligan_choice(&mut self, _hand: &Vec<Card>, _num_muls: usize, _is_first: bool) -> (r:
        MuliganChoice)
        ensures
            *final(self) == *old(self),
            r matches MuliganChoice::KeepExcept(keep) && keep@.len() == 0,
    {
        match self {
            Player::LandsSuck | Player::MemnitesDontBlock | Player::LandsRule => {
                MuliganChoice::KeepExcept(Vec::new())
            },
        }
    }

    /// The attack decision: `LandsRule` never attacks; the other players
    /// attack with every creature they control.
    pub fn attack(&mut self, view: PlayerView) -> (r: Vec<usize>)
        ensures
            *final(self) == *old(self),
            *old(self) is LandsRule ==> r@.len() == 0,
            !(*old(self) is LandsRule) ==> r@.len() == view.creatures@.len() && forall|i: int|
                0 <= i < r@.len() ==> #[trigger] r@[i] == i,
    {
        match self {
            Player::LandsSuck | Player::MemnitesDontBlock => index_range(view.creatures.len()),
            Player::LandsRule => Vec::new(),
        }
    }

    /// The block decision, as (blocker, attacker) index pairs. Only
    /// `LandsSuck` blocks: it greedily gang-blocks the attacker with the
    /// largest toughness that its spare untapped creatures can fully cover,
    /// one blocker per point of toughness.
    ///
    /// The caller must guarantee that every tapped opposing creature is a
    /// declared attacker, as is the case right after attack declaration.
    pub fn block(&mut self, view: PlayerView, attackers: &Vec<usize>) -> (r: Vec<(usize, usize)>)
        requires
            forall|i: int|
                0 <= i < view.oth_creatures@.len() && (#[trigger] view.oth_creatures@[i]).tapped
                    ==> attackers@.contains(i as usize),
        ensures
            *final(self) == *old(self),
            !(*old(self) is LandsSuck) ==> r@.len() == 0,
            forall|k: int|
                0 <= k < r@.len() ==> (#[trigger] r@[k]).0 < view.creatures@.len()
                    && !view.creatures@[r@[k].0 as int].tapped && r@[k].1
                    < view.oth_creatures@.len() && attackers@.contains(r@[k].1),
            forall|k1: int, k2: int| 0 <= k1 < k2 < r@.len() ==> r@[k1].0 != r@[k2].0,
            forall|a: usize|
                #[trigger] blockers_of(r@, a).len() > 0 ==> a < view.oth_creatures@.len()
                    && blockers_of(r@, a).len() == view.oth_creatures@[a as int].spec_tou(),
    {
        match self {
            Player::LandsSuck => {
                let mut blockers: Vec<(usize, usize)> = Vec::new();
                let mut has_been_blocked: Vec<usize> = Vec::new();
                // Indices of this player's untapped creatures, in order.
                let mut untapped: Vec<usize> = Vec::new();
                let mut i: usize = 0;
                while i < view.creatures.len()
                    invariant
                        0 <= i <= view.creatures@.len(),
                        forall|k: int|
                            0 <= k < untapped@.len() ==> #[trigger] untapped@[k] < i
                                && !view.creatures@[untapped@[k] as int].tapped,
                        forall|k1: int, k2: int|
                            0 <= k1 < k2 < untapped@.len() ==> untapped@[k1] < untapped@[k2],
                        untapped@.len() <= i,
                    decreases view.creatures@.len() - i,
                {
                    if !view.creatures[i].tapped {
                        untapped.push(i);
                    }
                    i += 1;
                }
                let num_available = untapped.len();
                let mut num_matched: usize = 0;
                proof {
                    assert(forall|a: usize| #[trigger] blockers_of(blockers@, a).len() == 0);
                }
                loop
                    invariant_except_break
                        num_matched <= num_available,
                        num_available == untapped@.len(),
                        untapped@.len() <= view.creatures@.len(),
                        forall|k: int|
                            0 <= k < untapped@.len() ==> #[trigger] untapped@[k]
                                < view.creatures@.len() && !view.creatures@[untapped@[k] as int].tapped,
                        forall|k1: int, k2: int|
                            0 <= k1 < k2 < untapped@.len() ==> untapped@[k1] < untapped@[k2],
                        blockers@.len() == num_matched,
                        forall|k: int|
                            0 <= k < blockers@.len() ==> (#[trigger] blockers@[k]).0 == untapped@[k],
                        forall|k: int|
                            0 <= k < blockers@.len() ==> (#[trigger] blockers@[k]).1
                                < view.oth_creatures@.len() && attackers@.contains(blockers@[k].1),
                        has_been_blocked@.no_duplicates(),
                        forall|k: int|
                            0 <= k < has_been_blocked@.len() ==> #[trigger] has_been_blocked@[k]
                                < view.oth_creatures@.len(),
                        forall|i2: int|
                            0 <= i2 < view.oth_creatures@.len() && (
                            #[trigger] view.oth_creatures@[i2]).tapped ==> attackers@.contains(
                                i2 as usize,
                            ),
                        forall|a: usize|
                            #[trigger] blockers_of(blockers@, a).len() == (
                            if has_been_blocked@.contains(a) {
                                view.oth_creatures@[a as int].spec_tou() as int
                            } else {
                                0int
                            }),
                    ensures
                        forall|k: int|
                            0 <= k < blockers@.len() ==> (#[trigger] blockers@[k]).0
                                < view.creatures@.len()
                                && !view.creatures@[blockers@[k].0 as int].tapped,
                        forall|k1: int, k2: int|
                            0 <= k1 < k2 < blockers@.len() ==> blockers@[k1].0 != blockers@[k2].0,
                        forall|k: int|
                            0 <= k < blockers@.len() ==> (#[trigger] blockers@[k]).1
                                < view.oth_creatures@.len() && attackers@.contains(blockers@[k].1),
                        forall|a: usize|
                            #[trigger] blockers_of(blockers@, a).len() > 0 ==> a
                                < view.oth_creatures@.len() && blockers_of(blockers@, a).len()
                                == view.oth_creatures@[a as int].spec_tou(),
                    decreases view.oth_creatures@.len() - has_been_blocked@.len(),
                {
                    proof {
                        crate::seqs::lemma_distinct_bounded(
                            has_been_blocked@,
                            view.oth_creatures@.len(),
                        );
                    }
                    if num_matched >= num_available {
                        proof {
                            assert forall|a: usize| #[trigger] blockers_of(blockers@, a).len() > 0
                                implies a < view.oth_creatures@.len() && blockers_of(
                                blockers@,
                                a,
                            ).len() == view.oth_creatures@[a as int].spec_tou() by {
                                assert(has_been_blocked@.contains(a));
                                let w = choose|k: int|
                                    0 <= k < has_been_blocked@.len() && has_been_blocked@[k] == a;
                            }
                        }
                        break ;
                    }
                    // The most demanding attacker that the spare blockers can
                    // still fully cover (ties go to the latest index, as a
                    // maximum scan from the left replacing on equality).
                    let spare = num_available - num_matched;
                    let mut best: Option<usize> = None;
                    let mut j: usize = 0;
                    while j < view.oth_creatures.len()
                        invariant
                            0 <= j <= view.oth_creatures@.len(),
                            best matches Some(b) ==> b < j && view.oth_creatures@[b as int].tapped
                                && view.oth_creatures@[b as int].spec_tou() <= spare as u64
                                && !has_been_blocked@.contains(b),
                        decreases view.oth_creatures@.len() - j,
                    {
                        let c = &view.oth_creatures[j];
                        if c.tapped && c.tou() <= spare as u64 && !contains_index(
                            &has_been_blocked,
                            j,
                        ) {
                            let better = match best {
                                Some(b) => view.oth_creatures[b].tou() <= c.tou(),
                                None => true,
                            };
                            if better {
                                best = Some(j);
                            }
                        }
                        j += 1;
                    }
                    match best {
                        Some(target) => {
                            let num_block = view.oth_creatures[target].tou() as usize;
                            let ghost bl0 = blockers@;
                            let mut c: usize = 0;
                            while c < num_block
                                invariant
                                    0 <= c <= num_block,
                                    num_matched + num_block <= num_available,
                                    num_available == untapped@.len(),
                                    target < view.oth_creatures@.len(),
                                    attackers@.contains(target),
                                    blockers@.len() == num_matched + c,
                                    forall|k: int|
                                        0 <= k < blockers@.len() ==> (#[trigger] blockers@[k]).0
                                            == untapped@[k],
                                    forall|k: int|
                                        0 <= k < blockers@.len() ==> (#[trigger] blockers@[k]).1
                                            < view.oth_creatures@.len() && attackers@.contains(
                                            blockers@[k].1,
                                        ),
                                    blockers_of(blockers@, target).len() == blockers_of(
                                        bl0,
                                        target,
                                    ).len() + c,
                                    forall|a: usize|
                                        a != target ==> #[trigger] blockers_of(blockers@, a)
                                            == blockers_of(bl0, a),
                                decreases num_block - c,
                            {
                                let ghost bprev = blockers@;
                                blockers.push((untapped[num_matched + c], target));
                                proof {
                                    assert(blockers@.drop_last() =~= bprev);
                                    assert forall|a: usize|
                                        a != target implies #[trigger] blockers_of(blockers@, a)
                                        == blockers_of(bl0, a) by {
                                        assert(blockers_of(blockers@, a) == blockers_of(bprev, a));
                                    }
                                }
                                c += 1;
                            }
                            num_matched += num_block;
                            let ghost hb0 = has_been_blocked@;
                            has_been_blocked.push(target);
                            proof {
                                assert forall|k1: int, k2: int|
                                    0 <= k1 < k2 < has_been_blocked@.len()
                                        implies has_been_blocked@[k1] != has_been_blocked@[k2] by {
                                    if k2 == hb0.len() {
                                        if hb0[k1] == has_been_blocked@[k2] {
                                            assert(hb0.contains(hb0[k1]));
                                        }
                                    }
                                }
                                crate::seqs::lemma_distinct_bounded(
                                    has_been_blocked@,
                                    view.oth_creatures@.len(),
                                );
                                // The chosen attacker now carries exactly
                                // toughness-many blockers; everyone else is
                                // untouched.
                                assert forall|a: usize|
                                    #[trigger] blockers_of(blockers@, a).len() == (
                                if has_been_blocked@.contains(a) {
                                    view.oth_creatures@[a as int].spec_tou() as int
                                } else {
                                    0int
                                }) by {
                                    if has_been_blocked@.contains(a) {
                                        let w = choose|k: int|
                                            0 <= k < has_been_blocked@.len()
                                                && has_been_blocked@[k] == a;
                                        if w < hb0.len() {
                                            assert(hb0.contains(a));
                                        }
                                    } else {
                                        if hb0.contains(a) {
                                            let w = choose|k: int|
                                                0 <= k < hb0.len() && hb0[k] == a;
                                            assert(has_been_blocked@[w] == a);
                                        }
                                        assert(a != target) by {
                                            assert(has_been_blocked@[hb0.len() as int] == target);
                                        }
                                    }
                                }
                            }
                        },
                        None => {
                            proof {
                                assert forall|a: usize|
                                    #[trigger] blockers_of(blockers@, a).len() > 0 implies a
                                    < view.oth_creatures@.len() && blockers_of(blockers@, a).len()
                                    == view.oth_creatures@[a as int].spec_tou() by {
                                    assert(has_been_blocked@.contains(a));
                                    let w = choose|k: int|
                                        0 <= k < has_been_blocked@.len() && has_been_blocked@[k]
                                            == a;
                                }
                            }
                            break ;
                        },
                    }
                }
                blockers
            },
            Player::MemnitesDontBlock | Player::LandsRule => Vec::new(),
        }
    }

    /// The blocker-ordering decision: `LandsSuck` orders each attacker's
    /// blockers by ascending toughness; the other players keep the proposed
    /// order.
    pub fn order_blockers(
        &mut self,
        view: PlayerView,
        default_ordering: &Vec<(usize, Vec<usize>)>,
    ) -> (r: Vec<(usize, Vec<usize>)>)
        requires
            forall|k: int, b: int|
                0 <= k < default_ordering@.len() && 0 <= b < (
                #[trigger] default_ordering@[k]).1@.len() ==> (#[trigger] default_ordering@[k].1@[b])
                    < view.oth_creatures@.len(),
        ensures
            *final(self) == *old(self),
            r@.len() == default_ordering@.len(),
            forall|k: int|
                0 <= k < r@.len() ==> (#[trigger] r@[k]).0 == default_ordering@[k].0,
            *old(self) is LandsSuck ==> forall|k: int|
                0 <= k < r@.len() ==> (#[trigger] r@[k]).1@ == sort_by_tou(
                    default_ordering@[k].1@,
                    view.oth_creatures@,
                ),
            !(*old(self) is LandsSuck) ==> forall|k: int|
                0 <= k < r@.len() ==> (#[trigger] r@[k]).1@ == default_ordering@[k].1@,
    {
        let sort = match self {
            Player::LandsSuck => true,
            Player::MemnitesDontBlock | Player::LandsRule => false,
        };
        let mut r: Vec<(usize, Vec<usize>)> = Vec::new();
        let mut k: usize = 0;
        while k < default_ordering.len()
            invariant
                0 <= k <= default_ordering@.len(),
                r@.len() == k,
                forall|k2: int, b: int|
                    0 <= k2 < default_ordering@.len() && 0 <= b < (
                    #[trigger] default_ordering@[k2]).1@.len() ==> (
                    #[trigger] default_ordering@[k2].1@[b]) < view.oth_creatures@.len(),
                forall|k2: int| 0 <= k2 < k ==> (#[trigger] r@[k2]).0 == default_ordering@[k2].0,
                sort ==> forall|k2: int|
                    0 <= k2 < k ==> (#[trigger] r@[k2]).1@ == sort_by_tou(
                        default_ordering@[k2].1@,
                        view.oth_creatures@,
                    ),
                !sort ==> forall|k2: int|
                    0 <= k2 < k ==> (#[trigger] r@[k2]).1@ == default_ordering@[k2].1@,
            decreases default_ordering@.len() - k,
        {
            let (attacker, blockers) = &default_ordering[k];
            let entry = if sort {
                sort_indices_by_tou(blockers, &view.oth_creatures)
            } else {
                crate::seqs::copy_vec(blockers)
            };
            r.push((*attacker, entry));
            k += 1;
        }
        r
    }

    /// The main-phase decision: `LandsRule` plays a land whenever it holds a
    /// card and casts nothing; the other players play no land and cast their
    /// whole hand.
    pub fn main_phase(&mut self, view: PlayerView) -> (r: MainPhasePlays)
        ensures
            *final(self) == *old(self),
            *old(self) is LandsRule ==> r.land == (view.hand@.len() > 0) && r.cards@.len() == 0,
            !(*old(self) is LandsRule) ==> !r.land && r.cards@.len() == view.hand@.len() && forall|
                i: int,
            |
                0 <= i < r.cards@.len() ==> #[trigger] r.cards@[i] == i,
    {
        match self {
            Player::LandsSuck | Player::MemnitesDontBlock => MainPhasePlays {
                land: false,
                cards: index_range(view.hand.len()),
            },
            Player::LandsRule => MainPhasePlays { land: view.hand.len() > 0, cards: Vec::new() },
        }
    }

    /// The discard decision: every player here discards from the front of its
    /// hand, down to seven cards.
    pub fn discard(&mut self, view: PlayerView) -> (r: Vec<usize>)
        requires
            view.hand@.len() > 7,
        ensures
            *final(self) == *old(self),
            r@.len() == view.hand@.len() - 7,
            forall|i: int| 0 <= i < r@.len() ==> #[trigger] r@[i] == i,
    {
        match self {
            Player::LandsSuck | Player::LandsRule | Player::MemnitesDontBlock => {
                index_range(view.hand.len() - 7)
            },
        }
    }
}

} // verus!
