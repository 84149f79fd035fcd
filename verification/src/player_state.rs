//! One side of the match: library (deck), hand, battlefield, life total, and
//! the bound decision-maker, with every mutating operation specified as a
//! single atomic transition.
//!
//! The central invariant is card-count conservation: the deck, the hand, the
//! battlefield (creatures and lands), and the cards that have left play
//! (discarded or dead) always account for exactly the 60 cards of the deck.

use vstd::prelude::*;

use crate::cards::Card;
use crate::cards::Creature;
use crate::seqs::contains_index;
use crate::seqs::copy_vec;
use crate::seqs::has_duplicate;
use crate::seqs::lemma_hits_distinct_in_range;
use crate::seqs::lemma_remove_indices_elements;
use crate::seqs::lemma_remove_indices_len;
use crate::seqs::remove_indices;
use crate::seqs::select_indices;
use crate::strategy::deck_card_ok;
use crate::strategy::MainPhasePlays;
use crate::strategy::MuliganChoice;
use crate::strategy::Player;
use crate::strategy::PlayerView;

verus! {

/// The outcome of drawing a card: the library was empty (the decking loss
/// condition, reported to the caller), or a card moved to the hand.
#[derive(Clone, Copy, Debug, PartialEq, Eq, Structural)]
pub enum DrawResult {
    Empty,
    Nonempty,
}

/// A fatal violation of the engine's contract by a decision-maker. A breach
/// aborts the match at once; it is never converted into a match result.
#[derive(Clone, Copy, Debug, PartialEq, Eq, Structural)]
pub enum ContractBreach {
    /// A keep decision named a number of cards other than the mulligans taken.
    MulliganWrongCount,
    /// A keep decision named a hand position outside the seven drawn cards.
    MulliganIndexOutOfRange,
    /// A keep decision named the same hand position twice.
    MulliganDuplicateIndex,
    /// An attack decision named a creature index outside the battlefield.
    AttackerOutOfRange,
    /// An attack decision declared a creature that is already tapped.
    AttackerTapped,
    /// A block decision named a blocker index outside the battlefield.
    BlockerOutOfRange,
    /// A block decision used a tapped creature as a blocker.
    BlockerTapped,
    /// A block decision used the same blocker twice.
    DoubleBlock,
    /// A block decision named an attacker index outside the battlefield.
    BlockTargetOutOfRange,
    /// A block decision blocked a creature that is not attacking.
    BlockTargetNotAttacking,
    /// A blocker ordering did not cover exactly the proposed attackers.
    OrderingWrongAttackers,
    /// A blocker ordering changed some attacker's set of blockers.
    OrderingWrongBlockers,
    /// A main phase played a land while holding none.
    LandNotInHand,
    /// A main phase played a land with a non-land card after it in hand.
    CreatureAfterLand,
    /// A main phase cast a hand position that does not exist.
    CastIndexOutOfRange,
    /// A main phase cast a card that is not a creature.
    CastNotACreature,
    /// A main phase cast creatures costing more than the lands in play.
    NotEnoughMana,
    /// A main phase cast the same hand position twice.
    CastDuplicateIndex,
    /// A discard decision named a number of cards other than the excess.
    DiscardWrongCount,
    /// A discard decision named a position twice or out of range.
    DiscardIndicesInvalid,
    /// A combat casualty list named a creature twice or out of range.
    DeadIndicesInvalid,
}

/// The position of the first land in a hand, or the hand's length when it
/// holds none.
pub open spec fn first_land_index(s: Seq<Card>) -> int
    decreases s.len(),
{
    if s.len() == 0 {
        0
    } else if s[0] is Land {
        0
    } else {
        1 + first_land_index(s.drop_first())
    }
}

pub proof fn lemma_first_land_index(s: Seq<Card>)
    ensures
        0 <= first_land_index(s) <= s.len(),
        first_land_index(s) < s.len() ==> s[first_land_index(s)] is Land,
        forall|k: int| 0 <= k < first_land_index(s) ==> !((#[trigger] s[k]) is Land),
    decreases s.len(),
{
    if s.len() > 0 && !(s[0] is Land) {
        lemma_first_land_index(s.drop_first());
        assert forall|k: int| 0 <= k < first_land_index(s) implies !((#[trigger] s[k]) is Land) by {
            if k > 0 {
                assert(s.drop_first()[k - 1] == s[k]);
            }
        }
    }
}

/// The validity check a keep decision must pass: as many bottomed cards as
/// mulligans taken, all within the seven drawn cards, none named twice.
pub open spec fn keep_except_check(remove: Seq<usize>, num_muls: int) -> Result<(), ContractBreach> {
    if remove.len() != num_muls {
        Err(ContractBreach::MulliganWrongCount)
    } else if exists|k: int| 0 <= k < remove.len() && #[trigger] remove[k] >= 7 {
        Err(ContractBreach::MulliganIndexOutOfRange)
    } else if !remove.no_duplicates() {
        Err(ContractBreach::MulliganDuplicateIndex)
    } else {
        Ok(())
    }
}

/// The per-position validity check of a cast list: every named position
/// exists and holds a creature card. The first offending position, in list
/// order, names the breach.
pub open spec fn check_casts(hand: Seq<Card>, cards: Seq<usize>) -> Result<(), ContractBreach>
    decreases cards.len(),
{
    if cards.len() == 0 {
        Ok(())
    } else if cards.first() >= hand.len() {
        Err(ContractBreach::CastIndexOutOfRange)
    } else if !(hand[cards.first() as int] is Creature) {
        Err(ContractBreach::CastNotACreature)
    } else {
        check_casts(hand, cards.drop_first())
    }
}

/// A cast list of existing creature positions passes the cast check.
pub proof fn lemma_check_casts_all_ok(hand: Seq<Card>, cards: Seq<usize>)
    requires
        forall|k: int|
            0 <= k < cards.len() ==> #[trigger] cards[k] < hand.len() && hand[cards[k] as int]
                is Creature,
    ensures
        check_casts(hand, cards) is Ok,
    decreases cards.len(),
{
    if cards.len() > 0 {
        assert(cards[0] < hand.len());
        assert forall|k: int|
            0 <= k < cards.drop_first().len() implies #[trigger] cards.drop_first()[k] < hand.len()
            && hand[cards.drop_first()[k] as int] is Creature by {
            assert(cards[k + 1] < hand.len());
        }
        lemma_check_casts_all_ok(hand, cards.drop_first());
    }
}

/// A cast list of free creatures costs nothing.
pub proof fn lemma_total_cmc_zero(hand: Seq<Card>, cards: Seq<usize>)
    requires
        forall|k: int| 0 <= k < cards.len() ==> cost_at(hand, #[trigger] cards[k]) == 0,
    ensures
        total_cmc(hand, cards) == 0,
    decreases cards.len(),
{
    if cards.len() > 0 {
        assert(cost_at(hand, cards.last()) == 0);
        lemma_total_cmc_zero(hand, cards.drop_last());
    }
}

/// The cost of the card at position `i`: a creature's mana cost, nothing for
/// a land or a position out of range.
pub open spec fn cost_at(hand: Seq<Card>, i: usize) -> int {
    if i < hand.len() {
        match hand[i as int] {
            Card::Creature(c) => c.spec_cmc() as int,
            Card::Land => 0,
        }
    } else {
        0
    }
}

/// The summed mana cost of the named hand positions.
pub open spec fn total_cmc(hand: Seq<Card>, cards: Seq<usize>) -> int
    decreases cards.len(),
{
    if cards.len() == 0 {
        0
    } else {
        total_cmc(hand, cards.drop_last()) + cost_at(hand, cards.last())
    }
}

/// The hand after the land play of a main-phase decision, before any casts.
pub open spec fn hand_after_land(hand: Seq<Card>, land: bool) -> Seq<Card> {
    if land {
        hand.remove(first_land_index(hand))
    } else {
        hand
    }
}

/// The full validity check of a main-phase decision, in the order the engine
/// applies it: the land play, then each cast position, then the mana total,
/// then duplicate casts.
pub open spec fn main_phase_check(
    hand: Seq<Card>,
    num_lands: u64,
    land: bool,
    cards: Seq<usize>,
) -> Result<(), ContractBreach> {
    if land && first_land_index(hand) >= hand.len() {
        Err(ContractBreach::LandNotInHand)
    } else if land && exists|i: int|
        first_land_index(hand) < i < hand.len() && !((#[trigger] hand[i]) is Land) {
        Err(ContractBreach::CreatureAfterLand)
    } else {
        let h1 = hand_after_land(hand, land);
        let lands1 = num_lands + if land {
            1int
        } else {
            0int
        };
        if check_casts(h1, cards) is Err {
            check_casts(h1, cards)
        } else if total_cmc(h1, cards) > lands1 {
            Err(ContractBreach::NotEnoughMana)
        } else if !cards.no_duplicates() {
            Err(ContractBreach::CastDuplicateIndex)
        } else {
            Ok(())
        }
    }
}

/// The creature instantiated by casting hand position `i`.
pub open spec fn creature_at(hand: Seq<Card>, i: usize) -> Creature {
    match hand[i as int] {
        Card::Creature(c) => Creature {
            cmc: c.spec_cmc(),
            pow: c.spec_pow(),
            tou: c.spec_tou(),
            tapped: false,
        },
        Card::Land => Creature { cmc: 0, pow: 0, tou: 0, tapped: false },
    }
}

/// The creatures instantiated by a cast list, in list order.
pub open spec fn cast_creatures(hand: Seq<Card>, cards: Seq<usize>) -> Seq<Creature> {
    cards.map_values(|i: usize| creature_at(hand, i))
}

/// The validity check of a casualty list: no creature dies twice, and every
/// named creature is on the battlefield.
pub open spec fn dead_check(num_creatures: int, idx: Seq<usize>) -> Result<(), ContractBreach> {
    if idx.no_duplicates() && (forall|k: int| 0 <= k < idx.len() ==> #[trigger] idx[k]
        < num_creatures) {
        Ok(())
    } else {
        Err(ContractBreach::DeadIndicesInvalid)
    }
}

/// The validity check of a discard decision: exactly the excess over seven
/// cards, each position real and named once.
pub open spec fn discard_check(hand_len: int, idx: Seq<usize>) -> Result<(), ContractBreach> {
    if idx.len() + 7 != hand_len {
        Err(ContractBreach::DiscardWrongCount)
    } else if idx.no_duplicates() && (forall|k: int| 0 <= k < idx.len() ==> #[trigger] idx[k]
        < hand_len) {
        Ok(())
    } else {
        Err(ContractBreach::DiscardIndicesInvalid)
    }
}

/// The non-land cards of a hand, in hand order.
pub open spec fn nonlands_of(s: Seq<Card>) -> Seq<Card> {
    s.filter(|c: Card| !(c is Land))
}

/// The lands of a hand, in hand order.
pub open spec fn lands_of(s: Seq<Card>) -> Seq<Card> {
    s.filter(|c: Card| c is Land)
}

/// One side of the match: the bound decision-maker, the library, the hand,
/// the battlefield (lands and creatures), and the life total. The ghost
/// counter `gone` tracks cards that left play by discard or death.
pub struct PlayerState {
    pub player: Player,
    pub deck: Vec<Card>,
    pub hand: Vec<Card>,
    pub num_lands: u64,
    pub creatures: Vec<Creature>,
    pub life: i64,
    pub gone: Ghost<nat>,
}

impl PlayerState {
    /// Card-count conservation: deck, hand, battlefield, and departed cards
    /// always account for exactly the 60 cards of the deck.
    pub open spec fn conserved(&self) -> bool {
        self.deck@.len() + self.hand@.len() + self.creatures@.len() + self.num_lands + self.gone@
            == 60
    }

    /// Every card and creature this side owns has an allow-listed stat-line.
    pub open spec fn cards_valid(&self) -> bool {
        &&& forall|i: int| 0 <= i < self.deck@.len() ==> (#[trigger] self.deck@[i]).valid()
        &&& forall|i: int| 0 <= i < self.hand@.len() ==> (#[trigger] self.hand@[i]).valid()
        &&& forall|i: int| 0 <= i < self.creatures@.len() ==> (#[trigger] self.creatures@[i]).valid()
    }

    /// Well-formedness: conservation, card validity, and a life total that
    /// never exceeds its starting value.
    pub open spec fn wf(&self) -> bool {
        &&& self.conserved()
        &&& self.cards_valid()
        &&& self.life <= 20
    }

    /// Every card this side holds in its library or hand is the one card its
    /// decision-maker builds decks from. This holds from deck construction on
    /// and is what makes every decision of the closed player set legal.
    pub open spec fn stocked(&self) -> bool {
        &&& forall|i: int|
            0 <= i < self.deck@.len() ==> deck_card_ok(self.player, #[trigger] self.deck@[i])
        &&& forall|i: int|
            0 <= i < self.hand@.len() ==> deck_card_ok(self.player, #[trigger] self.hand@[i])
    }

    /// Creates a side at the start of a match: the deck the decision-maker
    /// builds, an empty hand and battlefield, 20 life.
    pub fn new(player: Player) -> (r: PlayerState)
        ensures
            r.wf(),
            r.player == player,
            r.deck@.len() == 60,
            r.hand@.len() == 0,
            r.num_lands == 0,
            r.creatures@.len() == 0,
            r.life == 20,
            r.gone@ == 0,
            r.stocked(),
    {
        let mut player = player;
        let deck = player.make_deck();
        PlayerState {
            player,
            deck,
            hand: Vec::new(),
            num_lands: 0,
            creatures: Vec::new(),
            life: 20,
            gone: Ghost(0nat),
        }
    }

    /// Draws the top card of the library into the hand; reports `Empty`
    /// instead when the library has no card left, changing nothing.
    pub fn draw(&mut self) -> (r: DrawResult)
        requires
            old(self).wf(),
        ensures
            final(self).wf(),
            final(self).player == old(self).player,
            final(self).num_lands == old(self).num_lands,
            final(self).creatures@ == old(self).creatures@,
            final(self).life == old(self).life,
            final(self).gone == old(self).gone,
            old(self).deck@.len() == 0 ==> r is Empty && *final(self) == *old(self),
            old(self).deck@.len() > 0 ==> r is Nonempty && final(self).deck@ == old(
                self,
            ).deck@.drop_last() && final(self).hand@ == old(self).hand@.push(
                old(self).deck@.last(),
            ),
            old(self).stocked() ==> final(self).stocked(),
            final(self).deck@.to_multiset().add(final(self).hand@.to_multiset()) == old(
                self,
            ).deck@.to_multiset().add(old(self).hand@.to_multiset()),
    {
        proof {
            broadcast use vstd::seq_lib::group_to_multiset_ensures;
            broadcast use vstd::multiset::group_multiset_axioms;

        }
        if self.deck.len() == 0 {
            DrawResult::Empty
        } else {
            let card = self.deck.pop().unwrap();
            self.hand.push(card);
            proof {
                assert(old(self).deck@.drop_last().push(old(self).deck@.last()) =~= old(
                    self,
                ).deck@);
                assert(self.deck@.to_multiset().add(self.hand@.to_multiset()) =~= old(
                    self,
                ).deck@.to_multiset().add(old(self).hand@.to_multiset()));
            }
            DrawResult::Nonempty
        }
    }

    /// Untaps every creature this side controls.
    #[verifier::loop_isolation(false)]
    pub fn untap(&mut self)
        requires
            old(self).wf(),
        ensures
            final(self).wf(),
            final(self).player == old(self).player,
            final(self).deck@ == old(self).deck@,
            final(self).hand@ == old(self).hand@,
            final(self).num_lands == old(self).num_lands,
            final(self).life == old(self).life,
            final(self).gone == old(self).gone,
            final(self).creatures@.len() == old(self).creatures@.len(),
            forall|i: int|
                0 <= i < final(self).creatures@.len() ==> #[trigger] final(self).creatures@[i]
                    == old(self).creatures@[i].with_tapped(false),
    {
        let mut untapped: Vec<Creature> = Vec::new();
        let mut i: usize = 0;
        while i < self.creatures.len()
            invariant
                0 <= i <= self.creatures@.len(),
                untapped@.len() == i,
                forall|k: int|
                    0 <= k < i ==> #[trigger] untapped@[k] == self.creatures@[k].with_tapped(false),
                old(self).wf(),
                *self == *old(self),
            decreases self.creatures@.len() - i,
        {
            let c = self.creatures[i];
            untapped.push(Creature { cmc: c.cmc, pow: c.pow, tou: c.tou, tapped: false });
            i += 1;
        }
        self.creatures = untapped;
    }

    /// Stably reorders the hand so that every non-land card comes before every
    /// land, giving the decision-maker a canonical hand order.
    #[verifier::loop_isolation(false)]
    pub fn sort_hand(&mut self)
        requires
            old(self).wf(),
        ensures
            final(self).wf(),
            final(self).player == old(self).player,
            final(self).deck@ == old(self).deck@,
            final(self).num_lands == old(self).num_lands,
            final(self).creatures@ == old(self).creatures@,
            final(self).life == old(self).life,
            final(self).gone == old(self).gone,
            final(self).hand@ == nonlands_of(old(self).hand@) + lands_of(old(self).hand@),
            old(self).stocked() ==> final(self).stocked(),
    {
        let ghost h0 = self.hand@;
        let mut nonlands: Vec<Card> = Vec::new();
        let mut lands: Vec<Card> = Vec::new();
        let mut i: usize = 0;
        while i < self.hand.len()
            invariant
                0 <= i <= self.hand@.len(),
                *self == *old(self),
                nonlands@ == nonlands_of(h0.take(i as int)),
                lands@ == lands_of(h0.take(i as int)),
                nonlands@.len() + lands@.len() == i,
                forall|k: int| 0 <= k < nonlands@.len() ==> (#[trigger] nonlands@[k]).valid(),
                forall|k: int| 0 <= k < lands@.len() ==> (#[trigger] lands@[k]).valid(),
                old(self).stocked() ==> forall|k: int|
                    0 <= k < nonlands@.len() ==> deck_card_ok(
                        old(self).player,
                        #[trigger] nonlands@[k],
                    ),
                old(self).stocked() ==> forall|k: int|
                    0 <= k < lands@.len() ==> deck_card_ok(old(self).player, #[trigger] lands@[k]),
            decreases self.hand@.len() - i,
        {
            let c = self.hand[i];
            proof {
                reveal(Seq::filter);
                assert(h0.take(i + 1).drop_last() =~= h0.take(i as int));
                assert(h0.take(i + 1).last() == h0[i as int]);
            }
            match c {
                Card::Land => lands.push(c),
                Card::Creature(_) => nonlands.push(c),
            }
            i += 1;
        }
        proof {
            assert(h0.take(h0.len() as int) =~= h0);
        }
        let ghost n0 = nonlands@;
        nonlands.append(&mut lands);
        self.hand = nonlands;
        proof {
            assert forall|k: int| 0 <= k < self.hand@.len() implies (
            #[trigger] self.hand@[k]).valid() && (old(self).stocked() ==> deck_card_ok(
                old(self).player,
                self.hand@[k],
            )) by {
                if k < n0.len() {
                    assert(self.hand@[k] == n0[k]);
                } else {
                    assert(self.hand@[k] == lands_of(h0)[k - n0.len()]);
                }
            }
        }
    }

    /// A snapshot of this side, plus the public part of the opponent's state,
    /// handed to the decision-maker at a decision point.
    pub fn view_of(&self, other_state: &PlayerState, num_turn: u64) -> (v: PlayerView)
        ensures
            v.num_turn == num_turn,
            v.hand@ == self.hand@,
            v.num_lands == self.num_lands,
            v.creatures@ == self.creatures@,
            v.deck_size == self.deck@.len(),
            v.oth_hand_size == other_state.hand@.len(),
            v.oth_lands == other_state.num_lands,
            v.oth_creatures@ == other_state.creatures@,
            v.oth_deck_size == other_state.deck@.len(),
    {
        PlayerView {
            num_turn,
            hand: copy_vec(&self.hand),
            num_lands: self.num_lands,
            creatures: copy_vec(&self.creatures),
            deck_size: self.deck.len(),
            oth_hand_size: other_state.hand.len(),
            oth_lands: other_state.num_lands,
            oth_creatures: copy_vec(&other_state.creatures),
            oth_deck_size: other_state.deck.len(),
        }
    }

    /// Applies a keep decision after `num_muls` mulligans: the named hand
    /// positions are bottomed (put back on top of the shuffled library, so
    /// future draws still come from the remaining cards), the rest are kept.
    /// A hand of seven shrinks to exactly `7 - num_muls` cards.
    #[verifier::loop_isolation(false)]
    pub fn apply_keep_except(&mut self, remove: &Vec<usize>, num_muls: usize) -> (r: Result<
        (),
        ContractBreach,
    >)
        requires
            old(self).wf(),
            old(self).hand@.len() == 7,
        ensures
            final(self).wf(),
            r == keep_except_check(remove@, num_muls as int),
            r is Err ==> *final(self) == *old(self),
            r is Ok ==> {
                &&& final(self).hand@ == remove_indices(old(self).hand@, remove@)
                &&& final(self).hand@.len() == 7 - num_muls
                &&& final(self).deck@ == select_indices(old(self).hand@, remove@) + old(self).deck@
                &&& final(self).player == old(self).player
                &&& final(self).num_lands == old(self).num_lands
                &&& final(self).creatures@ == old(self).creatures@
                &&& final(self).life == old(self).life
                &&& final(self).gone == old(self).gone
            },
            old(self).stocked() ==> final(self).stocked(),
            final(self).deck@.to_multiset().add(final(self).hand@.to_multiset()) == old(
                self,
            ).deck@.to_multiset().add(old(self).hand@.to_multiset()),
    {
        if remove.len() != num_muls {
            return Err(ContractBreach::MulliganWrongCount);
        }
        let mut k: usize = 0;
        while k < remove.len()
            invariant
                0 <= k <= remove@.len(),
                forall|j: int| 0 <= j < k ==> #[trigger] remove@[j] < 7,
            decreases remove@.len() - k,
        {
            if remove[k] >= 7 {
                proof {
                    assert(remove@[k as int] >= 7);
                }
                return Err(ContractBreach::MulliganIndexOutOfRange);
            }
            k += 1;
        }
        if has_duplicate(remove) {
            return Err(ContractBreach::MulliganDuplicateIndex);
        }
        let ghost h0 = self.hand@;
        let mut kept: Vec<Card> = Vec::new();
        let mut bottomed: Vec<Card> = Vec::new();
        let mut p: usize = 0;
        while p < self.hand.len()
            invariant
                0 <= p <= self.hand@.len(),
                *self == *old(self),
                old(self).wf(),
                h0 == self.hand@,
                kept@ == remove_indices(h0.take(p as int), remove@),
                bottomed@ == select_indices(h0.take(p as int), remove@),
                kept@.len() + bottomed@.len() == p,
            decreases self.hand@.len() - p,
        {
            let c = self.hand[p];
            proof {
                assert(h0.take(p + 1).drop_last() =~= h0.take(p as int));
                assert(h0.take(p + 1).last() == h0[p as int]);
            }
            if contains_index(remove, p) {
                bottomed.push(c);
            } else {
                kept.push(c);
            }
            p += 1;
        }
        proof {
            assert(h0.take(h0.len() as int) =~= h0);
            lemma_remove_indices_len(h0, remove@);
            lemma_hits_distinct_in_range(7, remove@);
            lemma_remove_indices_elements(h0, remove@);
        }
        bottomed.append(&mut self.deck);
        self.deck = bottomed;
        self.hand = kept;
        proof {
            assert forall|i: int| 0 <= i < self.hand@.len() implies (
            #[trigger] self.hand@[i]).valid() && (old(self).stocked() ==> deck_card_ok(
                old(self).player,
                self.hand@[i],
            )) by {
                assert(h0.contains(self.hand@[i]));
                let w = choose|j: int| 0 <= j < h0.len() && h0[j] == self.hand@[i];
            }
            assert forall|i: int| 0 <= i < self.deck@.len() implies (
            #[trigger] self.deck@[i]).valid() && (old(self).stocked() ==> deck_card_ok(
                old(self).player,
                self.deck@[i],
            )) by {
                let s = select_indices(h0, remove@);
                if i < s.len() {
                    assert(self.deck@[i] == s[i]);
                    assert(h0.contains(s[i]));
                    let w = choose|j: int| 0 <= j < h0.len() && h0[j] == s[i];
                } else {
                    assert(self.deck@[i] == old(self).deck@[i - s.len()]);
                }
            }
            // Bottoming and keeping only move cards: the deck-plus-hand
            // multiset is untouched.
            broadcast use vstd::seq_lib::group_to_multiset_ensures;
            broadcast use vstd::multiset::group_multiset_axioms;

            crate::seqs::lemma_remove_indices_multiset(h0, remove@);
            vstd::seq_lib::lemma_multiset_commutative(
                select_indices(h0, remove@),
                old(self).deck@,
            );
            assert(self.deck@.to_multiset().add(self.hand@.to_multiset()) =~= old(
                self,
            ).deck@.to_multiset().add(h0.to_multiset()));
        }
        Ok(())
    }

    /// Runs the mulligan procedure before turn 1: up to seven times, shuffle,
    /// draw seven, and ask the decision-maker; a keep bottoms as many cards as
    /// mulligans already taken, leaving a hand of seven minus that count, and
    /// seven mulligans end with an empty hand. Every player of the closed set
    /// keeps its first hand, so the procedure returns zero mulligans, a hand
    /// of seven, and a library of 53 — the 60 cards only reordered.
    #[verifier::loop_isolation(false)]
    pub fn do_muligans(&mut self, is_first: bool) -> (r: Result<usize, ContractBreach>)
        requires
            old(self).wf(),
            old(self).hand@.len() == 0,
            old(self).creatures@.len() == 0,
            old(self).num_lands == 0,
            old(self).gone@ == 0,
        ensures
            final(self).wf(),
            final(self).player == old(self).player,
            final(self).num_lands == 0,
            final(self).creatures@.len() == 0,
            final(self).life == old(self).life,
            final(self).gone@ == 0,
            r matches Ok(k) ==> k <= 7 && final(self).hand@.len() == 7 - k && final(self).deck@.len()
                == 53 + k,
            r == Ok::<usize, ContractBreach>(0),
            final(self).hand@.len() == 7,
            final(self).deck@.len() == 53,
            final(self).deck@.to_multiset().add(final(self).hand@.to_multiset()) == old(
                self,
            ).deck@.to_multiset(),
            old(self).stocked() ==> final(self).stocked(),
    {
        let mut num_muls: usize = 0;
        while num_muls < 7
            invariant
                num_muls == 0,
                self.wf(),
                self.hand@.len() == 0,
                self.deck@.len() == 60,
                self.deck@.to_multiset() == old(self).deck@.to_multiset(),
                old(self).stocked() ==> self.stocked(),
                self.player == old(self).player,
                self.num_lands == 0,
                self.creatures@.len() == 0,
                self.life == old(self).life,
                self.gone@ == 0,
            decreases 7 - num_muls,
        {
            let ghost deck_before = self.deck@;
            crate::rng::shuffle_cards(&mut self.deck);
            proof {
                broadcast use vstd::seq_lib::group_to_multiset_ensures;
                broadcast use vstd::multiset::group_multiset_axioms;

                assert forall|i: int| 0 <= i < self.deck@.len() implies (
                #[trigger] self.deck@[i]).valid() && (old(self).stocked() ==> deck_card_ok(
                    old(self).player,
                    self.deck@[i],
                )) by {
                    let c = self.deck@[i];
                    assert(self.deck@.contains(c));
                    assert(deck_before.to_multiset().count(c) > 0);
                    assert(deck_before.contains(c));
                    let w = choose|j: int| 0 <= j < deck_before.len() && deck_before[j] == c;
                }
                assert(self.hand@.to_multiset() =~= vstd::multiset::Multiset::<Card>::empty());
                assert(self.deck@.to_multiset().add(self.hand@.to_multiset()) =~= old(
                    self,
                ).deck@.to_multiset());
            }
            let mut j: usize = 0;
            while j < 7
                invariant
                    0 <= j <= 7,
                    self.wf(),
                    self.hand@.len() == j,
                    self.deck@.len() == 60 - j,
                    self.deck@.to_multiset().add(self.hand@.to_multiset()) == old(
                        self,
                    ).deck@.to_multiset(),
                    old(self).stocked() ==> self.stocked(),
                    self.player == old(self).player,
                    self.num_lands == 0,
                    self.creatures@.len() == 0,
                    self.life == old(self).life,
                    self.gone@ == 0,
                decreases 7 - j,
            {
                let draw_result = self.draw();
                j += 1;
            }
            let perform_muligan = self.player.muligan_choice(&self.hand, num_muls, is_first);
            match perform_muligan {
                MuliganChoice::KeepExcept(remove) => {
                    let res = self.apply_keep_except(&remove, num_muls);
                    match res {
                        Ok(()) => {
                            return Ok(num_muls);
                        },
                        Err(e) => {
                            return Err(e);
                        },
                    }
                },
                MuliganChoice::Muligan => {
                    let ghost d0 = self.deck@;
                    let ghost hh = self.hand@;
                    self.deck.append(&mut self.hand);
                    proof {
                        assert forall|i: int| 0 <= i < self.deck@.len() implies (
                        #[trigger] self.deck@[i]).valid() by {
                            if i < d0.len() {
                                assert(self.deck@[i] == d0[i]);
                            } else {
                                assert(self.deck@[i] == hh[i - d0.len()]);
                            }
                        }
                    }
                    num_muls += 1;
                },
            }
        }
        // Seven mulligans taken: the hand is empty and nothing is kept.
        Ok(7)
    }

    /// Applies a main-phase decision: play the land if asked (it must be the
    /// first land in hand, with only lands after it), then cast the named
    /// creatures in order, paying their summed cost from lands in play. Any
    /// violation is a contract breach and leaves the state unchanged.
    #[verifier::loop_isolation(false)]
    #[verifier::rlimit(60)]
    pub fn handle_main_phase_plays(&mut self, main_phase_plays: MainPhasePlays) -> (r: Result<
        (),
        ContractBreach,
    >)
        requires
            old(self).wf(),
        ensures
            final(self).wf(),
            r == main_phase_check(
                old(self).hand@,
                old(self).num_lands,
                main_phase_plays.land,
                main_phase_plays.cards@,
            ),
            r is Err ==> *final(self) == *old(self),
            r is Ok ==> {
                &&& final(self).num_lands == old(self).num_lands + if main_phase_plays.land {
                    1int
                } else {
                    0int
                }
                &&& final(self).hand@ == remove_indices(
                    hand_after_land(old(self).hand@, main_phase_plays.land),
                    main_phase_plays.cards@,
                )
                &&& final(self).creatures@ == old(self).creatures@ + cast_creatures(
                    hand_after_land(old(self).hand@, main_phase_plays.land),
                    main_phase_plays.cards@,
                )
                &&& final(self).player == old(self).player
                &&& final(self).deck@ == old(self).deck@
                &&& final(self).life == old(self).life
                &&& final(self).gone == old(self).gone
            },
            old(self).stocked() ==> final(self).stocked(),
    {
        let ghost hand0 = self.hand@;
        proof {
            lemma_first_land_index(hand0);
        }
        // Find and validate the land play without mutating yet.
        let mut land_position: usize = 0;
        if main_phase_plays.land {
            let mut found = false;
            let mut i: usize = 0;
            while i < self.hand.len()
                invariant
                    0 <= i <= self.hand@.len(),
                    hand0 == self.hand@,
                    !found ==> forall|k: int| 0 <= k < i ==> !((#[trigger] hand0[k]) is Land),
                    found ==> land_position < i && hand0[land_position as int] is Land && forall|
                        k: int,
                    | 0 <= k < land_position ==> !((#[trigger] hand0[k]) is Land),
                decreases self.hand@.len() - i,
            {
                match self.hand[i] {
                    Card::Land => {
                        if !found {
                            found = true;
                            land_position = i;
                        }
                    },
                    Card::Creature(_) => {},
                }
                i += 1;
            }
            if !found {
                proof {
                    if first_land_index(hand0) < hand0.len() {
                        assert(hand0[first_land_index(hand0)] is Land);
                    }
                }
                return Err(ContractBreach::LandNotInHand);
            }
            proof {
                assert(land_position == first_land_index(hand0)) by {
                    if land_position < first_land_index(hand0) {
                        assert(!(hand0[land_position as int] is Land));
                    }
                    if first_land_index(hand0) < land_position {
                        assert(!(hand0[first_land_index(hand0)] is Land));
                    }
                }
            }
            // Nothing but lands may follow the played land in hand order.
            let mut i: usize = land_position;
            while i < self.hand.len()
                invariant
                    land_position <= i <= self.hand@.len(),
                    hand0 == self.hand@,
                    land_position == first_land_index(hand0),
                    forall|k: int| land_position <= k < i ==> (#[trigger] hand0[k]) is Land,
                decreases self.hand@.len() - i,
            {
                match self.hand[i] {
                    Card::Land => {},
                    Card::Creature(_) => {
                        proof {
                            assert(first_land_index(hand0) < i < hand0.len() && !((
                            hand0[i as int]) is Land));
                        }
                        return Err(ContractBreach::CreatureAfterLand);
                    },
                }
                i += 1;
            }
        }
        // The hand the cast positions refer to: after the land play.
        let ghost h1 = hand_after_land(hand0, main_phase_plays.land);
        proof {
            if main_phase_plays.land {
                assert forall|k: int| 0 <= k < h1.len() implies (#[trigger] h1[k]).valid() && (old(
                    self,
                ).stocked() ==> deck_card_ok(old(self).player, h1[k])) by {
                    if k < land_position {
                        assert(h1[k] == hand0[k]);
                    } else {
                        assert(h1[k] == hand0[k + 1]);
                    }
                }
            }
        }
        // Validate every cast position, in list order.
        let cards = &main_phase_plays.cards;
        proof {
            assert(cards@.skip(0) =~= cards@);
        }
        let mut k: usize = 0;
        while k < cards.len()
            invariant
                0 <= k <= cards@.len(),
                hand0 == self.hand@,
                h1 == hand_after_land(hand0, main_phase_plays.land),
                main_phase_plays.land ==> land_position == first_land_index(hand0) && land_position
                    < hand0.len(),
                check_casts(h1, cards@) == check_casts(h1, cards@.skip(k as int)),
                forall|j: int|
                    0 <= j < k ==> #[trigger] cards@[j] < h1.len() && h1[cards@[j] as int]
                        is Creature,
            decreases cards@.len() - k,
        {
            proof {
                assert(cards@.skip(k as int).first() == cards@[k as int]);
                assert(cards@.skip(k as int).drop_first() =~= cards@.skip(k + 1));
            }
            let idx = cards[k];
            let in_range = if main_phase_plays.land {
                idx < self.hand.len() - 1
            } else {
                idx < self.hand.len()
            };
            if !in_range {
                return Err(ContractBreach::CastIndexOutOfRange);
            }
            let card = if main_phase_plays.land && idx >= land_position {
                self.hand[idx + 1]
            } else {
                self.hand[idx]
            };
            proof {
                assert(h1[idx as int] == card);
            }
            match card {
                Card::Creature(_) => {},
                Card::Land => {
                    return Err(ContractBreach::CastNotACreature);
                },
            }
            k += 1;
        }
        proof {
            assert(cards@.skip(cards@.len() as int) =~= Seq::<usize>::empty());
        }
        // Sum the cast costs, capped far above any possible land count.
        let mut total: u64 = 0;
        let mut k: usize = 0;
        while k < cards.len()
            invariant
                0 <= k <= cards@.len(),
                hand0 == self.hand@,
                h1 == hand_after_land(hand0, main_phase_plays.land),
                main_phase_plays.land ==> land_position == first_land_index(hand0) && land_position
                    < hand0.len(),
                forall|j: int|
                    0 <= j < cards@.len() ==> #[trigger] cards@[j] < h1.len() && h1[cards@[j] as int]
                        is Creature,
                forall|j: int| 0 <= j < h1.len() ==> (#[trigger] h1[j]).valid(),
                total == if total_cmc(h1, cards@.take(k as int)) <= 961 {
                    total_cmc(h1, cards@.take(k as int))
                } else {
                    961int
                },
            decreases cards@.len() - k,
        {
            let idx = cards[k];
            let card = if main_phase_plays.land && idx >= land_position {
                self.hand[idx + 1]
            } else {
                self.hand[idx]
            };
            proof {
                assert(h1[idx as int] == card);
                assert(cards@.take(k + 1).drop_last() =~= cards@.take(k as int));
                assert(cards@.take(k + 1).last() == cards@[k as int]);
            }
            let cost = match card {
                Card::Creature(cc) => {
                    proof {
                        crate::cards::lemma_allowed_stat_line_bounds(
                            cc.spec_cmc(),
                            cc.spec_pow(),
                            cc.spec_tou(),
                        );
                    }
                    cc.cmc()
                },
                Card::Land => vstd::pervasive::unreached(),
            };
            total = if total + cost <= 961 {
                total + cost
            } else {
                961
            };
            k += 1;
        }
        proof {
            assert(cards@.take(cards@.len() as int) =~= cards@);
        }
        let lands_after: u64 = if main_phase_plays.land {
            self.num_lands + 1
        } else {
            self.num_lands
        };
        if total > lands_after {
            return Err(ContractBreach::NotEnoughMana);
        }
        if has_duplicate(cards) {
            return Err(ContractBreach::CastDuplicateIndex);
        }
        // All checks passed: apply the decision.
        if main_phase_plays.land {
            self.hand.remove(land_position);
            self.num_lands = self.num_lands + 1;
        }
        proof {
            assert(self.hand@ =~= h1);
        }
        let mut k: usize = 0;
        while k < cards.len()
            invariant
                0 <= k <= cards@.len(),
                self.hand@ == h1,
                forall|j: int|
                    0 <= j < cards@.len() ==> #[trigger] cards@[j] < h1.len() && h1[cards@[j] as int]
                        is Creature,
                forall|j: int| 0 <= j < h1.len() ==> (#[trigger] h1[j]).valid(),
                self.creatures@ == old(self).creatures@ + cast_creatures(h1, cards@.take(k as int)),
                self.player == old(self).player,
                self.deck@ == old(self).deck@,
                self.life == old(self).life,
                self.gone == old(self).gone,
                self.num_lands == old(self).num_lands + if main_phase_plays.land {
                    1int
                } else {
                    0int
                },
                forall|i: int|
                    0 <= i < self.creatures@.len() ==> (#[trigger] self.creatures@[i]).valid(),
                old(self).wf(),
            decreases cards@.len() - k,
        {
            let idx = cards[k];
            proof {
                assert(cards@.take(k + 1).drop_last() =~= cards@.take(k as int));
                assert(cards@.take(k + 1).last() == cards@[k as int]);
                assert(cast_creatures(h1, cards@.take(k + 1)) =~= cast_creatures(
                    h1,
                    cards@.take(k as int),
                ).push(creature_at(h1, cards@[k as int])));
            }
            match self.hand[idx] {
                Card::Creature(cc) => {
                    let creature = Creature::new(&cc);
                    self.creatures.push(creature);
                },
                Card::Land => {
                    vstd::pervasive::unreached::<()>();
                },
            }
            k += 1;
        }
        proof {
            assert(cards@.take(cards@.len() as int) =~= cards@);
        }
        // Remove the cast cards from the hand, in one pass.
        let ghost hand1 = self.hand@;
        let mut kept: Vec<Card> = Vec::new();
        let mut p: usize = 0;
        while p < self.hand.len()
            invariant
                0 <= p <= self.hand@.len(),
                self.hand@ == hand1,
                kept@ == remove_indices(hand1.take(p as int), cards@),
                kept@.len() <= p,
                forall|j: int| 0 <= j < hand1.len() ==> (#[trigger] hand1[j]).valid(),
                forall|j: int| 0 <= j < kept@.len() ==> (#[trigger] kept@[j]).valid(),
                old(self).stocked() ==> forall|j: int|
                    0 <= j < hand1.len() ==> deck_card_ok(old(self).player, #[trigger] hand1[j]),
                old(self).stocked() ==> forall|j: int|
                    0 <= j < kept@.len() ==> deck_card_ok(old(self).player, #[trigger] kept@[j]),
            decreases self.hand@.len() - p,
        {
            let c = self.hand[p];
            proof {
                assert(hand1.take(p + 1).drop_last() =~= hand1.take(p as int));
                assert(hand1.take(p + 1).last() == hand1[p as int]);
                lemma_remove_indices_len(hand1.take(p + 1), cards@);
                lemma_remove_indices_elements(hand1.take(p + 1), cards@);
            }
            if !contains_index(cards, p) {
                kept.push(c);
            }
            p += 1;
        }
        proof {
            assert(hand1.take(hand1.len() as int) =~= hand1);
        }
        self.hand = kept;
        proof {
            lemma_remove_indices_len(hand1, cards@);
            lemma_hits_distinct_in_range(hand1.len() as int, cards@);
        }
        Ok(())
    }

    /// Discards the named hand positions, which must be exactly the excess
    /// over seven cards; the hand ends at exactly seven.
    #[verifier::loop_isolation(false)]
    pub fn handle_discard(&mut self, discard_indices: Vec<usize>) -> (r: Result<
        (),
        ContractBreach,
    >)
        requires
            old(self).wf(),
        ensures
            final(self).wf(),
            r == discard_check(old(self).hand@.len() as int, discard_indices@),
            r is Err ==> *final(self) == *old(self),
            r is Ok ==> {
                &&& final(self).hand@ == remove_indices(old(self).hand@, discard_indices@)
                &&& final(self).hand@.len() == 7
                &&& final(self).gone@ == old(self).gone@ + discard_indices@.len()
                &&& final(self).player == old(self).player
                &&& final(self).deck@ == old(self).deck@
                &&& final(self).num_lands == old(self).num_lands
                &&& final(self).creatures@ == old(self).creatures@
                &&& final(self).life == old(self).life
            },
            old(self).stocked() ==> final(self).stocked(),
    {
        if self.hand.len() < 7 || discard_indices.len() != self.hand.len() - 7 {
            return Err(ContractBreach::DiscardWrongCount);
        }
        let mut bad = has_duplicate(&discard_indices);
        let mut k: usize = 0;
        while k < discard_indices.len()
            invariant
                0 <= k <= discard_indices@.len(),
                *self == *old(self),
                !bad ==> discard_indices@.no_duplicates(),
                !bad ==> forall|j: int|
                    0 <= j < k ==> #[trigger] discard_indices@[j] < self.hand@.len(),
                bad ==> !(discard_indices@.no_duplicates() && forall|j: int|
                    0 <= j < discard_indices@.len() ==> #[trigger] discard_indices@[j]
                        < self.hand@.len()),
            decreases discard_indices@.len() - k,
        {
            if discard_indices[k] >= self.hand.len() {
                proof {
                    assert(discard_indices@[k as int] >= self.hand@.len());
                }
                bad = true;
            }
            k += 1;
        }
        if bad {
            return Err(ContractBreach::DiscardIndicesInvalid);
        }
        let ghost h0 = self.hand@;
        let mut kept: Vec<Card> = Vec::new();
        let mut p: usize = 0;
        while p < self.hand.len()
            invariant
                0 <= p <= self.hand@.len(),
                *self == *old(self),
                h0 == self.hand@,
                old(self).wf(),
                kept@ == remove_indices(h0.take(p as int), discard_indices@),
                kept@.len() <= p,
                forall|j: int| 0 <= j < kept@.len() ==> (#[trigger] kept@[j]).valid(),
                old(self).stocked() ==> forall|j: int|
                    0 <= j < kept@.len() ==> deck_card_ok(old(self).player, #[trigger] kept@[j]),
            decreases self.hand@.len() - p,
        {
            let c = self.hand[p];
            proof {
                assert(h0.take(p + 1).drop_last() =~= h0.take(p as int));
                assert(h0.take(p + 1).last() == h0[p as int]);
                lemma_remove_indices_len(h0.take(p + 1), discard_indices@);
                lemma_remove_indices_elements(h0.take(p + 1), discard_indices@);
            }
            if !contains_index(&discard_indices, p) {
                kept.push(c);
            }
            p += 1;
        }
        proof {
            assert(h0.take(h0.len() as int) =~= h0);
        }
        self.hand = kept;
        self.gone = Ghost(old(self).gone@ + discard_indices@.len());
        proof {
            lemma_remove_indices_len(h0, discard_indices@);
            lemma_hits_distinct_in_range(h0.len() as int, discard_indices@);
        }
        Ok(())
    }

    /// Removes the named creatures from the battlefield as combat casualties;
    /// each must be named exactly once.
    #[verifier::loop_isolation(false)]
    pub fn die(&mut self, dead_creatures: Vec<usize>) -> (r: Result<(), ContractBreach>)
        requires
            old(self).wf(),
        ensures
            final(self).wf(),
            r == dead_check(old(self).creatures@.len() as int, dead_creatures@),
            r is Err ==> *final(self) == *old(self),
            r is Ok ==> {
                &&& final(self).creatures@ == remove_indices(old(self).creatures@, dead_creatures@)
                &&& final(self).creatures@.len() == old(self).creatures@.len()
                    - dead_creatures@.len()
                &&& final(self).gone@ == old(self).gone@ + dead_creatures@.len()
                &&& final(self).player == old(self).player
                &&& final(self).deck@ == old(self).deck@
                &&& final(self).hand@ == old(self).hand@
                &&& final(self).num_lands == old(self).num_lands
                &&& final(self).life == old(self).life
            },
    {
        let mut bad = has_duplicate(&dead_creatures);
        let mut k: usize = 0;
        while k < dead_creatures.len()
            invariant
                0 <= k <= dead_creatures@.len(),
                *self == *old(self),
                !bad ==> dead_creatures@.no_duplicates(),
                !bad ==> forall|j: int|
                    0 <= j < k ==> #[trigger] dead_creatures@[j] < self.creatures@.len(),
                bad ==> !(dead_creatures@.no_duplicates() && forall|j: int|
                    0 <= j < dead_creatures@.len() ==> #[trigger] dead_creatures@[j]
                        < self.creatures@.len()),
            decreases dead_creatures@.len() - k,
        {
            if dead_creatures[k] >= self.creatures.len() {
                proof {
                    assert(dead_creatures@[k as int] >= self.creatures@.len());
                }
                bad = true;
            }
            k += 1;
        }
        if bad {
            return Err(ContractBreach::DeadIndicesInvalid);
        }
        let ghost c0 = self.creatures@;
        let mut kept: Vec<Creature> = Vec::new();
        let mut p: usize = 0;
        while p < self.creatures.len()
            invariant
                0 <= p <= self.creatures@.len(),
                *self == *old(self),
                c0 == self.creatures@,
                old(self).wf(),
                kept@ == remove_indices(c0.take(p as int), dead_creatures@),
                kept@.len() <= p,
                forall|j: int| 0 <= j < kept@.len() ==> (#[trigger] kept@[j]).valid(),
            decreases self.creatures@.len() - p,
        {
            let c = self.creatures[p];
            proof {
                assert(c0.take(p + 1).drop_last() =~= c0.take(p as int));
                assert(c0.take(p + 1).last() == c0[p as int]);
                lemma_remove_indices_len(c0.take(p + 1), dead_creatures@);
                lemma_remove_indices_elements(c0.take(p + 1), dead_creatures@);
            }
            if !contains_index(&dead_creatures, p) {
                kept.push(c);
            }
            p += 1;
        }
        proof {
            assert(c0.take(c0.len() as int) =~= c0);
        }
        self.creatures = kept;
        self.gone = Ghost(old(self).gone@ + dead_creatures@.len());
        proof {
            lemma_remove_indices_len(c0, dead_creatures@);
            lemma_hits_distinct_in_range(c0.len() as int, dead_creatures@);
        }
        Ok(())
    }
}

} // verus!
