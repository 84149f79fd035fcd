//! The turn engine: the per-turn phase machine (untap, draw, attack, block,
//! order blockers, combat damage, main phase, discard), the alternation of the
//! active player, win-condition detection, and the validation of every
//! decision a player returns. An illegal decision is a contract breach that
//! aborts the match.

use vstd::prelude::*;

use crate::blocks::lemma_block_check_all_ok;
use crate::blocks::lemma_key_appears_at;
use crate::blocks::lemma_lookup_found;
use crate::blocks::lookup;
use crate::blocks::ordering_keys_ok;
use crate::blocks::ordering_lists_ok;
use crate::cards::Creature;
use crate::combat::key_appears;
use crate::combat::resolve_combat;
use crate::combat::spec_life_loss;
use crate::player_state::cost_at;
use crate::player_state::dead_check;
use crate::player_state::discard_check;
use crate::player_state::first_land_index;
use crate::player_state::lemma_check_casts_all_ok;
use crate::player_state::lemma_first_land_index;
use crate::player_state::lemma_total_cmc_zero;
use crate::player_state::main_phase_check;
use crate::player_state::ContractBreach;
use crate::player_state::DrawResult;
use crate::player_state::PlayerState;
use crate::seqs::contains_index;
use crate::seqs::lemma_remove_indices_none;
use crate::strategy::deck_card_ok;
use crate::strategy::lemma_sort_by_tou_multiset;
use crate::strategy::sort_by_tou;
use crate::strategy::Player;

verus! {

/// The winning side of a finished match.
#[derive(Clone, Copy, Debug, PartialEq, Eq, Structural)]
pub enum Winner {
    Player1,
    Player2,
}

/// Why a match ended: a player had to draw from an empty library, or a
/// player's life total reached zero or below.
#[derive(Clone, Copy, Debug, PartialEq, Eq, Structural)]
pub enum MatchCause {
    DeckedOut,
    LifeLoss,
}

/// The terminal value of a match: who won, and why.
#[derive(Clone, Copy, Debug, PartialEq, Eq, Structural)]
pub struct MatchResult {
    pub winner: Winner,
    pub cause: MatchCause,
}

/// What one turn produced: the match goes on, the active player won by
/// bringing the defender to zero life, or the active player lost by having to
/// draw from an empty library.
#[derive(Clone, Copy, Debug, PartialEq, Eq, Structural)]
pub enum TurnOutcome {
    Continue,
    CurrentWinsByLife,
    OpponentWinsByDecking,
}

/// The validity check of an attack declaration, applied to the declared
/// indices in order: each must name an untapped battlefield creature, and
/// each declaration taps it, so a repeated index is caught as tapped.
pub open spec fn attack_check_from(
    creatures: Seq<Creature>,
    attackers: Seq<usize>,
    k: int,
) -> Result<(), ContractBreach>
    decreases attackers.len() - k,
{
    if k < 0 || k >= attackers.len() {
        Ok(())
    } else if attackers[k] >= creatures.len() {
        Err(ContractBreach::AttackerOutOfRange)
    } else if creatures[attackers[k] as int].tapped || attackers.take(k).contains(attackers[k]) {
        Err(ContractBreach::AttackerTapped)
    } else {
        attack_check_from(creatures, attackers, k + 1)
    }
}

pub open spec fn attack_check(creatures: Seq<Creature>, attackers: Seq<usize>) -> Result<
    (),
    ContractBreach,
> {
    attack_check_from(creatures, attackers, 0)
}

pub proof fn lemma_attack_check_ok(creatures: Seq<Creature>, attackers: Seq<usize>, k: int)
    requires
        attack_check_from(creatures, attackers, k) is Ok,
        0 <= k <= attackers.len(),
    ensures
        forall|j: int|
            k <= j < attackers.len() ==> #[trigger] attackers[j] < creatures.len()
                && !creatures[attackers[j] as int].tapped,
        forall|j1: int, j2: int|
            0 <= j1 < j2 < attackers.len() && k <= j2 ==> attackers[j1] != attackers[j2],
    decreases attackers.len() - k,
{
    if k < attackers.len() {
        lemma_attack_check_ok(creatures, attackers, k + 1);
        assert forall|j1: int, j2: int|
            0 <= j1 < j2 < attackers.len() && k <= j2 implies attackers[j1] != attackers[j2] by {
            if j2 == k && attackers[j1] == attackers[j2] {
                assert(attackers.take(k)[j1] == attackers[k]);
            }
        }
    }
}

/// A declaration of distinct, untapped battlefield creatures passes the
/// attack check.
pub proof fn lemma_attack_check_all_ok(creatures: Seq<Creature>, attackers: Seq<usize>, k: int)
    requires
        0 <= k <= attackers.len(),
        forall|j: int|
            0 <= j < attackers.len() ==> #[trigger] attackers[j] < creatures.len()
                && !creatures[attackers[j] as int].tapped,
        attackers.no_duplicates(),
    ensures
        attack_check_from(creatures, attackers, k) is Ok,
    decreases attackers.len() - k,
{
    if k < attackers.len() {
        if attackers.take(k).contains(attackers[k]) {
            let w = choose|w: int| 0 <= w < k && attackers.take(k)[w] == attackers[k];
            assert(attackers[w] == attackers[k]);
        }
        lemma_attack_check_all_ok(creatures, attackers, k + 1);
    }
}

/// Validates an attack declaration and taps the declared creatures. On a
/// breach nothing is changed; on success a creature ends tapped exactly when
/// it was already tapped or is declared now.
#[verifier::loop_isolation(false)]
pub fn apply_attacks(current: &mut PlayerState, attackers: &Vec<usize>) -> (r: Result<
    (),
    ContractBreach,
>)
    requires
        old(current).wf(),
    ensures
        final(current).wf(),
        r == attack_check(old(current).creatures@, attackers@),
        r is Err ==> *final(current) == *old(current),
        r is Ok ==> {
            &&& final(current).creatures@.len() == old(current).creatures@.len()
            &&& forall|i: int|
                0 <= i < final(current).creatures@.len() ==> #[trigger] final(current).creatures@[i]
                    == old(current).creatures@[i].with_tapped(
                    old(current).creatures@[i].tapped || attackers@.contains(i as usize),
                )
            &&& final(current).player == old(current).player
            &&& final(current).deck@ == old(current).deck@
            &&& final(current).hand@ == old(current).hand@
            &&& final(current).num_lands == old(current).num_lands
            &&& final(current).life == old(current).life
            &&& final(current).gone == old(current).gone
        },
        r is Ok ==> attackers@.no_duplicates() && forall|j: int|
            0 <= j < attackers@.len() ==> #[trigger] attackers@[j] < old(current).creatures@.len(),
{
    let ghost cs = current.creatures@;
    let mut k: usize = 0;
    while k < attackers.len()
        invariant
            0 <= k <= attackers@.len(),
            attack_check(cs, attackers@) == attack_check_from(cs, attackers@, k as int),
            forall|j: int|
                0 <= j < k ==> #[trigger] attackers@[j] < cs.len()
                    && !cs[attackers@[j] as int].tapped,
            forall|j1: int, j2: int| 0 <= j1 < j2 < k ==> attackers@[j1] != attackers@[j2],
        decreases attackers@.len() - k,
    {
        let a = attackers[k];
        if a >= current.creatures.len() {
            return Err(ContractBreach::AttackerOutOfRange);
        }
        let mut dup = false;
        let mut j: usize = 0;
        while j < k
            invariant
                0 <= j <= k,
                dup ==> attackers@.take(k as int).contains(attackers@[k as int]),
                !dup ==> forall|j2: int| 0 <= j2 < j ==> attackers@[j2] != attackers@[k as int],
            decreases k - j,
        {
            if attackers[j] == a {
                proof {
                    assert(attackers@.take(k as int)[j as int] == attackers@[k as int]);
                }
                dup = true;
            }
            j += 1;
        }
        proof {
            if !dup {
                if attackers@.take(k as int).contains(attackers@[k as int]) {
                    let w = choose|w: int|
                        0 <= w < k && attackers@.take(k as int)[w] == attackers@[k as int];
                    assert(attackers@[w] == attackers@[k as int]);
                }
            }
        }
        if current.creatures[a].tapped || dup {
            return Err(ContractBreach::AttackerTapped);
        }
        k += 1;
    }
    proof {
        lemma_attack_check_ok(cs, attackers@, 0);
    }
    // All declared attackers are legal: tap them.
    let mut tapped: Vec<Creature> = Vec::new();
    let mut i: usize = 0;
    while i < current.creatures.len()
        invariant
            0 <= i <= current.creatures@.len(),
            *current == *old(current),
            tapped@.len() == i,
            forall|j: int|
                0 <= j < i ==> #[trigger] tapped@[j] == cs[j].with_tapped(
                    cs[j].tapped || attackers@.contains(j as usize),
                ),
        decreases current.creatures@.len() - i,
    {
        let c = current.creatures[i];
        let declared = contains_index(attackers, i);
        tapped.push(Creature { cmc: c.cmc, pow: c.pow, tou: c.tou, tapped: c.tapped || declared });
        i += 1;
    }
    current.creatures = tapped;
    Ok(())
}

/// Runs one player's turn: untap, draw (unless the play/draw rule skips it),
/// attack and block declaration, combat, main phase, and discard. The active
/// player is `current`; `other` defends. A draw from an empty library ends
/// the match at once in the opponent's favour, and lethal damage ends it in
/// the active player's favour before any later phase runs. No decision of the
/// closed player set can breach, so the turn always produces an outcome.
#[verifier::loop_isolation(false)]
#[verifier::rlimit(100)]
pub fn run_turn(
    current: &mut PlayerState,
    other: &mut PlayerState,
    num_turn: u64,
    skip_draw: bool,
) -> (r: Result<TurnOutcome, ContractBreach>)
    requires
        old(current).wf(),
        old(other).wf(),
        old(current).stocked(),
        old(other).stocked(),
        old(other).life > 0,
    ensures
        final(current).wf(),
        final(other).wf(),
        final(current).stocked(),
        final(other).stocked(),
        final(current).player == old(current).player,
        final(other).player == old(other).player,
        final(current).life == old(current).life,
        final(other).life <= old(other).life,
        final(other).deck@ == old(other).deck@,
        skip_draw ==> final(current).deck@ == old(current).deck@,
        !skip_draw && old(current).deck@.len() > 0 ==> final(current).deck@ == old(
            current,
        ).deck@.drop_last(),
        !skip_draw && old(current).deck@.len() == 0 ==> final(current).deck@ == old(current).deck@,
        r is Ok,
        (r == Ok::<TurnOutcome, ContractBreach>(TurnOutcome::OpponentWinsByDecking)) <==> (!skip_draw
            && old(current).deck@.len() == 0),
        r == Ok::<TurnOutcome, ContractBreach>(TurnOutcome::OpponentWinsByDecking)
            ==> *final(other) == *old(other) && final(current).hand@ == old(current).hand@,
        r matches Ok(o) ==> ((o is CurrentWinsByLife) <==> final(other).life <= 0),
        old(current).player is LandsRule ==> {
            &&& final(other).life == old(other).life
            &&& final(other).creatures@ == old(other).creatures@
            &&& final(other).hand@ == old(other).hand@
            &&& final(current).creatures@.len() == old(current).creatures@.len()
            &&& forall|i: int|
                0 <= i < final(current).creatures@.len() ==> #[trigger] final(current).creatures@[i]
                    == old(current).creatures@[i].with_tapped(false)
        },
{
    let ghost c0 = current.creatures@;
    current.untap();
    if !skip_draw {
        let draw_result = current.draw();
        if let DrawResult::Empty = draw_result {
            return Ok(TurnOutcome::OpponentWinsByDecking);
        }
    }
    current.sort_hand();
    // The active player declares attackers, which taps them. Every declared
    // index names a distinct creature, untapped since the untap step, so the
    // declaration is legal.
    let view = current.view_of(other, num_turn);
    let attackers = current.player.attack(view);
    proof {
        if !(current.player is LandsRule) {
            assert forall|j: int| 0 <= j < attackers@.len() implies #[trigger] attackers@[j]
                < current.creatures@.len() && !current.creatures@[attackers@[j] as int].tapped by {
                assert(attackers@[j] == j);
                assert(current.creatures@[j] == c0[j].with_tapped(false));
            }
        }
        lemma_attack_check_all_ok(current.creatures@, attackers@, 0);
    }
    let ghost cs_untapped = current.creatures@;
    match apply_attacks(current, &attackers) {
        Ok(()) => {},
        Err(e) => {
            return Err(e);
        },
    }
    // The defender assigns blockers; right after declaration, the tapped
    // attacking creatures are exactly the declared attackers, and the
    // defender's decision is legal by its own contract.
    let oview = other.view_of(current, num_turn);
    let blocking_pairs = other.player.block(oview, &attackers);
    proof {
        lemma_block_check_all_ok(
            blocking_pairs@,
            current.creatures@.len() as int,
            other.creatures@,
            attackers@,
            0,
        );
        if current.player is LandsRule {
            if blocking_pairs@.len() > 0 {
                assert(attackers@.contains(blocking_pairs@[0].1));
            }
        }
    }
    let arrangement = match crate::blocks::group_blocks(
        &blocking_pairs,
        current.creatures.len(),
        &other.creatures,
        &attackers,
    ) {
        Ok(g) => g,
        Err(e) => {
            return Err(e);
        },
    };
    // The active player sequences each attacker's blockers; both resequencing
    // strategies cover exactly the proposed assignment.
    let aview = current.view_of(other, num_turn);
    let ordered = current.player.order_blockers(aview, &arrangement);
    proof {
        broadcast use vstd::seq_lib::group_to_multiset_ensures;

        assert forall|k: int| 0 <= k < ordered@.len() implies key_appears(
            arrangement@,
            (#[trigger] ordered@[k]).0,
        ) by {
            lemma_key_appears_at(arrangement@, k);
        }
        assert(ordering_keys_ok(arrangement@, ordered@));
        assert forall|k: int|
            0 <= k < ordered@.len() implies ({
                let base = lookup(arrangement@, (#[trigger] ordered@[k]).0);
                &&& ordered@[k].1@.len() == base.len()
                &&& ordered@[k].1@.no_duplicates()
                &&& (forall|b: int|
                    0 <= b < ordered@[k].1@.len() ==> base.contains(ordered@[k].1@[b]))
                &&& (forall|b: int| 0 <= b < base.len() ==> ordered@[k].1@.contains(#[trigger] base[b]))
            }) by {
            lemma_lookup_found(arrangement@, arrangement@[k].0, k);
            let base = lookup(arrangement@, ordered@[k].0);
            assert(base == arrangement@[k].1@);
            let entry = ordered@[k].1@;
            if current.player is LandsSuck {
                assert(entry == sort_by_tou(base, other.creatures@));
                lemma_sort_by_tou_multiset(base, other.creatures@);
                assert(entry.to_multiset().len() == entry.len());
                assert(base.to_multiset().len() == base.len());
                assert(base.no_duplicates());
                base.lemma_multiset_has_no_duplicates();
                entry.lemma_multiset_has_no_duplicates_conv();
                assert(entry.no_duplicates());
                assert forall|b: int| 0 <= b < entry.len() implies base.contains(
                    #[trigger] entry[b],
                ) by {
                    assert(entry.contains(entry[b]));
                    assert(entry.to_multiset().count(entry[b]) > 0);
                    assert(base.to_multiset().count(entry[b]) > 0);
                }
                assert forall|b: int| 0 <= b < base.len() implies entry.contains(
                    #[trigger] base[b],
                ) by {
                    assert(base.contains(base[b]));
                    assert(base.to_multiset().count(base[b]) > 0);
                    assert(entry.to_multiset().count(base[b]) > 0);
                }
            } else {
                assert(entry == base);
                assert forall|b: int| 0 <= b < base.len() implies entry.contains(
                    #[trigger] base[b],
                ) by {
                    assert(entry[b] == base[b]);
                }
            }
        }
        assert(ordering_lists_ok(arrangement@, ordered@));
    }
    let ordered = match crate::blocks::validate_ordering(
        &arrangement,
        ordered,
        current.creatures.len(),
        &other.creatures,
    ) {
        Ok(g) => g,
        Err(e) => {
            return Err(e);
        },
    };
    let all_blockers = crate::blocks::append_unblocked(
        ordered,
        &attackers,
        current.creatures.len(),
        &other.creatures,
    );
    // Combat damage: compute, apply to the defender's life, remove the dead.
    let outcome = resolve_combat(&current.creatures, &other.creatures, &all_blockers);
    proof {
        if current.player is LandsRule {
            // No attackers: the assignment is empty and combat changes
            // nothing.
            assert(all_blockers@.len() == 0);
            assert(spec_life_loss(all_blockers@, current.creatures@) == 0);
            assert(outcome.dead_attackers@.len() == 0);
            assert(outcome.dead_blockers@.len() == 0);
            lemma_remove_indices_none(current.creatures@, outcome.dead_attackers@);
            lemma_remove_indices_none(other.creatures@, outcome.dead_blockers@);
        }
        assert(dead_check(current.creatures@.len() as int, outcome.dead_attackers@) is Ok);
        assert(dead_check(other.creatures@.len() as int, outcome.dead_blockers@) is Ok);
    }
    other.life = other.life - (outcome.life_loss as i64);
    match current.die(outcome.dead_attackers) {
        Ok(()) => {},
        Err(e) => {
            return Err(e);
        },
    }
    match other.die(outcome.dead_blockers) {
        Ok(()) => {},
        Err(e) => {
            return Err(e);
        },
    }
    if other.life <= 0 {
        return Ok(TurnOutcome::CurrentWinsByLife);
    }
    // Main phase: play a land, cast creatures. Each player's decision is
    // legal for the one card its deck is built from.
    let view = current.view_of(other, num_turn);
    let plays = current.player.main_phase(view);
    proof {
        lemma_first_land_index(current.hand@);
        if current.player is LandsRule {
            if plays.land {
                assert(deck_card_ok(current.player, current.hand@[0]));
                assert(first_land_index(current.hand@) == 0);
                if exists|i: int|
                    first_land_index(current.hand@) < i < current.hand@.len() && !((
                    #[trigger] current.hand@[i]) is Land) {
                    let w = choose|i: int|
                        first_land_index(current.hand@) < i < current.hand@.len() && !((
                        #[trigger] current.hand@[i]) is Land);
                    assert(deck_card_ok(current.player, current.hand@[w]));
                }
            }
        } else {
            assert forall|k: int| 0 <= k < plays.cards@.len() implies #[trigger] plays.cards@[k]
                < current.hand@.len() && current.hand@[plays.cards@[k] as int] is Creature by {
                assert(plays.cards@[k] == k);
                assert(deck_card_ok(current.player, current.hand@[k]));
            }
            lemma_check_casts_all_ok(current.hand@, plays.cards@);
            assert forall|k: int| 0 <= k < plays.cards@.len() implies cost_at(
                current.hand@,
                #[trigger] plays.cards@[k],
            ) == 0 by {
                assert(plays.cards@[k] == k);
                assert(deck_card_ok(current.player, current.hand@[k]));
            }
            lemma_total_cmc_zero(current.hand@, plays.cards@);
            assert(plays.cards@.no_duplicates());
        }
        assert(main_phase_check(current.hand@, current.num_lands, plays.land, plays.cards@) is Ok);
    }
    match current.handle_main_phase_plays(plays) {
        Ok(()) => {},
        Err(e) => {
            return Err(e);
        },
    }
    // Discard down to seven, when over; the decision names exactly the
    // excess, each position once.
    if current.hand.len() > 7 {
        let view = current.view_of(other, num_turn);
        let discard_indices = current.player.discard(view);
        proof {
            assert forall|j1: int, j2: int|
                0 <= j1 < j2 < discard_indices@.len() implies discard_indices@[j1]
                != discard_indices@[j2] by {
                assert(discard_indices@[j1] == j1 && discard_indices@[j2] == j2);
            }
            assert(discard_check(current.hand@.len() as int, discard_indices@) is Ok);
        }
        match current.handle_discard(discard_indices) {
            Ok(()) => {},
            Err(e) => {
                return Err(e);
            },
        }
    }
    Ok(TurnOutcome::Continue)
}

/// The two sides of a match, the turn counter, and whose turn it is.
pub struct GameState {
    pub state0: PlayerState,
    pub state1: PlayerState,
    pub num_turn: u64,
    pub current_player_index: usize,
}

impl GameState {
    /// A freshly created side: full library, nothing drawn or played yet.
    pub open spec fn fresh(s: PlayerState) -> bool {
        &&& s.wf()
        &&& s.stocked()
        &&& s.deck@.len() == 60
        &&& s.hand@.len() == 0
        &&& s.creatures@.len() == 0
        &&& s.num_lands == 0
        &&& s.life == 20
        &&& s.gone@ == 0
    }

    /// A game ready to start: both sides fresh, turn one, first player active.
    pub open spec fn start_wf(&self) -> bool {
        &&& GameState::fresh(self.state0)
        &&& GameState::fresh(self.state1)
        &&& self.num_turn == 1
        &&& self.current_player_index == 0
    }

    /// Sets up a match with `player1` going first.
    pub fn new(player1: Player, player2: Player) -> (r: GameState)
        ensures
            r.start_wf(),
            r.state0.player == player1,
            r.state1.player == player2,
    {
        GameState {
            state0: PlayerState::new(player1),
            state1: PlayerState::new(player2),
            num_turn: 1,
            current_player_index: 0,
        }
    }

    /// Runs the match to its terminal state: both players take the mulligan
    /// procedure, then turns alternate, with the turn counter advancing each
    /// time play returns to the first player, until a player wins by decking
    /// the opponent's library or by bringing the opponent's life to zero or
    /// below. No decision-maker of the closed player set can breach, so a
    /// match always produces a winner; two land decks in particular never
    /// fight, and the second player runs out of cards on turn 54.
    #[verifier::loop_isolation(false)]
    #[verifier::rlimit(100)]
    pub fn play(&mut self) -> (r: Result<MatchResult, ContractBreach>)
        requires
            old(self).start_wf(),
        ensures
            final(self).state0.wf(),
            final(self).state1.wf(),
            final(self).state0.player == old(self).state0.player,
            final(self).state1.player == old(self).state1.player,
            r is Ok,
            r matches Ok(m) ==> {
                &&& m.winner is Player1 && m.cause is LifeLoss ==> final(self).state1.life <= 0
                &&& m.winner is Player2 && m.cause is LifeLoss ==> final(self).state0.life <= 0
                &&& m.winner is Player1 && m.cause is DeckedOut ==> final(self).state1.deck@.len()
                    == 0
                &&& m.winner is Player2 && m.cause is DeckedOut ==> final(self).state0.deck@.len()
                    == 0
                &&& m.winner is Player1 ==> final(self).state0.life > 0
                &&& m.winner is Player2 ==> final(self).state1.life > 0
            },
            old(self).state0.player is LandsRule && old(self).state1.player is LandsRule ==> r
                == Ok::<MatchResult, ContractBreach>(
                MatchResult { winner: Winner::Player1, cause: MatchCause::DeckedOut },
            ) && final(self).num_turn == 54 && final(self).state0.life == 20 && final(self).state1.life == 20,
    {
        let ghost lands_mirror = self.state0.player is LandsRule && self.state1.player
            is LandsRule;
        match self.state0.do_muligans(true) {
            Ok(_) => {},
            Err(e) => {
                return Err(e);
            },
        }
        match self.state1.do_muligans(false) {
            Ok(_) => {},
            Err(e) => {
                return Err(e);
            },
        }
        loop
            invariant
                self.state0.wf(),
                self.state1.wf(),
                self.state0.stocked(),
                self.state1.stocked(),
                self.state0.life > 0,
                self.state1.life > 0,
                self.state0.player == old(self).state0.player,
                self.state1.player == old(self).state1.player,
                self.current_player_index <= 1,
                1 <= self.num_turn,
                self.num_turn + self.state1.deck@.len() <= 62,
                self.num_turn == 1 && self.current_player_index == 0 ==> self.state0.deck@.len()
                    <= 60,
                lands_mirror == (self.state0.player is LandsRule && self.state1.player
                    is LandsRule),
                // In the lands mirror nobody ever attacks or casts: only the
                // libraries shrink, one card per completed half-turn.
                lands_mirror ==> self.state0.life == 20 && self.state1.life == 20 && self.num_turn
                    <= 54 && self.state1.deck@.len() == 54 - self.num_turn && (
                self.current_player_index == 0 ==> self.state0.deck@.len() == (
                if self.num_turn == 1 {
                    53int
                } else {
                    55 - self.num_turn
                })) && (self.current_player_index == 1 ==> self.state0.deck@.len() == 54
                    - self.num_turn),
            decreases 2 * (self.state0.deck@.len() + self.state1.deck@.len()) + (
            if self.num_turn == 1 && self.current_player_index == 0 {
                1int
            } else {
                0int
            }),
        {
            let skip = self.num_turn == 1 && self.current_player_index == 0;
            if self.current_player_index == 0 {
                match run_turn(&mut self.state0, &mut self.state1, self.num_turn, skip) {
                    Ok(TurnOutcome::Continue) => {},
                    Ok(TurnOutcome::CurrentWinsByLife) => {
                        return Ok(
                            MatchResult { winner: Winner::Player1, cause: MatchCause::LifeLoss },
                        );
                    },
                    Ok(TurnOutcome::OpponentWinsByDecking) => {
                        return Ok(
                            MatchResult { winner: Winner::Player2, cause: MatchCause::DeckedOut },
                        );
                    },
                    Err(e) => {
                        return Err(e);
                    },
                }
            } else {
                match run_turn(&mut self.state1, &mut self.state0, self.num_turn, false) {
                    Ok(TurnOutcome::Continue) => {},
                    Ok(TurnOutcome::CurrentWinsByLife) => {
                        return Ok(
                            MatchResult { winner: Winner::Player2, cause: MatchCause::LifeLoss },
                        );
                    },
                    Ok(TurnOutcome::OpponentWinsByDecking) => {
                        return Ok(
                            MatchResult { winner: Winner::Player1, cause: MatchCause::DeckedOut },
                        );
                    },
                    Err(e) => {
                        return Err(e);
                    },
                }
            }
            self.current_player_index = 1 - self.current_player_index;
            if self.current_player_index == 0 {
                self.num_turn = self.num_turn + 1;
            }
        }
    }

    /// Sets up a match with the first player chosen by a coin flip.
    pub fn new_with_flip(player1: Player, player2: Player) -> (r: GameState)
        ensures
            r.start_wf(),
            (r.state0.player == player1 && r.state1.player == player2) || (r.state0.player
                == player2 && r.state1.player == player1),
    {
        let player1_first = crate::rng::coin_flip();
        if player1_first {
            GameState::new(player1, player2)
        } else {
            GameState::new(player2, player1)
        }
    }
}

} // verus!
