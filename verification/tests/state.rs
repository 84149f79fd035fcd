use vanilla_duel::cards::Card;
use vanilla_duel::cards::CreatureCard;
use vanilla_duel::player_state::ContractBreach;
use vanilla_duel::player_state::DrawResult;
use vanilla_duel::player_state::PlayerState;
use vanilla_duel::strategy::MainPhasePlays;
use vanilla_duel::strategy::Player;

fn fresh(player: Player) -> PlayerState {
    PlayerState::new(player)
}

fn memnite() -> Card {
    Card::Creature(CreatureCard::try_new(0, 1, 1).unwrap())
}

#[test]
fn new_state_has_sixty_cards_and_twenty_life() {
    let state = fresh(Player::LandsSuck);
    assert_eq!(state.deck.len(), 60);
    assert_eq!(state.hand.len(), 0);
    assert_eq!(state.creatures.len(), 0);
    assert_eq!(state.num_lands, 0);
    assert_eq!(state.life, 20);
}

#[test]
fn draw_moves_the_top_card() {
    let mut state = fresh(Player::LandsRule);
    assert_eq!(state.draw(), DrawResult::Nonempty);
    assert_eq!(state.deck.len(), 59);
    assert_eq!(state.hand.len(), 1);
    assert_eq!(state.hand[0], Card::Land);
}

#[test]
fn draw_from_empty_library_reports_empty_and_changes_nothing() {
    let mut state = fresh(Player::LandsSuck);
    for _ in 0..60 {
        assert_eq!(state.draw(), DrawResult::Nonempty);
    }
    assert_eq!(state.deck.len(), 0);
    assert_eq!(state.hand.len(), 60);
    assert_eq!(state.draw(), DrawResult::Empty);
    assert_eq!(state.deck.len(), 0);
    assert_eq!(state.hand.len(), 60);
}

#[test]
fn card_counts_are_conserved_across_operations() {
    // Library + hand + battlefield always account for the 60 cards.
    let mut state = fresh(Player::LandsSuck);
    for _ in 0..7 {
        state.draw();
    }
    assert_eq!(state.deck.len() + state.hand.len(), 60);
    let plays = MainPhasePlays { land: false, cards: vec![0, 1, 2] };
    state.handle_main_phase_plays(plays).unwrap();
    assert_eq!(state.deck.len() + state.hand.len() + state.creatures.len(), 60);
    state.die(vec![0, 2]).unwrap();
    // Two creatures left play; with them counted, the total still holds.
    assert_eq!(state.deck.len() + state.hand.len() + state.creatures.len() + 2, 60);
}

#[test]
fn sort_hand_puts_lands_last_and_keeps_relative_order() {
    let mut state = fresh(Player::LandsRule);
    let big = Card::Creature(CreatureCard::try_new(10, 16, 16).unwrap());
    state.hand = vec![Card::Land, memnite(), Card::Land, big, memnite()];
    state.sort_hand();
    assert_eq!(state.hand, vec![memnite(), big, memnite(), Card::Land, Card::Land]);
}

#[test]
fn untap_untaps_every_creature() {
    let mut state = fresh(Player::LandsSuck);
    for _ in 0..3 {
        state.draw();
    }
    state.handle_main_phase_plays(MainPhasePlays { land: false, cards: vec![0, 1, 2] }).unwrap();
    state.creatures[0].tapped = true;
    state.creatures[2].tapped = true;
    state.untap();
    assert!(state.creatures.iter().all(|c| !c.tapped));
}

#[test]
fn playing_a_land_consumes_the_first_land() {
    let mut state = fresh(Player::LandsRule);
    state.draw();
    state.draw();
    let r = state.handle_main_phase_plays(MainPhasePlays { land: true, cards: vec![] });
    assert_eq!(r, Ok(()));
    assert_eq!(state.num_lands, 1);
    assert_eq!(state.hand.len(), 1);
}

#[test]
fn playing_a_land_without_one_is_a_breach() {
    let mut state = fresh(Player::LandsSuck);
    state.draw();
    let r = state.handle_main_phase_plays(MainPhasePlays { land: true, cards: vec![] });
    assert_eq!(r, Err(ContractBreach::LandNotInHand));
    assert_eq!(state.hand.len(), 1);
}

#[test]
fn a_creature_after_the_land_is_a_breach() {
    let mut state = fresh(Player::LandsRule);
    state.hand = vec![memnite(), Card::Land, memnite()];
    let r = state.handle_main_phase_plays(MainPhasePlays { land: true, cards: vec![] });
    assert_eq!(r, Err(ContractBreach::CreatureAfterLand));
}

#[test]
fn casting_beyond_available_mana_is_a_breach() {
    let mut state = fresh(Player::LandsRule);
    state.hand = vec![Card::Creature(CreatureCard::try_new(2, 3, 3).unwrap())];
    let r = state.handle_main_phase_plays(MainPhasePlays { land: false, cards: vec![0] });
    assert_eq!(r, Err(ContractBreach::NotEnoughMana));
    // With two lands in play the same cast resolves.
    state.num_lands = 2;
    let r = state.handle_main_phase_plays(MainPhasePlays { land: false, cards: vec![0] });
    assert_eq!(r, Ok(()));
    assert_eq!(state.creatures.len(), 1);
    assert_eq!(state.hand.len(), 0);
}

#[test]
fn casting_a_land_position_is_a_breach() {
    let mut state = fresh(Player::LandsRule);
    state.hand = vec![Card::Land];
    let r = state.handle_main_phase_plays(MainPhasePlays { land: false, cards: vec![0] });
    assert_eq!(r, Err(ContractBreach::CastNotACreature));
}

#[test]
fn casting_a_missing_position_is_a_breach() {
    let mut state = fresh(Player::LandsSuck);
    let r = state.handle_main_phase_plays(MainPhasePlays { land: false, cards: vec![0] });
    assert_eq!(r, Err(ContractBreach::CastIndexOutOfRange));
}

#[test]
fn casting_the_same_position_twice_is_a_breach() {
    let mut state = fresh(Player::LandsSuck);
    state.draw();
    let r = state.handle_main_phase_plays(MainPhasePlays { land: false, cards: vec![0, 0] });
    assert_eq!(r, Err(ContractBreach::CastDuplicateIndex));
}

#[test]
fn discard_keeps_exactly_seven() {
    let mut state = fresh(Player::LandsSuck);
    for _ in 0..9 {
        state.draw();
    }
    let r = state.handle_discard(vec![0, 1]);
    assert_eq!(r, Ok(()));
    assert_eq!(state.hand.len(), 7);
}

#[test]
fn discard_with_the_wrong_count_is_a_breach() {
    let mut state = fresh(Player::LandsSuck);
    for _ in 0..9 {
        state.draw();
    }
    assert_eq!(state.handle_discard(vec![0]), Err(ContractBreach::DiscardWrongCount));
    assert_eq!(state.hand.len(), 9);
}

#[test]
fn discard_naming_a_position_twice_is_a_breach() {
    let mut state = fresh(Player::LandsSuck);
    for _ in 0..9 {
        state.draw();
    }
    assert_eq!(state.handle_discard(vec![1, 1]), Err(ContractBreach::DiscardIndicesInvalid));
}

#[test]
fn dead_creatures_leave_the_battlefield_in_place() {
    let mut state = fresh(Player::LandsSuck);
    for _ in 0..3 {
        state.draw();
    }
    state.handle_main_phase_plays(MainPhasePlays { land: false, cards: vec![0, 1, 2] }).unwrap();
    state.creatures[1].tapped = true;
    let r = state.die(vec![0]);
    assert_eq!(r, Ok(()));
    assert_eq!(state.creatures.len(), 2);
    assert!(state.creatures[0].tapped);
}

#[test]
fn dying_twice_or_out_of_range_is_a_breach() {
    let mut state = fresh(Player::LandsSuck);
    state.draw();
    state.handle_main_phase_plays(MainPhasePlays { land: false, cards: vec![0] }).unwrap();
    assert_eq!(state.die(vec![0, 0]), Err(ContractBreach::DeadIndicesInvalid));
    assert_eq!(state.die(vec![1]), Err(ContractBreach::DeadIndicesInvalid));
    assert_eq!(state.creatures.len(), 1);
}

#[test]
fn view_reflects_both_sides() {
    let mut state = fresh(Player::LandsSuck);
    let other = fresh(Player::LandsRule);
    state.draw();
    let view = state.view_of(&other, 3);
    assert_eq!(view.num_turn, 3);
    assert_eq!(view.hand.len(), 1);
    assert_eq!(view.deck_size, 59);
    assert_eq!(view.oth_deck_size, 60);
    assert_eq!(view.oth_hand_size, 0);
    assert_eq!(view.oth_lands, 0);
}
