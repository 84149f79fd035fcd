use vanilla_duel::player_state::ContractBreach;
use vanilla_duel::player_state::PlayerState;
use vanilla_duel::strategy::Player;

#[test]
fn every_player_here_keeps_its_first_hand() {
    let mut state = PlayerState::new(Player::LandsSuck);
    let muls = state.do_muligans(true).expect("no breach");
    assert_eq!(muls, 0);
    assert_eq!(state.hand.len(), 7);
    assert_eq!(state.deck.len(), 53);
}

#[test]
fn keep_except_bottoms_exactly_the_named_cards() {
    // After two mulligans, keeping with two bottomed cards leaves 7 - 2.
    let mut state = PlayerState::new(Player::LandsSuck);
    for _ in 0..7 {
        state.draw();
    }
    let r = state.apply_keep_except(&vec![1, 4], 2);
    assert_eq!(r, Ok(()));
    assert_eq!(state.hand.len(), 5);
    assert_eq!(state.deck.len(), 55);
}

#[test]
fn keep_except_with_no_mulligans_keeps_all_seven() {
    let mut state = PlayerState::new(Player::LandsRule);
    for _ in 0..7 {
        state.draw();
    }
    assert_eq!(state.apply_keep_except(&vec![], 0), Ok(()));
    assert_eq!(state.hand.len(), 7);
    assert_eq!(state.deck.len(), 53);
}

#[test]
fn keep_except_with_the_wrong_count_is_a_breach() {
    let mut state = PlayerState::new(Player::LandsSuck);
    for _ in 0..7 {
        state.draw();
    }
    assert_eq!(state.apply_keep_except(&vec![0], 2), Err(ContractBreach::MulliganWrongCount));
    assert_eq!(state.hand.len(), 7);
}

#[test]
fn keep_except_outside_the_hand_is_a_breach() {
    let mut state = PlayerState::new(Player::LandsSuck);
    for _ in 0..7 {
        state.draw();
    }
    assert_eq!(state.apply_keep_except(&vec![7], 1), Err(ContractBreach::MulliganIndexOutOfRange));
}

#[test]
fn keep_except_naming_a_card_twice_is_a_breach() {
    let mut state = PlayerState::new(Player::LandsSuck);
    for _ in 0..7 {
        state.draw();
    }
    assert_eq!(
        state.apply_keep_except(&vec![3, 3], 2),
        Err(ContractBreach::MulliganDuplicateIndex)
    );
}
