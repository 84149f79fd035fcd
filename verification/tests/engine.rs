use vanilla_duel::engine::apply_attacks;
use vanilla_duel::engine::run_turn;
use vanilla_duel::engine::GameState;
use vanilla_duel::engine::MatchCause;
use vanilla_duel::engine::TurnOutcome;
use vanilla_duel::engine::Winner;
use vanilla_duel::player_state::ContractBreach;
use vanilla_duel::player_state::PlayerState;
use vanilla_duel::strategy::MainPhasePlays;
use vanilla_duel::strategy::Player;

fn state_with_creatures(n: usize) -> PlayerState {
    let mut state = PlayerState::new(Player::LandsSuck);
    for _ in 0..n {
        state.draw();
    }
    let cards: Vec<usize> = (0..n).collect();
    state.handle_main_phase_plays(MainPhasePlays { land: false, cards }).unwrap();
    state
}

#[test]
fn attacking_with_a_tapped_creature_fails_without_mutation() {
    let mut state = state_with_creatures(2);
    state.creatures[0].tapped = true;
    let before = state.creatures.clone();
    let r = apply_attacks(&mut state, &vec![0]);
    assert_eq!(r, Err(ContractBreach::AttackerTapped));
    assert_eq!(state.creatures, before);
}

#[test]
fn attacking_twice_with_the_same_creature_is_a_breach() {
    let mut state = state_with_creatures(2);
    let r = apply_attacks(&mut state, &vec![1, 1]);
    assert_eq!(r, Err(ContractBreach::AttackerTapped));
    assert!(!state.creatures[1].tapped);
}

#[test]
fn attacking_with_a_missing_creature_is_a_breach() {
    let mut state = state_with_creatures(1);
    assert_eq!(apply_attacks(&mut state, &vec![1]), Err(ContractBreach::AttackerOutOfRange));
}

#[test]
fn declared_attackers_end_tapped() {
    let mut state = state_with_creatures(3);
    assert_eq!(apply_attacks(&mut state, &vec![0, 2]), Ok(()));
    assert!(state.creatures[0].tapped);
    assert!(!state.creatures[1].tapped);
    assert!(state.creatures[2].tapped);
}

#[test]
fn drawing_from_an_empty_library_ends_the_turn_with_a_decking_loss() {
    let mut current = PlayerState::new(Player::LandsRule);
    for _ in 0..60 {
        current.draw();
    }
    current.hand.truncate(7);
    let mut other = PlayerState::new(Player::LandsRule);
    let r = run_turn(&mut current, &mut other, 2, false);
    assert_eq!(r, Ok(TurnOutcome::OpponentWinsByDecking));
    assert_eq!(other.life, 20);
}

#[test]
fn lethal_damage_ends_the_turn_at_once() {
    // Seven 1/1 attackers against an undefended player at 5 life win the
    // match during combat; the main phase never runs.
    let mut current = state_with_creatures(7);
    let mut other = PlayerState::new(Player::LandsRule);
    other.life = 5;
    let hand_before = current.hand.len();
    let r = run_turn(&mut current, &mut other, 3, false);
    assert_eq!(r, Ok(TurnOutcome::CurrentWinsByLife));
    assert_eq!(other.life, 5 - 7);
    // One card was drawn, none was cast: the turn stopped before the main
    // phase.
    assert_eq!(current.hand.len(), hand_before + 1);
}

#[test]
fn nonlethal_combat_continues_the_turn() {
    let mut current = state_with_creatures(2);
    let mut other = PlayerState::new(Player::LandsRule);
    let r = run_turn(&mut current, &mut other, 3, false);
    assert_eq!(r, Ok(TurnOutcome::Continue));
    assert_eq!(other.life, 18);
    assert!(other.life > 0);
}

#[test]
fn decks_against_each_other_run_out_after_fifty_three_draws() {
    // Two players that never cast or attack: the second player draws its
    // 53rd and last card on turn 53 and loses attempting its turn-54 draw.
    let mut game = GameState::new(Player::LandsRule, Player::LandsRule);
    let r = game.play().expect("no breach");
    assert_eq!(r.winner, Winner::Player1);
    assert_eq!(r.cause, MatchCause::DeckedOut);
    assert_eq!(game.num_turn, 54);
    assert_eq!(game.state1.deck.len(), 0);
    assert_eq!(game.state0.life, 20);
    assert_eq!(game.state1.life, 20);
}

#[test]
fn memnite_rush_beats_a_land_deck() {
    let mut game = GameState::new(Player::LandsSuck, Player::LandsRule);
    let r = game.play().expect("no breach");
    assert_eq!(r.winner, Winner::Player1);
    assert_eq!(r.cause, MatchCause::LifeLoss);
    assert_eq!(game.num_turn, 4);
    assert_eq!(game.state1.life, -4);
}

#[test]
fn land_deck_loses_the_race_on_the_draw() {
    let mut game = GameState::new(Player::LandsRule, Player::LandsSuck);
    let r = game.play().expect("no breach");
    assert_eq!(r.winner, Winner::Player2);
    assert_eq!(r.cause, MatchCause::LifeLoss);
    assert_eq!(game.num_turn, 4);
    assert_eq!(game.state0.life, -7);
}

#[test]
fn mutual_memnite_races_favour_the_first_player() {
    let mut game = GameState::new(Player::MemnitesDontBlock, Player::MemnitesDontBlock);
    let r = game.play().expect("no breach");
    assert_eq!(r.winner, Winner::Player1);
    assert_eq!(r.cause, MatchCause::LifeLoss);
}

#[test]
fn blocking_trades_lead_to_a_decking_finish() {
    // Two blocking players trade creatures one for one every turn and no
    // damage ever lands: the match ends by decking, lives untouched.
    let mut game = GameState::new(Player::LandsSuck, Player::LandsSuck);
    let r = game.play().expect("no breach");
    assert_eq!(r.cause, MatchCause::DeckedOut);
    assert_eq!(game.state0.life, 20);
    assert_eq!(game.state1.life, 20);
    assert_eq!(r.winner, Winner::Player1);
}

#[test]
fn coin_flip_seats_both_players() {
    let game = GameState::new_with_flip(Player::LandsSuck, Player::LandsRule);
    let seats = (game.state0.player, game.state1.player);
    assert!(
        seats == (Player::LandsSuck, Player::LandsRule) || seats == (
            Player::LandsRule,
            Player::LandsSuck,
        )
    );
}
