use vanilla_duel::cards::Creature;
use vanilla_duel::cards::CreatureCard;
use vanilla_duel::combat::resolve_combat;

fn creature(cmc: u64, pow: u64, tou: u64) -> Creature {
    Creature::new(&CreatureCard::try_new(cmc, pow, tou).expect("on the allow-list"))
}

#[test]
fn single_blocker_dies_attacker_survives() {
    // Attacker power 5, toughness 4; blocker toughness 3, power 3: the
    // blocker dies, and the attacker survives since 3 < 4.
    let attackers = vec![creature(3, 5, 4)];
    let defenders = vec![creature(2, 3, 3)];
    let assignment = vec![(0usize, vec![0usize])];
    let outcome = resolve_combat(&attackers, &defenders, &assignment);
    assert_eq!(outcome.life_loss, 0);
    assert_eq!(outcome.dead_blockers, vec![0]);
    assert_eq!(outcome.dead_attackers, Vec::<usize>::new());
}

#[test]
fn blocker_power_meeting_toughness_kills_attacker() {
    // Attacker 5/4 blocked by 4/5: a tie consumes the budget exactly, so
    // the blocker dies (5 <= 5), and the attacker dies too (4 >= 4).
    let attackers = vec![creature(3, 5, 4)];
    let defenders = vec![creature(3, 4, 5)];
    let assignment = vec![(0usize, vec![0usize])];
    let outcome = resolve_combat(&attackers, &defenders, &assignment);
    assert_eq!(outcome.life_loss, 0);
    assert_eq!(outcome.dead_blockers, vec![0]);
    assert_eq!(outcome.dead_attackers, vec![0]);
}

#[test]
fn blocker_toughness_above_power_survives() {
    // Attacker 2/5 blocked by 1/5: the blocker's toughness 5 exceeds the
    // attacker's power 2, so the blocker lives; its power 1 is below the
    // attacker's toughness 5, so the attacker lives too.
    let attackers = vec![creature(2, 1, 5)];
    let defenders = vec![creature(2, 1, 5)];
    let assignment = vec![(0usize, vec![0usize])];
    let outcome = resolve_combat(&attackers, &defenders, &assignment);
    assert_eq!(outcome.life_loss, 0);
    assert_eq!(outcome.dead_blockers, Vec::<usize>::new());
    assert_eq!(outcome.dead_attackers, Vec::<usize>::new());
}

#[test]
fn power_two_kills_two_ordered_one_toughness_blockers() {
    // Attacker power 2 against two ordered blockers of toughness 1 each:
    // both die, the budget is spent exactly; their combined power 2 meets
    // the attacker's toughness 2, so the attacker dies too.
    let attackers = vec![creature(1, 2, 2)];
    let defenders = vec![creature(0, 1, 1), creature(0, 1, 1)];
    let assignment = vec![(0usize, vec![0usize, 1usize])];
    let outcome = resolve_combat(&attackers, &defenders, &assignment);
    assert_eq!(outcome.life_loss, 0);
    assert_eq!(outcome.dead_blockers, vec![0, 1]);
    assert_eq!(outcome.dead_attackers, vec![0]);
}

#[test]
fn budget_runs_out_in_listed_order() {
    // Attacker power 5 against ordered blockers of toughness 3 then 5: the
    // first dies (3 <= 5), the second survives (5 > 2 left).
    let attackers = vec![creature(5, 10, 10)];
    let defenders = vec![creature(2, 3, 3), creature(2, 1, 5)];
    let assignment_one = vec![(0usize, vec![0usize, 1usize])];
    let outcome = resolve_combat(&vec![creature(3, 5, 4)], &defenders, &assignment_one);
    assert_eq!(outcome.dead_blockers, vec![0]);
    // The order matters: listed the other way, only the toughness-5 blocker
    // dies and the toughness-3 one is spared (5 spent, 0 left < 3).
    let assignment_two = vec![(0usize, vec![1usize, 0usize])];
    let outcome = resolve_combat(&vec![creature(3, 5, 4)], &defenders, &assignment_two);
    assert_eq!(outcome.dead_blockers, vec![1]);
    // A big enough attacker kills both either way.
    let outcome = resolve_combat(&attackers, &defenders, &assignment_two);
    assert_eq!(outcome.dead_blockers, vec![1, 0]);
}

#[test]
fn unblocked_attacker_deals_full_power() {
    // An unblocked attacker with power 4 costs the defender exactly 4 life.
    let attackers = vec![creature(3, 4, 5)];
    let defenders = Vec::<Creature>::new();
    let assignment = vec![(0usize, Vec::<usize>::new())];
    let outcome = resolve_combat(&attackers, &defenders, &assignment);
    assert_eq!(outcome.life_loss, 4);
    assert_eq!(outcome.dead_attackers, Vec::<usize>::new());
    assert_eq!(outcome.dead_blockers, Vec::<usize>::new());
}

#[test]
fn mixed_assignment_adds_up() {
    // Two unblocked attackers and one blocked one: only the unblocked pair
    // costs life.
    let attackers = vec![creature(3, 4, 5), creature(0, 1, 1), creature(3, 5, 4)];
    let defenders = vec![creature(2, 0, 6)];
    let assignment = vec![
        (0usize, Vec::<usize>::new()),
        (2usize, vec![0usize]),
        (1usize, Vec::<usize>::new()),
    ];
    let outcome = resolve_combat(&attackers, &defenders, &assignment);
    assert_eq!(outcome.life_loss, 5);
    // The toughness-6 wall survives power 5 and deals no damage back.
    assert_eq!(outcome.dead_blockers, Vec::<usize>::new());
    assert_eq!(outcome.dead_attackers, Vec::<usize>::new());
}
