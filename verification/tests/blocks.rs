use vanilla_duel::blocks::append_unblocked;
use vanilla_duel::blocks::group_blocks;
use vanilla_duel::blocks::validate_ordering;
use vanilla_duel::cards::Creature;
use vanilla_duel::cards::CreatureCard;
use vanilla_duel::player_state::ContractBreach;

fn memnites(n: usize) -> Vec<Creature> {
    let card = CreatureCard::try_new(0, 1, 1).unwrap();
    (0..n).map(|_| Creature::new(&card)).collect()
}

#[test]
fn gang_block_groups_under_one_attacker() {
    let defenders = memnites(3);
    let pairs = vec![(0usize, 0usize), (2usize, 0usize)];
    let grouped = group_blocks(&pairs, 2, &defenders, &vec![0, 1]).expect("legal block");
    assert_eq!(grouped.len(), 1);
    assert_eq!(grouped[0].0, 0);
    assert_eq!(grouped[0].1, vec![0, 2]);
}

#[test]
fn split_blocks_group_in_first_appearance_order() {
    let defenders = memnites(3);
    let pairs = vec![(0usize, 1usize), (1usize, 0usize), (2usize, 1usize)];
    let grouped = group_blocks(&pairs, 2, &defenders, &vec![0, 1]).expect("legal block");
    assert_eq!(grouped.len(), 2);
    assert_eq!(grouped[0], (1, vec![0, 2]));
    assert_eq!(grouped[1], (0, vec![1]));
}

#[test]
fn a_tapped_blocker_is_a_breach() {
    let mut defenders = memnites(2);
    defenders[1].tapped = true;
    let pairs = vec![(1usize, 0usize)];
    let r = group_blocks(&pairs, 1, &defenders, &vec![0]);
    assert_eq!(r, Err(ContractBreach::BlockerTapped));
}

#[test]
fn blocking_twice_with_one_creature_is_a_breach() {
    let defenders = memnites(2);
    let pairs = vec![(0usize, 0usize), (0usize, 1usize)];
    let r = group_blocks(&pairs, 2, &defenders, &vec![0, 1]);
    assert_eq!(r, Err(ContractBreach::DoubleBlock));
}

#[test]
fn blocking_a_creature_that_is_not_attacking_is_a_breach() {
    let defenders = memnites(1);
    let pairs = vec![(0usize, 1usize)];
    let r = group_blocks(&pairs, 2, &defenders, &vec![0]);
    assert_eq!(r, Err(ContractBreach::BlockTargetNotAttacking));
}

#[test]
fn blocking_a_missing_attacker_is_a_breach() {
    let defenders = memnites(1);
    let r = group_blocks(&vec![(0usize, 5usize)], 2, &defenders, &vec![0]);
    assert_eq!(r, Err(ContractBreach::BlockTargetOutOfRange));
}

#[test]
fn a_missing_blocker_is_a_breach() {
    let defenders = memnites(1);
    let r = group_blocks(&vec![(4usize, 0usize)], 1, &defenders, &vec![0]);
    assert_eq!(r, Err(ContractBreach::BlockerOutOfRange));
}

#[test]
fn reordering_blockers_is_accepted() {
    let defenders = memnites(3);
    let arrangement = vec![(0usize, vec![0usize, 1usize])];
    let ordered = vec![(0usize, vec![1usize, 0usize])];
    let r = validate_ordering(&arrangement, ordered, 1, &defenders);
    assert_eq!(r, Ok(vec![(0usize, vec![1usize, 0usize])]));
}

#[test]
fn ordering_a_different_attacker_is_a_breach() {
    let defenders = memnites(2);
    let arrangement = vec![(0usize, vec![0usize])];
    let ordered = vec![(1usize, vec![0usize])];
    let r = validate_ordering(&arrangement, ordered, 2, &defenders);
    assert_eq!(r, Err(ContractBreach::OrderingWrongAttackers));
}

#[test]
fn dropping_an_entry_is_a_breach() {
    let defenders = memnites(2);
    let arrangement = vec![(0usize, vec![0usize])];
    let r = validate_ordering(&arrangement, vec![], 1, &defenders);
    assert_eq!(r, Err(ContractBreach::OrderingWrongAttackers));
}

#[test]
fn changing_a_blocker_set_is_a_breach() {
    let defenders = memnites(3);
    let arrangement = vec![(0usize, vec![0usize, 1usize])];
    let ordered = vec![(0usize, vec![0usize, 2usize])];
    let r = validate_ordering(&arrangement, ordered, 1, &defenders);
    assert_eq!(r, Err(ContractBreach::OrderingWrongBlockers));
}

#[test]
fn repeating_a_blocker_in_the_order_is_a_breach() {
    let defenders = memnites(2);
    let arrangement = vec![(0usize, vec![0usize, 1usize])];
    let ordered = vec![(0usize, vec![0usize, 0usize])];
    let r = validate_ordering(&arrangement, ordered, 1, &defenders);
    assert_eq!(r, Err(ContractBreach::OrderingWrongBlockers));
}

#[test]
fn unblocked_attackers_get_empty_lists() {
    let defenders = memnites(1);
    let assignment = vec![(1usize, vec![0usize])];
    let all = append_unblocked(assignment, &vec![0, 1, 2], 3, &defenders);
    assert_eq!(all, vec![(1usize, vec![0usize]), (0usize, vec![]), (2usize, vec![])]);
}
