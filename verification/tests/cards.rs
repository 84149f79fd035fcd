use vanilla_duel::cards::Card;
use vanilla_duel::cards::Creature;
use vanilla_duel::cards::CreatureCard;

#[test]
fn validate_memnite_equivalent_succeeds() {
    let card = CreatureCard::try_new(0, 1, 1).expect("on the allow-list");
    assert_eq!(card.cmc(), 0);
    assert_eq!(card.pow(), 1);
    assert_eq!(card.tou(), 1);
}

#[test]
fn validate_off_list_stat_line_fails() {
    assert_eq!(CreatureCard::try_new(1, 1, 3), Err(()));
}

#[test]
fn validate_more_allow_list_entries() {
    assert!(CreatureCard::try_new(2, 3, 3).is_ok());
    assert!(CreatureCard::try_new(3, 5, 4).is_ok());
    assert!(CreatureCard::try_new(10, 16, 16).is_ok());
    assert!(CreatureCard::try_new(0, 0, 3).is_ok());
}

#[test]
fn validate_rejects_near_misses() {
    assert!(CreatureCard::try_new(0, 1, 2).is_err());
    assert!(CreatureCard::try_new(2, 3, 4).is_err());
    assert!(CreatureCard::try_new(11, 16, 16).is_err());
}

#[test]
fn creature_from_card_starts_untapped() {
    let card = CreatureCard::try_new(3, 4, 5).unwrap();
    let creature = Creature::new(&card);
    assert_eq!(creature.cmc(), 3);
    assert_eq!(creature.pow(), 4);
    assert_eq!(creature.tou(), 5);
    assert!(!creature.tapped);
}

#[test]
fn cards_compare_by_contents() {
    let a = CreatureCard::try_new(0, 1, 1).unwrap();
    let b = CreatureCard::try_new(0, 1, 1).unwrap();
    assert_eq!(Card::Creature(a), Card::Creature(b));
    assert_ne!(Card::Land, Card::Creature(a));
}
