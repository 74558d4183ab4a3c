use sevens::card_and_enums::{contains_card, Card, NumberEnum, SuitEnum};

#[test]
fn suitenum_iterator_contains_all_suits() {
    let output: Vec<SuitEnum> = SuitEnum::iterator();

    assert_eq!(output.len(), 4);
    assert!(output.contains(&SuitEnum::Club));
    assert!(output.contains(&SuitEnum::Spade));
    assert!(output.contains(&SuitEnum::Diamond));
    assert!(output.contains(&SuitEnum::Heart));
}

#[test]
fn numberenum_iterator_contains_all_numbers() {
    let output: Vec<NumberEnum> = NumberEnum::iterator();

    assert_eq!(output.len(), 13);
    assert!(output.contains(&NumberEnum::Ace));
    assert!(output.contains(&NumberEnum::Two));
    assert!(output.contains(&NumberEnum::Three));
    assert!(output.contains(&NumberEnum::Four));
    assert!(output.contains(&NumberEnum::Five));
    assert!(output.contains(&NumberEnum::Six));
    assert!(output.contains(&NumberEnum::Seven));
    assert!(output.contains(&NumberEnum::Eight));
    assert!(output.contains(&NumberEnum::Nine));
    assert!(output.contains(&NumberEnum::Ten));
    assert!(output.contains(&NumberEnum::Jack));
    assert!(output.contains(&NumberEnum::Queen));
    assert!(output.contains(&NumberEnum::King));
}

#[test]
fn suits_come_in_canonical_order() {
    assert_eq!(
        SuitEnum::iterator(),
        vec![
            SuitEnum::Spade,
            SuitEnum::Club,
            SuitEnum::Heart,
            SuitEnum::Diamond
        ]
    );
}

#[test]
fn numbers_come_in_ascending_order() {
    let numbers = NumberEnum::iterator();
    assert_eq!(numbers[0], NumberEnum::Ace);
    assert_eq!(numbers[6], NumberEnum::Seven);
    assert_eq!(numbers[12], NumberEnum::King);
}

#[test]
fn contains_card_finds_only_what_is_there() {
    let cards = vec![
        Card {
            suit: SuitEnum::Heart,
            number: NumberEnum::Eight,
        },
        Card {
            suit: SuitEnum::Heart,
            number: NumberEnum::Six,
        },
    ];
    assert!(contains_card(
        &cards,
        Card {
            suit: SuitEnum::Heart,
            number: NumberEnum::Six
        }
    ));
    assert!(!contains_card(
        &cards,
        Card {
            suit: SuitEnum::Spade,
            number: NumberEnum::Six
        }
    ));
    assert!(!contains_card(
        &Vec::new(),
        Card {
            suit: SuitEnum::Heart,
            number: NumberEnum::Six
        }
    ));
}
