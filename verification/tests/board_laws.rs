use sevens::card_and_enums::{Card, NumberEnum, SuitEnum};
use sevens::game_board::{GameBoard, GameBoardError};
use sevens::stack::{Stack, StackError};

fn card(suit: SuitEnum, number: NumberEnum) -> Card {
    Card { suit, number }
}

fn founded(suit: SuitEnum, up: NumberEnum, down: NumberEnum) -> Stack {
    Stack {
        suit,
        up_card: Some(card(suit, up)),
        down_card: Some(card(suit, down)),
    }
}

#[test]
fn board_lists_the_stacks_cards_in_slot_order() {
    let board = GameBoard::from(vec![
        founded(SuitEnum::Diamond, NumberEnum::King, NumberEnum::Four),
        founded(SuitEnum::Club, NumberEnum::Nine, NumberEnum::Seven),
        Stack::get_completed_stack(SuitEnum::Heart),
    ])
    .unwrap();
    let mut expected = Vec::new();
    for stack in [
        board.spade_stack,
        board.club_stack,
        board.heart_stack,
        board.diamond_stack,
    ] {
        if let Some(mut cards) = stack.get_playable_cards().unwrap() {
            expected.append(&mut cards);
        }
    }
    let output = board.get_playable_cards().unwrap().unwrap();
    assert_eq!(output, expected);
    assert_eq!(
        output,
        vec![
            card(SuitEnum::Spade, NumberEnum::Seven),
            card(SuitEnum::Club, NumberEnum::Ten),
            card(SuitEnum::Club, NumberEnum::Six),
            card(SuitEnum::Diamond, NumberEnum::Three),
        ]
    );
}

#[test]
fn board_has_no_card_only_when_all_stacks_are_complete() {
    let complete = GameBoard::from(vec![
        Stack::get_completed_stack(SuitEnum::Club),
        Stack::get_completed_stack(SuitEnum::Spade),
        Stack::get_completed_stack(SuitEnum::Heart),
        Stack::get_completed_stack(SuitEnum::Diamond),
    ])
    .unwrap();
    assert!(complete.get_playable_cards().unwrap().is_none());

    for open in SuitEnum::iterator() {
        let mut stacks = Vec::new();
        for suit in SuitEnum::iterator() {
            if suit == open {
                stacks.push(founded(suit, NumberEnum::King, NumberEnum::Two));
            } else {
                stacks.push(Stack::get_completed_stack(suit));
            }
        }
        let board = GameBoard::from(stacks).unwrap();
        assert_eq!(
            board.get_playable_cards().unwrap().unwrap(),
            vec![card(open, NumberEnum::Ace)]
        );
    }
}

#[test]
fn three_complete_stacks_leave_the_diamond_seven() {
    let board = GameBoard::from(vec![
        Stack::get_completed_stack(SuitEnum::Club),
        Stack::get_completed_stack(SuitEnum::Spade),
        Stack::get_completed_stack(SuitEnum::Heart),
    ])
    .unwrap();
    assert_eq!(
        board.get_playable_cards().unwrap().unwrap(),
        vec![card(SuitEnum::Diamond, NumberEnum::Seven)]
    );
}

#[test]
fn fresh_board_offers_exactly_the_four_sevens() {
    assert_eq!(
        GameBoard::new().get_playable_cards().unwrap().unwrap(),
        vec![
            card(SuitEnum::Spade, NumberEnum::Seven),
            card(SuitEnum::Club, NumberEnum::Seven),
            card(SuitEnum::Heart, NumberEnum::Seven),
            card(SuitEnum::Diamond, NumberEnum::Seven),
        ]
    );
}

#[test]
fn play_touches_only_the_stack_of_the_suit() {
    let mut board = GameBoard::new();
    assert!(board
        .play_card(card(SuitEnum::Heart, NumberEnum::Seven))
        .is_ok());
    assert_eq!(
        board.heart_stack.up_card,
        Some(card(SuitEnum::Heart, NumberEnum::Seven))
    );
    assert_eq!(
        board.heart_stack.down_card,
        Some(card(SuitEnum::Heart, NumberEnum::Seven))
    );
    for stack in [board.spade_stack, board.club_stack, board.diamond_stack] {
        assert!(stack.up_card.is_none());
        assert!(stack.down_card.is_none());
    }
}

#[test]
fn failed_play_leaves_the_board_as_it_was() {
    let mut board = GameBoard::new();
    let output = board.play_card(card(SuitEnum::Club, NumberEnum::Eight));
    assert!(matches!(
        output,
        Err(GameBoardError::StackError(
            StackError::UnplayableCardNumber,
            _
        ))
    ));
    assert_eq!(board.get_playable_cards().unwrap().unwrap().len(), 4);
}

#[test]
fn board_errors_name_the_slot() {
    let names = [
        (SuitEnum::Spade, "Spades"),
        (SuitEnum::Club, "Clubs"),
        (SuitEnum::Heart, "Hearts"),
        (SuitEnum::Diamond, "Diamonds"),
    ];
    for (suit, name) in names {
        let mut board = GameBoard::new();
        match board.play_card(card(suit, NumberEnum::Ace)) {
            Err(GameBoardError::StackError(e, place)) => {
                assert_eq!(e, StackError::UnplayableCardNumber);
                assert_eq!(place, name);
            }
            Ok(_) => panic!("an Ace was played on a new stack"),
        }
    }
}

#[test]
fn board_error_message() {
    let e = GameBoardError::StackError(StackError::CompletedStackPlayedOn, "Hearts".to_string());
    assert_eq!(
        e.to_string(),
        "'Attempted to play on a completed stack' error in Hearts stack"
    );
}

#[test]
fn corrupt_stack_fails_the_board_with_the_first_fault() {
    let mut board = GameBoard::new();
    board.heart_stack.up_card = Some(card(SuitEnum::Heart, NumberEnum::Nine));
    board.diamond_stack = founded(SuitEnum::Diamond, NumberEnum::Two, NumberEnum::Two);
    match board.get_playable_cards() {
        Err(GameBoardError::StackError(e, place)) => {
            assert_eq!(e, StackError::InvalidStackState);
            assert_eq!(place, "Hearts");
        }
        Ok(_) => panic!("a corrupt board listed its cards"),
    }
}

#[test]
fn from_rejects_a_corrupt_stack() {
    let corrupt = Stack {
        suit: SuitEnum::Club,
        up_card: None,
        down_card: Some(card(SuitEnum::Club, NumberEnum::Six)),
    };
    match GameBoard::from(vec![Stack::get_completed_stack(SuitEnum::Spade), corrupt]) {
        Err(GameBoardError::StackError(e, place)) => {
            assert_eq!(e, StackError::InvalidStackState);
            assert_eq!(place, "Clubs");
        }
        Ok(_) => panic!("a corrupt stack was accepted"),
    }
}

#[test]
fn from_lets_a_later_stack_replace_an_earlier_one() {
    let board = GameBoard::from(vec![
        Stack::get_completed_stack(SuitEnum::Club),
        founded(SuitEnum::Club, NumberEnum::Eight, NumberEnum::Seven),
    ])
    .unwrap();
    assert_eq!(board.club_stack.up_card.unwrap().number, NumberEnum::Eight);
    assert!(board.spade_stack.up_card.is_none());
}
