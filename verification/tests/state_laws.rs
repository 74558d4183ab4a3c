use sevens::card_and_enums::{Card, NumberEnum, SuitEnum};
use sevens::deal::ordered_deck;
use sevens::game_board::{GameBoard, GameBoardError};
use sevens::game_state::{GameState, GameStateError};
use sevens::player::{discard, Player};
use sevens::stack::{Stack, StackError};

fn card(suit: SuitEnum, number: NumberEnum) -> Card {
    Card { suit, number }
}

fn founded(suit: SuitEnum, up: NumberEnum, down: NumberEnum) -> Stack {
    Stack {
        suit,
        up_card: Some(card(suit, up)),
        down_card: Some(card(suit, down)),
    }
}

fn held(state: &GameState) -> usize {
    state.players.iter().map(|p| p.hand.len()).sum()
}

fn hands(state: &GameState) -> Vec<Vec<Card>> {
    state.players.iter().map(|p| p.hand.clone()).collect()
}

#[test]
fn passing_once_per_seat_returns_to_seat_zero() {
    for seats in 1..=26 {
        let mut state = GameState::from_deck(seats, ordered_deck()).unwrap();
        assert_eq!(state.player_turn, 0);
        for pass in 1..=seats {
            assert!(state.pass_turn().is_ok());
            assert_eq!(state.player_turn as usize, pass % seats);
        }
        assert_eq!(state.player_turn, 0);
    }
}

#[test]
fn pass_turn_changes_nothing_but_the_turn() {
    let mut state = GameState::from_deck(4, ordered_deck()).unwrap();
    let before = hands(&state);
    assert!(state.pass_turn().is_ok());
    assert_eq!(hands(&state), before);
    assert_eq!(state.get_playable_cards().unwrap().unwrap().len(), 4);
}

#[test]
fn overflowing_pass_changes_nothing() {
    let mut state = GameState::from_deck(4, ordered_deck()).unwrap();
    state.player_turn = 255;
    assert!(matches!(
        state.pass_turn(),
        Err(GameStateError::OverflowError)
    ));
    assert_eq!(state.player_turn, 255);
}

#[test]
fn too_many_players_are_refused_from_27_on() {
    assert!(GameState::new(26).is_ok());
    assert!(matches!(
        GameState::new(27),
        Err(GameStateError::TooManyPlayers)
    ));
    assert!(matches!(
        GameState::from_deck(27, ordered_deck()),
        Err(GameStateError::TooManyPlayers)
    ));
}

#[test]
fn new_game_deals_all_cards_onto_a_fresh_board() {
    let state = GameState::new(4).unwrap();
    assert_eq!(state.player_turn, 0);
    assert_eq!(state.players.len(), 4);
    for player in &state.players {
        assert_eq!(player.hand.len(), 13);
    }
    let mut all: Vec<Card> = hands(&state).concat();
    for wanted in ordered_deck() {
        let at = all.iter().position(|c| *c == wanted).unwrap();
        all.remove(at);
    }
    assert!(all.is_empty());
    assert_eq!(state.get_playable_cards().unwrap().unwrap().len(), 4);
}

#[test]
fn fork_plays_one_card_and_leaves_the_parent_alone() {
    let state = GameState::from_deck(4, ordered_deck()).unwrap();
    let before = hands(&state);
    let seven = card(SuitEnum::Heart, NumberEnum::Seven);
    let fork = state.play_card_and_return_new(seven).unwrap();

    // the parent is as it was
    assert_eq!(hands(&state), before);
    assert_eq!(state.player_turn, 0);
    assert_eq!(state.get_playable_cards().unwrap().unwrap().len(), 4);

    // the fork holds one card less, has the card on the board and the turn passed
    assert_eq!(held(&fork), held(&state) - 1);
    assert!(hands(&fork).concat().iter().all(|c| *c != seven));
    assert_eq!(fork.player_turn, 1);
    assert_eq!(
        fork.get_playable_cards().unwrap().unwrap(),
        vec![
            card(SuitEnum::Spade, NumberEnum::Seven),
            card(SuitEnum::Club, NumberEnum::Seven),
            card(SuitEnum::Heart, NumberEnum::Eight),
            card(SuitEnum::Heart, NumberEnum::Six),
            card(SuitEnum::Diamond, NumberEnum::Seven),
        ]
    );
    // only the hand that held the card has changed, and kept its order
    for (seat, hand) in hands(&fork).iter().enumerate() {
        let expected: Vec<Card> = before[seat]
            .iter()
            .copied()
            .filter(|c| *c != seven)
            .collect();
        assert_eq!(*hand, expected);
    }
}

#[test]
fn fork_refuses_an_unplayable_card() {
    let state = GameState::from_deck(3, ordered_deck()).unwrap();
    let output = state.play_card_and_return_new(card(SuitEnum::Club, NumberEnum::Eight));
    assert!(matches!(output, Err(GameStateError::UnplayableCard)));
}

#[test]
fn fork_refuses_a_single_playable_card() {
    let mut state = GameState::from_deck(3, ordered_deck()).unwrap();
    state.game_board = GameBoard::from(vec![
        Stack::get_completed_stack(SuitEnum::Club),
        Stack::get_completed_stack(SuitEnum::Spade),
        Stack::get_completed_stack(SuitEnum::Heart),
    ])
    .unwrap();
    let output = state.play_card_and_return_new(card(SuitEnum::Diamond, NumberEnum::Seven));
    assert!(matches!(output, Err(GameStateError::OnlyOnePlayableCard)));
}

#[test]
fn fork_refuses_a_complete_board() {
    let mut state = GameState::from_deck(3, ordered_deck()).unwrap();
    state.game_board = GameBoard::from(vec![
        Stack::get_completed_stack(SuitEnum::Club),
        Stack::get_completed_stack(SuitEnum::Spade),
        Stack::get_completed_stack(SuitEnum::Heart),
        Stack::get_completed_stack(SuitEnum::Diamond),
    ])
    .unwrap();
    match state.play_card_and_return_new(card(SuitEnum::Diamond, NumberEnum::Seven)) {
        Err(GameStateError::NoPlayableCard(operation)) => {
            assert_eq!(operation, "play_card_and_return")
        }
        _ => panic!("a fork on a complete board did not fail as it should"),
    }
}

#[test]
fn fork_fails_when_the_turn_cannot_pass() {
    let mut state = GameState::from_deck(3, ordered_deck()).unwrap();
    state.player_turn = 255;
    let output = state.play_card_and_return_new(card(SuitEnum::Club, NumberEnum::Seven));
    assert!(matches!(output, Err(GameStateError::OverflowError)));
    assert_eq!(state.get_playable_cards().unwrap().unwrap().len(), 4);
}

#[test]
fn corrupt_board_fails_every_operation() {
    let mut state = GameState::from_deck(3, ordered_deck()).unwrap();
    state.game_board.club_stack = founded(SuitEnum::Club, NumberEnum::King, NumberEnum::King);
    let check = |e: GameStateError| match e {
        GameStateError::GameBoardError(GameBoardError::StackError(cause, place)) => {
            assert_eq!(cause, StackError::InvalidDownStack);
            assert_eq!(place, "Clubs");
        }
        _ => panic!("not a board error"),
    };
    check(state.get_playable_cards().unwrap_err());
    check(state.play_only_playable_card().unwrap_err());
    check(
        state
            .play_card_and_return_new(card(SuitEnum::Spade, NumberEnum::Seven))
            .unwrap_err(),
    );
}

#[test]
fn forced_play_takes_the_card_out_of_its_hand() {
    let mut state = GameState::from_deck(3, ordered_deck()).unwrap();
    state.game_board = GameBoard::from(vec![
        Stack::get_completed_stack(SuitEnum::Club),
        Stack::get_completed_stack(SuitEnum::Spade),
        Stack::get_completed_stack(SuitEnum::Heart),
    ])
    .unwrap();
    let seven = card(SuitEnum::Diamond, NumberEnum::Seven);
    let before = held(&state);
    assert!(hands(&state).concat().contains(&seven));
    assert!(state.play_only_playable_card().is_ok());
    assert_eq!(held(&state), before - 1);
    assert!(!hands(&state).concat().contains(&seven));
    assert_eq!(state.player_turn, 1);
}

#[test]
fn forced_play_that_cannot_pass_leaves_the_card_played() {
    let mut state = GameState::from_deck(3, ordered_deck()).unwrap();
    state.game_board = GameBoard::from(vec![
        Stack::get_completed_stack(SuitEnum::Club),
        Stack::get_completed_stack(SuitEnum::Spade),
        Stack::get_completed_stack(SuitEnum::Heart),
    ])
    .unwrap();
    state.player_turn = 255;
    assert!(matches!(
        state.play_only_playable_card(),
        Err(GameStateError::OverflowError)
    ));
    assert_eq!(state.player_turn, 255);
    assert_eq!(state.get_playable_cards().unwrap().unwrap().len(), 2);
}

#[test]
fn discard_keeps_the_other_cards_in_order() {
    let six = card(SuitEnum::Club, NumberEnum::Six);
    let nine = card(SuitEnum::Club, NumberEnum::Nine);
    let ace = card(SuitEnum::Heart, NumberEnum::Ace);
    let players = vec![
        Player {
            hand: vec![six, nine, ace, nine],
        },
        Player { hand: vec![nine] },
        Player {
            hand: vec![ace, six],
        },
    ];
    let rest = discard(&players, nine);
    assert_eq!(rest.len(), 3);
    assert_eq!(rest[0].hand, vec![six, ace]);
    assert!(rest[1].hand.is_empty());
    assert_eq!(rest[2].hand, vec![ace, six]);
    assert_eq!(players[0].without(ace).hand, vec![six, nine, nine]);
    assert!(Player::new().hand.is_empty());
}

#[test]
fn clone_copies_the_whole_state() {
    let mut state = GameState::from_deck(5, ordered_deck()).unwrap();
    state.player_turn = 3;
    state.game_board.heart_stack = founded(SuitEnum::Heart, NumberEnum::Nine, NumberEnum::Six);
    let copy = state.clone();
    assert_eq!(copy.player_turn, 3);
    assert_eq!(hands(&copy), hands(&state));
    assert_eq!(
        copy.get_playable_cards().unwrap(),
        state.get_playable_cards().unwrap()
    );
}

#[test]
fn game_state_error_messages() {
    assert_eq!(
        GameStateError::TooManyPlayers.to_string(),
        "Players exceeded 26 player limit"
    );
    assert_eq!(
        GameStateError::OverflowError.to_string(),
        "u8 overflow error"
    );
    assert_eq!(
        GameStateError::GameBoardError(GameBoardError::StackError(
            StackError::InvalidStackState,
            "Spades".to_string()
        ))
        .to_string(),
        "GameBoard Error: 'Invalid stack state' error in Spades stack"
    );
    assert_eq!(
        GameStateError::MoreThanOnePlayableCard("play_only_playable_card".to_string())
            .to_string(),
        "Called play_only_playable_card on a state with more than one playable card"
    );
    assert_eq!(
        GameStateError::NoPlayableCard("play_card_and_return".to_string()).to_string(),
        "Called play_card_and_return on a state with no playable card"
    );
    assert_eq!(
        GameStateError::OnlyOnePlayableCard.to_string(),
        "Called play_card_and_return on a state with only one playable card, consider using play_only_playable_card"
    );
    assert_eq!(
        GameStateError::UnplayableCard.to_string(),
        "Attempted to play an unplayable card in play_card_and_return"
    );
}
