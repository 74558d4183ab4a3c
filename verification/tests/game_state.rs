use sevens::card_and_enums::{Card, NumberEnum, SuitEnum};
use sevens::game_board::GameBoard;
use sevens::game_state::{GameState, GameStateError};
use sevens::stack::Stack;

#[test]
fn initialization_with_valid_player_count() {
    let game_state = GameState::new(4);

    assert!(game_state.is_ok());
    let game_state = game_state.unwrap();

    assert_eq!(game_state.players.len(), 4);
    assert_eq!(game_state.player_turn, 0 as u8);
}

#[test]
fn initialization_with_invalid_player_count() {
    let game_state = GameState::new(30);

    assert!(game_state.is_err());
    let game_state = game_state.unwrap_err();

    assert_eq!(
        game_state.to_string(),
        GameStateError::TooManyPlayers.to_string()
    );
}

#[test]
fn pass_turn_advances_player_turn() {
    let game_state = GameState::new(4);
    assert!(game_state.is_ok());
    let mut game_state = game_state.unwrap();

    assert_eq!(game_state.player_turn, 0 as u8);
    let output = game_state.pass_turn();
    assert!(output.is_ok());
    assert_eq!(game_state.player_turn, 1 as u8);
}

#[test]
fn pass_turn_catches_overflow_err() {
    let game_state = GameState::new(4);
    assert!(game_state.is_ok());
    let mut game_state = game_state.unwrap();

    game_state.player_turn = 255 as u8;
    let output = game_state.pass_turn();
    assert!(output.is_err());
    let output = output.unwrap_err();
    assert_eq!(
        output.to_string(),
        GameStateError::OverflowError.to_string()
    );
}

#[test]
fn pass_turn_resets_to_0_after_last_player_turn() {
    let game_state = GameState::new(3);
    assert!(game_state.is_ok());
    let mut game_state = game_state.unwrap();
    game_state.player_turn = 2;

    let output = game_state.pass_turn();
    assert!(output.is_ok());
    assert_eq!(game_state.player_turn, 0 as u8);
}

#[test]
fn play_only_playable_card_errors_with_multiple_playable_cards() {
    let mut game_state = GameState::new(3).unwrap();
    let output = game_state.play_only_playable_card();
    assert!(output.is_err());
    let output = output.unwrap_err();
    assert_eq!(
        output.to_string(),
        GameStateError::MoreThanOnePlayableCard("play_only_playable_card".to_string())
            .to_string()
    );
}

#[test]
fn play_only_playable_card_plays_with_one_playable_card() {
    let mut game_state = GameState::new(3).unwrap();
    let game_board = GameBoard::from(vec![
        Stack::get_completed_stack(SuitEnum::Club),
        Stack::get_completed_stack(SuitEnum::Spade),
        Stack::get_completed_stack(SuitEnum::Heart),
    ])
    .unwrap();
    game_state.game_board = game_board;
    let output = game_state.play_only_playable_card();
    assert!(output.is_ok());

    assert_eq!(game_state.player_turn, 1); // turn was passed

    let playables = match game_state.get_playable_cards() {
        Ok(cards) => cards.unwrap(),
        Err(e) => {
            let e = e.to_string();
            panic!("{e}")
        }
    };

    // the seven of diamonds has been played,
    // so the eight and the six of diamonds come next
    assert_eq!(playables.len(), 2);
    assert!(playables.contains(&Card {
        suit: SuitEnum::Diamond,
        number: NumberEnum::Eight,
    }));
    assert!(playables.contains(&Card {
        suit: SuitEnum::Diamond,
        number: NumberEnum::Six,
    }));
}

#[test]
fn play_only_playable_card_errors_with_no_playable_card() {
    let mut game_state = GameState::new(3).unwrap();
    let game_board = GameBoard::from(vec![
        Stack::get_completed_stack(SuitEnum::Club),
        Stack::get_completed_stack(SuitEnum::Spade),
        Stack::get_completed_stack(SuitEnum::Heart),
        Stack::get_completed_stack(SuitEnum::Diamond),
    ])
    .unwrap(); // get a completed board
    game_state.game_board = game_board; // use it
    let output = game_state.play_only_playable_card();
    assert!(output.is_err());

    let output = output.unwrap_err();
    assert_eq!(
        output.to_string(),
        GameStateError::NoPlayableCard("play_only_playable_card".to_string()).to_string()
    )
}

#[test]
fn play_card_and_return_new_succeeds() {
    let game_state = GameState::new(3);
    assert!(game_state.is_ok());
    let game_state = game_state.unwrap();
    let output = game_state.play_card_and_return_new(Card {
        suit: SuitEnum::Club,
        number: NumberEnum::Seven,
    });
    assert!(output.is_ok());
    let _output = output.unwrap();
}
