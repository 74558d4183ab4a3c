use sevens::card_and_enums::{Card, NumberEnum, SuitEnum};
use sevens::deal::{distribute_cards, generate_new_shuffle, ordered_deck};
use sevens::multi_counter::MultiCounter;

#[test]
fn ordered_deck_runs_suit_by_suit_from_ace_to_king() {
    let deck = ordered_deck();
    assert_eq!(deck.len(), 52);
    assert_eq!(
        deck[0],
        Card {
            suit: SuitEnum::Spade,
            number: NumberEnum::Ace
        }
    );
    assert_eq!(
        deck[12],
        Card {
            suit: SuitEnum::Spade,
            number: NumberEnum::King
        }
    );
    assert_eq!(
        deck[13],
        Card {
            suit: SuitEnum::Club,
            number: NumberEnum::Ace
        }
    );
    assert_eq!(
        deck[32],
        Card {
            suit: SuitEnum::Heart,
            number: NumberEnum::Seven
        }
    );
    assert_eq!(
        deck[51],
        Card {
            suit: SuitEnum::Diamond,
            number: NumberEnum::King
        }
    );
    let suits = SuitEnum::iterator();
    let numbers = NumberEnum::iterator();
    for (i, card) in deck.iter().enumerate() {
        assert_eq!(card.suit, suits[i / 13]);
        assert_eq!(card.number, numbers[i % 13]);
    }
}

#[test]
fn shuffle_keeps_the_cards_and_changes_their_order() {
    let ordered = ordered_deck();
    let shuffled = generate_new_shuffle();
    assert_eq!(shuffled.len(), 52);
    for card in &ordered {
        assert_eq!(shuffled.iter().filter(|c| *c == card).count(), 1);
    }
    // 52 cards fall back into their canonical order once in 52! shuffles
    assert_ne!(shuffled, ordered);
}

#[test]
fn two_shuffles_differ() {
    assert_ne!(generate_new_shuffle(), generate_new_shuffle());
}

#[test]
fn deal_goes_round_the_seats() {
    let deck = ordered_deck();
    let players = distribute_cards(4, deck.clone());
    assert_eq!(players.len(), 4);
    for (seat, player) in players.iter().enumerate() {
        assert_eq!(player.hand.len(), 13);
        for (j, card) in player.hand.iter().enumerate() {
            assert_eq!(*card, deck[seat + 4 * j]);
        }
    }
}

#[test]
fn uneven_deal_gives_the_first_seats_one_card_more() {
    let deck = ordered_deck();
    let players = distribute_cards(3, deck.clone());
    assert_eq!(players[0].hand.len(), 18);
    assert_eq!(players[1].hand.len(), 17);
    assert_eq!(players[2].hand.len(), 17);
    assert_eq!(players[0].hand[17], deck[51]);
    assert_eq!(players[1].hand[16], deck[49]);
    assert_eq!(players[2].hand[0], deck[2]);

    let players = distribute_cards(5, deck.clone());
    let sizes: Vec<usize> = players.iter().map(|p| p.hand.len()).collect();
    assert_eq!(sizes, vec![11, 11, 10, 10, 10]);
}

#[test]
fn one_seat_gets_the_whole_deck_in_order() {
    let deck = ordered_deck();
    let players = distribute_cards(1, deck.clone());
    assert_eq!(players.len(), 1);
    assert_eq!(players[0].hand, deck);
}

#[test]
fn fifty_two_seats_get_one_card_each() {
    let deck = ordered_deck();
    let players = distribute_cards(52, deck.clone());
    assert_eq!(players.len(), 52);
    for (seat, player) in players.iter().enumerate() {
        assert_eq!(player.hand, vec![deck[seat]]);
    }
}

#[test]
fn more_seats_than_cards_take_the_deck_from_its_start_again() {
    let deck = ordered_deck();
    let players = distribute_cards(60, deck.clone());
    assert_eq!(players.len(), 60);
    for (seat, player) in players.iter().enumerate() {
        assert_eq!(player.hand, vec![deck[seat % 52]]);
    }
}

#[test]
fn deal_takes_the_first_52_cards_of_a_longer_deck() {
    let mut deck = ordered_deck();
    deck.extend(ordered_deck());
    let players = distribute_cards(2, deck.clone());
    assert_eq!(players[0].hand.len(), 26);
    assert_eq!(players[1].hand.len(), 26);
    assert_eq!(players[1].hand[25], deck[51]);
}

#[test]
fn counter_wheels_stand_at_the_step_modulo_their_maximum() {
    let maxes = vec![3usize, 5, 7, 1];
    let mut counter = MultiCounter::new(maxes.clone(), false);
    for step in 0..40usize {
        for (i, max) in maxes.iter().enumerate() {
            assert_eq!(counter._counter_values[i], step % max);
            assert_eq!(counter._counter_complete[i], step >= *max);
        }
        assert_eq!(counter.check_complete(), step >= 7);
        counter.increment();
    }
}

#[test]
fn counter_yields_nothing_once_complete() {
    let mut counter = MultiCounter::new(vec![2, 2], false);
    assert_eq!(counter.next(), Some(vec![0, 0]));
    assert_eq!(counter.next(), Some(vec![1, 1]));
    assert_eq!(counter.next(), None);
    assert_eq!(counter.next(), None);
    assert_eq!(counter.get_values(), vec![0, 0]);
}

#[test]
fn counter_without_wheels_is_complete_at_once() {
    let mut counter = MultiCounter::new(Vec::new(), true);
    assert!(counter.check_complete());
    assert_eq!(counter.next(), None);
}
