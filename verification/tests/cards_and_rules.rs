use poker_engine::cards::{card_str, full_deck, hand_strength, Card, Suit};
use poker_engine::rules::{compute_legal, default_legal, first_post_flop_actor_list, position_name};
use poker_engine::state::{Player, PlayerStatus};
use poker_engine::text::{decimal_string, join2};

fn seat(stack: u32, current_bet: u32) -> Player {
    Player {
        id: 0,
        name: "Hero".to_string(),
        position: "BTN".to_string(),
        stack,
        hole_cards: None,
        is_hero: true,
        status: PlayerStatus::Active,
        current_bet,
    }
}

#[test]
fn card_names_use_rank_and_suit_symbols() {
    assert_eq!(card_str(&Card::new(14, Suit::Spades)), "A\u{2660}");
    assert_eq!(card_str(&Card::new(13, Suit::Diamonds)), "K\u{2666}");
    assert_eq!(card_str(&Card::new(12, Suit::Hearts)), "Q\u{2665}");
    assert_eq!(card_str(&Card::new(11, Suit::Clubs)), "J\u{2663}");
    assert_eq!(card_str(&Card::new(10, Suit::Hearts)), "T\u{2665}");
    assert_eq!(card_str(&Card::new(9, Suit::Clubs)), "9\u{2663}");
    assert_eq!(card_str(&Card::new(2, Suit::Clubs)), "2\u{2663}");
}

#[test]
fn card_names_of_the_deck_are_all_different() {
    let deck = full_deck();
    let names: Vec<String> = deck.iter().map(card_str).collect();
    for i in 0..names.len() {
        for j in (i + 1)..names.len() {
            assert_ne!(names[i], names[j]);
        }
    }
}

#[test]
fn full_deck_is_ordered_by_rank_then_suit() {
    let deck = full_deck();
    assert_eq!(deck.len(), 52);
    assert_eq!(deck[0], Card::new(2, Suit::Clubs));
    assert_eq!(deck[1], Card::new(2, Suit::Diamonds));
    assert_eq!(deck[2], Card::new(2, Suit::Hearts));
    assert_eq!(deck[3], Card::new(2, Suit::Spades));
    assert_eq!(deck[4], Card::new(3, Suit::Clubs));
    assert_eq!(deck[51], Card::new(14, Suit::Spades));
    for i in 0..52 {
        for j in (i + 1)..52 {
            assert_ne!(deck[i], deck[j]);
        }
    }
}

#[test]
fn hand_strength_adds_the_ranks() {
    assert_eq!(hand_strength(&[Card::new(14, Suit::Spades), Card::new(13, Suit::Spades)]), 27);
    assert_eq!(hand_strength(&[Card::new(2, Suit::Clubs), Card::new(7, Suit::Hearts)]), 9);
}

#[test]
fn position_names_count_from_the_button() {
    assert_eq!(position_name(0, 6), "BTN");
    assert_eq!(position_name(1, 6), "SB");
    assert_eq!(position_name(2, 6), "BB");
    assert_eq!(position_name(3, 4), "UTG");
    assert_eq!(position_name(3, 5), "UTG");
    assert_eq!(position_name(3, 6), "UTG");
    assert_eq!(position_name(4, 5), "CO");
    assert_eq!(position_name(4, 6), "HJ");
    assert_eq!(position_name(5, 6), "CO");
    assert_eq!(position_name(4, 7), "MP");
    assert_eq!(position_name(6, 9), "MP");
}

#[test]
fn legal_actions_facing_a_bet() {
    let players = vec![seat(1000, 0)];
    let l = compute_legal(&players, 0, 100, 100);
    assert!(l.can_fold);
    assert!(!l.can_check);
    assert!(l.can_call);
    assert_eq!(l.call_amount, 100);
    assert!(!l.can_bet);
    assert_eq!(l.min_bet, 100);
    assert!(l.can_raise);
    assert_eq!(l.min_raise, 200);
    assert_eq!(l.max_amount, 1000);
}

#[test]
fn legal_actions_with_no_bet_to_face() {
    let players = vec![seat(1000, 100)];
    let l = compute_legal(&players, 0, 100, 100);
    assert!(!l.can_fold);
    assert!(l.can_check);
    assert!(!l.can_call);
    assert_eq!(l.call_amount, 0);
    assert!(l.can_bet);
    assert!(!l.can_raise);
    assert_eq!(l.max_amount, 1000);
}

#[test]
fn legal_actions_of_a_short_stack() {
    let players = vec![seat(50, 0)];
    let l = compute_legal(&players, 0, 100, 100);
    assert!(l.can_fold);
    assert!(l.can_call);
    assert_eq!(l.call_amount, 50);
    assert!(!l.can_raise);
    assert_eq!(l.max_amount, 50);
    let empty = vec![seat(0, 0)];
    let e = compute_legal(&empty, 0, 0, 100);
    assert!(e.can_check);
    assert!(!e.can_bet);
}

#[test]
fn minimum_raise_is_the_larger_floor() {
    let players = vec![seat(1000, 0)];
    assert_eq!(compute_legal(&players, 0, 50, 100).min_raise, 150);
    assert_eq!(compute_legal(&players, 0, 300, 100).min_raise, 600);
    assert_eq!(compute_legal(&players, 0, 0, 100).min_raise, 100);
}

#[test]
fn default_legal_offers_nothing() {
    let l = default_legal();
    assert!(!l.can_fold && !l.can_check && !l.can_call && !l.can_bet && !l.can_raise);
    assert_eq!(l.call_amount, 0);
    assert_eq!(l.min_bet, 0);
    assert_eq!(l.min_raise, 0);
    assert_eq!(l.max_amount, 0);
}

#[test]
fn first_actor_after_the_flop_is_left_of_the_button() {
    assert_eq!(first_post_flop_actor_list(2, &[0, 1, 3], 4), 3);
    assert_eq!(first_post_flop_actor_list(3, &[0, 2], 4), 0);
    assert_eq!(first_post_flop_actor_list(0, &[0, 2], 3), 2);
    assert_eq!(first_post_flop_actor_list(1, &[1], 3), 1);
    assert_eq!(first_post_flop_actor_list(0, &[5], 3), 5);
}

#[test]
fn decimals_and_joined_text() {
    assert_eq!(decimal_string(0), "0");
    assert_eq!(decimal_string(7), "7");
    assert_eq!(decimal_string(12345), "12345");
    assert_eq!(decimal_string(4294967295), "4294967295");
    assert_eq!(join2("calls ", "100"), "calls 100");
}
