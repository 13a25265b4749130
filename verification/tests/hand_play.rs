use poker_engine::cards::{card_str, Card, Suit};
use poker_engine::engine::{apply_action, apply_action_with_rolls};
use poker_engine::scenario::build_scenario;
use poker_engine::state::{GameState, PlayerStatus, Street};
use poker_engine::view::visible_players;

fn c(rank: u8, suit: Suit) -> Card {
    Card::new(rank, suit)
}

fn history(state: &GameState) -> Vec<(String, String)> {
    state
        .action_history
        .iter()
        .map(|r| (r.player_name.clone(), r.description.clone()))
        .collect()
}

fn line(name: &str, desc: &str) -> (String, String) {
    (name.to_string(), desc.to_string())
}

fn total_chips(state: &GameState) -> u64 {
    state.pot as u64 + state.players.iter().map(|p| p.stack as u64).sum::<u64>()
}

fn board() -> Vec<Card> {
    vec![c(2, Suit::Hearts), c(7, Suit::Diamonds), c(9, Suit::Clubs), c(11, Suit::Spades), c(13, Suit::Hearts)]
}

/// Three players, the hero on the button with aces, two weak bots; the hero
/// is first to act before the flop.
fn preflop_table() -> GameState {
    let holes = vec![
        [c(14, Suit::Spades), c(14, Suit::Hearts)],
        [c(2, Suit::Clubs), c(3, Suit::Diamonds)],
        [c(4, Suit::Clubs), c(5, Suit::Diamonds)],
    ];
    build_scenario(3, 0, 0, vec![10000, 10000, 10000], holes, board(), 50, 100, Street::Preflop, &[0; 9], &[])
}

/// Three players dropped into the river, the button on seat 2 so that the
/// hero (small blind) acts first; the bots called or checked earlier.
fn river_table(holes: Vec<[Card; 2]>, board: Vec<Card>) -> GameState {
    build_scenario(3, 0, 2, vec![10000, 10000, 10000], holes, board, 50, 100, Street::River, &[99; 9], &[])
}

#[test]
fn preflop_setup_seats_players_and_posts_blinds() {
    let s = preflop_table();
    assert_eq!(s.players.len(), 3);
    assert_eq!(s.players[0].name, "Hero");
    assert_eq!(s.players[1].name, "Villain 1");
    assert_eq!(s.players[2].name, "Villain 2");
    assert_eq!(s.players[0].position, "BTN");
    assert_eq!(s.players[1].position, "SB");
    assert_eq!(s.players[2].position, "BB");
    assert!(s.players[0].is_hero && !s.players[1].is_hero && !s.players[2].is_hero);
    assert_eq!(s.players[1].stack, 9950);
    assert_eq!(s.players[1].current_bet, 50);
    assert_eq!(s.players[2].stack, 9900);
    assert_eq!(s.players[2].current_bet, 100);
    assert_eq!(s.pot, 150);
    assert_eq!(s.street, Street::Preflop);
    assert!(s.community_cards.is_empty());
    assert_eq!(s.street_bet, 100);
    assert_eq!(s.action_on, 0);
    assert!(s.hero_to_act);
    assert!(!s.hand_over);
    assert_eq!(history(&s), vec![line("Villain 1", "posts SB 50"), line("Villain 2", "posts BB 100")]);
    let l = s.legal_actions;
    assert!(l.can_fold && l.can_call && l.can_raise && !l.can_check && !l.can_bet);
    assert_eq!(l.call_amount, 100);
    assert_eq!(l.min_raise, 200);
    assert_eq!(l.max_amount, 10000);
    assert_eq!(total_chips(&s), 30000);
}

#[test]
fn hero_fold_ends_the_hand_when_the_last_bot_folds() {
    let mut s = preflop_table();
    let pending = apply_action_with_rolls(&mut s, "fold", None, &[0; 10]);
    assert!(!pending);
    assert!(s.hand_over);
    assert!(!s.hero_to_act);
    assert_eq!(s.players[0].status, PlayerStatus::Folded);
    assert_eq!(s.players[1].status, PlayerStatus::Folded);
    assert_eq!(s.players[2].stack, 10050);
    assert_eq!(s.result_message.as_deref(), Some("Villain 2 wins 150 (others folded)"));
    assert_eq!(
        history(&s),
        vec![
            line("Villain 1", "posts SB 50"),
            line("Villain 2", "posts BB 100"),
            line("Hero", "folds"),
            line("Villain 1", "folds"),
        ]
    );
    assert_eq!(s.decision_snapshots.len(), 1);
    let snap = &s.decision_snapshots[0];
    assert_eq!(snap.street, "Preflop");
    assert_eq!(snap.pot, 150);
    assert_eq!(snap.call_amount, 100);
    assert_eq!(snap.action_taken, "fold");
    assert!(snap.community_cards.is_empty());
    assert_eq!(snap.hero_hole_cards, [c(14, Suit::Spades), c(14, Suit::Hearts)]);
    assert_eq!(snap.active_opponents, 2);
}

#[test]
fn hero_call_plays_on_to_the_flop() {
    let mut s = preflop_table();
    let pending = apply_action_with_rolls(&mut s, "call", None, &[1; 10]);
    assert!(!pending);
    assert!(!s.hand_over);
    assert_eq!(s.street, Street::Flop);
    assert_eq!(s.community_cards, board()[0..3].to_vec());
    assert_eq!(s.players[0].stack, 9900);
    assert_eq!(s.pot, 250);
    assert_eq!(s.street_bet, 0);
    assert!(s.players.iter().all(|p| p.current_bet == 0));
    assert!(s.hero_to_act);
    assert_eq!(s.action_on, 0);
    let flop = format!("--- Flop: {} {} {} ---", card_str(&board()[0]), card_str(&board()[1]), card_str(&board()[2]));
    assert_eq!(flop, "--- Flop: 2\u{2665} 7\u{2666} 9\u{2663} ---");
    assert_eq!(
        history(&s),
        vec![
            line("Villain 1", "posts SB 50"),
            line("Villain 2", "posts BB 100"),
            line("Hero", "calls 100"),
            line("Villain 1", "folds"),
            line("Villain 2", "checks"),
            line("", &flop),
            line("Villain 2", "checks"),
        ]
    );
    let l = s.legal_actions;
    assert!(l.can_check && l.can_bet && !l.can_fold && !l.can_call && !l.can_raise);
    assert_eq!(l.min_bet, 100);
    assert_eq!(l.max_amount, 9900);
    assert_eq!(total_chips(&s), 30000);
}

#[test]
fn hero_raise_wins_when_both_bots_fold() {
    let mut s = preflop_table();
    let pending = apply_action_with_rolls(&mut s, "raise", Some(300), &[0; 10]);
    assert!(!pending);
    assert!(s.hand_over);
    assert_eq!(s.players[0].stack, 10150);
    assert_eq!(s.result_message.as_deref(), Some("Hero wins 450 (others folded)"));
    assert_eq!(
        history(&s)[2..].to_vec(),
        vec![line("Hero", "raises to 300"), line("Villain 1", "folds"), line("Villain 2", "folds")]
    );
}

#[test]
fn raise_without_amount_doubles_the_bet() {
    let mut s = preflop_table();
    apply_action_with_rolls(&mut s, "raise", None, &[0; 10]);
    assert_eq!(history(&s)[2], line("Hero", "raises to 200"));
    assert_eq!(s.result_message.as_deref(), Some("Hero wins 350 (others folded)"));
}

#[test]
fn bet_without_amount_is_one_big_blind() {
    let mut s = preflop_table();
    apply_action_with_rolls(&mut s, "call", None, &[1; 10]);
    let pending = apply_action_with_rolls(&mut s, "bet", None, &[1; 10]);
    assert!(!pending);
    assert_eq!(history(&s)[7..].to_vec(), vec![line("Hero", "bets 100"), line("Villain 2", "folds")]);
    assert!(s.hand_over);
    assert_eq!(s.result_message.as_deref(), Some("Hero wins 350 (others folded)"));
    assert_eq!(s.players[0].stack, 9800 + 350);
    assert_eq!(s.decision_snapshots.len(), 2);
    assert_eq!(s.decision_snapshots[1].street, "Flop");
    assert_eq!(s.decision_snapshots[1].call_amount, 0);
    assert_eq!(s.decision_snapshots[1].community_cards.len(), 3);
    assert_eq!(s.decision_snapshots[1].active_opponents, 1);
}

#[test]
fn an_unknown_word_passes_the_turn_without_acting() {
    let mut s = preflop_table();
    let pending = apply_action_with_rolls(&mut s, "dance", None, &[1; 10]);
    assert!(!pending);
    assert!(s.hero_to_act);
    assert_eq!(s.action_on, 0);
    assert_eq!(s.street, Street::Preflop);
    assert_eq!(s.players[0].stack, 10000);
    assert_eq!(
        history(&s)[2..].to_vec(),
        vec![line("Villain 1", "folds"), line("Villain 2", "checks")]
    );
    assert_eq!(s.decision_snapshots.len(), 1);
    assert_eq!(s.decision_snapshots[0].action_taken, "dance");
}

#[test]
fn bots_stop_when_their_dice_run_out() {
    let mut s = preflop_table();
    let pending = apply_action_with_rolls(&mut s, "call", None, &[]);
    assert!(pending);
    assert!(!s.hero_to_act);
    assert!(!s.hand_over);
    assert_eq!(s.action_on, 1);
    assert_eq!(s.pot, 250);
}

#[test]
fn a_strong_bot_reraises_to_three_times_the_bet() {
    let holes = vec![
        [c(14, Suit::Spades), c(14, Suit::Hearts)],
        [c(14, Suit::Clubs), c(14, Suit::Diamonds)],
        [c(4, Suit::Clubs), c(5, Suit::Diamonds)],
    ];
    let mut s = build_scenario(3, 0, 0, vec![10000; 3], holes, board(), 50, 100, Street::Preflop, &[0; 9], &[]);
    let pending = apply_action_with_rolls(&mut s, "raise", Some(300), &[0; 10]);
    assert!(!pending);
    assert_eq!(
        history(&s)[2..].to_vec(),
        vec![line("Hero", "raises to 300"), line("Villain 1", "raises to 900"), line("Villain 2", "folds")]
    );
    assert!(s.hero_to_act);
    assert_eq!(s.street_bet, 900);
    assert_eq!(s.pot, 100 + 300 + 900);
    let l = s.legal_actions;
    assert!(l.can_fold && l.can_call && l.can_raise);
    assert_eq!(l.call_amount, 600);
    assert_eq!(l.min_raise, 1800);
}

#[test]
fn river_setup_simulates_the_earlier_streets() {
    let holes = vec![
        [c(14, Suit::Spades), c(14, Suit::Hearts)],
        [c(3, Suit::Clubs), c(4, Suit::Diamonds)],
        [c(5, Suit::Clubs), c(6, Suit::Diamonds)],
    ];
    let s = river_table(holes, board());
    assert_eq!(s.street, Street::River);
    assert_eq!(s.community_cards, board());
    assert_eq!(s.pot, 250);
    assert_eq!(s.players[0].stack, 9950);
    assert_eq!(s.players[1].stack, 9900);
    assert_eq!(s.players[2].stack, 9900);
    assert!(s.players.iter().all(|p| p.current_bet == 0 && p.status == PlayerStatus::Active));
    assert!(s.hero_to_act);
    assert_eq!(s.action_on, 0);
    assert_eq!(
        history(&s),
        vec![
            line("Hero", "posts SB 50"),
            line("Villain 1", "posts BB 100"),
            line("Villain 2", "calls 100"),
            line("Villain 1", "checks"),
            line("", "--- Flop: 2\u{2665} 7\u{2666} 9\u{2663} ---"),
            line("Villain 1", "checks"),
            line("Villain 2", "checks"),
            line("", "--- Turn: J\u{2660} ---"),
            line("Villain 1", "checks"),
            line("Villain 2", "checks"),
            line("", "--- River: K\u{2665} ---"),
        ]
    );
    assert_eq!(total_chips(&s), 30000);
}

#[test]
fn showdown_pays_the_best_hand() {
    let holes = vec![
        [c(14, Suit::Spades), c(14, Suit::Hearts)],
        [c(3, Suit::Clubs), c(4, Suit::Diamonds)],
        [c(5, Suit::Clubs), c(6, Suit::Diamonds)],
    ];
    let mut s = river_table(holes, board());
    let pending = apply_action_with_rolls(&mut s, "check", None, &[1; 10]);
    assert!(!pending);
    assert!(s.hand_over);
    assert!(!s.hero_to_act);
    assert_eq!(s.street, Street::Showdown);
    assert_eq!(s.result_message.as_deref(), Some("Hero wins 250 \u{2014} One Pair"));
    assert_eq!(s.players[0].stack, 9950 + 250);
    assert_eq!(s.players[1].stack, 9900);
    assert_eq!(s.players[2].stack, 9900);
    let shown = visible_players(&s);
    assert!(shown.iter().all(|p| p.hole_cards.is_some()));
}

#[test]
fn equal_best_hands_split_the_pot() {
    let royal = vec![c(10, Suit::Spades), c(11, Suit::Spades), c(12, Suit::Spades), c(13, Suit::Spades), c(14, Suit::Spades)];
    let holes = vec![
        [c(2, Suit::Clubs), c(3, Suit::Diamonds)],
        [c(4, Suit::Clubs), c(5, Suit::Diamonds)],
        [c(6, Suit::Clubs), c(7, Suit::Diamonds)],
    ];
    let mut s = river_table(holes, royal);
    apply_action_with_rolls(&mut s, "check", None, &[1; 10]);
    assert!(s.hand_over);
    assert_eq!(s.result_message.as_deref(), Some("Split pot (83 each) \u{2014} Hero, Villain 1, Villain 2"));
    assert_eq!(s.players[0].stack, 9950 + 83);
    assert_eq!(s.players[1].stack, 9900 + 83);
    assert_eq!(s.players[2].stack, 9900 + 83);
}

#[test]
fn a_strong_bot_bets_sixty_percent_of_the_pot() {
    let holes = vec![
        [c(14, Suit::Spades), c(14, Suit::Hearts)],
        [c(13, Suit::Clubs), c(12, Suit::Diamonds)],
        [c(5, Suit::Clubs), c(6, Suit::Diamonds)],
    ];
    let mut s = river_table(holes, board());
    let pending = apply_action_with_rolls(&mut s, "check", None, &[1; 10]);
    assert!(!pending);
    assert_eq!(
        history(&s)[11..].to_vec(),
        vec![line("Hero", "checks"), line("Villain 1", "bets 150"), line("Villain 2", "folds")]
    );
    assert!(s.hero_to_act);
    assert_eq!(s.legal_actions.call_amount, 150);
    assert_eq!(s.legal_actions.min_raise, 300);
}

#[test]
fn a_medium_bot_bets_forty_percent_on_a_roll_divisible_by_three() {
    let holes = vec![
        [c(14, Suit::Spades), c(14, Suit::Hearts)],
        [c(12, Suit::Clubs), c(8, Suit::Diamonds)],
        [c(5, Suit::Clubs), c(6, Suit::Diamonds)],
    ];
    let mut checked = river_table(holes.clone(), board());
    apply_action_with_rolls(&mut checked, "check", None, &[1; 10]);
    assert_eq!(history(&checked)[12], line("Villain 1", "checks"));
    let mut bet = river_table(holes, board());
    apply_action_with_rolls(&mut bet, "check", None, &[3; 10]);
    assert_eq!(history(&bet)[12], line("Villain 1", "bets 100"));
}

#[test]
fn random_bot_moves_match_some_dice() {
    let mut s = preflop_table();
    apply_action(&mut s, "fold", None);
    assert!(s.hand_over);
    assert_eq!(s.result_message.as_deref(), Some("Villain 2 wins 150 (others folded)"));
}

#[test]
fn villains_cards_stay_hidden_while_the_hand_runs() {
    let s = preflop_table();
    let shown = visible_players(&s);
    assert_eq!(shown[0].hole_cards, Some([c(14, Suit::Spades), c(14, Suit::Hearts)]));
    assert_eq!(shown[1].hole_cards, None);
    assert_eq!(shown[2].hole_cards, None);
    assert_eq!(shown[1].stack, s.players[1].stack);
    assert_eq!(shown[2].name, "Villain 2");
}

#[test]
fn chips_are_kept_while_the_hand_runs() {
    let mut s = preflop_table();
    apply_action_with_rolls(&mut s, "call", None, &[1; 10]);
    assert_eq!(total_chips(&s), 30000);
    apply_action_with_rolls(&mut s, "check", None, &[1; 10]);
    if !s.hand_over {
        assert_eq!(total_chips(&s), 30000);
    } else {
        let stacks: u64 = s.players.iter().map(|p| p.stack as u64).sum();
        assert!(stacks <= 30000);
    }
}

#[test]
fn a_seat_without_cards_plays_on_and_is_skipped_at_the_showdown() {
    let mut s = preflop_table();
    s.players[2].hole_cards = None;
    apply_action_with_rolls(&mut s, "call", None, &[1; 10]);
    assert_eq!(s.street, Street::Flop);
    assert_eq!(history(&s)[4], line("Villain 2", "checks"));
    apply_action_with_rolls(&mut s, "check", None, &[1; 10]);
    assert_eq!(s.street, Street::Turn);
    apply_action_with_rolls(&mut s, "check", None, &[1; 10]);
    assert_eq!(s.street, Street::River);
    let pending = apply_action_with_rolls(&mut s, "check", None, &[1; 10]);
    assert!(!pending);
    assert!(s.hand_over);
    assert_eq!(s.street, Street::Showdown);
    assert_eq!(s.result_message.as_deref(), Some("Hero wins 250 \u{2014} One Pair"));
    assert_eq!(s.players[0].stack, 9900 + 250);
}

#[test]
fn a_hero_without_cards_leaves_no_decision_to_review() {
    let mut s = preflop_table();
    s.players[0].hole_cards = None;
    apply_action_with_rolls(&mut s, "fold", None, &[0; 10]);
    assert!(s.hand_over);
    assert!(s.decision_snapshots.is_empty());
}

#[test]
fn a_bet_above_the_pot_is_carried_as_it_is() {
    let mut s = preflop_table();
    // A bet larger than the pot: the hero already has 500 in front.
    s.players[0].current_bet = 500;
    s.players[0].stack = 9500;
    apply_action_with_rolls(&mut s, "raise", None, &[0; 10]);
    // Raising to twice the bet (200) adds nothing to a bet of 500.
    assert_eq!(history(&s)[2], line("Hero", "raises to 500"));
    assert_eq!(s.players[0].stack, 9500 + 150);
}

#[test]
fn a_split_pot_leaves_only_its_remainder_unpaid() {
    let royal = vec![c(10, Suit::Spades), c(11, Suit::Spades), c(12, Suit::Spades), c(13, Suit::Spades), c(14, Suit::Spades)];
    let holes = vec![
        [c(2, Suit::Clubs), c(3, Suit::Diamonds)],
        [c(4, Suit::Clubs), c(5, Suit::Diamonds)],
        [c(6, Suit::Clubs), c(7, Suit::Diamonds)],
    ];
    let mut s = river_table(holes, royal);
    assert_eq!(total_chips(&s), 30000);
    apply_action_with_rolls(&mut s, "check", None, &[1; 10]);
    assert!(s.hand_over);
    let stacks: u64 = s.players.iter().map(|p| p.stack as u64).sum();
    // 250 shared by three: 83 each, one chip left over.
    assert_eq!(stacks + 250 % 3, 30000);
}

#[test]
fn random_bots_hand_the_turn_back_or_end_the_hand() {
    for _ in 0..20 {
        let mut s = preflop_table();
        apply_action(&mut s, "call", None);
        assert!(s.hand_over || (s.hero_to_act && s.players[s.action_on].is_hero));
        if !s.hand_over {
            assert_eq!(total_chips(&s), 30000);
        }
    }
}
