use poker_engine::cards::{full_deck, Card, Suit};
use poker_engine::equity::{
    equity_detail, equity_tally, monte_carlo_counts, monte_carlo_detail, remaining_deck, trial_outcome,
    trial_with_sample, DetailOutcome, EquityOutcome, TrialResult,
};
use poker_engine::rank::{beats, rank_cards, ties, HandCategory};
use poker_engine::scenario::{build_scenario, new_game, simulate_street_bots};
use poker_engine::state::{ActionRecord, GameState, Player, PlayerStatus, Street};

fn c(rank: u8, suit: Suit) -> Card {
    Card::new(rank, suit)
}

fn board() -> Vec<Card> {
    vec![c(2, Suit::Hearts), c(7, Suit::Diamonds), c(9, Suit::Clubs), c(11, Suit::Spades), c(13, Suit::Hearts)]
}

fn holes() -> Vec<[Card; 2]> {
    vec![
        [c(14, Suit::Spades), c(14, Suit::Hearts)],
        [c(2, Suit::Clubs), c(3, Suit::Diamonds)],
        [c(4, Suit::Clubs), c(5, Suit::Diamonds)],
    ]
}

fn key(card: &Card) -> (u8, u8) {
    let s = match card.suit {
        Suit::Clubs => 0,
        Suit::Diamonds => 1,
        Suit::Hearts => 2,
        Suit::Spades => 3,
    };
    (card.rank, s)
}

#[test]
fn flop_setup_deals_three_cards_after_the_simulated_preflop() {
    // Button 0: seat 1 posts the small blind, seat 2 the big blind; the weak
    // small blind folds to its die, the big blind checks.
    let s = build_scenario(3, 0, 0, vec![10000; 3], holes(), board(), 50, 100, Street::Flop, &[0; 9], &[]);
    assert_eq!(s.street, Street::Flop);
    assert_eq!(s.community_cards, board()[0..3].to_vec());
    assert_eq!(s.players[1].status, PlayerStatus::Folded);
    assert_eq!(s.players[2].status, PlayerStatus::Active);
    assert_eq!(s.pot, 150);
    assert_eq!(s.players[1].stack, 9950);
    assert_eq!(s.players[2].stack, 9900);
    assert!(s.players.iter().all(|p| p.current_bet == 0));
    assert_eq!(s.street_bet, 0);
    assert_eq!(s.needs_action, vec![true, false, true]);
    assert_eq!(s.action_on, 2);
    assert!(!s.hero_to_act);
    let descs: Vec<String> = s.action_history.iter().map(|r| r.description.clone()).collect();
    assert_eq!(descs, vec!["posts SB 50", "posts BB 100", "folds", "checks", "--- Flop: 2\u{2665} 7\u{2666} 9\u{2663} ---"]);
}

#[test]
fn flop_setup_lets_a_first_bot_move() {
    let s = build_scenario(3, 0, 0, vec![10000; 3], holes(), board(), 50, 100, Street::Flop, &[0; 9], &[1; 5]);
    assert!(s.hero_to_act);
    assert_eq!(s.action_on, 0);
    assert_eq!(s.action_history.last().map(|r| r.description.clone()), Some("checks".to_string()));
}

#[test]
fn setup_falls_back_to_preflop_when_every_opponent_folds() {
    // Button 1: the hero posts the big blind; both bots fold to their dice.
    let s = build_scenario(3, 0, 1, vec![8000, 9000, 10000], holes(), board(), 50, 100, Street::Turn, &[0; 9], &[]);
    assert_eq!(s.street, Street::Preflop);
    assert!(s.community_cards.is_empty());
    assert!(s.players.iter().all(|p| p.status == PlayerStatus::Active));
    assert_eq!(s.pot, 150);
    assert_eq!(s.players[0].stack, 7900);
    assert_eq!(s.players[1].stack, 9000);
    assert_eq!(s.players[2].stack, 9950);
    assert_eq!(s.action_history.len(), 2);
    assert_eq!(s.action_history[0].player_name, "Villain 2");
    assert_eq!(s.action_history[1].player_name, "Hero");
    assert_eq!(s.action_on, 1);
    assert!(!s.hero_to_act);
}

#[test]
fn short_stacks_post_what_they_have() {
    let s = build_scenario(3, 0, 0, vec![10000, 30, 60], holes(), board(), 50, 100, Street::Preflop, &[0; 9], &[]);
    assert_eq!(s.players[1].current_bet, 30);
    assert_eq!(s.players[1].stack, 0);
    assert_eq!(s.players[2].current_bet, 60);
    assert_eq!(s.pot, 90);
    assert_eq!(s.action_history[0].description, "posts SB 30");
    assert_eq!(s.action_history[1].description, "posts BB 60");
}

#[test]
fn four_handed_preflop_starts_left_of_the_big_blind() {
    let mut h = holes();
    h.push([c(6, Suit::Clubs), c(8, Suit::Diamonds)]);
    let s = build_scenario(4, 0, 1, vec![10000; 4], h, board(), 50, 100, Street::Preflop, &[0; 12], &[]);
    assert_eq!(s.action_on, 0);
    assert!(s.hero_to_act);
    assert_eq!(s.players[0].position, "UTG");
    assert_eq!(s.players[1].position, "BTN");
}

#[test]
fn bots_alone_call_or_fold_by_their_dice() {
    let mut players: Vec<Player> = (0..3)
        .map(|i| Player {
            id: i,
            name: if i == 0 { "Hero".to_string() } else { format!("Villain {}", i) },
            position: String::new(),
            stack: 1000,
            hole_cards: Some(holes()[i]),
            is_hero: i == 0,
            status: PlayerStatus::Active,
            current_bet: 0,
        })
        .collect();
    let mut pot = 0u32;
    let mut hist: Vec<ActionRecord> = Vec::new();
    // Seat 1 folds (die 0), seat 2 calls (die 99); the hero is skipped.
    simulate_street_bots(&mut players, &mut pot, 0, 100, 100, true, &[0, 0, 99], &mut hist);
    assert_eq!(players[0].stack, 1000);
    assert_eq!(players[1].status, PlayerStatus::Folded);
    assert_eq!(players[2].stack, 900);
    assert_eq!(players[2].current_bet, 100);
    assert_eq!(pot, 100);
    let descs: Vec<String> = hist.iter().map(|r| r.description.clone()).collect();
    assert_eq!(descs, vec!["folds", "calls 100"]);
}

#[test]
fn a_new_game_is_a_consistent_table() {
    for _ in 0..20 {
        let s = new_game();
        let n = s.players.len();
        assert!((2..=9).contains(&n));
        assert!(s.players[0].is_hero);
        assert!(s.players[1..].iter().all(|p| !p.is_hero));
        assert_eq!(s.small_blind, 50);
        assert_eq!(s.big_blind, 100);
        assert_eq!(s.board.len(), 5);
        let mut cards: Vec<(u8, u8)> = s.board.iter().map(key).collect();
        for p in &s.players {
            let h = p.hole_cards.expect("every seat is dealt");
            cards.push(key(&h[0]));
            cards.push(key(&h[1]));
        }
        let total = cards.len();
        cards.sort();
        cards.dedup();
        assert_eq!(cards.len(), total);
        if !s.hand_over {
            assert!(s.hero_to_act);
            let chips: u64 = s.pot as u64 + s.players.iter().map(|p| p.stack as u64).sum::<u64>();
            assert!(chips >= 2 * 2000 && chips <= 9 * 15000);
            let shown = match s.street {
                Street::Preflop => 0,
                Street::Flop => 3,
                Street::Turn => 4,
                _ => 5,
            };
            assert_eq!(s.community_cards, s.board[0..shown].to_vec());
        }
    }
}

#[test]
fn remaining_deck_leaves_out_the_known_cards() {
    let hero = [c(14, Suit::Spades), c(14, Suit::Hearts)];
    let community = board()[0..3].to_vec();
    let rest = remaining_deck(&hero, &community);
    assert_eq!(rest.len(), 47);
    assert!(!rest.contains(&hero[0]) && !rest.contains(&hero[1]));
    assert!(community.iter().all(|x| !rest.contains(x)));
    let all = full_deck();
    assert!(all.iter().all(|x| rest.contains(x) || hero.contains(x) || community.contains(x)));
}

#[test]
fn a_royal_flush_wins_every_trial() {
    let hero = [c(14, Suit::Spades), c(13, Suit::Spades)];
    let community = vec![c(12, Suit::Spades), c(11, Suit::Spades), c(10, Suit::Spades), c(2, Suit::Hearts), c(3, Suit::Diamonds)];
    let t = monte_carlo_counts(&hero, &community, 3, 200).expect("enough cards");
    assert_eq!(t.wins, 200);
    assert_eq!(t.ties, 0);
    assert_eq!(t.losses, 0);
}

#[test]
fn a_board_everyone_plays_ties_every_trial() {
    let hero = [c(2, Suit::Clubs), c(3, Suit::Diamonds)];
    let community = vec![c(10, Suit::Spades), c(11, Suit::Spades), c(12, Suit::Spades), c(13, Suit::Spades), c(14, Suit::Spades)];
    let t = monte_carlo_counts(&hero, &community, 2, 100).expect("enough cards");
    assert_eq!(t.ties, 100);
    assert_eq!(t.wins + t.losses, 0);
}

#[test]
fn counts_add_up_to_the_trials() {
    let hero = [c(9, Suit::Clubs), c(9, Suit::Diamonds)];
    let t = monte_carlo_counts(&hero, &[], 2, 500).expect("enough cards");
    assert_eq!(t.wins + t.ties + t.losses, 500);
    assert!(t.wins > 0 && t.losses > 0);
}

#[test]
fn too_many_opponents_leave_too_few_cards() {
    let hero = [c(9, Suit::Clubs), c(9, Suit::Diamonds)];
    assert!(monte_carlo_counts(&hero, &[], 22, 10).is_some());
    assert!(monte_carlo_counts(&hero, &[], 23, 10).is_none());
    assert!(monte_carlo_counts(&hero, &[], usize::MAX, 10).is_none());
    assert!(!monte_carlo_detail(&hero, &[], usize::MAX / 2, 10).enough);
    let d = monte_carlo_detail(&hero, &[], 24, 10);
    assert!(!d.enough);
    assert_eq!(d.trials, 0);
    assert_eq!(d.remaining_deck_size, 50);
    assert_eq!(d.cards_to_come, 5);
    assert_eq!(d.tally.wins + d.tally.ties + d.tally.losses, 0);
    assert!(d.sample_trials.is_empty());
}

#[test]
fn one_dealt_trial_is_judged_against_the_best_opponent() {
    let hero = [c(14, Suit::Spades), c(14, Suit::Hearts)];
    let community = board()[0..3].to_vec();
    // The rest of the board, then two cards for each of two opponents.
    let deal = vec![
        c(3, Suit::Spades), c(4, Suit::Hearts),
        c(9, Suit::Diamonds), c(9, Suit::Hearts),
        c(5, Suit::Clubs), c(6, Suit::Clubs),
    ];
    assert_eq!(trial_outcome(&hero, &community, &deal, 2), TrialResult::Lose);
    assert_eq!(trial_outcome(&hero, &community, &deal, 0), TrialResult::Win);
    let weak = vec![
        c(3, Suit::Spades), c(4, Suit::Hearts),
        c(8, Suit::Diamonds), c(10, Suit::Hearts),
    ];
    assert_eq!(trial_outcome(&hero, &community, &weak, 1), TrialResult::Win);
}

#[test]
fn detailed_equity_keeps_five_samples() {
    let hero = [c(14, Suit::Spades), c(14, Suit::Hearts)];
    let community = board()[0..4].to_vec();
    let d = monte_carlo_detail(&hero, &community, 2, 50);
    assert!(d.enough);
    assert_eq!(d.trials, 50);
    assert_eq!(d.tally.wins + d.tally.ties + d.tally.losses, 50);
    assert_eq!(d.remaining_deck_size, 46);
    assert_eq!(d.cards_to_come, 1);
    assert_eq!(d.cards_per_opp, 2);
    assert_eq!(d.num_opponents, 2);
    assert_eq!(d.sample_trials.len(), 5);
    for s in &d.sample_trials {
        assert_eq!(s.extra_community.len(), 1);
        assert_eq!(s.opponent_cards.len(), 2);
        assert!(["Win", "Tie", "Lose"].contains(&s.result.as_str()));
        assert!(!s.hero_rank.is_empty() && !s.best_opp_rank.is_empty());
    }
    let few = monte_carlo_detail(&hero, &community, 2, 3);
    assert_eq!(few.sample_trials.len(), 3);
}

fn table() -> GameState {
    build_scenario(3, 0, 0, vec![10000; 3], holes(), board(), 50, 100, Street::Preflop, &[0; 9], &[])
}

#[test]
fn equity_of_a_game_state() {
    let s = table();
    match equity_tally(&s, 300) {
        EquityOutcome::Counted(t) => assert_eq!(t.wins + t.ties + t.losses, 300),
        other => panic!("expected counts, got {:?}", other),
    }
    let mut alone = table();
    alone.players[1].status = PlayerStatus::Folded;
    alone.players[2].status = PlayerStatus::Folded;
    assert_eq!(equity_tally(&alone, 300), EquityOutcome::NoOpponents);
    let mut no_hero = table();
    no_hero.players[0].is_hero = false;
    assert_eq!(equity_tally(&no_hero, 300), EquityOutcome::NoHeroCards);
    let mut no_cards = table();
    no_cards.players[0].hole_cards = None;
    assert_eq!(equity_tally(&no_cards, 300), EquityOutcome::NoHeroCards);
    // Without an opponent the board is not looked at.
    let mut long_board = table();
    long_board.players[1].status = PlayerStatus::Folded;
    long_board.players[2].status = PlayerStatus::Folded;
    long_board.community_cards = board();
    long_board.community_cards.push(c(3, Suit::Spades));
    assert_eq!(equity_tally(&long_board, 300), EquityOutcome::NoOpponents);
    let mut crowded = table();
    for i in 3..26 {
        let mut p = crowded.players[1].clone();
        p.id = i;
        crowded.players.push(p);
    }
    assert_eq!(equity_tally(&crowded, 300), EquityOutcome::TooFewCards);
}

#[test]
fn detailed_equity_of_a_game_state() {
    let s = table();
    match equity_detail(&s, 100) {
        DetailOutcome::Simulated(d) => {
            assert!(d.enough);
            assert_eq!(d.num_opponents, 2);
            assert_eq!(d.remaining_deck_size, 50);
            assert_eq!(d.tally.wins + d.tally.ties + d.tally.losses, 100);
        }
        other => panic!("expected a simulation, got {:?}", other),
    }
    let mut alone = table();
    alone.players[1].status = PlayerStatus::Folded;
    alone.players[2].status = PlayerStatus::Folded;
    assert!(matches!(equity_detail(&alone, 100), DetailOutcome::NoOpponents));
    let mut no_hero = table();
    no_hero.players[0].is_hero = false;
    assert!(matches!(equity_detail(&no_hero, 100), DetailOutcome::NoHeroCards));
}

#[test]
fn hands_are_ranked_by_class_then_detail() {
    let royal = rank_cards(&[c(14, Suit::Spades), c(13, Suit::Spades), c(12, Suit::Spades), c(11, Suit::Spades), c(10, Suit::Spades)]);
    let pair = rank_cards(&[c(14, Suit::Spades), c(14, Suit::Hearts), c(2, Suit::Clubs), c(7, Suit::Diamonds), c(9, Suit::Clubs)]);
    let lower_pair = rank_cards(&[c(13, Suit::Spades), c(13, Suit::Hearts), c(2, Suit::Clubs), c(7, Suit::Diamonds), c(9, Suit::Clubs)]);
    let same_pair = rank_cards(&[c(14, Suit::Clubs), c(14, Suit::Diamonds), c(2, Suit::Hearts), c(7, Suit::Spades), c(9, Suit::Hearts)]);
    assert_eq!(royal.category, HandCategory::StraightFlush);
    assert_eq!(pair.category, HandCategory::OnePair);
    assert!(beats(royal, pair));
    assert!(!beats(pair, royal));
    assert!(beats(pair, lower_pair));
    assert!(ties(pair, same_pair));
    assert!(!ties(pair, lower_pair));
    let seven = rank_cards(&[
        c(2, Suit::Hearts), c(2, Suit::Diamonds), c(8, Suit::Diamonds), c(8, Suit::Spades),
        c(13, Suit::Diamonds), c(6, Suit::Spades), c(10, Suit::Hearts),
    ]);
    assert_eq!(seven.category, HandCategory::TwoPair);
}

#[test]
fn sampled_trials_name_the_hand_classes() {
    let hero = [c(14, Suit::Spades), c(13, Suit::Spades)];
    let deal = vec![
        c(12, Suit::Spades), c(11, Suit::Spades), c(10, Suit::Spades), c(2, Suit::Hearts), c(2, Suit::Diamonds),
        c(3, Suit::Clubs), c(3, Suit::Diamonds),
    ];
    let (r, s) = trial_with_sample(&hero, &[], &deal, 1);
    assert_eq!(r, TrialResult::Win);
    assert_eq!(s.extra_community, deal[0..5].to_vec());
    assert_eq!(s.opponent_cards, vec![c(3, Suit::Clubs), c(3, Suit::Diamonds)]);
    assert_eq!(s.hero_rank, "Straight Flush");
    assert_eq!(s.best_opp_rank, "Two Pair");
    assert_eq!(s.result, "Win");

    let hero = [c(7, Suit::Clubs), c(2, Suit::Diamonds)];
    let community = vec![c(9, Suit::Spades), c(9, Suit::Hearts), c(9, Suit::Diamonds), c(4, Suit::Clubs)];
    let deal = vec![c(4, Suit::Hearts), c(14, Suit::Clubs), c(14, Suit::Diamonds)];
    let (r, s) = trial_with_sample(&hero, &community, &deal, 1);
    assert_eq!(r, TrialResult::Lose);
    assert_eq!(s.extra_community, vec![c(4, Suit::Hearts)]);
    assert_eq!(s.hero_rank, "Full House");
    assert_eq!(s.best_opp_rank, "Full House");
    assert_eq!(s.result, "Lose");

    let hero = [c(5, Suit::Clubs), c(6, Suit::Diamonds)];
    let community = vec![c(7, Suit::Hearts), c(8, Suit::Spades), c(9, Suit::Diamonds), c(13, Suit::Clubs), c(2, Suit::Spades)];
    let deal = vec![c(13, Suit::Diamonds), c(13, Suit::Hearts), c(3, Suit::Hearts), c(4, Suit::Diamonds)];
    let (r, s) = trial_with_sample(&hero, &community, &deal, 2);
    assert_eq!(r, TrialResult::Win);
    assert!(s.extra_community.is_empty());
    assert_eq!(s.hero_rank, "Straight");
    assert_eq!(s.best_opp_rank, "Three of a Kind");

    let hero = [c(2, Suit::Clubs), c(3, Suit::Diamonds)];
    let community = vec![c(10, Suit::Spades), c(11, Suit::Spades), c(12, Suit::Spades), c(13, Suit::Spades), c(14, Suit::Spades)];
    let deal = vec![c(4, Suit::Clubs), c(5, Suit::Diamonds)];
    let (r, s) = trial_with_sample(&hero, &community, &deal, 1);
    assert_eq!(r, TrialResult::Tie);
    assert_eq!(s.result, "Tie");

    let hero = [c(2, Suit::Clubs), c(4, Suit::Diamonds)];
    let community = vec![c(7, Suit::Hearts), c(9, Suit::Spades), c(11, Suit::Diamonds), c(13, Suit::Clubs), c(6, Suit::Spades)];
    let deal = vec![c(14, Suit::Hearts), c(14, Suit::Diamonds), c(3, Suit::Hearts), c(3, Suit::Spades)];
    let (r, s) = trial_with_sample(&hero, &community, &deal, 2);
    assert_eq!(r, TrialResult::Lose);
    assert_eq!(s.hero_rank, "High Card");
    assert_eq!(s.best_opp_rank, "One Pair");
    assert_eq!(s.opponent_cards, vec![c(14, Suit::Hearts), c(14, Suit::Diamonds)]);
}

#[test]
fn random_draws_make_varied_games() {
    let mut sizes = Vec::new();
    let mut hero_hands = Vec::new();
    for _ in 0..40 {
        let s = new_game();
        sizes.push(s.players.len());
        hero_hands.push(s.players[0].hole_cards.map(|h| (key(&h[0]), key(&h[1]))));
    }
    assert!(sizes.iter().all(|n| (2..=9).contains(n)));
    sizes.sort();
    sizes.dedup();
    assert!(sizes.len() > 1);
    hero_hands.sort();
    hero_hands.dedup();
    assert!(hero_hands.len() > 1);
}

#[test]
fn random_stacks_are_whole_big_blinds_in_range() {
    // With a bot-only table start the stacks may have moved; a hand the hero
    // opens before the flop shows them right after the blinds.
    for _ in 0..40 {
        let s = new_game();
        if s.street == Street::Preflop && s.action_history.len() == 2 {
            for p in &s.players {
                let start = p.stack + p.current_bet;
                assert!(start >= 2000 && start <= 15000);
                if p.current_bet == 0 {
                    assert_eq!(p.stack % 100, 0);
                }
            }
        }
    }
}

#[test]
fn dealt_trials_use_shuffled_cards() {
    // Two opponents with the same cards every trial would make every trial
    // alike; shuffled decks give different outcomes over many trials.
    let hero = [c(9, Suit::Clubs), c(9, Suit::Diamonds)];
    let d = monte_carlo_detail(&hero, &[], 1, 200);
    assert!(d.tally.wins > 0 && d.tally.losses > 0);
    let first: Vec<(u8, u8)> = d.sample_trials[0].opponent_cards.iter().map(key).collect();
    assert!(d.sample_trials.iter().any(|s| s.opponent_cards.iter().map(key).collect::<Vec<_>>() != first));
}

#[test]
fn a_street_without_bets_is_all_checks_whatever_the_dice() {
    let seats = || -> Vec<Player> {
        (0..3)
            .map(|i| Player {
                id: i,
                name: if i == 0 { "Hero".to_string() } else { format!("Villain {}", i) },
                position: String::new(),
                stack: 1000,
                hole_cards: Some(holes()[i]),
                is_hero: i == 0,
                status: PlayerStatus::Active,
                current_bet: 0,
            })
            .collect()
    };
    let mut first = seats();
    let mut pot1 = 300u32;
    let mut hist1: Vec<ActionRecord> = Vec::new();
    simulate_street_bots(&mut first, &mut pot1, 0, 0, 100, false, &[0, 0, 0], &mut hist1);
    let mut second = seats();
    let mut pot2 = 300u32;
    let mut hist2: Vec<ActionRecord> = Vec::new();
    simulate_street_bots(&mut second, &mut pot2, 0, 0, 100, false, &[99, 99, 99], &mut hist2);
    assert_eq!(pot1, 300);
    assert_eq!(pot2, 300);
    for i in 0..3 {
        assert_eq!(first[i].stack, 1000);
        assert_eq!(first[i].status, PlayerStatus::Active);
        assert_eq!(first[i].current_bet, 0);
        assert_eq!(second[i].stack, first[i].stack);
        assert_eq!(second[i].status, first[i].status);
    }
    let descs1: Vec<(String, String)> = hist1.iter().map(|r| (r.player_name.clone(), r.description.clone())).collect();
    let descs2: Vec<(String, String)> = hist2.iter().map(|r| (r.player_name.clone(), r.description.clone())).collect();
    assert_eq!(descs1, descs2);
    assert_eq!(descs1.len(), 2);
    assert!(descs1.iter().all(|(_, d)| d == "checks"));
}
