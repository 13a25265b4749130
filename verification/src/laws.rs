//! Laws of the engine: what every action keeps, where the turn goes, and how
//! a hand is set up.

use vstd::prelude::*;
use crate::engine::{lemma_first_actor_bound, lemma_active_indices_same_status, lemma_active_seats_listed, lemma_active_indices_props, lemma_advance_keeps, lemma_effects_keep,
    lemma_next_to_act_props, lemma_pay_each, lemma_scan_props, lemma_showdown_keeps, lemma_stack_total_nonneg_and_bounds,
    lemma_stack_total_update, lemma_street_reset_keeps};
use crate::play::{Action, action_of, is_active, active_indices, stack_total, chips, table_ok, playable, bets_bounded, with_snapshot, effects,
    seat_played, seats_played, street_index, someone_shows, cards_held, hero_shows, hero_keeps_cards, turn_can_pass, bots_can_play,
    action_can_play, board_shown, live, running, hero_turn, won_by_folds, round_over, next_to_act, street_reset,
    advance_spec, showdown, showdown_scan, shown_cards, pay_each, bot_move, play_bots, act_and_play, leaves_someone_in,
    split_remainder, next_street_spec, CHIP_LIMIT};
use crate::state::{GameModel, PlayerModel, PlayerStatus, Street};
use crate::rank::{HandRank, hand_rank, codes, rank_key};
use crate::cards::{Card, valid_card, deck_position, lemma_deck_complete_and_distinct};
use crate::equity::{in_use, unused_cards, fresh_deck, remaining_cards};
use crate::scenario::{valid_draws, dealt_holes, TableModel, sim_seat, sim_from, sim_first, simulated};

verus! {

/// Seat `i`, `k` seats after the one acting, is found by the search from
/// any offset up to `k`.
proof fn lemma_search_reaches(m: GameModel, i: int, k: int, offset: int)
    requires
        table_ok(m),
        0 <= i < m.players.len(),
        m.needs_action[i],
        is_active(m.players[i]),
        1 <= offset <= k <= m.players.len(),
        (m.action_on + k) % (m.players.len() as int) == i,
    ensures
        next_to_act(m, offset) is Some,
    decreases k - offset,
{
    let n = m.players.len() as int;
    let idx = (m.action_on + offset) % n;
    if !(m.needs_action[idx] && is_active(m.players[idx])) {
        assert(offset != k);
        lemma_search_reaches(m, i, k, offset + 1);
    }
}

/// While some active player must still act, the turn passes to someone.
pub proof fn lemma_next_to_act_found(m: GameModel)
    requires
        table_ok(m),
        !round_over(m),
    ensures
        next_to_act(m, 1) is Some,
{
    let n = m.players.len() as int;
    let i = choose|i: int| 0 <= i < m.needs_action.len() && #[trigger] m.needs_action[i] && is_active(m.players[i]);
    let a = m.action_on as int;
    if i > a {
        let k = i - a;
        vstd::arithmetic::div_mod::lemma_small_mod(i as nat, n as nat);
        lemma_search_reaches(m, i, k, 1);
    } else {
        let k = i - a + n;
        vstd::arithmetic::div_mod::lemma_mod_add_multiples_vanish(i, n);
        vstd::arithmetic::div_mod::lemma_small_mod(i as nat, n as nat);
        assert(a + k == n + i);
        lemma_search_reaches(m, i, k, 1);
    }
}


/// An action moves chips, bets, statuses and turns, and writes the history;
/// it leaves the board, the street, the snapshots and the end of the hand alone.
pub proof fn lemma_effects_frame(m: GameModel, a: Action, amount: Option<u32>)
    requires
        table_ok(m),
    ensures
        seats_played(m, effects(m, a, amount)),
        effects(m, a, amount).board == m.board,
        effects(m, a, amount).community_cards == m.community_cards,
        effects(m, a, amount).street == m.street,
        effects(m, a, amount).hand_over == m.hand_over,
        effects(m, a, amount).decision_snapshots == m.decision_snapshots,
        m.action_history.is_prefix_of(effects(m, a, amount).action_history),
{
    let e = effects(m, a, amount);
    assert(m.action_history =~= e.action_history.subrange(0, m.action_history.len() as int));
    assert forall|i: int| 0 <= i < m.players.len() implies seat_played(m.players[i], #[trigger] e.players[i]) by {}
}

/// The showdown's ranking reads only the hole cards of the seats it looks at
/// and the community cards.
proof fn lemma_scan_same_cards(m1: GameModel, m2: GameModel, act: Seq<usize>)
    requires
        m1.community_cards == m2.community_cards,
        m1.players.len() == m2.players.len(),
        forall|k: int| 0 <= k < act.len() ==> #[trigger] act[k] < m1.players.len(),
        forall|i: int| 0 <= i < m1.players.len() ==> (#[trigger] m1.players[i]).hole_cards == m2.players[i].hole_cards,
    ensures
        showdown_scan(m1, act) == showdown_scan(m2, act),
    decreases act.len(),
{
    if act.len() > 0 {
        let d = act.drop_last();
        assert forall|k: int| 0 <= k < d.len() implies #[trigger] d[k] < m1.players.len() by {
            assert(d[k] == act[k]);
        }
        lemma_scan_same_cards(m1, m2, d);
        assert(act[act.len() - 1] < m1.players.len());
        assert(m1.players[act.last() as int].hole_cards == m2.players[act.last() as int].hole_cards);
    }
}

/// Passing the turn after an action in a running hand: the table keeps its
/// shape and chips until someone wins; the board is shown as the street
/// says; the history only grows; and unless the hand ended or a bot is due,
/// the hero holds the turn.
pub proof fn lemma_turn_passes(e: GameModel)
    requires
        table_ok(e),
        chips(e) <= CHIP_LIMIT,
        bets_bounded(e),
        active_indices(e.players).len() >= 1,
        turn_can_pass(e),
        !e.hand_over,
        e.street != Street::Showdown,
    ensures
        ({
            let (a, due) = advance_spec(e);
            &&& table_ok(a)
            &&& a.pot == e.pot
            &&& a.board == e.board
            &&& board_shown(e) ==> board_shown(a)
            &&& a.decision_snapshots == e.decision_snapshots
            &&& e.action_history.is_prefix_of(a.action_history)
            &&& !a.hand_over ==> chips(a) == chips(e) && a.street != Street::Showdown
                && active_indices(a.players).len() >= 2 && bets_bounded(a)
            &&& a.hand_over ==> stack_total(a.players) <= chips(e) && !a.hero_to_act && !due
                && stack_total(a.players) + e.players.len() > chips(e)
                && (a.street != Street::Showdown ==> stack_total(a.players) == chips(e))
                && stack_total(a.players) + split_remainder(a) == chips(e)
            &&& !due && !a.hand_over ==> hero_turn(a)
            &&& due ==> !a.players[a.action_on as int].is_hero && !a.hero_to_act
            &&& seats_played(e, a)
            &&& street_index(a.street) >= street_index(e.street)
        }),
{
    lemma_advance_keeps(e);
    lemma_active_indices_props(e.players);
    let act = active_indices(e.players);
    let (a, due) = advance_spec(e);
    if act.len() == 1 {
        assert(a == won_by_folds(e, act[0] as int));
        let w = act[0] as int;
        let p = e.players[w];
        lemma_stack_total_update(e.players, w, PlayerModel { stack: (p.stack + e.pot) as u32, ..p });
        lemma_stack_total_nonneg_and_bounds(e.players, w);
        assert(e.action_history.is_prefix_of(a.action_history)) by {
            assert(e.action_history =~= a.action_history.subrange(0, e.action_history.len() as int));
        }
        assert forall|i: int| 0 <= i < e.players.len() implies seat_played(e.players[i], #[trigger] a.players[i]) by {}
    } else if round_over(e) {
        let r = street_reset(e);
        lemma_street_reset_keeps(e);
        assert(r.board == e.board && r.action_history == e.action_history && r.street == e.street);
        match e.street {
            Street::River => {
                let sm = GameModel { street: Street::Showdown, community_cards: r.board.take(5), ..r };
                assert(a == showdown(sm));
                lemma_active_indices_same_status(r.players, e.players);
                if act.len() >= 2 {
                    let i = choose|i: int| 0 <= i < e.players.len() && is_active(#[trigger] e.players[i]) && e.players[i].hole_cards is Some;
                    assert(is_active(sm.players[i]) && sm.players[i].hole_cards is Some);
                }
                lemma_showdown_keeps(sm);
                assert(chips(sm) == chips(r));
                if act.len() >= 2 {
                    law_showdown_pays_the_best_hands(sm);
                    lemma_showdown_seats(sm);
                    lemma_active_indices_props(sm.players);
                    lemma_scan_same_cards(a, sm, active_indices(sm.players));
                }
                assert(e.action_history =~= a.action_history.subrange(0, e.action_history.len() as int));
                lemma_showdown_seats(sm);
                assert forall|i: int| 0 <= i < e.players.len() implies seat_played(e.players[i], #[trigger] a.players[i]) by {
                    assert(sm.players[i] == r.players[i]);
                }
            },
            _ => {
                lemma_active_indices_same_status(r.players, e.players);
                lemma_first_actor_bound(r.button_pos, r.players);
                assert(e.action_history =~= a.action_history.subrange(0, e.action_history.len() as int));
                assert forall|i: int| 0 <= i < e.players.len() implies seat_played(e.players[i], #[trigger] a.players[i]) by {
                    assert(a.players[i] == r.players[i]);
                }
            },
        }
    } else {
        lemma_next_to_act_found(e);
        lemma_next_to_act_props(e, 1);
        assert(e.action_history =~= a.action_history.subrange(0, e.action_history.len() as int));
        assert forall|i: int| 0 <= i < e.players.len() implies seat_played(e.players[i], #[trigger] a.players[i]) by {}
    }
}

/// Passing the turn, whether or not the hand is over: every seat is the same
/// seat after it, and a bot that is due holds the turn.
pub proof fn lemma_advance_seats(e: GameModel)
    requires
        table_ok(e),
        chips(e) <= CHIP_LIMIT,
        active_indices(e.players).len() >= 1,
        turn_can_pass(e),
    ensures
        seats_played(e, advance_spec(e).0),
        advance_spec(e).1 ==> !advance_spec(e).0.hero_to_act
            && !advance_spec(e).0.players[advance_spec(e).0.action_on as int].is_hero,
{
    lemma_advance_keeps(e);
    lemma_active_indices_props(e.players);
    let act = active_indices(e.players);
    let (a, due) = advance_spec(e);
    if act.len() == 1 {
        assert forall|i: int| 0 <= i < e.players.len() implies seat_played(e.players[i], #[trigger] a.players[i]) by {}
    } else if round_over(e) {
        let r = street_reset(e);
        lemma_street_reset_keeps(e);
        match e.street {
            Street::River => {
                let sm = GameModel { street: Street::Showdown, community_cards: r.board.take(5), ..r };
                assert(a == showdown(sm));
                lemma_active_indices_same_status(r.players, e.players);
                if act.len() >= 2 {
                    let i = choose|i: int| 0 <= i < e.players.len() && is_active(#[trigger] e.players[i]) && e.players[i].hole_cards is Some;
                    assert(is_active(sm.players[i]) && sm.players[i].hole_cards is Some);
                }
                lemma_showdown_seats(sm);
                assert forall|i: int| 0 <= i < e.players.len() implies seat_played(e.players[i], #[trigger] a.players[i]) by {
                    assert(sm.players[i] == r.players[i]);
                }
            },
            _ => {
                lemma_active_indices_same_status(r.players, e.players);
                lemma_first_actor_bound(r.button_pos, r.players);
                assert forall|i: int| 0 <= i < e.players.len() implies seat_played(e.players[i], #[trigger] a.players[i]) by {
                    assert(a.players[i] == r.players[i]);
                }
            },
        }
    } else {
        lemma_next_to_act_found(e);
        lemma_next_to_act_props(e, 1);
        assert forall|i: int| 0 <= i < e.players.len() implies seat_played(e.players[i], #[trigger] a.players[i]) by {}
    }
}

/// The showdown only pays out: every seat keeps all but its stack.
proof fn lemma_showdown_seats(m: GameModel)
    requires
        table_ok(m),
        chips(m) <= CHIP_LIMIT,
        active_indices(m.players).len() >= 1,
        active_indices(m.players).len() == 1 || someone_shows(m),
    ensures
        showdown(m).players.len() == m.players.len(),
        forall|i: int| 0 <= i < m.players.len() ==> (#[trigger] showdown(m).players[i]) == (PlayerModel {
            stack: showdown(m).players[i].stack, ..m.players[i] }),
{
    let act = active_indices(m.players);
    lemma_active_indices_props(m.players);
    lemma_stack_total_nonneg_and_bounds(m.players, 0);
    if act.len() != 1 {
        lemma_active_seats_listed(m);
        lemma_scan_props(m, act);
        let (best, winners) = showdown_scan(m, act);
        if winners.len() != 1 {
            let count = winners.len() as u32;
            let split = (m.pot / count) as u32;
            vstd::arithmetic::div_mod::lemma_fundamental_div_mod(m.pot as int, count as int);
            assert(count * split <= m.pot) by (nonlinear_arith)
                requires m.pot == count * (m.pot / count) + m.pot % count, split == m.pot / count, m.pot % count >= 0;
            lemma_pay_each(m.players, winners, split);
        }
    }
}

proof fn lemma_seats_played_chain(a: GameModel, b: GameModel, c: GameModel)
    requires
        seats_played(a, b),
        seats_played(b, c),
    ensures
        seats_played(a, c),
{
    assert forall|i: int| 0 <= i < a.players.len() implies seat_played(a.players[i], #[trigger] c.players[i]) by {
        assert(seat_played(a.players[i], b.players[i]));
        assert(seat_played(b.players[i], c.players[i]));
    }
}

/// The bots moving with `rolls` in a running hand: what one turn keeps holds
/// to the end; chips are only paid out when the hand ends; and when no bot is
/// left due, the hand is over or the hero holds the turn.
pub proof fn lemma_bots_keep(m: GameModel, due: bool, rolls: Seq<u8>)
    requires
        table_ok(m),
        !m.hand_over ==> m.street != Street::Showdown,
        due ==> !m.hand_over && chips(m) <= CHIP_LIMIT && active_indices(m.players).len() >= 2
            && !m.hero_to_act && !m.players[m.action_on as int].is_hero,
        !m.hand_over ==> bets_bounded(m),
        !due ==> m.hand_over || hero_turn(m),
        bots_can_play(m, due, rolls),
    ensures
        ({
            let (r, pending) = play_bots(m, due, rolls);
            &&& table_ok(r)
            &&& r.pot >= m.pot
            &&& r.board == m.board
            &&& board_shown(m) ==> board_shown(r)
            &&& r.decision_snapshots == m.decision_snapshots
            &&& m.action_history.is_prefix_of(r.action_history)
            &&& m.hand_over ==> r == m
            &&& !r.hand_over ==> chips(r) == chips(m) && r.street != Street::Showdown && bets_bounded(r)
                && (active_indices(r.players).len() >= 2 || r == m)
            &&& r.hand_over && !m.hand_over ==> stack_total(r.players) <= chips(m) && !r.hero_to_act
                && stack_total(r.players) + m.players.len() > chips(m)
                && (r.street != Street::Showdown ==> stack_total(r.players) == chips(m))
                && stack_total(r.players) + split_remainder(r) == chips(m)
            &&& pending ==> !r.hand_over && !r.hero_to_act && !r.players[r.action_on as int].is_hero
            &&& !pending ==> r.hand_over || hero_turn(r)
            &&& seats_played(m, r)
            &&& street_index(r.street) >= street_index(m.street)
        }),
    decreases rolls.len(),
{
    if due && rolls.len() > 0 {
        let (a, amount) = bot_move(m, rolls[0]);
        let e = effects(m, a, amount);
        lemma_effects_keep(m, a, amount);
        lemma_effects_frame(m, a, amount);
        lemma_turn_passes(e);
        let (m2, due2) = advance_spec(e);
        lemma_bots_keep(m2, due2, rolls.drop_first());
        let (r, pending) = play_bots(m2, due2, rolls.drop_first());
        assert(play_bots(m, due, rolls) == (r, pending));
        lemma_seats_played_chain(m, e, m2);
        lemma_seats_played_chain(m, m2, r);
        assert(m.action_history.is_prefix_of(r.action_history)) by {
            assert(m.action_history =~= e.action_history.subrange(0, m.action_history.len() as int));
            assert(e.action_history =~= m2.action_history.subrange(0, e.action_history.len() as int));
            assert(m2.action_history =~= r.action_history.subrange(0, m2.action_history.len() as int));
            assert(m.action_history =~= r.action_history.subrange(0, m.action_history.len() as int));
        }
    }
}

/// What an action keeps, whoever moves after it.  Acting in a running hand
/// (not folding the last player out, and with someone holding cards at any
/// showdown the play reaches):
/// - when no bot is left to move, the hand is over or the hero holds the turn;
///   when one is (the dice ran out), a bot holds the turn and the hand runs;
/// - the table keeps its shape and the pot never shrinks;
/// - every seat keeps its player and cards, nobody out of the hand comes back
///   into it, a folded player stays folded, and a fold folds the player to act;
/// - the street never goes back;
/// - the board stays the same, and the community cards are its first cards,
///   as many as the street shows;
/// - the history only grows;
/// - the review records exactly the hero's decision, and none of the bots';
/// - no chip is created or lost while the hand runs, and a running hand can be
///   acted on again by anyone;
/// - when the hand ends, the winners are paid the pot, short only of the odd
///   chips of a split (fewer than the seats at the table); a hand won by
///   folds pays the whole pot; and the hero is offered nothing;
/// - when no bot is left to move, the hand is over or the hero holds the turn
///   with the legal actions of its seat.
pub proof fn law_action_keeps_the_table(m: GameModel, word: Seq<char>, amount: Option<u32>, rolls: Seq<u8>)
    requires
        running(m),
        leaves_someone_in(m, word),
        action_can_play(m, word, amount, rolls),
    ensures
        ({
            let (r, pending) = act_and_play(m, word, amount, rolls);
            &&& table_ok(r)
            &&& r.pot >= m.pot
            &&& r.board == m.board
            &&& board_shown(m) ==> board_shown(r)
            &&& m.action_history.is_prefix_of(r.action_history)
            &&& r.decision_snapshots == with_snapshot(m, word).decision_snapshots
            &&& !r.hand_over ==> running(r) && (board_shown(m) ==> live(r)) && chips(r) == chips(m)
                && forall|w: Seq<char>| #[trigger] leaves_someone_in(r, w)
            &&& r.hand_over ==> stack_total(r.players) <= chips(m) && !r.hero_to_act
                && stack_total(r.players) + m.players.len() > chips(m)
                && (r.street != Street::Showdown ==> stack_total(r.players) == chips(m))
                && stack_total(r.players) + split_remainder(r) == chips(m)
            &&& !pending ==> r.hand_over || hero_turn(r)
            &&& pending ==> !r.hand_over && !r.hero_to_act && !r.players[r.action_on as int].is_hero
            &&& seats_played(m, r)
            &&& street_index(r.street) >= street_index(m.street)
            &&& action_of(word) == Action::Fold ==> r.players[m.action_on as int].status == PlayerStatus::Folded
        }),
{
    let m0 = with_snapshot(m, word);
    assert(m0.players == m.players && chips(m0) == chips(m));
    let a = action_of(word);
    let e = effects(m0, a, amount);
    lemma_effects_keep(m0, a, amount);
    lemma_effects_frame(m0, a, amount);
    lemma_turn_passes(e);
    let (m2, due) = advance_spec(e);
    lemma_bots_keep(m2, due, rolls);
    let (r, pending) = play_bots(m2, due, rolls);
    assert(act_and_play(m, word, amount, rolls) == (r, pending));
    lemma_seats_played_chain(m0, e, m2);
    lemma_seats_played_chain(m0, m2, r);
    lemma_seats_played_chain(e, m2, r);
    assert(r.players[m.action_on as int].status == PlayerStatus::Folded || action_of(word) != Action::Fold) by {
        if action_of(word) == Action::Fold {
            assert(seat_played(e.players[m.action_on as int], r.players[m.action_on as int]));
        }
    }
    assert(m.action_history == m0.action_history);
    assert(m.action_history.is_prefix_of(r.action_history)) by {
        assert(m.action_history =~= e.action_history.subrange(0, m.action_history.len() as int));
        assert(e.action_history =~= m2.action_history.subrange(0, e.action_history.len() as int));
        assert(m2.action_history =~= r.action_history.subrange(0, m2.action_history.len() as int));
        assert(m.action_history =~= r.action_history.subrange(0, m.action_history.len() as int));
    }
}

/// Moving to the next street keeps the board and shows as many of its cards
/// as the new street does: three on the flop, four on the turn, all five on
/// the river and at the showdown.  A finished hand stays at the showdown.
pub proof fn law_next_street_shows_the_board(m: GameModel)
    requires
        table_ok(m),
    ensures
        ({
            let r = next_street_spec(m).0;
            &&& r.board == m.board
            &&& m.street != Street::Showdown ==> board_shown(r)
                && street_index(r.street) == street_index(m.street) + 1
            &&& m.street == Street::Showdown ==> r.street == Street::Showdown
                && r.community_cards == m.community_cards
        }),
{
}

/// The seats a simulated street still has to visit: none of them faces a bet.
pub open spec fn no_bet_faced(t: TableModel, needs: Seq<bool>, street_bet: u32) -> bool {
    forall|j: int| 0 <= j < t.players.len() && needs[j] && is_active(#[trigger] t.players[j]) && !t.players[j].is_hero
        ==> t.players[j].current_bet >= street_bet
}

proof fn lemma_sim_from_ignores_dice(t: TableModel, needs: Seq<bool>, first: int, street_bet: u32,
    rolls1: Seq<u32>, rolls2: Seq<u32>, n: int, offset: int)
    requires
        n == t.players.len() > 0,
        needs.len() == n,
        no_bet_faced(t, needs, street_bet),
    ensures
        sim_from(t, needs, first, street_bet, rolls1, n, offset) == sim_from(t, needs, first, street_bet, rolls2, n, offset),
    decreases n - offset,
{
    if 0 <= offset < n {
        let i = (first + offset) % n;
        let (t2, needs2) = sim_seat(t, needs, i, street_bet, rolls1[i]);
        assert(sim_seat(t, needs, i, street_bet, rolls2[i]) == (t2, needs2));
        assert(no_bet_faced(t2, needs2, street_bet)) by {
            assert forall|j: int| 0 <= j < t2.players.len() && needs2[j] && is_active(#[trigger] t2.players[j])
                && !t2.players[j].is_hero implies t2.players[j].current_bet >= street_bet by {
                if j != i {
                    assert(t2.players[j] == t.players[j]);
                }
            }
        }
        lemma_sim_from_ignores_dice(t2, needs2, first, street_bet, rolls1, rolls2, n, offset + 1);
    }
}

/// When no bot in the hand faces a bet, a simulated street does not depend on
/// the bots' dice: every bot checks.  (Facing a bet, a bot folds or calls by
/// its dice.)
pub proof fn law_simulated_street_ignores_dice_without_bets(t: TableModel, button: usize, street_bet: u32,
    is_preflop: bool, rolls1: Seq<u32>, rolls2: Seq<u32>)
    requires
        t.players.len() > 0,
        forall|j: int| 0 <= j < t.players.len() && is_active(#[trigger] t.players[j]) && !t.players[j].is_hero
            ==> t.players[j].current_bet >= street_bet,
    ensures
        simulated(t, button, street_bet, is_preflop, rolls1) == simulated(t, button, street_bet, is_preflop, rolls2),
{
    let needs = Seq::new(t.players.len(), |i: int| is_active(t.players[i]) && !t.players[i].is_hero);
    lemma_sim_from_ignores_dice(t, needs, sim_first(t.players, button, is_preflop) as int, street_bet, rolls1, rolls2,
        t.players.len() as int, 0);
}

/// A card is among the unused ones exactly when it is in the list and not in
/// use; a list without repeats stays without repeats.
proof fn lemma_unused_cards(cards: Seq<Card>, hero: [Card; 2], community: Seq<Card>, c: Card)
    ensures
        unused_cards(cards, hero, community).contains(c) <==> cards.contains(c) && !in_use(hero, community, c),
        cards.no_duplicates() ==> unused_cards(cards, hero, community).no_duplicates(),
    decreases cards.len(),
{
    if cards.len() > 0 {
        let d = cards.drop_last();
        let rest = unused_cards(d, hero, community);
        lemma_unused_cards(d, hero, community, c);
        lemma_unused_cards(d, hero, community, cards.last());
        assert(cards == d.push(cards.last()));
        let u = unused_cards(cards, hero, community);
        let last = cards.last();
        assert(cards[cards.len() - 1] == last);
        if cards.contains(c) && c != last {
            let k = choose|k: int| 0 <= k < cards.len() && cards[k] == c;
            assert(d[k] == c);
        }
        if rest.contains(c) {
            let k = choose|k: int| 0 <= k < rest.len() && rest[k] == c;
            assert(d.contains(c));
            let k2 = choose|k2: int| 0 <= k2 < d.len() && d[k2] == c;
            assert(cards[k2] == c);
            assert(u[k] == c);
        }
        if !in_use(hero, community, last) {
            assert(u == rest.push(last));
            assert(u[rest.len() as int] == last);
            if u.contains(c) {
                let k = choose|k: int| 0 <= k < u.len() && u[k] == c;
                if k < rest.len() {
                    assert(rest[k] == c);
                }
            }
        } else {
            assert(u == rest);
        }
        if cards.no_duplicates() {
            assert(d.no_duplicates()) by {
                assert forall|i: int, j: int| 0 <= i < d.len() && 0 <= j < d.len() && i != j implies d[i] != d[j] by {
                    assert(cards[i] == d[i] && cards[j] == d[j]);
                }
            }
            if !d.contains(cards.last()) {
            } else {
                let k = choose|k: int| 0 <= k < d.len() && d[k] == cards.last();
                assert(cards[k] == cards[cards.len() - 1]);
            }
        }
    }
}

/// The cards left to deal are the 52 cards of a deck less the hero's hole
/// cards and the board, each once.
pub proof fn law_remaining_deck(hero: [Card; 2], community: Seq<Card>, c: Card)
    ensures
        remaining_cards(hero, community).contains(c) <==> valid_card(c) && !in_use(hero, community, c),
        remaining_cards(hero, community).no_duplicates(),
{
    let deck = fresh_deck();
    lemma_unused_cards(deck, hero, community, c);
    lemma_deck_complete_and_distinct(c, 0, 0);
    if valid_card(c) {
        assert(deck[deck_position(c)] == c);
    }
    if deck.contains(c) {
        let k = choose|k: int| 0 <= k < 52 && deck[k] == c;
        lemma_deck_complete_and_distinct(c, k, 0);
    }
    assert(deck.no_duplicates()) by {
        assert forall|i: int, j: int| 0 <= i < 52 && 0 <= j < 52 && i != j implies deck[i] != deck[j] by {
            lemma_deck_complete_and_distinct(c, i, j);
        }
    }
}

/// The rank of the hand a seat shows at the showdown.
pub open spec fn seat_rank(m: GameModel, i: int) -> HandRank {
    hand_rank(codes(shown_cards(m.players[i].hole_cards->Some_0, m.community_cards)))
}

/// Scanning distinct seats: the best rank is the highest rank among the
/// scanned seats holding cards, and the seats kept are exactly the seats with
/// cards that hold it, each once.
proof fn lemma_scan_best(m: GameModel, act: Seq<usize>)
    requires
        forall|k: int| 0 <= k < act.len() ==> (#[trigger] act[k]) < m.players.len(),
        act.no_duplicates(),
    ensures
        ({
            let (best, winners) = showdown_scan(m, act);
            &&& (exists|k: int| 0 <= k < act.len() && (#[trigger] m.players[act[k] as int]).hole_cards is Some) ==> best is Some
            &&& winners.no_duplicates()
            &&& forall|k: int| 0 <= k < winners.len() ==> act.contains(#[trigger] winners[k])
                && m.players[winners[k] as int].hole_cards is Some
                && rank_key(seat_rank(m, winners[k] as int)) == rank_key(best->Some_0)
            &&& forall|k: int| 0 <= k < act.len() && m.players[act[k] as int].hole_cards is Some
                ==> rank_key(seat_rank(m, #[trigger] act[k] as int)) <= rank_key(best->Some_0)
            &&& forall|k: int| 0 <= k < act.len() && m.players[act[k] as int].hole_cards is Some
                && rank_key(seat_rank(m, #[trigger] act[k] as int)) == rank_key(best->Some_0)
                ==> winners.contains(act[k])
        }),
    decreases act.len(),
{
    if act.len() > 0 {
        let d = act.drop_last();
        assert(d.no_duplicates()) by {
            assert forall|x: int, y: int| 0 <= x < d.len() && 0 <= y < d.len() && x != y implies d[x] != d[y] by {
                assert(act[x] == d[x] && act[y] == d[y]);
            }
        }
        assert forall|k: int| 0 <= k < d.len() implies (#[trigger] d[k]) < m.players.len() by {
            assert(d[k] == act[k]);
        }
        lemma_scan_best(m, d);
        let (b0, w0) = showdown_scan(m, d);
        let i = act.last();
        assert(act[act.len() - 1] == i);
        let (best, winners) = showdown_scan(m, act);
        assert forall|k: int| 0 <= k < d.len() implies act[k] == #[trigger] d[k] && act[k] != i by {}
        assert forall|k: int| 0 <= k < w0.len() implies act.contains(#[trigger] w0[k]) && w0[k] != i by {
            let j = choose|j: int| 0 <= j < d.len() && d[j] == w0[k];
            assert(act[j] == w0[k]);
        }
        if exists|k: int| 0 <= k < act.len() && (#[trigger] m.players[act[k] as int]).hole_cards is Some {
            let k = choose|k: int| 0 <= k < act.len() && (#[trigger] m.players[act[k] as int]).hole_cards is Some;
            if k < d.len() {
                assert(m.players[d[k] as int].hole_cards is Some);
            }
        }
        match m.players[i as int].hole_cards {
            None => {
                assert(best == b0 && winners == w0);
                assert forall|k: int| 0 <= k < act.len() && m.players[act[k] as int].hole_cards is Some
                    implies rank_key(seat_rank(m, #[trigger] act[k] as int)) <= rank_key(best->Some_0)
                    && (rank_key(seat_rank(m, act[k] as int)) == rank_key(best->Some_0) ==> winners.contains(act[k])) by {
                    assert(k < d.len());
                    assert(d[k] == act[k]);
                }
            },
            Some(h) => {
                let r = seat_rank(m, i as int);
                match b0 {
                    None => {
                        assert(forall|k: int| 0 <= k < d.len() ==> m.players[#[trigger] d[k] as int].hole_cards is None);
                        assert(winners == seq![i]);
                        assert forall|k: int| 0 <= k < act.len() && m.players[act[k] as int].hole_cards is Some
                            implies rank_key(seat_rank(m, #[trigger] act[k] as int)) <= rank_key(best->Some_0)
                            && (rank_key(seat_rank(m, act[k] as int)) == rank_key(best->Some_0) ==> winners.contains(act[k])) by {
                            if k < d.len() {
                                assert(d[k] == act[k]);
                                assert(m.players[d[k] as int].hole_cards is None);
                            }
                            assert(winners[0] == i);
                        }
                    },
                    Some(b) => {
                        if rank_key(r) > rank_key(b) {
                            assert(winners == seq![i]);
                            assert forall|k: int| 0 <= k < act.len() && m.players[act[k] as int].hole_cards is Some
                                implies rank_key(seat_rank(m, #[trigger] act[k] as int)) <= rank_key(best->Some_0)
                                && (rank_key(seat_rank(m, act[k] as int)) == rank_key(best->Some_0) ==> winners.contains(act[k])) by {
                                assert(winners[0] == i);
                                if k < d.len() {
                                    assert(d[k] == act[k]);
                                }
                            }
                        } else if rank_key(r) == rank_key(b) {
                            assert(winners == w0.push(i));
                            assert forall|k: int| 0 <= k < winners.len() implies act.contains(#[trigger] winners[k])
                                && m.players[winners[k] as int].hole_cards is Some
                                && rank_key(seat_rank(m, winners[k] as int)) == rank_key(best->Some_0) by {
                                if k < w0.len() {
                                    assert(winners[k] == w0[k]);
                                } else {
                                    assert(winners[k] == i);
                                }
                            }
                            assert forall|k: int| 0 <= k < act.len() && m.players[act[k] as int].hole_cards is Some
                                implies rank_key(seat_rank(m, #[trigger] act[k] as int)) <= rank_key(best->Some_0)
                                && (rank_key(seat_rank(m, act[k] as int)) == rank_key(best->Some_0) ==> winners.contains(act[k])) by {
                                if k < d.len() {
                                    assert(d[k] == act[k]);
                                    if rank_key(seat_rank(m, act[k] as int)) == rank_key(best->Some_0) {
                                        assert(w0.contains(act[k]));
                                        let j = choose|j: int| 0 <= j < w0.len() && w0[j] == act[k];
                                        assert(winners[j] == act[k]);
                                    }
                                } else {
                                    assert(winners[w0.len() as int] == i);
                                }
                            }
                            assert forall|x: int, y: int| 0 <= x < winners.len() && 0 <= y < winners.len() && x != y
                                implies winners[x] != winners[y] by {
                                if x < w0.len() && y < w0.len() {
                                    assert(winners[x] == w0[x] && winners[y] == w0[y]);
                                } else if x < w0.len() {
                                    assert(winners[x] == w0[x]);
                                } else if y < w0.len() {
                                    assert(winners[y] == w0[y]);
                                }
                            }
                        } else {
                            assert(winners == w0);
                            assert forall|k: int| 0 <= k < act.len() && m.players[act[k] as int].hole_cards is Some
                                implies rank_key(seat_rank(m, #[trigger] act[k] as int)) <= rank_key(best->Some_0)
                                && (rank_key(seat_rank(m, act[k] as int)) == rank_key(best->Some_0) ==> winners.contains(act[k])) by {
                                if k < d.len() {
                                    assert(d[k] == act[k]);
                                }
                            }
                        }
                    },
                }
            },
        }
    }
}

/// Paying distinct seats: a seat gains the amount if it is among them, and
/// nothing otherwise.
proof fn lemma_pay_each_seat(ps: Seq<PlayerModel>, seats: Seq<usize>, amount: u32, i: int)
    requires
        forall|k: int| 0 <= k < seats.len() ==> (#[trigger] seats[k]) < ps.len(),
        seats.no_duplicates(),
        stack_total(ps) + seats.len() * amount <= u32::MAX,
        0 <= i < ps.len() <= usize::MAX,
    ensures
        pay_each(ps, seats, amount)[i].stack == ps[i].stack + (if seats.contains(i as usize) { amount as int } else { 0 }),
    decreases seats.len(),
{
    if seats.len() > 0 {
        let sd = seats.drop_last();
        let w = seats.last() as int;
        assert(seats[seats.len() - 1] == w);
        assert(sd.no_duplicates()) by {
            assert forall|x: int, y: int| 0 <= x < sd.len() && 0 <= y < sd.len() && x != y implies sd[x] != sd[y] by {
                assert(seats[x] == sd[x] && seats[y] == sd[y]);
            }
        }
        lemma_stack_total_nonneg_and_bounds(ps, 0);
        assert(stack_total(ps) + sd.len() * amount + amount <= u32::MAX) by (nonlinear_arith)
            requires stack_total(ps) + seats.len() * amount <= u32::MAX, sd.len() + 1 == seats.len();
        assert(stack_total(ps) + sd.len() * amount <= u32::MAX);
        lemma_pay_each(ps, sd, amount);
        lemma_pay_each_seat(ps, sd, amount, i);
        let ps1 = pay_each(ps, sd, amount);
        lemma_stack_total_nonneg_and_bounds(ps1, w);
        if sd.contains(w as usize) {
            let k = choose|k: int| 0 <= k < sd.len() && sd[k] == w as usize;
            assert(seats[k] == seats[seats.len() - 1]);
        }
        if i != w {
            if seats.contains(i as usize) {
                let k = choose|k: int| 0 <= k < seats.len() && seats[k] == i as usize;
                assert(k != seats.len() - 1);
                assert(sd[k] == i as usize);
            }
            if sd.contains(i as usize) {
                let k = choose|k: int| 0 <= k < sd.len() && sd[k] == i as usize;
                assert(seats[k] == i as usize);
            }
        } else {
            lemma_pay_each_seat(ps, sd, amount, w);
        }
    }
}

/// At a showdown between two or more players, someone of them holding cards,
/// the pot goes to the best hand: every winner is still in the hand, holds
/// cards, and holds a hand ranked at least as high as every other hand shown
/// by a player in the hand; every such player whose hand ties a winner's is a
/// winner too; and each winner receives an equal share of the pot (the
/// remainder of the division stays unpaid) while nobody else receives
/// anything: all chips on the table end in the stacks but that remainder.
pub proof fn law_showdown_pays_the_best_hands(m: GameModel)
    requires
        table_ok(m),
        chips(m) <= CHIP_LIMIT,
        active_indices(m.players).len() >= 2,
        someone_shows(m),
    ensures
        ({
            let (best, winners) = showdown_scan(m, active_indices(m.players));
            &&& winners.len() >= 1
            &&& forall|k: int| 0 <= k < winners.len() ==> #[trigger] winners[k] < m.players.len()
                && is_active(m.players[winners[k] as int]) && m.players[winners[k] as int].hole_cards is Some
            &&& forall|i: int, j: int| 0 <= i < m.players.len() && 0 <= j < m.players.len() && is_active(m.players[i])
                && m.players[i].hole_cards is Some && winners.contains(j as usize)
                ==> rank_key(#[trigger] seat_rank(m, i)) <= rank_key(#[trigger] seat_rank(m, j))
            &&& forall|i: int, j: int| 0 <= i < m.players.len() && 0 <= j < m.players.len() && is_active(m.players[i])
                && m.players[i].hole_cards is Some && winners.contains(j as usize)
                && rank_key(#[trigger] seat_rank(m, i)) == rank_key(#[trigger] seat_rank(m, j)) ==> winners.contains(i as usize)
            &&& forall|i: int| 0 <= i < m.players.len() ==> (#[trigger] showdown(m).players[i]).stack
                == m.players[i].stack + (if winners.contains(i as usize) { m.pot as int / winners.len() as int } else { 0 })
            &&& stack_total(showdown(m).players) + m.pot as int % winners.len() as int == chips(m)
            &&& showdown(m).hand_over
        }),
{
    let act = active_indices(m.players);
    lemma_active_indices_props(m.players);
    assert(act.no_duplicates()) by {
        assert forall|x: int, y: int| 0 <= x < act.len() && 0 <= y < act.len() && x != y implies act[x] != act[y] by {
            if x < y { assert(act[x] < act[y]); } else { assert(act[y] < act[x]); }
        }
    }
    lemma_active_seats_listed(m);
    lemma_scan_best(m, act);
    lemma_scan_props(m, act);
    let (best, winners) = showdown_scan(m, act);
    let b = best->Some_0;
    assert forall|k: int| 0 <= k < winners.len() implies #[trigger] winners[k] < m.players.len()
        && is_active(m.players[winners[k] as int]) && m.players[winners[k] as int].hole_cards is Some by {
        assert(act.contains(winners[k]));
        let j = choose|j: int| 0 <= j < act.len() && act[j] == winners[k];
        assert(act[j] == winners[k]);
    }
    assert forall|i: int, j: int| 0 <= i < m.players.len() && 0 <= j < m.players.len() && is_active(m.players[i])
        && m.players[i].hole_cards is Some && winners.contains(j as usize)
        implies rank_key(#[trigger] seat_rank(m, i)) <= rank_key(#[trigger] seat_rank(m, j))
        && (rank_key(seat_rank(m, i)) == rank_key(seat_rank(m, j)) ==> winners.contains(i as usize)) by {
        assert(act.contains(i as usize));
        let ki = choose|ki: int| 0 <= ki < act.len() && act[ki] == i as usize;
        let kj = choose|kj: int| 0 <= kj < winners.len() && winners[kj] == j as usize;
        assert(m.players[act[ki] as int].hole_cards is Some);
        assert(rank_key(seat_rank(m, act[ki] as int)) <= rank_key(b));
        assert(rank_key(seat_rank(m, winners[kj] as int)) == rank_key(b));
    }
    lemma_stack_total_nonneg_and_bounds(m.players, 0);
    let sd = showdown(m);
    if winners.len() == 1 {
        let w = winners[0] as int;
        lemma_stack_total_nonneg_and_bounds(m.players, w);
        assert forall|i: int| 0 <= i < m.players.len() implies (#[trigger] sd.players[i]).stack
            == m.players[i].stack + (if winners.contains(i as usize) { m.pot as int / winners.len() as int } else { 0 }) by {
            if winners.contains(i as usize) {
                let k = choose|k: int| 0 <= k < winners.len() && winners[k] == i as usize;
                assert(k == 0);
            }
            if i == w {
                assert(winners.contains(i as usize));
            }
        }
        let p = m.players[w];
        lemma_stack_total_update(m.players, w, PlayerModel { stack: (p.stack + m.pot) as u32, ..p });
        assert(m.pot as int % 1 == 0);
    } else {
        let count = winners.len() as u32;
        let split = (m.pot / count) as u32;
        vstd::arithmetic::div_mod::lemma_fundamental_div_mod(m.pot as int, count as int);
        assert(count * split <= m.pot) by (nonlinear_arith)
            requires m.pot == count * (m.pot / count) + m.pot % count, split == m.pot / count, m.pot % count >= 0;
        lemma_pay_each(m.players, winners, split);
        assert(winners.len() * split + m.pot as int % winners.len() as int == m.pot);
        assert forall|i: int| 0 <= i < m.players.len() implies (#[trigger] sd.players[i]).stack
            == m.players[i].stack + (if winners.contains(i as usize) { m.pot as int / winners.len() as int } else { 0 }) by {
            lemma_pay_each_seat(m.players, winners, split, i);
        }
    }
}

/// A random hand deals from a full deck: every card of the shuffled deck is
/// a card of the game and no card is in it twice, so no card is dealt twice
/// (seat `i` gets the cards at `2i` and `2i + 1`, the board the five after
/// the last seat's).
pub proof fn law_no_card_dealt_twice(n: usize, button: usize, stacks: Seq<u32>, deck: Seq<Card>, roll: u32, sim: Seq<u32>)
    requires
        valid_draws(n, button, stacks, deck, roll, sim),
    ensures
        forall|i: int| 0 <= i < 52 ==> valid_card(#[trigger] deck[i]),
        forall|i: int, j: int| 0 <= i < j < 52 ==> #[trigger] deck[i] != #[trigger] deck[j],
        dealt_holes(deck, n as int).len() == n,
        forall|i: int| 0 <= i < n ==> #[trigger] dealt_holes(deck, n as int)[i] == [deck[2 * i], deck[2 * i + 1]],
        2 * n + 5 <= 52,
{
    let fresh = fresh_deck();
    assert(fresh.no_duplicates()) by {
        assert forall|i: int, j: int| 0 <= i < 52 && 0 <= j < 52 && i != j implies fresh[i] != fresh[j] by {
            lemma_deck_complete_and_distinct(fresh[i], i, j);
        }
    }
    assert(deck.to_multiset() == fresh.to_multiset());
    fresh.lemma_multiset_has_no_duplicates();
    deck.lemma_multiset_has_no_duplicates_conv();
    assert forall|i: int| 0 <= i < 52 implies valid_card(#[trigger] deck[i]) by {
        assert(deck.contains(deck[i]));
        vstd::seq_lib::to_multiset_contains(deck, deck[i]);
        vstd::seq_lib::to_multiset_contains(fresh, deck[i]);
        assert(fresh.to_multiset().count(deck[i]) > 0);
        assert(fresh.contains(deck[i]));
        let k = choose|k: int| 0 <= k < 52 && fresh[k] == deck[i];
        lemma_deck_complete_and_distinct(deck[i], k, 0);
    }
}

/// Seats keep their cards and nobody comes back into the hand, so if every
/// player in the hand held cards, every player still in it does.
proof fn lemma_cards_held_kept(a: GameModel, b: GameModel)
    requires
        seats_played(a, b),
        cards_held(a),
    ensures
        cards_held(b),
{
    assert forall|i: int| 0 <= i < b.players.len() && is_active(#[trigger] b.players[i]) implies b.players[i].hole_cards is Some by {
        assert(seat_played(a.players[i], b.players[i]));
    }
}

/// When every player in the hand holds cards, the turn can always pass.
proof fn lemma_cards_held_turn_can_pass(m: GameModel)
    requires
        m.players.len() <= usize::MAX,
        cards_held(m),
    ensures
        turn_can_pass(m),
{
    lemma_active_indices_props(m.players);
    let act = active_indices(m.players);
    if act.len() >= 2 {
        let i = act[0] as int;
        assert(is_active(m.players[i]) && m.players[i].hole_cards is Some);
    }
}

/// The cards known to the hero: its two hole cards, then the board.
pub open spec fn known_cards(hero: [Card; 2], community: Seq<Card>) -> Seq<Card> {
    seq![hero@[0], hero@[1]] + community
}

/// When the hero's two cards and the board are distinct cards of the deck,
/// the cards left to deal number 50 less the board's.
pub proof fn law_remaining_deck_size(hero: [Card; 2], community: Seq<Card>)
    requires
        known_cards(hero, community).no_duplicates(),
        forall|i: int| 0 <= i < known_cards(hero, community).len() ==> valid_card(#[trigger] known_cards(hero, community)[i]),
    ensures
        remaining_cards(hero, community).len() == 50 - community.len(),
{
    broadcast use vstd::seq_lib::seq_to_set_is_finite;
    let used = known_cards(hero, community);
    let rem = remaining_cards(hero, community);
    let fresh = fresh_deck();
    let c0 = hero@[0];
    law_remaining_deck(hero, community, c0);
    assert(hero@ =~= seq![hero@[0], hero@[1]]);
    assert forall|c: Card| in_use(hero, community, c) <==> used.contains(c) by {
        if hero@.contains(c) {
            let k = choose|k: int| 0 <= k < 2 && hero@[k] == c;
            assert(used[k] == c);
        }
        if community.contains(c) {
            let k = choose|k: int| 0 <= k < community.len() && community[k] == c;
            assert(used[k + 2] == c);
        }
        if used.contains(c) {
            let k = choose|k: int| 0 <= k < used.len() && used[k] == c;
            if k < 2 {
                assert(hero@[k] == c);
            } else {
                assert(community[k - 2] == c);
            }
        }
    }
    assert forall|c: Card| fresh.contains(c) <==> valid_card(c) by {
        lemma_deck_complete_and_distinct(c, 0, 0);
        if valid_card(c) {
            assert(fresh[deck_position(c)] == c);
        }
        if fresh.contains(c) {
            let k = choose|k: int| 0 <= k < 52 && fresh[k] == c;
            lemma_deck_complete_and_distinct(c, k, 0);
        }
    }
    assert(fresh.no_duplicates()) by {
        assert forall|i: int, j: int| 0 <= i < 52 && 0 <= j < 52 && i != j implies fresh[i] != fresh[j] by {
            lemma_deck_complete_and_distinct(fresh[i], i, j);
        }
    }
    let a = fresh.to_set();
    let b = used.to_set();
    assert forall|c: Card| rem.to_set().contains(c) <==> a.difference(b).contains(c) by {
        law_remaining_deck(hero, community, c);
    }
    assert(rem.to_set() =~= a.difference(b));
    assert forall|c: Card| b.contains(c) implies a.contains(c) by {
        let k = choose|k: int| 0 <= k < used.len() && used[k] == c;
        assert(valid_card(used[k]));
    }
    assert(a.intersect(b) =~= b);
    rem.unique_seq_to_set();
    fresh.unique_seq_to_set();
    used.unique_seq_to_set();
    vstd::set_lib::lemma_set_difference_len(a, b);
}

/// When every player in the hand holds cards, the bots' play reaches no
/// showdown without cards, whatever their dice, whether or not the hand is
/// already over.
pub proof fn lemma_cards_held_bots_can_play(m: GameModel, due: bool, rolls: Seq<u8>)
    requires
        table_ok(m),
        cards_held(m),
        due ==> playable(m) && active_indices(m.players).len() >= 2,
    ensures
        bots_can_play(m, due, rolls),
    decreases rolls.len(),
{
    if due && rolls.len() > 0 {
        let (a, amount) = bot_move(m, rolls[0]);
        let e = effects(m, a, amount);
        lemma_effects_keep(m, a, amount);
        lemma_effects_frame(m, a, amount);
        lemma_cards_held_kept(m, e);
        lemma_cards_held_turn_can_pass(e);
        lemma_advance_keeps(e);
        lemma_advance_seats(e);
        let (m2, due2) = advance_spec(e);
        lemma_cards_held_kept(e, m2);
        lemma_cards_held_bots_can_play(m2, due2, rolls.drop_first());
    }
}

/// When every player in the hand holds cards, any action that leaves someone
/// in the hand can be played out, whatever the bots' dice, and whether or not
/// the hand is already over: no showdown it reaches lacks cards to show.
pub proof fn law_cards_held_can_play(m: GameModel, word: Seq<char>, amount: Option<u32>, rolls: Seq<u8>)
    requires
        playable(m),
        cards_held(m),
        leaves_someone_in(m, word),
    ensures
        action_can_play(m, word, amount, rolls),
{
    let m0 = with_snapshot(m, word);
    assert(m0.players == m.players && chips(m0) == chips(m));
    let a = action_of(word);
    let e = effects(m0, a, amount);
    lemma_effects_keep(m0, a, amount);
    lemma_effects_frame(m0, a, amount);
    assert(cards_held(m0));
    lemma_cards_held_kept(m0, e);
    lemma_cards_held_turn_can_pass(e);
    lemma_advance_keeps(e);
    lemma_advance_seats(e);
    let (m2, due) = advance_spec(e);
    lemma_cards_held_kept(e, m2);
    lemma_cards_held_bots_can_play(m2, due, rolls);
}

/// The bots never fold a hero: while a bot is due, a hero in the hand holding
/// cards stays in it, so the bots' play reaches no showdown without cards,
/// whatever their dice, whether or not the hand is already over.
pub proof fn lemma_hero_shows_bots_can_play(m: GameModel, due: bool, rolls: Seq<u8>)
    requires
        table_ok(m),
        hero_shows(m),
        due ==> playable(m) && active_indices(m.players).len() >= 2 && !m.players[m.action_on as int].is_hero,
    ensures
        bots_can_play(m, due, rolls),
    decreases rolls.len(),
{
    if due && rolls.len() > 0 {
        let (a, amount) = bot_move(m, rolls[0]);
        let e = effects(m, a, amount);
        lemma_effects_keep(m, a, amount);
        lemma_effects_frame(m, a, amount);
        let i = choose|i: int| 0 <= i < m.players.len() && (#[trigger] m.players[i]).is_hero && is_active(m.players[i])
            && m.players[i].hole_cards is Some;
        assert(e.players[i] == m.players[i]);
        assert(someone_shows(e));
        lemma_advance_keeps(e);
        lemma_advance_seats(e);
        let (m2, due2) = advance_spec(e);
        lemma_active_indices_props(e.players);
        lemma_active_indices_props(m2.players);
        assert(active_indices(e.players).contains(i as usize));
        assert(seat_played(e.players[i], m2.players[i]));
        assert(is_active(m2.players[i]));
        lemma_hero_shows_bots_can_play(m2, due2, rolls.drop_first());
    }
}

/// When a hero in the hand holds cards and does not fold, any action that
/// leaves someone in the hand can be played out, whatever the bots' dice and
/// whether or not the hand is already over: the hero's cards are there at
/// any showdown it reaches.
pub proof fn law_hero_keeps_cards_can_play(m: GameModel, word: Seq<char>, amount: Option<u32>, rolls: Seq<u8>)
    requires
        playable(m),
        hero_keeps_cards(m, word),
        leaves_someone_in(m, word),
    ensures
        action_can_play(m, word, amount, rolls),
{
    let m0 = with_snapshot(m, word);
    assert(m0.players == m.players && chips(m0) == chips(m));
    let a = action_of(word);
    let e = effects(m0, a, amount);
    lemma_effects_keep(m0, a, amount);
    lemma_effects_frame(m0, a, amount);
    let i = choose|i: int| 0 <= i < m.players.len() && (#[trigger] m.players[i]).is_hero && is_active(m.players[i])
        && m.players[i].hole_cards is Some && !(i == m.action_on && action_of(word) == Action::Fold);
    assert(is_active(e.players[i]) && e.players[i].hole_cards is Some && e.players[i].is_hero);
    assert(someone_shows(e));
    lemma_advance_keeps(e);
    lemma_advance_seats(e);
    let (m2, due) = advance_spec(e);
    lemma_active_indices_props(e.players);
    lemma_active_indices_props(m2.players);
    assert(active_indices(e.players).contains(i as usize));
    assert(seat_played(e.players[i], m2.players[i]));
    assert(is_active(m2.players[i]));
    lemma_hero_shows_bots_can_play(m2, due, rolls);
}

} // verus!
