//! Building a training hand: seating, blinds, the simulated earlier streets
//! and the hand's first decision.

use vstd::prelude::*;
use crate::cards::{Card, full_deck, hand_strength};
use crate::engine::{run_bot_chain, run_bots_randomly, flop_text, turn_text, river_text, active_seats, count_opponents, copy_prefix, lemma_players_model_update,
    lemma_stack_total_update, lemma_stack_total_nonneg_and_bounds, lemma_active_indices_props,
    lemma_active_indices_same_status, lemma_stack_total_same_stacks, lemma_first_actor_bound,
    lemma_opponent_count_same};
use crate::laws::{lemma_bots_keep, lemma_cards_held_bots_can_play};
use crate::play::{is_active, active_indices, opponent_count, stack_total, chips, table_ok,
    min_u32, strength, play_bots, flop_marker, turn_marker, river_marker, CHIP_LIMIT,
    board_shown, live, hero_turn, bets_bounded, cards_held, bots_can_play, split_remainder, BOT_ACTION_LIMIT};
use crate::random::{random_between, shuffle_cards};
use crate::rules::{position_name, position_text, first_actor, first_post_flop_actor_list, compute_legal,
    default_legal, legal_for, no_actions};
use crate::state::{ActionRecord, GameModel, GameState, Player, PlayerModel, PlayerStatus,
    RecordModel, Street, players_model, records_model};
use crate::text::{decimal, push_decimal};

verus! {

/// Players, pot and history while a hand is being set up.
#[verifier::ext_equal]
pub struct TableModel {
    pub players: Seq<PlayerModel>,
    pub pot: u32,
    pub history: Seq<RecordModel>,
}

pub open spec fn villain_name(i: int) -> Seq<char> {
    "Villain "@ + decimal(i as nat)
}

/// The players as seated: seat `hero` is the hero, the others are villains
/// named by seat; positions count from the button.
pub open spec fn seated(n: usize, hero: usize, button: usize, stacks: Seq<u32>, holes: Seq<[Card; 2]>) -> Seq<PlayerModel> {
    Seq::new(n as nat, |i: int| PlayerModel {
        id: i as usize,
        name: if i == hero { "Hero"@ } else { villain_name(i) },
        position: position_text(((i + n - button) % (n as int)) as usize, n),
        stack: stacks[i],
        hole_cards: Some(holes[i]),
        is_hero: i == hero,
        status: PlayerStatus::Active,
        current_bet: 0,
    })
}

/// A blind of `amount`, or the whole stack if that is smaller.
pub open spec fn post_amount(ps: Seq<PlayerModel>, seat: int, amount: u32) -> u32 {
    min_u32(amount, ps[seat].stack)
}

pub open spec fn posted(ps: Seq<PlayerModel>, seat: int, amount: u32) -> Seq<PlayerModel> {
    let a = post_amount(ps, seat, amount);
    ps.update(seat, PlayerModel { stack: (ps[seat].stack - a) as u32, current_bet: a, ..ps[seat] })
}

/// The small blind is posted by the seat after the button, the big blind by
/// the next one; both are written down.
pub open spec fn with_blinds(ps: Seq<PlayerModel>, button: usize, sb: u32, bb: u32) -> TableModel {
    let n = ps.len() as int;
    let s = (button + 1) % n;
    let b = (button + 2) % n;
    let sp = post_amount(ps, s, sb);
    let ps1 = posted(ps, s, sb);
    let bp = post_amount(ps1, b, bb);
    let ps2 = posted(ps1, b, bb);
    TableModel {
        players: ps2,
        pot: (sp + bp) as u32,
        history: seq![
            RecordModel { player_name: ps2[s].name, description: "posts SB "@ + decimal(sp as nat) },
            RecordModel { player_name: ps2[b].name, description: "posts BB "@ + decimal(bp as nat) },
        ],
    }
}

/// How often, in percent, a simulated bot folds to a bet.
pub open spec fn fold_percent(s: u32) -> u32 {
    if s >= 22 { 5 } else if s >= 18 { 25 } else if s >= 15 { 55 } else { 75 }
}

/// Seat `i` acts in a simulated street, with `roll` (0..99) as its dice.
pub open spec fn sim_seat(t: TableModel, needs: Seq<bool>, i: int, street_bet: u32, roll: u32) -> (TableModel, Seq<bool>) {
    let p = t.players[i];
    if !needs[i] || !is_active(p) || p.is_hero {
        (t, needs)
    } else {
        let call_amt = street_bet.saturating_sub(p.current_bet);
        let folds = call_amt != 0 && roll < fold_percent(strength(p));
        if folds {
            (TableModel {
                players: t.players.update(i, PlayerModel { status: PlayerStatus::Folded, ..p }),
                history: t.history.push(RecordModel { player_name: p.name, description: "folds"@ }),
                ..t
            }, needs.update(i, false))
        } else {
            let actual = min_u32(call_amt, p.stack);
            (TableModel {
                players: t.players.update(i, PlayerModel {
                    stack: (p.stack - actual) as u32,
                    current_bet: (p.current_bet + actual) as u32,
                    ..p
                }),
                pot: (t.pot + actual) as u32,
                history: t.history.push(RecordModel {
                    player_name: p.name,
                    description: if call_amt == 0 { "checks"@ } else { "calls "@ + decimal(actual as nat) },
                }),
            }, needs.update(i, false))
        }
    }
}

/// The seats from `offset` on (of `n`), going round from `first`, act once each.
pub open spec fn sim_from(t: TableModel, needs: Seq<bool>, first: int, street_bet: u32, rolls: Seq<u32>, n: int, offset: int) -> TableModel
    decreases n - offset,
{
    if offset >= n || offset < 0 {
        t
    } else {
        let i = (first + offset) % n;
        let (t2, needs2) = sim_seat(t, needs, i, street_bet, rolls[i]);
        sim_from(t2, needs2, first, street_bet, rolls, n, offset + 1)
    }
}

/// Who acts first in a simulated street: before the flop the seat three after
/// the button (the button itself three-handed), afterwards the first active
/// seat after the button.
pub open spec fn sim_first(ps: Seq<PlayerModel>, button: usize, is_preflop: bool) -> usize {
    let n = ps.len() as usize;
    if is_preflop {
        if n == 3 { button } else { ((button + 3) % (n as int)) as usize }
    } else {
        first_actor(button, active_indices(ps), n)
    }
}

/// A street played by the bots alone: each active bot acts once, checking,
/// calling or folding by its dice; the hero is skipped.
pub open spec fn simulated(t: TableModel, button: usize, street_bet: u32, is_preflop: bool, rolls: Seq<u32>) -> TableModel {
    let needs = Seq::new(t.players.len(), |i: int| is_active(t.players[i]) && !t.players[i].is_hero);
    sim_from(t, needs, sim_first(t.players, button, is_preflop) as int, street_bet, rolls, t.players.len() as int, 0)
}

pub open spec fn bets_cleared(ps: Seq<PlayerModel>) -> Seq<PlayerModel> {
    Seq::new(ps.len(), |i: int| PlayerModel { current_bet: 0, ..ps[i] })
}

pub open spec fn marker(text: Seq<char>) -> RecordModel {
    RecordModel { player_name: Seq::empty(), description: text }
}

/// The first to act before the flop.
pub open spec fn preflop_first(n: usize, button: usize) -> usize {
    if n == 3 { button } else { ((button + 3) % (n as int)) as usize }
}

/// The hand as set up, before anyone acts: the hero gets the legal actions if
/// first to act, and otherwise nothing is offered.
pub open spec fn opening(t: TableModel, board: Seq<Card>, button: usize, sb: u32, bb: u32,
    street: Street, community: Seq<Card>, street_bet: u32, needs: Seq<bool>, first: usize) -> GameModel {
    let p = t.players[first as int];
    GameModel {
        players: t.players,
        board,
        community_cards: community,
        pot: t.pot,
        street,
        button_pos: button,
        small_blind: sb,
        big_blind: bb,
        action_history: t.history,
        hero_to_act: p.is_hero,
        street_bet,
        action_on: first,
        needs_action: needs,
        hand_over: false,
        result_message: None,
        legal_actions: if p.is_hero { legal_for(p.stack, p.current_bet, street_bet, bb) } else { no_actions() },
        decision_snapshots: Seq::empty(),
    }
}

pub open spec fn preflop_opening(t: TableModel, board: Seq<Card>, button: usize, sb: u32, bb: u32) -> GameModel {
    let n = t.players.len() as usize;
    opening(t, board, button, sb, bb, Street::Preflop, Seq::empty(), bb, Seq::new(n as nat, |i: int| true), preflop_first(n, button))
}

/// A simulated street after the flop, with its marker first, then the bets cleared.
pub open spec fn later_street(t: TableModel, text: Seq<char>, button: usize, bb: u32, rolls: Seq<u32>) -> TableModel {
    let s = simulated(TableModel { history: t.history.push(marker(text)), ..t }, button, 0, false, rolls);
    TableModel { players: bets_cleared(s.players), ..s }
}

/// The hand as set up by `build_scenario`, before any bot moves.
pub open spec fn scenario(n: usize, hero: usize, button: usize, stacks: Seq<u32>, holes: Seq<[Card; 2]>,
    board: Seq<Card>, sb: u32, bb: u32, start: Street, rolls: Seq<u32>) -> GameModel {
    let t0 = with_blinds(seated(n, hero, button, stacks, holes), button, sb, bb);
    if start == Street::Preflop {
        preflop_opening(t0, board, button, sb, bb)
    } else {
        let t1 = simulated(t0, button, bb, true, rolls.subrange(0, n as int));
        if !is_active(t1.players[hero as int]) || opponent_count(t1.players) == 0 {
            let fresh = Seq::new(n as nat, |i: int| PlayerModel {
                status: PlayerStatus::Active,
                stack: stacks[i],
                current_bet: 0,
                ..t1.players[i]
            });
            preflop_opening(with_blinds(fresh, button, sb, bb), board, button, sb, bb)
        } else {
            later_opening(TableModel { players: bets_cleared(t1.players), ..t1 }, board, button, sb, bb, start, rolls, n)
        }
    }
}

/// A hand dropped into a street after the flop, from the table `ta` left by
/// the simulated pre-flop action.
pub open spec fn later_opening(ta: TableModel, board: Seq<Card>, button: usize, sb: u32, bb: u32,
    start: Street, rolls: Seq<u32>, n: usize) -> GameModel {
    let tb = if start == Street::Turn || start == Street::River {
        later_street(ta, flop_marker(board), button, bb, rolls.subrange(n as int, 2 * n))
    } else {
        ta
    };
    let tc = if start == Street::River {
        later_street(tb, turn_marker(board), button, bb, rolls.subrange(2 * n, 3 * n))
    } else {
        tb
    };
    let (street, k, text) = if start == Street::Flop {
        (Street::Flop, 3int, flop_marker(board))
    } else if start == Street::Turn {
        (Street::Turn, 4int, turn_marker(board))
    } else {
        (Street::River, 5int, river_marker(board))
    };
    let td = TableModel { history: tc.history.push(marker(text)), ..tc };
    opening(td, board, button, sb, bb, street, board.take(k), 0,
        Seq::new(n as nat, |i: int| is_active(td.players[i])),
        first_actor(button, active_indices(td.players), n))
}

/// The sum of a sequence of stacks.
pub open spec fn sum_u32(s: Seq<u32>) -> int
    decreases s.len(),
{
    if s.len() == 0 { 0 } else { sum_u32(s.drop_last()) + s.last() }
}


// ── Setting up ──────────────────────────────────────────────────────────────

pub open spec fn table_of(ps: Seq<Player>, pot: u32, hist: Seq<ActionRecord>) -> TableModel {
    TableModel { players: players_model(ps), pot, history: records_model(hist) }
}

/// The players as seated, before the blinds.
pub fn seat_players(n: usize, hero: usize, button: usize, stacks: &Vec<u32>, holes: &Vec<[Card; 2]>) -> (ps: Vec<Player>)
    requires
        0 < n, 2 * n < usize::MAX,
        stacks@.len() == n,
        holes@.len() == n,
        button < n,
    ensures
        players_model(ps@) == seated(n, hero, button, stacks@, holes@),
{
    let mut ps: Vec<Player> = Vec::with_capacity(n);
    let mut i: usize = 0;
    while i < n
        invariant
            0 < n, 2 * n < usize::MAX,
            stacks@.len() == n,
            holes@.len() == n,
            button < n,
            i <= n,
            ps@.len() == i,
            forall|j: int| 0 <= j < i ==> (#[trigger] ps@[j])@ == seated(n, hero, button, stacks@, holes@)[j],
        decreases n - i,
    {
        let name = if i == hero {
            "Hero".to_owned()
        } else {
            let mut v = "Villain ".to_owned();
            push_decimal(&mut v, i as u64);
            v
        };
        let offset = (i + n - button) % n;
        let p = Player {
            id: i,
            name,
            position: position_name(offset, n).to_owned(),
            stack: stacks[i],
            hole_cards: Some(holes[i]),
            is_hero: i == hero,
            status: PlayerStatus::Active,
            current_bet: 0,
        };
        ps.push(p);
        i = i + 1;
    }
    assert(players_model(ps@) =~= seated(n, hero, button, stacks@, holes@));
    ps
}

fn post_blind(players: &mut Vec<Player>, seat: usize, amount: u32) -> (post: u32)
    requires
        seat < old(players)@.len(),
    ensures
        post == post_amount(players_model(old(players)@), seat as int, amount),
        players_model(final(players)@) == posted(players_model(old(players)@), seat as int, amount),
{
    let stack = players[seat].stack;
    let post = if amount <= stack { amount } else { stack };
    let ghost before = players@;
    players[seat].stack = stack - post;
    players[seat].current_bet = post;
    proof {
        lemma_players_model_update(before, seat as int, players@[seat as int]);
    }
    assert(players_model(players@) =~= posted(players_model(before), seat as int, amount));
    post
}

/// Posts both blinds; returns the pot and the two history lines.
pub fn post_blinds(players: &mut Vec<Player>, button: usize, sb: u32, bb: u32) -> (r: (u32, Vec<ActionRecord>))
    requires
        0 < old(players)@.len(), 2 * old(players)@.len() < usize::MAX,
        button < old(players)@.len(),
        stack_total(players_model(old(players)@)) <= CHIP_LIMIT,
    ensures
        table_of(final(players)@, r.0, r.1@) == with_blinds(players_model(old(players)@), button, sb, bb),
        final(players)@.len() == old(players)@.len(),
        r.0 + stack_total(players_model(final(players)@)) == stack_total(players_model(old(players)@)),
        forall|j: int| 0 <= j < final(players)@.len() ==> same_seat(#[trigger] players_model(final(players)@)[j], players_model(old(players)@)[j]),
        forall|j: int| 0 <= j < final(players)@.len() ==> (#[trigger] final(players)@[j]).status == old(players)@[j].status,
        forall|j: int| 0 <= j < final(players)@.len() ==> (#[trigger] final(players)@[j]).current_bet <= r.0
            || final(players)@[j].current_bet == old(players)@[j].current_bet,
{
    let ghost ps = players_model(players@);
    let n = players.len();
    let sb_idx = (button + 1) % n;
    let bb_idx = (button + 2) % n;
    proof { lemma_stack_total_nonneg_and_bounds(ps, sb_idx as int); }
    let sb_post = post_blind(players, sb_idx, sb);
    let ghost ps1 = players_model(players@);
    proof {
        let p = ps[sb_idx as int];
        lemma_stack_total_update(ps, sb_idx as int, PlayerModel { stack: (p.stack - sb_post) as u32, current_bet: sb_post, ..p });
        lemma_stack_total_nonneg_and_bounds(ps1, bb_idx as int);
    }
    assert(players@.len() == players_model(players@).len());
    let bb_post = post_blind(players, bb_idx, bb);
    assert(players@.len() == players_model(players@).len());
    proof {
        let p1 = ps1[bb_idx as int];
        lemma_stack_total_update(ps1, bb_idx as int, PlayerModel { stack: (p1.stack - bb_post) as u32, current_bet: bb_post, ..p1 });
        assert forall|j: int| 0 <= j < players@.len() implies same_seat(#[trigger] players_model(players@)[j], ps[j]) by {}
        assert forall|j: int| 0 <= j < players@.len() implies (#[trigger] players@[j]).status == old(players)@[j].status
            && (players@[j].current_bet <= sb_post + bb_post || players@[j].current_bet == old(players)@[j].current_bet) by {
            assert(players_model(players@)[j] == players@[j]@);
            assert(ps[j] == old(players)@[j]@);
        }
    }
    let pot = sb_post + bb_post;
    let mut d1 = "posts SB ".to_owned();
    push_decimal(&mut d1, sb_post as u64);
    let mut d2 = "posts BB ".to_owned();
    push_decimal(&mut d2, bb_post as u64);
    let r1 = ActionRecord { player_name: players[sb_idx].name.clone(), description: d1 };
    let r2 = ActionRecord { player_name: players[bb_idx].name.clone(), description: d2 };
    let mut history: Vec<ActionRecord> = Vec::new();
    history.push(r1);
    history.push(r2);
    assert(records_model(history@) =~= with_blinds(ps, button, sb, bb).history);
    assert(table_of(players@, pot, history@) =~= with_blinds(ps, button, sb, bb));
    (pot, history)
}


/// Only the stack, the bet and the status of a player may differ.
pub open spec fn same_seat(p: PlayerModel, q: PlayerModel) -> bool {
    p == (PlayerModel { stack: p.stack, current_bet: p.current_bet, status: p.status, ..q })
}

/// Plays a street with the bots alone (the hero is skipped): each active bot
/// acts once, folding to a bet by its dice `rolls[seat]` (0..99) and its hand
/// strength, otherwise checking or calling.  Bets are left in place.
pub fn simulate_street_bots(
    players: &mut Vec<Player>,
    pot: &mut u32,
    button_pos: usize,
    street_bet: u32,
    bb: u32,
    is_preflop: bool,
    rolls: &[u32],
    history: &mut Vec<ActionRecord>,
)
    requires
        0 < old(players)@.len(), 2 * old(players)@.len() < usize::MAX,
        button_pos < old(players)@.len(),
        rolls@.len() >= old(players)@.len(),
        is_preflop || active_indices(players_model(old(players)@)).len() > 0,
        *old(pot) + stack_total(players_model(old(players)@)) <= CHIP_LIMIT,
        forall|j: int| 0 <= j < old(players)@.len() ==> (#[trigger] old(players)@[j]).current_bet + old(players)@[j].stack <= u32::MAX,
    ensures
        table_of(final(players)@, *final(pot), final(history)@) == simulated(
            table_of(old(players)@, *old(pot), old(history)@), button_pos, street_bet, is_preflop, rolls@),
        final(players)@.len() == old(players)@.len(),
        *final(pot) + stack_total(players_model(final(players)@)) == *old(pot) + stack_total(players_model(old(players)@)),
        *final(pot) >= *old(pot),
        forall|j: int| 0 <= j < final(players)@.len() ==> (#[trigger] final(players)@[j]).current_bet + final(players)@[j].stack
            == old(players)@[j].current_bet + old(players)@[j].stack,
        (forall|j: int| 0 <= j < old(players)@.len() ==> (#[trigger] old(players)@[j]).current_bet <= *old(pot))
            ==> forall|j: int| 0 <= j < final(players)@.len() ==> (#[trigger] final(players)@[j]).current_bet <= *final(pot),
        forall|j: int| 0 <= j < final(players)@.len() ==> same_seat(#[trigger] players_model(final(players)@)[j], players_model(old(players)@)[j]),
        forall|j: int| 0 <= j < final(players)@.len() ==> (#[trigger] final(players)@[j]).status == old(players)@[j].status
            || (final(players)@[j].status == PlayerStatus::Folded && !old(players)@[j].is_hero),
        street_bet == 0 ==> forall|j: int| 0 <= j < final(players)@.len() ==> (#[trigger] final(players)@[j]).status == old(players)@[j].status,
        forall|j: int| 0 <= j < final(players)@.len() ==> (#[trigger] final(players)@[j]).stack <= old(players)@[j].stack,
        forall|j: int| 0 <= j < final(players)@.len() && old(players)@[j].current_bet >= street_bet
            ==> (#[trigger] players_model(final(players)@)[j]) == players_model(old(players)@)[j],
        (forall|j: int| 0 <= j < old(players)@.len() ==> (#[trigger] old(players)@[j]).current_bet >= street_bet)
            ==> *final(pot) == *old(pot),
        street_bet == 0 ==> players_model(final(players)@) == players_model(old(players)@) && *final(pot) == *old(pot),
        records_model(old(history)@).is_prefix_of(records_model(final(history)@)),
        street_bet == 0 ==> forall|k: int| old(history)@.len() <= k < final(history)@.len()
            ==> (#[trigger] records_model(final(history)@)[k]).description == "checks"@,
{
    let ghost t0 = table_of(players@, *pot, history@);
    let ghost pm0 = players_model(players@);
    let n = players.len();
    let mut needs: Vec<bool> = Vec::with_capacity(n);
    let mut k: usize = 0;
    while k < n
        invariant
            n == players@.len(),
            k <= n,
            needs@.len() == k,
            forall|j: int| 0 <= j < k ==> #[trigger] needs@[j] == (is_active(pm0[j]) && !pm0[j].is_hero),
            pm0 == players_model(players@),
        decreases n - k,
    {
        assert(pm0[k as int] == players@[k as int]@);
        needs.push(players[k].status == PlayerStatus::Active && !players[k].is_hero);
        k = k + 1;
    }
    assert(needs@ =~= Seq::new(pm0.len(), |i: int| is_active(pm0[i]) && !pm0[i].is_hero));
    let first = if is_preflop {
        if n == 3 { button_pos } else { (button_pos + 3) % n }
    } else {
        let active = active_seats(players);
        proof { lemma_first_actor_bound(button_pos, pm0); }
        first_post_flop_actor_list(button_pos, active.as_slice(), n)
    };
    assert(first == sim_first(pm0, button_pos, is_preflop));
    let mut offset: usize = 0;
    while offset < n
        invariant
            n == players@.len(),
            0 < n, 2 * n < usize::MAX,
            first < n,
            offset <= n,
            needs@.len() == n,
            rolls@.len() >= n,
            sim_from(table_of(players@, *pot, history@), needs@, first as int, street_bet, rolls@, n as int, offset as int)
                == sim_from(t0, Seq::new(pm0.len(), |i: int| is_active(pm0[i]) && !pm0[i].is_hero), first as int, street_bet, rolls@, n as int, 0),
            *pot + stack_total(players_model(players@)) == *old(pot) + stack_total(pm0),
            *pot + stack_total(players_model(players@)) <= CHIP_LIMIT,
            *pot >= *old(pot),
            forall|j: int| 0 <= j < n ==> (#[trigger] players@[j]).current_bet + players@[j].stack
                == old(players)@[j].current_bet + old(players)@[j].stack,
            (forall|j: int| 0 <= j < n ==> (#[trigger] old(players)@[j]).current_bet <= *old(pot))
                ==> forall|j: int| 0 <= j < n ==> (#[trigger] players@[j]).current_bet <= *pot,
            forall|j: int| 0 <= j < n ==> same_seat(#[trigger] players_model(players@)[j], pm0[j]),
            forall|j: int| 0 <= j < n ==> (#[trigger] players@[j]).status == pm0[j].status
                || (players@[j].status == PlayerStatus::Folded && !pm0[j].is_hero),
            street_bet == 0 ==> forall|j: int| 0 <= j < n ==> (#[trigger] players@[j]).status == pm0[j].status,
            forall|j: int| 0 <= j < n ==> (#[trigger] players@[j]).stack <= old(players)@[j].stack,
            forall|j: int| 0 <= j < n && old(players)@[j].current_bet >= street_bet
                ==> (#[trigger] players_model(players@)[j]) == pm0[j],
            (forall|j: int| 0 <= j < n ==> (#[trigger] old(players)@[j]).current_bet >= street_bet)
                ==> *pot == *old(pot),
            records_model(old(history)@).is_prefix_of(records_model(history@)),
            street_bet == 0 ==> forall|k: int| old(history)@.len() <= k < history@.len()
                ==> (#[trigger] records_model(history@)[k]).description == "checks"@,
            pm0 == players_model(old(players)@),
            t0 == table_of(old(players)@, *old(pot), old(history)@),
        decreases n - offset,
    {
        let i = (first + offset) % n;
        let ghost t = table_of(players@, *pot, history@);
        let ghost nd = needs@;
        let ghost before = players@;
        assert(t.players[i as int] == players@[i as int]@);
        if needs[i] && players[i].status == PlayerStatus::Active && !players[i].is_hero {
            let call_amt = street_bet.saturating_sub(players[i].current_bet);
            let s: u32 = match &players[i].hole_cards {
                Some(h) => hand_strength(h),
                None => 0,
            };
            let folds = if call_amt == 0 {
                false
            } else {
                let fold_pct: u32 = if s >= 22 { 5 } else if s >= 18 { 25 } else if s >= 15 { 55 } else { 75 };
                rolls[i] < fold_pct
            };
            let name = players[i].name.clone();
            if folds {
                players[i].status = PlayerStatus::Folded;
                proof {
                    lemma_players_model_update(before, i as int, players@[i as int]);
                    lemma_stack_total_update(t.players, i as int, players@[i as int]@);
                }
                let rec = ActionRecord { player_name: name, description: "folds".to_owned() };
                history.push(rec);
                assert(records_model(history@) =~= t.history.push(rec@));
            } else {
                let stack = players[i].stack;
                let bet = players[i].current_bet;
                let actual = if call_amt <= stack { call_amt } else { stack };
                proof {
                    lemma_stack_total_nonneg_and_bounds(t.players, i as int);
                }
                players[i].stack = stack - actual;
                players[i].current_bet = bet + actual;
                *pot = *pot + actual;
                proof {
                    lemma_players_model_update(before, i as int, players@[i as int]);
                    lemma_stack_total_update(t.players, i as int, players@[i as int]@);
                }
                let desc = if call_amt == 0 {
                    "checks".to_owned()
                } else {
                    let mut d = "calls ".to_owned();
                    push_decimal(&mut d, actual as u64);
                    d
                };
                let rec = ActionRecord { player_name: name, description: desc };
                history.push(rec);
                assert(records_model(history@) =~= t.history.push(rec@));
            }
            needs.set(i, false);
            assert(table_of(players@, *pot, history@) =~= sim_seat(t, nd, i as int, street_bet, rolls@[i as int]).0);
            assert(needs@ =~= sim_seat(t, nd, i as int, street_bet, rolls@[i as int]).1);
        }
        assert(sim_from(t, nd, first as int, street_bet, rolls@, n as int, offset as int)
            == sim_from(table_of(players@, *pot, history@), needs@, first as int, street_bet, rolls@, n as int, offset + 1));
        offset = offset + 1;
    }
}


// ── Counting lemmas ─────────────────────────────────────────────────────────

pub proof fn lemma_stack_total_is_sum(ps: Seq<PlayerModel>, stacks: Seq<u32>)
    requires
        ps.len() == stacks.len(),
        forall|i: int| 0 <= i < ps.len() ==> (#[trigger] ps[i]).stack == stacks[i],
    ensures
        stack_total(ps) == sum_u32(stacks),
    decreases ps.len(),
{
    if ps.len() > 0 {
        lemma_stack_total_is_sum(ps.drop_last(), stacks.drop_last());
    }
}

pub proof fn lemma_all_active(ps: Seq<PlayerModel>)
    requires
        forall|i: int| 0 <= i < ps.len() ==> is_active(#[trigger] ps[i]),
    ensures
        active_indices(ps).len() == ps.len(),
    decreases ps.len(),
{
    if ps.len() > 0 {
        lemma_all_active(ps.drop_last());
    }
}

/// Every opponent in the hand is an active seat, and so is an active hero.
pub proof fn lemma_active_vs_opponents(ps: Seq<PlayerModel>, h: int)
    ensures
        active_indices(ps).len() >= opponent_count(ps),
        0 <= h < ps.len() && is_active(ps[h]) && ps[h].is_hero ==> active_indices(ps).len() >= opponent_count(ps) + 1,
    decreases ps.len(),
{
    if ps.len() > 0 {
        lemma_active_vs_opponents(ps.drop_last(), h);
        if 0 <= h < ps.len() - 1 {
            assert(ps.drop_last()[h] == ps[h]);
        }
    }
}

// ── The scenario ────────────────────────────────────────────────────────────

/// Clears every player's bet.
pub fn clear_bets(players: &mut Vec<Player>)
    ensures
        players_model(final(players)@) == bets_cleared(players_model(old(players)@)),
        final(players)@.len() == old(players)@.len(),
{
    let ghost pm = players_model(players@);
    let mut i: usize = 0;
    while i < players.len()
        invariant
            i <= players@.len() == pm.len(),
            pm == players_model(old(players)@),
            forall|j: int| 0 <= j < pm.len() ==> #[trigger] players_model(players@)[j] == (
                if j < i { PlayerModel { current_bet: 0, ..pm[j] } } else { pm[j] }),
        decreases players.len() - i,
    {
        let ghost before = players@;
        assert(players_model(before)[i as int] == pm[i as int]);
        players[i].current_bet = 0;
        proof { lemma_players_model_update(before, i as int, players@[i as int]); }
        i = i + 1;
    }
    assert(players_model(players@) =~= bets_cleared(pm));
}

/// The opening state of a hand.
fn open_hand(
    players: Vec<Player>,
    board: Vec<Card>,
    community: Vec<Card>,
    pot: u32,
    street: Street,
    button: usize,
    sb: u32,
    bb: u32,
    history: Vec<ActionRecord>,
    street_bet: u32,
    needs: Vec<bool>,
    first: usize,
) -> (s: GameState)
    requires
        first < players@.len(),
        street_bet <= CHIP_LIMIT,
        bb <= CHIP_LIMIT,
    ensures
        s@ == opening(table_of(players@, pot, history@), board@, button, sb, bb, street, community@, street_bet, needs@, first),
{
    let ghost t = table_of(players@, pot, history@);
    assert(t.players[first as int] == players@[first as int]@);
    let hero_to_act = players[first].is_hero;
    let legal = if hero_to_act {
        compute_legal(players.as_slice(), first, street_bet, bb)
    } else {
        default_legal()
    };
    let s = GameState {
        players,
        board,
        community_cards: community,
        pot,
        street,
        button_pos: button,
        small_blind: sb,
        big_blind: bb,
        action_history: history,
        hero_to_act,
        street_bet,
        action_on: first,
        needs_action: needs,
        hand_over: false,
        result_message: None,
        legal_actions: legal,
        decision_snapshots: Vec::new(),
    };
    assert(s@ =~= opening(t, s.board@, button, sb, bb, street, s.community_cards@, street_bet, s.needs_action@, first));
    s
}

fn copy_rolls(rolls: &[u32], start: usize, len: usize) -> (r: Vec<u32>)
    requires
        start + len <= rolls.len(),
    ensures
        r@ == rolls@.subrange(start as int, start + len),
{
    let mut r: Vec<u32> = Vec::with_capacity(len);
    let mut i: usize = 0;
    while i < len
        invariant
            start + len <= rolls.len(),
            i <= len,
            r@ =~= rolls@.subrange(start as int, start + i),
        decreases len - i,
    {
        r.push(rolls[start + i]);
        i = i + 1;
        assert(r@ =~= rolls@.subrange(start as int, start + i));
    }
    r
}


/// The opening state is one the engine can play from.
pub proof fn lemma_opening_ready(t: TableModel, board: Seq<Card>, button: usize, sb: u32, bb: u32,
    street: Street, community: Seq<Card>, street_bet: u32, needs: Seq<bool>, first: usize)
    requires
        0 < t.players.len(), 2 * t.players.len() < usize::MAX, t.players.len() <= u32::MAX,
        needs.len() == t.players.len(),
        first < t.players.len(),
        button < t.players.len(),
        board.len() >= 5,
        community.len() <= 5,
        street_bet <= CHIP_LIMIT,
        bb <= CHIP_LIMIT,
        forall|i: int| 0 <= i < t.players.len() ==> (#[trigger] t.players[i]).hole_cards is Some,
        forall|i: int| 0 <= i < t.players.len() ==> (#[trigger] t.players[i]).current_bet <= t.pot,
        t.pot + stack_total(t.players) <= CHIP_LIMIT,
        !t.players[first as int].is_hero ==> active_indices(t.players).len() >= 2,
    ensures
        ({
            let m = opening(t, board, button, sb, bb, street, community, street_bet, needs, first);
            &&& table_ok(m)
            &&& chips(m) <= CHIP_LIMIT
            &&& bets_bounded(m)
            &&& cards_held(m)
            &&& !m.hero_to_act ==> active_indices(m.players).len() >= 2
        }),
{
    assert forall|i: int| 0 <= i < t.players.len() implies (#[trigger] t.players[i]).current_bet + t.players[i].stack <= CHIP_LIMIT by {
        lemma_stack_total_nonneg_and_bounds(t.players, i);
    }
}

/// Puts every seat back in the hand with its starting stack and no bet.
fn reset_seats(players: &mut Vec<Player>, stacks: &Vec<u32>)
    requires
        old(players)@.len() == stacks@.len(),
    ensures
        players_model(final(players)@) == Seq::new(old(players)@.len(), |i: int| PlayerModel {
            status: PlayerStatus::Active,
            stack: stacks@[i],
            current_bet: 0,
            ..players_model(old(players)@)[i]
        }),
        final(players)@.len() == old(players)@.len(),
{
    let ghost pm = players_model(players@);
    let mut i: usize = 0;
    while i < players.len()
        invariant
            i <= players@.len() == pm.len() == stacks@.len(),
            pm == players_model(old(players)@),
            forall|j: int| 0 <= j < pm.len() ==> #[trigger] players_model(players@)[j] == (
                if j < i {
                    PlayerModel { status: PlayerStatus::Active, stack: stacks@[j], current_bet: 0, ..pm[j] }
                } else {
                    pm[j]
                }),
        decreases players.len() - i,
    {
        let ghost before = players@;
        assert(players_model(before)[i as int] == pm[i as int]);
        players[i].status = PlayerStatus::Active;
        players[i].stack = stacks[i];
        players[i].current_bet = 0;
        assert(players@ =~= before.update(i as int, players@[i as int]));
        proof { lemma_players_model_update(before, i as int, players@[i as int]); }
        i = i + 1;
    }
    assert(players_model(players@) =~= Seq::new(pm.len(), |i: int| PlayerModel {
        status: PlayerStatus::Active,
        stack: stacks@[i],
        current_bet: 0,
        ..pm[i]
    }));
}

fn all_true(n: usize) -> (v: Vec<bool>)
    ensures
        v@ == Seq::new(n as nat, |i: int| true),
{
    let mut v: Vec<bool> = Vec::with_capacity(n);
    let mut i: usize = 0;
    while i < n
        invariant
            i <= n,
            v@ =~= Seq::new(i as nat, |j: int| true),
        decreases n - i,
    {
        v.push(true);
        i = i + 1;
        assert(v@ =~= Seq::new(i as nat, |j: int| true));
    }
    v
}

fn active_flags(players: &Vec<Player>) -> (v: Vec<bool>)
    ensures
        v@ == Seq::new(players@.len(), |i: int| is_active(players_model(players@)[i])),
{
    let ghost pm = players_model(players@);
    let mut v: Vec<bool> = Vec::with_capacity(players.len());
    let mut i: usize = 0;
    while i < players.len()
        invariant
            i <= players@.len(),
            pm == players_model(players@),
            v@ =~= Seq::new(i as nat, |j: int| is_active(pm[j])),
        decreases players.len() - i,
    {
        assert(pm[i as int] == players@[i as int]@);
        v.push(players[i].status == PlayerStatus::Active);
        i = i + 1;
        assert(v@ =~= Seq::new(i as nat, |j: int| is_active(pm[j])));
    }
    v
}

fn push_line(history: &mut Vec<ActionRecord>, text: String)
    ensures
        records_model(final(history)@) == records_model(old(history)@).push(marker(text@)),
{
    let rec = ActionRecord { player_name: String::new(), description: text };
    history.push(rec);
    assert(records_model(history@) =~= records_model(old(history)@).push(marker(rec.description@)));
}


/// The seats keep their cards and their hero flag, bets are cleared, the chips
/// stay within the limit and at least two players are in.
pub open spec fn street_ready(t: TableModel, n: usize, hero: usize) -> bool {
    &&& t.players.len() == n
    &&& forall|i: int| 0 <= i < n ==> (#[trigger] t.players[i]).hole_cards is Some
        && t.players[i].is_hero == (i == hero) && t.players[i].current_bet == 0
    &&& t.pot + stack_total(t.players) <= CHIP_LIMIT
    &&& active_indices(t.players).len() >= 2
}

/// Plays a later street with the bots alone: the street's marker line, the
/// bots' checks, and the bets cleared.
fn play_later_street(players: &mut Vec<Player>, pot: &mut u32, history: &mut Vec<ActionRecord>,
    text: String, button: usize, bb: u32, rolls: Vec<u32>, Ghost(hero): Ghost<usize>)
    requires
        0 < old(players)@.len(), 2 * old(players)@.len() < usize::MAX, old(players)@.len() <= u32::MAX,
        button < old(players)@.len(),
        rolls@.len() == old(players)@.len(),
        street_ready(table_of(old(players)@, *old(pot), old(history)@), old(players)@.len() as usize, hero),
    ensures
        table_of(final(players)@, *final(pot), final(history)@)
            == later_street(table_of(old(players)@, *old(pot), old(history)@), text@, button, bb, rolls@),
        street_ready(table_of(final(players)@, *final(pot), final(history)@), old(players)@.len() as usize, hero),
        *final(pot) + stack_total(players_model(final(players)@)) == *old(pot) + stack_total(players_model(old(players)@)),
        active_indices(players_model(final(players)@)) == active_indices(players_model(old(players)@)),
        final(players)@.len() == old(players)@.len(),
        forall|j: int| 0 <= j < final(players)@.len() ==> (#[trigger] final(players)@[j]).status == old(players)@[j].status
            && final(players)@[j].is_hero == old(players)@[j].is_hero,
{
    let ghost t = table_of(players@, *pot, history@);
    let ghost n = players@.len();
    push_line(history, text);
    proof {
        lemma_active_indices_props(t.players);
        assert forall|j: int| 0 <= j < n implies (#[trigger] players@[j]).current_bet <= *pot
            && players@[j].current_bet + players@[j].stack <= u32::MAX by {
            assert(t.players[j] == players@[j]@);
            lemma_stack_total_nonneg_and_bounds(t.players, j);
        }
    }
    simulate_street_bots(players, pot, button, 0, bb, false, rolls.as_slice(), history);
    let ghost t1 = players_model(players@);
    proof {
        assert forall|j: int| 0 <= j < n implies (#[trigger] t1[j]).status == t.players[j].status by {
            assert(t1[j] == players@[j]@);
        }
        lemma_active_indices_same_status(t1, t.players);
    }
    clear_bets(players);
    proof {
        let t2 = players_model(players@);
        lemma_stack_total_same_stacks(t2, t1);
        lemma_active_indices_same_status(t2, t1);
        assert forall|i: int| 0 <= i < n implies (#[trigger] t2[i]).hole_cards is Some
            && t2[i].is_hero == (i == hero) && t2[i].current_bet == 0 by {
            assert(same_seat(t1[i], t.players[i]));
        }
        assert forall|j: int| 0 <= j < n implies (#[trigger] players@[j]).status == old(players)@[j].status
            && players@[j].is_hero == old(players)@[j].is_hero by {
            assert(t2[j] == players@[j]@);
            assert(t.players[j] == old(players)@[j]@);
            assert(same_seat(t1[j], t.players[j]));
        }
    }
    assert(table_of(players@, *pot, history@) =~= later_street(t, text@, button, bb, rolls@));
}

/// Drops the hand into a street after the flop: the later bot-only streets
/// are played, the street is dealt and the first active seat after the
/// button is to act.
fn start_later(mut players: Vec<Player>, mut pot: u32, mut history: Vec<ActionRecord>, board: Vec<Card>,
    button_pos: usize, sb: u32, bb: u32, starting_street: Street, sim_rolls: &[u32], Ghost(hero_idx): Ghost<usize>) -> (state: GameState)
    requires
        0 < players@.len(), 2 * players@.len() < usize::MAX, players@.len() <= u32::MAX,
        button_pos < players@.len(),
        board@.len() >= 5,
        bb <= CHIP_LIMIT,
        starting_street != Street::Preflop,
        starting_street != Street::Showdown,
        sim_rolls@.len() == 3 * players@.len(),
        street_ready(table_of(players@, pot, history@), players@.len() as usize, hero_idx),
    ensures
        state@ == later_opening(table_of(players@, pot, history@), board@, button_pos, sb, bb, starting_street,
            sim_rolls@, players@.len() as usize),
        table_ok(state@),
        chips(state@) <= CHIP_LIMIT,
        bets_bounded(state@),
        cards_held(state@),
        !state@.hero_to_act ==> active_indices(state@.players).len() >= 2,
        chips(state@) == pot + stack_total(players_model(players@)),
        board_shown(state@),
        state@.street == starting_street,
        !state@.hand_over,
        state@.hero_to_act ==> hero_turn(state@),
        state@.players.len() == players@.len(),
        forall|j: int| 0 <= j < players@.len() ==> (#[trigger] state@.players[j]).status == players@[j].status
            && state@.players[j].is_hero == players@[j].is_hero,
{
    let n = players.len();
    let ghost p0 = players@;
    let ghost ta = table_of(players@, pot, history@);
    let ghost bd = board@;
    if starting_street == Street::Turn || starting_street == Street::River {
        let r = copy_rolls(sim_rolls, n, n);
        play_later_street(&mut players, &mut pot, &mut history, flop_text(&board), button_pos, bb, r, Ghost(hero_idx));
    }
    let ghost tb = table_of(players@, pot, history@);
    assert(tb == if starting_street == Street::Turn || starting_street == Street::River {
        later_street(ta, flop_marker(bd), button_pos, bb, sim_rolls@.subrange(n as int, 2 * n))
    } else {
        ta
    });
    if starting_street == Street::River {
        let r = copy_rolls(sim_rolls, 2 * n, n);
        play_later_street(&mut players, &mut pot, &mut history, turn_text(&board), button_pos, bb, r, Ghost(hero_idx));
    }
    let ghost tc = table_of(players@, pot, history@);
    assert(tc == if starting_street == Street::River {
        later_street(tb, turn_marker(bd), button_pos, bb, sim_rolls@.subrange(2 * n, 3 * n))
    } else {
        tb
    });
    let (street, k, text) = if starting_street == Street::Flop {
        (Street::Flop, 3, flop_text(&board))
    } else if starting_street == Street::Turn {
        (Street::Turn, 4, turn_text(&board))
    } else {
        (Street::River, 5, river_text(&board))
    };
    let community = copy_prefix(&board, k);
    push_line(&mut history, text);
    let ghost td = table_of(players@, pot, history@);
    let active = active_seats(&players);
    let needs = active_flags(&players);
    proof {
        lemma_first_actor_bound(button_pos, td.players);
        lemma_stack_total_nonneg_and_bounds(td.players, 0);
    }
    let first = first_post_flop_actor_list(button_pos, active.as_slice(), n);
    proof {
        lemma_opening_ready(td, bd, button_pos, sb, bb, street, community@, 0, needs@, first);
        assert forall|j: int| 0 <= j < n implies (#[trigger] players@[j]).status == p0[j].status
            && players@[j].is_hero == p0[j].is_hero by {
        }
    }
    let ghost ps = players@;
    let state = open_hand(players, board, community, pot, street, button_pos, sb, bb, history, 0, needs, first);
    proof {
        assert forall|j: int| 0 <= j < n implies (#[trigger] state@.players[j]).status == p0[j].status
            && state@.players[j].is_hero == p0[j].is_hero by {
            assert(state@.players[j] == ps[j]@);
        }
    }
    state

}

/// The hand as set up, before any bot moves.
fn opening_state(
    num_players: usize,
    hero_idx: usize,
    button_pos: usize,
    raw_stacks: Vec<u32>,
    hole_cards: Vec<[Card; 2]>,
    board: Vec<Card>,
    sb: u32,
    bb: u32,
    starting_street: Street,
    sim_rolls: &[u32],
) -> (state: GameState)
    requires
        0 < num_players, 2 * num_players < usize::MAX, num_players <= u32::MAX,
        hero_idx < num_players,
        button_pos < num_players,
        raw_stacks@.len() == num_players,
        hole_cards@.len() == num_players,
        board@.len() >= 5,
        sim_rolls@.len() == 3 * num_players,
        sum_u32(raw_stacks@) <= CHIP_LIMIT,
        bb <= CHIP_LIMIT,
        starting_street != Street::Showdown,
    ensures
        ({
            let sc = scenario(num_players, hero_idx, button_pos, raw_stacks@, hole_cards@, board@, sb, bb,
                starting_street, sim_rolls@);
            &&& state@ == sc
            &&& live(sc)
            &&& chips(sc) == sum_u32(raw_stacks@)
            &&& sc.street == starting_street || sc.street == Street::Preflop
            &&& sc.street != Street::Preflop ==> is_active(sc.players[hero_idx as int])
                && opponent_count(sc.players) >= 1
            &&& sc.hero_to_act ==> hero_turn(sc)
            &&& sc.decision_snapshots.len() == 0
            &&& cards_held(sc)
        }),
        !state@.hero_to_act ==> active_indices(state@.players).len() >= 2,
{
    let ghost sc = scenario(num_players, hero_idx, button_pos, raw_stacks@, hole_cards@, board@, sb, bb,
        starting_street, sim_rolls@);
    let ghost bd = board@;
    let n = num_players;
    let mut players = seat_players(n, hero_idx, button_pos, &raw_stacks, &hole_cards);
    let ghost seat0 = players_model(players@);
    proof {
        lemma_stack_total_is_sum(seat0, raw_stacks@);
        lemma_all_active(seat0);
    }
    let (pot0, history0) = post_blinds(&mut players, button_pos, sb, bb);
    let ghost t0 = table_of(players@, pot0, history0@);
    assert(t0 == with_blinds(seated(n, hero_idx, button_pos, raw_stacks@, hole_cards@), button_pos, sb, bb));
    let state = if starting_street == Street::Preflop {
        let first = if n == 3 { button_pos } else { (button_pos + 3) % n };
        let needs = all_true(n);
        proof {
            assert forall|i: int| 0 <= i < n implies is_active(#[trigger] t0.players[i]) by {
                assert(t0.players[i] == players@[i]@);
            }
            lemma_all_active(t0.players);
            assert(t0.players[first as int] == players@[first as int]@);
            assert(same_seat(t0.players[hero_idx as int], seat0[hero_idx as int]));
            assert(forall|i: int| 0 <= i < n ==> (#[trigger] t0.players[i]).hole_cards is Some
                && t0.players[i].current_bet <= t0.pot) by {
                assert forall|i: int| 0 <= i < n implies (#[trigger] t0.players[i]).hole_cards is Some
                    && t0.players[i].current_bet <= t0.pot by {
                    assert(same_seat(t0.players[i], seat0[i]));
                    assert(t0.players[i] == players@[i]@);
                }
            }
            lemma_opening_ready(t0, bd, button_pos, sb, bb, Street::Preflop, Seq::empty(), bb, needs@, first);
        }
        let s0 = open_hand(players, board, Vec::new(), pot0, Street::Preflop, button_pos, sb, bb, history0, bb, needs, first);
        assert(s0@.community_cards =~= s0@.board.take(0));
        s0
    } else {
        let mut pot = pot0;
        let mut history = history0;
        let pre_rolls = copy_rolls(sim_rolls, 0, n);
        proof {
            assert forall|j: int| 0 <= j < n implies (#[trigger] players@[j]).current_bet <= pot
                && players@[j].current_bet + players@[j].stack <= u32::MAX by {
                assert(same_seat(players_model(players@)[j], seat0[j]));
                assert(players_model(players@)[j] == players@[j]@);
                lemma_stack_total_nonneg_and_bounds(players_model(players@), j);
            }
        }
        simulate_street_bots(&mut players, &mut pot, button_pos, bb, bb, true, pre_rolls.as_slice(), &mut history);
        let ghost t1 = table_of(players@, pot, history@);
        assert(t1 == simulated(t0, button_pos, bb, true, sim_rolls@.subrange(0, n as int)));
        let hero_active = players[hero_idx].status == PlayerStatus::Active;
        let opp_active = count_opponents(&players);
        assert(t1.players[hero_idx as int] == players@[hero_idx as int]@);
        if !hero_active || opp_active == 0 {
            reset_seats(&mut players, &raw_stacks);
            let ghost fresh = players_model(players@);
            proof {
                assert forall|i: int| 0 <= i < n implies (#[trigger] fresh[i]).stack == raw_stacks@[i] by {}
                lemma_stack_total_is_sum(fresh, raw_stacks@);
            }
            let (pot2, history2) = post_blinds(&mut players, button_pos, sb, bb);
            let ghost t2 = table_of(players@, pot2, history2@);
            let first = if n == 3 { button_pos } else { (button_pos + 3) % n };
            let needs = all_true(n);
            proof {
                assert forall|i: int| 0 <= i < n implies is_active(#[trigger] t2.players[i])
                    && t2.players[i].hole_cards is Some && t2.players[i].current_bet <= t2.pot by {
                    assert(t2.players[i] == players@[i]@);
                    assert(same_seat(t2.players[i], fresh[i]));
                    assert(same_seat(t1.players[i], t0.players[i]));
                    assert(same_seat(t0.players[i], seat0[i]));
                }
                lemma_all_active(t2.players);
                assert(same_seat(t2.players[hero_idx as int], fresh[hero_idx as int]));
                assert(same_seat(t1.players[hero_idx as int], t0.players[hero_idx as int]));
                assert(same_seat(t0.players[hero_idx as int], seat0[hero_idx as int]));
                lemma_opening_ready(t2, bd, button_pos, sb, bb, Street::Preflop, Seq::empty(), bb, needs@, first);
            }
            let s2 = open_hand(players, board, Vec::new(), pot2, Street::Preflop, button_pos, sb, bb, history2, bb, needs, first);
            assert(s2@.community_cards =~= s2@.board.take(0));
            s2
        } else {
            clear_bets(&mut players);
            let ghost ta = table_of(players@, pot, history@);
            proof {
                assert(ta == TableModel { players: bets_cleared(t1.players), ..t1 });
                lemma_stack_total_same_stacks(ta.players, t1.players);
                lemma_active_indices_same_status(ta.players, t1.players);
                assert(same_seat(t1.players[hero_idx as int], t0.players[hero_idx as int]));
                assert(same_seat(t0.players[hero_idx as int], seat0[hero_idx as int]));
                lemma_active_vs_opponents(t1.players, hero_idx as int);
                assert forall|i: int| 0 <= i < n implies (#[trigger] ta.players[i]).hole_cards is Some
                    && ta.players[i].is_hero == (i == hero_idx) && ta.players[i].current_bet == 0 by {
                    assert(same_seat(t1.players[i], t0.players[i]));
                    assert(same_seat(t0.players[i], seat0[i]));
                }
                assert(street_ready(ta, n, hero_idx));
                assert forall|i: int| 0 <= i < n implies (#[trigger] ta.players[i]).status == t1.players[i].status
                    && ta.players[i].is_hero == t1.players[i].is_hero by {}
                lemma_opponent_count_same(ta.players, t1.players);
            }
            let ghost pa = players@;
            let s3 = start_later(players, pot, history, board, button_pos, sb, bb, starting_street, sim_rolls, Ghost(hero_idx));
            proof {
                assert forall|i: int| 0 <= i < n implies (#[trigger] s3@.players[i]).status == ta.players[i].status
                    && s3@.players[i].is_hero == ta.players[i].is_hero by {
                    assert(ta.players[i] == pa[i]@);
                }
                lemma_opponent_count_same(s3@.players, ta.players);
                assert(s3@.players[hero_idx as int].status == ta.players[hero_idx as int].status);
            }
            s3
        }
    };
    assert(state@ == sc);
    state
}

/// Sets up a hand from its dealt parts: `num_players` seats with the hero at
/// `hero_idx`, the button, the starting stacks, the hole cards and the five
/// board cards, the blinds and the street the hero is dropped into.  Streets
/// before it are played by the bots with the dice in `sim_rolls` (seat `i`
/// uses entry `i` before the flop, `n + i` on the flop and `2n + i` on the
/// turn); when that leaves the hero or every opponent out of the hand, the
/// hand starts before the flop instead.  If a bot is first to act, the bots
/// then move with `bot_rolls`.
pub fn build_scenario(
    num_players: usize,
    hero_idx: usize,
    button_pos: usize,
    raw_stacks: Vec<u32>,
    hole_cards: Vec<[Card; 2]>,
    board: Vec<Card>,
    sb: u32,
    bb: u32,
    starting_street: Street,
    sim_rolls: &[u32],
    bot_rolls: &[u8],
) -> (state: GameState)
    requires
        0 < num_players, 2 * num_players < usize::MAX, num_players <= u32::MAX,
        hero_idx < num_players,
        button_pos < num_players,
        raw_stacks@.len() == num_players,
        hole_cards@.len() == num_players,
        board@.len() >= 5,
        sim_rolls@.len() == 3 * num_players,
        sum_u32(raw_stacks@) <= CHIP_LIMIT,
        bb <= CHIP_LIMIT,
        starting_street != Street::Showdown,
    ensures
        ({
            let sc = scenario(num_players, hero_idx, button_pos, raw_stacks@, hole_cards@, board@, sb, bb,
                starting_street, sim_rolls@);
            &&& state@ == play_bots(sc, !sc.hero_to_act, bot_rolls@).0
            &&& !play_bots(sc, !sc.hero_to_act, bot_rolls@).1 ==> state@.hand_over || hero_turn(state@)
            &&& live(sc)
            &&& chips(sc) == sum_u32(raw_stacks@)
            &&& sc.street == starting_street || sc.street == Street::Preflop
            &&& sc.street != Street::Preflop ==> is_active(sc.players[hero_idx as int])
                && opponent_count(sc.players) >= 1
            &&& sc.hero_to_act ==> hero_turn(sc)
            &&& sc.decision_snapshots.len() == 0
            &&& cards_held(sc)
            &&& !sc.hero_to_act ==> active_indices(sc.players).len() >= 2
                && !sc.players[sc.action_on as int].is_hero
        }),
        !state@.hand_over ==> live(state@) && chips(state@) == sum_u32(raw_stacks@),
        state@.hand_over ==> stack_total(state@.players) <= sum_u32(raw_stacks@)
            && stack_total(state@.players) + num_players > sum_u32(raw_stacks@)
            && stack_total(state@.players) + split_remainder(state@) == sum_u32(raw_stacks@),
{
    let ghost sc = scenario(num_players, hero_idx, button_pos, raw_stacks@, hole_cards@, board@, sb, bb,
        starting_street, sim_rolls@);
    let mut state = opening_state(num_players, hero_idx, button_pos, raw_stacks, hole_cards, board, sb, bb,
        starting_street, sim_rolls);
    proof {
        lemma_cards_held_bots_can_play(sc, !sc.hero_to_act, bot_rolls@);
        lemma_bots_keep(sc, !sc.hero_to_act, bot_rolls@);
    }
    if !state.hero_to_act {
        let _ = run_bot_chain(&mut state, true, bot_rolls);
    }
    state
}


// ── A random hand ───────────────────────────────────────────────────────────

/// The street a hand starts on for a roll of 0..99: pre-flop 40%, flop 32%,
/// turn 16%, river 12%.
pub open spec fn street_for(roll: u32) -> Street {
    if roll < 40 {
        Street::Preflop
    } else if roll < 72 {
        Street::Flop
    } else if roll < 88 {
        Street::Turn
    } else {
        Street::River
    }
}

/// The hole cards dealt from a shuffled deck: two per seat, in seat order.
pub open spec fn dealt_holes(deck: Seq<Card>, n: int) -> Seq<[Card; 2]> {
    Seq::new(n as nat, |i: int| [deck[2 * i], deck[2 * i + 1]])
}

/// The draws a random hand is made of: the table size, the button, the
/// stacks (20 to 150 big blinds of 100), a shuffled deck, the street roll and
/// the dice of the simulated streets.
pub open spec fn valid_draws(n: usize, button: usize, stacks: Seq<u32>, deck: Seq<Card>, roll: u32, sim: Seq<u32>) -> bool {
    &&& 2 <= n <= 9
    &&& button < n
    &&& stacks.len() == n
    &&& forall|i: int| 0 <= i < n ==> 2000 <= #[trigger] stacks[i] <= 15000 && stacks[i] % 100 == 0
    &&& deck.len() == 52
    &&& deck.to_multiset() == Seq::new(52, |i: int| crate::cards::deck_card(i)).to_multiset()
    &&& roll < 100
    &&& sim.len() == 3 * n
    &&& forall|i: int| 0 <= i < sim.len() ==> #[trigger] sim[i] < 100
}

/// The hand `build_scenario` makes from the draws, the hero in seat 0 and
/// blinds of 50 and 100.
pub open spec fn game_from_draws(n: usize, button: usize, stacks: Seq<u32>, deck: Seq<Card>, roll: u32, sim: Seq<u32>,
    bots: Seq<u8>) -> GameModel {
    let sc = scenario(n, 0, button, stacks, dealt_holes(deck, n as int), deck.subrange(2 * n, 2 * n + 5),
        50, 100, street_for(roll), sim);
    play_bots(sc, !sc.hero_to_act, bots).0
}

fn street_of_roll(roll: u32) -> (s: Street)
    ensures
        s == street_for(roll),
{
    if roll < 40 {
        Street::Preflop
    } else if roll < 72 {
        Street::Flop
    } else if roll < 88 {
        Street::Turn
    } else {
        Street::River
    }
}

/// A random hand: 2 to 9 players, the hero in seat 0, blinds 50/100, stacks
/// of 20 to 150 big blinds, a shuffled deck, and a starting street drawn with
/// weight toward the early streets; earlier streets are simulated and bots
/// first to act move, as `build_scenario` does with the draws.
#[verifier::rlimit(40)]
pub fn new_game() -> (state: GameState)
    ensures
        exists|n: usize, button: usize, stacks: Seq<u32>, deck: Seq<Card>, roll: u32, sim: Seq<u32>, bots: Seq<u8>|
            valid_draws(n, button, stacks, deck, roll, sim) && bots.len() <= BOT_ACTION_LIMIT
                && state@ == #[trigger] game_from_draws(n, button, stacks, deck, roll, sim, bots)
                && (state@.hand_over || hero_turn(state@) || bots.len() == BOT_ACTION_LIMIT),
{
    let num_players = random_between(2, 9) as usize;
    let sb: u32 = 50;
    let bb: u32 = 100;
    let hero_idx: usize = 0;
    let button_pos = random_between(0, (num_players - 1) as u32) as usize;

    let mut raw_stacks: Vec<u32> = Vec::with_capacity(num_players);
    let mut i: usize = 0;
    while i < num_players
        invariant
            2 <= num_players <= 9,
            bb == 100,
            i <= num_players,
            raw_stacks@.len() == i,
            forall|j: int| 0 <= j < i ==> 2000 <= #[trigger] raw_stacks@[j] <= 15000 && raw_stacks@[j] % 100 == 0,
        decreases num_players - i,
    {
        let bbs = random_between(20, 150);
        assert((bbs * 100) % 100 == 0) by (nonlinear_arith);
        raw_stacks.push(bbs * bb);
        i = i + 1;
    }
    proof { lemma_sum_bound(raw_stacks@, 15000); }

    let mut deck = full_deck();
    let ghost fresh = deck@;
    assert(fresh =~= Seq::new(52, |i: int| crate::cards::deck_card(i)));
    shuffle_cards(&mut deck);

    let mut hole_cards: Vec<[Card; 2]> = Vec::with_capacity(num_players);
    let mut k: usize = 0;
    while k < num_players
        invariant
            2 <= num_players <= 9,
            deck@.len() == 52,
            k <= num_players,
            hole_cards@ =~= dealt_holes(deck@, k as int),
        decreases num_players - k,
    {
        hole_cards.push([deck[2 * k], deck[2 * k + 1]]);
        k = k + 1;
        assert(hole_cards@ =~= dealt_holes(deck@, k as int));
    }
    let mut board: Vec<Card> = Vec::with_capacity(5);
    let mut b: usize = 0;
    while b < 5
        invariant
            2 <= num_players <= 9,
            deck@.len() == 52,
            b <= 5,
            board@ =~= deck@.subrange(2 * num_players as int, 2 * num_players + b),
        decreases 5 - b,
    {
        board.push(deck[2 * num_players + b]);
        b = b + 1;
        assert(board@ =~= deck@.subrange(2 * num_players as int, 2 * num_players + b));
    }

    let roll = random_between(0, 99);
    let starting_street = street_of_roll(roll);

    let mut sim_rolls: Vec<u32> = Vec::with_capacity(3 * num_players);
    let mut r: usize = 0;
    while r < 3 * num_players
        invariant
            2 <= num_players <= 9,
            r <= 3 * num_players,
            sim_rolls@.len() == r,
            forall|j: int| 0 <= j < r ==> #[trigger] sim_rolls@[j] < 100,
        decreases 3 * num_players - r,
    {
        sim_rolls.push(random_between(0, 99));
        r = r + 1;
    }
    let ghost stacks = raw_stacks@;
    let ghost holes = hole_cards@;
    let ghost bd = board@;
    let no_rolls: Vec<u8> = Vec::new();
    let mut state = build_scenario(num_players, hero_idx, button_pos, raw_stacks, hole_cards, board, sb, bb,
        starting_street, sim_rolls.as_slice(), no_rolls.as_slice());
    let ghost sc = scenario(num_players, hero_idx, button_pos, stacks, holes, bd, sb, bb, starting_street, sim_rolls@);
    assert(state@ == sc);
    let due = !state.hero_to_act;
    assert forall|rolls: Seq<u8>| #[trigger] bots_can_play(sc, due, rolls) by {
        lemma_cards_held_bots_can_play(sc, due, rolls);
    }
    let pending = run_bots_randomly(&mut state, due);
    proof {
        let rolls = choose|rolls: Seq<u8>| rolls.len() <= BOT_ACTION_LIMIT
            && #[trigger] play_bots(sc, due, rolls) == (state@, pending)
            && (pending ==> rolls.len() == BOT_ACTION_LIMIT);
        lemma_bots_keep(sc, due, rolls);
        assert(valid_draws(num_players, button_pos, stacks, deck@, roll, sim_rolls@));
        assert(state@ == game_from_draws(num_players, button_pos, stacks, deck@, roll, sim_rolls@, rolls));
    }
    state
}

pub proof fn lemma_sum_bound(s: Seq<u32>, cap: u32)
    requires
        forall|j: int| 0 <= j < s.len() ==> #[trigger] s[j] <= cap,
    ensures
        sum_u32(s) <= s.len() * cap,
        sum_u32(s) >= 0,
    decreases s.len(),
{
    if s.len() > 0 {
        lemma_sum_bound(s.drop_last(), cap);
        assert(sum_u32(s.drop_last()) + s.last() <= (s.len() - 1) * cap + cap);
        assert((s.len() - 1) * cap + cap == s.len() * cap) by (nonlinear_arith);
    }
}

} // verus!
