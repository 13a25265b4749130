//! The action engine: applying an action, passing the turn, dealing the next
//! street, the showdown, and the bots' moves.

use vstd::prelude::*;
use crate::cards::{Card, card_str, hand_strength};
use crate::play::{Action, action_of, is_active, active_indices, opponent_count, stack_total, chips,
    table_ok, playable, bets_bounded, someone_shows, turn_can_pass, bots_can_play, action_can_play, street_label, with_snapshot, with_record, with_need, with_status, committed,
    reopened, min_u32, effects, won_by_folds, round_over, next_to_act, give_turn,
    street_reset, with_marker, flop_marker, turn_marker, river_marker, next_street_spec, advance_spec,
    shown_cards, showdown_scan, pay_each, joined_names, showdown, bot_move, play_bots,
    act_and_play, leaves_someone_in, running, hero_turn, split_remainder, CHIP_LIMIT, BOT_ACTION_LIMIT};
use crate::rank::{HandRank, beats, ties, category_name, rank_cards};
use crate::rules::{compute_legal, first_post_flop_actor_list, seat_search, first_actor};
use crate::state::{GameModel, PlayerModel, ActionRecord, DecisionSnapshot, GameState, Player, PlayerStatus, Street, players_model, records_model, snapshots_model};
use crate::text::{join2, push_decimal};
use crate::random::random_byte;

verus! {

// ── Lemmas on the model ─────────────────────────────────────────────────────

pub proof fn lemma_players_model_update(ps: Seq<Player>, i: int, p: Player)
    requires
        0 <= i < ps.len(),
    ensures
        players_model(ps.update(i, p)) == players_model(ps).update(i, p@),
{
    assert(players_model(ps.update(i, p)) =~= players_model(ps).update(i, p@));
}

pub proof fn lemma_stack_total_update(ps: Seq<PlayerModel>, i: int, p: PlayerModel)
    requires
        0 <= i < ps.len(),
    ensures
        stack_total(ps.update(i, p)) == stack_total(ps) - ps[i].stack + p.stack,
    decreases ps.len(),
{
    let qs = ps.update(i, p);
    if i == ps.len() - 1 {
        assert(qs.drop_last() =~= ps.drop_last());
    } else {
        assert(qs.drop_last() =~= ps.drop_last().update(i, p));
        lemma_stack_total_update(ps.drop_last(), i, p);
    }
}

pub proof fn lemma_stack_total_nonneg_and_bounds(ps: Seq<PlayerModel>, i: int)
    ensures
        stack_total(ps) >= 0,
        0 <= i < ps.len() ==> ps[i].stack <= stack_total(ps),
    decreases ps.len(),
{
    if ps.len() > 0 {
        lemma_stack_total_nonneg_and_bounds(ps.drop_last(), i);
        if 0 <= i < ps.len() - 1 {
            assert(ps.drop_last()[i] == ps[i]);
        }
    }
}

/// Stack totals only look at the stacks.
pub proof fn lemma_stack_total_same_stacks(ps: Seq<PlayerModel>, qs: Seq<PlayerModel>)
    requires
        ps.len() == qs.len(),
        forall|i: int| 0 <= i < ps.len() ==> (#[trigger] ps[i]).stack == qs[i].stack,
    ensures
        stack_total(ps) == stack_total(qs),
    decreases ps.len(),
{
    if ps.len() > 0 {
        lemma_stack_total_same_stacks(ps.drop_last(), qs.drop_last());
    }
}

/// Active seats are valid, active, increasing seats, and every active seat is listed.
pub proof fn lemma_active_indices_props(ps: Seq<PlayerModel>)
    requires
        ps.len() <= usize::MAX,
    ensures
        active_indices(ps).len() <= ps.len(),
        forall|k: int| 0 <= k < active_indices(ps).len() ==> (#[trigger] active_indices(ps)[k]) < ps.len(),
        forall|k: int| 0 <= k < active_indices(ps).len() ==> is_active(ps[#[trigger] active_indices(ps)[k] as int]),
        forall|k: int, l: int| 0 <= k < l < active_indices(ps).len() ==> active_indices(ps)[k] < active_indices(ps)[l],
        forall|j: int| 0 <= j < ps.len() && is_active(#[trigger] ps[j]) ==> active_indices(ps).contains(j as usize),
    decreases ps.len(),
{
    if ps.len() > 0 {
        let pd = ps.drop_last();
        lemma_active_indices_props(pd);
        let rest = active_indices(pd);
        let a = active_indices(ps);
        let last = (ps.len() - 1) as usize;
        assert(forall|k: int| 0 <= k < rest.len() ==> a[k] == rest[k]);
        assert(forall|j: int| 0 <= j < pd.len() ==> pd[j] == ps[j]);
        assert forall|k: int| 0 <= k < a.len() implies (#[trigger] a[k]) < ps.len() && is_active(ps[a[k] as int]) by {
            if k < rest.len() {
                assert(a[k] == rest[k]);
                assert(rest[k] < pd.len());
                assert(is_active(pd[rest[k] as int]));
            } else {
                assert(a[k] == last);
            }
        }
        assert forall|k: int, l: int| 0 <= k < l < a.len() implies a[k] < a[l] by {
            if l < rest.len() {
            } else {
                assert(a[l] == last);
                assert(a[k] == rest[k]);
                assert(rest[k] < pd.len());
            }
        }
        assert forall|j: int| 0 <= j < ps.len() && is_active(#[trigger] ps[j]) implies a.contains(j as usize) by {
            if j < ps.len() - 1 {
                assert(pd[j] == ps[j]);
                assert(rest.contains(j as usize));
                let k = choose|k: int| 0 <= k < rest.len() && rest[k] == j as usize;
                assert(a[k] == j as usize);
            } else {
                assert(a[rest.len() as int] == j as usize);
            }
        }
    }
}

pub proof fn lemma_active_indices_same_status(ps: Seq<PlayerModel>, qs: Seq<PlayerModel>)
    requires
        ps.len() == qs.len(),
        forall|i: int| 0 <= i < ps.len() ==> (#[trigger] ps[i]).status == qs[i].status,
    ensures
        active_indices(ps) == active_indices(qs),
    decreases ps.len(),
{
    if ps.len() > 0 {
        lemma_active_indices_same_status(ps.drop_last(), qs.drop_last());
    }
}

pub proof fn lemma_opponent_count_bound(ps: Seq<PlayerModel>)
    ensures
        opponent_count(ps) <= ps.len(),
    decreases ps.len(),
{
    if ps.len() > 0 {
        lemma_opponent_count_bound(ps.drop_last());
    }
}

// ── Small helpers ───────────────────────────────────────────────────────────

/// Whether two strings are equal, character by character.
pub fn str_equal(a: &str, b: &str) -> (r: bool)
    ensures
        r == (a@ == b@),
{
    let la = a.unicode_len();
    let lb = b.unicode_len();
    if la != lb {
        return false;
    }
    let mut i: usize = 0;
    while i < la
        invariant
            la == a@.len(),
            lb == b@.len(),
            la == lb,
            i <= la,
            forall|j: int| 0 <= j < i ==> a@[j] == b@[j],
        decreases la - i,
    {
        if a.get_char(i) != b.get_char(i) {
            assert(a@[i as int] != b@[i as int]);
            return false;
        }
        i = i + 1;
    }
    assert(a@ =~= b@);
    true
}

/// Reads an action word.
pub fn parse_action(word: &str) -> (a: Action)
    ensures
        a == action_of(word@),
{
    if str_equal(word, "fold") {
        Action::Fold
    } else if str_equal(word, "check") {
        Action::Check
    } else if str_equal(word, "call") {
        Action::Call
    } else if str_equal(word, "bet") {
        Action::Bet
    } else if str_equal(word, "raise") {
        Action::Raise
    } else {
        Action::Other
    }
}

pub fn street_name(s: Street) -> (t: &'static str)
    ensures
        t@ == street_label(s),
{
    match s {
        Street::Preflop => "Preflop",
        Street::Flop => "Flop",
        Street::Turn => "Turn",
        Street::River => "River",
        Street::Showdown => "Showdown",
    }
}

/// A copy of the first `k` cards.
pub fn copy_prefix(cards: &Vec<Card>, k: usize) -> (r: Vec<Card>)
    requires
        k <= cards@.len(),
    ensures
        r@ == cards@.take(k as int),
{
    let mut r: Vec<Card> = Vec::with_capacity(k);
    let mut i: usize = 0;
    while i < k
        invariant
            i <= k <= cards@.len(),
            r@ =~= cards@.take(i as int),
        decreases k - i,
    {
        r.push(cards[i]);
        i = i + 1;
        assert(r@ =~= cards@.take(i as int));
    }
    r
}

/// The seats still in the hand.
pub fn active_seats(players: &Vec<Player>) -> (r: Vec<usize>)
    ensures
        r@ == active_indices(players_model(players@)),
{
    let ghost pm = players_model(players@);
    let mut r: Vec<usize> = Vec::new();
    let mut i: usize = 0;
    while i < players.len()
        invariant
            i <= players@.len(),
            pm == players_model(players@),
            r@ == active_indices(pm.take(i as int)),
        decreases players.len() - i,
    {
        assert(pm.take(i + 1).drop_last() =~= pm.take(i as int));
        if players[i].status == PlayerStatus::Active {
            r.push(i);
        }
        i = i + 1;
    }
    assert(pm.take(players@.len() as int) =~= pm);
    r
}

/// The number of opponents of the hero still in the hand.
pub fn count_opponents(players: &Vec<Player>) -> (c: usize)
    ensures
        c == opponent_count(players_model(players@)),
{
    let ghost pm = players_model(players@);
    let mut c: usize = 0;
    let mut i: usize = 0;
    while i < players.len()
        invariant
            i <= players@.len(),
            pm == players_model(players@),
            c == opponent_count(pm.take(i as int)),
        decreases players.len() - i,
    {
        assert(pm.take(i + 1).drop_last() =~= pm.take(i as int));
        proof { lemma_opponent_count_bound(pm.take(i as int)); }
        if !players[i].is_hero && players[i].status == PlayerStatus::Active {
            c = c + 1;
        }
        i = i + 1;
    }
    assert(pm.take(players@.len() as int) =~= pm);
    c
}

// ── Effects of an action ────────────────────────────────────────────────────

/// Records the hero's decision before it is applied.
fn record_snapshot(state: &mut GameState, word: &str)
    requires
        old(state).action_on < old(state).players@.len(),
    ensures
        final(state)@ == with_snapshot(old(state)@, word@),
{
    let actor = state.action_on;
    if state.players[actor].is_hero {
        let call_amount = state.street_bet.saturating_sub(state.players[actor].current_bet);
        let opp_count = count_opponents(&state.players);
        match state.players[actor].hole_cards {
            Some(cards) => {
                let community = copy_prefix(&state.community_cards, state.community_cards.len());
                assert(state.community_cards@.take(state.community_cards@.len() as int) =~= state.community_cards@);
                let snap = DecisionSnapshot {
                    street: street_name(state.street).to_owned(),
                    pot: state.pot,
                    call_amount,
                    action_taken: word.to_owned(),
                    community_cards: community,
                    hero_hole_cards: cards,
                    active_opponents: opp_count,
                };
                state.decision_snapshots.push(snap);
                assert(snapshots_model(state.decision_snapshots@) =~= snapshots_model(old(state).decision_snapshots@).push(snap@));
                assert(state@ =~= with_snapshot(old(state)@, word@));
            },
            None => {},
        }
    }
}

/// Writes a history line in the name of `actor`.
fn push_record(state: &mut GameState, actor: usize, desc: &str)
    requires
        actor < old(state).players@.len(),
    ensures
        final(state)@ == with_record(old(state)@, actor as int, desc@),
{
    let rec = ActionRecord { player_name: state.players[actor].name.clone(), description: desc.to_owned() };
    state.action_history.push(rec);
    assert(records_model(state.action_history@) =~= records_model(old(state).action_history@).push(rec@));
    assert(state@ =~= with_record(old(state)@, actor as int, desc@));
}

/// Every active player other than the aggressor must act again.
fn reopen_action(state: &mut GameState, aggressor: usize)
    requires
        old(state).needs_action@.len() == old(state).players@.len(),
    ensures
        final(state)@ == reopened(old(state)@, aggressor as int),
{
    let ghost m = state@;
    let mut i: usize = 0;
    while i < state.players.len()
        invariant
            i <= state.players@.len(),
            state.players@ == old(state).players@,
            state.needs_action@.len() == state.players@.len(),
            m == old(state)@,
            state@ == (GameModel { needs_action: state.needs_action@, ..m }),
            forall|j: int| 0 <= j < state.needs_action@.len() ==> #[trigger] state.needs_action@[j] == (
                if j < i && j != aggressor && is_active(m.players[j]) { true } else { m.needs_action[j] }),
        decreases state.players.len() - i,
    {
        if i != aggressor && state.players[i].status == PlayerStatus::Active {
            state.needs_action.set(i, true);
        }
        i = i + 1;
    }
    assert(state@ =~= reopened(m, aggressor as int));
}

/// Moves `amount` chips of `actor` from the stack into the bet and the pot.
fn commit(state: &mut GameState, actor: usize, amount: u32)
    requires
        actor < old(state).players@.len(),
        amount <= old(state).players@[actor as int].stack,
        old(state).players@[actor as int].current_bet + amount <= u32::MAX,
        old(state).pot + amount <= u32::MAX,
    ensures
        final(state)@ == committed(old(state)@, actor as int, amount),
{
    let ghost m = state@;
    let stack = state.players[actor].stack;
    let bet = state.players[actor].current_bet;
    state.players[actor].stack = stack - amount;
    state.players[actor].current_bet = bet + amount;
    state.pot = state.pot + amount;
    proof {
        let p = state.players@[actor as int];
        lemma_players_model_update(old(state).players@, actor as int, p);
    }
    assert(state@ =~= committed(m, actor as int, amount));
}


fn set_status(state: &mut GameState, seat: usize, status: PlayerStatus)
    requires
        seat < old(state).players@.len(),
    ensures
        final(state)@ == with_status(old(state)@, seat as int, status),
{
    state.players[seat].status = status;
    proof {
        let p = state.players@[seat as int];
        lemma_players_model_update(old(state).players@, seat as int, p);
    }
    assert(state@ =~= with_status(old(state)@, seat as int, status));
}

fn set_need(state: &mut GameState, seat: usize, need: bool)
    requires
        seat < old(state).needs_action@.len(),
    ensures
        final(state)@ == with_need(old(state)@, seat as int, need),
{
    state.needs_action.set(seat, need);
    assert(state@ =~= with_need(old(state)@, seat as int, need));
}

pub proof fn lemma_seat_within_chips(m: GameModel, seat: int)
    requires
        0 <= seat < m.players.len(),
    ensures
        m.players[seat].stack <= stack_total(m.players),
        m.pot <= chips(m),
        stack_total(m.players) <= chips(m),
{
    lemma_stack_total_nonneg_and_bounds(m.players, seat);
}

/// Applies the effects of `action` by the player to act.
fn apply_effects(state: &mut GameState, action: Action, amount: Option<u32>)
    requires
        playable(old(state)@),
    ensures
        final(state)@ == effects(old(state)@, action, amount),
{
    let ghost m = state@;
    let actor = state.action_on;
    proof { lemma_seat_within_chips(m, actor as int); }
    match action {
        Action::Fold => {
            push_record(state, actor, "folds");
            set_status(state, actor, PlayerStatus::Folded);
            set_need(state, actor, false);
        },
        Action::Check => {
            push_record(state, actor, "checks");
            set_need(state, actor, false);
        },
        Action::Call => {
            let to_call = state.street_bet.saturating_sub(state.players[actor].current_bet);
            let stack = state.players[actor].stack;
            let actual = if to_call <= stack { to_call } else { stack };
            commit(state, actor, actual);
            assert(state.players@.len() == players_model(state.players@).len());
            let mut desc = "calls ".to_owned();
            push_decimal(&mut desc, actual as u64);
            push_record(state, actor, desc.as_str());
            set_need(state, actor, false);
        },
        Action::Bet => {
            let amt = match amount { Some(a) => a, None => state.big_blind };
            let stack = state.players[actor].stack;
            let actual = if amt <= stack { amt } else { stack };
            commit(state, actor, actual);
            state.street_bet = state.players[actor].current_bet;
            let mut desc = "bets ".to_owned();
            push_decimal(&mut desc, actual as u64);
            push_record(state, actor, desc.as_str());
            set_need(state, actor, false);
            reopen_action(state, actor);
        },
        Action::Raise => {
            let doubled = state.street_bet * 2;
            let total = match amount { Some(a) => a, None => doubled };
            let over = total.saturating_sub(state.players[actor].current_bet);
            let stack = state.players[actor].stack;
            let to_add = if over <= stack { over } else { stack };
            commit(state, actor, to_add);
            assert(state.players@.len() == players_model(state.players@).len());
            let raised_to = state.players[actor].current_bet;
            state.street_bet = raised_to;
            let mut desc = "raises to ".to_owned();
            push_decimal(&mut desc, raised_to as u64);
            push_record(state, actor, desc.as_str());
            set_need(state, actor, false);
            reopen_action(state, actor);
        },
        Action::Other => {},
    }
}


// ── Passing the turn ────────────────────────────────────────────────────────

/// The last player in collects the pot.
fn win_by_folds(state: &mut GameState, w: usize)
    requires
        w < old(state).players@.len(),
        old(state).players@[w as int].stack + old(state).pot <= u32::MAX,
    ensures
        final(state)@ == won_by_folds(old(state)@, w as int),
{
    let ghost m = state@;
    let pot = state.pot;
    let stack = state.players[w].stack;
    state.players[w].stack = stack + pot;
    proof {
        let p = state.players@[w as int];
        lemma_players_model_update(old(state).players@, w as int, p);
    }
    let mut msg = join2(state.players[w].name.as_str(), " wins ");
    push_decimal(&mut msg, pot as u64);
    msg.append(" (others folded)");
    state.result_message = Some(msg);
    state.hand_over = true;
    state.hero_to_act = false;
    assert(state@ =~= won_by_folds(m, w as int));
}

/// Whether no active player still has to act.
fn is_round_over(state: &GameState) -> (r: bool)
    requires
        state.needs_action@.len() == state.players@.len(),
    ensures
        r == round_over(state@),
{
    let mut i: usize = 0;
    while i < state.needs_action.len()
        invariant
            i <= state.needs_action@.len(),
            state.needs_action@.len() == state.players@.len(),
            forall|j: int| 0 <= j < i ==> !(state@.needs_action[j] && is_active(state@.players[j])),
        decreases state.needs_action.len() - i,
    {
        if state.needs_action[i] && state.players[i].status == PlayerStatus::Active {
            assert(state@.needs_action[i as int] && is_active(state@.players[i as int]));
            return false;
        }
        i = i + 1;
    }
    true
}

/// Gives the turn to `seat`; returns whether a bot is now due to move.
fn take_turn(state: &mut GameState, seat: usize, bot_moves: bool) -> (due: bool)
    requires
        seat < old(state).players@.len(),
        old(state).street_bet <= CHIP_LIMIT,
        old(state).big_blind <= CHIP_LIMIT,
    ensures
        (final(state)@, due) == give_turn(old(state)@, seat, bot_moves),
{
    let ghost m = state@;
    state.action_on = seat;
    if state.players[seat].is_hero {
        state.hero_to_act = true;
        state.legal_actions = compute_legal(state.players.as_slice(), seat, state.street_bet, state.big_blind);
        assert(state@ =~= give_turn(m, seat, bot_moves).0);
        false
    } else {
        state.hero_to_act = false;
        assert(state@ =~= give_turn(m, seat, bot_moves).0);
        bot_moves
    }
}

/// Clears the bets and asks every active player to act on the new street.
fn reset_street(state: &mut GameState)
    requires
        old(state).needs_action@.len() == old(state).players@.len(),
    ensures
        final(state)@ == street_reset(old(state)@),
{
    let ghost m = state@;
    let n = state.players.len();
    let mut i: usize = 0;
    while i < n
        invariant
            n == state.players@.len() == m.players.len(),
            i <= n,
            m == old(state)@,
            state@ == (GameModel { players: state@.players, ..m }),
            forall|j: int| 0 <= j < n ==> #[trigger] state@.players[j] == (
                if j < i { PlayerModel { current_bet: 0, ..m.players[j] } } else { m.players[j] }),
        decreases n - i,
    {
        let ghost before = state.players@;
        assert(state@.players[i as int] == m.players[i as int]);
        assert(before[i as int]@ == m.players[i as int]);
        state.players[i].current_bet = 0;
        proof {
            let p = state.players@[i as int];
            lemma_players_model_update(before, i as int, p);
            assert(state.players@[i as int]@ =~= PlayerModel { current_bet: 0, ..m.players[i as int] });
        }
        i = i + 1;
    }
    state.street_bet = 0;
    let ghost m1 = state@;
    let mut k: usize = 0;
    while k < n
        invariant
            n == state.players@.len() == state.needs_action@.len() == m.players.len(),
            k <= n,
            state@ == (GameModel { needs_action: state@.needs_action, ..m1 }),
            forall|j: int| 0 <= j < n ==> (#[trigger] m1.players[j]).status == m.players[j].status,
            forall|j: int| 0 <= j < n ==> #[trigger] state@.needs_action[j] == (
                if j < k { is_active(m.players[j]) } else { m.needs_action[j] }),
        decreases n - k,
    {
        let a = state.players[k].status == PlayerStatus::Active;
        assert(state@.players[k as int] == m1.players[k as int]);
        assert(a == is_active(m.players[k as int]));
        state.needs_action.set(k, a);
        k = k + 1;
    }
    assert(state@.players =~= street_reset(m).players);
    assert(state@.needs_action =~= street_reset(m).needs_action);
    assert(state@ =~= street_reset(m));
}

fn push_marker(state: &mut GameState, text: String)
    ensures
        final(state)@ == with_marker(old(state)@, text@),
{
    let rec = ActionRecord { player_name: String::new(), description: text };
    state.action_history.push(rec);
    assert(records_model(state.action_history@) =~= records_model(old(state).action_history@).push(rec@));
    assert(state@ =~= with_marker(old(state)@, text@));
}

pub(crate) fn flop_text(b: &Vec<Card>) -> (s: String)
    requires
        b@.len() >= 5,
    ensures
        s@ == flop_marker(b@),
{
    let mut s = "--- Flop: ".to_owned();
    s.append(card_str(&b[0]).as_str());
    s.append(" ");
    s.append(card_str(&b[1]).as_str());
    s.append(" ");
    s.append(card_str(&b[2]).as_str());
    s.append(" ---");
    s
}

pub(crate) fn turn_text(b: &Vec<Card>) -> (s: String)
    requires
        b@.len() >= 5,
    ensures
        s@ == turn_marker(b@),
{
    let mut s = "--- Turn: ".to_owned();
    s.append(card_str(&b[3]).as_str());
    s.append(" ---");
    s
}

pub(crate) fn river_text(b: &Vec<Card>) -> (s: String)
    requires
        b@.len() >= 5,
    ensures
        s@ == river_marker(b@),
{
    let mut s = "--- River: ".to_owned();
    s.append(card_str(&b[4]).as_str());
    s.append(" ---");
    s
}


// ── Showdown ────────────────────────────────────────────────────────────────

/// The showdown scan keeps seats of `act`, finds a best hand as soon as one
/// scanned seat has cards, and never keeps more seats than it scanned.
pub proof fn lemma_scan_props(m: GameModel, act: Seq<usize>)
    requires
        forall|k: int| 0 <= k < act.len() ==> (#[trigger] act[k]) < m.players.len(),
    ensures
        ({
            let (best, winners) = showdown_scan(m, act);
            &&& (exists|k: int| 0 <= k < act.len() && (#[trigger] m.players[act[k] as int]).hole_cards is Some)
                ==> best is Some
            &&& best is Some <==> winners.len() > 0
            &&& winners.len() <= act.len()
            &&& forall|k: int| 0 <= k < winners.len() ==> (#[trigger] winners[k]) < m.players.len()
        }),
    decreases act.len(),
{
    if act.len() > 0 {
        let d = act.drop_last();
        assert(act[act.len() - 1] == act.last());
        assert forall|k: int| 0 <= k < d.len() implies (#[trigger] d[k]) < m.players.len() by {
            assert(d[k] == act[k]);
        }
        lemma_scan_props(m, d);
        assert(m.players[act[act.len() - 1] as int] == m.players[act.last() as int]);
        if exists|k: int| 0 <= k < act.len() && (#[trigger] m.players[act[k] as int]).hole_cards is Some {
            let k = choose|k: int| 0 <= k < act.len() && (#[trigger] m.players[act[k] as int]).hole_cards is Some;
            if k < d.len() {
                assert(d[k] == act[k]);
                assert(m.players[d[k] as int].hole_cards is Some);
            }
        }
    }
}

/// The seats in the hand are seats of the table, and when someone in the hand
/// holds cards, one of the listed seats does.
pub proof fn lemma_active_seats_listed(m: GameModel)
    requires
        m.players.len() <= usize::MAX,
    ensures
        forall|k: int| 0 <= k < active_indices(m.players).len() ==> (#[trigger] active_indices(m.players)[k]) < m.players.len(),
        someone_shows(m) ==> exists|k: int| 0 <= k < active_indices(m.players).len()
            && (#[trigger] m.players[active_indices(m.players)[k] as int]).hole_cards is Some,
{
    lemma_active_indices_props(m.players);
    let act = active_indices(m.players);
    if someone_shows(m) {
        let i = choose|i: int| 0 <= i < m.players.len() && is_active(#[trigger] m.players[i]) && m.players[i].hole_cards is Some;
        assert(act.contains(i as usize));
        let k = choose|k: int| 0 <= k < act.len() && act[k] == i as usize;
        assert(m.players[act[k] as int].hole_cards is Some);
    }
}

/// The seven cards a player shows.
fn shown(h: [Card; 2], community: &Vec<Card>) -> (v: Vec<Card>)
    ensures
        v@ == shown_cards(h, community@),
{
    let mut v: Vec<Card> = Vec::with_capacity(7);
    v.push(h[0]);
    v.push(h[1]);
    let mut i: usize = 0;
    while i < community.len()
        invariant
            i <= community@.len(),
            v@ =~= seq![h@[0], h@[1]] + community@.take(i as int),
        decreases community.len() - i,
    {
        v.push(community[i]);
        i = i + 1;
        assert(v@ =~= seq![h@[0], h@[1]] + community@.take(i as int));
    }
    assert(community@.take(community@.len() as int) =~= community@);
    v
}

/// The names of the seats, joined with `, `.
fn join_names(players: &Vec<Player>, seats: &Vec<usize>) -> (s: String)
    requires
        forall|k: int| 0 <= k < seats@.len() ==> (#[trigger] seats@[k]) < players@.len(),
    ensures
        s@ == joined_names(players_model(players@), seats@),
{
    let ghost pm = players_model(players@);
    let mut s = String::new();
    let mut k: usize = 0;
    while k < seats.len()
        invariant
            k <= seats@.len(),
            pm == players_model(players@),
            forall|j: int| 0 <= j < seats@.len() ==> (#[trigger] seats@[j]) < players@.len(),
            s@ == joined_names(pm, seats@.take(k as int)),
        decreases seats.len() - k,
    {
        let name = players[seats[k]].name.as_str();
        if k == 0 {
            s.append(name);
        } else {
            s.append(", ");
            s.append(name);
        }
        assert(seats@.take(k + 1).drop_last() =~= seats@.take(k as int));
        k = k + 1;
    }
    assert(seats@.take(seats@.len() as int) =~= seats@);
    s
}

/// Pays `split` to each winner in turn.
fn pay_winners(state: &mut GameState, winners: &Vec<usize>, split: u32)
    requires
        forall|k: int| 0 <= k < winners@.len() ==> (#[trigger] winners@[k]) < old(state).players@.len(),
        stack_total(old(state)@.players) + winners@.len() * split <= u32::MAX,
    ensures
        final(state)@ == (GameModel { players: pay_each(old(state)@.players, winners@, split), ..old(state)@ }),
{
    let ghost m = state@;
    let mut j: usize = 0;
    while j < winners.len()
        invariant
            j <= winners@.len(),
            m == old(state)@,
            forall|k: int| 0 <= k < winners@.len() ==> (#[trigger] winners@[k]) < m.players.len(),
            stack_total(m.players) + winners@.len() * split <= u32::MAX,
            state@ == (GameModel { players: state@.players, ..m }),
            state@.players == pay_each(m.players, winners@.take(j as int), split),
            state@.players.len() == m.players.len(),
            state.players@.len() == m.players.len(),
            stack_total(state@.players) == stack_total(m.players) + j * split,
        decreases winners.len() - j,
    {
        let w = winners[j];
        let ghost ps = state@.players;
        proof {
            lemma_stack_total_nonneg_and_bounds(ps, w as int);
            assert((j + 1) * split <= winners@.len() * split) by (nonlinear_arith)
                requires j + 1 <= winners@.len();
            assert(j * split + split == (j + 1) * split) by (nonlinear_arith);
        }
        let ghost before = state.players@;
        let stack = state.players[w].stack;
        state.players[w].stack = stack + split;
        proof {
            let p = state.players@[w as int];
            lemma_players_model_update(before, w as int, p);
            lemma_stack_total_update(ps, w as int, p@);
            assert(winners@.take(j + 1).drop_last() =~= winners@.take(j as int));
        }
        j = j + 1;
    }
    assert(winners@.take(winners@.len() as int) =~= winners@);
}

/// Settles the hand at showdown.
fn resolve_showdown(state: &mut GameState)
    requires
        table_ok(old(state)@),
        chips(old(state)@) <= CHIP_LIMIT,
        old(state).community_cards@.len() == 5,
        active_indices(old(state)@.players).len() >= 1,
        active_indices(old(state)@.players).len() == 1 || someone_shows(old(state)@),
    ensures
        final(state)@ == showdown(old(state)@),
{
    let ghost m = state@;
    let active = active_seats(&state.players);
    proof { lemma_active_indices_props(m.players); }
    if active.len() == 1 {
        let w = active[0];
        proof { lemma_seat_within_chips(m, w as int); }
        let pot = state.pot;
        let stack = state.players[w].stack;
        state.players[w].stack = stack + pot;
        proof {
            let p = state.players@[w as int];
            lemma_players_model_update(old(state).players@, w as int, p);
        }
        let mut msg = join2(state.players[w].name.as_str(), " wins ");
        push_decimal(&mut msg, pot as u64);
        msg.append(" (uncontested)");
        state.result_message = Some(msg);
        state.hand_over = true;
        state.hero_to_act = false;
        assert(state@ =~= showdown(m));
        return;
    }
    let mut best: Option<HandRank> = None;
    let mut winners: Vec<usize> = Vec::new();
    let mut k: usize = 0;
    while k < active.len()
        invariant
            state@ == m,
            table_ok(m),
            m.community_cards.len() == 5,
            active@ == active_indices(m.players),
            forall|q: int| 0 <= q < active@.len() ==> (#[trigger] active@[q]) < m.players.len(),
            state.players@.len() == m.players.len(),
            k <= active@.len(),
            (best, winners@) == showdown_scan(m, active@.take(k as int)),
            best matches Some(b) ==> b.sub < 4096,
        decreases active.len() - k,
    {
        let i = active[k];
        assert(active@.take(k + 1).drop_last() =~= active@.take(k as int));
        assert(state@.players[i as int] == state.players@[i as int]@);
        match state.players[i].hole_cards {
            Some(h) => {
                let cards = shown(h, &state.community_cards);
                let r = rank_cards(cards.as_slice());
                match best {
                    None => {
                        best = Some(r);
                        winners = Vec::new();
                        winners.push(i);
                        assert(winners@ =~= seq![i]);
                    },
                    Some(b) => {
                        if beats(r, b) {
                            best = Some(r);
                            winners = Vec::new();
                            winners.push(i);
                            assert(winners@ =~= seq![i]);
                        } else if ties(r, b) {
                            winners.push(i);
                        }
                    },
                }
            },
            None => {},
        }
        k = k + 1;
    }
    assert(active@.take(active@.len() as int) =~= active@);
    proof { lemma_active_seats_listed(m); lemma_scan_props(m, active@); }
    if winners.len() == 1 {
        let w = winners[0];
        proof { lemma_seat_within_chips(m, w as int); }
        let cat = match best {
            Some(b) => category_name(b.category),
            None => String::new(),
        };
        let pot = state.pot;
        let stack = state.players[w].stack;
        state.players[w].stack = stack + pot;
        proof {
            let p = state.players@[w as int];
            lemma_players_model_update(old(state).players@, w as int, p);
        }
        let mut msg = join2(state.players[w].name.as_str(), " wins ");
        push_decimal(&mut msg, pot as u64);
        msg.append(" \u{2014} ");
        msg.append(cat.as_str());
        state.result_message = Some(msg);
        state.hand_over = true;
        state.hero_to_act = false;
        assert(state@ =~= showdown(m));
    } else {
        let count = winners.len() as u32;
        let pot = state.pot;
        let split = pot / count;
        proof {
            vstd::arithmetic::div_mod::lemma_fundamental_div_mod(pot as int, count as int);
            assert(count * split <= pot) by (nonlinear_arith)
                requires pot == count * (pot / count) + pot % count, split == pot / count, pot % count >= 0;
            lemma_stack_total_nonneg_and_bounds(m.players, 0);
        }
        let names = join_names(&state.players, &winners);
        pay_winners(state, &winners, split);
        let mut msg = "Split pot (".to_owned();
        push_decimal(&mut msg, split as u64);
        msg.append(" each) \u{2014} ");
        msg.append(names.as_str());
        state.result_message = Some(msg);
        state.hand_over = true;
        state.hero_to_act = false;
        assert(state@ =~= showdown(m));
    }
}


// ── Streets ─────────────────────────────────────────────────────────────────

pub proof fn lemma_seat_search_bound(start: int, active: Seq<usize>, n: int, offset: int)
    requires
        n > 0,
    ensures
        seat_search(start, active, n, offset) matches Some(i) ==> i < n && active.contains(i),
    decreases n + 1 - offset,
{
    if offset <= n {
        lemma_seat_search_bound(start, active, n, offset + 1);
    }
}

pub proof fn lemma_first_actor_bound(button_pos: usize, ps: Seq<PlayerModel>)
    requires
        0 < ps.len() <= usize::MAX,
        active_indices(ps).len() > 0,
    ensures
        first_actor(button_pos, active_indices(ps), ps.len() as usize) < ps.len(),
        is_active(ps[first_actor(button_pos, active_indices(ps), ps.len() as usize) as int]),
{
    lemma_seat_search_bound(button_pos as int, active_indices(ps), ps.len() as int, 1);
    lemma_active_indices_props(ps);
    let act = active_indices(ps);
    let f = first_actor(button_pos, act, ps.len() as usize);
    if act.contains(f) {
        let k = choose|k: int| 0 <= k < act.len() && act[k] == f;
        assert(is_active(ps[act[k] as int]));
    } else {
        assert(act[0] == f);
    }
}

/// Clearing the bets keeps the table's shape, its chips and who is active.
pub proof fn lemma_street_reset_keeps(m: GameModel)
    requires
        table_ok(m),
    ensures
        table_ok(street_reset(m)),
        chips(street_reset(m)) == chips(m),
        active_indices(street_reset(m).players) == active_indices(m.players),
        opponent_count(street_reset(m).players) == opponent_count(m.players),
{
    let r = street_reset(m);
    lemma_stack_total_same_stacks(r.players, m.players);
    lemma_active_indices_same_status(r.players, m.players);
    lemma_opponent_count_same(r.players, m.players);
}

pub proof fn lemma_opponent_count_same(ps: Seq<PlayerModel>, qs: Seq<PlayerModel>)
    requires
        ps.len() == qs.len(),
        forall|i: int| 0 <= i < ps.len() ==> (#[trigger] ps[i]).status == qs[i].status && ps[i].is_hero == qs[i].is_hero,
    ensures
        opponent_count(ps) == opponent_count(qs),
    decreases ps.len(),
{
    if ps.len() > 0 {
        lemma_opponent_count_same(ps.drop_last(), qs.drop_last());
    }
}

/// Deals the next street, or settles the showdown after the river.
fn next_street(state: &mut GameState) -> (due: bool)
    requires
        table_ok(old(state)@),
        chips(old(state)@) <= CHIP_LIMIT,
        active_indices(old(state)@.players).len() >= 1,
        old(state)@.street == Street::River && active_indices(old(state)@.players).len() >= 2 ==> someone_shows(old(state)@),
    ensures
        (final(state)@, due) == next_street_spec(old(state)@),
{
    let ghost m = state@;
    reset_street(state);
    let ghost r = state@;
    proof {
        lemma_street_reset_keeps(m);
        lemma_first_actor_bound(r.button_pos, r.players);
    }
    let active = active_seats(&state.players);
    let first = first_post_flop_actor_list(state.button_pos, active.as_slice(), state.players.len());
    match state.street {
        Street::Preflop => {
            state.street = Street::Flop;
            state.community_cards = copy_prefix(&state.board, 3);
            let t = flop_text(&state.board);
            push_marker(state, t);
        },
        Street::Flop => {
            state.street = Street::Turn;
            state.community_cards = copy_prefix(&state.board, 4);
            let t = turn_text(&state.board);
            push_marker(state, t);
        },
        Street::Turn => {
            state.street = Street::River;
            state.community_cards = copy_prefix(&state.board, 5);
            let t = river_text(&state.board);
            push_marker(state, t);
        },
        Street::River => {
            state.street = Street::Showdown;
            state.community_cards = copy_prefix(&state.board, 5);
            assert(state@ =~= (GameModel { street: Street::Showdown, community_cards: r.board.take(5), ..r }));
            proof {
                if active_indices(m.players).len() >= 2 {
                    let i = choose|i: int| 0 <= i < m.players.len() && is_active(#[trigger] m.players[i]) && m.players[i].hole_cards is Some;
                    assert(is_active(state@.players[i]) && state@.players[i].hole_cards is Some);
                }
            }
            resolve_showdown(state);
            return false;
        },
        Street::Showdown => {
            return false;
        },
    }
    let over = state.hand_over;
    take_turn(state, first, !over)
}

/// After an action: ends the hand, ends the street, or passes the turn.
/// Returns whether a bot is now due to move.
fn advance(state: &mut GameState) -> (due: bool)
    requires
        table_ok(old(state)@),
        chips(old(state)@) <= CHIP_LIMIT,
        active_indices(old(state)@.players).len() >= 1,
        turn_can_pass(old(state)@),
    ensures
        (final(state)@, due) == advance_spec(old(state)@),
{
    let ghost m = state@;
    let active = active_seats(&state.players);
    proof { lemma_active_indices_props(m.players); }
    if active.len() == 1 {
        proof { lemma_seat_within_chips(m, active@[0] as int); }
        win_by_folds(state, active[0]);
        return false;
    }
    if is_round_over(state) {
        return next_street(state);
    }
    assert(active@.len() != 1);
    let n = state.players.len();
    let cur = state.action_on;
    let mut offset: usize = 1;
    while offset <= n
        invariant
            state@ == m,
            table_ok(m),
            chips(m) <= CHIP_LIMIT,
            n == m.players.len() == state.players@.len() == state.needs_action@.len(),
            cur == m.action_on,
            1 <= offset <= n + 1,
            next_to_act(m, offset as int) == next_to_act(m, 1),
            active_indices(m.players).len() != 1,
            !round_over(m),
            m == old(state)@,
        decreases n + 1 - offset,
    {
        let idx = (cur + offset) % n;
        assert(state@.players[idx as int] == state.players@[idx as int]@);
        if state.needs_action[idx] && state.players[idx].status == PlayerStatus::Active {
            proof { lemma_seat_within_chips(m, 0); }
            assert(next_to_act(m, offset as int) == Some(idx));
            assert(!round_over(m));
            assert(active_indices(m.players).len() != 1);
            return take_turn(state, idx, true);
        }
        offset = offset + 1;
    }
    false
}


// ── What actions keep ───────────────────────────────────────────────────────

pub proof fn lemma_active_count_update(ps: Seq<PlayerModel>, i: int, p: PlayerModel)
    requires
        0 <= i < ps.len(),
    ensures
        active_indices(ps.update(i, p)).len() == active_indices(ps).len()
            - (if is_active(ps[i]) { 1int } else { 0int }) + (if is_active(p) { 1int } else { 0int }),
    decreases ps.len(),
{
    let qs = ps.update(i, p);
    if i == ps.len() - 1 {
        assert(qs.drop_last() =~= ps.drop_last());
    } else {
        assert(qs.drop_last() =~= ps.drop_last().update(i, p));
        lemma_active_count_update(ps.drop_last(), i, p);
    }
}

/// Putting chips in keeps the table's shape and its chip count, and changes
/// nobody's status.
pub proof fn lemma_committed_keeps(m: GameModel, seat: int, amount: u32)
    requires
        playable(m),
        0 <= seat < m.players.len(),
        amount <= m.players[seat].stack,
    ensures
        bets_bounded(committed(m, seat, amount)),
        committed(m, seat, amount).pot == m.pot + amount,
        committed(m, seat, amount).players[seat].current_bet == m.players[seat].current_bet + amount,
        chips(committed(m, seat, amount)) == chips(m),
        active_indices(committed(m, seat, amount).players) == active_indices(m.players),
        opponent_count(committed(m, seat, amount).players) == opponent_count(m.players),
{
    let c = committed(m, seat, amount);
    lemma_seat_within_chips(m, seat);
    let p = m.players[seat];
    let q = PlayerModel { stack: (p.stack - amount) as u32, current_bet: (p.current_bet + amount) as u32, ..p };
    lemma_stack_total_update(m.players, seat, q);
    lemma_active_indices_same_status(c.players, m.players);
    lemma_opponent_count_same(c.players, m.players);
    assert forall|i: int| 0 <= i < m.players.len() implies (#[trigger] c.players[i]).current_bet + c.players[i].stack <= CHIP_LIMIT by {
        if i != seat {
            assert(c.players[i] == m.players[i]);
        }
    }
}

/// An action keeps the table's shape and the chips on it; only a fold by an
/// active player takes someone out of the hand.
pub proof fn lemma_effects_keep(m: GameModel, a: Action, amount: Option<u32>)
    requires
        playable(m),
    ensures
        table_ok(effects(m, a, amount)),
        bets_bounded(effects(m, a, amount)),
        chips(effects(m, a, amount)) == chips(m),
        effects(m, a, amount).pot >= m.pot,
        active_indices(effects(m, a, amount).players).len() == active_indices(m.players).len()
            - (if a == Action::Fold && is_active(m.players[m.action_on as int]) { 1int } else { 0int }),
{
    let seat = m.action_on as int;
    let p = m.players[seat];
    lemma_seat_within_chips(m, seat);
    match a {
        Action::Fold => {
            let m1 = with_record(m, seat, "folds"@);
            let q = PlayerModel { status: PlayerStatus::Folded, ..m1.players[seat] };
            lemma_active_count_update(m1.players, seat, q);
            lemma_stack_total_update(m1.players, seat, q);
            let e = effects(m, a, amount);
        },
        Action::Check => {},
        Action::Call => {
            let actual = min_u32(m.street_bet.saturating_sub(p.current_bet), p.stack);
            lemma_committed_keeps(m, seat, actual);
            let e = effects(m, a, amount);
            let c = committed(m, seat, actual);
        },
        Action::Bet => {
            let amt = match amount { Some(x) => x, None => m.big_blind };
            let actual = min_u32(amt, p.stack);
            lemma_committed_keeps(m, seat, actual);
            let e = effects(m, a, amount);
            let c = committed(m, seat, actual);
        },
        Action::Raise => {
            let total = match amount { Some(x) => x, None => (m.street_bet * 2) as u32 };
            let to_add = min_u32(total.saturating_sub(p.current_bet), p.stack);
            lemma_committed_keeps(m, seat, to_add);
            let e = effects(m, a, amount);
            let c = committed(m, seat, to_add);
        },
        Action::Other => {},
    }
}


pub proof fn lemma_next_to_act_props(m: GameModel, offset: int)
    requires
        table_ok(m),
    ensures
        next_to_act(m, offset) matches Some(i) ==> i < m.players.len() && is_active(m.players[i as int])
            && m.needs_action[i as int],
    decreases m.players.len() + 1 - offset,
{
    if offset <= m.players.len() {
        lemma_next_to_act_props(m, offset + 1);
    }
}

/// Paying each seat keeps everything but the stacks, and adds the payments
/// to the stack total.
pub proof fn lemma_pay_each(ps: Seq<PlayerModel>, seats: Seq<usize>, amount: u32)
    requires
        forall|k: int| 0 <= k < seats.len() ==> (#[trigger] seats[k]) < ps.len(),
        stack_total(ps) + seats.len() * amount <= u32::MAX,
    ensures
        pay_each(ps, seats, amount).len() == ps.len(),
        forall|i: int| 0 <= i < ps.len() ==> (#[trigger] pay_each(ps, seats, amount)[i]) == (PlayerModel {
            stack: pay_each(ps, seats, amount)[i].stack, ..ps[i] }),
        stack_total(pay_each(ps, seats, amount)) == stack_total(ps) + seats.len() * amount,
    decreases seats.len(),
{
    if seats.len() > 0 {
        let sd = seats.drop_last();
        lemma_stack_total_nonneg_and_bounds(ps, 0);
        assert(stack_total(ps) + sd.len() * amount <= u32::MAX) by (nonlinear_arith)
            requires stack_total(ps) + seats.len() * amount <= u32::MAX, sd.len() + 1 == seats.len(), stack_total(ps) >= 0;
        lemma_pay_each(ps, sd, amount);
        let ps1 = pay_each(ps, sd, amount);
        let w = seats.last() as int;
        lemma_stack_total_nonneg_and_bounds(ps1, w);
        assert(sd.len() * amount + amount == seats.len() * amount) by (nonlinear_arith)
            requires sd.len() + 1 == seats.len();
        let q = PlayerModel { stack: (ps1[w].stack + amount) as u32, ..ps1[w] };
        lemma_stack_total_update(ps1, w, q);
    }
}

/// The showdown ends the hand, keeps the table's shape and the pot, and pays
/// out at most the pot.
pub proof fn lemma_showdown_keeps(m: GameModel)
    requires
        table_ok(m),
        chips(m) <= CHIP_LIMIT,
        active_indices(m.players).len() >= 1,
        active_indices(m.players).len() == 1 || someone_shows(m),
    ensures
        table_ok(showdown(m)),
        showdown(m).hand_over,
        !showdown(m).hero_to_act,
        showdown(m).pot == m.pot,
        chips(m) <= chips(showdown(m)) <= chips(m) + m.pot,
        stack_total(showdown(m).players) + m.players.len() > chips(m),
        active_indices(showdown(m).players) == active_indices(m.players),
{
    let act = active_indices(m.players);
    let sd = showdown(m);
    lemma_active_indices_props(m.players);
    lemma_stack_total_nonneg_and_bounds(m.players, 0);
    if act.len() == 1 {
        let w = act[0] as int;
        lemma_seat_within_chips(m, w);
        let p = m.players[w];
        let q = PlayerModel { stack: (p.stack + m.pot) as u32, ..p };
        lemma_stack_total_update(m.players, w, q);
        lemma_active_indices_same_status(sd.players, m.players);
    } else {
        lemma_active_seats_listed(m);
        lemma_scan_props(m, act);
        let (best, winners) = showdown_scan(m, act);
        if winners.len() == 1 {
            let w = winners[0] as int;
            lemma_seat_within_chips(m, w);
            let p = m.players[w];
            let q = PlayerModel { stack: (p.stack + m.pot) as u32, ..p };
            lemma_stack_total_update(m.players, w, q);
            lemma_active_indices_same_status(sd.players, m.players);
        } else {
            let count = winners.len() as u32;
            let split = (m.pot / count) as u32;
            vstd::arithmetic::div_mod::lemma_fundamental_div_mod(m.pot as int, count as int);
            assert(count * split <= m.pot) by (nonlinear_arith)
                requires m.pot == count * (m.pot / count) + m.pot % count, split == m.pot / count, m.pot % count >= 0;
            assert(m.pot < count * split + count) by (nonlinear_arith)
                requires m.pot == count * (m.pot / count) + m.pot % count, split == m.pot / count, m.pot % count < count;
            lemma_pay_each(m.players, winners, split);
            lemma_active_indices_same_status(sd.players, m.players);
        }
    }
}

/// Passing the turn keeps the table's shape; a bot is due only while at least
/// two players are in, and then no chips were paid out.
pub proof fn lemma_advance_keeps(m: GameModel)
    requires
        table_ok(m),
        chips(m) <= CHIP_LIMIT,
        active_indices(m.players).len() >= 1,
        turn_can_pass(m),
    ensures
        table_ok(advance_spec(m).0),
        advance_spec(m).0.pot == m.pot,
        chips(m) <= chips(advance_spec(m).0) <= chips(m) + m.pot,
        chips(advance_spec(m).0) == chips(m) || advance_spec(m).0.hand_over,
        m.hand_over ==> advance_spec(m).0.hand_over,
        active_indices(advance_spec(m).0.players) == active_indices(m.players),
        advance_spec(m).1 ==> chips(advance_spec(m).0) == chips(m) && active_indices(advance_spec(m).0.players).len() >= 2,
        (advance_spec(m).1 || !advance_spec(m).0.hand_over) && bets_bounded(m) ==> bets_bounded(advance_spec(m).0),
{
    let act = active_indices(m.players);
    lemma_active_indices_props(m.players);
    lemma_stack_total_nonneg_and_bounds(m.players, 0);
    if act.len() == 1 {
        let w = act[0] as int;
        let a = won_by_folds(m, w);
        lemma_seat_within_chips(m, w);
        let p = m.players[w];
        let q = PlayerModel { stack: (p.stack + m.pot) as u32, ..p };
        lemma_stack_total_update(m.players, w, q);
        lemma_active_indices_same_status(a.players, m.players);
    } else if round_over(m) {
        let r = street_reset(m);
        lemma_street_reset_keeps(m);
        lemma_first_actor_bound(r.button_pos, r.players);
        let first = first_actor(r.button_pos, active_indices(r.players), r.players.len() as usize);
        assert forall|i: int| 0 <= i < r.players.len() implies (#[trigger] r.players[i]).current_bet + r.players[i].stack <= CHIP_LIMIT by {
            lemma_stack_total_nonneg_and_bounds(m.players, i);
        }
        match m.street {
            Street::River => {
                let sm = GameModel { street: Street::Showdown, community_cards: r.board.take(5), ..r };
                if act.len() >= 2 {
                    let i = choose|i: int| 0 <= i < m.players.len() && is_active(#[trigger] m.players[i]) && m.players[i].hole_cards is Some;
                    assert(is_active(sm.players[i]) && sm.players[i].hole_cards is Some);
                }
                lemma_showdown_keeps(sm);
            },
            _ => {},
        }
    } else {
        let witness = choose|i: int| 0 <= i < m.needs_action.len() && #[trigger] m.needs_action[i] && is_active(m.players[i]);
        assert(act.contains(witness as usize));
        lemma_next_to_act_props(m, 1);
    }
}


// ── Bots and the action entry points ────────────────────────────────────────

/// The move of the bot to act, given the random byte it may consult.
fn bot_choice(state: &GameState, roll: u8) -> (r: (Action, Option<u32>))
    requires
        table_ok(state@),
        chips(state@) <= CHIP_LIMIT,
    ensures
        r == bot_move(state@, roll),
{
    let ghost m = state@;
    let actor = state.action_on;
    proof { lemma_seat_within_chips(m, actor as int); }
    assert(m.players[actor as int] == state.players@[actor as int]@);
    let p = &state.players[actor];
    let call_amount = state.street_bet.saturating_sub(p.current_bet);
    let s: u32 = match &p.hole_cards {
        Some(h) => hand_strength(h),
        None => 0,
    };
    let pot = state.pot;
    let bb = state.big_blind;
    let stack = p.stack;
    if call_amount == 0 {
        if s >= 23 {
            let sized = pot * 6 / 10;
            let b = if sized >= bb { sized } else { bb };
            (Action::Bet, Some(if b <= stack { b } else { stack }))
        } else if s >= 20 && roll % 3 == 0 {
            let sized = pot * 4 / 10;
            let b = if sized >= bb { sized } else { bb };
            (Action::Bet, Some(if b <= stack { b } else { stack }))
        } else {
            (Action::Check, None)
        }
    } else {
        let fold_threshold = s.saturating_sub(10) * 25;
        if call_amount > fold_threshold {
            (Action::Fold, None)
        } else if s >= 25 {
            let raise_to = state.street_bet * 3;
            (Action::Raise, Some(if raise_to <= stack { raise_to } else { stack }))
        } else {
            (Action::Call, None)
        }
    }
}

/// The bot to act makes its move; returns whether another bot is due.
fn run_bot(state: &mut GameState, roll: u8) -> (due: bool)
    requires
        playable(old(state)@),
        active_indices(old(state)@.players).len() >= 2,
        turn_can_pass(effects(old(state)@, bot_move(old(state)@, roll).0, bot_move(old(state)@, roll).1)),
    ensures
        (final(state)@, due) == advance_spec(
            effects(old(state)@, bot_move(old(state)@, roll).0, bot_move(old(state)@, roll).1)),
{
    let (a, amount) = bot_choice(state, roll);
    proof { lemma_effects_keep(state@, a, amount); }
    apply_effects(state, a, amount);
    advance(state)
}

/// Bots move while one is due, one roll per move, until the hero is to act,
/// the hand is over, or the rolls run out; returns whether a bot is still due.
pub(crate) fn run_bot_chain(state: &mut GameState, due0: bool, rolls: &[u8]) -> (pending: bool)
    requires
        table_ok(old(state)@),
        due0 ==> playable(old(state)@) && active_indices(old(state)@.players).len() >= 2,
        bots_can_play(old(state)@, due0, rolls@),
    ensures
        (final(state)@, pending) == play_bots(old(state)@, due0, rolls@),
{
    let ghost m0 = state@;
    let mut due = due0;
    let mut k: usize = 0;
    assert(rolls@.skip(0) =~= rolls@);
    while due && k < rolls.len()
        invariant
            k <= rolls@.len(),
            table_ok(state@),
            due ==> playable(state@) && active_indices(state@.players).len() >= 2,
            play_bots(state@, due, rolls@.skip(k as int)) == play_bots(m0, due0, rolls@),
            bots_can_play(state@, due, rolls@.skip(k as int)),
            m0 == old(state)@,
        decreases rolls.len() - k,
    {
        let ghost s = state@;
        assert(rolls@.skip(k as int)[0] == rolls@[k as int]);
        assert(rolls@.skip(k as int).drop_first() =~= rolls@.skip(k + 1));
        proof {
            let (a, amount) = bot_move(s, rolls@[k as int]);
            lemma_effects_keep(s, a, amount);
            lemma_advance_keeps(effects(s, a, amount));
        }
        due = run_bot(state, rolls[k]);
        k = k + 1;
    }
    due
}

/// One more die after `rolls`: the bots go on from where they stood, and a
/// play that can be done with the longer dice can be done with the shorter.
pub proof fn lemma_play_bots_push(m: GameModel, due: bool, rolls: Seq<u8>, x: u8)
    ensures
        ({
            let (s, pending) = play_bots(m, due, rolls);
            &&& play_bots(m, due, rolls.push(x)) == (if pending { play_bots(s, true, seq![x]) } else { (s, false) })
            &&& bots_can_play(m, due, rolls.push(x)) ==> pending ==> bots_can_play(s, true, seq![x])
        }),
    decreases rolls.len(),
{
    if due && rolls.len() > 0 {
        let (a, amount) = bot_move(m, rolls[0]);
        let (m2, due2) = advance_spec(effects(m, a, amount));
        assert(rolls.push(x)[0] == rolls[0]);
        assert(rolls.push(x).drop_first() =~= rolls.drop_first().push(x));
        lemma_play_bots_push(m2, due2, rolls.drop_first(), x);
    } else if due {
        assert(rolls.push(x) =~= seq![x]);
    }
}

/// The bots move, each with a fresh random byte, while one is due, at most
/// `BOT_ACTION_LIMIT` times; returns whether a bot is still due.
pub(crate) fn run_bots_randomly(state: &mut GameState, due0: bool) -> (pending: bool)
    requires
        table_ok(old(state)@),
        due0 ==> playable(old(state)@) && active_indices(old(state)@.players).len() >= 2,
        forall|rolls: Seq<u8>| #[trigger] bots_can_play(old(state)@, due0, rolls),
    ensures
        exists|rolls: Seq<u8>| rolls.len() <= BOT_ACTION_LIMIT
            && #[trigger] play_bots(old(state)@, due0, rolls) == (final(state)@, pending)
            && (pending ==> rolls.len() == BOT_ACTION_LIMIT),
{
    let ghost m0 = state@;
    let ghost mut used: Seq<u8> = Seq::empty();
    let mut due = due0;
    let mut k: u64 = 0;
    while due && k < BOT_ACTION_LIMIT
        invariant
            m0 == old(state)@,
            table_ok(state@),
            due ==> playable(state@) && active_indices(state@.players).len() >= 2,
            used.len() == k,
            k <= BOT_ACTION_LIMIT,
            play_bots(m0, due0, used) == (state@, due),
            forall|rolls: Seq<u8>| #[trigger] bots_can_play(m0, due0, rolls),
        decreases BOT_ACTION_LIMIT - k,
    {
        let roll = random_byte();
        let ghost s = state@;
        proof {
            lemma_play_bots_push(m0, due0, used, roll);
            assert(bots_can_play(m0, due0, used.push(roll)));
            assert(bots_can_play(s, true, seq![roll]));
            assert(seq![roll][0] == roll);
            assert(seq![roll].drop_first() =~= Seq::<u8>::empty());
            let (a, amount) = bot_move(s, roll);
            lemma_effects_keep(s, a, amount);
            lemma_advance_keeps(effects(s, a, amount));
        }
        due = run_bot(state, roll);
        proof {
            let (a, amount) = bot_move(s, roll);
            let (m2, due2) = advance_spec(effects(s, a, amount));
            assert(play_bots(m2, due2, seq![roll].drop_first()) == (m2, due2));
            assert(play_bots(s, true, seq![roll]) == (m2, due2));
            used = used.push(roll);
        }
        k = k + 1;
    }
    due
}

/// Applies the action `action` (`fold`, `check`, `call`, `bet` or `raise`;
/// other words do nothing) of the player to act, with the bet or raise-to
/// `amount` (a big blind, or twice the bet to match, when absent), then lets
/// the bots move with the given random bytes, one per move.  Returns whether a
/// bot was still due when the bytes ran out.
pub fn apply_action_with_rolls(state: &mut GameState, action: &str, amount: Option<u32>, rolls: &[u8]) -> (pending: bool)
    requires
        playable(old(state)@),
        leaves_someone_in(old(state)@, action@),
        action_can_play(old(state)@, action@, amount, rolls@),
    ensures
        (final(state)@, pending) == act_and_play(old(state)@, action@, amount, rolls@),
{
    let ghost m = state@;
    record_snapshot(state, action);
    let ghost m1 = state@;
    assert(m1.players == m.players);
    assert(chips(m1) == chips(m));
    let a = parse_action(action);
    proof { lemma_effects_keep(m1, a, amount); }
    apply_effects(state, a, amount);
    proof { lemma_advance_keeps(state@); }
    let due = advance(state);
    run_bot_chain(state, due, rolls)
}

/// Applies the action of the player to act, then lets the bots move, each
/// with a fresh random byte (at most `BOT_ACTION_LIMIT` moves), until the hero
/// is to act or the hand is over.  In a running hand, the hand is then over
/// or the hero holds the turn (unless the bots made all `BOT_ACTION_LIMIT`
/// moves); no chip is made or lost while the hand runs, and when it ends the
/// stacks hold every chip but the odd ones of a split pot.  Whatever the
/// bots' dice, every showdown reached must find someone in the hand holding
/// cards:
/// `law_cards_held_can_play` shows this holds whenever every player in the
/// hand holds cards, and `law_hero_keeps_cards_can_play` whenever a hero in
/// the hand holds cards and is not the one folding.
pub fn apply_action(state: &mut GameState, action: &str, amount: Option<u32>)
    requires
        playable(old(state)@),
        leaves_someone_in(old(state)@, action@),
        forall|rolls: Seq<u8>| #[trigger] action_can_play(old(state)@, action@, amount, rolls),
    ensures
        exists|rolls: Seq<u8>| rolls.len() <= BOT_ACTION_LIMIT
            && #[trigger] act_and_play(old(state)@, action@, amount, rolls).0 == final(state)@
            && (act_and_play(old(state)@, action@, amount, rolls).1 ==> rolls.len() == BOT_ACTION_LIMIT)
            && (running(old(state)@) ==> final(state)@.hand_over || hero_turn(final(state)@)
                || (act_and_play(old(state)@, action@, amount, rolls).1 && !final(state)@.hero_to_act
                    && !final(state)@.players[final(state)@.action_on as int].is_hero)),
        running(old(state)@) && !final(state)@.hand_over ==> chips(final(state)@) == chips(old(state)@),
        running(old(state)@) && final(state)@.hand_over
            ==> stack_total(final(state)@.players) + split_remainder(final(state)@) == chips(old(state)@),
{
    let ghost m = state@;
    assert(action_can_play(m, action@, amount, Seq::<u8>::empty()));
    record_snapshot(state, action);
    let ghost m1 = state@;
    assert(m1.players == m.players);
    assert(chips(m1) == chips(m));
    let a = parse_action(action);
    proof { lemma_effects_keep(m1, a, amount); }
    apply_effects(state, a, amount);
    proof { lemma_advance_keeps(state@); }
    let ghost e = state@;
    let due = advance(state);
    let ghost m2 = state@;
    assert forall|rolls: Seq<u8>| #[trigger] bots_can_play(m2, due, rolls) by {
        assert(action_can_play(m, action@, amount, rolls));
    }
    let pending = run_bots_randomly(state, due);
    proof {
        let rolls = choose|rolls: Seq<u8>| rolls.len() <= BOT_ACTION_LIMIT
            && #[trigger] play_bots(m2, due, rolls) == (state@, pending)
            && (pending ==> rolls.len() == BOT_ACTION_LIMIT);
        assert(act_and_play(m, action@, amount, rolls) == (state@, pending));
        if running(m) {
            crate::laws::law_action_keeps_the_table(m, action@, amount, rolls);
        }
    }
}

} // verus!
