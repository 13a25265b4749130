//! The rules of play, stated over the model of a game state: what an action
//! does, how the turn passes, how a street ends, how the showdown pays, and
//! what a bot chooses.

use vstd::prelude::*;
use crate::cards::{Card, card_text, strength_of};
use crate::rank::{HandRank, codes, hand_rank, rank_key, category_label};
use crate::rules::{first_actor, legal_for};
use crate::state::{GameModel, PlayerModel, PlayerStatus, RecordModel, SnapshotModel, Street};
use crate::text::decimal;

verus! {

/// The most chips (pot and stacks together) a table may hold: with this bound
/// no bet, bot sizing or payout of the engine leaves `u32`.
pub const CHIP_LIMIT: u32 = 715827882;

/// The most bot moves one call runs before it hands control back.  It is far
/// beyond what a hand at a table of any real size takes; it is there to stop
/// bots that would otherwise bet nothing at each other forever.
pub const BOT_ACTION_LIMIT: u64 = 0xffff_ffff_ffff_ffff;

/// What a player can do.
#[derive(Clone, Copy, Debug, PartialEq, Eq, Structural)]
pub enum Action {
    Fold,
    Check,
    Call,
    Bet,
    Raise,
    Other,
}

/// The action an action word names; any other word does nothing.
pub open spec fn action_of(word: Seq<char>) -> Action {
    if word == "fold"@ {
        Action::Fold
    } else if word == "check"@ {
        Action::Check
    } else if word == "call"@ {
        Action::Call
    } else if word == "bet"@ {
        Action::Bet
    } else if word == "raise"@ {
        Action::Raise
    } else {
        Action::Other
    }
}

pub open spec fn is_active(p: PlayerModel) -> bool {
    p.status == PlayerStatus::Active
}

/// The seats still in the hand, in increasing order.
pub open spec fn active_indices(ps: Seq<PlayerModel>) -> Seq<usize>
    decreases ps.len(),
{
    if ps.len() == 0 {
        Seq::empty()
    } else {
        let rest = active_indices(ps.drop_last());
        if is_active(ps.last()) {
            rest.push((ps.len() - 1) as usize)
        } else {
            rest
        }
    }
}

/// How many players other than the hero are still in the hand.
pub open spec fn opponent_count(ps: Seq<PlayerModel>) -> nat
    decreases ps.len(),
{
    if ps.len() == 0 {
        0
    } else {
        opponent_count(ps.drop_last()) + if !ps.last().is_hero && is_active(ps.last()) { 1nat } else { 0nat }
    }
}

/// The chips behind all players.
pub open spec fn stack_total(ps: Seq<PlayerModel>) -> int
    decreases ps.len(),
{
    if ps.len() == 0 {
        0
    } else {
        stack_total(ps.drop_last()) + ps.last().stack
    }
}

/// All chips on the table: the pot and every stack.
pub open spec fn chips(m: GameModel) -> int {
    m.pot + stack_total(m.players)
}

/// The shape every game state of the engine has.
pub open spec fn table_ok(m: GameModel) -> bool {
    &&& 0 < m.players.len()
    &&& 2 * m.players.len() < usize::MAX
    &&& m.players.len() <= u32::MAX
    &&& m.needs_action.len() == m.players.len()
    &&& m.action_on < m.players.len()
    &&& m.button_pos + m.players.len() < usize::MAX
    &&& m.board.len() >= 5
    &&& m.street_bet <= CHIP_LIMIT
    &&& m.big_blind <= CHIP_LIMIT
}

/// No seat's bet and stack together exceed the chip bound: a seat's bet after
/// it puts in chips becomes the bet the bots size their raises from.
pub open spec fn bets_bounded(m: GameModel) -> bool {
    forall|i: int| 0 <= i < m.players.len() ==> (#[trigger] m.players[i]).current_bet + m.players[i].stack <= CHIP_LIMIT
}

/// A game state the engine can act on without leaving `u32`.
pub open spec fn playable(m: GameModel) -> bool {
    &&& table_ok(m)
    &&& chips(m) <= CHIP_LIMIT
    &&& bets_bounded(m)
}

// ── Effects of one action ───────────────────────────────────────────────────

pub open spec fn street_label(s: Street) -> Seq<char> {
    match s {
        Street::Preflop => "Preflop"@,
        Street::Flop => "Flop"@,
        Street::Turn => "Turn"@,
        Street::River => "River"@,
        Street::Showdown => "Showdown"@,
    }
}

/// Before the hero acts, the decision is recorded for the review.
pub open spec fn with_snapshot(m: GameModel, word: Seq<char>) -> GameModel {
    let p = m.players[m.action_on as int];
    if p.is_hero && p.hole_cards is Some {
        GameModel {
            decision_snapshots: m.decision_snapshots.push(SnapshotModel {
                street: street_label(m.street),
                pot: m.pot,
                call_amount: m.street_bet.saturating_sub(p.current_bet),
                action_taken: word,
                community_cards: m.community_cards,
                hero_hole_cards: p.hole_cards->Some_0,
                active_opponents: opponent_count(m.players) as usize,
            }),
            ..m
        }
    } else {
        m
    }
}

/// A history line in the name of the player at `seat`.
pub open spec fn with_record(m: GameModel, seat: int, desc: Seq<char>) -> GameModel {
    GameModel {
        action_history: m.action_history.push(RecordModel {
            player_name: m.players[seat].name,
            description: desc,
        }),
        ..m
    }
}

pub open spec fn with_need(m: GameModel, seat: int, need: bool) -> GameModel {
    GameModel { needs_action: m.needs_action.update(seat, need), ..m }
}

pub open spec fn with_status(m: GameModel, seat: int, status: PlayerStatus) -> GameModel {
    GameModel { players: m.players.update(seat, PlayerModel { status, ..m.players[seat] }), ..m }
}

/// `amount` chips go from the stack of `seat` into its bet and the pot.
pub open spec fn committed(m: GameModel, seat: int, amount: u32) -> GameModel {
    let p = m.players[seat];
    GameModel {
        players: m.players.update(
            seat,
            PlayerModel {
                stack: (p.stack - amount) as u32,
                current_bet: (p.current_bet + amount) as u32,
                ..p
            },
        ),
        pot: (m.pot + amount) as u32,
        ..m
    }
}

/// Every other active player must act again.
pub open spec fn reopened(m: GameModel, aggressor: int) -> GameModel {
    GameModel {
        needs_action: Seq::new(
            m.needs_action.len(),
            |i: int|
                if i != aggressor && i < m.players.len() && is_active(m.players[i]) {
                    true
                } else {
                    m.needs_action[i]
                },
        ),
        ..m
    }
}

pub open spec fn min_u32(a: u32, b: u32) -> u32 {
    if a <= b { a } else { b }
}

pub open spec fn max_u32(a: u32, b: u32) -> u32 {
    if a >= b { a } else { b }
}

/// A bet or raise of `amount` by `seat`: it becomes the bet to match, is
/// written down, and the others must act again.
pub open spec fn aggression(m: GameModel, seat: int, amount: u32, desc: Seq<char>) -> GameModel {
    let m1 = committed(m, seat, amount);
    let m2 = GameModel { street_bet: m1.players[seat].current_bet, ..m1 };
    reopened(with_need(with_record(m2, seat, desc), seat, false), seat)
}

/// What the player to act does to the state by taking `action`.
pub open spec fn effects(m: GameModel, action: Action, amount: Option<u32>) -> GameModel {
    let seat = m.action_on as int;
    let p = m.players[seat];
    match action {
        Action::Fold => with_need(with_status(with_record(m, seat, "folds"@), seat, PlayerStatus::Folded), seat, false),
        Action::Check => with_need(with_record(m, seat, "checks"@), seat, false),
        Action::Call => {
            let actual = min_u32(m.street_bet.saturating_sub(p.current_bet), p.stack);
            with_need(with_record(committed(m, seat, actual), seat, "calls "@ + decimal(actual as nat)), seat, false)
        },
        Action::Bet => {
            let amt = match amount { Some(a) => a, None => m.big_blind };
            let actual = min_u32(amt, p.stack);
            aggression(m, seat, actual, "bets "@ + decimal(actual as nat))
        },
        Action::Raise => {
            let total = match amount { Some(a) => a, None => (m.street_bet * 2) as u32 };
            let to_add = min_u32(total.saturating_sub(p.current_bet), p.stack);
            let raised_to = (p.current_bet + to_add) as u32;
            aggression(m, seat, to_add, "raises to "@ + decimal(raised_to as nat))
        },
        Action::Other => m,
    }
}

// ── Passing the turn ────────────────────────────────────────────────────────

/// The last player in collects the pot.
pub open spec fn won_by_folds(m: GameModel, w: int) -> GameModel {
    let p = m.players[w];
    GameModel {
        players: m.players.update(w, PlayerModel { stack: (p.stack + m.pot) as u32, ..p }),
        result_message: Some(p.name + " wins "@ + decimal(m.pot as nat) + " (others folded)"@),
        hand_over: true,
        hero_to_act: false,
        ..m
    }
}

/// No active player still has to act.
pub open spec fn round_over(m: GameModel) -> bool {
    !exists|i: int| 0 <= i < m.needs_action.len() && #[trigger] m.needs_action[i] && is_active(m.players[i])
}

/// The first seat after the one acting, going round, that must still act.
pub open spec fn next_to_act(m: GameModel, offset: int) -> Option<usize>
    decreases m.players.len() + 1 - offset,
{
    let n = m.players.len() as int;
    if offset > n || n <= 0 {
        None
    } else {
        let idx = (m.action_on + offset) % n;
        if m.needs_action[idx] && is_active(m.players[idx]) {
            Some(idx as usize)
        } else {
            next_to_act(m, offset + 1)
        }
    }
}

/// The turn goes to `seat`: the hero gets the legal actions; a bot is due to
/// move (the flag) when the hand still runs or `force` holds.
pub open spec fn give_turn(m: GameModel, seat: usize, bot_moves: bool) -> (GameModel, bool) {
    let p = m.players[seat as int];
    if p.is_hero {
        (GameModel {
            action_on: seat,
            hero_to_act: true,
            legal_actions: legal_for(p.stack, p.current_bet, m.street_bet, m.big_blind),
            ..m
        }, false)
    } else {
        (GameModel { action_on: seat, hero_to_act: false, ..m }, bot_moves)
    }
}

/// Bets are cleared and every active player must act on the new street.
pub open spec fn street_reset(m: GameModel) -> GameModel {
    GameModel {
        players: Seq::new(m.players.len(), |i: int| PlayerModel { current_bet: 0, ..m.players[i] }),
        street_bet: 0,
        needs_action: Seq::new(m.needs_action.len(), |i: int| is_active(m.players[i])),
        ..m
    }
}

pub open spec fn with_marker(m: GameModel, text: Seq<char>) -> GameModel {
    GameModel {
        action_history: m.action_history.push(RecordModel { player_name: Seq::empty(), description: text }),
        ..m
    }
}

pub open spec fn flop_marker(b: Seq<Card>) -> Seq<char> {
    "--- Flop: "@ + card_text(b[0]) + " "@ + card_text(b[1]) + " "@ + card_text(b[2]) + " ---"@
}

pub open spec fn turn_marker(b: Seq<Card>) -> Seq<char> {
    "--- Turn: "@ + card_text(b[3]) + " ---"@
}

pub open spec fn river_marker(b: Seq<Card>) -> Seq<char> {
    "--- River: "@ + card_text(b[4]) + " ---"@
}

/// Deals the next street (or goes to showdown) and gives the turn to the
/// first active player after the button.
pub open spec fn next_street_spec(m: GameModel) -> (GameModel, bool) {
    let r = street_reset(m);
    let first = first_actor(r.button_pos, active_indices(r.players), r.players.len() as usize);
    match m.street {
        Street::Preflop => give_turn(
            with_marker(GameModel { street: Street::Flop, community_cards: r.board.take(3), ..r }, flop_marker(r.board)),
            first,
            !r.hand_over,
        ),
        Street::Flop => give_turn(
            with_marker(GameModel { street: Street::Turn, community_cards: r.board.take(4), ..r }, turn_marker(r.board)),
            first,
            !r.hand_over,
        ),
        Street::Turn => give_turn(
            with_marker(GameModel { street: Street::River, community_cards: r.board.take(5), ..r }, river_marker(r.board)),
            first,
            !r.hand_over,
        ),
        Street::River => (showdown(GameModel { street: Street::Showdown, community_cards: r.board.take(5), ..r }), false),
        Street::Showdown => (r, false),
    }
}

/// After an action: the hand ends if one player is left, the street ends if
/// nobody must act, otherwise the turn passes.  The flag says that a bot is
/// now due to move.
pub open spec fn advance_spec(m: GameModel) -> (GameModel, bool) {
    let act = active_indices(m.players);
    if act.len() == 1 {
        (won_by_folds(m, act[0] as int), false)
    } else if round_over(m) {
        next_street_spec(m)
    } else {
        match next_to_act(m, 1) {
            Some(i) => give_turn(m, i, true),
            None => (m, false),
        }
    }
}

// ── Showdown ────────────────────────────────────────────────────────────────

/// The seven cards a player shows: hole cards then the board.
pub open spec fn shown_cards(hole: [Card; 2], community: Seq<Card>) -> Seq<Card> {
    seq![hole@[0], hole@[1]] + community
}

/// Scanning the seats in `act`: the best rank so far and the seats holding it.
pub open spec fn showdown_scan(m: GameModel, act: Seq<usize>) -> (Option<HandRank>, Seq<usize>)
    decreases act.len(),
{
    if act.len() == 0 {
        (None, Seq::empty())
    } else {
        let (best, winners) = showdown_scan(m, act.drop_last());
        let i = act.last();
        match m.players[i as int].hole_cards {
            None => (best, winners),
            Some(h) => {
                let r = hand_rank(codes(shown_cards(h, m.community_cards)));
                match best {
                    None => (Some(r), seq![i]),
                    Some(b) => if rank_key(r) > rank_key(b) {
                        (Some(r), seq![i])
                    } else if rank_key(r) == rank_key(b) {
                        (best, winners.push(i))
                    } else {
                        (best, winners)
                    },
                }
            },
        }
    }
}

/// The chips a showdown leaves unpaid: the remainder of the pot shared out
/// evenly among the winners.  Nothing is left over at any other point.
pub open spec fn split_remainder(m: GameModel) -> int {
    let act = active_indices(m.players);
    let winners = showdown_scan(m, act).1;
    if m.street == Street::Showdown && act.len() >= 2 && winners.len() > 0 {
        m.pot as int % winners.len() as int
    } else {
        0
    }
}

/// Each seat in `seats` receives `amount`, in turn.
pub open spec fn pay_each(ps: Seq<PlayerModel>, seats: Seq<usize>, amount: u32) -> Seq<PlayerModel>
    decreases seats.len(),
{
    if seats.len() == 0 {
        ps
    } else {
        let ps1 = pay_each(ps, seats.drop_last(), amount);
        let w = seats.last() as int;
        ps1.update(w, PlayerModel { stack: (ps1[w].stack + amount) as u32, ..ps1[w] })
    }
}

/// The names of the seats, joined with `, `.
pub open spec fn joined_names(ps: Seq<PlayerModel>, seats: Seq<usize>) -> Seq<char>
    decreases seats.len(),
{
    if seats.len() == 0 {
        Seq::empty()
    } else if seats.len() == 1 {
        ps[seats[0] as int].name
    } else {
        joined_names(ps, seats.drop_last()) + ", "@ + ps[seats.last() as int].name
    }
}

/// The showdown: a lone player wins uncontested; otherwise the best hand takes
/// the pot, and equal best hands split it (the remainder of the division stays
/// unpaid).
pub open spec fn showdown(m: GameModel) -> GameModel {
    let act = active_indices(m.players);
    if act.len() == 1 {
        let w = act[0] as int;
        let p = m.players[w];
        GameModel {
            players: m.players.update(w, PlayerModel { stack: (p.stack + m.pot) as u32, ..p }),
            result_message: Some(p.name + " wins "@ + decimal(m.pot as nat) + " (uncontested)"@),
            hand_over: true,
            hero_to_act: false,
            ..m
        }
    } else {
        let (best, winners) = showdown_scan(m, act);
        if winners.len() == 1 {
            let w = winners[0] as int;
            let p = m.players[w];
            let cat = match best { Some(b) => category_label(b.category), None => Seq::empty() };
            GameModel {
                players: m.players.update(w, PlayerModel { stack: (p.stack + m.pot) as u32, ..p }),
                result_message: Some(p.name + " wins "@ + decimal(m.pot as nat) + " \u{2014} "@ + cat),
                hand_over: true,
                hero_to_act: false,
                ..m
            }
        } else {
            let split = (m.pot / (winners.len() as u32)) as u32;
            GameModel {
                players: pay_each(m.players, winners, split),
                result_message: Some("Split pot ("@ + decimal(split as nat) + " each) \u{2014} "@ + joined_names(m.players, winners)),
                hand_over: true,
                hero_to_act: false,
                ..m
            }
        }
    }
}

// ── Bots ────────────────────────────────────────────────────────────────────

/// The bot's strength: the sum of its hole ranks.
pub open spec fn strength(p: PlayerModel) -> u32 {
    match p.hole_cards {
        Some(h) => strength_of(h) as u32,
        None => 0,
    }
}

/// What the bot to act does; `roll` is the random byte it may look at.
pub open spec fn bot_move(m: GameModel, roll: u8) -> (Action, Option<u32>) {
    let p = m.players[m.action_on as int];
    let call_amount = m.street_bet.saturating_sub(p.current_bet);
    let s = strength(p);
    if call_amount == 0 {
        if s >= 23 {
            (Action::Bet, Some(min_u32(max_u32((m.pot * 6 / 10) as u32, m.big_blind), p.stack)))
        } else if s >= 20 && roll % 3 == 0 {
            (Action::Bet, Some(min_u32(max_u32((m.pot * 4 / 10) as u32, m.big_blind), p.stack)))
        } else {
            (Action::Check, None)
        }
    } else {
        let fold_threshold = s.saturating_sub(10) * 25;
        if call_amount > fold_threshold {
            (Action::Fold, None)
        } else if s >= 25 {
            (Action::Raise, Some(min_u32((m.street_bet * 3) as u32, p.stack)))
        } else {
            (Action::Call, None)
        }
    }
}

/// Some player still in the hand holds cards to show.
pub open spec fn someone_shows(m: GameModel) -> bool {
    exists|i: int| 0 <= i < m.players.len() && is_active(#[trigger] m.players[i]) && m.players[i].hole_cards is Some
}

/// A hero still in the hand holds cards.
pub open spec fn hero_shows(m: GameModel) -> bool {
    exists|i: int| 0 <= i < m.players.len() && (#[trigger] m.players[i]).is_hero && is_active(m.players[i])
        && m.players[i].hole_cards is Some
}

/// A hero in the hand holding cards stays in it after `word`: it is not the
/// hero to act folding.
pub open spec fn hero_keeps_cards(m: GameModel, word: Seq<char>) -> bool {
    exists|i: int| 0 <= i < m.players.len() && (#[trigger] m.players[i]).is_hero && is_active(m.players[i])
        && m.players[i].hole_cards is Some && !(i == m.action_on && action_of(word) == Action::Fold)
}

/// Every player still in the hand holds cards.
pub open spec fn cards_held(m: GameModel) -> bool {
    forall|i: int| 0 <= i < m.players.len() && is_active(#[trigger] m.players[i]) ==> m.players[i].hole_cards is Some
}

/// Passing the turn from `m` can be done: when the river round is over with
/// two or more players in, the showdown needs someone in the hand with cards
/// (with none, the pot would be shared among no winners).
pub open spec fn turn_can_pass(m: GameModel) -> bool {
    active_indices(m.players).len() >= 2 && round_over(m) && m.street == Street::River ==> someone_shows(m)
}

/// Every turn passed while the bots move with `rolls` can be done.
pub open spec fn bots_can_play(m: GameModel, bot_due: bool, rolls: Seq<u8>) -> bool
    decreases rolls.len(),
{
    if bot_due && rolls.len() > 0 {
        let (a, amount) = bot_move(m, rolls[0]);
        let e = effects(m, a, amount);
        let (m2, due2) = advance_spec(e);
        turn_can_pass(e) && bots_can_play(m2, due2, rolls.drop_first())
    } else {
        true
    }
}

/// Every turn passed after the player to act takes `word`, and while the bots
/// then move with `rolls`, can be done.
pub open spec fn action_can_play(m: GameModel, word: Seq<char>, amount: Option<u32>, rolls: Seq<u8>) -> bool {
    let m1 = effects(with_snapshot(m, word), action_of(word), amount);
    let (m2, due) = advance_spec(m1);
    turn_can_pass(m1) && bots_can_play(m2, due, rolls)
}

/// Bots move while one is due and rolls remain, one roll per move.  The flag
/// of the result says a bot is still due (only when the rolls ran out).
pub open spec fn play_bots(m: GameModel, bot_due: bool, rolls: Seq<u8>) -> (GameModel, bool)
    decreases rolls.len(),
{
    if bot_due && rolls.len() > 0 {
        let (a, amount) = bot_move(m, rolls[0]);
        let (m2, due2) = advance_spec(effects(m, a, amount));
        play_bots(m2, due2, rolls.drop_first())
    } else {
        (m, bot_due)
    }
}

/// The whole effect of the player to act taking `word` with `amount`, the bots
/// then moving with `rolls`.
pub open spec fn act_and_play(m: GameModel, word: Seq<char>, amount: Option<u32>, rolls: Seq<u8>) -> (GameModel, bool) {
    let m1 = effects(with_snapshot(m, word), action_of(word), amount);
    let (m2, due) = advance_spec(m1);
    play_bots(m2, due, rolls)
}

/// The action leaves at least one player in the hand: a fold by the last
/// active player would leave nobody to pay or to act, and no street can
/// start without a player.
pub open spec fn leaves_someone_in(m: GameModel, word: Seq<char>) -> bool {
    let n = active_indices(m.players).len();
    n >= 2 || (n == 1 && !(action_of(word) == Action::Fold && is_active(m.players[m.action_on as int])))
}

// ── Running hands ───────────────────────────────────────────────────────────

/// How many board cards are face up on a street.
pub open spec fn street_cards(s: Street) -> int {
    match s {
        Street::Preflop => 0,
        Street::Flop => 3,
        Street::Turn => 4,
        Street::River => 5,
        Street::Showdown => 5,
    }
}

/// The community cards are the first cards of the board, as many as the
/// street shows.
pub open spec fn board_shown(m: GameModel) -> bool {
    m.community_cards == m.board.take(street_cards(m.street))
}

/// A hand still being played: the table is in shape, nobody has won yet, and
/// the showdown has not come.
pub open spec fn running(m: GameModel) -> bool {
    &&& playable(m)
    &&& !m.hand_over
    &&& m.street != Street::Showdown
}

/// A running hand whose board shows what the street shows.
pub open spec fn live(m: GameModel) -> bool {
    &&& running(m)
    &&& board_shown(m)
}

/// The hero holds the turn: it is in the hand, still has to act, and is
/// offered the legal actions of its seat.
pub open spec fn hero_turn(m: GameModel) -> bool {
    let p = m.players[m.action_on as int];
    &&& m.hero_to_act
    &&& p.is_hero
    &&& is_active(p)
    &&& m.needs_action[m.action_on as int]
    &&& m.legal_actions == legal_for(p.stack, p.current_bet, m.street_bet, m.big_blind)
}

/// Seat `q` is seat `p` after some play: the same player with the same cards,
/// with chips moved, out of the hand if `p` was, and folded if `p` had folded.
pub open spec fn seat_played(p: PlayerModel, q: PlayerModel) -> bool {
    &&& q == (PlayerModel { stack: q.stack, current_bet: q.current_bet, status: q.status, ..p })
    &&& !is_active(p) ==> !is_active(q)
    &&& p.status == PlayerStatus::Folded ==> q.status == PlayerStatus::Folded
}

/// The order of the streets.
pub open spec fn street_index(s: Street) -> int {
    match s {
        Street::Preflop => 0,
        Street::Flop => 1,
        Street::Turn => 2,
        Street::River => 3,
        Street::Showdown => 4,
    }
}

/// Every seat of `r` is the same seat of `m` after some play.
pub open spec fn seats_played(m: GameModel, r: GameModel) -> bool {
    &&& r.players.len() == m.players.len()
    &&& forall|i: int| 0 <= i < m.players.len() ==> seat_played(m.players[i], #[trigger] r.players[i])
}

} // verus!
