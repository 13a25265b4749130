//! Laws on what single operations give: the order of hand classes, who wins
//! a trial, what the hero is shown, what a call puts in, and what a bot does
//! in a simulated street.

use vstd::prelude::*;
use crate::engine::{lemma_first_actor_bound, lemma_stack_total_nonneg_and_bounds};
use crate::play::{Action, is_active, active_indices, stack_total, chips, table_ok, bets_bounded, effects,
    shown_cards, CHIP_LIMIT};
use crate::state::{GameModel, PlayerModel, PlayerStatus, RecordModel, Street};
use crate::rank::{HandCategory, HandRank, hand_rank, codes, rank_key, category_index};
use crate::cards::Card;
use crate::equity::{TrialResult, trial_result, opponents_best};
use crate::scenario::{TableModel, sim_seat, sim_from, sim_first, simulated};
use crate::text::decimal;
use crate::view::visible;

verus! {

// ── Hand classes ────────────────────────────────────────────────────────────

/// Hand classes rank in the poker order, weakest first: high card, one pair,
/// two pair, three of a kind, straight, flush, full house, four of a kind,
/// straight flush; and a hand of a higher class beats every hand of a lower
/// class, whatever their sub-ranks.
pub proof fn law_hand_classes_in_poker_order(a: HandRank, b: HandRank)
    requires
        a.sub < 4096,
        b.sub < 4096,
    ensures
        category_index(HandCategory::HighCard) < category_index(HandCategory::OnePair),
        category_index(HandCategory::OnePair) < category_index(HandCategory::TwoPair),
        category_index(HandCategory::TwoPair) < category_index(HandCategory::ThreeOfAKind),
        category_index(HandCategory::ThreeOfAKind) < category_index(HandCategory::Straight),
        category_index(HandCategory::Straight) < category_index(HandCategory::Flush),
        category_index(HandCategory::Flush) < category_index(HandCategory::FullHouse),
        category_index(HandCategory::FullHouse) < category_index(HandCategory::FourOfAKind),
        category_index(HandCategory::FourOfAKind) < category_index(HandCategory::StraightFlush),
        category_index(a.category) < category_index(b.category) ==> rank_key(a) < rank_key(b),
        a.category == HandCategory::Flush && b.category == HandCategory::Straight ==> rank_key(a) > rank_key(b),
        a.category == b.category ==> (rank_key(a) < rank_key(b) <==> a.sub < b.sub),
{
}

// ── One equity trial ────────────────────────────────────────────────────────

/// The hero's hand in a trial: its hole cards with the community cards and
/// the first cards of the deal.
pub open spec fn trial_hero_rank(hero: [Card; 2], community: Seq<Card>, deal: Seq<Card>) -> HandRank {
    let k = 5 - community.len();
    hand_rank(codes(shown_cards(hero, community + deal.take(k))))
}

/// The hand of opponent `q` in a trial: the two cards dealt to it after the
/// board's, with the same board.
pub open spec fn trial_opponent_rank(community: Seq<Card>, deal: Seq<Card>, q: int) -> HandRank {
    let k = 5 - community.len();
    hand_rank(codes(shown_cards([deal[k + 2 * q], deal[k + 2 * q + 1]], community + deal.take(k))))
}

proof fn lemma_best_of_opponents(community: Seq<Card>, deal: Seq<Card>, j: int)
    requires
        j >= 0,
    ensures
        ({
            let k = 5 - community.len();
            let best = opponents_best(deal, k, community + deal.take(k), j);
            &&& j == 0 <==> best is None
            &&& best matches Some(b) ==> (forall|q: int| 0 <= q < j ==> rank_key(#[trigger] trial_opponent_rank(community, deal, q)) <= rank_key(b))
                && (exists|q: int| 0 <= q < j && rank_key(#[trigger] trial_opponent_rank(community, deal, q)) == rank_key(b))
        }),
    decreases j,
{
    if j > 0 {
        lemma_best_of_opponents(community, deal, j - 1);
        let k = 5 - community.len();
        let r = trial_opponent_rank(community, deal, j - 1);
        assert(r == hand_rank(codes(shown_cards([deal[k + 2 * (j - 1)], deal[k + 2 * (j - 1) + 1]], community + deal.take(k)))));
    }
}

/// One trial is a win for the hero exactly when its hand beats the hand of
/// every opponent dealt in; a loss exactly when some opponent's hand beats
/// it; a tie otherwise (no opponent beats it, and one matches it).
pub proof fn law_trial_against_every_opponent(hero: [Card; 2], community: Seq<Card>, deal: Seq<Card>, n: int)
    requires
        n >= 0,
    ensures
        ({
            let h = rank_key(trial_hero_rank(hero, community, deal));
            let r = trial_result(hero, community, deal, n);
            &&& r == TrialResult::Win <==> forall|q: int| 0 <= q < n ==> h > rank_key(#[trigger] trial_opponent_rank(community, deal, q))
            &&& r == TrialResult::Lose <==> exists|q: int| 0 <= q < n && rank_key(#[trigger] trial_opponent_rank(community, deal, q)) > h
            &&& r == TrialResult::Tie <==> (forall|q: int| 0 <= q < n ==> rank_key(#[trigger] trial_opponent_rank(community, deal, q)) <= h)
                && exists|q: int| 0 <= q < n && rank_key(#[trigger] trial_opponent_rank(community, deal, q)) == h
        }),
{
    lemma_best_of_opponents(community, deal, n);
}

// ── What the hero is shown ──────────────────────────────────────────────────

/// The hero sees every player's stack, bet and status, and its own cards;
/// another player's hole cards are shown only once the hand has ended at a
/// showdown, and are then shown as dealt.
pub proof fn law_cards_hidden_until_showdown(m: GameModel)
    ensures
        visible(m).len() == m.players.len(),
        forall|i: int| 0 <= i < m.players.len() ==> (#[trigger] visible(m)[i]) == (PlayerModel {
            hole_cards: visible(m)[i].hole_cards, ..m.players[i] }),
        forall|i: int| 0 <= i < m.players.len() && m.players[i].is_hero
            ==> (#[trigger] visible(m)[i]).hole_cards == m.players[i].hole_cards,
        forall|i: int| 0 <= i < m.players.len() && !m.players[i].is_hero && !(m.hand_over && m.street == Street::Showdown)
            ==> (#[trigger] visible(m)[i]).hole_cards is None,
        forall|i: int| 0 <= i < m.players.len() && m.hand_over && m.street == Street::Showdown
            ==> (#[trigger] visible(m)[i]).hole_cards == m.players[i].hole_cards,
{
}

// ── A call ──────────────────────────────────────────────────────────────────

/// A call by the player to act puts in what is missing to the bet to match,
/// or its whole stack if that is less: its bet becomes the smaller of the bet
/// to match and everything it has (it stays as it was if it already matched);
/// the chips come from its stack into the pot; nothing else changes but the
/// record "calls" with the chips added, and that the caller has acted.
pub proof fn law_call_matches_the_bet(m: GameModel, amount: Option<u32>)
    requires
        table_ok(m),
        chips(m) <= CHIP_LIMIT,
        bets_bounded(m),
    ensures
        ({
            let a = m.action_on as int;
            let p = m.players[a];
            let r = effects(m, Action::Call, amount);
            let q = r.players[a];
            let added = q.current_bet - p.current_bet;
            &&& q.current_bet == (if p.current_bet >= m.street_bet { p.current_bet as int }
                else if m.street_bet <= p.current_bet + p.stack { m.street_bet as int }
                else { p.current_bet + p.stack })
            &&& p.current_bet <= m.street_bet ==> q.current_bet <= m.street_bet
            &&& q.stack == p.stack - added
            &&& q == (PlayerModel { stack: q.stack, current_bet: q.current_bet, ..p })
            &&& r.pot == m.pot + added
            &&& r.players.len() == m.players.len()
            &&& forall|i: int| 0 <= i < m.players.len() && i != a ==> #[trigger] r.players[i] == m.players[i]
            &&& r.street_bet == m.street_bet
            &&& r.action_history == m.action_history.push(RecordModel {
                player_name: p.name, description: "calls "@ + decimal(added as nat) })
            &&& r.needs_action == m.needs_action.update(a, false)
        }),
{
    lemma_stack_total_nonneg_and_bounds(m.players, m.action_on as int);
}

/// A bet by the player to act puts in the amount asked (a big blind when none
/// is given), or its whole stack if that is less; its bet becomes the bet to
/// match, every other player in the hand must act again, and the record
/// "bets" names the chips put in.
pub proof fn law_bet_sets_the_bet(m: GameModel, amount: Option<u32>)
    requires
        table_ok(m),
        chips(m) <= CHIP_LIMIT,
        bets_bounded(m),
    ensures
        ({
            let a = m.action_on as int;
            let p = m.players[a];
            let r = effects(m, Action::Bet, amount);
            let q = r.players[a];
            let asked: int = match amount { Some(x) => x as int, None => m.big_blind as int };
            let added = q.current_bet - p.current_bet;
            &&& added == (if asked <= p.stack { asked } else { p.stack as int })
            &&& q.stack == p.stack - added
            &&& q == (PlayerModel { stack: q.stack, current_bet: q.current_bet, ..p })
            &&& r.pot == m.pot + added
            &&& r.street_bet == q.current_bet
            &&& r.players.len() == m.players.len()
            &&& forall|i: int| 0 <= i < m.players.len() && i != a ==> #[trigger] r.players[i] == m.players[i]
            &&& r.action_history == m.action_history.push(RecordModel {
                player_name: p.name, description: "bets "@ + decimal(added as nat) })
            &&& !r.needs_action[a]
            &&& forall|i: int| 0 <= i < m.players.len() && i != a
                ==> #[trigger] r.needs_action[i] == (is_active(m.players[i]) || m.needs_action[i])
        }),
{
    lemma_stack_total_nonneg_and_bounds(m.players, m.action_on as int);
}

/// A raise by the player to act brings its bet up to the total asked (twice
/// the bet to match when none is given), or as far as its stack allows; a
/// total at or below its bet puts nothing in.  Its bet becomes the bet to
/// match, every other player in the hand must act again, and the record
/// "raises to" names the new bet.
pub proof fn law_raise_sets_the_bet(m: GameModel, amount: Option<u32>)
    requires
        table_ok(m),
        chips(m) <= CHIP_LIMIT,
        bets_bounded(m),
    ensures
        ({
            let a = m.action_on as int;
            let p = m.players[a];
            let r = effects(m, Action::Raise, amount);
            let q = r.players[a];
            let total: int = match amount { Some(x) => x as int, None => (2 * m.street_bet) as u32 as int };
            let added = q.current_bet - p.current_bet;
            &&& q.current_bet == (if total <= p.current_bet { p.current_bet as int }
                else if total <= p.current_bet + p.stack { total }
                else { p.current_bet + p.stack })
            &&& q.stack == p.stack - added
            &&& q == (PlayerModel { stack: q.stack, current_bet: q.current_bet, ..p })
            &&& r.pot == m.pot + added
            &&& r.street_bet == q.current_bet
            &&& r.players.len() == m.players.len()
            &&& forall|i: int| 0 <= i < m.players.len() && i != a ==> #[trigger] r.players[i] == m.players[i]
            &&& r.action_history == m.action_history.push(RecordModel {
                player_name: p.name, description: "raises to "@ + decimal(q.current_bet as nat) })
            &&& !r.needs_action[a]
            &&& forall|i: int| 0 <= i < m.players.len() && i != a
                ==> #[trigger] r.needs_action[i] == (is_active(m.players[i]) || m.needs_action[i])
        }),
{
    lemma_stack_total_nonneg_and_bounds(m.players, m.action_on as int);
}

/// A fold takes the player to act out of the hand and a check passes; neither
/// moves a chip.
pub proof fn law_fold_and_check_move_no_chips(m: GameModel, amount: Option<u32>)
    requires
        table_ok(m),
    ensures
        ({
            let a = m.action_on as int;
            let p = m.players[a];
            let f = effects(m, Action::Fold, amount);
            let c = effects(m, Action::Check, amount);
            &&& f.players == m.players.update(a, PlayerModel { status: PlayerStatus::Folded, ..p })
            &&& f.pot == m.pot && f.street_bet == m.street_bet
            &&& f.action_history == m.action_history.push(RecordModel { player_name: p.name, description: "folds"@ })
            &&& f.needs_action == m.needs_action.update(a, false)
            &&& c.players == m.players
            &&& c.pot == m.pot && c.street_bet == m.street_bet
            &&& c.action_history == m.action_history.push(RecordModel { player_name: p.name, description: "checks"@ })
            &&& c.needs_action == m.needs_action.update(a, false)
        }),
{
}

// ── A simulated street ──────────────────────────────────────────────────────

/// What a bot may do in a simulated street: fold, but only facing a bet, and
/// with nothing else changed; or put in what is missing to the bet to match,
/// up to its whole stack, so that its bet becomes the smaller of the bet to
/// match and everything it has.  A seat out of the hand, and the hero's, are
/// left as they are.
pub open spec fn sim_played(p: PlayerModel, q: PlayerModel, street_bet: u32) -> bool {
    if !is_active(p) || p.is_hero {
        q == p
    } else {
        ||| q == PlayerModel { status: PlayerStatus::Folded, ..p } && p.current_bet < street_bet
        ||| q == PlayerModel { stack: q.stack, current_bet: q.current_bet, ..p }
            && q.current_bet + q.stack == p.current_bet + p.stack
            && q.current_bet == (if p.current_bet >= street_bet { p.current_bet as int }
                else if street_bet <= p.current_bet + p.stack { street_bet as int }
                else { p.current_bet + p.stack })
    }
}

/// A seat that must act, still as it was: in the hand and not the hero.
pub open spec fn sim_waiting(t: TableModel, needs: Seq<bool>, j: int) -> bool {
    needs[j] ==> is_active(t.players[j]) && !t.players[j].is_hero
}

/// The seat visited `o` seats after `first` at a table of `n`.
pub open spec fn seat_at(first: int, o: int, n: int) -> int {
    (first + o) % n
}

/// Seat `j` is visited at some offset from `offset` on.
pub open spec fn visited_from(first: int, n: int, offset: int, j: int) -> bool {
    exists|o: int| offset <= o < n && #[trigger] seat_at(first, o, n) == j
}

proof fn lemma_sim_from_seats(t: TableModel, needs: Seq<bool>, first: int, street_bet: u32, rolls: Seq<u32>,
    n: int, offset: int)
    requires
        n == t.players.len() > 0,
        needs.len() == n,
        first >= 0,
        0 <= offset <= n,
        forall|j: int| 0 <= j < n ==> #[trigger] sim_waiting(t, needs, j),
        forall|j: int| 0 <= j < n ==> (#[trigger] t.players[j]).current_bet + t.players[j].stack <= u32::MAX,
    ensures
        ({
            let r = sim_from(t, needs, first, street_bet, rolls, n, offset);
            &&& r.players.len() == n
            &&& forall|j: int| 0 <= j < n && !needs[j] ==> #[trigger] r.players[j] == t.players[j]
            &&& forall|j: int| 0 <= j < n && needs[j] && visited_from(first, n, offset, j)
                ==> sim_played(t.players[j], #[trigger] r.players[j], street_bet)
            &&& forall|j: int| 0 <= j < n && needs[j] && !visited_from(first, n, offset, j)
                ==> #[trigger] r.players[j] == t.players[j]
        }),
    decreases n - offset,
{
    if offset < n {
        let i = (first + offset) % n;
        let (t2, needs2) = sim_seat(t, needs, i, street_bet, rolls[i]);
        assert(sim_waiting(t, needs, i));
        assert forall|j: int| 0 <= j < n implies #[trigger] sim_waiting(t2, needs2, j) by {
            assert(sim_waiting(t, needs, j));
        }
        assert forall|j: int| 0 <= j < n implies (#[trigger] t2.players[j]).current_bet + t2.players[j].stack <= u32::MAX by {
            assert(t.players[j].current_bet + t.players[j].stack <= u32::MAX);
        }
        if needs[i] {
            assert(sim_played(t.players[i], t2.players[i], street_bet));
        }
        lemma_sim_from_seats(t2, needs2, first, street_bet, rolls, n, offset + 1);
        let r = sim_from(t, needs, first, street_bet, rolls, n, offset);
        assert(r == sim_from(t2, needs2, first, street_bet, rolls, n, offset + 1));
        assert forall|j: int| 0 <= j < n && needs[j] && visited_from(first, n, offset, j)
            implies sim_played(t.players[j], #[trigger] r.players[j], street_bet) by {
            if j == i {
                assert(!needs2[j]);
            } else {
                let o = choose|o: int| offset <= o < n && #[trigger] seat_at(first, o, n) == j;
                assert(o != offset);
                assert(visited_from(first, n, offset + 1, j));
                assert(needs2[j] && t2.players[j] == t.players[j]);
            }
        }
        assert forall|j: int| 0 <= j < n && needs[j] && !visited_from(first, n, offset, j)
            implies #[trigger] r.players[j] == t.players[j] by {
            assert(seat_at(first, offset, n) == i);
            assert(j != i);
            if visited_from(first, n, offset + 1, j) {
                let o = choose|o: int| offset + 1 <= o < n && #[trigger] seat_at(first, o, n) == j;
                assert(offset <= o < n && seat_at(first, o, n) == j);
            }
        }
    }
}

/// In a street simulated with the bots alone, every bot in the hand either
/// folds facing a bet or puts in what is missing to the bet to match (up to
/// its stack); the hero and the seats out of the hand are left as they are.
pub proof fn law_simulated_bots_call_the_bet(t: TableModel, button: usize, street_bet: u32, is_preflop: bool,
    rolls: Seq<u32>)
    requires
        0 < t.players.len() <= usize::MAX,
        button < t.players.len(),
        forall|j: int| 0 <= j < t.players.len() ==> (#[trigger] t.players[j]).current_bet + t.players[j].stack <= u32::MAX,
    ensures
        simulated(t, button, street_bet, is_preflop, rolls).players.len() == t.players.len(),
        forall|j: int| 0 <= j < t.players.len()
            ==> sim_played(t.players[j], #[trigger] simulated(t, button, street_bet, is_preflop, rolls).players[j], street_bet),
{
    let n = t.players.len() as int;
    let needs = Seq::new(t.players.len(), |i: int| is_active(t.players[i]) && !t.players[i].is_hero);
    let first = sim_first(t.players, button, is_preflop) as int;
    assert forall|j: int| 0 <= j < n implies #[trigger] sim_waiting(t, needs, j) by {}
    lemma_sim_from_seats(t, needs, first, street_bet, rolls, n, 0);
    let r = simulated(t, button, street_bet, is_preflop, rolls);
    assert(r == sim_from(t, needs, first, street_bet, rolls, n, 0));
    assert forall|j: int| 0 <= j < n implies sim_played(t.players[j], #[trigger] r.players[j], street_bet) by {
        if needs[j] {
            // Some seat in the hand: the first to act is a seat of the table.
            assert(first < n) by {
                if !is_preflop {
                    assert(is_active(t.players[j]));
                    crate::engine::lemma_active_indices_props(t.players);
                    assert(active_indices(t.players).len() > 0) by {
                        assert(active_indices(t.players).contains(j as usize));
                    }
                    lemma_first_actor_bound(button, t.players);
                }
            }
            let o = if j >= first { j - first } else { j + n - first };
            if j >= first {
                vstd::arithmetic::div_mod::lemma_small_mod(j as nat, n as nat);
            } else {
                vstd::arithmetic::div_mod::lemma_mod_add_multiples_vanish(j, n);
                vstd::arithmetic::div_mod::lemma_small_mod(j as nat, n as nat);
            }
            assert(seat_at(first, o, n) == j);
            assert(visited_from(first, n, 0, j));
        }
    }
}

} // verus!
