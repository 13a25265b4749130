//! Table rules that do not change the state: seat names, who acts first after
//! the flop, and what the hero may do.

use vstd::prelude::*;
use crate::state::{LegalActions, Player};

verus! {

/// The seat name for a seat `offset` places after the button at a table of
/// `num_players`.
pub open spec fn position_text(offset: usize, num_players: usize) -> Seq<char> {
    if offset == 0 {
        "BTN"@
    } else if offset == 1 {
        "SB"@
    } else if offset == 2 {
        "BB"@
    } else if offset == 3 {
        "UTG"@
    } else if offset == 4 && num_players == 5 {
        "CO"@
    } else if offset == 4 && num_players == 6 {
        "HJ"@
    } else if offset == 5 && num_players == 6 {
        "CO"@
    } else {
        "MP"@
    }
}

/// Offset 0 is the button, 1 the small blind, 2 the big blind.
pub fn position_name(offset_from_btn: usize, num_players: usize) -> (s: &'static str)
    ensures
        s@ == position_text(offset_from_btn, num_players),
{
    if offset_from_btn == 0 {
        "BTN"
    } else if offset_from_btn == 1 {
        "SB"
    } else if offset_from_btn == 2 {
        "BB"
    } else if offset_from_btn == 3 {
        "UTG"
    } else if offset_from_btn == 4 && num_players == 5 {
        "CO"
    } else if offset_from_btn == 4 && num_players == 6 {
        "HJ"
    } else if offset_from_btn == 5 && num_players == 6 {
        "CO"
    } else {
        "MP"
    }
}

/// The first seat among `start + offset, start + offset + 1, ..., start + n`
/// (taken modulo `n`) that `active` lists.
pub open spec fn seat_search(start: int, active: Seq<usize>, n: int, offset: int) -> Option<usize>
    decreases n + 1 - offset,
{
    if offset > n || n <= 0 {
        None
    } else {
        let idx = ((start + offset) % n) as usize;
        if active.contains(idx) {
            Some(idx)
        } else {
            seat_search(start, active, n, offset + 1)
        }
    }
}

/// The first listed seat clockwise from the seat after the button; the first
/// listed seat when none is found that way.
pub open spec fn first_actor(button_pos: usize, active: Seq<usize>, n: usize) -> usize {
    match seat_search(button_pos as int, active, n as int, 1) {
        Some(i) => i,
        None => active[0],
    }
}

fn slice_contains(s: &[usize], x: usize) -> (r: bool)
    ensures
        r == s@.contains(x),
{
    let mut i: usize = 0;
    while i < s.len()
        invariant
            i <= s@.len(),
            forall|j: int| 0 <= j < i ==> s@[j] != x,
        decreases s.len() - i,
    {
        if s[i] == x {
            return true;
        }
        i = i + 1;
    }
    false
}

/// The first seat to act after the flop among the `active` seats.
pub fn first_post_flop_actor_list(button_pos: usize, active: &[usize], n: usize) -> (r: usize)
    requires
        active@.len() > 0,
        button_pos + n < usize::MAX,
    ensures
        r == first_actor(button_pos, active@, n),
{
    let mut offset: usize = 1;
    while offset <= n
        invariant
            1 <= offset <= n + 1,
            button_pos + n < usize::MAX,
            seat_search(button_pos as int, active@, n as int, offset as int)
                == seat_search(button_pos as int, active@, n as int, 1),
        decreases n + 1 - offset,
    {
        let idx = (button_pos + offset) % n;
        if slice_contains(active, idx) {
            return idx;
        }
        offset = offset + 1;
    }
    active[0]
}

/// The larger of the two raise floors: twice the bet, or the bet plus a big blind.
pub open spec fn min_raise_for(street_bet: u32, big_blind: u32) -> int {
    if street_bet * 2 >= street_bet + big_blind {
        street_bet * 2
    } else {
        street_bet + big_blind
    }
}

/// What a player with `stack` behind and `current_bet` in front may do
/// facing `street_bet`.
pub open spec fn legal_for(stack: u32, current_bet: u32, street_bet: u32, big_blind: u32) -> LegalActions {
    let to_call = street_bet.saturating_sub(current_bet);
    let call_amount = if to_call <= stack { to_call } else { stack };
    let facing_bet = street_bet > 0 && street_bet > current_bet;
    let min_raise = min_raise_for(street_bet, big_blind);
    LegalActions {
        can_fold: facing_bet,
        can_check: !facing_bet,
        can_call: facing_bet && call_amount > 0,
        call_amount,
        can_bet: !facing_bet && stack >= big_blind,
        min_bet: big_blind,
        can_raise: facing_bet && stack >= min_raise,
        min_raise: min_raise as u32,
        max_amount: stack,
    }
}

pub fn compute_legal(players: &[Player], actor: usize, street_bet: u32, big_blind: u32) -> (l: LegalActions)
    requires
        actor < players@.len(),
        street_bet * 2 <= u32::MAX,
        street_bet + big_blind <= u32::MAX,
    ensures
        l == legal_for(players@[actor as int].stack, players@[actor as int].current_bet, street_bet, big_blind),
{
    let p = &players[actor];
    let to_call = street_bet.saturating_sub(p.current_bet);
    let call_amount = if to_call <= p.stack { to_call } else { p.stack };
    let facing_bet = street_bet > 0 && street_bet > p.current_bet;
    let min_bet = big_blind;
    let min_raise = if street_bet * 2 >= street_bet + big_blind { street_bet * 2 } else { street_bet + big_blind };
    LegalActions {
        can_fold: facing_bet,
        can_check: !facing_bet,
        can_call: facing_bet && call_amount > 0,
        call_amount,
        can_bet: !facing_bet && p.stack >= min_bet,
        min_bet,
        can_raise: facing_bet && p.stack >= min_raise,
        min_raise,
        max_amount: p.stack,
    }
}

/// Nothing allowed: the summary shown while a bot is to act.
pub open spec fn no_actions() -> LegalActions {
    LegalActions {
        can_fold: false,
        can_check: false,
        can_call: false,
        call_amount: 0,
        can_bet: false,
        min_bet: 0,
        can_raise: false,
        min_raise: 0,
        max_amount: 0,
    }
}

pub fn default_legal() -> (l: LegalActions)
    ensures
        l == no_actions(),
{
    LegalActions {
        can_fold: false,
        can_check: false,
        can_call: false,
        call_amount: 0,
        can_bet: false,
        min_bet: 0,
        can_raise: false,
        min_raise: 0,
        max_amount: 0,
    }
}

/// Exactly one of check and fold is open to the hero, the call never exceeds
/// the stack, and a call is offered only when a bet is faced.
pub proof fn lemma_legal_actions_consistent(stack: u32, current_bet: u32, street_bet: u32, big_blind: u32)
    ensures
        ({
            let l = legal_for(stack, current_bet, street_bet, big_blind);
            &&& l.can_check == !l.can_fold
            &&& l.call_amount <= stack
            &&& l.can_call ==> l.can_fold
            &&& l.can_bet ==> !l.can_raise
            &&& l.max_amount == stack
        }),
{
}

} // verus!
