//! What the table shows the hero.

use vstd::prelude::*;
use crate::state::{GameModel, GameState, Player, PlayerModel, Street, players_model};

verus! {

/// The players as the hero sees them: other players' hole cards stay hidden
/// until the hand has ended at a showdown.
pub open spec fn visible(m: GameModel) -> Seq<PlayerModel> {
    let at_showdown = m.hand_over && m.street == Street::Showdown;
    Seq::new(m.players.len(), |i: int| PlayerModel {
        hole_cards: if m.players[i].is_hero || at_showdown { m.players[i].hole_cards } else { None },
        ..m.players[i]
    })
}

/// The players as shown to the hero.
pub fn visible_players(state: &GameState) -> (r: Vec<Player>)
    ensures
        players_model(r@) == visible(state@),
{
    let at_showdown = state.hand_over && state.street == Street::Showdown;
    let ghost pm = players_model(state.players@);
    let mut r: Vec<Player> = Vec::with_capacity(state.players.len());
    let mut i: usize = 0;
    while i < state.players.len()
        invariant
            i <= state.players@.len(),
            pm == players_model(state.players@),
            at_showdown == (state.hand_over && state.street == Street::Showdown),
            r@.len() == i,
            forall|j: int| 0 <= j < i ==> (#[trigger] r@[j])@ == visible(state@)[j],
        decreases state.players.len() - i,
    {
        let p = &state.players[i];
        assert(pm[i as int] == p@);
        let q = Player {
            id: p.id,
            name: p.name.clone(),
            position: p.position.clone(),
            stack: p.stack,
            hole_cards: if p.is_hero || at_showdown { p.hole_cards } else { None },
            is_hero: p.is_hero,
            status: p.status,
            current_bet: p.current_bet,
        };
        r.push(q);
        i = i + 1;
    }
    assert(players_model(r@) =~= visible(state@));
    r
}

} // verus!
