//! The table: players, the action history, the legal-action summary shown to
//! the hero, and the whole game state, each with its mathematical model.

use vstd::prelude::*;
use crate::cards::Card;

verus! {

/// The betting rounds of a hand.
#[derive(Clone, Copy, Debug, PartialEq, Eq, Structural)]
pub enum Street {
    Preflop,
    Flop,
    Turn,
    River,
    Showdown,
}

/// Whether a player is still in the hand.
#[derive(Clone, Copy, Debug, PartialEq, Eq, Structural)]
pub enum PlayerStatus {
    Active,
    Folded,
    AllIn,
}

/// A seat at the table.
#[derive(Clone, Debug)]
pub struct Player {
    pub id: usize,
    pub name: String,
    pub position: String,
    pub stack: u32,
    pub hole_cards: Option<[Card; 2]>,
    pub is_hero: bool,
    pub status: PlayerStatus,
    pub current_bet: u32,
}

/// One line of the action history.
#[derive(Clone, Debug)]
pub struct ActionRecord {
    pub player_name: String,
    pub description: String,
}

/// What the hero may do, with the amounts involved.
#[derive(Clone, Copy, Debug, PartialEq, Eq, Structural)]
pub struct LegalActions {
    pub can_fold: bool,
    pub can_check: bool,
    pub can_call: bool,
    pub call_amount: u32,
    pub can_bet: bool,
    pub min_bet: u32,
    pub can_raise: bool,
    pub min_raise: u32,
    pub max_amount: u32,
}

/// One sampled trial of an equity run, for display.
#[derive(Clone, Debug)]
pub struct SampleTrial {
    pub extra_community: Vec<Card>,
    pub opponent_cards: Vec<Card>,
    pub hero_rank: String,
    pub best_opp_rank: String,
    pub result: String,
}

/// The situation at one of the hero's decisions, kept for the post-hand review.
#[derive(Clone, Debug)]
pub struct DecisionSnapshot {
    pub street: String,
    pub pot: u32,
    pub call_amount: u32,
    pub action_taken: String,
    pub community_cards: Vec<Card>,
    pub hero_hole_cards: [Card; 2],
    pub active_opponents: usize,
}

/// The whole state of a hand.
pub struct GameState {
    pub players: Vec<Player>,
    pub board: Vec<Card>,
    pub community_cards: Vec<Card>,
    pub pot: u32,
    pub street: Street,
    pub button_pos: usize,
    pub small_blind: u32,
    pub big_blind: u32,
    pub action_history: Vec<ActionRecord>,
    pub hero_to_act: bool,
    pub street_bet: u32,
    pub action_on: usize,
    pub needs_action: Vec<bool>,
    pub hand_over: bool,
    pub result_message: Option<String>,
    pub legal_actions: LegalActions,
    pub decision_snapshots: Vec<DecisionSnapshot>,
}

// ── Models ────────────────────────────────────────────────────────────────────

/// A player with its texts taken as character sequences.
#[verifier::ext_equal]
pub struct PlayerModel {
    pub id: usize,
    pub name: Seq<char>,
    pub position: Seq<char>,
    pub stack: u32,
    pub hole_cards: Option<[Card; 2]>,
    pub is_hero: bool,
    pub status: PlayerStatus,
    pub current_bet: u32,
}

/// A history line as two character sequences.
#[verifier::ext_equal]
pub struct RecordModel {
    pub player_name: Seq<char>,
    pub description: Seq<char>,
}

/// A decision snapshot with its texts and cards as sequences.
#[verifier::ext_equal]
pub struct SnapshotModel {
    pub street: Seq<char>,
    pub pot: u32,
    pub call_amount: u32,
    pub action_taken: Seq<char>,
    pub community_cards: Seq<Card>,
    pub hero_hole_cards: [Card; 2],
    pub active_opponents: usize,
}

/// The model of a game state.
#[verifier::ext_equal]
pub struct GameModel {
    pub players: Seq<PlayerModel>,
    pub board: Seq<Card>,
    pub community_cards: Seq<Card>,
    pub pot: u32,
    pub street: Street,
    pub button_pos: usize,
    pub small_blind: u32,
    pub big_blind: u32,
    pub action_history: Seq<RecordModel>,
    pub hero_to_act: bool,
    pub street_bet: u32,
    pub action_on: usize,
    pub needs_action: Seq<bool>,
    pub hand_over: bool,
    pub result_message: Option<Seq<char>>,
    pub legal_actions: LegalActions,
    pub decision_snapshots: Seq<SnapshotModel>,
}

/// A sampled trial with its texts and cards as sequences.
#[verifier::ext_equal]
pub struct SampleModel {
    pub extra_community: Seq<Card>,
    pub opponent_cards: Seq<Card>,
    pub hero_rank: Seq<char>,
    pub best_opp_rank: Seq<char>,
    pub result: Seq<char>,
}

impl View for SampleTrial {
    type V = SampleModel;

    open spec fn view(&self) -> SampleModel {
        SampleModel {
            extra_community: self.extra_community@,
            opponent_cards: self.opponent_cards@,
            hero_rank: self.hero_rank@,
            best_opp_rank: self.best_opp_rank@,
            result: self.result@,
        }
    }
}

impl View for Player {
    type V = PlayerModel;

    open spec fn view(&self) -> PlayerModel {
        PlayerModel {
            id: self.id,
            name: self.name@,
            position: self.position@,
            stack: self.stack,
            hole_cards: self.hole_cards,
            is_hero: self.is_hero,
            status: self.status,
            current_bet: self.current_bet,
        }
    }
}

impl View for ActionRecord {
    type V = RecordModel;

    open spec fn view(&self) -> RecordModel {
        RecordModel { player_name: self.player_name@, description: self.description@ }
    }
}

impl View for DecisionSnapshot {
    type V = SnapshotModel;

    open spec fn view(&self) -> SnapshotModel {
        SnapshotModel {
            street: self.street@,
            pot: self.pot,
            call_amount: self.call_amount,
            action_taken: self.action_taken@,
            community_cards: self.community_cards@,
            hero_hole_cards: self.hero_hole_cards,
            active_opponents: self.active_opponents,
        }
    }
}

pub open spec fn players_model(ps: Seq<Player>) -> Seq<PlayerModel> {
    ps.map_values(|p: Player| p@)
}

pub open spec fn records_model(rs: Seq<ActionRecord>) -> Seq<RecordModel> {
    rs.map_values(|r: ActionRecord| r@)
}

pub open spec fn snapshots_model(ss: Seq<DecisionSnapshot>) -> Seq<SnapshotModel> {
    ss.map_values(|s: DecisionSnapshot| s@)
}

pub open spec fn message_model(m: Option<String>) -> Option<Seq<char>> {
    match m {
        Some(s) => Some(s@),
        None => None,
    }
}

impl View for GameState {
    type V = GameModel;

    open spec fn view(&self) -> GameModel {
        GameModel {
            players: players_model(self.players@),
            board: self.board@,
            community_cards: self.community_cards@,
            pot: self.pot,
            street: self.street,
            button_pos: self.button_pos,
            small_blind: self.small_blind,
            big_blind: self.big_blind,
            action_history: records_model(self.action_history@),
            hero_to_act: self.hero_to_act,
            street_bet: self.street_bet,
            action_on: self.action_on,
            needs_action: self.needs_action@,
            hand_over: self.hand_over,
            result_message: message_model(self.result_message),
            legal_actions: self.legal_actions,
            decision_snapshots: snapshots_model(self.decision_snapshots@),
        }
    }
}

} // verus!
