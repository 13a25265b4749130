//! Monte Carlo equity: the cards left to deal, one dealt trial, and the count
//! of wins, ties and losses over many shuffles.

use vstd::prelude::*;
use crate::cards::{Card, full_deck, deck_card};
use crate::engine::count_opponents;
use crate::play::{opponent_count, shown_cards};
use crate::rank::{HandRank, hand_rank, codes, rank_key, rank_cards, beats, ties, category_name, category_label};
use crate::random::shuffle_cards;
use crate::state::{GameState, Player, PlayerModel, SampleModel, SampleTrial, players_model};

verus! {

/// How one trial ended for the hero.
#[derive(Clone, Copy, Debug, PartialEq, Eq, Structural)]
pub enum TrialResult {
    Win,
    Tie,
    Lose,
}

/// Wins, ties and losses over a run of trials.
#[derive(Clone, Copy, Debug, PartialEq, Eq, Structural)]
pub struct Tally {
    pub wins: u32,
    pub ties: u32,
    pub losses: u32,
}

/// A card the hero holds or that is on the board.
pub open spec fn in_use(hero: [Card; 2], community: Seq<Card>, c: Card) -> bool {
    hero@.contains(c) || community.contains(c)
}

/// The cards of `cards` that are not in use, in order.
pub open spec fn unused_cards(cards: Seq<Card>, hero: [Card; 2], community: Seq<Card>) -> Seq<Card>
    decreases cards.len(),
{
    if cards.len() == 0 {
        Seq::empty()
    } else {
        let rest = unused_cards(cards.drop_last(), hero, community);
        if in_use(hero, community, cards.last()) { rest } else { rest.push(cards.last()) }
    }
}

pub open spec fn fresh_deck() -> Seq<Card> {
    Seq::new(52, |i: int| deck_card(i))
}

/// The fresh deck without the hero's cards and the board.
pub open spec fn remaining_cards(hero: [Card; 2], community: Seq<Card>) -> Seq<Card> {
    unused_cards(fresh_deck(), hero, community)
}

/// The cards one trial deals: the rest of the board and two per opponent.
pub open spec fn cards_per_trial(community: Seq<Card>, opponents: int) -> int {
    2 * opponents + (5 - community.len())
}

/// Whether `left` cards are too few to deal `to_come` board cards and two to
/// each of `opponents`; computed without forming the (possibly huge) total.
fn too_few_cards(left: usize, to_come: usize, opponents: usize) -> (r: bool)
    ensures
        r == (left < 2 * opponents + to_come),
{
    left < to_come || (left - to_come) / 2 < opponents
}

fn card_in(c: Card, cards: &[Card]) -> (r: bool)
    ensures
        r == cards@.contains(c),
{
    let mut i: usize = 0;
    while i < cards.len()
        invariant
            i <= cards@.len(),
            forall|j: int| 0 <= j < i ==> cards@[j] != c,
        decreases cards.len() - i,
    {
        if cards[i].rank == c.rank && cards[i].suit == c.suit {
            assert(cards@[i as int] == c);
            return true;
        }
        i = i + 1;
    }
    false
}

/// The cards left to deal.
pub fn remaining_deck(hero: &[Card; 2], community: &[Card]) -> (r: Vec<Card>)
    ensures
        r@ == remaining_cards(*hero, community@),
{
    let deck = full_deck();
    assert(deck@ =~= fresh_deck());
    let mut r: Vec<Card> = Vec::new();
    let mut i: usize = 0;
    while i < deck.len()
        invariant
            i <= deck@.len(),
            deck@ == fresh_deck(),
            r@ == unused_cards(deck@.take(i as int), *hero, community@),
        decreases deck.len() - i,
    {
        assert(deck@.take(i + 1).drop_last() =~= deck@.take(i as int));
        let c = deck[i];
        if !(card_in(c, hero.as_slice()) || card_in(c, community)) {
            r.push(c);
        }
        i = i + 1;
    }
    assert(deck@.take(deck@.len() as int) =~= deck@);
    r
}

/// The best of the first `j` opponents' hands; the deal gives opponent `q`
/// the cards at `k + 2q` and `k + 2q + 1`.
pub open spec fn opponents_best(deal: Seq<Card>, k: int, board: Seq<Card>, j: int) -> Option<HandRank>
    decreases j,
{
    if j <= 0 {
        None
    } else {
        let prev = opponents_best(deal, k, board, j - 1);
        let r = hand_rank(codes(shown_cards([deal[k + 2 * (j - 1)], deal[k + 2 * (j - 1) + 1]], board)));
        match prev {
            None => Some(r),
            Some(b) => if rank_key(r) > rank_key(b) { Some(r) } else { Some(b) },
        }
    }
}

/// One trial: the deal completes the board with its first cards, then gives
/// each opponent two; the hero wins, ties or loses against the best of them.
pub open spec fn trial_result(hero: [Card; 2], community: Seq<Card>, deal: Seq<Card>, opponents: int) -> TrialResult {
    let k = 5 - community.len();
    let board = community + deal.take(k);
    let h = hand_rank(codes(shown_cards(hero, board)));
    match opponents_best(deal, k, board, opponents) {
        None => TrialResult::Win,
        Some(b) => if rank_key(h) > rank_key(b) {
            TrialResult::Win
        } else if rank_key(h) == rank_key(b) {
            TrialResult::Tie
        } else {
            TrialResult::Lose
        },
    }
}

fn board_with(community: &[Card], deal: &Vec<Card>, k: usize) -> (b: Vec<Card>)
    requires
        k <= deal@.len(),
    ensures
        b@ == community@ + deal@.take(k as int),
{
    let mut b: Vec<Card> = Vec::new();
    let mut i: usize = 0;
    while i < community.len()
        invariant
            i <= community@.len(),
            b@ =~= community@.take(i as int),
        decreases community.len() - i,
    {
        b.push(community[i]);
        i = i + 1;
        assert(b@ =~= community@.take(i as int));
    }
    assert(community@.take(community@.len() as int) =~= community@);
    let mut j: usize = 0;
    while j < k
        invariant
            j <= k <= deal@.len(),
            b@ =~= community@ + deal@.take(j as int),
        decreases k - j,
    {
        b.push(deal[j]);
        j = j + 1;
        assert(b@ =~= community@ + deal@.take(j as int));
    }
    b
}

fn hand_cards(a: Card, b: Card, board: &Vec<Card>) -> (v: Vec<Card>)
    ensures
        v@ == shown_cards([a, b], board@),
{
    let mut v: Vec<Card> = Vec::with_capacity(7);
    v.push(a);
    v.push(b);
    let mut i: usize = 0;
    while i < board.len()
        invariant
            i <= board@.len(),
            v@ =~= seq![a, b] + board@.take(i as int),
        decreases board.len() - i,
    {
        v.push(board[i]);
        i = i + 1;
        assert(v@ =~= seq![a, b] + board@.take(i as int));
    }
    assert(board@.take(board@.len() as int) =~= board@);
    assert([a, b]@ =~= seq![a, b]);
    v
}

/// Plays one trial on a dealt (shuffled) deck.
pub fn trial_outcome(hero: &[Card; 2], community: &[Card], deal: &Vec<Card>, num_opps: usize) -> (r: TrialResult)
    requires
        community@.len() <= 5,
        deal@.len() >= cards_per_trial(community@, num_opps as int),
    ensures
        r == trial_result(*hero, community@, deal@, num_opps as int),
{
    let k = 5 - community.len();
    let board = board_with(community, deal, k);
    let hc = hand_cards(hero[0], hero[1], &board);
    assert(hero@ =~= seq![hero@[0], hero@[1]]);
    assert(shown_cards([hero@[0], hero@[1]], board@) == shown_cards(*hero, board@));
    let hero_score = rank_cards(hc.as_slice());
    let mut best: Option<HandRank> = None;
    let mut idx: usize = k;
    let mut j: usize = 0;
    while j < num_opps
        invariant
            j <= num_opps,
            idx == k + 2 * j,
            k == 5 - community@.len(),
            deal.len() >= cards_per_trial(community@, num_opps as int),
            board@ == community@ + deal@.take(k as int),
            best == opponents_best(deal@, k as int, board@, j as int),
            best matches Some(b) ==> b.sub < 4096,
        decreases num_opps - j,
    {
        let c1 = deal[idx];
        let c2 = deal[idx + 1];
        let oc = hand_cards(c1, c2, &board);
        let score = rank_cards(oc.as_slice());
        best = match best {
            None => Some(score),
            Some(b) => if beats(score, b) { Some(score) } else { Some(b) },
        };
        idx = idx + 2;
        j = j + 1;
    }
    match best {
        None => TrialResult::Win,
        Some(b) => if beats(hero_score, b) {
            TrialResult::Win
        } else if ties(hero_score, b) {
            TrialResult::Tie
        } else {
            TrialResult::Lose
        },
    }
}

/// How many of the decks give `which`.
pub open spec fn count_results(hero: [Card; 2], community: Seq<Card>, decks: Seq<Seq<Card>>, opponents: int,
    which: TrialResult) -> nat
    decreases decks.len(),
{
    if decks.len() == 0 {
        0
    } else {
        count_results(hero, community, decks.drop_last(), opponents, which)
            + if trial_result(hero, community, decks.last(), opponents) == which { 1nat } else { 0nat }
    }
}

/// The tally is that of `trials` shuffles of the remaining cards.
pub open spec fn tally_of_shuffles(t: Tally, hero: [Card; 2], community: Seq<Card>, opponents: int, trials: int) -> bool {
    exists|decks: Seq<Seq<Card>>| {
        &&& decks.len() == trials
        &&& forall|i: int| 0 <= i < trials ==> (#[trigger] decks[i]).to_multiset() == remaining_cards(hero, community).to_multiset()
        &&& t.wins == count_results(hero, community, decks, opponents, TrialResult::Win)
        &&& t.ties == count_results(hero, community, decks, opponents, TrialResult::Tie)
        &&& t.losses == count_results(hero, community, decks, opponents, TrialResult::Lose)
    }
}

pub proof fn lemma_counts_sum(hero: [Card; 2], community: Seq<Card>, decks: Seq<Seq<Card>>, opponents: int)
    ensures
        count_results(hero, community, decks, opponents, TrialResult::Win)
            + count_results(hero, community, decks, opponents, TrialResult::Tie)
            + count_results(hero, community, decks, opponents, TrialResult::Lose) == decks.len(),
    decreases decks.len(),
{
    if decks.len() > 0 {
        lemma_counts_sum(hero, community, decks.drop_last(), opponents);
    }
}

/// Counts wins, ties and losses of the hero over `trials` shuffles of the
/// cards left; `None` when too few cards are left for one trial.
pub fn monte_carlo_counts(hero: &[Card; 2], community: &[Card], num_opps: usize, trials: usize) -> (r: Option<Tally>)
    requires
        community@.len() <= 5,
        trials <= u32::MAX,
    ensures
        r is None <==> remaining_cards(*hero, community@).len() < cards_per_trial(community@, num_opps as int),
        r matches Some(t) ==> t.wins + t.ties + t.losses == trials
            && tally_of_shuffles(t, *hero, community@, num_opps as int, trials as int),
{
    let mut remaining = remaining_deck(hero, community);
    let ghost rem0 = remaining@;
    let cards_needed = 5 - community.len();
    if too_few_cards(remaining.len(), cards_needed, num_opps) {
        return None;
    }
    let mut wins: u32 = 0;
    let mut ties_: u32 = 0;
    let mut losses: u32 = 0;
    let ghost mut decks: Seq<Seq<Card>> = Seq::empty();
    let mut t: usize = 0;
    while t < trials
        invariant
            t <= trials <= u32::MAX,
            community@.len() <= 5,
            remaining@.len() == rem0.len() >= cards_per_trial(community@, num_opps as int),
            remaining@.to_multiset() == rem0.to_multiset(),
            rem0 == remaining_cards(*hero, community@),
            decks.len() == t,
            forall|i: int| 0 <= i < t ==> (#[trigger] decks[i]).to_multiset() == rem0.to_multiset(),
            wins == count_results(*hero, community@, decks, num_opps as int, TrialResult::Win),
            ties_ == count_results(*hero, community@, decks, num_opps as int, TrialResult::Tie),
            losses == count_results(*hero, community@, decks, num_opps as int, TrialResult::Lose),
        decreases trials - t,
    {
        proof { lemma_counts_sum(*hero, community@, decks, num_opps as int); }
        shuffle_cards(&mut remaining);
        let r = trial_outcome(hero, community, &remaining, num_opps);
        let ghost old_decks = decks;
        proof {
            decks = decks.push(remaining@);
            assert(decks.drop_last() =~= old_decks);
        }
        match r {
            TrialResult::Win => { wins = wins + 1; },
            TrialResult::Tie => { ties_ = ties_ + 1; },
            TrialResult::Lose => { losses = losses + 1; },
        }
        t = t + 1;
    }
    proof { lemma_counts_sum(*hero, community@, decks, num_opps as int); }
    Some(Tally { wins, ties: ties_, losses })
}


// ── The hero's equity in a game ─────────────────────────────────────────────

/// The first player marked as the hero.
pub open spec fn hero_of(ps: Seq<PlayerModel>) -> Option<PlayerModel>
    decreases ps.len(),
{
    if ps.len() == 0 {
        None
    } else {
        match hero_of(ps.drop_last()) {
            Some(p) => Some(p),
            None => if ps.last().is_hero { Some(ps.last()) } else { None },
        }
    }
}

/// The hero's hole cards, if there is a hero holding cards.
pub open spec fn hero_hand(ps: Seq<PlayerModel>) -> Option<[Card; 2]> {
    match hero_of(ps) {
        Some(p) => p.hole_cards,
        None => None,
    }
}

/// What an equity request comes to.
#[derive(Clone, Copy, Debug, PartialEq, Eq, Structural)]
pub enum EquityOutcome {
    /// No hero, or a hero without cards: the hero loses.
    NoHeroCards,
    /// Nobody left to beat: the hero wins.
    NoOpponents,
    /// Too few cards left to deal a trial: an even split is reported.
    TooFewCards,
    /// The counts of the trials.
    Counted(Tally),
}

fn find_hero_hand(players: &Vec<Player>) -> (r: Option<[Card; 2]>)
    ensures
        r == hero_hand(players_model(players@)),
{
    let ghost pm = players_model(players@);
    let mut i: usize = 0;
    while i < players.len()
        invariant
            i <= players@.len(),
            pm == players_model(players@),
            hero_of(pm.take(i as int)) is None,
        decreases players.len() - i,
    {
        assert(pm.take(i + 1).drop_last() =~= pm.take(i as int));
        assert(pm[i as int] == players@[i as int]@);
        if players[i].is_hero {
            proof { lemma_hero_of_prefix(pm, i as int + 1); }
            return players[i].hole_cards;
        }
        i = i + 1;
    }
    assert(pm.take(players@.len() as int) =~= pm);
    None
}

/// The hero found in a prefix is the hero of the whole table.
pub proof fn lemma_hero_of_prefix(ps: Seq<PlayerModel>, k: int)
    requires
        0 <= k <= ps.len(),
        hero_of(ps.take(k)) is Some,
    ensures
        hero_of(ps) == hero_of(ps.take(k)),
    decreases ps.len() - k,
{
    if k < ps.len() {
        assert(ps.take(k + 1).drop_last() =~= ps.take(k));
        lemma_hero_of_prefix(ps, k + 1);
    } else {
        assert(ps.take(k) =~= ps);
    }
}

/// The hero's equity as counts over `trials` shuffles (the engine uses
/// 10 000), after the checks that decide it without dealing.
pub fn equity_tally(state: &GameState, trials: usize) -> (r: EquityOutcome)
    requires
        hero_hand(players_model(state.players@)) is Some && opponent_count(players_model(state.players@)) > 0
            ==> state.community_cards@.len() <= 5,
        trials <= u32::MAX,
    ensures
        ({
            let pm = players_model(state.players@);
            let opps = opponent_count(pm) as int;
            &&& (r == EquityOutcome::NoHeroCards) <==> hero_hand(pm) is None
            &&& (r == EquityOutcome::NoOpponents) <==> (hero_hand(pm) is Some && opps == 0)
            &&& (r == EquityOutcome::TooFewCards) <==> (hero_hand(pm) is Some && opps > 0
                && remaining_cards(hero_hand(pm)->Some_0, state.community_cards@).len()
                    < cards_per_trial(state.community_cards@, opps))
            &&& r matches EquityOutcome::Counted(t) ==> t.wins + t.ties + t.losses == trials
                && tally_of_shuffles(t, hero_hand(pm)->Some_0, state.community_cards@, opps, trials as int)
        }),
{
    let hero = match find_hero_hand(&state.players) {
        Some(c) => c,
        None => return EquityOutcome::NoHeroCards,
    };
    let num_opponents = count_opponents(&state.players);
    proof { crate::engine::lemma_opponent_count_bound(players_model(state.players@)); }
    if num_opponents == 0 {
        return EquityOutcome::NoOpponents;
    }
    match monte_carlo_counts(&hero, state.community_cards.as_slice(), num_opponents, trials) {
        Some(t) => EquityOutcome::Counted(t),
        None => EquityOutcome::TooFewCards,
    }
}


// ── Equity with sampled trials ──────────────────────────────────────────────

pub open spec fn result_label(r: TrialResult) -> Seq<char> {
    match r {
        TrialResult::Win => "Win"@,
        TrialResult::Tie => "Tie"@,
        TrialResult::Lose => "Lose"@,
    }
}

/// What a sampled trial shows: the cards that completed the board, the first
/// opponent's cards, the classes of the hero's and the best opponent's hands,
/// and the result.
pub open spec fn sample_of(hero: [Card; 2], community: Seq<Card>, deal: Seq<Card>, opponents: int) -> SampleModel {
    let k = 5 - community.len();
    let board = community + deal.take(k);
    let h = hand_rank(codes(shown_cards(hero, board)));
    let best_category = match opponents_best(deal, k, board, opponents) {
        Some(b) => b.category,
        None => hand_rank(codes(Seq::empty())).category,
    };
    SampleModel {
        extra_community: deal.take(k),
        opponent_cards: if opponents > 0 { seq![deal[k], deal[k + 1]] } else { Seq::empty() },
        hero_rank: category_label(h.category),
        best_opp_rank: category_label(best_category),
        result: result_label(trial_result(hero, community, deal, opponents)),
    }
}

fn result_text(r: TrialResult) -> (s: String)
    ensures
        s@ == result_label(r),
{
    match r {
        TrialResult::Win => "Win".to_owned(),
        TrialResult::Tie => "Tie".to_owned(),
        TrialResult::Lose => "Lose".to_owned(),
    }
}

/// Plays one trial and describes it.
pub fn trial_with_sample(hero: &[Card; 2], community: &[Card], deal: &Vec<Card>, num_opps: usize) -> (r: (TrialResult, SampleTrial))
    requires
        community@.len() <= 5,
        deal@.len() >= cards_per_trial(community@, num_opps as int),
    ensures
        r.0 == trial_result(*hero, community@, deal@, num_opps as int),
        r.1@ == sample_of(*hero, community@, deal@, num_opps as int),
{
    let k = 5 - community.len();
    let board = board_with(community, deal, k);
    let extra = crate::engine::copy_prefix(deal, k);
    let hc = hand_cards(hero[0], hero[1], &board);
    assert(hero@ =~= seq![hero@[0], hero@[1]]);
    assert(shown_cards([hero@[0], hero@[1]], board@) == shown_cards(*hero, board@));
    let hero_score = rank_cards(hc.as_slice());
    let mut best: Option<HandRank> = None;
    let mut first_opp_cards: Vec<Card> = Vec::new();
    let mut idx: usize = k;
    let mut j: usize = 0;
    while j < num_opps
        invariant
            j <= num_opps,
            idx == k + 2 * j,
            k == 5 - community@.len(),
            deal.len() >= cards_per_trial(community@, num_opps as int),
            board@ == community@ + deal@.take(k as int),
            best == opponents_best(deal@, k as int, board@, j as int),
            best matches Some(b) ==> b.sub < 4096,
            first_opp_cards@ == (if j > 0 { seq![deal@[k as int], deal@[k + 1]] } else { Seq::<Card>::empty() }),
        decreases num_opps - j,
    {
        let c1 = deal[idx];
        let c2 = deal[idx + 1];
        let oc = hand_cards(c1, c2, &board);
        let score = rank_cards(oc.as_slice());
        best = match best {
            None => Some(score),
            Some(b) => if beats(score, b) { Some(score) } else { Some(b) },
        };
        if j == 0 {
            first_opp_cards = Vec::new();
            first_opp_cards.push(c1);
            first_opp_cards.push(c2);
            assert(first_opp_cards@ =~= seq![deal@[k as int], deal@[k + 1]]);
        }
        idx = idx + 2;
        j = j + 1;
    }
    let result = match best {
        None => TrialResult::Win,
        Some(b) => if beats(hero_score, b) {
            TrialResult::Win
        } else if ties(hero_score, b) {
            TrialResult::Tie
        } else {
            TrialResult::Lose
        },
    };
    let best_category = match best {
        Some(b) => b.category,
        None => {
            let none: Vec<Card> = Vec::new();
            assert(codes(none@) =~= codes(Seq::<Card>::empty()));
            rank_cards(none.as_slice()).category
        },
    };
    let sample = SampleTrial {
        extra_community: extra,
        opponent_cards: first_opp_cards,
        hero_rank: category_name(hero_score.category),
        best_opp_rank: category_name(best_category),
        result: result_text(result),
    };
    assert(sample@ =~= sample_of(*hero, community@, deal@, num_opps as int));
    (result, sample)
}

/// The counts, the sizes involved and the first samples of an equity run.
#[derive(Clone, Debug)]
pub struct DetailCounts {
    /// Whether enough cards were left to deal a trial.
    pub enough: bool,
    pub tally: Tally,
    pub trials: usize,
    pub remaining_deck_size: usize,
    pub cards_to_come: usize,
    pub cards_per_opp: usize,
    pub num_opponents: usize,
    pub sample_trials: Vec<SampleTrial>,
}

pub open spec fn samples_model(ss: Seq<SampleTrial>) -> Seq<SampleModel> {
    ss.map_values(|s: SampleTrial| s@)
}

/// The tally and the samples are those of `trials` shuffles of the cards
/// left: the first five shuffles are the samples.
pub open spec fn detail_of_shuffles(t: Tally, samples: Seq<SampleModel>, hero: [Card; 2], community: Seq<Card>,
    opponents: int, trials: int) -> bool {
    exists|decks: Seq<Seq<Card>>| {
        &&& decks.len() == trials
        &&& forall|i: int| 0 <= i < trials ==> (#[trigger] decks[i]).to_multiset() == remaining_cards(hero, community).to_multiset()
        &&& t.wins == count_results(hero, community, decks, opponents, TrialResult::Win)
        &&& t.ties == count_results(hero, community, decks, opponents, TrialResult::Tie)
        &&& t.losses == count_results(hero, community, decks, opponents, TrialResult::Lose)
        &&& samples.len() == if trials < 5 { trials } else { 5 }
        &&& forall|i: int| 0 <= i < samples.len() ==> #[trigger] samples[i] == sample_of(hero, community, decks[i], opponents)
    }
}

/// Counts wins, ties and losses over `trials` shuffles, keeping the first five
/// trials as samples.
pub fn monte_carlo_detail(hero: &[Card; 2], community: &[Card], num_opps: usize, trials: usize) -> (r: DetailCounts)
    requires
        community@.len() <= 5,
        trials <= u32::MAX,
    ensures
        r.remaining_deck_size == remaining_cards(*hero, community@).len(),
        r.cards_to_come == 5 - community@.len(),
        r.cards_per_opp == 2,
        r.num_opponents == num_opps,
        r.enough <==> remaining_cards(*hero, community@).len() >= cards_per_trial(community@, num_opps as int),
        !r.enough ==> r.tally == (Tally { wins: 0, ties: 0, losses: 0 }) && r.trials == 0 && r.sample_trials@.len() == 0,
        r.enough ==> r.trials == trials && r.tally.wins + r.tally.ties + r.tally.losses == trials
            && detail_of_shuffles(r.tally, samples_model(r.sample_trials@), *hero, community@, num_opps as int, trials as int),
{
    let mut remaining = remaining_deck(hero, community);
    let ghost rem0 = remaining@;
    let cards_to_come = 5 - community.len();
    if too_few_cards(remaining.len(), cards_to_come, num_opps) {
        return DetailCounts {
            enough: false,
            tally: Tally { wins: 0, ties: 0, losses: 0 },
            trials: 0,
            remaining_deck_size: remaining.len(),
            cards_to_come,
            cards_per_opp: 2,
            num_opponents: num_opps,
            sample_trials: Vec::new(),
        };
    }
    let remaining_deck_size = remaining.len();
    let mut wins: u32 = 0;
    let mut ties_: u32 = 0;
    let mut losses: u32 = 0;
    let mut samples: Vec<SampleTrial> = Vec::new();
    let ghost mut decks: Seq<Seq<Card>> = Seq::empty();
    let mut t: usize = 0;
    while t < trials
        invariant
            t <= trials <= u32::MAX,
            community@.len() <= 5,
            remaining@.len() == rem0.len() >= cards_per_trial(community@, num_opps as int),
            remaining@.to_multiset() == rem0.to_multiset(),
            rem0 == remaining_cards(*hero, community@),
            decks.len() == t,
            forall|i: int| 0 <= i < t ==> (#[trigger] decks[i]).to_multiset() == rem0.to_multiset(),
            wins == count_results(*hero, community@, decks, num_opps as int, TrialResult::Win),
            ties_ == count_results(*hero, community@, decks, num_opps as int, TrialResult::Tie),
            losses == count_results(*hero, community@, decks, num_opps as int, TrialResult::Lose),
            samples@.len() == if t < 5 { t } else { 5 },
            forall|i: int| 0 <= i < samples@.len() ==> #[trigger] samples_model(samples@)[i]
                == sample_of(*hero, community@, decks[i], num_opps as int),
        decreases trials - t,
    {
        proof { lemma_counts_sum(*hero, community@, decks, num_opps as int); }
        shuffle_cards(&mut remaining);
        let (r, sample) = trial_with_sample(hero, community, &remaining, num_opps);
        let ghost old_decks = decks;
        proof {
            decks = decks.push(remaining@);
            assert(decks.drop_last() =~= old_decks);
        }
        match r {
            TrialResult::Win => { wins = wins + 1; },
            TrialResult::Tie => { ties_ = ties_ + 1; },
            TrialResult::Lose => { losses = losses + 1; },
        }
        let ghost old_samples = samples@;
        if t < 5 {
            samples.push(sample);
        }
        proof {
            assert forall|i: int| 0 <= i < samples@.len() implies #[trigger] samples_model(samples@)[i]
                == sample_of(*hero, community@, decks[i], num_opps as int) by {
                if i < old_samples.len() {
                    assert(decks[i] == old_decks[i]);
                    assert(samples@[i] == old_samples[i]);
                    assert(samples_model(old_samples)[i] == sample_of(*hero, community@, old_decks[i], num_opps as int));
                } else {
                    assert(samples@[i] == sample);
                }
            }
        }
        t = t + 1;
    }
    proof { lemma_counts_sum(*hero, community@, decks, num_opps as int); }
    DetailCounts {
        enough: true,
        tally: Tally { wins, ties: ties_, losses },
        trials,
        remaining_deck_size,
        cards_to_come,
        cards_per_opp: 2,
        num_opponents: num_opps,
        sample_trials: samples,
    }
}

/// What a detailed equity request comes to.
#[derive(Clone, Debug)]
pub enum DetailOutcome {
    NoHeroCards,
    NoOpponents,
    Simulated(DetailCounts),
}

/// The hero's equity with sampled trials (the engine uses 10 000 trials).
pub fn equity_detail(state: &GameState, trials: usize) -> (r: DetailOutcome)
    requires
        hero_hand(players_model(state.players@)) is Some && opponent_count(players_model(state.players@)) > 0
            ==> state.community_cards@.len() <= 5,
        trials <= u32::MAX,
    ensures
        ({
            let pm = players_model(state.players@);
            let opps = opponent_count(pm) as int;
            &&& (r is NoHeroCards) <==> hero_hand(pm) is None
            &&& (r is NoOpponents) <==> (hero_hand(pm) is Some && opps == 0)
            &&& r matches DetailOutcome::Simulated(d) ==> d.num_opponents == opps
                && d.remaining_deck_size == remaining_cards(hero_hand(pm)->Some_0, state.community_cards@).len()
                && d.cards_to_come == 5 - state.community_cards@.len()
                && d.cards_per_opp == 2
                && (d.enough <==> remaining_cards(hero_hand(pm)->Some_0, state.community_cards@).len()
                    >= cards_per_trial(state.community_cards@, opps))
                && (!d.enough ==> d.tally == (Tally { wins: 0, ties: 0, losses: 0 }) && d.trials == 0
                    && d.sample_trials@.len() == 0)
                && (d.enough ==> d.trials == trials && d.tally.wins + d.tally.ties + d.tally.losses == trials
                    && detail_of_shuffles(d.tally, samples_model(d.sample_trials@), hero_hand(pm)->Some_0,
                        state.community_cards@, opps, trials as int))
        }),
{
    let hero = match find_hero_hand(&state.players) {
        Some(c) => c,
        None => return DetailOutcome::NoHeroCards,
    };
    let num_opponents = count_opponents(&state.players);
    proof { crate::engine::lemma_opponent_count_bound(players_model(state.players@)); }
    if num_opponents == 0 {
        return DetailOutcome::NoOpponents;
    }
    DetailOutcome::Simulated(monte_carlo_detail(&hero, state.community_cards.as_slice(), num_opponents, trials))
}

} // verus!
