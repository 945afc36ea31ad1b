//! The state of a match: piles, pots, teams with their hands and runs, and
//! whose turn it is.

use vstd::multiset::Multiset;
use vstd::prelude::*;

use crate::card::{Card, Cards, MAX_CARDS, cards_in_play, cards_wf, sorted_by_key};
use crate::random::{entropy_rng, random_below, seeded_rng, shuffle_cards};
use crate::run::Run;

verus! {

#[derive(Debug, Clone)]
pub struct Player {
    pub hand: Cards,
}

#[derive(Debug, Clone)]
pub struct Team {
    pub players: Vec<Player>,
    pub played_runs: Vec<Run>,
    pub has_reached_pot: bool,
    pub has_used_pot: bool,
}

#[derive(Debug, Clone)]
pub struct BurracoState {
    pub num_teams: usize,
    pub num_team_players: usize,
    pub draw_pile: Cards,
    pub open_pile: Cards,
    pub pot1: Cards,
    pub pot2: Cards,
    pub teams: Vec<Team>,
    pub player_turn: usize,
    pub first_player: usize,
    /// For each player in turn order: (team index, index within the team).
    pub player_team_idxs: Vec<(usize, usize)>,
    pub round: u32,
}

/// Cards of one pot.
pub const POT_SIZE: usize = 11;

/// Cards dealt to each player.
pub const HAND_SIZE: usize = 11;

/// Most players a match can seat and still leave a draw pile.
pub const MAX_PLAYERS: usize = 7;

pub open spec fn sum_ints(s: Seq<int>) -> int
    decreases s.len(),
{
    if s.len() == 0 {
        0
    } else {
        sum_ints(s.drop_last()) + s.last()
    }
}

pub proof fn lemma_sum_update(s: Seq<int>, i: int, v: int)
    requires
        0 <= i < s.len(),
    ensures
        sum_ints(s.update(i, v)) == sum_ints(s) - s[i] + v,
    decreases s.len(),
{
    if i < s.len() - 1 {
        assert(s.update(i, v).drop_last() =~= s.drop_last().update(i, v));
        lemma_sum_update(s.drop_last(), i, v);
    } else {
        assert(s.update(i, v).drop_last() =~= s.drop_last());
    }
}

pub proof fn lemma_sum_push(s: Seq<int>, v: int)
    ensures
        sum_ints(s.push(v)) == sum_ints(s) + v,
{
    assert(s.push(v).drop_last() =~= s);
}

pub proof fn lemma_sum_bounds(s: Seq<int>, i: int)
    requires
        0 <= i < s.len(),
        forall|k: int| 0 <= k < s.len() ==> 0 <= #[trigger] s[k],
    ensures
        0 <= s[i] <= sum_ints(s),
    decreases s.len(),
{
    lemma_sum_nonneg(s.drop_last());
    if i < s.len() - 1 {
        lemma_sum_bounds(s.drop_last(), i);
    }
}

pub proof fn lemma_sum_nonneg(s: Seq<int>)
    requires
        forall|k: int| 0 <= k < s.len() ==> 0 <= #[trigger] s[k],
    ensures
        0 <= sum_ints(s),
    decreases s.len(),
{
    if s.len() > 0 {
        lemma_sum_nonneg(s.drop_last());
    }
}

pub open spec fn run_lens(rs: Seq<Run>) -> Seq<int> {
    rs.map_values(|r: Run| r@.len() as int)
}

pub open spec fn hand_lens(ps: Seq<Player>) -> Seq<int> {
    ps.map_values(|p: Player| p.hand@.len() as int)
}

pub open spec fn team_card_count(t: Team) -> int {
    sum_ints(run_lens(t.played_runs@)) + sum_ints(hand_lens(t.players@))
}

pub open spec fn team_counts(ts: Seq<Team>) -> Seq<int> {
    ts.map_values(|t: Team| team_card_count(t))
}

/// All cards of a match: both piles, both pots, every hand and every run.
pub open spec fn card_count(st: BurracoState) -> int {
    st.draw_pile@.len() + st.open_pile@.len() + st.pot1@.len() + st.pot2@.len() + sum_ints(
        team_counts(st.teams@),
    )
}

/// The cards of all the runs.
pub open spec fn cards_of_runs(s: Seq<Run>) -> Multiset<Card>
    decreases s.len(),
{
    if s.len() == 0 {
        Multiset::empty()
    } else {
        cards_of_runs(s.drop_last()).add(s.last()@.to_multiset())
    }
}

pub proof fn lemma_cards_of_runs_update(s: Seq<Run>, i: int, x: Run)
    requires
        0 <= i < s.len(),
    ensures
        cards_of_runs(s.update(i, x)).add(s[i]@.to_multiset()) =~= cards_of_runs(s).add(x@.to_multiset()),
    decreases s.len(),
{
    broadcast use vstd::multiset::group_multiset_axioms;

    let s2 = s.update(i, x);
    if i < s.len() - 1 {
        assert(s2.drop_last() =~= s.drop_last().update(i, x));
        assert(s2.last() == s.last());
        assert(s.drop_last()[i] == s[i]);
        lemma_cards_of_runs_update(s.drop_last(), i, x);
        let rest = cards_of_runs(s.drop_last().update(i, x));
        assert(cards_of_runs(s2) == rest.add(s.last()@.to_multiset()));
        assert(cards_of_runs(s) == cards_of_runs(s.drop_last()).add(s.last()@.to_multiset()));
        assert(rest.add(s[i]@.to_multiset()) =~= cards_of_runs(s.drop_last()).add(x@.to_multiset()));
        assert(cards_of_runs(s2).add(s[i]@.to_multiset()) =~= rest.add(s[i]@.to_multiset()).add(s.last()@.to_multiset()));
    } else {
        assert(s2.drop_last() =~= s.drop_last());
        assert(s2.last() == x);
        assert(cards_of_runs(s2) == cards_of_runs(s.drop_last()).add(x@.to_multiset()));
        assert(cards_of_runs(s) == cards_of_runs(s.drop_last()).add(s[i]@.to_multiset()));
    }
}

pub proof fn lemma_cards_of_runs_push(s: Seq<Run>, x: Run)
    ensures
        cards_of_runs(s.push(x)) == cards_of_runs(s).add(x@.to_multiset()),
{
    assert(s.push(x).drop_last() =~= s);
}

/// The cards of all the hands.
pub open spec fn cards_of_hands(s: Seq<Player>) -> Multiset<Card>
    decreases s.len(),
{
    if s.len() == 0 {
        Multiset::empty()
    } else {
        cards_of_hands(s.drop_last()).add(s.last().hand@.to_multiset())
    }
}

pub proof fn lemma_cards_of_hands_update(s: Seq<Player>, i: int, x: Player)
    requires
        0 <= i < s.len(),
    ensures
        cards_of_hands(s.update(i, x)).add(s[i].hand@.to_multiset()) =~= cards_of_hands(s).add(x.hand@.to_multiset()),
    decreases s.len(),
{
    broadcast use vstd::multiset::group_multiset_axioms;

    let s2 = s.update(i, x);
    if i < s.len() - 1 {
        assert(s2.drop_last() =~= s.drop_last().update(i, x));
        assert(s2.last() == s.last());
        assert(s.drop_last()[i] == s[i]);
        lemma_cards_of_hands_update(s.drop_last(), i, x);
        let rest = cards_of_hands(s.drop_last().update(i, x));
        assert(cards_of_hands(s2) == rest.add(s.last().hand@.to_multiset()));
        assert(cards_of_hands(s) == cards_of_hands(s.drop_last()).add(s.last().hand@.to_multiset()));
        assert(rest.add(s[i].hand@.to_multiset()) =~= cards_of_hands(s.drop_last()).add(x.hand@.to_multiset()));
        assert(cards_of_hands(s2).add(s[i].hand@.to_multiset()) =~= rest.add(s[i].hand@.to_multiset()).add(s.last().hand@.to_multiset()));
    } else {
        assert(s2.drop_last() =~= s.drop_last());
        assert(s2.last() == x);
        assert(cards_of_hands(s2) == cards_of_hands(s.drop_last()).add(x.hand@.to_multiset()));
        assert(cards_of_hands(s) == cards_of_hands(s.drop_last()).add(s[i].hand@.to_multiset()));
    }
}

pub proof fn lemma_cards_of_hands_push(s: Seq<Player>, x: Player)
    ensures
        cards_of_hands(s.push(x)) == cards_of_hands(s).add(x.hand@.to_multiset()),
{
    assert(s.push(x).drop_last() =~= s);
}

pub open spec fn team_cards(t: Team) -> Multiset<Card> {
    cards_of_runs(t.played_runs@).add(cards_of_hands(t.players@))
}

/// The cards of all the teams.
pub open spec fn cards_of_teams(s: Seq<Team>) -> Multiset<Card>
    decreases s.len(),
{
    if s.len() == 0 {
        Multiset::empty()
    } else {
        cards_of_teams(s.drop_last()).add(team_cards(s.last()))
    }
}

pub proof fn lemma_cards_of_teams_update(s: Seq<Team>, i: int, x: Team)
    requires
        0 <= i < s.len(),
    ensures
        cards_of_teams(s.update(i, x)).add(team_cards(s[i])) =~= cards_of_teams(s).add(team_cards(x)),
    decreases s.len(),
{
    broadcast use vstd::multiset::group_multiset_axioms;

    let s2 = s.update(i, x);
    if i < s.len() - 1 {
        assert(s2.drop_last() =~= s.drop_last().update(i, x));
        assert(s2.last() == s.last());
        assert(s.drop_last()[i] == s[i]);
        lemma_cards_of_teams_update(s.drop_last(), i, x);
        let rest = cards_of_teams(s.drop_last().update(i, x));
        assert(cards_of_teams(s2) == rest.add(team_cards(s.last())));
        assert(cards_of_teams(s) == cards_of_teams(s.drop_last()).add(team_cards(s.last())));
        assert(rest.add(team_cards(s[i])) =~= cards_of_teams(s.drop_last()).add(team_cards(x)));
        assert(cards_of_teams(s2).add(team_cards(s[i])) =~= rest.add(team_cards(s[i])).add(team_cards(s.last())));
    } else {
        assert(s2.drop_last() =~= s.drop_last());
        assert(s2.last() == x);
        assert(cards_of_teams(s2) == cards_of_teams(s.drop_last()).add(team_cards(x)));
        assert(cards_of_teams(s) == cards_of_teams(s.drop_last()).add(team_cards(s[i])));
    }
}

pub proof fn lemma_cards_of_teams_push(s: Seq<Team>, x: Team)
    ensures
        cards_of_teams(s.push(x)) == cards_of_teams(s).add(team_cards(x)),
{
    assert(s.push(x).drop_last() =~= s);
}

/// Every card of a match: both piles, both pots, every hand and every run.
pub open spec fn table_cards(st: BurracoState) -> Multiset<Card> {
    st.draw_pile@.to_multiset().add(st.open_pile@.to_multiset()).add(st.pot1@.to_multiset()).add(
        st.pot2@.to_multiset(),
    ).add(cards_of_teams(st.teams@))
}

pub proof fn lemma_no_cards(s: Seq<Card>)
    requires
        s.len() == 0,
    ensures
        s.to_multiset() =~= Multiset::<Card>::empty(),
{
    vstd::seq_lib::to_multiset_len(s);
    vstd::multiset::lemma_multiset_empty_len(s.to_multiset());
}

/// The hand of player `p` of team `t`.
pub open spec fn hand_of(st: BurracoState, t: int, p: int) -> Seq<Card> {
    st.teams@[t].players@[p].hand@
}

impl BurracoState {
    pub open spec fn num_players(&self) -> int {
        self.player_team_idxs@.len() as int
    }

    /// Turn order goes round the teams: player `i` is player `i / num_teams`
    /// of team `i % num_teams`.
    pub open spec fn wf(&self) -> bool {
        &&& 1 <= self.num_teams
        &&& 1 <= self.num_team_players
        &&& self.num_teams * self.num_team_players <= MAX_PLAYERS
        &&& self.player_team_idxs@.len() == self.num_teams * self.num_team_players
        &&& forall|i: int|
            0 <= i < self.player_team_idxs@.len() ==> #[trigger] self.player_team_idxs@[i] == (
            (i % self.num_teams as int) as usize,
            (i / self.num_teams as int) as usize,
        )
        &&& self.player_turn < self.player_team_idxs@.len()
        &&& self.first_player < self.player_team_idxs@.len()
        &&& self.teams@.len() == self.num_teams
        &&& forall|t: int| 0 <= t < self.num_teams ==> (#[trigger] self.teams@[t]).players@.len() == self.num_team_players
        &&& forall|t: int, p: int|
            0 <= t < self.num_teams && 0 <= p < self.num_team_players ==> cards_wf(
                #[trigger] self.teams@[t].players@[p].hand@,
            )
        &&& cards_wf(self.draw_pile@)
        &&& cards_wf(self.open_pile@)
        &&& cards_wf(self.pot1@)
        &&& cards_wf(self.pot2@)
        &&& card_count(*self) <= MAX_CARDS
    }

    /// (team, player within team) of the player whose turn it is.
    pub open spec fn turn_slot(&self) -> (usize, usize) {
        self.player_team_idxs@[self.player_turn as int]
    }

    pub fn curr_team_player(&self) -> (r: (usize, usize))
        requires
            self.wf(),
        ensures
            r == self.turn_slot(),
            r.0 < self.num_teams,
            r.1 < self.num_team_players,
    {
        proof {
            self.lemma_slot_in_range(self.player_turn as int);
        }
        self.player_team_idxs[self.player_turn]
    }

    pub fn curr_team(&self) -> (r: usize)
        requires
            self.wf(),
        ensures
            r == self.turn_slot().0,
            r < self.num_teams,
    {
        let (team, _) = self.curr_team_player();
        team
    }

    pub fn current_player(&self) -> (r: &Player)
        requires
            self.wf(),
        ensures
            *r == self.teams@[self.turn_slot().0 as int].players@[self.turn_slot().1 as int],
    {
        let (team, player) = self.curr_team_player();
        &self.teams[team].players[player]
    }

    pub proof fn lemma_slot_in_range(&self, i: int)
        requires
            self.wf(),
            0 <= i < self.player_team_idxs@.len(),
        ensures
            self.player_team_idxs@[i].0 < self.num_teams,
            self.player_team_idxs@[i].1 < self.num_team_players,
    {
        let nt = self.num_teams as int;
        let np = self.num_team_players as int;
        assert(0 <= i % nt < nt && 0 <= i / nt < np) by (nonlinear_arith)
            requires 0 <= i < nt * np, nt >= 1;
    }

    pub proof fn lemma_team_bounds(&self, t: int)
        requires
            self.wf(),
            0 <= t < self.num_teams,
        ensures
            forall|j: int| 0 <= j < run_lens(self.teams@[t].played_runs@).len() ==> 0 <= #[trigger] run_lens(self.teams@[t].played_runs@)[j],
            forall|j: int| 0 <= j < hand_lens(self.teams@[t].players@).len() ==> 0 <= #[trigger] hand_lens(self.teams@[t].players@)[j],
            0 <= sum_ints(run_lens(self.teams@[t].played_runs@)),
            0 <= sum_ints(hand_lens(self.teams@[t].players@)),
            team_card_count(self.teams@[t]) <= sum_ints(team_counts(self.teams@)) <= MAX_CARDS,
    {
        lemma_sum_nonneg(run_lens(self.teams@[t].played_runs@));
        lemma_sum_nonneg(hand_lens(self.teams@[t].players@));
        assert forall|k: int| 0 <= k < team_counts(self.teams@).len() implies 0 <= #[trigger] team_counts(
            self.teams@,
        )[k] by {
            lemma_sum_nonneg(run_lens(self.teams@[k].played_runs@));
            lemma_sum_nonneg(hand_lens(self.teams@[k].players@));
        }
        lemma_sum_bounds(team_counts(self.teams@), t);
    }

    /// Number of cards in play, summed over piles, pots, hands and runs.
    pub fn cards_total(&self) -> (r: usize)
        requires
            self.wf(),
        ensures
            r == card_count(*self),
    {
        let ghost counts = team_counts(self.teams@);
        let mut team_cards: usize = 0;
        let mut t: usize = 0;
        proof {
            assert forall|k: int| 0 <= k < counts.len() implies 0 <= #[trigger] counts[k] by {
                lemma_sum_nonneg(run_lens(self.teams@[k].played_runs@));
                lemma_sum_nonneg(hand_lens(self.teams@[k].players@));
            }
            lemma_sum_nonneg(counts);
        }
        while t < self.teams.len()
            invariant
                self.wf(),
                counts == team_counts(self.teams@),
                t <= self.teams@.len(),
                team_cards == sum_ints(counts.take(t as int)),
                forall|k: int| 0 <= k < counts.len() ==> 0 <= #[trigger] counts[k],
            decreases self.teams@.len() - t,
        {
            let team = &self.teams[t];
            proof {
                self.lemma_team_bounds(t as int);
                assert(counts.take(t + 1).drop_last() =~= counts.take(t as int));
                lemma_sum_nonneg(counts.take(t + 1));
                assert(counts.skip(t + 1).len() >= 0);
                assert(counts =~= counts.take(t + 1) + counts.skip(t + 1));
                lemma_sum_split(counts.take(t + 1), counts.skip(t + 1));
                assert forall|k: int| 0 <= k < counts.skip(t + 1).len() implies 0 <= #[trigger] counts.skip(t + 1)[k] by {
                    assert(counts.skip(t + 1)[k] == counts[k + t + 1]);
                }
                lemma_sum_nonneg(counts.skip(t + 1));
            }
            let mut run_sum: usize = 0;
            let mut k: usize = 0;
            let ghost rl = run_lens(team.played_runs@);
            while k < team.played_runs.len()
                invariant
                    k <= team.played_runs@.len(),
                    rl == run_lens(team.played_runs@),
                    run_sum == sum_ints(rl.take(k as int)),
                    sum_ints(rl.take(k as int)) <= sum_ints(rl),
                    sum_ints(rl) <= MAX_CARDS,
                    forall|j: int| 0 <= j < rl.len() ==> 0 <= #[trigger] rl[j],
                decreases team.played_runs@.len() - k,
            {
                proof {
                    assert(rl.take(k + 1).drop_last() =~= rl.take(k as int));
                    lemma_prefix_le(rl, k + 1);
                }
                run_sum = run_sum + team.played_runs[k].cards().0.len();
                k = k + 1;
            }
            assert(rl.take(k as int) =~= rl);
            let mut hand_sum: usize = 0;
            let mut k: usize = 0;
            let ghost hl = hand_lens(team.players@);
            while k < team.players.len()
                invariant
                    k <= team.players@.len(),
                    hl == hand_lens(team.players@),
                    hand_sum == sum_ints(hl.take(k as int)),
                    sum_ints(hl) <= MAX_CARDS,
                    forall|j: int| 0 <= j < hl.len() ==> 0 <= #[trigger] hl[j],
                decreases team.players@.len() - k,
            {
                proof {
                    assert(hl.take(k + 1).drop_last() =~= hl.take(k as int));
                    lemma_prefix_le(hl, k + 1);
                }
                hand_sum = hand_sum + team.players[k].hand.0.len();
                k = k + 1;
            }
            assert(hl.take(k as int) =~= hl);
            team_cards = team_cards + run_sum + hand_sum;
            t = t + 1;
        }
        assert(counts.take(t as int) =~= counts);
        team_cards + self.draw_pile.0.len() + self.open_pile.0.len() + self.pot1.0.len() + self.pot2.0.len()
    }
}

pub proof fn lemma_sum_split(a: Seq<int>, b: Seq<int>)
    ensures
        sum_ints(a + b) == sum_ints(a) + sum_ints(b),
    decreases b.len(),
{
    if b.len() == 0 {
        assert(a + b =~= a);
    } else {
        assert((a + b).drop_last() =~= a + b.drop_last());
        lemma_sum_split(a, b.drop_last());
    }
}

pub proof fn lemma_prefix_le(s: Seq<int>, k: int)
    requires
        0 <= k <= s.len(),
        forall|j: int| 0 <= j < s.len() ==> 0 <= #[trigger] s[j],
    ensures
        0 <= sum_ints(s.take(k)) <= sum_ints(s),
{
    assert(s =~= s.take(k) + s.skip(k));
    lemma_sum_split(s.take(k), s.skip(k));
    assert forall|j: int| 0 <= j < s.skip(k).len() implies 0 <= #[trigger] s.skip(k)[j] by {
        assert(s.skip(k)[j] == s[j + k]);
    }
    assert forall|j: int| 0 <= j < s.take(k).len() implies 0 <= #[trigger] s.take(k)[j] by {
        assert(s.take(k)[j] == s[j]);
    }
    lemma_sum_nonneg(s.skip(k));
    lemma_sum_nonneg(s.take(k));
}

proof fn lemma_turn_slot(i: int, nt: int, t: int, p: int)
    requires
        nt >= 1,
        0 <= t < nt,
        p >= 0,
        i == p * nt + t,
    ensures
        i % nt == t,
        i / nt == p,
{
    vstd::arithmetic::div_mod::lemma_fundamental_div_mod_converse(i, nt, p, t);
}

/// The cards dealt to the `k`-th hand (teams in order, players in order
/// within a team): the 11 cards above the first `k` hands, below the pots.
pub open spec fn dealt_hand(deck: Seq<Card>, k: int) -> Seq<Card> {
    deck.subrange(88 - 11 * (k + 1), 88 - 11 * k)
}

impl BurracoState {
    /// Deals a match from a shuffled deck of all the cards in play: the top
    /// 11 cards form the first pot, the next 11 the second, then 11 cards go
    /// to each player (sorted), one card opens the open pile and the rest is
    /// the draw pile. `starting_player` is both the current and the first
    /// player.
    pub fn deal(deck: Cards, num_teams: usize, num_team_players: usize, starting_player: usize) -> (r:
        BurracoState)
        requires
            deck@.len() == MAX_CARDS,
            cards_wf(deck@),
            1 <= num_teams,
            1 <= num_team_players,
            num_teams * num_team_players <= MAX_PLAYERS,
            starting_player < num_teams * num_team_players,
        ensures
            r.wf(),
            card_count(r) == MAX_CARDS,
            r.num_teams == num_teams,
            r.num_team_players == num_team_players,
            r.pot1@ == deck@.subrange(99, 110),
            r.pot2@ == deck@.subrange(88, 99),
            forall|t: int, p: int|
                0 <= t < num_teams && 0 <= p < num_team_players ==> {
                    let hand = #[trigger] hand_of(r, t, p);
                    &&& hand.len() == HAND_SIZE
                    &&& sorted_by_key(hand, false)
                    &&& hand.to_multiset() == dealt_hand(deck@, t * num_team_players + p).to_multiset()
                },
            r.open_pile@ == deck@.subrange(87 - 11 * (num_teams * num_team_players), 88 - 11 * (num_teams
                * num_team_players)),
            r.draw_pile@ == deck@.subrange(0, 87 - 11 * (num_teams * num_team_players)),
            forall|t: int|
                0 <= t < num_teams ==> (#[trigger] r.teams@[t]).played_runs@.len() == 0
                    && !r.teams@[t].has_reached_pot && !r.teams@[t].has_used_pot,
            r.player_turn == starting_player,
            r.first_player == starting_player,
            r.round == 0,
            table_cards(r) == deck@.to_multiset(),
    {
        broadcast use vstd::multiset::group_multiset_axioms;

        let ghost orig = deck@;
        let nt = num_teams;
        let np = num_team_players;
        let mut deck = deck;
        let pot1 = deck.drain_back(POT_SIZE);
        let pot2 = deck.drain_back(POT_SIZE);
        let mut teams: Vec<Team> = Vec::new();
        let mut t: usize = 0;
        assert(sum_ints(team_counts(teams@)) == 0) by {
            assert(team_counts(teams@) =~= Seq::<int>::empty());
        }
        assert(teams@.len() == 0);
        assert(deck@ =~= orig.subrange(0, 88));
        assert(cards_of_teams(teams@).add(deck@.to_multiset()) =~= orig.subrange(0, 88).to_multiset());
        while t < nt
            invariant
                t <= nt,
                nt * np <= MAX_PLAYERS,
                1 <= np,
                t * np <= nt * np,
                deck@ == orig.subrange(0, 88 - 11 * (t * np)),
                teams@.len() == t,
                sum_ints(team_counts(teams@)) == 11 * (t * np),
                forall|a: int| 0 <= a < t ==> (#[trigger] teams@[a]).players@.len() == np,
                forall|a: int| 0 <= a < t ==> (#[trigger] teams@[a]).played_runs@.len() == 0
                    && !teams@[a].has_reached_pot && !teams@[a].has_used_pot,
                forall|a: int, p: int|
                    0 <= a < t && 0 <= p < np ==> {
                        let hand = #[trigger] teams@[a].players@[p].hand@;
                        &&& hand.len() == HAND_SIZE
                        &&& sorted_by_key(hand, false)
                        &&& cards_wf(hand)
                        &&& hand.to_multiset() == dealt_hand(orig, a * np + p).to_multiset()
                    },
                cards_wf(orig),
                orig.len() == MAX_CARDS,
                cards_of_teams(teams@).add(deck@.to_multiset()) == orig.subrange(0, 88).to_multiset(),
            decreases nt - t,
        {
            let mut players: Vec<Player> = Vec::new();
            let mut j: usize = 0;
            assert(cards_of_teams(teams@).add(cards_of_hands(players@)).add(deck@.to_multiset()) =~= orig.subrange(
                0,
                88,
            ).to_multiset());
            assert(sum_ints(hand_lens(players@)) == 0) by {
                assert(hand_lens(players@) =~= Seq::<int>::empty());
            }
            assert((t + 1) * np <= nt * np) by (nonlinear_arith)
                requires t + 1 <= nt, np >= 1;
            assert((t + 1) * np == t * np + np) by (nonlinear_arith);
            while j < np
                invariant
                    t < nt,
                    j <= np,
                    (t + 1) * np <= nt * np <= MAX_PLAYERS,
                    (t + 1) * np == t * np + np,
                    deck@ == orig.subrange(0, 88 - 11 * (t * np + j)),
                    players@.len() == j,
                    sum_ints(hand_lens(players@)) == 11 * j,
                    forall|p: int|
                        0 <= p < j ==> {
                            let hand = #[trigger] players@[p].hand@;
                            &&& hand.len() == HAND_SIZE
                            &&& sorted_by_key(hand, false)
                            &&& cards_wf(hand)
                            &&& hand.to_multiset() == dealt_hand(orig, t * np + p).to_multiset()
                        },
                    cards_wf(orig),
                    orig.len() == MAX_CARDS,
                    cards_of_teams(teams@).add(cards_of_hands(players@)).add(deck@.to_multiset()) == orig.subrange(
                        0,
                        88,
                    ).to_multiset(),
                decreases np - j,
            {
                let ghost deck_before = deck@;
                let mut hand = deck.drain_back(HAND_SIZE);
                proof {
                    assert(deck_before =~= deck@ + hand@);
                    vstd::seq_lib::lemma_multiset_commutative(deck@, hand@);
                }
                let ghost seg_cards = hand@.to_multiset();
                assert(hand@ =~= dealt_hand(orig, t * np + j));
                assert(deck@ =~= orig.subrange(0, 88 - 11 * (t * np + j + 1)));
                assert(cards_wf(hand@)) by {
                    assert forall|k: int| 0 <= k < hand@.len() implies #[trigger] crate::card::card_wf(hand@[k]) by {
                        assert(hand@[k] == orig[88 - 11 * (t * np + j + 1) + k]);
                    }
                }
                hand.sort();
                proof {
                    assert(hand_lens(players@.push(Player { hand })) =~= hand_lens(players@).push(11));
                    lemma_sum_push(hand_lens(players@), 11);
                    lemma_cards_of_hands_push(players@, Player { hand });
                }
                let ghost players_before = players@;
                players.push(Player { hand });
                assert(cards_of_teams(teams@).add(cards_of_hands(players@)).add(deck@.to_multiset()) =~= orig.subrange(
                    0,
                    88,
                ).to_multiset());
                j = j + 1;
            }
            let team = Team { players, played_runs: Vec::new(), has_reached_pot: false, has_used_pot: false };
            proof {
                assert(team.played_runs@.len() == 0);
                assert(cards_of_runs(team.played_runs@) == Multiset::<Card>::empty());
                lemma_cards_of_teams_push(teams@, team);
                assert(cards_of_teams(teams@.push(team)).add(deck@.to_multiset()) =~= orig.subrange(0, 88).to_multiset());
                assert(run_lens(team.played_runs@) =~= Seq::<int>::empty());
                assert(team_counts(teams@.push(team)) =~= team_counts(teams@).push(team_card_count(team)));
                lemma_sum_push(team_counts(teams@), team_card_count(team));
            }
            teams.push(team);
            t = t + 1;
        }
        let mut idxs: Vec<(usize, usize)> = Vec::new();
        let mut p: usize = 0;
        while p < np
            invariant
                p <= np,
                1 <= nt,
                nt * np <= MAX_PLAYERS,
                idxs@.len() == p * nt,
                forall|i: int| 0 <= i < idxs@.len() ==> #[trigger] idxs@[i] == ((i % nt as int) as usize, (i / nt as int) as usize),
            decreases np - p,
        {
            assert((p + 1) * nt <= nt * np) by (nonlinear_arith)
                requires p + 1 <= np, nt >= 1;
            assert((p + 1) * nt == p * nt + nt) by (nonlinear_arith);
            let mut a: usize = 0;
            while a < nt
                invariant
                    a <= nt,
                    p < np,
                    1 <= nt,
                    (p + 1) * nt <= nt * np <= MAX_PLAYERS,
                    (p + 1) * nt == p * nt + nt,
                    idxs@.len() == p * nt + a,
                    forall|i: int| 0 <= i < idxs@.len() ==> #[trigger] idxs@[i] == ((i % nt as int) as usize, (i / nt as int) as usize),
                decreases nt - a,
            {
                proof {
                    lemma_turn_slot(p * nt + a, nt as int, a as int, p as int);
                }
                idxs.push((a, p));
                a = a + 1;
            }
            p = p + 1;
        }
        let ghost rest = deck@;
        let open_pile = deck.drain_back(1);
        proof {
            assert(rest =~= deck@ + open_pile@);
            vstd::seq_lib::lemma_multiset_commutative(deck@, open_pile@);
            assert(orig =~= orig.subrange(0, 88) + orig.subrange(88, 99) + orig.subrange(99, 110));
            vstd::seq_lib::lemma_multiset_commutative(orig.subrange(0, 88), orig.subrange(88, 99));
            vstd::seq_lib::lemma_multiset_commutative(orig.subrange(0, 88) + orig.subrange(88, 99), orig.subrange(99, 110));
        }
        let ghost l = 88 - 11 * (nt * np);
        assert(nt * np == np * nt) by (nonlinear_arith);
        assert(open_pile@ =~= orig.subrange(l - 1, l));
        assert(deck@ =~= orig.subrange(0, l - 1));
        let r = BurracoState {
            num_teams,
            num_team_players,
            draw_pile: deck,
            open_pile,
            pot1,
            pot2,
            teams,
            player_turn: starting_player,
            first_player: starting_player,
            player_team_idxs: idxs,
            round: 0,
        };
        proof {
            let low = orig.subrange(0, 88).to_multiset();
            let mid = orig.subrange(88, 99).to_multiset();
            let high = orig.subrange(99, 110).to_multiset();
            assert(r.pot1@ =~= orig.subrange(99, 110));
            assert(r.pot2@ =~= orig.subrange(88, 99));
            assert forall|v: Card| #[trigger] table_cards(r).count(v) == orig.to_multiset().count(v) by {
                assert(cards_of_teams(r.teams@).add(rest.to_multiset()).count(v) == low.count(v));
                assert(rest.to_multiset().count(v) == r.draw_pile@.to_multiset().add(r.open_pile@.to_multiset()).count(v));
                assert((orig.subrange(0, 88) + orig.subrange(88, 99)).to_multiset().count(v) == low.add(mid).count(v));
                assert(orig.to_multiset().count(v) == (orig.subrange(0, 88) + orig.subrange(88, 99)).to_multiset().add(
                    high,
                ).count(v));
            }
            assert(table_cards(r) =~= orig.to_multiset());
            assert forall|k: int| 0 <= k < orig.len() implies #[trigger] crate::card::card_wf(orig[k]) by {}
            assert(cards_wf(r.draw_pile@)) by {
                assert forall|k: int| 0 <= k < r.draw_pile@.len() implies #[trigger] crate::card::card_wf(r.draw_pile@[k]) by {
                    assert(r.draw_pile@[k] == orig[k]);
                }
            }
            assert(cards_wf(r.open_pile@)) by {
                assert(r.open_pile@[0] == orig[l - 1]);
            }
            assert(cards_wf(r.pot1@)) by {
                assert forall|k: int| 0 <= k < r.pot1@.len() implies #[trigger] crate::card::card_wf(r.pot1@[k]) by {
                    assert(r.pot1@[k] == orig[99 + k]);
                }
            }
            assert(cards_wf(r.pot2@)) by {
                assert forall|k: int| 0 <= k < r.pot2@.len() implies #[trigger] crate::card::card_wf(r.pot2@[k]) by {
                    assert(r.pot2@[k] == orig[88 + k]);
                }
            }
        }
        r
    }

    /// Shuffles all the cards in play and deals a match, with the starting
    /// player drawn at random; a seed makes both draws repeatable.
    pub fn init_seeded(num_teams: usize, num_team_players: usize, seed: Option<u64>) -> (r: BurracoState)
        requires
            1 <= num_teams,
            1 <= num_team_players,
            num_teams * num_team_players <= MAX_PLAYERS,
        ensures
            r.wf(),
            card_count(r) == MAX_CARDS,
            r.num_teams == num_teams,
            r.num_team_players == num_team_players,
            r.pot1@.len() == POT_SIZE && r.pot2@.len() == POT_SIZE,
            forall|t: int, p: int|
                0 <= t < num_teams && 0 <= p < num_team_players ==> (#[trigger] hand_of(r, t, p)).len() == HAND_SIZE
                    && sorted_by_key(hand_of(r, t, p), false),
            r.open_pile@.len() == 1,
            r.draw_pile@.len() == 87 - 11 * (num_teams * num_team_players),
            r.player_turn == r.first_player,
            r.round == 0,
            table_cards(r) == cards_in_play().to_multiset(),
            forall|t: int|
                0 <= t < num_teams ==> (#[trigger] r.teams@[t]).played_runs@.len() == 0
                    && !r.teams@[t].has_reached_pot && !r.teams@[t].has_used_pot,
    {
        let mut rng = match seed {
            Some(s) => seeded_rng(s),
            None => entropy_rng(),
        };
        let mut deck = Cards::build_deck(3);
        let mut second = Cards::build_deck(3);
        deck.0.append(&mut second.0);
        proof {
            assert(cards_wf(deck@)) by {
                assert forall|k: int| 0 <= k < deck@.len() implies #[trigger] crate::card::card_wf(deck@[k]) by {
                    if k < 55 {
                        assert(crate::card::card_wf(crate::card::deck_of(3)[k]));
                    } else {
                        assert(crate::card::card_wf(crate::card::deck_of(3)[k - 55]));
                    }
                }
            }
        }
        assert(deck@ =~= cards_in_play());
        shuffle_cards(&mut deck.0, &mut rng);
        proof {
            assert forall|k: int| 0 <= k < deck@.len() implies #[trigger] crate::card::card_wf(deck@[k]) by {
                vstd::seq_lib::to_multiset_contains(deck@, deck@[k]);
                let old_deck = crate::card::deck_of(3) + crate::card::deck_of(3);
                vstd::seq_lib::to_multiset_contains(old_deck, deck@[k]);
                assert(old_deck.contains(deck@[k]));
                let i = choose|i: int| 0 <= i < old_deck.len() && old_deck[i] == deck@[k];
                if i < 55 {
                    assert(crate::card::card_wf(crate::card::deck_of(3)[i]));
                } else {
                    assert(crate::card::card_wf(crate::card::deck_of(3)[i - 55]));
                }
            }
        }
        assert(num_teams * num_team_players >= 1) by (nonlinear_arith)
            requires num_teams >= 1, num_team_players >= 1;
        let starting_player = random_below(&mut rng, num_teams * num_team_players);
        BurracoState::deal(deck, num_teams, num_team_players, starting_player)
    }

    /// `init_seeded` without a seed.
    pub fn init_with(num_teams: usize, num_team_players: usize) -> (r: BurracoState)
        requires
            1 <= num_teams,
            1 <= num_team_players,
            num_teams * num_team_players <= MAX_PLAYERS,
        ensures
            r.wf(),
            card_count(r) == MAX_CARDS,
            r.num_teams == num_teams,
            r.num_team_players == num_team_players,
            r.pot1@.len() == POT_SIZE && r.pot2@.len() == POT_SIZE,
            forall|t: int, p: int|
                0 <= t < num_teams && 0 <= p < num_team_players ==> (#[trigger] hand_of(r, t, p)).len() == HAND_SIZE
                    && sorted_by_key(hand_of(r, t, p), false),
            r.open_pile@.len() == 1,
            r.draw_pile@.len() == 87 - 11 * (num_teams * num_team_players),
            r.player_turn == r.first_player,
            r.round == 0,
            table_cards(r) == cards_in_play().to_multiset(),
            forall|t: int|
                0 <= t < num_teams ==> (#[trigger] r.teams@[t]).played_runs@.len() == 0
                    && !r.teams@[t].has_reached_pot && !r.teams@[t].has_used_pot,
    {
        BurracoState::init_seeded(num_teams, num_team_players, None)
    }
}

/// The teams of `b` are those of `a`, but for the hand of player `p` of
/// team `t`, the runs of team `t` and whether it has reached a pot.
pub open spec fn teams_same_but(a: Seq<Team>, b: Seq<Team>, t: int, p: int) -> bool {
    &&& b.len() == a.len()
    &&& forall|u: int| 0 <= u < a.len() && u != t ==> #[trigger] b[u] == a[u]
    &&& b[t].has_used_pot == a[t].has_used_pot
    &&& b[t].players@.len() == a[t].players@.len()
    &&& forall|q: int| 0 <= q < a[t].players@.len() && q != p ==> #[trigger] b[t].players@[q] == a[t].players@[q]
}

/// `b` is `a` but for the piles, the pots, the turn, the round, and what
/// `teams_same_but` lets change.
pub open spec fn table_same_but(a: BurracoState, b: BurracoState, t: int, p: int) -> bool {
    &&& b.num_teams == a.num_teams
    &&& b.num_team_players == a.num_team_players
    &&& b.first_player == a.first_player
    &&& b.player_team_idxs == a.player_team_idxs
    &&& teams_same_but(a.teams@, b.teams@, t, p)
}

impl BurracoState {
    /// Exchanges the hand of player `p` of team `t` with `hand`.
    pub(crate) fn swap_hand(&mut self, t: usize, p: usize, hand: &mut Cards)
        requires
            t < old(self).teams@.len(),
            p < old(self).teams@[t as int].players@.len(),
        ensures
            hand_of(*final(self), t as int, p as int) == old(hand)@,
            final(hand)@ == hand_of(*old(self), t as int, p as int),
            table_same_but(*old(self), *final(self), t as int, p as int),
            final(self).teams@[t as int].played_runs == old(self).teams@[t as int].played_runs,
            final(self).teams@[t as int].has_reached_pot == old(self).teams@[t as int].has_reached_pot,
            final(self).draw_pile == old(self).draw_pile,
            final(self).open_pile == old(self).open_pile,
            final(self).pot1 == old(self).pot1,
            final(self).pot2 == old(self).pot2,
            final(self).player_turn == old(self).player_turn,
            final(self).round == old(self).round,
            card_count(*final(self)) == card_count(*old(self)) - hand_of(*old(self), t as int, p as int).len()
                + old(hand)@.len(),
            table_cards(*final(self)).add(final(hand)@.to_multiset()) == table_cards(*old(self)).add(
                old(hand)@.to_multiset(),
            ),
    {
        broadcast use vstd::multiset::group_multiset_axioms;

        let ghost before = *self;
        let ghost team0 = self.teams@[t as int];
        std::mem::swap(&mut self.teams[t].players[p].hand, hand);
        proof {
            let team1 = self.teams@[t as int];
            lemma_cards_of_hands_update(team0.players@, p as int, team1.players@[p as int]);
            assert(team1.players@ =~= team0.players@.update(p as int, team1.players@[p as int]));
            lemma_cards_of_teams_update(before.teams@, t as int, team1);
            assert(self.teams@ =~= before.teams@.update(t as int, team1));
            let h0 = hand@.to_multiset();
            let h1 = old(hand)@.to_multiset();
            let tc0 = team_cards(team0);
            let tc1 = team_cards(team1);
            let ct0 = cards_of_teams(before.teams@);
            let ct1 = cards_of_teams(self.teams@);
            assert(team1.played_runs == team0.played_runs);
            assert(cards_of_hands(team1.players@).add(h0) == cards_of_hands(team0.players@).add(h1));
            assert(ct1.add(tc0) == ct0.add(tc1));
            assert forall|v: Card| #[trigger] table_cards(*self).add(h0).count(v) == table_cards(before).add(h1).count(v) by {
                assert(ct1.add(tc0).count(v) == ct0.add(tc1).count(v));
                assert(cards_of_hands(team1.players@).add(h0).count(v) == cards_of_hands(team0.players@).add(h1).count(v));
            }
            assert(table_cards(*self).add(h0) =~= table_cards(before).add(h1));
        }
        proof {
            let team1 = self.teams@[t as int];
            assert(hand_lens(team1.players@) =~= hand_lens(team0.players@).update(p as int, old(hand)@.len() as int));
            lemma_sum_update(hand_lens(team0.players@), p as int, old(hand)@.len() as int);
            assert(team_counts(self.teams@) =~= team_counts(before.teams@).update(t as int, team_card_count(team1)));
            lemma_sum_update(team_counts(before.teams@), t as int, team_card_count(team1));
        }
    }

    /// Exchanges the runs of team `t` with `runs`.
    pub(crate) fn swap_runs(&mut self, t: usize, runs: &mut Vec<Run>)
        requires
            t < old(self).teams@.len(),
        ensures
            final(self).teams@[t as int].played_runs@ == old(runs)@,
            final(runs)@ == old(self).teams@[t as int].played_runs@,
            table_same_but(*old(self), *final(self), t as int, -1),
            final(self).teams@[t as int].has_reached_pot == old(self).teams@[t as int].has_reached_pot,
            final(self).draw_pile == old(self).draw_pile,
            final(self).open_pile == old(self).open_pile,
            final(self).pot1 == old(self).pot1,
            final(self).pot2 == old(self).pot2,
            final(self).player_turn == old(self).player_turn,
            final(self).round == old(self).round,
            card_count(*final(self)) == card_count(*old(self)) - sum_ints(run_lens(old(self).teams@[t as int].played_runs@))
                + sum_ints(run_lens(old(runs)@)),
            table_cards(*final(self)).add(cards_of_runs(final(runs)@)) == table_cards(*old(self)).add(
                cards_of_runs(old(runs)@),
            ),
    {
        broadcast use vstd::multiset::group_multiset_axioms;

        let ghost before = *self;
        std::mem::swap(&mut self.teams[t].played_runs, runs);
        proof {
            let team1 = self.teams@[t as int];
            lemma_cards_of_teams_update(before.teams@, t as int, team1);
            assert(self.teams@ =~= before.teams@.update(t as int, team1));
            let team0 = before.teams@[t as int];
            let r0 = cards_of_runs(runs@);
            let r1 = cards_of_runs(old(runs)@);
            let ct0 = cards_of_teams(before.teams@);
            let ct1 = cards_of_teams(self.teams@);
            assert(team1.players == team0.players);
            assert(ct1.add(team_cards(team0)) == ct0.add(team_cards(team1)));
            assert forall|v: Card| #[trigger] table_cards(*self).add(r0).count(v) == table_cards(before).add(r1).count(v) by {
                assert(ct1.add(team_cards(team0)).count(v) == ct0.add(team_cards(team1)).count(v));
            }
            assert(table_cards(*self).add(r0) =~= table_cards(before).add(r1));
        }
        proof {
            let team1 = self.teams@[t as int];
            assert(team_counts(self.teams@) =~= team_counts(before.teams@).update(t as int, team_card_count(team1)));
            lemma_sum_update(team_counts(before.teams@), t as int, team_card_count(team1));
        }
    }

    /// Marks team `t` as having reached a pot.
    pub(crate) fn set_reached_pot(&mut self, t: usize)
        requires
            t < old(self).teams@.len(),
        ensures
            final(self).teams@[t as int].has_reached_pot,
            final(self).teams@[t as int].played_runs == old(self).teams@[t as int].played_runs,
            table_same_but(*old(self), *final(self), t as int, -1),
            final(self).draw_pile == old(self).draw_pile,
            final(self).open_pile == old(self).open_pile,
            final(self).pot1 == old(self).pot1,
            final(self).pot2 == old(self).pot2,
            final(self).player_turn == old(self).player_turn,
            final(self).round == old(self).round,
            card_count(*final(self)) == card_count(*old(self)),
            table_cards(*final(self)) == table_cards(*old(self)),
    {
        let ghost before = *self;
        self.teams[t].has_reached_pot = true;
        proof {
            let team1 = self.teams@[t as int];
            assert(team_cards(team1) == team_cards(before.teams@[t as int]));
            lemma_cards_of_teams_update(before.teams@, t as int, team1);
            assert(self.teams@ =~= before.teams@.update(t as int, team1));
            assert(cards_of_teams(self.teams@).add(team_cards(team1)) == cards_of_teams(before.teams@).add(
                team_cards(team1),
            ));
            assert(table_cards(*self) =~= table_cards(before)) by {
                broadcast use vstd::multiset::group_multiset_axioms;

                assert forall|v: Card| #[trigger] table_cards(*self).count(v) == table_cards(before).count(v) by {
                    assert(cards_of_teams(self.teams@).add(team_cards(team1)).count(v) == cards_of_teams(
                        before.teams@,
                    ).add(team_cards(team1)).count(v));
                }
            }
        }
        proof {
            let team1 = self.teams@[t as int];
            assert(team_counts(self.teams@) =~= team_counts(before.teams@));
        }
    }
}

} // verus!
