//! The match state machine: draw, play and discard, pot resolution, turn
//! order and the final score.

use vstd::multiset::Multiset;
use vstd::prelude::*;

use crate::card::{Card, Cards, MAX_CARDS, cards_wf, sorted_by_key, value_sum_of};
use crate::error::BurracoError;
use crate::run::{
    Append, Run, RunType, appended, build_outcome, moved, replaced, run_score, sequence_outcome,
};
use crate::state::{
    BurracoState, Player, Team, card_count, cards_of_runs, hand_of, lemma_cards_of_runs_push,
    lemma_cards_of_runs_update, lemma_no_cards, lemma_prefix_le, run_lens, hand_lens, table_cards,
    sum_ints, table_same_but,
};

verus! {

#[derive(Debug, Clone, Copy, PartialEq, Eq, Structural)]
pub enum GamePhase {
    Draw,
    Play,
    Discard,
    /// The match is over; the index of the winning team.
    Finished(usize),
}

#[derive(Debug, Clone, Copy, PartialEq, Eq, Structural)]
pub enum DrawAction {
    /// Take the whole open pile.
    DrawOpen,
    /// Take the top card of the draw pile.
    DrawPile,
}

#[derive(Debug, Clone, PartialEq, Eq, Hash)]
pub enum PlayAction {
    StartRun(Run),
    /// run_idx, cards to append
    AppendTop(usize, Cards),
    /// run_idx, cards to append
    AppendBottom(usize, Cards),
    /// run_idx, at, with card
    ReplaceWildcard(usize, usize, Card),
    /// run_idx, from, to
    MoveCard(usize, usize, usize),
    Noop,
}

#[derive(Debug, Clone, Copy, PartialEq, Eq, Hash, Structural)]
pub struct DiscardAction(pub Card);

pub open spec fn run_scores(rs: Seq<Run>) -> Seq<int> {
    rs.map_values(|r: Run| run_score(r@, r.spec_run_type()))
}

pub open spec fn hand_values(ps: Seq<Player>) -> Seq<int> {
    ps.map_values(|p: Player| value_sum_of(p.hand@))
}

/// A team's score: -100 unless it has reached a pot, plus the scores of its
/// runs, plus the point values of the cards its players still hold.
pub open spec fn team_score(t: Team) -> int {
    (if t.has_reached_pot { 0 } else { -100 }) + sum_ints(run_scores(t.played_runs@)) + sum_ints(
        hand_values(t.players@),
    )
}

pub open spec fn team_scores(st: BurracoState) -> Seq<int> {
    st.teams@.map_values(|t: Team| team_score(t))
}

/// `i` holds the highest score, and no earlier index holds as much.
pub open spec fn is_first_max(s: Seq<int>, i: int) -> bool {
    &&& 0 <= i < s.len()
    &&& forall|j: int| 0 <= j < s.len() ==> s[j] <= s[i]
    &&& forall|j: int| 0 <= j < i ==> s[j] < s[i]
}

proof fn lemma_scores_step(rs: Seq<int>, k: int)
    requires
        0 <= k < rs.len(),
    ensures
        sum_ints(rs.take(k + 1)) == sum_ints(rs.take(k)) + rs[k],
{
    assert(rs.take(k + 1).drop_last() =~= rs.take(k));
}

impl BurracoState {
    /// Score of each team, in team order.
    pub fn team_scoreboard(&self) -> (r: Vec<i32>)
        requires
            self.wf(),
        ensures
            r@.len() == self.teams@.len(),
            forall|i: int| 0 <= i < r@.len() ==> r@[i] as int == team_scores(*self)[i],
    {
        let mut scores: Vec<i32> = Vec::new();
        let mut t: usize = 0;
        while t < self.teams.len()
            invariant
                self.wf(),
                t <= self.teams@.len(),
                scores@.len() == t,
                forall|i: int| 0 <= i < t ==> scores@[i] as int == team_scores(*self)[i],
            decreases self.teams@.len() - t,
        {
            let team = &self.teams[t];
            proof {
                self.lemma_team_bounds(t as int);
            }
            let pot_deduction: i32 = if team.has_reached_pot { 0 } else { -100 };
            let ghost rl = run_lens(team.played_runs@);
            let ghost rsc = run_scores(team.played_runs@);
            let mut runs_score: i32 = 0;
            let mut k: usize = 0;
            while k < team.played_runs.len()
                invariant
                    k <= team.played_runs@.len(),
                    rl == run_lens(team.played_runs@),
                    rsc == run_scores(team.played_runs@),
                    runs_score == sum_ints(rsc.take(k as int)),
                    0 <= runs_score <= 130 * sum_ints(rl.take(k as int)),
                    sum_ints(rl) <= MAX_CARDS,
                    forall|j: int| 0 <= j < rl.len() ==> 0 <= #[trigger] rl[j],
                decreases team.played_runs@.len() - k,
            {
                proof {
                    lemma_scores_step(rsc, k as int);
                    lemma_scores_step(rl, k as int);
                    lemma_prefix_le(rl, k + 1);
                }
                let sc = team.played_runs[k].score();
                runs_score = runs_score + sc;
                k = k + 1;
            }
            assert(rsc.take(k as int) =~= rsc);
            assert(rl.take(k as int) =~= rl);
            let ghost hl = hand_lens(team.players@);
            let ghost hv = hand_values(team.players@);
            let mut cards_score: i32 = 0;
            let mut k: usize = 0;
            while k < team.players.len()
                invariant
                    self.wf(),
                    t < self.teams@.len(),
                    *team == self.teams@[t as int],
                    k <= team.players@.len(),
                    hl == hand_lens(team.players@),
                    hv == hand_values(team.players@),
                    cards_score == sum_ints(hv.take(k as int)),
                    0 <= cards_score <= 30 * sum_ints(hl.take(k as int)),
                    sum_ints(hl) <= MAX_CARDS,
                    forall|j: int| 0 <= j < hl.len() ==> 0 <= #[trigger] hl[j],
                decreases team.players@.len() - k,
            {
                proof {
                    lemma_scores_step(hv, k as int);
                    lemma_scores_step(hl, k as int);
                    lemma_prefix_le(hl, k + 1);
                    assert(cards_wf(self.teams@[t as int].players@[k as int].hand@));
                    crate::card::lemma_value_sum_bounds(team.players@[k as int].hand@);
                }
                let v = team.players[k].hand.value_sum();
                cards_score = cards_score + v;
                k = k + 1;
            }
            assert(hv.take(k as int) =~= hv);
            assert(hl.take(k as int) =~= hl);
            scores.push(pot_deduction + runs_score + cards_score);
            t = t + 1;
        }
        scores
    }
}

/// Index of the first highest score.
fn first_max_index(scores: &Vec<i32>) -> (r: usize)
    requires
        scores@.len() > 0,
    ensures
        is_first_max(scores@.map_values(|x: i32| x as int), r as int),
{
    let ghost s = scores@.map_values(|x: i32| x as int);
    let mut best: usize = 0;
    let mut i: usize = 1;
    while i < scores.len()
        invariant
            1 <= i <= scores@.len(),
            best < i,
            s == scores@.map_values(|x: i32| x as int),
            forall|j: int| 0 <= j < i ==> s[j] <= s[best as int],
            forall|j: int| 0 <= j < best ==> s[j] < s[best as int],
        decreases scores@.len() - i,
    {
        if scores[i] > scores[best] {
            best = i;
        }
        i = i + 1;
    }
    best
}

/// The team with the first highest score.
fn winner_of(st: &BurracoState) -> (r: usize)
    requires
        st.wf(),
    ensures
        is_first_max(team_scores(*st), r as int),
        r < st.num_teams,
{
    let scores = st.team_scoreboard();
    let r = first_max_index(&scores);
    assert(scores@.map_values(|x: i32| x as int) =~= team_scores(*st));
    r
}

/// Position of the first `c` in `cards`, if any.
fn position_of(cards: &Cards, c: Card) -> (r: Option<usize>)
    ensures
        match r {
            Some(i) => i == first_index_of(cards@, c) && i < cards@.len() && cards@[i as int] == c,
            None => !cards@.contains(c),
        },
{
    let mut i: usize = 0;
    while i < cards.0.len()
        invariant
            i <= cards@.len(),
            forall|j: int| 0 <= j < i ==> cards@[j] != c,
        decreases cards@.len() - i,
    {
        if cards.0[i] == c {
            proof {
                lemma_first_index(cards@, c, i as int);
            }
            return Some(i);
        }
        i = i + 1;
    }
    None
}

proof fn lemma_first_index(s: Seq<Card>, c: Card, i: int)
    requires
        0 <= i < s.len(),
        s[i] == c,
        forall|j: int| 0 <= j < i ==> s[j] != c,
    ensures
        first_index_of(s, c) == i,
    decreases i,
{
    if i > 0 {
        assert forall|j: int| 0 <= j < i - 1 implies s.drop_first()[j] != c by {
            assert(s.drop_first()[j] == s[j + 1]);
        }
        lemma_first_index(s.drop_first(), c, i - 1);
    }
}

/// The player with an empty hand took a pot: the first pot that is not
/// empty, when the team has not reached one yet.
pub open spec fn pot_taken(a: BurracoState, b: BurracoState, t: int, p: int) -> bool {
    &&& b.teams@[t].has_reached_pot
    &&& if a.pot1@.len() > 0 {
        &&& hand_of(b, t, p).to_multiset() == a.pot1@.to_multiset()
        &&& b.pot1@.len() == 0
        &&& b.pot2 == a.pot2
    } else {
        &&& hand_of(b, t, p).to_multiset() == a.pot2@.to_multiset()
        &&& b.pot2@.len() == 0
        &&& b.pot1 == a.pot1
    }
}

/// The player with an empty hand took, as it lies, the first pot that is
/// not empty.
pub open spec fn pot_handed(a: BurracoState, b: BurracoState, t: int, p: int) -> bool {
    &&& b.teams@[t].has_reached_pot
    &&& if a.pot1@.len() > 0 {
        &&& hand_of(b, t, p) == a.pot1@
        &&& b.pot1@.len() == 0
        &&& b.pot2 == a.pot2
    } else {
        &&& hand_of(b, t, p) == a.pot2@
        &&& b.pot2@.len() == 0
        &&& b.pot1 == a.pot1
    }
}

pub open spec fn pot_open_to(a: BurracoState, t: int) -> bool {
    !a.teams@[t].has_reached_pot && (a.pot1@.len() > 0 || a.pot2@.len() > 0)
}

/// The cards an action takes from the hand.
pub open spec fn placed_cards(action: PlayAction) -> Seq<Card> {
    match action {
        PlayAction::StartRun(run) => run@,
        PlayAction::AppendTop(_, cs) => cs@,
        PlayAction::AppendBottom(_, cs) => cs@,
        PlayAction::ReplaceWildcard(_, _, c) => seq![c],
        _ => Seq::empty(),
    }
}

/// What replacing a wildcard may give, as `Run::replace_wildcard` states it.
pub open spec fn replace_outcome(run: Run, at: int, c: Card, r: Result<Run, BurracoError>) -> bool {
    if at >= run@.len() {
        r == Err::<Run, BurracoError>(BurracoError::InvalidPosition)
    } else if run.spec_run_type() == RunType::Group {
        r == Err::<Run, BurracoError>(BurracoError::NotASequence)
    } else {
        sequence_outcome(replaced(run@, at, c), r)
    }
}

/// What moving a card may give, as `Run::move_card` states it.
pub open spec fn move_outcome(run: Run, from: int, to: int, r: Result<Run, BurracoError>) -> bool {
    if from >= run@.len() || to >= run@.len() || from == to || to == from + 1 {
        r == Err::<Run, BurracoError>(BurracoError::InvalidPosition)
    } else if run.spec_run_type() == RunType::Group {
        r == Err::<Run, BurracoError>(BurracoError::NotASequence)
    } else {
        sequence_outcome(moved(run@, from, to), r)
    }
}

/// The play is refused with `e`: the cards are not all in hand, the run
/// does not exist, or the run engine refuses the change, checked in that
/// order.
pub open spec fn play_refused(a: BurracoState, action: PlayAction, e: BurracoError) -> bool {
    let (t, p) = a.turn_slot();
    let hand = hand_of(a, t as int, p as int);
    let runs = a.teams@[t as int].played_runs@;
    let in_hand = placed_cards(action).to_multiset().subset_of(hand.to_multiset());
    match action {
        PlayAction::Noop => false,
        PlayAction::StartRun(_) => !in_hand && e == BurracoError::CardsNotInHand,
        PlayAction::AppendTop(i, cs) => if !in_hand {
            e == BurracoError::CardsNotInHand
        } else if i >= runs.len() {
            e == BurracoError::NoSuchRun
        } else {
            build_outcome(runs[i as int].spec_run_type(), appended(runs[i as int]@, cs@, Append::Top), Err(e))
        },
        PlayAction::AppendBottom(i, cs) => if !in_hand {
            e == BurracoError::CardsNotInHand
        } else if i >= runs.len() {
            e == BurracoError::NoSuchRun
        } else {
            build_outcome(runs[i as int].spec_run_type(), appended(runs[i as int]@, cs@, Append::Bottom), Err(e))
        },
        PlayAction::ReplaceWildcard(i, at, c) => if !in_hand {
            e == BurracoError::CardsNotInHand
        } else if i >= runs.len() {
            e == BurracoError::NoSuchRun
        } else {
            replace_outcome(runs[i as int], at as int, c, Err(e))
        },
        PlayAction::MoveCard(i, from, to) => if from == to {
            e == BurracoError::InvalidPosition
        } else if i >= runs.len() {
            e == BurracoError::NoSuchRun
        } else {
            move_outcome(runs[i as int], from as int, to as int, Err(e))
        },
    }
}

/// `new_runs` is the team's run list once the accepted action is applied
/// (before it is re-sorted).
pub open spec fn play_applied(a: BurracoState, action: PlayAction, new_runs: Seq<Run>) -> bool {
    let (t, p) = a.turn_slot();
    let runs = a.teams@[t as int].played_runs@;
    match action {
        PlayAction::Noop => new_runs == runs,
        PlayAction::StartRun(run) => new_runs == runs.push(run),
        PlayAction::AppendTop(i, cs) => i < runs.len() && exists|nr: Run|
            build_outcome(runs[i as int].spec_run_type(), appended(runs[i as int]@, cs@, Append::Top), Ok(nr))
                && new_runs == runs.update(i as int, nr),
        PlayAction::AppendBottom(i, cs) => i < runs.len() && exists|nr: Run|
            build_outcome(runs[i as int].spec_run_type(), appended(runs[i as int]@, cs@, Append::Bottom), Ok(nr))
                && new_runs == runs.update(i as int, nr),
        PlayAction::ReplaceWildcard(i, at, c) => i < runs.len() && exists|nr: Run|
            replace_outcome(runs[i as int], at as int, c, Ok(nr)) && new_runs == runs.update(i as int, nr),
        PlayAction::MoveCard(i, from, to) => i < runs.len() && exists|nr: Run|
            move_outcome(runs[i as int], from as int, to as int, Ok(nr)) && new_runs == runs.update(i as int, nr),
    }
}

/// Display order of a team's runs: sequences first, then by card count.
pub open spec fn run_key(r: Run) -> int {
    (if r.spec_run_type() == RunType::Sequence { 0int } else { 1000int }) + r@.len()
}

pub open spec fn runs_sorted(rs: Seq<Run>) -> bool {
    forall|i: int, j: int| 0 <= i < j < rs.len() ==> run_key(rs[i]) <= run_key(rs[j])
}

proof fn lemma_swap_runs(s: Seq<Run>, j: int)
    requires
        0 < j < s.len(),
    ensures
        s.update(j - 1, s[j]).update(j, s[j - 1]).to_multiset() =~= s.to_multiset(),
        sum_ints(run_lens(s.update(j - 1, s[j]).update(j, s[j - 1]))) == sum_ints(run_lens(s)),
        cards_of_runs(s.update(j - 1, s[j]).update(j, s[j - 1])) == cards_of_runs(s),
{
    broadcast use vstd::seq_lib::to_multiset_update;
    broadcast use vstd::multiset::group_multiset_axioms;

    let s1 = s.update(j - 1, s[j]);
    let s2 = s1.update(j, s[j - 1]);
    assert(s1[j] == s[j]);
    assert(s.to_multiset().count(s[j - 1]) > 0) by {
        vstd::seq_lib::to_multiset_contains(s, s[j - 1]);
        assert(s.contains(s[j - 1]));
    }
    assert(run_lens(s1) =~= run_lens(s).update(j - 1, s[j]@.len() as int));
    crate::state::lemma_sum_update(run_lens(s), j - 1, s[j]@.len() as int);
    assert(run_lens(s2) =~= run_lens(s1).update(j, s[j - 1]@.len() as int));
    crate::state::lemma_sum_update(run_lens(s1), j, s[j - 1]@.len() as int);
    lemma_cards_of_runs_update(s, j - 1, s[j]);
    lemma_cards_of_runs_update(s1, j, s[j - 1]);
    assert forall|v: Card| #[trigger] cards_of_runs(s2).count(v) == cards_of_runs(s).count(v) by {
        assert(cards_of_runs(s1).add(s[j - 1]@.to_multiset()).count(v) == cards_of_runs(s).add(s[j]@.to_multiset()).count(
            v,
        ));
        assert(cards_of_runs(s2).add(s1[j]@.to_multiset()).count(v) == cards_of_runs(s1).add(s[j - 1]@.to_multiset()).count(
            v,
        ));
    }
    assert(cards_of_runs(s2) =~= cards_of_runs(s));
}

/// Sorts runs by `run_key`, keeping the same runs.
fn sort_runs(v: &mut Vec<Run>)
    ensures
        final(v)@.to_multiset() == old(v)@.to_multiset(),
        final(v)@.len() == old(v)@.len(),
        sum_ints(run_lens(final(v)@)) == sum_ints(run_lens(old(v)@)),
        cards_of_runs(final(v)@) == cards_of_runs(old(v)@),
        runs_sorted(final(v)@),
{
    let ghost orig = v@;
    let n = v.len();
    if n == 0 {
        return;
    }
    let mut i: usize = 1;
    while i < n
        invariant
            1 <= i <= n == v@.len(),
            v@.to_multiset() == orig.to_multiset(),
            sum_ints(run_lens(v@)) == sum_ints(run_lens(orig)),
            cards_of_runs(v@) == cards_of_runs(orig),
            forall|a: int, b: int| 0 <= a < b < i ==> run_key(v@[a]) <= run_key(v@[b]),
        decreases n - i,
    {
        let mut j: usize = i;
        let mut placed = false;
        while j > 0 && !placed
            invariant
                0 <= j <= i < n == v@.len(),
                placed ==> j > 0 && run_key(v@[j - 1]) <= run_key(v@[j as int]),
                v@.to_multiset() == orig.to_multiset(),
                sum_ints(run_lens(v@)) == sum_ints(run_lens(orig)),
                cards_of_runs(v@) == cards_of_runs(orig),
                forall|a: int, b: int| 0 <= a < b <= i && a != j && b != j ==> run_key(v@[a]) <= run_key(v@[b]),
                forall|b: int| j < b <= i ==> run_key(v@[j as int]) < run_key(v@[b]),
            decreases j + (if placed { 0int } else { 1int }),
        {
            let ka: usize = if v[j - 1].run_type() == RunType::Sequence { 0 } else { 1000 };
            let kb: usize = if v[j].run_type() == RunType::Sequence { 0 } else { 1000 };
            let la = v[j - 1].cards().0.len();
            let lb = v[j].cards().0.len();
            if ka + la <= kb + lb {
                placed = true;
                continue;
            }
            proof {
                lemma_swap_runs(v@, j as int);
            }
            let ghost before = v@;
            let r = v.remove(j);
            v.insert(j - 1, r);
            assert(v@ =~= before.update(j - 1, before[j as int]).update(j as int, before[j - 1]));
            j = j - 1;
        }
        i = i + 1;
    }
}

/// Whether the hand holds every card of `cards`, counting repeats.
fn cards_in_hand(cards: &Cards, player: &Player) -> (r: bool)
    ensures
        r == cards@.to_multiset().subset_of(player.hand@.to_multiset()),
{
    broadcast use vstd::multiset::group_multiset_axioms;

    let ghost hand = player.hand@;
    let mut scratch = Cards(crate::run::copy_cards(&player.hand.0));
    let mut k: usize = 0;
    proof {
        lemma_empty_prefix(cards@);
        assert(hand.to_multiset() =~= scratch@.to_multiset().add(cards@.take(0).to_multiset()));
    }
    while k < cards.0.len()
        invariant
            k <= cards@.len(),
            hand == player.hand@,
            hand.to_multiset() == scratch@.to_multiset().add(cards@.take(k as int).to_multiset()),
        decreases cards@.len() - k,
    {
        let c = cards.0[k];
        proof {
            vstd::seq_lib::to_multiset_build(cards@.take(k as int), c);
            assert(cards@.take(k + 1) =~= cards@.take(k as int).push(c));
        }
        match position_of(&scratch, c) {
            None => {
                proof {
                    vstd::seq_lib::to_multiset_contains(scratch@, c);
                    assert(cards@ =~= cards@.take(k + 1) + cards@.skip(k + 1));
                    vstd::seq_lib::lemma_multiset_commutative(cards@.take(k + 1), cards@.skip(k + 1));
                    assert(cards@.to_multiset().count(c) > hand.to_multiset().count(c));
                }
                return false;
            },
            Some(i) => {
                proof {
                    vstd::seq_lib::to_multiset_remove(scratch@, i as int);
                    vstd::seq_lib::to_multiset_contains(scratch@, c);
                }
                scratch.0.remove(i);
                assert(hand.to_multiset() =~= scratch@.to_multiset().add(cards@.take(k + 1).to_multiset()));
            },
        }
        k = k + 1;
    }
    assert(cards@.take(k as int) =~= cards@);
    true
}

proof fn lemma_empty_prefix(s: Seq<Card>)
    ensures
        s.take(0).to_multiset() =~= vstd::multiset::Multiset::empty(),
{
    vstd::seq_lib::to_multiset_len(s.take(0));
    vstd::multiset::lemma_multiset_empty_len(s.take(0).to_multiset());
}

/// Takes `cards` out of the hand, one copy for each.
fn remove_from_hand(hand: &mut Cards, cards: &Cards)
    requires
        cards@.to_multiset().subset_of(old(hand)@.to_multiset()),
    ensures
        old(hand)@.to_multiset() == final(hand)@.to_multiset().add(cards@.to_multiset()),
        final(hand)@.len() + cards@.len() == old(hand)@.len(),
        cards@.len() == 0 ==> final(hand)@ == old(hand)@,
{
    broadcast use vstd::multiset::group_multiset_axioms;

    let ghost orig = hand@;
    let mut k: usize = 0;
    proof {
        lemma_empty_prefix(cards@);
        assert(orig.to_multiset() =~= hand@.to_multiset().add(cards@.take(0).to_multiset()));
        assert(cards@.skip(0) =~= cards@);
    }
    while k < cards.0.len()
        invariant
            k <= cards@.len(),
            orig.to_multiset() == hand@.to_multiset().add(cards@.take(k as int).to_multiset()),
            cards@.skip(k as int).to_multiset().subset_of(hand@.to_multiset()),
            cards@.len() == 0 ==> hand@ == orig,
        decreases cards@.len() - k,
    {
        let c = cards.0[k];
        proof {
            vstd::seq_lib::to_multiset_build(cards@.take(k as int), c);
            assert(cards@.take(k + 1) =~= cards@.take(k as int).push(c));
            assert(cards@.skip(k as int) =~= seq![c] + cards@.skip(k + 1));
            vstd::seq_lib::lemma_multiset_commutative(seq![c], cards@.skip(k + 1));
            vstd::seq_lib::to_multiset_build(Seq::<Card>::empty(), c);
            assert(seq![c] =~= Seq::<Card>::empty().push(c));
            vstd::seq_lib::to_multiset_len(Seq::<Card>::empty());
            vstd::multiset::lemma_multiset_empty_len(Seq::<Card>::empty().to_multiset());
            vstd::seq_lib::to_multiset_contains(hand@, c);
        }
        let i = match position_of(hand, c) {
            Some(i) => i,
            None => {
                proof {
                    assert(false);
                }
                0
            },
        };
        proof {
            vstd::seq_lib::to_multiset_remove(hand@, i as int);
        }
        hand.0.remove(i);
        k = k + 1;
    }
    assert(cards@.take(k as int) =~= cards@);
    proof {
        vstd::seq_lib::to_multiset_len(orig);
        vstd::seq_lib::to_multiset_len(hand@);
        vstd::seq_lib::to_multiset_len(cards@);
    }
}

proof fn lemma_subset_wf(cs: Seq<Card>, hand: Seq<Card>)
    requires
        cs.to_multiset().subset_of(hand.to_multiset()),
        cards_wf(hand),
    ensures
        cards_wf(cs),
{
    assert forall|k: int| 0 <= k < cs.len() implies #[trigger] crate::card::card_wf(cs[k]) by {
        vstd::seq_lib::to_multiset_contains(cs, cs[k]);
        vstd::seq_lib::to_multiset_contains(hand, cs[k]);
        assert(cs.contains(cs[k]));
        let j = choose|j: int| 0 <= j < hand.len() && hand[j] == cs[k];
        assert(crate::card::card_wf(hand[j]));
    }
}

pub struct BurracoGame {
    state: BurracoState,
    phase: GamePhase,
}

/// Position of the first `c` in `s`.
pub open spec fn first_index_of(s: Seq<Card>, c: Card) -> int
    decreases s.len(),
{
    if s.len() == 0 || s[0] == c {
        0
    } else {
        1 + first_index_of(s.drop_first(), c)
    }
}

/// The match is over and `ph` names the team with the first highest score.
pub open spec fn finished_for(st: BurracoState, ph: GamePhase) -> bool {
    ph matches GamePhase::Finished(w) && is_first_max(team_scores(st), w as int)
}

/// `b` passes the turn on from `a`: the next player in turn order plays,
/// and the round count goes up when the turn comes back to the first player.
pub open spec fn turn_passed(a: BurracoState, b: BurracoState) -> bool {
    &&& b.player_turn == (a.player_turn + 1) % (a.player_team_idxs@.len() as int)
    &&& b.round == if b.player_turn == a.first_player { a.round + 1 } else { a.round as int }
}

pub open spec fn turn_kept(a: BurracoState, b: BurracoState) -> bool {
    b.player_turn == a.player_turn && b.round == a.round
}

impl BurracoGame {
    pub closed spec fn game_state(&self) -> BurracoState {
        self.state
    }

    pub closed spec fn game_phase(&self) -> GamePhase {
        self.phase
    }

    /// The game's own consistency: a well-formed table holding all the cards
    /// in play, a draw pile that is not empty until the match is over, and a
    /// winner that names a team.
    pub closed spec fn inv(&self) -> bool {
        &&& self.state.wf()
        &&& card_count(self.state) == MAX_CARDS
        &&& !(self.phase is Finished) ==> self.state.draw_pile@.len() > 0
        &&& self.phase matches GamePhase::Finished(w) ==> w < self.state.num_teams
    }

    pub fn from(state: BurracoState) -> (r: BurracoGame)
        requires
            state.wf(),
            card_count(state) == MAX_CARDS,
            state.draw_pile@.len() > 0,
        ensures
            r.inv(),
            r.game_state() == state,
            r.game_phase() == GamePhase::Draw,
    {
        BurracoGame { state, phase: GamePhase::Draw }
    }

    pub fn current_player(&self) -> (r: &Player)
        requires
            self.inv(),
        ensures
            *r == self.game_state().teams@[self.game_state().turn_slot().0 as int].players@[self.game_state().turn_slot().1 as int],
    {
        self.state.current_player()
    }

    pub fn current_team(&self) -> (r: &Team)
        requires
            self.inv(),
        ensures
            *r == self.game_state().teams@[self.game_state().turn_slot().0 as int],
    {
        let team = self.state.curr_team();
        &self.state.teams[team]
    }

    /// The table. It always holds as many cards as there are in play.
    pub fn state(&self) -> (r: &BurracoState)
        requires
            self.inv(),
        ensures
            *r == self.game_state(),
            r.wf(),
            card_count(*r) == MAX_CARDS,
    {
        &self.state
    }

    pub fn phase(&self) -> (r: GamePhase)
        ensures
            r == self.game_phase(),
    {
        self.phase
    }

    /// Score of each team, in team order.
    pub fn scoreboard(&self) -> (r: Vec<i32>)
        requires
            self.inv(),
        ensures
            r@.len() == self.game_state().teams@.len(),
            forall|i: int| 0 <= i < r@.len() ==> r@[i] as int == team_scores(self.game_state())[i],
    {
        self.state.team_scoreboard()
    }

    /// The team with the highest score; the first one on a tie.
    pub fn winning_team(&self) -> (r: usize)
        requires
            self.inv(),
        ensures
            is_first_max(team_scores(self.game_state()), r as int),
            r < self.game_state().num_teams,
    {
        winner_of(&self.state)
    }

    /// The current player takes the open pile, or the top card of the draw
    /// pile; the hand is sorted. An empty draw pile ends the match. Like
    /// every move, it keeps each card on the table: none is made or lost.
    pub fn draw(&mut self, action: DrawAction) -> (r: Result<(), BurracoError>)
        requires
            old(self).inv(),
        ensures
            final(self).inv(),
            old(self).game_phase() != GamePhase::Draw ==> r == Err::<(), BurracoError>(BurracoError::WrongPhase)
                && *final(self) == *old(self),
            old(self).game_phase() == GamePhase::Draw ==> r is Ok && {
                let a = old(self).game_state();
                let b = final(self).game_state();
                let (t, p) = a.turn_slot();
                &&& table_same_but(a, b, t as int, p as int)
                &&& b.teams@[t as int].played_runs == a.teams@[t as int].played_runs
                &&& b.teams@[t as int].has_reached_pot == a.teams@[t as int].has_reached_pot
                &&& b.pot1 == a.pot1 && b.pot2 == a.pot2
                &&& turn_kept(a, b)
                &&& sorted_by_key(hand_of(b, t as int, p as int), false)
                &&& match action {
                    DrawAction::DrawOpen => {
                        &&& hand_of(b, t as int, p as int).to_multiset() == hand_of(a, t as int, p as int).to_multiset().add(
                            a.open_pile@.to_multiset(),
                        )
                        &&& hand_of(b, t as int, p as int).len() == hand_of(a, t as int, p as int).len() + a.open_pile@.len()
                        &&& b.open_pile@.len() == 0
                        &&& b.draw_pile == a.draw_pile
                    },
                    DrawAction::DrawPile => {
                        &&& hand_of(b, t as int, p as int).to_multiset() == hand_of(a, t as int, p as int).to_multiset().insert(
                            a.draw_pile@.last(),
                        )
                        &&& hand_of(b, t as int, p as int).len() == hand_of(a, t as int, p as int).len() + 1
                        &&& b.draw_pile@ == a.draw_pile@.drop_last()
                        &&& b.open_pile == a.open_pile
                    },
                }
                &&& if b.draw_pile@.len() == 0 {
                    finished_for(b, final(self).game_phase())
                } else {
                    final(self).game_phase() == GamePhase::Play
                }
            },
            card_count(final(self).game_state()) == card_count(old(self).game_state()),
            table_cards(final(self).game_state()) == table_cards(old(self).game_state()),
    {
        broadcast use vstd::multiset::group_multiset_axioms;

        if self.phase != GamePhase::Draw {
            return Err(BurracoError::WrongPhase);
        }
        let ghost a = self.state;
        let (team, player) = self.state.curr_team_player();
        let mut hand = Cards(Vec::new());
        proof {
            lemma_no_cards(hand@);
        }
        self.state.swap_hand(team, player, &mut hand);
        let ghost s1 = self.state;
        let ghost h0 = hand@.to_multiset();
        let ghost mut taken = Multiset::<Card>::empty();
        proof {
            assert(cards_wf(hand_of(a, team as int, player as int)));
        }
        match action {
            DrawAction::DrawOpen => {
                let mut open = Cards(Vec::new());
                proof {
                    lemma_no_cards(open@);
                }
                std::mem::swap(&mut open, &mut self.state.open_pile);
                proof {
                    vstd::seq_lib::lemma_multiset_commutative(hand@, open@);
                    lemma_no_cards(self.state.open_pile@);
                    assert(table_cards(self.state).add(open@.to_multiset()) =~= table_cards(s1));
                    taken = open@.to_multiset();
                }
                hand.0.append(&mut open.0);
            },
            DrawAction::DrawPile => {
                let mut top = self.state.draw_pile.drain_back(1);
                proof {
                    assert(s1.draw_pile@ =~= self.state.draw_pile@ + top@);
                    vstd::seq_lib::lemma_multiset_commutative(self.state.draw_pile@, top@);
                    assert(table_cards(self.state).add(top@.to_multiset()) =~= table_cards(s1));
                    assert(top@ =~= seq![a.draw_pile@.last()]);
                    vstd::seq_lib::lemma_multiset_commutative(hand@, top@);
                    assert(cards_wf(a.draw_pile@));
                    assert(crate::card::card_wf(a.draw_pile@[a.draw_pile@.len() - 1]));
                    vstd::seq_lib::to_multiset_build(hand@, a.draw_pile@.last());
                    assert(hand@ + top@ =~= hand@.push(a.draw_pile@.last()));
                    taken = top@.to_multiset();
                }
                hand.0.append(&mut top.0);
            },
        }
        proof {
            assert(cards_wf(hand@)) by {
                assert forall|k: int| 0 <= k < hand@.len() implies #[trigger] crate::card::card_wf(hand@[k]) by {
                    let h0 = hand_of(a, team as int, player as int);
                    if k < h0.len() {
                        assert(hand@[k] == h0[k]);
                    } else {
                        match action {
                            DrawAction::DrawOpen => assert(hand@[k] == a.open_pile@[k - h0.len()]),
                            DrawAction::DrawPile => assert(hand@[k] == a.draw_pile@[a.draw_pile@.len() - 1]),
                        }
                    }
                }
            }
        }
        assert(table_cards(self.state).add(taken) == table_cards(s1));
        assert(hand@.to_multiset() == h0.add(taken));
        hand.sort();
        let ghost s2 = self.state;
        let ghost hs = hand@.to_multiset();
        self.state.swap_hand(team, player, &mut hand);
        proof {
            self.lemma_table_wf(a, team as int, player as int);
            lemma_no_cards(hand@);
            let e = Multiset::<Card>::empty();
            assert forall|v: Card| #[trigger] table_cards(self.state).count(v) == table_cards(a).count(v) by {
                assert(table_cards(self.state).add(e).count(v) == table_cards(s2).add(hs).count(v));
                assert(table_cards(s1).add(h0).count(v) == table_cards(a).add(e).count(v));
                assert(table_cards(s2).add(taken).count(v) == table_cards(s1).count(v));
                assert(hs.count(v) == h0.add(taken).count(v));
            }
            assert(table_cards(self.state) =~= table_cards(a));
        }
        if self.state.draw_pile.0.len() == 0 {
            let w = winner_of(&self.state);
            self.phase = GamePhase::Finished(w);
        } else {
            self.phase = GamePhase::Play;
        }
        Ok(())
    }

    /// The current player puts one card of their hand on the open pile. A
    /// hand left empty takes a pot and the same player goes on with a draw
    /// (a flying pot); with no pot to take, the match is over. Otherwise the
    /// turn passes.
    pub fn discard(&mut self, action: DiscardAction) -> (r: Result<(), BurracoError>)
        requires
            old(self).inv(),
            old(self).game_state().round < u32::MAX,
        ensures
            final(self).inv(),
            card_count(final(self).game_state()) == card_count(old(self).game_state()),
            table_cards(final(self).game_state()) == table_cards(old(self).game_state()),
            ({
                let a = old(self).game_state();
                let b = final(self).game_state();
                let (t, p) = a.turn_slot();
                let c = action.0;
                let hand = hand_of(a, t as int, p as int);
                let rest = hand.remove(first_index_of(hand, c));
                if old(self).game_phase() != GamePhase::Discard {
                    r == Err::<(), BurracoError>(BurracoError::WrongPhase) && *final(self) == *old(self)
                } else if !hand.contains(c) {
                    r == Err::<(), BurracoError>(BurracoError::CardsNotInHand) && *final(self) == *old(self)
                } else {
                    &&& r is Ok
                    &&& table_same_but(a, b, t as int, p as int)
                    &&& b.teams@[t as int].played_runs == a.teams@[t as int].played_runs
                    &&& b.draw_pile == a.draw_pile
                    &&& b.open_pile@ == a.open_pile@.push(c)
                    &&& if rest.len() > 0 {
                        &&& hand_of(b, t as int, p as int) == rest
                        &&& b.pot1 == a.pot1 && b.pot2 == a.pot2
                        &&& b.teams@[t as int].has_reached_pot == a.teams@[t as int].has_reached_pot
                        &&& final(self).game_phase() == GamePhase::Draw
                        &&& turn_passed(a, b)
                    } else if pot_open_to(a, t as int) {
                        &&& pot_taken(a, b, t as int, p as int)
                        &&& sorted_by_key(hand_of(b, t as int, p as int), false)
                        &&& final(self).game_phase() == GamePhase::Draw
                        &&& turn_kept(a, b)
                    } else {
                        &&& hand_of(b, t as int, p as int).len() == 0
                        &&& b.pot1 == a.pot1 && b.pot2 == a.pot2
                        &&& b.teams@[t as int].has_reached_pot == a.teams@[t as int].has_reached_pot
                        &&& finished_for(b, final(self).game_phase())
                        &&& turn_kept(a, b)
                    }
                }
            }),
    {
        if self.phase != GamePhase::Discard {
            return Err(BurracoError::WrongPhase);
        }
        let ghost a = self.state;
        let (team, player) = self.state.curr_team_player();
        let card = action.0;
        let found = position_of(&self.state.teams[team].players[player].hand, card);
        let index = match found {
            None => {
                return Err(BurracoError::CardsNotInHand);
            },
            Some(i) => i,
        };
        let mut hand = Cards(Vec::new());
        proof {
            lemma_no_cards(hand@);
        }
        self.state.swap_hand(team, player, &mut hand);
        let ghost s1 = self.state;
        let ghost h0 = hand@;
        proof {
            assert(cards_wf(hand@));
            assert(crate::card::card_wf(hand@[index as int]));
        }
        let removed = hand.0.remove(index);
        self.state.open_pile.0.push(removed);
        let ghost s2 = self.state;
        let ghost h1 = hand@;
        proof {
            broadcast use vstd::multiset::group_multiset_axioms;

            vstd::seq_lib::to_multiset_remove(h0, index as int);
            vstd::seq_lib::to_multiset_build(s1.open_pile@, removed);
            vstd::seq_lib::to_multiset_contains(h0, removed);
            assert(h0.contains(removed));
            assert(table_cards(s2) =~= table_cards(s1).insert(removed));
            assert(h1.to_multiset().insert(removed) =~= h0.to_multiset());
        }
        proof {
            assert(cards_wf(self.state.open_pile@)) by {
                assert forall|k: int| 0 <= k < self.state.open_pile@.len() implies #[trigger] crate::card::card_wf(self.state.open_pile@[k]) by {
                    if k < a.open_pile@.len() {
                        assert(self.state.open_pile@[k] == a.open_pile@[k]);
                    }
                }
            }
            assert(cards_wf(hand@)) by {
                assert forall|k: int| 0 <= k < hand@.len() implies #[trigger] crate::card::card_wf(hand@[k]) by {
                    let h0 = hand_of(a, team as int, player as int);
                    if k < index {
                        assert(hand@[k] == h0[k]);
                    } else {
                        assert(hand@[k] == h0[k + 1]);
                    }
                }
            }
        }
        let mut flying = false;
        if hand.0.len() == 0 && !self.state.teams[team].has_reached_pot {
            proof {
                lemma_no_cards(hand@);
            }
            if self.state.pot1.0.len() > 0 {
                std::mem::swap(&mut hand, &mut self.state.pot1);
                proof {
                    lemma_no_cards(self.state.pot1@);
                    assert(table_cards(self.state).add(hand@.to_multiset()) =~= table_cards(s2).add(h1.to_multiset()));
                }
                hand.sort();
                self.state.set_reached_pot(team);
                flying = true;
            } else if self.state.pot2.0.len() > 0 {
                std::mem::swap(&mut hand, &mut self.state.pot2);
                proof {
                    lemma_no_cards(self.state.pot2@);
                    assert(table_cards(self.state).add(hand@.to_multiset()) =~= table_cards(s2).add(h1.to_multiset()));
                }
                hand.sort();
                self.state.set_reached_pot(team);
                flying = true;
            }
        }
        assert(table_cards(self.state).add(hand@.to_multiset()) == table_cards(s2).add(h1.to_multiset()));
        let ghost s3 = self.state;
        let ghost hs = hand@.to_multiset();
        let empty = hand.0.len() == 0;
        self.state.swap_hand(team, player, &mut hand);
        proof {
            self.lemma_table_wf(a, team as int, player as int);
            lemma_no_cards(hand@);
            let e = Multiset::<Card>::empty();
            assert forall|v: Card| #[trigger] table_cards(self.state).count(v) == table_cards(a).count(v) by {
                assert(table_cards(self.state).add(e).count(v) == table_cards(s3).add(hs).count(v));
                assert(table_cards(s3).add(hs).count(v) == table_cards(s2).add(h1.to_multiset()).count(v));
                assert(table_cards(s2).count(v) == table_cards(s1).insert(removed).count(v));
                assert(h1.to_multiset().insert(removed).count(v) == h0.to_multiset().count(v));
                assert(table_cards(s1).add(h0.to_multiset()).count(v) == table_cards(a).add(e).count(v));
            }
            assert(table_cards(self.state) =~= table_cards(a));
        }
        if flying {
            self.phase = GamePhase::Draw;
        } else if empty {
            let w = winner_of(&self.state);
            self.phase = GamePhase::Finished(w);
        } else {
            self.phase = GamePhase::Draw;
            let n = self.state.player_team_idxs.len();
            self.state.player_turn = (self.state.player_turn + 1) % n;
            if self.state.player_turn == self.state.first_player {
                self.state.round = self.state.round + 1;
            }
        }
        Ok(())
    }

    /// Checks an action against the hand and the runs without changing
    /// anything: the cards it places, and the run it adds or the index of the
    /// run it rebuilds together with the rebuilt run.
    fn validate_play(&self, team: usize, player: usize, action: PlayAction) -> (r: Result<
        (Vec<Card>, Option<usize>, Option<Run>),
        BurracoError,
    >)
        requires
            self.inv(),
            (team, player) == self.game_state().turn_slot(),
        ensures
            ({
                let a = self.game_state();
                let hand = hand_of(a, team as int, player as int);
                let runs = a.teams@[team as int].played_runs@;
                match r {
                    Err(e) => play_refused(a, action, e),
                    Ok((placed, slot, nr)) => {
                        &&& placed@ == placed_cards(action)
                        &&& placed@.to_multiset().subset_of(hand.to_multiset())
                        &&& cards_wf(placed@)
                        &&& match (slot, nr) {
                            (None, None) => play_applied(a, action, runs) && placed@.len() == 0,
                            (None, Some(run)) => play_applied(a, action, runs.push(run)) && run@.len() == placed@.len()
                                && run@ == placed@,
                            (Some(i), Some(run)) => i < runs.len() && play_applied(a, action, runs.update(i as int, run))
                                && run@.len() == runs[i as int]@.len() + placed@.len() && run@.to_multiset()
                                == runs[i as int]@.to_multiset().add(placed@.to_multiset()),
                            _ => false,
                        }
                    },
                }
            }),
    {
        proof {
            self.state.lemma_slot_in_range(self.state.player_turn as int);
        }
        let ghost a = self.state;
        let holder = &self.state.teams[team].players[player];
        let runs = &self.state.teams[team].played_runs;
        proof {
            assert(cards_wf(holder.hand@));
        }
        match action {
            PlayAction::Noop => {
                let none: Vec<Card> = Vec::new();
                assert(none@ =~= placed_cards(action));
                proof {
                    vstd::seq_lib::to_multiset_len(none@);
                    vstd::multiset::lemma_multiset_empty_len(none@.to_multiset());
                }
                Ok((none, None, None))
            },
            PlayAction::StartRun(run) => {
                let placed = crate::run::copy_cards(&run.cards().0);
                if !cards_in_hand(run.cards(), holder) {
                    return Err(BurracoError::CardsNotInHand);
                }
                proof {
                    lemma_subset_wf(run@, holder.hand@);
                }
                Ok((placed, None, Some(run)))
            },
            PlayAction::AppendTop(i, cs) => {
                if !cards_in_hand(&cs, holder) {
                    return Err(BurracoError::CardsNotInHand);
                }
                if i >= runs.len() {
                    return Err(BurracoError::NoSuchRun);
                }
                proof {
                    lemma_subset_wf(cs@, holder.hand@);
                }
                let nr = match runs[i].append(&cs, Append::Top) {
                    Ok(nr) => nr,
                    Err(e) => {
                        return Err(e);
                    },
                };
                proof {
                    vstd::seq_lib::to_multiset_len(nr@);
                    vstd::seq_lib::to_multiset_len(appended(runs@[i as int]@, cs@, Append::Top));
                    assert(build_outcome(runs@[i as int].spec_run_type(), appended(runs@[i as int]@, cs@, Append::Top), Ok(nr)));
                    assert(play_applied(a, action, runs@.update(i as int, nr)));
                    vstd::seq_lib::lemma_multiset_commutative(runs@[i as int]@, cs@);
                    assert(nr@.to_multiset() =~= runs@[i as int]@.to_multiset().add(cs@.to_multiset())) by {
                        broadcast use vstd::multiset::group_multiset_axioms;
                    }
                }
                Ok((cs.0, Some(i), Some(nr)))
            },
            PlayAction::AppendBottom(i, cs) => {
                if !cards_in_hand(&cs, holder) {
                    return Err(BurracoError::CardsNotInHand);
                }
                if i >= runs.len() {
                    return Err(BurracoError::NoSuchRun);
                }
                proof {
                    lemma_subset_wf(cs@, holder.hand@);
                }
                let nr = match runs[i].append(&cs, Append::Bottom) {
                    Ok(nr) => nr,
                    Err(e) => {
                        return Err(e);
                    },
                };
                proof {
                    vstd::seq_lib::to_multiset_len(nr@);
                    vstd::seq_lib::to_multiset_len(appended(runs@[i as int]@, cs@, Append::Bottom));
                    assert(build_outcome(runs@[i as int].spec_run_type(), appended(runs@[i as int]@, cs@, Append::Bottom), Ok(nr)));
                    assert(play_applied(a, action, runs@.update(i as int, nr)));
                    vstd::seq_lib::lemma_multiset_commutative(cs@, runs@[i as int]@);
                    assert(nr@.to_multiset() =~= runs@[i as int]@.to_multiset().add(cs@.to_multiset())) by {
                        broadcast use vstd::multiset::group_multiset_axioms;
                    }
                }
                Ok((cs.0, Some(i), Some(nr)))
            },
            PlayAction::ReplaceWildcard(i, at, c) => {
                let mut one: Vec<Card> = Vec::new();
                one.push(c);
                let cs = Cards(one);
                assert(cs@ =~= seq![c]);
                if !cards_in_hand(&cs, holder) {
                    return Err(BurracoError::CardsNotInHand);
                }
                if i >= runs.len() {
                    return Err(BurracoError::NoSuchRun);
                }
                proof {
                    lemma_subset_wf(cs@, holder.hand@);
                    assert(crate::card::card_wf(cs@[0]));
                }
                let nr = match runs[i].replace_wildcard(at, &c) {
                    Ok(nr) => nr,
                    Err(e) => {
                        return Err(e);
                    },
                };
                proof {
                    broadcast use vstd::multiset::group_multiset_axioms;

                    assert(replace_outcome(runs@[i as int], at as int, c, Ok(nr)));
                    assert(play_applied(a, action, runs@.update(i as int, nr)));
                    let old_cards = runs@[i as int]@;
                    let upd = old_cards.update(at as int, c);
                    vstd::seq_lib::lemma_multiset_commutative(seq![old_cards[at as int]], upd);
                    vstd::seq_lib::to_multiset_update(old_cards, at as int, c);
                    assert(seq![old_cards[at as int]] =~= Seq::<Card>::empty().push(old_cards[at as int]));
                    vstd::seq_lib::to_multiset_build(Seq::<Card>::empty(), old_cards[at as int]);
                    lemma_no_cards(Seq::<Card>::empty());
                    vstd::seq_lib::to_multiset_contains(old_cards, old_cards[at as int]);
                    assert(old_cards.contains(old_cards[at as int]));
                    assert(cs@ =~= Seq::<Card>::empty().push(c));
                    vstd::seq_lib::to_multiset_build(Seq::<Card>::empty(), c);
                    assert(nr@.to_multiset() =~= old_cards.to_multiset().add(cs@.to_multiset()));
                }
                Ok((cs.0, Some(i), Some(nr)))
            },
            PlayAction::MoveCard(i, from, to) => {
                if from == to {
                    return Err(BurracoError::InvalidPosition);
                }
                if i >= runs.len() {
                    return Err(BurracoError::NoSuchRun);
                }
                let nr = match runs[i].move_card(from, to) {
                    Ok(nr) => nr,
                    Err(e) => {
                        return Err(e);
                    },
                };
                proof {
                    assert(move_outcome(runs@[i as int], from as int, to as int, Ok(nr)));
                    assert(play_applied(a, action, runs@.update(i as int, nr)));
                }
                let none: Vec<Card> = Vec::new();
                assert(none@ =~= placed_cards(action));
                proof {
                    broadcast use vstd::multiset::group_multiset_axioms;

                    vstd::seq_lib::to_multiset_len(none@);
                    vstd::multiset::lemma_multiset_empty_len(none@.to_multiset());
                    let old_cards = runs@[i as int]@;
                    let ins = old_cards.insert(to as int, old_cards[from as int]);
                    let idx = if to < from { from + 1 } else { from as int };
                    vstd::seq_lib::to_multiset_insert(old_cards, to as int, old_cards[from as int]);
                    assert(ins[idx] == old_cards[from as int]);
                    vstd::seq_lib::to_multiset_remove(ins, idx);
                    assert(nr@ == ins.remove(idx));
                    assert(nr@.to_multiset() =~= old_cards.to_multiset().add(none@.to_multiset()));
                }
                Ok((none, Some(i), Some(nr)))
            },
        }
    }

    /// Applies one action of the play phase. `Noop` ends the play; any other
    /// action takes its cards from the hand and changes the team's runs, which
    /// are then re-sorted, and play goes on while the hand holds cards. A
    /// refused action changes nothing. A hand left empty takes a pot and the
    /// play ends: the player discards, and plays the pot after the next draw.
    /// With no pot to take, the match is over.
    pub fn play(&mut self, action: PlayAction) -> (r: Result<(), BurracoError>)
        requires
            old(self).inv(),
        ensures
            final(self).inv(),
            card_count(final(self).game_state()) == card_count(old(self).game_state()),
            table_cards(final(self).game_state()) == table_cards(old(self).game_state()),
            old(self).game_phase() != GamePhase::Play ==> r == Err::<(), BurracoError>(BurracoError::WrongPhase)
                && *final(self) == *old(self),
            old(self).game_phase() == GamePhase::Play ==> match r {
                Err(e) => *final(self) == *old(self) && play_refused(old(self).game_state(), action, e),
                Ok(()) => {
                    let a = old(self).game_state();
                    let b = final(self).game_state();
                    let (t, p) = a.turn_slot();
                    let hand = hand_of(a, t as int, p as int);
                    let placed = placed_cards(action);
                    let next = if action is Noop { GamePhase::Discard } else { GamePhase::Play };
                    &&& placed.to_multiset().subset_of(hand.to_multiset())
                    &&& table_same_but(a, b, t as int, p as int)
                    &&& b.draw_pile == a.draw_pile && b.open_pile == a.open_pile
                    &&& turn_kept(a, b)
                    &&& exists|nr: Seq<Run>|
                        play_applied(a, action, nr) && b.teams@[t as int].played_runs@.to_multiset()
                            == nr.to_multiset()
                    &&& runs_sorted(b.teams@[t as int].played_runs@)
                    &&& if hand.len() > placed.len() {
                        &&& hand_of(b, t as int, p as int).to_multiset().add(placed.to_multiset()) == hand.to_multiset()
                        &&& placed.len() == 0 ==> hand_of(b, t as int, p as int) == hand
                        &&& b.pot1 == a.pot1 && b.pot2 == a.pot2
                        &&& b.teams@[t as int].has_reached_pot == a.teams@[t as int].has_reached_pot
                        &&& final(self).game_phase() == next
                    } else if pot_open_to(a, t as int) {
                        &&& pot_handed(a, b, t as int, p as int)
                        &&& final(self).game_phase() == GamePhase::Discard
                    } else {
                        &&& hand_of(b, t as int, p as int).len() == 0
                        &&& b.pot1 == a.pot1 && b.pot2 == a.pot2
                        &&& b.teams@[t as int].has_reached_pot == a.teams@[t as int].has_reached_pot
                        &&& finished_for(b, final(self).game_phase())
                    }
                },
            },
    {
        if self.phase != GamePhase::Play {
            return Err(BurracoError::WrongPhase);
        }
        let ghost a = self.state;
        let (team, player) = self.state.curr_team_player();
        let is_noop = match &action {
            PlayAction::Noop => true,
            _ => false,
        };
        let (placed, slot, new_run) = match self.validate_play(team, player, action) {
            Ok(v) => v,
            Err(e) => {
                return Err(e);
            },
        };
        let ghost old_runs = a.teams@[team as int].played_runs@;
        let mut hand = Cards(Vec::new());
        proof {
            lemma_no_cards(hand@);
        }
        self.state.swap_hand(team, player, &mut hand);
        let ghost s1 = self.state;
        let ghost h0 = hand@.to_multiset();
        let placed = Cards(placed);
        remove_from_hand(&mut hand, &placed);
        let ghost h1 = hand@.to_multiset();
        let ghost pl = placed@.to_multiset();
        proof {
            let h0 = hand_of(a, team as int, player as int);
            assert(cards_wf(h0));
            assert(hand@.to_multiset().subset_of(h0.to_multiset())) by {
                broadcast use vstd::multiset::group_multiset_axioms;
            }
            lemma_subset_wf(hand@, h0);
        }
        let mut runs: Vec<Run> = Vec::new();
        proof {
            assert(runs@.len() == 0);
            assert(cards_of_runs(runs@) == Multiset::<Card>::empty());
        }
        self.state.swap_runs(team, &mut runs);
        let ghost s2 = self.state;
        let ghost r0 = cards_of_runs(runs@);
        match new_run {
            Some(run) => match slot {
                Some(i) => {
                    let ghost before = runs@;
                    runs[i] = run;
                    proof {
                        lemma_cards_of_runs_update(before, i as int, run);
                        assert(runs@ == before.update(i as int, run));
                        assert forall|v: Card| #[trigger] cards_of_runs(runs@).count(v) == r0.add(pl).count(v) by {
                            broadcast use vstd::multiset::group_multiset_axioms;

                            assert(cards_of_runs(runs@).add(before[i as int]@.to_multiset()).count(v) == r0.add(
                                run@.to_multiset(),
                            ).count(v));
                        }
                        assert(cards_of_runs(runs@) =~= r0.add(pl));
                        crate::state::lemma_sum_update(run_lens(old_runs), i as int, run@.len() as int);
                        assert(run_lens(runs@) =~= run_lens(old_runs).update(i as int, run@.len() as int));
                    }
                },
                None => {
                    let ghost before = runs@;
                    runs.push(run);
                    proof {
                        lemma_cards_of_runs_push(before, run);
                        assert(cards_of_runs(runs@) =~= r0.add(pl));
                        crate::state::lemma_sum_push(run_lens(old_runs), run@.len() as int);
                        assert(run_lens(runs@) =~= run_lens(old_runs).push(run@.len() as int));
                    }
                },
            },
            None => {
                proof {
                    lemma_no_cards(placed@);
                    assert(cards_of_runs(runs@) =~= r0.add(pl));
                }
            },
        }
        assert(cards_of_runs(runs@) == r0.add(pl));
        sort_runs(&mut runs);
        let ghost s3 = self.state;
        let ghost r1 = cards_of_runs(runs@);
        self.state.swap_runs(team, &mut runs);
        let ghost s4 = self.state;
        proof {
            assert(cards_of_runs(runs@) == Multiset::<Card>::empty());
        }
        if is_noop {
            self.phase = GamePhase::Discard;
        }
        let mut finished = false;
        if hand.0.len() == 0 {
            proof {
                lemma_no_cards(hand@);
            }
            if !self.state.teams[team].has_reached_pot && self.state.pot1.0.len() > 0 {
                std::mem::swap(&mut hand, &mut self.state.pot1);
                proof {
                    lemma_no_cards(self.state.pot1@);
                    assert(table_cards(self.state).add(hand@.to_multiset()) =~= table_cards(s4).add(h1));
                }
                self.state.set_reached_pot(team);
                assert(cards_wf(a.pot1@));
                self.phase = GamePhase::Discard;
            } else if !self.state.teams[team].has_reached_pot && self.state.pot2.0.len() > 0 {
                std::mem::swap(&mut hand, &mut self.state.pot2);
                proof {
                    lemma_no_cards(self.state.pot2@);
                    assert(table_cards(self.state).add(hand@.to_multiset()) =~= table_cards(s4).add(h1));
                }
                self.state.set_reached_pot(team);
                assert(cards_wf(a.pot2@));
                self.phase = GamePhase::Discard;
            } else {
                finished = true;
            }
        }
        assert(table_cards(self.state).add(hand@.to_multiset()) == table_cards(s4).add(h1));
        let ghost s5 = self.state;
        let ghost hf = hand@.to_multiset();
        self.state.swap_hand(team, player, &mut hand);
        proof {
            self.lemma_table_wf(a, team as int, player as int);
            lemma_no_cards(hand@);
            let e = Multiset::<Card>::empty();
            assert forall|v: Card| #[trigger] table_cards(self.state).count(v) == table_cards(a).count(v) by {
                assert(table_cards(self.state).add(e).count(v) == table_cards(s5).add(hf).count(v));
                assert(table_cards(s5).add(hf).count(v) == table_cards(s4).add(h1).count(v));
                assert(table_cards(s4).add(e).count(v) == table_cards(s3).add(r1).count(v));
                assert(table_cards(s2).add(r0).count(v) == table_cards(s1).add(e).count(v));
                assert(r1.count(v) == r0.add(pl).count(v));
                assert(h0.count(v) == h1.add(pl).count(v));
                assert(table_cards(s1).add(h0).count(v) == table_cards(a).add(e).count(v));
            }
            assert(table_cards(self.state) =~= table_cards(a));
        }
        if finished {
            let w = winner_of(&self.state);
            self.phase = GamePhase::Finished(w);
        }
        Ok(())
    }

    /// The table stays well formed when one team's hands, runs and pot flag
    /// change, as long as hands hold proper cards and no card is made.
    proof fn lemma_table_wf(&self, a: BurracoState, t: int, p: int)
        requires
            a.wf(),
            0 <= t < a.num_teams,
            0 <= p < a.num_team_players,
            table_same_but(a, self.state, t, p),
            cards_wf(hand_of(self.state, t, p)),
            cards_wf(self.state.draw_pile@),
            cards_wf(self.state.open_pile@),
            cards_wf(self.state.pot1@),
            cards_wf(self.state.pot2@),
            self.state.player_turn < a.player_team_idxs@.len(),
            card_count(self.state) == card_count(a),
        ensures
            self.state.wf(),
    {
        let b = self.state;
        assert forall|u: int| 0 <= u < b.num_teams implies (#[trigger] b.teams@[u]).players@.len() == b.num_team_players by {
            if u != t {
                assert(b.teams@[u] == a.teams@[u]);
            }
        }
        assert forall|u: int, q: int|
            0 <= u < b.num_teams && 0 <= q < b.num_team_players implies cards_wf(
                #[trigger] b.teams@[u].players@[q].hand@,
            ) by {
            if u != t {
                assert(b.teams@[u] == a.teams@[u]);
                assert(cards_wf(a.teams@[u].players@[q].hand@));
            } else if q != p {
                assert(b.teams@[u].players@[q] == a.teams@[u].players@[q]);
                assert(cards_wf(a.teams@[u].players@[q].hand@));
            }
        }
    }
}

/// Each state of `states` passes the turn on from the one before, around a
/// table of the same players with the same first player.
pub open spec fn turns_passed(states: Seq<BurracoState>) -> bool {
    forall|i: int|
        0 <= i < states.len() - 1 ==> {
            &&& turn_passed(#[trigger] states[i], states[i + 1])
            &&& states[i + 1].first_player == states[0].first_player
            &&& states[i + 1].player_team_idxs@.len() == states[0].player_team_idxs@.len()
        }
}

/// Turns go round the table in order. From the first player, after `i`
/// passes of the turn (`i` up to the number of players `n`) the turn is with
/// player `(first + i) % n`, and the round count has risen by one only once
/// all `n` players have played, when the turn is back with the first player.
pub proof fn lemma_turns_go_round(states: Seq<BurracoState>)
    requires
        states.len() >= 1,
        states.len() - 1 <= states[0].player_team_idxs@.len(),
        states[0].first_player < states[0].player_team_idxs@.len(),
        states[0].player_turn == states[0].first_player,
        turns_passed(states),
    ensures
        forall|i: int|
            0 <= i < states.len() ==> {
                &&& (#[trigger] states[i]).player_turn == (states[0].first_player + i) % (states[0].player_team_idxs@.len() as int)
                &&& states[i].round == states[0].round + if i == states[0].player_team_idxs@.len() { 1int } else { 0int }
            },
{
    assert forall|i: int| 0 <= i < states.len() implies {
        &&& (#[trigger] states[i]).player_turn == (states[0].first_player + i) % (states[0].player_team_idxs@.len() as int)
        &&& states[i].round == states[0].round + if i == states[0].player_team_idxs@.len() { 1int } else { 0int }
    } by {
        lemma_turn_after(states, i);
    }
}

proof fn lemma_turn_after(states: Seq<BurracoState>, i: int)
    requires
        states.len() >= 1,
        states.len() - 1 <= states[0].player_team_idxs@.len(),
        states[0].first_player < states[0].player_team_idxs@.len(),
        states[0].player_turn == states[0].first_player,
        turns_passed(states),
        0 <= i < states.len(),
    ensures
        states[i].player_turn == (states[0].first_player + i) % (states[0].player_team_idxs@.len() as int),
        states[i].round == states[0].round + if i == states[0].player_team_idxs@.len() { 1int } else { 0int },
        states[i].first_player == states[0].first_player,
        states[i].player_team_idxs@.len() == states[0].player_team_idxs@.len(),
    decreases i,
{
    let n = states[0].player_team_idxs@.len() as int;
    let f = states[0].first_player as int;
    if i == 0 {
        vstd::arithmetic::div_mod::lemma_small_mod(f as nat, n as nat);
    } else {
        lemma_turn_after(states, i - 1);
        let prev = states[i - 1];
        assert(turn_passed(prev, states[i]));
        let t = if f + i - 1 < n { f + i - 1 } else { f + i - 1 - n };
        if f + i - 1 < n {
            vstd::arithmetic::div_mod::lemma_small_mod((f + i - 1) as nat, n as nat);
        } else {
            vstd::arithmetic::div_mod::lemma_fundamental_div_mod_converse(f + i - 1, n, 1, f + i - 1 - n);
        }
        assert(prev.player_turn == t);
        if t + 1 < n {
            vstd::arithmetic::div_mod::lemma_small_mod((t + 1) as nat, n as nat);
        } else {
            vstd::arithmetic::div_mod::lemma_mod_self_0(n);
        }
        if f + i < n {
            vstd::arithmetic::div_mod::lemma_small_mod((f + i) as nat, n as nat);
        } else if f + i < 2 * n {
            vstd::arithmetic::div_mod::lemma_fundamental_div_mod_converse(f + i, n, 1, f + i - n);
        }
        assert(states[i].player_turn == (f + i) % n);
        assert(states[i].player_turn == f <==> i == n);
    }
}

} // verus!
