//! The move generator: every action the current player may take in the
//! play phase, each with the change of score it brings.

use vstd::prelude::*;

use crate::actions::{PlayAction, move_outcome, replace_outcome};
use crate::card::{Card, Cards, MAX_CARDS, Rank, cards_wf, is_wild_rank, rank_index};
use crate::run::{
    Append, Run, RunType, appended, build_outcome, group_outcome, run_score, sequence_outcome,
    sequence_verdict,
};

verus! {

pub open spec fn triple(h: Seq<Card>, i: int, j: int, k: int) -> Seq<Card> {
    seq![h[i], h[j], h[k]]
}

pub open spec fn distinct_in(n: int, i: int, j: int, k: int) -> bool {
    0 <= i < n && 0 <= j < n && 0 <= k < n && i != j && j != k && i != k
}

pub open spec fn score_of(r: Run) -> int {
    run_score(r@, r.spec_run_type())
}

/// `run` is a sequence or a group of three distinct cards of the hand, in
/// the order the builder keeps.
pub open spec fn started_from_hand(hand: Seq<Card>, run: Run) -> bool {
    exists|i: int, j: int, k: int|
        distinct_in(hand.len() as int, i, j, k) && (sequence_outcome(#[trigger] triple(hand, i, j, k), Ok(run))
            || group_outcome(triple(hand, i, j, k), Ok(run)))
}

/// `cs` is one card of the hand.
pub open spec fn one_hand_card(hand: Seq<Card>, cs: Seq<Card>) -> bool {
    exists|i: int| 0 <= i < hand.len() && cs == seq![#[trigger] hand[i]]
}

/// Appending `cs` to `run` succeeds and changes its score by `delta`.
pub open spec fn append_gain(run: Run, cs: Seq<Card>, to: Append, delta: int) -> bool {
    exists|nr: Run|
        build_outcome(run.spec_run_type(), appended(run@, cs, to), Ok(nr)) && delta == #[trigger] score_of(nr)
            - score_of(run)
}

pub open spec fn replace_gain(run: Run, at: int, c: Card, delta: int) -> bool {
    exists|nr: Run| replace_outcome(run, at, c, Ok(nr)) && delta == #[trigger] score_of(nr) - score_of(run)
}

pub open spec fn move_gain(run: Run, from: int, to: int, delta: int) -> bool {
    exists|nr: Run| move_outcome(run, from, to, Ok(nr)) && delta == #[trigger] score_of(nr) - score_of(run)
}

/// `e` is a legal action for a player holding `hand` whose team has `runs`,
/// and its second part is the change of the team's score it brings.
pub open spec fn listed_ok(runs: Seq<Run>, hand: Seq<Card>, moves_allowed: usize, e: (PlayAction, i32)) -> bool {
    let (action, delta) = e;
    match action {
        PlayAction::Noop => delta == 0,
        PlayAction::StartRun(run) => delta == score_of(run) && started_from_hand(hand, run),
        PlayAction::AppendTop(ri, cs) => ri < runs.len() && one_hand_card(hand, cs@) && append_gain(
            runs[ri as int],
            cs@,
            Append::Top,
            delta as int,
        ),
        PlayAction::AppendBottom(ri, cs) => ri < runs.len() && one_hand_card(hand, cs@) && append_gain(
            runs[ri as int],
            cs@,
            Append::Bottom,
            delta as int,
        ),
        PlayAction::ReplaceWildcard(ri, at, c) => {
            &&& ri < runs.len()
            &&& hand.contains(c)
            &&& c.1 != Rank::Joker
            &&& at < runs[ri as int]@.len()
            &&& is_wild_rank(runs[ri as int]@[at as int].1)
            &&& replace_gain(runs[ri as int], at as int, c, delta as int)
        },
        PlayAction::MoveCard(ri, from, to) => {
            &&& moves_allowed > 0
            &&& ri < runs.len()
            &&& runs[ri as int].spec_run_type() == RunType::Sequence
            &&& from < runs[ri as int]@.len()
            &&& (is_wild_rank(runs[ri as int]@[from as int].1) || runs[ri as int]@[from as int].1 == Rank::Ace)
            &&& move_gain(runs[ri as int], from as int, to as int, delta as int)
        },
    }
}

/// Some entry of `r` is an action that `p` accepts.
pub open spec fn has_entry(r: Seq<(PlayAction, i32)>, p: spec_fn(PlayAction) -> bool) -> bool {
    exists|x: int| 0 <= x < r.len() && p((#[trigger] r[x]).0)
}

/// Starting a sequence of exactly these cards, in this order.
pub open spec fn is_sequence_start(cards: Seq<Card>) -> spec_fn(PlayAction) -> bool {
    |a: PlayAction| a matches PlayAction::StartRun(run) && run@ == cards && run.spec_run_type() == RunType::Sequence
}

/// Starting a group of these cards, in any order.
pub open spec fn is_group_start(cards: Seq<Card>) -> spec_fn(PlayAction) -> bool {
    |a: PlayAction|
        a matches PlayAction::StartRun(run) && run@.to_multiset() == cards.to_multiset() && run.spec_run_type()
            == RunType::Group
}

/// Appending the single card `c` to run `j` at the end `to`.
pub open spec fn is_append(j: usize, c: Card, to: Append) -> spec_fn(PlayAction) -> bool {
    |a: PlayAction|
        match a {
            PlayAction::AppendTop(j2, cs) => to == Append::Top && j2 == j && cs@ == seq![c],
            PlayAction::AppendBottom(j2, cs) => to == Append::Bottom && j2 == j && cs@ == seq![c],
            _ => false,
        }
}

pub open spec fn is_action(b: PlayAction) -> spec_fn(PlayAction) -> bool {
    |a: PlayAction| a == b
}

/// The builder of a run of type `t` accepts the cards `s`.
pub open spec fn builds(t: RunType, s: Seq<Card>) -> bool {
    match t {
        RunType::Sequence => sequence_verdict(s) is Ok,
        RunType::Group => crate::run::group_verdict(s.to_multiset()) is Ok,
    }
}

proof fn lemma_entry_kept(r: Seq<(PlayAction, i32)>, r2: Seq<(PlayAction, i32)>, p: spec_fn(PlayAction) -> bool)
    requires
        has_entry(r, p),
        r.len() <= r2.len(),
        forall|x: int| 0 <= x < r.len() ==> #[trigger] r2[x] == r[x],
    ensures
        has_entry(r2, p),
{
    let x = choose|x: int| 0 <= x < r.len() && p((#[trigger] r[x]).0);
    assert(r2[x] == r[x]);
}

proof fn lemma_entry_pushed(r: Seq<(PlayAction, i32)>, e: (PlayAction, i32), p: spec_fn(PlayAction) -> bool)
    requires
        has_entry(r, p) || p(e.0),
    ensures
        has_entry(r.push(e), p),
{
    if has_entry(r, p) {
        lemma_entry_kept(r, r.push(e), p);
    } else {
        assert(r.push(e)[r.len() as int] == e);
    }
}

fn one_card(c: Card) -> (r: Cards)
    ensures
        r@ == seq![c],
{
    let mut v: Vec<Card> = Vec::new();
    v.push(c);
    assert(v@ =~= seq![c]);
    Cards(v)
}

fn three_cards(a: Card, b: Card, c: Card) -> (r: Cards)
    ensures
        r@ == seq![a, b, c],
{
    let mut v: Vec<Card> = Vec::new();
    v.push(a);
    v.push(b);
    v.push(c);
    assert(v@ =~= seq![a, b, c]);
    Cards(v)
}

/// Two natural cards that cannot open a sequence in this order.
proof fn lemma_pruned_pair(c1: Card, c2: Card, c3: Card)
    requires
        !is_wild_rank(c1.1),
        !is_wild_rank(c2.1),
        c1.0 != c2.0 || (c1.1 != Rank::Ace && rank_index(c1.1) != rank_index(c2.1) - 1),
    ensures
        sequence_verdict(seq![c1, c2, c3]) is Err,
{
    let s = seq![c1, c2, c3];
    assert(crate::run::first_natural(s) == 0);
    reveal_with_fuel(crate::run::seq_scan, 3);
}

/// `r` starts with the one `Noop` entry and lists only legal actions.
pub open spec fn well_listed(r: Seq<(PlayAction, i32)>, runs: Seq<Run>, hand: Seq<Card>, moves_allowed: usize) -> bool {
    &&& r.len() >= 1
    &&& r[0] == (PlayAction::Noop, 0i32)
    &&& forall|x: int| 1 <= x < r.len() ==> !((#[trigger] r[x]).0 is Noop)
    &&& forall|x: int| 0 <= x < r.len() ==> listed_ok(runs, hand, moves_allowed, #[trigger] r[x])
}

proof fn lemma_push_well_listed(
    r: Seq<(PlayAction, i32)>,
    e: (PlayAction, i32),
    runs: Seq<Run>,
    hand: Seq<Card>,
    moves_allowed: usize,
)
    requires
        well_listed(r, runs, hand, moves_allowed),
        listed_ok(runs, hand, moves_allowed, e),
        !(e.0 is Noop),
    ensures
        well_listed(r.push(e), runs, hand, moves_allowed),
{
    assert forall|x: int| 0 <= x < r.push(e).len() implies listed_ok(runs, hand, moves_allowed, #[trigger] r.push(e)[x]) by {
        if x < r.len() {
            assert(r.push(e)[x] == r[x]);
        }
    }
    assert forall|x: int| 1 <= x < r.push(e).len() implies !((#[trigger] r.push(e)[x]).0 is Noop) by {
        if x < r.len() {
            assert(r.push(e)[x] == r[x]);
        }
    }
}

impl PlayAction {
    /// Every action the player may take this turn, with its change of score:
    /// first `Noop`, then runs started from three hand cards (sequences,
    /// then groups), single cards appended to either end of a run, wildcards
    /// replaced by a hand card, and, when `moves_allowed` is not zero,
    /// wildcards and Aces moved within a sequence. The list is exhaustive:
    /// every such action that the run engine accepts is in it.
    pub fn enumerate(team_runs: &Vec<Run>, player_hand: &Cards, moves_allowed: usize) -> (r: Vec<(PlayAction, i32)>)
        requires
            cards_wf(player_hand@),
        ensures
            r@.len() >= 1,
            r@[0] == (PlayAction::Noop, 0i32),
            forall|x: int| 1 <= x < r@.len() ==> !((#[trigger] r@[x]).0 is Noop),
            forall|x: int| 0 <= x < r@.len() ==> listed_ok(team_runs@, player_hand@, moves_allowed, #[trigger] r@[x]),
            forall|i: int, j: int, k: int|
                distinct_in(player_hand@.len() as int, i, j, k) && sequence_verdict(
                    #[trigger] triple(player_hand@, i, j, k),
                ) is Ok ==> has_entry(r@, is_sequence_start(triple(player_hand@, i, j, k))),
            forall|i: int, j: int, k: int|
                0 <= i < j < k < player_hand@.len() && crate::run::group_verdict(
                    #[trigger] triple(player_hand@, i, j, k).to_multiset(),
                ) is Ok ==> has_entry(r@, is_group_start(triple(player_hand@, i, j, k))),
            forall|i: int, j: int|
                0 <= i < player_hand@.len() && 0 <= j < team_runs@.len() && #[trigger] builds(
                    team_runs@[j].spec_run_type(),
                    appended(team_runs@[j]@, seq![#[trigger] player_hand@[i]], Append::Top),
                ) ==> has_entry(r@, is_append(j as usize, player_hand@[i], Append::Top)),
            forall|i: int, j: int|
                0 <= i < player_hand@.len() && 0 <= j < team_runs@.len() && #[trigger] builds(
                    team_runs@[j].spec_run_type(),
                    appended(team_runs@[j]@, seq![#[trigger] player_hand@[i]], Append::Bottom),
                ) ==> has_entry(r@, is_append(j as usize, player_hand@[i], Append::Bottom)),
            forall|a: int, b: int, c: int|
                #[trigger] replace_works(team_runs@, player_hand@, a, b, c) ==> has_entry(
                    r@,
                    is_action(PlayAction::ReplaceWildcard(a as usize, c as usize, player_hand@[b])),
                ),
            moves_allowed > 0 ==> forall|a: int, f: int, t: int|
                #[trigger] move_works(team_runs@, a, f, t) ==> has_entry(
                    r@,
                    is_action(PlayAction::MoveCard(a as usize, f as usize, t as usize)),
                ),
    {
        let ghost runs = team_runs@;
        let ghost h = player_hand@;
        let n = player_hand.0.len();
        let mut actions: Vec<(PlayAction, i32)> = Vec::new();
        actions.push((PlayAction::Noop, 0));
        let mut i: usize = 0;
        while i < n
            invariant
                n == h.len(),
                h == player_hand@,
                runs == team_runs@,
                cards_wf(h),
                i <= n,
                well_listed(actions@, runs, h, moves_allowed),
                forall|a: int, b: int, c: int|
                    distinct_in(n as int, a, b, c) && a < i && sequence_verdict(#[trigger] triple(h, a, b, c)) is Ok
                        ==> has_entry(actions@, is_sequence_start(triple(h, a, b, c))),
            decreases n - i,
        {
            let c1 = player_hand.0[i];
            let mut j: usize = 0;
            while j < n
                invariant
                    n == h.len(),
                    h == player_hand@,
                    runs == team_runs@,
                    cards_wf(h),
                    i < n,
                    j <= n,
                    c1 == h[i as int],
                    well_listed(actions@, runs, h, moves_allowed),
                    forall|a: int, b: int, c: int|
                        distinct_in(n as int, a, b, c) && (a < i || (a == i && b < j)) && sequence_verdict(
                            #[trigger] triple(h, a, b, c),
                        ) is Ok ==> has_entry(actions@, is_sequence_start(triple(h, a, b, c))),
                decreases n - j,
            {
                if i == j {
                    j = j + 1;
                    continue;
                }
                let c2 = player_hand.0[j];
                proof {
                    assert(crate::card::card_wf(h[j as int]));
                    assert(crate::card::card_wf(h[i as int]));
                }
                let w1 = c1.1 == Rank::Two || c1.1 == Rank::Joker;
                let w2 = c2.1 == Rank::Two || c2.1 == Rank::Joker;
                if !w1 && !w2 && (c1.0 != c2.0 || (c1.1 != Rank::Ace && c1.1.index() != c2.1.index() - 1)) {
                    proof {
                        assert forall|c: int| 0 <= c < n implies sequence_verdict(#[trigger] triple(h, i as int, j as int, c)) is Err by {
                            lemma_pruned_pair(c1, c2, h[c]);
                        }
                    }
                    j = j + 1;
                    continue;
                }
                let mut k: usize = 0;
                while k < n
                    invariant
                        n == h.len(),
                        h == player_hand@,
                        runs == team_runs@,
                        cards_wf(h),
                        i < n,
                        j < n,
                        i != j,
                        k <= n,
                        c1 == h[i as int],
                        c2 == h[j as int],
                        well_listed(actions@, runs, h, moves_allowed),
                        forall|a: int, b: int, c: int|
                            distinct_in(n as int, a, b, c) && (a < i || (a == i && b < j) || (a == i && b == j && c < k))
                                && sequence_verdict(#[trigger] triple(h, a, b, c)) is Ok ==> has_entry(
                                actions@,
                                is_sequence_start(triple(h, a, b, c)),
                            ),
                    decreases n - k,
                {
                    if k == i || k == j {
                        k = k + 1;
                        continue;
                    }
                    let c3 = player_hand.0[k];
                    let cs = three_cards(c1, c2, c3);
                    proof {
                        assert(cs@ == triple(h, i as int, j as int, k as int));
                        assert(crate::card::card_wf(h[i as int]) && crate::card::card_wf(h[j as int])
                            && crate::card::card_wf(h[k as int]));
                    }
                    match Run::build_sequence_run(cs) {
                        Ok(run) => {
                            let sc = run.score();
                            let ghost before = actions@;
                            let entry = (PlayAction::StartRun(run), sc);
                            proof {
                                assert(distinct_in(h.len() as int, i as int, j as int, k as int));
                                assert(sequence_outcome(triple(h, i as int, j as int, k as int), Ok(run)));
                                assert(started_from_hand(h, run));
                                lemma_push_well_listed(before, entry, runs, h, moves_allowed);
                            }
                            actions.push(entry);
                            proof {
                                assert forall|a: int, b: int, c: int|
                                    distinct_in(n as int, a, b, c) && (a < i || (a == i && b < j) || (a == i && b == j
                                        && c < k + 1)) && sequence_verdict(#[trigger] triple(h, a, b, c)) is Ok
                                    implies has_entry(actions@, is_sequence_start(triple(h, a, b, c))) by {
                                    lemma_entry_pushed(before, entry, is_sequence_start(triple(h, a, b, c)));
                                }
                            }
                        },
                        Err(_) => {},
                    }
                    k = k + 1;
                }
                j = j + 1;
            }
            i = i + 1;
        }
        let ghost seq_done = actions@;
        let mut i: usize = 0;
        while i < n
            invariant
                n == h.len(),
                h == player_hand@,
                runs == team_runs@,
                cards_wf(h),
                i <= n,
                well_listed(actions@, runs, h, moves_allowed),
                seq_done.len() <= actions@.len(),
                forall|x: int| 0 <= x < seq_done.len() ==> #[trigger] actions@[x] == seq_done[x],
                forall|a: int, b: int, c: int|
                    0 <= a < b < c < n && (a < i) && crate::run::group_verdict(
                        #[trigger] triple(h, a, b, c).to_multiset(),
                    ) is Ok ==> has_entry(actions@, is_group_start(triple(h, a, b, c))),
            decreases n - i,
        {
            let mut j: usize = i + 1;
            while j < n
                invariant
                    n == h.len(),
                    h == player_hand@,
                    runs == team_runs@,
                    cards_wf(h),
                    i < n,
                    i < j <= n,
                    well_listed(actions@, runs, h, moves_allowed),
                    seq_done.len() <= actions@.len(),
                    forall|x: int| 0 <= x < seq_done.len() ==> #[trigger] actions@[x] == seq_done[x],
                    forall|a: int, b: int, c: int|
                    0 <= a < b < c < n && (a < i || (a == i && b < j)) && crate::run::group_verdict(
                        #[trigger] triple(h, a, b, c).to_multiset(),
                    ) is Ok ==> has_entry(actions@, is_group_start(triple(h, a, b, c))),
                decreases n - j,
            {
                let mut k: usize = j + 1;
                while k < n
                    invariant
                        n == h.len(),
                        h == player_hand@,
                        runs == team_runs@,
                        cards_wf(h),
                        i < j < n,
                        j < k <= n,
                        well_listed(actions@, runs, h, moves_allowed),
                        seq_done.len() <= actions@.len(),
                        forall|x: int| 0 <= x < seq_done.len() ==> #[trigger] actions@[x] == seq_done[x],
                        forall|a: int, b: int, c: int|
                    0 <= a < b < c < n && (a < i || (a == i && b < j) || (a == i && b == j && c < k)) && crate::run::group_verdict(
                        #[trigger] triple(h, a, b, c).to_multiset(),
                    ) is Ok ==> has_entry(actions@, is_group_start(triple(h, a, b, c))),
                    decreases n - k,
                {
                    let cs = three_cards(player_hand.0[i], player_hand.0[j], player_hand.0[k]);
                    proof {
                        assert(cs@ == triple(h, i as int, j as int, k as int));
                        assert(crate::card::card_wf(h[i as int]) && crate::card::card_wf(h[j as int])
                            && crate::card::card_wf(h[k as int]));
                    }
                    match Run::build_group_run(cs) {
                        Ok(run) => {
                            let sc = run.score();
                            let ghost before = actions@;
                            let entry = (PlayAction::StartRun(run), sc);
                            proof {
                                assert(distinct_in(h.len() as int, i as int, j as int, k as int));
                                assert(group_outcome(triple(h, i as int, j as int, k as int), Ok(run)));
                                assert(started_from_hand(h, run));
                                lemma_push_well_listed(before, entry, runs, h, moves_allowed);
                            }
                            actions.push(entry);
                            proof {
                                assert forall|a: int, b: int, c: int|
                                    0 <= a < b < c < n && (a < i || (a == i && b < j) || (a == i && b == j && c < k + 1))
                                        && crate::run::group_verdict(#[trigger] triple(h, a, b, c).to_multiset()) is Ok
                                    implies has_entry(actions@, is_group_start(triple(h, a, b, c))) by {
                                    lemma_entry_pushed(before, entry, is_group_start(triple(h, a, b, c)));
                                }
                            }
                        },
                        Err(_) => {},
                    }
                    k = k + 1;
                }
                j = j + 1;
            }
            i = i + 1;
        }
        proof {
            assert forall|a: int, b: int, c: int|
                distinct_in(n as int, a, b, c) && sequence_verdict(#[trigger] triple(h, a, b, c)) is Ok
                implies has_entry(seq_done, is_sequence_start(triple(h, a, b, c))) by {}
        }
        let ghost starts_done = actions@;
        proof {
            assert forall|a: int, b: int, c: int|
                0 <= a < b < c < n && crate::run::group_verdict(#[trigger] triple(h, a, b, c).to_multiset()) is Ok
                implies has_entry(starts_done, is_group_start(triple(h, a, b, c))) by {}
        }
        list_appends(team_runs, player_hand, moves_allowed, &mut actions);
        let ghost appends_done = actions@;
        list_replacements(team_runs, player_hand, moves_allowed, &mut actions);
        let ghost replacements_done = actions@;
        list_moves(team_runs, player_hand, moves_allowed, &mut actions);
        proof {
            assert forall|a: int, b: int, c: int|
                distinct_in(n as int, a, b, c) && sequence_verdict(#[trigger] triple(h, a, b, c)) is Ok
                implies has_entry(actions@, is_sequence_start(triple(h, a, b, c))) by {
                lemma_entry_kept(seq_done, actions@, is_sequence_start(triple(h, a, b, c)));
            }
            assert forall|a: int, b: int, c: int|
                0 <= a < b < c < n && crate::run::group_verdict(#[trigger] triple(h, a, b, c).to_multiset()) is Ok
                implies has_entry(actions@, is_group_start(triple(h, a, b, c))) by {
                lemma_entry_kept(starts_done, actions@, is_group_start(triple(h, a, b, c)));
            }
            assert forall|i: int, j: int, d: Append|
                0 <= i < h.len() && 0 <= j < runs.len() && has_entry(appends_done, #[trigger] is_append(j as usize, h[i], d))
                implies has_entry(actions@, is_append(j as usize, h[i], d)) by {
                lemma_entry_kept(appends_done, actions@, is_append(j as usize, h[i], d));
            }
            assert forall|a: int, b: int, c: int| #[trigger] replace_works(runs, h, a, b, c) implies has_entry(
                actions@,
                is_action(PlayAction::ReplaceWildcard(a as usize, c as usize, h[b])),
            ) by {
                lemma_entry_kept(
                    replacements_done,
                    actions@,
                    is_action(PlayAction::ReplaceWildcard(a as usize, c as usize, h[b])),
                );
            }
        }
        actions
    }
}

/// Adds every single hand card that can be appended to either end of a run.
fn list_appends(team_runs: &Vec<Run>, player_hand: &Cards, moves_allowed: usize, actions: &mut Vec<(PlayAction, i32)>)
    requires
        cards_wf(player_hand@),
        well_listed(old(actions)@, team_runs@, player_hand@, moves_allowed),
    ensures
        well_listed(final(actions)@, team_runs@, player_hand@, moves_allowed),
        old(actions)@.len() <= final(actions)@.len(),
        forall|x: int| 0 <= x < old(actions)@.len() ==> #[trigger] final(actions)@[x] == old(actions)@[x],
        forall|i: int, j: int|
            0 <= i < player_hand@.len() && 0 <= j < team_runs@.len() && #[trigger] builds(
                team_runs@[j].spec_run_type(),
                appended(team_runs@[j]@, seq![#[trigger] player_hand@[i]], Append::Top),
            ) ==> has_entry(final(actions)@, is_append(j as usize, player_hand@[i], Append::Top)),
        forall|i: int, j: int|
            0 <= i < player_hand@.len() && 0 <= j < team_runs@.len() && #[trigger] builds(
                team_runs@[j].spec_run_type(),
                appended(team_runs@[j]@, seq![#[trigger] player_hand@[i]], Append::Bottom),
            ) ==> has_entry(final(actions)@, is_append(j as usize, player_hand@[i], Append::Bottom)),
{
    let ghost runs = team_runs@;
    let ghost h = player_hand@;
    let ghost start = actions@;
    let n = player_hand.0.len();
    let mut i: usize = 0;
    while i < n
        invariant
            n == h.len(),
            h == player_hand@,
            runs == team_runs@,
            cards_wf(h),
            i <= n,
            well_listed(actions@, runs, h, moves_allowed),
            start.len() <= actions@.len(),
            forall|x: int| 0 <= x < start.len() ==> #[trigger] actions@[x] == start[x],
            forall|a: int, b: int|
                0 <= a < h.len() && 0 <= b < runs.len() && (a < i) && #[trigger] builds(
                    runs[b].spec_run_type(),
                    appended(runs[b]@, seq![#[trigger] h[a]], Append::Top),
                ) ==> has_entry(actions@, is_append(b as usize, h[a], Append::Top)),
            forall|a: int, b: int|
                0 <= a < h.len() && 0 <= b < runs.len() && (a < i) && #[trigger] builds(
                    runs[b].spec_run_type(),
                    appended(runs[b]@, seq![#[trigger] h[a]], Append::Bottom),
                ) ==> has_entry(actions@, is_append(b as usize, h[a], Append::Bottom)),
        decreases n - i,
    {
        let card = one_card(player_hand.0[i]);
        proof {
            assert(crate::card::card_wf(h[i as int]));
            assert(cards_wf(card@));
        }
        let mut j: usize = 0;
        while j < team_runs.len()
            invariant
                n == h.len(),
                h == player_hand@,
                runs == team_runs@,
                i < n,
                j <= runs.len(),
                card@ == seq![h[i as int]],
                cards_wf(card@),
                well_listed(actions@, runs, h, moves_allowed),
                start.len() <= actions@.len(),
                forall|x: int| 0 <= x < start.len() ==> #[trigger] actions@[x] == start[x],
                forall|a: int, b: int|
                    0 <= a < h.len() && 0 <= b < runs.len() && (a < i || (a == i && b < j)) && #[trigger] builds(
                        runs[b].spec_run_type(),
                        appended(runs[b]@, seq![#[trigger] h[a]], Append::Top),
                    ) ==> has_entry(actions@, is_append(b as usize, h[a], Append::Top)),
                forall|a: int, b: int|
                    0 <= a < h.len() && 0 <= b < runs.len() && (a < i || (a == i && b < j)) && #[trigger] builds(
                        runs[b].spec_run_type(),
                        appended(runs[b]@, seq![#[trigger] h[a]], Append::Bottom),
                    ) ==> has_entry(actions@, is_append(b as usize, h[a], Append::Bottom)),
            decreases runs.len() - j,
        {
            let run = &team_runs[j];
            let base = run.score();
            let ghost at_start = actions@;
            match run.append(&card, Append::Top) {
                Ok(new_run) => {
                    let sc = new_run.score();
                    let ghost before = actions@;
                    let cs = Cards(crate::run::copy_cards(&card.0));
                    let entry = (PlayAction::AppendTop(j, cs), sc - base);
                    proof {
                        assert(score_of(new_run) == sc as int);
                        assert(append_gain(runs[j as int], cs@, Append::Top, entry.1 as int));
                        assert(one_hand_card(h, cs@));
                        lemma_push_well_listed(before, entry, runs, h, moves_allowed);
                    }
                    actions.push(entry);
                    proof {
                        lemma_entry_pushed(before, entry, is_append(j, h[i as int], Append::Top));
                    }
                },
                Err(_) => {},
            }
            let ghost after_top = actions@;
            match run.append(&card, Append::Bottom) {
                Ok(new_run) => {
                    let sc = new_run.score();
                    let ghost before = actions@;
                    let cs = Cards(crate::run::copy_cards(&card.0));
                    let entry = (PlayAction::AppendBottom(j, cs), sc - base);
                    proof {
                        assert(score_of(new_run) == sc as int);
                        assert(append_gain(runs[j as int], cs@, Append::Bottom, entry.1 as int));
                        assert(one_hand_card(h, cs@));
                        lemma_push_well_listed(before, entry, runs, h, moves_allowed);
                    }
                    actions.push(entry);
                    proof {
                        lemma_entry_pushed(before, entry, is_append(j, h[i as int], Append::Bottom));
                        if has_entry(before, is_append(j, h[i as int], Append::Top)) {
                            lemma_entry_kept(before, actions@, is_append(j, h[i as int], Append::Top));
                        }
                    }
                },
                Err(_) => {},
            }
            proof {
                assert(at_start.len() <= actions@.len());
                assert forall|x: int| 0 <= x < at_start.len() implies #[trigger] actions@[x] == at_start[x] by {
                    assert(after_top[x] == at_start[x]);
                }
                assert forall|x: int| 0 <= x < start.len() implies #[trigger] actions@[x] == start[x] by {
                    assert(at_start[x] == start[x]);
                }
                assert forall|a: int, b: int, d: Append|
                    0 <= a < h.len() && 0 <= b < runs.len() && (a < i || (a == i && b < j)) && has_entry(
                        at_start,
                        #[trigger] is_append(b as usize, h[a], d),
                    ) implies has_entry(actions@, is_append(b as usize, h[a], d)) by {
                    lemma_entry_kept(at_start, actions@, is_append(b as usize, h[a], d));
                }
                assert(card@ == seq![h[i as int]]);
            }
            j = j + 1;
        }
        i = i + 1;
    }
}

/// The hand card `b` can replace the wildcard at position `c` of run `a`.
pub open spec fn replace_works(runs: Seq<Run>, h: Seq<Card>, a: int, b: int, c: int) -> bool {
    &&& 0 <= a < runs.len()
    &&& 0 <= b < h.len()
    &&& 0 <= c < runs[a]@.len()
    &&& h[b].1 != Rank::Joker
    &&& is_wild_rank(runs[a]@[c].1)
    &&& runs[a].spec_run_type() == RunType::Sequence
    &&& sequence_verdict(crate::run::replaced(runs[a]@, c, h[b])) is Ok
}

/// The wildcard or Ace at `f` of sequence `a` can move before position `t`.
pub open spec fn move_works(runs: Seq<Run>, a: int, f: int, t: int) -> bool {
    &&& 0 <= a < runs.len()
    &&& runs[a].spec_run_type() == RunType::Sequence
    &&& 0 <= f < runs[a]@.len()
    &&& 0 <= t < runs[a]@.len()
    &&& f != t
    &&& t != f + 1
    &&& (is_wild_rank(runs[a]@[f].1) || runs[a]@[f].1 == Rank::Ace)
    &&& sequence_verdict(crate::run::moved(runs[a]@, f, t)) is Ok
}

/// Adds every wildcard of a run that a hand card (not a Joker) can replace.
fn list_replacements(
    team_runs: &Vec<Run>,
    player_hand: &Cards,
    moves_allowed: usize,
    actions: &mut Vec<(PlayAction, i32)>,
)
    requires
        cards_wf(player_hand@),
        well_listed(old(actions)@, team_runs@, player_hand@, moves_allowed),
    ensures
        well_listed(final(actions)@, team_runs@, player_hand@, moves_allowed),
        old(actions)@.len() <= final(actions)@.len(),
        forall|x: int| 0 <= x < old(actions)@.len() ==> #[trigger] final(actions)@[x] == old(actions)@[x],
        forall|a: int, b: int, c: int|
            #[trigger] replace_works(team_runs@, player_hand@, a, b, c) ==> has_entry(
                final(actions)@,
                is_action(PlayAction::ReplaceWildcard(a as usize, c as usize, player_hand@[b])),
            ),
{
    let ghost runs = team_runs@;
    let ghost h = player_hand@;
    let ghost start = actions@;
    let n = player_hand.0.len();
    let mut i: usize = 0;
    while i < team_runs.len()
        invariant
            n == h.len(),
            h == player_hand@,
            runs == team_runs@,
            cards_wf(h),
            i <= runs.len(),
            well_listed(actions@, runs, h, moves_allowed),
            start.len() <= actions@.len(),
            forall|x: int| 0 <= x < start.len() ==> #[trigger] actions@[x] == start[x],
            forall|a: int, b: int, c: int|
                #[trigger] replace_works(runs, h, a, b, c) && a < i ==> has_entry(
                    actions@,
                    is_action(PlayAction::ReplaceWildcard(a as usize, c as usize, h[b])),
                ),
        decreases runs.len() - i,
    {
        let run = &team_runs[i];
        let base = run.score();
        let len = run.cards().0.len();
        let mut j: usize = 0;
        while j < n
            invariant
                n == h.len(),
                h == player_hand@,
                runs == team_runs@,
                cards_wf(h),
                i < runs.len(),
                *run == runs[i as int],
                len == run@.len(),
                base == score_of(runs[i as int]),
                0 <= base <= 130 * MAX_CARDS,
                j <= n,
                well_listed(actions@, runs, h, moves_allowed),
                start.len() <= actions@.len(),
                forall|x: int| 0 <= x < start.len() ==> #[trigger] actions@[x] == start[x],
                forall|a: int, b: int, c: int|
                    #[trigger] replace_works(runs, h, a, b, c) && (a < i || (a == i && b < j)) ==> has_entry(
                        actions@,
                        is_action(PlayAction::ReplaceWildcard(a as usize, c as usize, h[b])),
                    ),
            decreases n - j,
        {
            let card = player_hand.0[j];
            proof {
                assert(crate::card::card_wf(h[j as int]));
                assert(h[j as int] == card);
                assert(h.contains(card));
            }
            let mut k: usize = 0;
            while k < len
                invariant
                    n == h.len(),
                    h == player_hand@,
                    runs == team_runs@,
                    i < runs.len(),
                    *run == runs[i as int],
                    len == run@.len(),
                    base == score_of(runs[i as int]),
                    0 <= base <= 130 * MAX_CARDS,
                    j < n,
                    card == h[j as int],
                    h.contains(card),
                    crate::card::card_wf(card),
                    k <= len,
                    well_listed(actions@, runs, h, moves_allowed),
                    start.len() <= actions@.len(),
                    forall|x: int| 0 <= x < start.len() ==> #[trigger] actions@[x] == start[x],
                    forall|a: int, b: int, c: int|
                        #[trigger] replace_works(runs, h, a, b, c) && (a < i || (a == i && b < j) || (a == i && b == j
                            && c < k)) ==> has_entry(
                            actions@,
                            is_action(PlayAction::ReplaceWildcard(a as usize, c as usize, h[b])),
                        ),
                decreases len - k,
            {
                let rank = run.cards().0[k].1;
                if card.1 != Rank::Joker && (rank == Rank::Joker || rank == Rank::Two) {
                    match run.replace_wildcard(k, &card) {
                        Ok(new_run) => {
                            let sc = new_run.score();
                            let ghost before = actions@;
                            let entry = (PlayAction::ReplaceWildcard(i, k, card), sc - base);
                            proof {
                                assert(replace_outcome(runs[i as int], k as int, card, Ok(new_run)));
                                assert(score_of(new_run) == sc as int);
                                assert(replace_gain(runs[i as int], k as int, card, entry.1 as int));
                                lemma_push_well_listed(before, entry, runs, h, moves_allowed);
                            }
                            actions.push(entry);
                            proof {
                                assert forall|a: int, b: int, c: int|
                                    #[trigger] replace_works(runs, h, a, b, c) && (a < i || (a == i && b < j) || (a == i
                                        && b == j && c < k + 1)) implies has_entry(
                                        actions@,
                                        is_action(PlayAction::ReplaceWildcard(a as usize, c as usize, h[b])),
                                    ) by {
                                    lemma_entry_pushed(
                                        before,
                                        entry,
                                        is_action(PlayAction::ReplaceWildcard(a as usize, c as usize, h[b])),
                                    );
                                }
                            }
                        },
                        Err(_) => {},
                    }
                }
                k = k + 1;
            }
            j = j + 1;
        }
        i = i + 1;
    }
}

/// Adds every move of a wildcard or an Ace within a sequence, when moves are
/// allowed.
fn list_moves(team_runs: &Vec<Run>, player_hand: &Cards, moves_allowed: usize, actions: &mut Vec<(PlayAction, i32)>)
    requires
        cards_wf(player_hand@),
        well_listed(old(actions)@, team_runs@, player_hand@, moves_allowed),
    ensures
        well_listed(final(actions)@, team_runs@, player_hand@, moves_allowed),
        old(actions)@.len() <= final(actions)@.len(),
        forall|x: int| 0 <= x < old(actions)@.len() ==> #[trigger] final(actions)@[x] == old(actions)@[x],
        moves_allowed > 0 ==> forall|a: int, f: int, t: int|
            #[trigger] move_works(team_runs@, a, f, t) ==> has_entry(
                final(actions)@,
                is_action(PlayAction::MoveCard(a as usize, f as usize, t as usize)),
            ),
{
    let ghost runs = team_runs@;
    let ghost h = player_hand@;
    let ghost start = actions@;
    if moves_allowed == 0 {
        return;
    }
    let mut i: usize = 0;
    while i < team_runs.len()
        invariant
            h == player_hand@,
            runs == team_runs@,
            moves_allowed > 0,
            i <= runs.len(),
            well_listed(actions@, runs, h, moves_allowed),
            start.len() <= actions@.len(),
            forall|x: int| 0 <= x < start.len() ==> #[trigger] actions@[x] == start[x],
            forall|a: int, f: int, t: int|
                #[trigger] move_works(runs, a, f, t) && a < i ==> has_entry(
                    actions@,
                    is_action(PlayAction::MoveCard(a as usize, f as usize, t as usize)),
                ),
        decreases runs.len() - i,
    {
        let run = &team_runs[i];
        if run.run_type() == RunType::Sequence {
            let base = run.score();
            let len = run.cards().0.len();
            let mut from: usize = 0;
            while from < len
                invariant
                    h == player_hand@,
                    runs == team_runs@,
                    moves_allowed > 0,
                    i < runs.len(),
                    *run == runs[i as int],
                    run.spec_run_type() == RunType::Sequence,
                    len == run@.len(),
                    base == score_of(runs[i as int]),
                    0 <= base <= 130 * MAX_CARDS,
                    from <= len,
                    well_listed(actions@, runs, h, moves_allowed),
                    start.len() <= actions@.len(),
                    forall|x: int| 0 <= x < start.len() ==> #[trigger] actions@[x] == start[x],
                    forall|a: int, f: int, t: int|
                        #[trigger] move_works(runs, a, f, t) && (a < i || (a == i && f < from)) ==> has_entry(
                            actions@,
                            is_action(PlayAction::MoveCard(a as usize, f as usize, t as usize)),
                        ),
                decreases len - from,
            {
                let rank = run.cards().0[from].1;
                if rank == Rank::Joker || rank == Rank::Two || rank == Rank::Ace {
                    let mut to: usize = 0;
                    while to < len
                        invariant
                            h == player_hand@,
                            runs == team_runs@,
                            moves_allowed > 0,
                            i < runs.len(),
                            *run == runs[i as int],
                            run.spec_run_type() == RunType::Sequence,
                            len == run@.len(),
                            base == score_of(runs[i as int]),
                            0 <= base <= 130 * MAX_CARDS,
                            from < len,
                            is_wild_rank(run@[from as int].1) || run@[from as int].1 == Rank::Ace,
                            to <= len,
                            well_listed(actions@, runs, h, moves_allowed),
                            start.len() <= actions@.len(),
                            forall|x: int| 0 <= x < start.len() ==> #[trigger] actions@[x] == start[x],
                            forall|a: int, f: int, t: int|
                                #[trigger] move_works(runs, a, f, t) && (a < i || (a == i && f < from) || (a == i && f
                                    == from && t < to)) ==> has_entry(
                                    actions@,
                                    is_action(PlayAction::MoveCard(a as usize, f as usize, t as usize)),
                                ),
                        decreases len - to,
                    {
                        if from != to {
                            match run.move_card(from, to) {
                                Ok(new_run) => {
                                    let sc = new_run.score();
                                    let ghost before = actions@;
                                    let entry = (PlayAction::MoveCard(i, from, to), sc - base);
                                    proof {
                                        assert(move_outcome(runs[i as int], from as int, to as int, Ok(new_run)));
                                        assert(score_of(new_run) == sc as int);
                                        assert(move_gain(runs[i as int], from as int, to as int, entry.1 as int));
                                        lemma_push_well_listed(before, entry, runs, h, moves_allowed);
                                    }
                                    actions.push(entry);
                                    proof {
                                        assert forall|a: int, f: int, t: int|
                                            #[trigger] move_works(runs, a, f, t) && (a < i || (a == i && f < from) || (a
                                                == i && f == from && t < to + 1)) implies has_entry(
                                                actions@,
                                                is_action(PlayAction::MoveCard(a as usize, f as usize, t as usize)),
                                            ) by {
                                            lemma_entry_pushed(
                                                before,
                                                entry,
                                                is_action(PlayAction::MoveCard(a as usize, f as usize, t as usize)),
                                            );
                                        }
                                    }
                                },
                                Err(_) => {},
                            }
                        }
                        to = to + 1;
                    }
                }
                from = from + 1;
            }
        }
        i = i + 1;
    }
}

} // verus!
