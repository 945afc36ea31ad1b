//! Decision policies. The core offers the choices; an agent picks one.

use rand::rngs::StdRng;
use vstd::prelude::*;

use crate::actions::{DiscardAction, DrawAction, PlayAction};
use crate::card::Cards;
use crate::random::{choose_from, entropy_rng, random_bool};
use crate::run::RunType;
use crate::state::BurracoState;

verus! {

/// A player's policy: which pile to draw from, which enumerated action to
/// play, and which card to discard.
pub trait BurracoAgent {
    fn select_draw_action(&mut self, state: &BurracoState) -> DrawAction;

    fn select_play_action(&mut self, actions: Vec<(PlayAction, i32)>, state: &BurracoState) -> (r: PlayAction)
        requires
            actions@.len() > 0,
        ensures
            exists|i: int| 0 <= i < actions@.len() && actions@[i].0 == r,
    ;

    fn select_discard_action(&mut self, hand: &Cards, state: &BurracoState) -> (r: DiscardAction)
        requires
            hand@.len() > 0,
        ensures
            hand@.contains(r.0),
    ;

    fn display(&self) -> String;
}

/// Draws from the pile in even rounds and takes the open pile in odd ones.
pub open spec fn alternating_draw(state: BurracoState) -> DrawAction {
    if state.round % 2 == 0 {
        DrawAction::DrawPile
    } else {
        DrawAction::DrawOpen
    }
}

fn alternate_draw(state: &BurracoState) -> (r: DrawAction)
    ensures
        r == alternating_draw(*state),
{
    if state.round % 2 == 0 {
        DrawAction::DrawPile
    } else {
        DrawAction::DrawOpen
    }
}

/// Plays the last action offered and discards the first card.
pub struct DumbAgent {}

impl BurracoAgent for DumbAgent {
    fn select_draw_action(&mut self, state: &BurracoState) -> (r: DrawAction) {
        alternate_draw(state)
    }

    fn select_play_action(&mut self, actions: Vec<(PlayAction, i32)>, state: &BurracoState) -> (r: PlayAction) {
        let mut actions = actions;
        let ghost offered = actions@;
        let last = actions.pop();
        match last {
            Some(a) => {
                assert(offered[offered.len() - 1].0 == a.0);
                a.0
            },
            None => PlayAction::Noop,
        }
    }

    fn select_discard_action(&mut self, hand: &Cards, state: &BurracoState) -> (r: DiscardAction) {
        assert(hand@.contains(hand@[0]));
        DiscardAction(hand.0[0])
    }

    fn display(&self) -> String {
        "Dumb agent".to_string()
    }
}

/// Preference of the smart agent, lower first: replacing a wildcard, then
/// starting a sequence, starting a group, appending, ending the play, and
/// moving a card last.
pub open spec fn preference(a: PlayAction) -> int {
    match a {
        PlayAction::ReplaceWildcard(_, _, _) => 0,
        PlayAction::StartRun(run) => if run.spec_run_type() == RunType::Sequence { 10 } else { 15 },
        PlayAction::AppendTop(_, _) => 20,
        PlayAction::AppendBottom(_, _) => 20,
        PlayAction::Noop => 30,
        PlayAction::MoveCard(_, _, _) => 999,
    }
}

/// `b` holds the smallest (preference, score change), the first of equals.
pub open spec fn is_first_preferred(s: Seq<(PlayAction, i32)>, b: int) -> bool {
    &&& 0 <= b < s.len()
    &&& forall|i: int|
        0 <= i < s.len() ==> preference(s[b].0) < preference(#[trigger] s[i].0) || (preference(s[b].0)
            == preference(s[i].0) && s[b].1 <= s[i].1)
    &&& forall|i: int|
        0 <= i < b ==> preference(s[b].0) < preference(#[trigger] s[i].0) || (preference(s[b].0) == preference(
            s[i].0,
        ) && s[b].1 < s[i].1)
}

/// Prefers building runs over extending them, and extending over passing.
pub struct SmartAgent {}

impl SmartAgent {
    fn play_action_preference(action: &PlayAction) -> (r: usize)
        ensures
            r as int == preference(*action),
    {
        match action {
            PlayAction::ReplaceWildcard(_, _, _) => 0,
            PlayAction::StartRun(run) => if run.run_type() == RunType::Sequence { 10 } else { 15 },
            PlayAction::AppendTop(_, _) => 20,
            PlayAction::AppendBottom(_, _) => 20,
            PlayAction::Noop => 30,
            PlayAction::MoveCard(_, _, _) => 999,
        }
    }

    /// Index of the first action with the smallest (preference, score change).
    pub fn preferred_index(actions: &Vec<(PlayAction, i32)>) -> (r: usize)
        requires
            actions@.len() > 0,
        ensures
            is_first_preferred(actions@, r as int),
    {
        let mut best: usize = 0;
        let mut best_pref = SmartAgent::play_action_preference(&actions[0].0);
        let mut i: usize = 1;
        while i < actions.len()
            invariant
                1 <= i <= actions@.len(),
                best < i,
                best_pref as int == preference(actions@[best as int].0),
                forall|j: int|
                    0 <= j < i ==> preference(actions@[best as int].0) < preference(#[trigger] actions@[j].0) || (
                    preference(actions@[best as int].0) == preference(actions@[j].0) && actions@[best as int].1
                        <= actions@[j].1),
                forall|j: int|
                    0 <= j < best ==> preference(actions@[best as int].0) < preference(#[trigger] actions@[j].0) || (
                    preference(actions@[best as int].0) == preference(actions@[j].0) && actions@[best as int].1
                        < actions@[j].1),
            decreases actions@.len() - i,
        {
            let pref = SmartAgent::play_action_preference(&actions[i].0);
            if pref < best_pref || (pref == best_pref && actions[i].1 < actions[best].1) {
                best = i;
                best_pref = pref;
            }
            i = i + 1;
        }
        best
    }
}

impl BurracoAgent for SmartAgent {
    fn select_draw_action(&mut self, state: &BurracoState) -> (r: DrawAction) {
        alternate_draw(state)
    }

    fn select_play_action(&mut self, actions: Vec<(PlayAction, i32)>, state: &BurracoState) -> (r: PlayAction) {
        let best = SmartAgent::preferred_index(&actions);
        let mut actions = actions;
        let chosen = actions.remove(best);
        chosen.0
    }

    fn select_discard_action(&mut self, hand: &Cards, state: &BurracoState) -> (r: DiscardAction) {
        assert(hand@.contains(hand@[0]));
        DiscardAction(hand.0[0])
    }

    fn display(&self) -> String {
        "Smart agent".to_string()
    }
}

/// `b` holds the highest score change, the last of equals.
pub open spec fn is_last_max_gain(s: Seq<(PlayAction, i32)>, b: int) -> bool {
    &&& 0 <= b < s.len()
    &&& forall|i: int| 0 <= i < s.len() ==> (#[trigger] s[i]).1 <= s[b].1
    &&& forall|i: int| b < i < s.len() ==> (#[trigger] s[i]).1 < s[b].1
}

/// Plays the action with the highest score change.
pub struct MaxAgent {}

impl MaxAgent {
    /// Index of the highest score change; the last one on a tie.
    pub fn max_gain_index(actions: &Vec<(PlayAction, i32)>) -> (r: usize)
        requires
            actions@.len() > 0,
        ensures
            is_last_max_gain(actions@, r as int),
    {
        let mut best: usize = 0;
        let mut i: usize = 1;
        while i < actions.len()
            invariant
                1 <= i <= actions@.len(),
                best < i,
                forall|j: int| 0 <= j < i ==> (#[trigger] actions@[j]).1 <= actions@[best as int].1,
                forall|j: int| best < j < i ==> (#[trigger] actions@[j]).1 < actions@[best as int].1,
            decreases actions@.len() - i,
        {
            if actions[i].1 >= actions[best].1 {
                best = i;
            }
            i = i + 1;
        }
        best
    }
}

impl BurracoAgent for MaxAgent {
    fn select_draw_action(&mut self, state: &BurracoState) -> (r: DrawAction) {
        alternate_draw(state)
    }

    fn select_play_action(&mut self, actions: Vec<(PlayAction, i32)>, state: &BurracoState) -> (r: PlayAction) {
        let best = MaxAgent::max_gain_index(&actions);
        let mut actions = actions;
        let chosen = actions.remove(best);
        chosen.0
    }

    fn select_discard_action(&mut self, hand: &Cards, state: &BurracoState) -> (r: DiscardAction) {
        assert(hand@.contains(hand@[0]));
        DiscardAction(hand.0[0])
    }

    fn display(&self) -> String {
        "Max action score agent".to_string()
    }
}

/// Draws at random, plays a random action other than the first (`Noop`)
/// when there is one, and discards a random card.
pub struct RandomAgent {
    pub rng: StdRng,
}

impl RandomAgent {
    pub fn new_thread_rng() -> RandomAgent {
        RandomAgent { rng: entropy_rng() }
    }
}

impl BurracoAgent for RandomAgent {
    fn select_draw_action(&mut self, state: &BurracoState) -> (r: DrawAction) {
        if random_bool(&mut self.rng) {
            DrawAction::DrawPile
        } else {
            DrawAction::DrawOpen
        }
    }

    fn select_play_action(&mut self, actions: Vec<(PlayAction, i32)>, state: &BurracoState) -> (r: PlayAction) {
        let n = actions.len();
        let mut pick: usize = 0;
        if n > 1 {
            let mut others: Vec<usize> = Vec::new();
            let mut i: usize = 1;
            while i < n
                invariant
                    1 <= i <= n,
                    others@.len() == i - 1,
                    forall|k: int| 0 <= k < others@.len() ==> #[trigger] others@[k] == k + 1,
                decreases n - i,
            {
                others.push(i);
                i = i + 1;
            }
            match choose_from(&mut self.rng, &others) {
                Some(chosen) => {
                    pick = *chosen;
                },
                None => {},
            }
        }
        let mut actions = actions;
        let chosen = actions.remove(pick);
        chosen.0
    }

    fn select_discard_action(&mut self, hand: &Cards, state: &BurracoState) -> (r: DiscardAction) {
        match choose_from(&mut self.rng, &hand.0) {
            Some(card) => DiscardAction(*card),
            None => {
                assert(hand@.contains(hand@[0]));
                DiscardAction(hand.0[0])
            },
        }
    }

    fn display(&self) -> String {
        "Random agent".to_string()
    }
}

} // verus!
