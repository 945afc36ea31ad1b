use std::collections::HashSet;

use burraco::actions::{BurracoGame, DiscardAction, DrawAction, GamePhase, PlayAction};
use burraco::agent::{BurracoAgent, DumbAgent, MaxAgent, RandomAgent, SmartAgent};
use burraco::card::{Card, Cards, Rank, Suit};
use burraco::error::BurracoError;
use burraco::run::{Run, RunType};
use burraco::state::BurracoState;

// ♣ ♦ ♥ ♠

/// Gives player `p` of team `t` the hand `cards`, keeping 110 cards on the
/// table: the old hand goes to the draw pile, which gives back any surplus.
fn set_hand(state: &mut BurracoState, t: usize, p: usize, cards: &str) {
    let new_hand = Cards::of(cards).unwrap();
    let mut old = std::mem::replace(&mut state.teams[t].players[p].hand, new_hand);
    state.draw_pile.0.append(&mut old.0);
    while state.cards_total() > 110 {
        state.draw_pile.0.pop();
    }
    assert_eq!(110, state.cards_total());
}

#[test]
fn test_start_run_action() -> Result<(), BurracoError> {
    let hand = Cards::of("JK, ♣2, ♣5, ♣7, ♣9, ♣K, ♦6, ♦8, ♦9, ♥10, ♠6, ♠K")?;
    let actions = PlayAction::enumerate(&vec![], &hand, 0);
    let set: HashSet<_> = actions.into_iter().map(|(a, _s)| a).collect();

    let should_enumerate_runs_s = vec![
        "♣5,JK,♣7", "♣5,♣2,♣7", "♣7,JK,♣9", "♣7,♣2,♣9", "♦6,♣2,♦8", "♦6,JK,♦8", "JK,♦8,♦9", "♣2,♦8,♦9",
        "♦8,♦9,JK", "♦8,♦9,♣2",
    ];

    let should_enumerate_runs: Vec<Result<PlayAction, BurracoError>> = should_enumerate_runs_s
        .iter()
        .map(|s| Ok(PlayAction::StartRun(Run::build_sequence_run(Cards::of(s)?)?)))
        .collect();

    assert!(should_enumerate_runs.iter().all(|r| r.is_ok()));

    for action in should_enumerate_runs {
        let action = action.unwrap();
        assert!(set.contains(&action));
    }
    Ok(())
}

#[test]
fn test_move_action() -> Result<(), BurracoError> {
    let hand = Cards::of("♣5")?;
    let actions = PlayAction::enumerate(&vec![Run::build_sequence_run(Cards::of("JK,♥3,♥4")?)?], &hand, 1);
    let set: HashSet<_> = actions.into_iter().map(|(a, _s)| a).collect();
    assert_eq!(1, set.len());
    assert!(&set.contains(&PlayAction::Noop));
    Ok(())
}

#[test]
fn test_advance_turn() -> Result<(), BurracoError> {
    let mut state = BurracoState::init_with(2, 2);
    // for deterministic test
    state.first_player = 0;
    state.player_turn = 0;

    let mut game = BurracoGame::from(state);
    let (team, player) = game.state().player_team_idxs[game.state().player_turn];
    assert_eq!(0, team);
    assert_eq!(0, player);

    let mut agent = DumbAgent {};

    // first turn: team 0, its player 0
    game.draw(agent.select_draw_action(game.state()))?;
    let (team, player) = game.state().player_team_idxs[game.state().player_turn];
    assert_eq!(0, team);
    assert_eq!(0, player);
    game.play(PlayAction::Noop)?;
    let (team, player) = game.state().player_team_idxs[game.state().player_turn];
    assert_eq!(0, team);
    assert_eq!(0, player);
    let discard = agent.select_discard_action(&game.current_player().hand, game.state());
    game.discard(discard)?;

    // second turn: team 1, its player 0
    let (team, player) = game.state().player_team_idxs[game.state().player_turn];
    assert_eq!(1, team);
    assert_eq!(0, player);

    game.draw(agent.select_draw_action(game.state()))?;
    let (team, player) = game.state().player_team_idxs[game.state().player_turn];
    assert_eq!(1, team);
    assert_eq!(0, player);

    game.play(PlayAction::Noop)?;
    let (team, player) = game.state().player_team_idxs[game.state().player_turn];
    assert_eq!(1, team);
    assert_eq!(0, player);
    let discard = agent.select_discard_action(&game.current_player().hand, game.state());
    game.discard(discard)?;

    // third turn: team 0, its player 1
    let (team, player) = game.state().player_team_idxs[game.state().player_turn];
    assert_eq!(0, team);
    assert_eq!(1, player);
    Ok(())
}

#[test]
fn turn_goes_round_robin_and_rounds_count_cycles() -> Result<(), BurracoError> {
    let mut state = BurracoState::init_seeded(2, 2, Some(7));
    state.first_player = 0;
    state.player_turn = 0;
    let mut game = BurracoGame::from(state);
    let expected = [(0, 0), (1, 0), (0, 1), (1, 1)];
    for cycle in 0..2u32 {
        for (k, slot) in expected.iter().enumerate() {
            assert_eq!(cycle, game.state().round);
            assert_eq!(k, game.state().player_turn);
            assert_eq!(*slot, game.state().curr_team_player());
            game.draw(DrawAction::DrawPile)?;
            game.play(PlayAction::Noop)?;
            let card = game.current_player().hand.0[0];
            game.discard(DiscardAction(card))?;
        }
    }
    assert_eq!(2, game.state().round);
    assert_eq!(0, game.state().player_turn);
    Ok(())
}

#[test]
fn dealing_gives_every_pile_its_share() {
    let state = BurracoState::init_seeded(2, 2, Some(1));
    assert_eq!(110, state.cards_total());
    assert_eq!(11, state.pot1.0.len());
    assert_eq!(11, state.pot2.0.len());
    assert_eq!(1, state.open_pile.0.len());
    assert_eq!(110 - 22 - 44 - 1, state.draw_pile.0.len());
    for team in &state.teams {
        assert_eq!(2, team.players.len());
        for player in &team.players {
            assert_eq!(11, player.hand.0.len());
            let mut sorted = player.hand.clone();
            sorted.sort();
            assert_eq!(sorted, player.hand);
        }
    }
    assert_eq!(state.player_turn, state.first_player);
    assert_eq!(vec![(0, 0), (1, 0), (0, 1), (1, 1)], state.player_team_idxs);
    let again = BurracoState::init_seeded(2, 2, Some(1));
    assert_eq!(state.draw_pile, again.draw_pile);
    assert_eq!(state.player_turn, again.player_turn);
    assert!(state.player_turn < 4);
    let mut unshuffled = Cards::build_deck(3);
    unshuffled.0.append(&mut Cards::build_deck(3).0);
    assert_ne!(unshuffled.0[..43].to_vec(), state.draw_pile.0);
    let other = BurracoState::init_seeded(2, 2, Some(2));
    assert_ne!(state.draw_pile, other.draw_pile);
}

#[test]
fn deal_splits_a_given_deck() {
    let mut deck = Cards::build_deck(3);
    deck.0.append(&mut Cards::build_deck(3).0);
    let top = deck.0[109];
    let state = BurracoState::deal(deck.clone(), 3, 1, 2);
    assert_eq!(Cards(deck.0[99..110].to_vec()), state.pot1);
    assert_eq!(Cards(deck.0[88..99].to_vec()), state.pot2);
    assert!(state.pot1.0.contains(&top));
    assert_eq!(Cards(deck.0[54..55].to_vec()), state.open_pile);
    assert_eq!(Cards(deck.0[0..54].to_vec()), state.draw_pile);
    assert_eq!(2, state.player_turn);
    assert_eq!(2, state.first_player);
    assert_eq!((2, 0), state.curr_team_player());
    assert_eq!(2, state.curr_team());
    assert_eq!(state.teams[2].players[0].hand.0, state.current_player().hand.0);
}

#[test]
fn enumeration_has_exactly_one_noop_first() -> Result<(), BurracoError> {
    let runs = vec![
        Run::build_sequence_run(Cards::of("♥4,JK,♥6")?)?,
        Run::build_group_run(Cards::of("♣9,♦9,♥9")?)?,
        Run::build_sequence_run(Cards::of("♠Q,♠K,♠A")?)?,
    ];
    for hand in ["", "♥5", "♥3,♥7,♠9,♠2,JK,♠J", "♣9,♣9,♣9,♥5"] {
        for moves in [0usize, 2] {
            let actions = PlayAction::enumerate(&runs, &Cards::of(hand)?, moves);
            assert_eq!((PlayAction::Noop, 0), actions[0]);
            assert_eq!(1, actions.iter().filter(|(a, _)| *a == PlayAction::Noop).count());
        }
    }
    Ok(())
}

#[test]
fn enumeration_scores_each_change() -> Result<(), BurracoError> {
    let runs = vec![Run::build_sequence_run(Cards::of("♥4,JK,♥6")?)?];
    let actions = PlayAction::enumerate(&runs, &Cards::of("♥5,♥7")?, 1);
    let top = PlayAction::AppendTop(0, Cards::of("♥7")?);
    assert!(actions.contains(&(top, 5)));
    let replace = PlayAction::ReplaceWildcard(0, 1, Card(Suit::Hearts, Rank::Numerical(5)));
    assert!(actions.contains(&(replace, 5)));
    assert!(actions.iter().all(|(a, _)| !matches!(a, PlayAction::StartRun(_))));
    let moves = actions.iter().filter(|(a, _)| matches!(a, PlayAction::MoveCard(..))).count();
    let none = PlayAction::enumerate(&runs, &Cards::of("♥5,♥7")?, 0);
    assert!(none.iter().all(|(a, _)| !matches!(a, PlayAction::MoveCard(..))));
    assert!(moves <= 2);
    Ok(())
}

#[test]
fn actions_in_the_wrong_phase_change_nothing() -> Result<(), BurracoError> {
    let state = BurracoState::init_seeded(2, 1, Some(3));
    let mut game = BurracoGame::from(state);
    assert_eq!(GamePhase::Draw, game.phase());
    assert_eq!(Err(BurracoError::WrongPhase), game.play(PlayAction::Noop));
    let card = game.current_player().hand.0[0];
    assert_eq!(Err(BurracoError::WrongPhase), game.discard(DiscardAction(card)));
    game.draw(DrawAction::DrawOpen)?;
    assert_eq!(GamePhase::Play, game.phase());
    assert_eq!(12, game.current_player().hand.0.len());
    assert_eq!(0, game.state().open_pile.0.len());
    assert_eq!(Err(BurracoError::WrongPhase), game.draw(DrawAction::DrawPile));
    Ok(())
}

#[test]
fn refused_plays_leave_the_hand_alone() -> Result<(), BurracoError> {
    let state = BurracoState::init_seeded(2, 1, Some(5));
    let mut game = BurracoGame::from(state);
    game.draw(DrawAction::DrawPile)?;
    let before = game.current_player().hand.clone();
    let not_held = Cards::of("♣3,♣4,♣5,♣6,♣7,♣8,♣9,♣10,♣J,♣Q,♣K,♣A,♣2,♣3,♣4,♣5")?;
    assert_eq!(Err(BurracoError::CardsNotInHand), game.play(PlayAction::AppendTop(0, not_held)));
    assert_eq!(Err(BurracoError::NoSuchRun), game.play(PlayAction::MoveCard(0, 0, 2)));
    assert_eq!(Err(BurracoError::InvalidPosition), game.play(PlayAction::MoveCard(0, 1, 1)));
    assert_eq!(before, game.current_player().hand);
    assert_eq!(GamePhase::Play, game.phase());
    game.play(PlayAction::Noop)?;
    assert_eq!(GamePhase::Discard, game.phase());
    let missing = Card(Suit::Jokers, Rank::Joker);
    if !game.current_player().hand.0.contains(&missing) {
        assert_eq!(Err(BurracoError::CardsNotInHand), game.discard(DiscardAction(missing)));
    }
    Ok(())
}

#[test]
fn starting_a_run_moves_cards_from_hand_to_table() -> Result<(), BurracoError> {
    let mut state = BurracoState::init_seeded(2, 1, Some(11));
    state.player_turn = 0;
    state.first_player = 0;
    set_hand(&mut state, 0, 0, "♣3,♥4,♥5,♥6");
    let total = state.cards_total();
    let mut game = BurracoGame::from(state);
    game.draw(DrawAction::DrawPile)?;
    let drawn = game.current_player().hand.0.len();
    assert_eq!(5, drawn);
    let run = Run::build_sequence_run(Cards::of("♥4,♥5,♥6")?)?;
    game.play(PlayAction::StartRun(run))?;
    assert_eq!(GamePhase::Play, game.phase());
    assert_eq!(2, game.current_player().hand.0.len());
    assert_eq!(1, game.current_team().played_runs.len());
    assert_eq!(RunType::Sequence, game.current_team().played_runs[0].run_type());
    assert_eq!(total, game.state().cards_total());
    let left = game.current_player().hand.value_sum();
    assert_eq!(-100 + 15 + left, game.scoreboard()[0]);
    let append = PlayAction::AppendBottom(0, Cards::of("♥3")?);
    assert_eq!(Err(BurracoError::CardsNotInHand), game.play(append));
    Ok(())
}

#[test]
fn scoreboard_adds_pot_penalty_runs_and_hands() -> Result<(), BurracoError> {
    let mut state = BurracoState::init_seeded(2, 1, Some(2));
    state.player_turn = 0;
    state.first_player = 0;
    set_hand(&mut state, 0, 0, "♣3,♦K,♠3,♠4,♠5");
    set_hand(&mut state, 1, 0, "JK");
    state.teams[0].has_reached_pot = true;
    let mut game = BurracoGame::from(state);
    assert_eq!(vec![5 + 10 + 15, -100 + 30], game.scoreboard());
    assert_eq!(0, game.winning_team());
    game.draw(DrawAction::DrawPile)?;
    let drawn = game.current_player().hand.value_sum();
    game.play(PlayAction::StartRun(Run::build_sequence_run(Cards::of("♠3,♠4,♠5")?)?))?;
    assert_eq!(vec![drawn, -70], game.scoreboard());
    assert_eq!(drawn, game.state().team_scoreboard()[0]);
    Ok(())
}

#[test]
fn winner_is_the_first_of_equal_scores() {
    let mut state = BurracoState::init_seeded(2, 1, Some(2));
    set_hand(&mut state, 0, 0, "♣3");
    set_hand(&mut state, 1, 0, "♦3");
    let game = BurracoGame::from(state);
    assert_eq!(vec![-95, -95], game.scoreboard());
    assert_eq!(0, game.winning_team());
}

#[test]
fn emptying_the_hand_on_discard_takes_a_flying_pot() -> Result<(), BurracoError> {
    let mut state = BurracoState::init_seeded(2, 1, Some(9));
    state.player_turn = 0;
    state.first_player = 0;
    set_hand(&mut state, 0, 0, "");
    let mut game = BurracoGame::from(state);
    assert_eq!(110, game.state().cards_total());
    game.draw(DrawAction::DrawPile)?;
    game.play(PlayAction::Noop)?;
    let card = game.current_player().hand.0[0];
    game.discard(DiscardAction(card))?;
    assert_eq!(GamePhase::Draw, game.phase());
    assert_eq!(0, game.state().player_turn);
    assert_eq!(0, game.state().round);
    assert_eq!(11, game.current_player().hand.0.len());
    assert!(game.current_team().has_reached_pot);
    assert_eq!(0, game.state().pot1.0.len());
    assert_eq!(11, game.state().pot2.0.len());
    assert_eq!(110, game.state().cards_total());
    Ok(())
}

/// Every card on the table, in sorted order.
fn all_cards(state: &BurracoState) -> Cards {
    let mut all = Vec::new();
    for pile in [&state.draw_pile, &state.open_pile, &state.pot1, &state.pot2] {
        all.extend(pile.0.iter().copied());
    }
    for team in &state.teams {
        for player in &team.players {
            all.extend(player.hand.0.iter().copied());
        }
        for run in &team.played_runs {
            all.extend(run.cards().0.iter().copied());
        }
    }
    let mut cards = Cards(all);
    cards.sort();
    cards
}

fn play_match(agents: &mut Vec<Box<dyn BurracoAgent>>, seed: u64) -> usize {
    let state = BurracoState::init_seeded(2, 2, Some(seed));
    let mut game = BurracoGame::from(state);
    let total = game.state().cards_total();
    assert_eq!(110, total);
    let mut two_decks = Cards::build_deck(3);
    two_decks.0.append(&mut Cards::build_deck(3).0);
    two_decks.sort();
    assert_eq!(two_decks, all_cards(game.state()));
    for _ in 0..10_000 {
        let agent = &mut agents[game.state().player_turn];
        let draw = agent.select_draw_action(game.state());
        game.draw(draw).unwrap();
        assert_eq!(total, game.state().cards_total());
        if let GamePhase::Finished(w) = game.phase() {
            return w;
        }
        let mut moves_allowed = game.current_team().played_runs.len();
        loop {
            let actions = PlayAction::enumerate(&game.current_team().played_runs, &game.current_player().hand, moves_allowed);
            let action = agent.select_play_action(actions, game.state());
            if let PlayAction::MoveCard(..) = action {
                moves_allowed -= 1;
            }
            game.play(action).unwrap();
            assert_eq!(total, game.state().cards_total());
            assert_eq!(two_decks, all_cards(game.state()));
            if let GamePhase::Finished(w) = game.phase() {
                return w;
            }
            if game.phase() != GamePhase::Play {
                break;
            }
        }
        let discard = agent.select_discard_action(&game.current_player().hand, game.state());
        game.discard(discard).unwrap();
        assert_eq!(total, game.state().cards_total());
        if let GamePhase::Finished(w) = game.phase() {
            return w;
        }
    }
    panic!("match did not end");
}

#[test]
fn whole_matches_keep_every_card() {
    for seed in 0..1u64 {
        let mut agents: Vec<Box<dyn BurracoAgent>> =
            vec![Box::new(SmartAgent {}), Box::new(MaxAgent {}), Box::new(DumbAgent {}), Box::new(RandomAgent::new_thread_rng())];
        let winner = play_match(&mut agents, seed);
        assert!(winner < 2);
    }
}

#[test]
fn agents_pick_from_what_is_offered() -> Result<(), BurracoError> {
    let state = BurracoState::init_seeded(2, 1, Some(4));
    let run = Run::build_sequence_run(Cards::of("♥4,♥5,♥6")?)?;
    let group = Run::build_group_run(Cards::of("♣9,♦9,♥9")?)?;
    let offered = vec![
        (PlayAction::Noop, 0),
        (PlayAction::StartRun(group.clone()), 30),
        (PlayAction::StartRun(run.clone()), 15),
        (PlayAction::AppendTop(0, Cards::of("♥7")?), 5),
        (PlayAction::MoveCard(0, 0, 2), 40),
    ];
    assert_eq!(PlayAction::StartRun(run.clone()), SmartAgent {}.select_play_action(offered.clone(), &state));
    assert_eq!(PlayAction::MoveCard(0, 0, 2), MaxAgent {}.select_play_action(offered.clone(), &state));
    assert_eq!(PlayAction::MoveCard(0, 0, 2), DumbAgent {}.select_play_action(offered.clone(), &state));
    let picked = RandomAgent::new_thread_rng().select_play_action(offered.clone(), &state);
    assert!(offered.iter().skip(1).any(|(a, _)| *a == picked));
    let hand = Cards::of("♣3,♦K")?;
    assert_eq!(DiscardAction(Card(Suit::Clubs, Rank::Numerical(3))), DumbAgent {}.select_discard_action(&hand, &state));
    assert!(hand.0.contains(&RandomAgent::new_thread_rng().select_discard_action(&hand, &state).0));
    assert_eq!(DrawAction::DrawPile, DumbAgent {}.select_draw_action(&state));
    assert_eq!(1, SmartAgent::preferred_index(&offered[1..].to_vec()));
    assert_eq!(4, MaxAgent::max_gain_index(&offered));
    Ok(())
}

/// Puts `cards` face up as the whole open pile, moving what lay there to the
/// draw pile and keeping 110 cards on the table.
fn set_open_pile(state: &mut BurracoState, cards: &str) {
    let new_pile = Cards::of(cards).unwrap();
    let mut old = std::mem::replace(&mut state.open_pile, new_pile);
    state.draw_pile.0.append(&mut old.0);
    while state.cards_total() > 110 {
        state.draw_pile.0.pop();
    }
    assert_eq!(110, state.cards_total());
}

#[test]
fn emptying_the_hand_on_play_takes_a_pot() -> Result<(), BurracoError> {
    let mut state = BurracoState::init_seeded(2, 1, Some(21));
    state.player_turn = 0;
    state.first_player = 0;
    set_hand(&mut state, 0, 0, "♥4,♥5");
    set_open_pile(&mut state, "♥6");
    let pot = state.pot1.clone();
    let mut game = BurracoGame::from(state);
    game.draw(DrawAction::DrawOpen)?;
    assert_eq!(Cards::of("♥4,♥5,♥6")?, game.current_player().hand);
    game.play(PlayAction::StartRun(Run::build_sequence_run(Cards::of("♥4,♥5,♥6")?)?))?;
    // the pot waits for the next draw: the play ends here
    assert_eq!(GamePhase::Discard, game.phase());
    assert_eq!(Err(BurracoError::WrongPhase), game.play(PlayAction::Noop));
    assert_eq!(pot, game.current_player().hand);
    assert!(game.current_team().has_reached_pot);
    assert_eq!(0, game.state().pot1.0.len());
    assert_eq!(11, game.state().pot2.0.len());
    assert_eq!(110, game.state().cards_total());
    let card = game.current_player().hand.0[0];
    game.discard(DiscardAction(card))?;
    assert_eq!(GamePhase::Draw, game.phase());
    assert_eq!(1, game.state().player_turn);
    assert_eq!(10, game.state().teams[0].players[0].hand.0.len());
    Ok(())
}

#[test]
fn noop_keeps_the_hand_as_it_is() -> Result<(), BurracoError> {
    let state = BurracoState::init_seeded(2, 2, Some(24));
    let mut game = BurracoGame::from(state);
    game.draw(DrawAction::DrawPile)?;
    let hand = game.current_player().hand.clone();
    let turn = game.state().player_turn;
    game.play(PlayAction::Noop)?;
    assert_eq!(GamePhase::Discard, game.phase());
    assert_eq!(hand, game.current_player().hand);
    assert_eq!(turn, game.state().player_turn);
    Ok(())
}

#[test]
fn a_new_match_starts_with_bare_teams() {
    let state = BurracoState::init_with(3, 2);
    assert_eq!(3, state.teams.len());
    for team in &state.teams {
        assert!(team.played_runs.is_empty());
        assert!(!team.has_reached_pot);
        assert!(!team.has_used_pot);
    }
}

#[test]
fn emptying_the_hand_after_a_pot_ends_the_match() -> Result<(), BurracoError> {
    let mut state = BurracoState::init_seeded(2, 1, Some(22));
    state.player_turn = 0;
    state.first_player = 0;
    set_hand(&mut state, 0, 0, "♥4,♥5");
    set_open_pile(&mut state, "♥6");
    state.teams[0].has_reached_pot = true;
    let mut game = BurracoGame::from(state);
    game.draw(DrawAction::DrawOpen)?;
    game.play(PlayAction::StartRun(Run::build_sequence_run(Cards::of("♥4,♥5,♥6")?)?))?;
    assert_eq!(GamePhase::Finished(game.winning_team()), game.phase());
    assert_eq!(0, game.current_player().hand.0.len());
    assert_eq!(11, game.state().pot1.0.len());
    assert_eq!(Err(BurracoError::WrongPhase), game.play(PlayAction::Noop));
    Ok(())
}

#[test]
fn an_empty_draw_pile_ends_the_match() -> Result<(), BurracoError> {
    let mut state = BurracoState::init_seeded(2, 2, Some(23));
    let mut rest = state.draw_pile.0.split_off(1);
    state.open_pile.0.append(&mut rest);
    let mut game = BurracoGame::from(state);
    assert_eq!(110, game.state().cards_total());
    game.draw(DrawAction::DrawPile)?;
    assert_eq!(0, game.state().draw_pile.0.len());
    assert_eq!(GamePhase::Finished(game.winning_team()), game.phase());
    assert_eq!(110, game.state().cards_total());
    Ok(())
}
