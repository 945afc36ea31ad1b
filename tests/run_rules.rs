use burraco::card::{Card, Cards, Rank, Suit};
use burraco::error::BurracoError;
use burraco::run::{Append, Run, RunType};

// ♣ ♦ ♥ ♠

#[test]
fn test_build_empty() -> Result<(), BurracoError> {
    assert!(Run::build_sequence_run(Cards::of("")?).is_err());
    Ok(())
}

#[test]
fn test_build_simple() -> Result<(), BurracoError> {
    assert!(Run::build_sequence_run(Cards::of("♣3,♣4,♣5")?).is_ok());
    Ok(())
}

#[test]
fn test_too_many_twos() -> Result<(), BurracoError> {
    assert!(Run::build_sequence_run(Cards::of("♣A,♣2,♣2,♣3")?).is_err());
    Ok(())
}

#[test]
fn test_wildcard_one_ok() -> Result<(), BurracoError> {
    assert!(Run::build_sequence_run(Cards::of("♣2,♣2,♣3")?).is_ok());
    Ok(())
}

#[test]
fn test_normal_two_ok() -> Result<(), BurracoError> {
    assert!(Run::build_sequence_run(Cards::of("♣A,♣2,♣3")?).is_ok());
    Ok(())
}

#[test]
fn test_wildcard_three_ok() -> Result<(), BurracoError> {
    assert!(Run::build_sequence_run(Cards::of("♣A,♣2,♣2")?).is_ok());
    Ok(())
}

#[test]
fn test_bad_suit() -> Result<(), BurracoError> {
    assert!(Run::build_sequence_run(Cards::of("♣3,♦4,♣5")?).is_err());
    Ok(())
}

#[test]
fn test_ok_joker() -> Result<(), BurracoError> {
    assert!(Run::build_sequence_run(Cards::of("♣3,JK,♣5")?).is_ok());
    Ok(())
}

#[test]
fn test_too_many_wildcards() -> Result<(), BurracoError> {
    assert!(Run::build_sequence_run(Cards::of("♣3,JK,JK,♣6")?).is_err());
    Ok(())
}

#[test]
fn test_bad_non_wildcard_two() -> Result<(), BurracoError> {
    assert!(Run::build_sequence_run(Cards::of("♣2,♣4,♣2,♣6")?).is_err());
    Ok(())
}

#[test]
fn test_bad_final_wildcard() -> Result<(), BurracoError> {
    assert!(Run::build_sequence_run(Cards::of("♥K,♥A,JK")?).is_err());
    Ok(())
}

#[test]
fn test_bad_mid_wildcard() -> Result<(), BurracoError> {
    assert!(Run::build_sequence_run(Cards::of("♥3,JK,♥4")?).is_err());
    Ok(())
}

#[test]
fn test_move_seq_wildcard() -> Result<(), BurracoError> {
    let orig_run = Run::build_sequence_run(Cards::of("JK,♥3,♥4")?)?;
    assert!(orig_run.move_card(0, 1).is_err());
    Ok(())
}

#[test]
fn test_burraco_score() -> Result<(), BurracoError> {
    assert_eq!(0, Run::build_sequence_run(Cards::of("♠3,♠4,♠5")?).unwrap().burraco_value());
    assert_eq!(100, Run::build_sequence_run(Cards::of("JK,♠4,♠5,♠6,♠7,♠8,♠9")?).unwrap().burraco_value());
    assert_eq!(100, Run::build_sequence_run(Cards::of("♠3,♠4,♠5,♠6,♠7,♠8,♠2")?).unwrap().burraco_value());
    assert_eq!(100, Run::build_sequence_run(Cards::of("♠2,♠3,♠4,♠2,♠6,♠7,♠8")?).unwrap().burraco_value());
    assert_eq!(150, Run::build_sequence_run(Cards::of("♠3,♠4,♠5,♠6,♠7,♠8,♠9,JK")?).unwrap().burraco_value());
    assert_eq!(150, Run::build_sequence_run(Cards::of("♠2,♠3,♠4,♠5,♠6,♠7,♠8,♠2")?).unwrap().burraco_value());
    assert_eq!(200, Run::build_sequence_run(Cards::of("♠3,♠4,♠5,♠6,♠7,♠8,♠9")?).unwrap().burraco_value());
    assert_eq!(
        300,
        Run::build_sequence_run(Cards::of("♠2,♠3,♠4,♠5,♠6,♠7,♠8,♠9,♠10,♠J,♠Q,♠K,♠A")?)
            .unwrap()
            .burraco_value()
    );
    assert_eq!(
        300,
        Run::build_sequence_run(Cards::of("♠A,♠2,♠3,♠4,♠5,♠6,♠7,♠8,♠9,♠10,♠J,♠Q,♠K")?)
            .unwrap()
            .burraco_value()
    );
    Ok(())
}

#[test]
fn sequence_errors_name_the_rule() -> Result<(), BurracoError> {
    assert_eq!(Err(BurracoError::TooFewCards), Run::build_sequence_run(Cards::of("♣3,♣4")?).map(|_| ()));
    assert_eq!(Err(BurracoError::NoNaturalCard), Run::build_sequence_run(Cards::of("♣2,JK,♦2")?).map(|_| ()));
    assert_eq!(Err(BurracoError::TooManyWildcards), Run::build_sequence_run(Cards::of("♣3,JK,JK,♣6")?).map(|_| ()));
    assert_eq!(Err(BurracoError::MismatchedSuit), Run::build_sequence_run(Cards::of("♣3,♦4,♣5")?).map(|_| ()));
    assert_eq!(Err(BurracoError::BrokenSequence), Run::build_sequence_run(Cards::of("♥3,JK,♥4")?).map(|_| ()));
    assert_eq!(Err(BurracoError::WildcardAfterAce), Run::build_sequence_run(Cards::of("♥K,♥A,JK")?).map(|_| ()));
    assert_eq!(Err(BurracoError::DoubleWildcard), Run::build_sequence_run(Cards::of("♣2,♣4,♣2,♣6")?).map(|_| ()));
    Ok(())
}

#[test]
fn sequence_keeps_card_order() -> Result<(), BurracoError> {
    let cards = Cards::of("JK,♦8,♦9")?;
    let run = Run::build_sequence_run(cards.clone())?;
    assert_eq!(&cards, run.cards());
    assert_eq!(RunType::Sequence, run.run_type());
    Ok(())
}

#[test]
fn group_is_canonical_and_distinct_suited() -> Result<(), BurracoError> {
    let run = Run::build_group_run(Cards::of("♥5,♣2,♣5,JK")?);
    // two wildcards
    assert_eq!(Err(BurracoError::TooManyWildcards), run.map(|_| ()));
    let run = Run::build_group_run(Cards::of("♥5,♣2,♣5")?)?;
    assert_eq!(&Cards::of("♣5,♥5,♣2")?, run.cards());
    assert_eq!(RunType::Group, run.run_type());
    let run = Run::build_group_run(Cards::of("♥5,JK,♣5")?)?;
    assert_eq!(&Cards::of("JK,♣5,♥5")?, run.cards());
    assert_eq!(Err(BurracoError::RepeatedSuit), Run::build_group_run(Cards::of("♣5,♣5,♦5")?).map(|_| ()));
    assert_eq!(Err(BurracoError::MismatchedRank), Run::build_group_run(Cards::of("♣5,♦6,♥5")?).map(|_| ()));
    assert_eq!(Err(BurracoError::TooFewCards), Run::build_group_run(Cards::of("♣5,♦5")?).map(|_| ()));
    // a group of Twos
    assert!(Run::build_group_run(Cards::of("♣2,♦2,♥2")?).is_ok());
    Ok(())
}

#[test]
fn revalidating_gives_back_the_same_run() -> Result<(), BurracoError> {
    for s in ["♠3,♠4,♠5", "JK,♠4,♠5,♠6,♠7,♠8,♠9", "♣A,♣2,♣2", "♠2,♠3,♠4,♠2,♠6,♠7,♠8"] {
        let run = Run::build_sequence_run(Cards::of(s)?)?;
        let again = run.revalidate()?;
        assert_eq!(run, again);
        assert!(run.cards().0.len() >= 3);
    }
    for s in ["♥5,♣2,♣5", "♦K,♠K,JK,♥K"] {
        let run = Run::build_group_run(Cards::of(s)?)?;
        let again = run.revalidate()?;
        assert_eq!(run, again);
        assert_eq!(Ok(run.clone()), Run::build_group_run(run.cards().clone()));
    }
    Ok(())
}

#[test]
fn run_scores_add_card_values() -> Result<(), BurracoError> {
    let run = Run::build_sequence_run(Cards::of("♠3,♠4,♠5")?)?;
    assert_eq!((0, 15), run.score_burraco_cards());
    assert_eq!(15, run.score());
    let run = Run::build_sequence_run(Cards::of("♠3,♠4,♠5,♠6,♠7,♠8,♠9")?)?;
    assert_eq!(200 + 5 * 5 + 10 * 2, run.score());
    assert!(run.is_burraco());
    let run = Run::build_group_run(Cards::of("♠A,♦A,JK")?)?;
    assert_eq!(15 + 15 + 30, run.score());
    assert_eq!(0, run.burraco_value());
    Ok(())
}

#[test]
fn append_rebuilds_at_either_end() -> Result<(), BurracoError> {
    let run = Run::build_sequence_run(Cards::of("♥4,♥5,♥6")?)?;
    let top = run.append(&Cards::of("♥7")?, Append::Top)?;
    assert_eq!(&Cards::of("♥4,♥5,♥6,♥7")?, top.cards());
    let bottom = run.append(&Cards::of("♥3")?, Append::Bottom)?;
    assert_eq!(&Cards::of("♥3,♥4,♥5,♥6")?, bottom.cards());
    assert_eq!(Err(BurracoError::BrokenSequence), run.append(&Cards::of("♥9")?, Append::Top).map(|_| ()));
    let group = Run::build_group_run(Cards::of("♣9,♦9,♥9")?)?;
    let bigger = group.append(&Cards::of("♠9")?, Append::Bottom)?;
    assert_eq!(&Cards::of("♣9,♦9,♥9,♠9")?, bigger.cards());
    Ok(())
}

#[test]
fn replace_wildcard_moves_it_to_the_front() -> Result<(), BurracoError> {
    let run = Run::build_sequence_run(Cards::of("♥4,JK,♥6")?)?;
    let replaced = run.replace_wildcard(1, &Card(Suit::Hearts, Rank::Numerical(5)))?;
    assert_eq!(&Cards::of("JK,♥4,♥5,♥6")?, replaced.cards());
    assert_eq!(
        Err(BurracoError::InvalidPosition),
        run.replace_wildcard(3, &Card(Suit::Hearts, Rank::Numerical(5))).map(|_| ())
    );
    let group = Run::build_group_run(Cards::of("♣9,♦9,JK")?)?;
    assert_eq!(
        Err(BurracoError::NotASequence),
        group.replace_wildcard(0, &Card(Suit::Hearts, Rank::Numerical(9))).map(|_| ())
    );
    Ok(())
}

#[test]
fn move_card_relocates_a_wildcard() -> Result<(), BurracoError> {
    let run = Run::build_sequence_run(Cards::of("JK,♥4,♥5")?)?;
    let moved = run.move_card(0, 2);
    assert!(moved.is_err());
    let moved = Run::build_sequence_run(Cards::of("♥4,♥5,JK")?)?.move_card(2, 0)?;
    assert_eq!(&Cards::of("JK,♥4,♥5")?, moved.cards());
    assert_eq!(Err(BurracoError::InvalidPosition), run.move_card(1, 1).map(|_| ()));
    assert_eq!(Err(BurracoError::InvalidPosition), run.move_card(0, 3).map(|_| ()));
    let group = Run::build_group_run(Cards::of("♣9,♦9,JK")?)?;
    assert_eq!(Err(BurracoError::NotASequence), group.move_card(2, 0).map(|_| ()));
    Ok(())
}

#[test]
fn burraco_bonus_by_cleanliness() -> Result<(), BurracoError> {
    let bonus = |s: &str| Run::build_sequence_run(Cards::of(s).unwrap()).unwrap().burraco_value();
    assert_eq!(0, bonus("♠3,♠4,♠5"));
    assert_eq!(0, bonus("♠3,♠4,♠5,♠6,♠7,♠8"));
    assert_eq!(100, bonus("JK,♠4,♠5,♠6,♠7,♠8,♠9"));
    assert_eq!(150, bonus("JK,♠3,♠4,♠5,♠6,♠7,♠8,♠9"));
    assert_eq!(150, bonus("♠3,♠4,♠5,♠6,♠7,♠8,♠9,JK"));
    assert_eq!(100, bonus("♠3,♠4,♠5,JK,♠7,♠8,♠9,♠10"));
    assert_eq!(200, bonus("♠3,♠4,♠5,♠6,♠7,♠8,♠9"));
    assert_eq!(300, bonus("♠2,♠3,♠4,♠5,♠6,♠7,♠8,♠9,♠10,♠J,♠Q,♠K,♠A"));
    let group = Run::build_group_run(Cards::of("♣9,♦9,♥9,♠9,JK")?)?;
    assert_eq!(0, group.burraco_value());
    Ok(())
}

#[test]
fn runs_hold_no_more_cards_than_are_in_play() {
    let mut cards = Cards::build_deck(3);
    cards.0.append(&mut Cards::build_deck(3).0);
    cards.0.push(Card(Suit::Clubs, Rank::Numerical(3)));
    assert_eq!(111, cards.0.len());
    assert_eq!(Err(BurracoError::TooManyCards), Run::build_sequence_run(cards.clone()).map(|_| ()));
    assert_eq!(Err(BurracoError::TooManyCards), Run::build_group_run(cards).map(|_| ()));
}
