use burraco::card::{Card, Cards, Rank, Suit};
use burraco::error::BurracoError;

#[test]
fn rank_index_value_and_neighbours() {
    assert_eq!(2, Rank::Two.index());
    assert_eq!(7, Rank::Numerical(7).index());
    assert_eq!(14, Rank::Ace.index());
    assert_eq!(-2, Rank::Joker.index());
    assert_eq!(5, Rank::Numerical(3).value());
    assert_eq!(5, Rank::Numerical(7).value());
    assert_eq!(10, Rank::Numerical(8).value());
    assert_eq!(10, Rank::King.value());
    assert_eq!(15, Rank::Ace.value());
    assert_eq!(20, Rank::Two.value());
    assert_eq!(30, Rank::Joker.value());
    assert_eq!(Rank::Jack, Rank::from_index(11));
    assert_eq!(Rank::Numerical(9), Rank::from_index(9));
    assert_eq!(Rank::Two, Rank::Ace.next());
    assert_eq!(Rank::Ace, Rank::King.next());
    assert_eq!(Rank::Numerical(3), Rank::Two.next());
    assert_eq!(None, Rank::Ace.prev());
    assert_eq!(None, Rank::Joker.prev());
    assert_eq!(Some(Rank::Two), Rank::Numerical(3).prev());
    assert_eq!(Some(Rank::Queen), Rank::King.prev());
}

#[test]
fn sort_key_orders_jokers_first() {
    assert_eq!((0, -2), Card(Suit::Jokers, Rank::Joker).val_tpl());
    assert_eq!((3, 12), Card(Suit::Hearts, Rank::Queen).val_tpl());
    let mut hand = Cards::of("♠2,JK,♣K,♣3,♦A").unwrap();
    hand.sort();
    assert_eq!(Cards::of("JK,♣3,♣K,♦A,♠2").unwrap(), hand);
}

#[test]
fn notation_parses_tokens() -> Result<(), BurracoError> {
    assert_eq!(Ok(Card(Suit::Clubs, Rank::Numerical(10))), Card::parse("♣10"));
    assert_eq!(Ok(Card(Suit::Jokers, Rank::Joker)), Card::parse("JK"));
    assert_eq!(Ok(Card(Suit::Spades, Rank::Ace)), Card::parse("♠A"));
    assert_eq!(Err(BurracoError::InvalidSuit), Card::parse("X5"));
    assert_eq!(Err(BurracoError::InvalidSuit), Card::parse(""));
    assert_eq!(Err(BurracoError::InvalidRank), Card::parse("♦1"));
    assert_eq!(Err(BurracoError::InvalidRank), Card::parse("♦"));
    let cards = Cards::of(" ♣5 ,JK, ♥Q")?;
    assert_eq!(
        vec![Card(Suit::Clubs, Rank::Numerical(5)), Card(Suit::Jokers, Rank::Joker), Card(Suit::Hearts, Rank::Queen)],
        cards.0
    );
    assert_eq!(0, Cards::of("   ")?.0.len());
    assert_eq!(Err(BurracoError::InvalidRank), Cards::of("♣5,♣11,X"));
    assert_eq!(Err(BurracoError::InvalidSuit), Cards::of("♣5,,♣6"));
    Ok(())
}

#[test]
fn deck_and_piles() -> Result<(), BurracoError> {
    let deck = Cards::build_deck(3);
    assert_eq!(55, deck.0.len());
    assert_eq!(Card(Suit::Clubs, Rank::Two), deck.0[0]);
    assert_eq!(Card(Suit::Spades, Rank::Ace), deck.0[51]);
    assert_eq!(Card(Suit::Jokers, Rank::Joker), deck.0[54]);
    let mut cards = Cards::of("♣3,♣4,♣5,♣6")?;
    let back = cards.drain_back(3);
    assert_eq!(Cards::of("♣4,♣5,♣6")?, back);
    assert_eq!(Cards::of("♣3")?, cards);
    assert_eq!(5 + 10 + 15 + 20 + 30, Cards::of("♣3,♦K,♥A,♠2,JK")?.value_sum());
    Ok(())
}

#[test]
fn notation_round_trips_every_card() {
    let mut all = Cards::build_deck(1);
    all.0.push(Card(Suit::Jokers, Rank::Joker));
    for card in all.0 {
        let token = card.to_notation();
        assert_eq!(Ok(card), Card::parse(&token));
    }
    assert_eq!("♣10", Card(Suit::Clubs, Rank::Numerical(10)).to_notation());
    assert_eq!("♥Q", Card(Suit::Hearts, Rank::Queen).to_notation());
    assert_eq!("JK", Card(Suit::Jokers, Rank::Joker).to_notation());
}

#[test]
fn notation_skips_unicode_white_space() -> Result<(), BurracoError> {
    let cards = Cards::of("\u{a0}♣5\u{c},\u{3000}JK\t")?;
    assert_eq!(vec![Card(Suit::Clubs, Rank::Numerical(5)), Card(Suit::Jokers, Rank::Joker)], cards.0);
    assert_eq!(0, Cards::of("\u{c}\u{a0} \u{2003}")?.0.len());
    Ok(())
}
