//! Caller-facing failures. Every mutating entry point validates before it
//! commits, so an error always leaves the state unchanged.

use vstd::prelude::*;

verus! {

#[derive(Debug, Clone, Copy, PartialEq, Eq, Hash, Structural)]
pub enum BurracoError {
    /// An action was submitted in a phase that does not accept it.
    WrongPhase,
    /// The cards to place are not all in the active player's hand.
    CardsNotInHand,
    /// The run index names no run of the active team.
    NoSuchRun,
    /// A run needs at least three cards.
    TooFewCards,
    /// A run cannot hold more cards than there are in play.
    TooManyCards,
    /// A sequence needs at least one card that is neither a Two nor a Joker.
    NoNaturalCard,
    /// More wildcards than a run allows.
    TooManyWildcards,
    /// A second card of the sequence acts as a wildcard.
    DoubleWildcard,
    /// A wildcard cannot extend a sequence past an Ace.
    WildcardAfterAce,
    /// A natural card of a sequence is not of the sequence's suit.
    MismatchedSuit,
    /// Two adjacent cards of a sequence are not consecutive ranks.
    BrokenSequence,
    /// A natural card of a group is not of the group's rank.
    MismatchedRank,
    /// Two natural cards of a group share a suit.
    RepeatedSuit,
    /// A position lies outside the run, or a move would change nothing.
    InvalidPosition,
    /// Replacing or moving a card is only meaningful in a sequence.
    NotASequence,
    /// A card token does not start with a known suit symbol.
    InvalidSuit,
    /// A card token does not end with a known rank code.
    InvalidRank,
}

} // verus!
