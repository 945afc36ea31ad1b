//! Runs (melds): construction is the single place where legality is decided,
//! and every change to a run rebuilds it from scratch.

use vstd::multiset::Multiset;
use vstd::prelude::*;

use crate::card::{
    MAX_CARDS, value_sum_of,
    Card, Cards, Rank, Suit, card_wf, cards_wf, is_wild_rank, rank_index, rank_next, rank_prev,
    rank_wf, real_suits, sort_cards_by_key, sorted_by_key,
};
use crate::error::BurracoError;

verus! {

#[derive(Debug, Clone, Copy, PartialEq, Eq, Hash, Structural)]
pub enum RunType {
    Sequence,
    Group,
}

/// Index of the first card at or after `i` that is neither a Two nor a
/// Joker, or the length when there is none.
pub open spec fn first_natural_from(s: Seq<Card>, i: int) -> int
    decreases s.len() - i,
{
    if i < 0 || i >= s.len() {
        s.len() as int
    } else if !is_wild_rank(s[i].1) {
        i
    } else {
        first_natural_from(s, i + 1)
    }
}

pub open spec fn first_natural(s: Seq<Card>) -> int {
    first_natural_from(s, 0)
}

pub open spec fn count_twos_of(s: Seq<Card>, a: Suit) -> nat
    decreases s.len(),
{
    if s.len() == 0 {
        0
    } else {
        count_twos_of(s.drop_last(), a) + (if s.last().1 == Rank::Two && s.last().0 == a { 1nat } else { 0nat })
    }
}

pub open spec fn count_twos_not_of(s: Seq<Card>, a: Suit) -> nat
    decreases s.len(),
{
    if s.len() == 0 {
        0
    } else {
        count_twos_not_of(s.drop_last(), a) + (if s.last().1 == Rank::Two && s.last().0 != a { 1nat } else { 0nat })
    }
}

pub open spec fn count_jokers(s: Seq<Card>) -> nat
    decreases s.len(),
{
    if s.len() == 0 {
        0
    } else {
        count_jokers(s.drop_last()) + (if s.last().1 == Rank::Joker { 1nat } else { 0nat })
    }
}

/// Wildcards of a sequence anchored in suit `a`: a Joker, a Two of another
/// suit, and at most one Two of the anchor suit (the other may be natural).
pub open spec fn sequence_wildcards(s: Seq<Card>, a: Suit) -> nat {
    (if count_twos_of(s, a) >= 1 { 1nat } else { 0nat }) + count_twos_not_of(s, a) + count_jokers(s)
}

/// The rank that the card at `i` stands in for, when it acts as a wildcard.
/// A Two of the anchor suit followed by a Three of that suit, or by another
/// wildcard, is a natural Two; a leading pair of anchor-suit Twos makes the
/// first one an Ace.
pub open spec fn wild_slot(s: Seq<Card>, a: Suit, i: int) -> Option<Rank> {
    let c = s[i];
    let has_next = i + 1 < s.len();
    let n = s[i + 1];
    if c.1 == Rank::Two && c.0 == a && has_next && n.0 == a && n.1 == Rank::Numerical(3) {
        None
    } else if i == 0 && c.1 == Rank::Two && c.0 == a && has_next && n.0 == a && n.1 == Rank::Two {
        Some(Rank::Ace)
    } else if c.1 == Rank::Two && c.0 == a && has_next && is_wild_rank(n.1) {
        None
    } else if i > 0 && is_wild_rank(c.1) {
        Some(rank_next(s[i - 1].1))
    } else if i == 0 && is_wild_rank(c.1) && has_next && rank_prev(n.1) is Some {
        rank_prev(n.1)
    } else {
        None
    }
}

/// `r` may follow `p` in a sequence: Ace is followed by Two only.
pub open spec fn follows(p: Rank, r: Rank) -> bool {
    if p == Rank::Ace {
        r == Rank::Two
    } else {
        rank_index(p) + 1 == rank_index(r)
    }
}

/// The rank that the card before `i` has in the sequence: the stood-in rank
/// when that card is the wildcard.
pub open spec fn rank_before(s: Seq<Card>, i: int, used: Option<(int, Rank)>) -> Rank {
    match used {
        Some((j, r)) => if j == i - 1 { r } else { s[i - 1].1 },
        None => s[i - 1].1,
    }
}

/// Walks the sequence from position `i`, with `used` the wildcard seen so far
/// (its position and the rank it stands in for).
pub open spec fn seq_scan(s: Seq<Card>, a: Suit, i: int, used: Option<(int, Rank)>) -> Result<(), BurracoError>
    decreases s.len() - i,
{
    if i < 0 || i >= s.len() {
        Ok(())
    } else if wild_slot(s, a, i) is Some {
        if used is Some {
            Err(BurracoError::DoubleWildcard)
        } else if i > 0 && s[i - 1].1 == Rank::Ace && i + 1 == s.len() {
            Err(BurracoError::WildcardAfterAce)
        } else {
            seq_scan(s, a, i + 1, Some((i, wild_slot(s, a, i)->Some_0)))
        }
    } else if s[i].0 != a {
        Err(BurracoError::MismatchedSuit)
    } else if i > 0 && !follows(rank_before(s, i, used), s[i].1) {
        Err(BurracoError::BrokenSequence)
    } else {
        seq_scan(s, a, i + 1, used)
    }
}

/// Whether the cards, in this order, form a legal sequence, and if not, why.
pub open spec fn sequence_verdict(s: Seq<Card>) -> Result<(), BurracoError> {
    if s.len() < 3 {
        Err(BurracoError::TooFewCards)
    } else if s.len() > MAX_CARDS {
        Err(BurracoError::TooManyCards)
    } else if first_natural(s) >= s.len() {
        Err(BurracoError::NoNaturalCard)
    } else if sequence_wildcards(s, s[first_natural(s)].0) > 1 {
        Err(BurracoError::TooManyWildcards)
    } else {
        seq_scan(s, s[first_natural(s)].0, 0, None)
    }
}

pub open spec fn has_card(m: Multiset<Card>, c: Card) -> bool {
    m.count(c) > 0
}

/// Two natural cards (neither Two nor Joker) of different ranks.
pub open spec fn mixed_ranks(m: Multiset<Card>) -> bool {
    exists|x: Card, y: Card|
        has_card(m, x) && has_card(m, y) && !is_wild_rank(x.1) && !is_wild_rank(y.1) && x.1 != y.1
}

/// The rank of a group: that of its natural cards, or Two when all are wild.
pub open spec fn group_anchor(m: Multiset<Card>) -> Rank {
    if exists|c: Card| has_card(m, c) && !is_wild_rank(c.1) {
        (choose|c: Card| has_card(m, c) && !is_wild_rank(c.1)).1
    } else {
        Rank::Two
    }
}

pub open spec fn count_twos(m: Multiset<Card>) -> nat {
    m.count(Card(Suit::Clubs, Rank::Two)) + m.count(Card(Suit::Diamonds, Rank::Two)) + m.count(
        Card(Suit::Hearts, Rank::Two),
    ) + m.count(Card(Suit::Spades, Rank::Two))
}

/// Wildcards of a group: Jokers, and Twos unless the group is of Twos.
pub open spec fn group_wildcards(m: Multiset<Card>, anchor: Rank) -> nat {
    m.count(Card(Suit::Jokers, Rank::Joker)) + (if anchor != Rank::Two { count_twos(m) } else { 0 })
}

/// Two cards of the group's own rank share a suit.
pub open spec fn repeated_suit(m: Multiset<Card>, anchor: Rank) -> bool {
    exists|k: int| 0 <= k < 4 && m.count(Card(#[trigger] real_suits()[k], anchor)) > 1
}

/// Whether the cards, in any order, form a legal group, and if not, why.
pub open spec fn group_verdict(m: Multiset<Card>) -> Result<(), BurracoError> {
    if m.len() < 3 {
        Err(BurracoError::TooFewCards)
    } else if m.len() > MAX_CARDS {
        Err(BurracoError::TooManyCards)
    } else if mixed_ranks(m) {
        Err(BurracoError::MismatchedRank)
    } else if group_wildcards(m, group_anchor(m)) > 1 {
        Err(BurracoError::TooManyWildcards)
    } else if repeated_suit(m, group_anchor(m)) {
        Err(BurracoError::RepeatedSuit)
    } else {
        Ok(())
    }
}

pub open spec fn used_view(u: Option<(usize, Rank)>) -> Option<(int, Rank)> {
    match u {
        Some((j, r)) => Some((j as int, r)),
        None => None,
    }
}

proof fn lemma_first_natural(s: Seq<Card>, i: int)
    requires
        0 <= i <= s.len(),
        forall|j: int| 0 <= j < i ==> is_wild_rank(#[trigger] s[j].1),
    ensures
        first_natural(s) == first_natural_from(s, i),
    decreases i,
{
    if i > 0 {
        lemma_first_natural(s, i - 1);
    }
}

#[derive(Debug, PartialEq, Eq, Hash)]
pub struct Run {
    cards: Cards,
    run_type: RunType,
}

impl Run {
    #[verifier::type_invariant]
    spec fn legal(self) -> bool {
        &&& cards_wf(self.cards@)
        &&& self.cards@.len() <= MAX_CARDS
        &&& match self.run_type {
            RunType::Sequence => sequence_verdict(self.cards@) is Ok,
            RunType::Group => group_verdict(self.cards@.to_multiset()) is Ok
                && sorted_by_key(self.cards@, true),
        }
    }

    pub closed spec fn spec_cards(&self) -> Seq<Card> {
        self.cards@
    }

    pub closed spec fn spec_run_type(&self) -> RunType {
        self.run_type
    }
}

impl View for Run {
    type V = Seq<Card>;

    open spec fn view(&self) -> Seq<Card> {
        self.spec_cards()
    }
}

/// What building a sequence from `s` may give: the run of exactly these
/// cards when they are legal, else the reason they are not.
pub open spec fn sequence_outcome(s: Seq<Card>, r: Result<Run, BurracoError>) -> bool {
    match r {
        Ok(run) => sequence_verdict(s) is Ok && run@ == s && run.spec_run_type() == RunType::Sequence,
        Err(e) => sequence_verdict(s) == Err::<(), BurracoError>(e),
    }
}

/// What building a group from `s` may give: when legal, the same cards in
/// canonical order (wildcards last), which keeps an already canonical order.
pub open spec fn group_outcome(s: Seq<Card>, r: Result<Run, BurracoError>) -> bool {
    match r {
        Ok(run) => {
            &&& group_verdict(s.to_multiset()) is Ok
            &&& run@.to_multiset() == s.to_multiset()
            &&& sorted_by_key(run@, true)
            &&& sorted_by_key(s, true) ==> run@ == s
            &&& run.spec_run_type() == RunType::Group
        },
        Err(e) => group_verdict(s.to_multiset()) == Err::<(), BurracoError>(e),
    }
}

pub open spec fn build_outcome(t: RunType, s: Seq<Card>, r: Result<Run, BurracoError>) -> bool {
    match t {
        RunType::Sequence => sequence_outcome(s, r),
        RunType::Group => group_outcome(s, r),
    }
}

impl Clone for Run {
    fn clone(&self) -> (r: Run)
        ensures
            r@ == self@,
            r.spec_run_type() == self.spec_run_type(),
    {
        proof {
            use_type_invariant(self);
        }
        Run { cards: Cards(copy_cards(&self.cards.0)), run_type: self.run_type }
    }
}

pub(crate) fn copy_cards(v: &Vec<Card>) -> (r: Vec<Card>)
    ensures
        r@ == v@,
{
    let mut r: Vec<Card> = Vec::new();
    let mut i: usize = 0;
    while i < v.len()
        invariant
            i <= v@.len(),
            r@ =~= v@.take(i as int),
        decreases v@.len() - i,
    {
        r.push(v[i]);
        i = i + 1;
    }
    assert(v@.take(i as int) =~= v@);
    r
}

impl Run {
    pub fn build_sequence_run(cards: Cards) -> (r: Result<Run, BurracoError>)
        requires
            cards_wf(cards@),
        ensures
            sequence_outcome(cards@, r),
    {
        let ghost s = cards@;
        let n = cards.0.len();
        if n < 3 {
            return Err(BurracoError::TooFewCards);
        }
        if n > MAX_CARDS {
            return Err(BurracoError::TooManyCards);
        }
        let mut f: usize = 0;
        while f < n && (cards.0[f].1 == Rank::Two || cards.0[f].1 == Rank::Joker)
            invariant
                f <= n == s.len(),
                s == cards@,
                forall|j: int| 0 <= j < f ==> is_wild_rank(#[trigger] s[j].1),
            decreases n - f,
        {
            f = f + 1;
        }
        proof {
            lemma_first_natural(s, f as int);
        }
        if f == n {
            return Err(BurracoError::NoNaturalCard);
        }
        let anchor = cards.0[f].0;
        proof {
            assert(card_wf(s[f as int]));
        }
        let mut same_two: usize = 0;
        let mut other_two: usize = 0;
        let mut jokers: usize = 0;
        let mut i: usize = 0;
        while i < n
            invariant
                i <= n == s.len(),
                s == cards@,
                same_two == count_twos_of(s.take(i as int), anchor),
                other_two == count_twos_not_of(s.take(i as int), anchor),
                jokers == count_jokers(s.take(i as int)),
                same_two + other_two + jokers <= i,
            decreases n - i,
        {
            assert(s.take(i + 1).drop_last() =~= s.take(i as int));
            let c = cards.0[i];
            if c.1 == Rank::Two && c.0 == anchor {
                same_two = same_two + 1;
            } else if c.1 == Rank::Two {
                other_two = other_two + 1;
            } else if c.1 == Rank::Joker {
                jokers = jokers + 1;
            }
            i = i + 1;
        }
        assert(s.take(n as int) =~= s);
        let capped: usize = if same_two >= 1 { 1 } else { 0 };
        if capped + other_two + jokers > 1 {
            return Err(BurracoError::TooManyWildcards);
        }
        let mut used: Option<(usize, Rank)> = None;
        let mut i: usize = 0;
        while i < n
            invariant
                i <= n == s.len(),
                s == cards@,
                cards_wf(s),
                f < n,
                anchor == s[first_natural(s)].0,
                anchor != Suit::Jokers,
                sequence_verdict(s) == seq_scan(s, anchor, i as int, used_view(used)),
                i > 0 && s[i - 1].1 == Rank::Joker ==> used is Some,
                used matches Some((j, r)) ==> j < i && rank_wf(r),
            decreases n - i,
        {
            let c = cards.0[i];
            let has_next = i + 1 < n;
            proof {
                assert(card_wf(s[i as int]));
                if i > 0 {
                    assert(card_wf(s[i - 1]));
                }
                if has_next {
                    assert(card_wf(s[i + 1]));
                }
            }
            let nc = if has_next { cards.0[i + 1] } else { c };
            let is_two = c.1 == Rank::Two;
            let is_wild = is_two || c.1 == Rank::Joker;
            let a1 = is_two && c.0 == anchor && has_next && nc.0 == anchor && nc.1 == Rank::Numerical(3);
            let a2 = i == 0 && is_two && c.0 == anchor && has_next && nc.0 == anchor && nc.1 == Rank::Two;
            let a3 = is_two && c.0 == anchor && has_next && (nc.1 == Rank::Two || nc.1 == Rank::Joker);
            let a4 = i > 0 && is_wild;
            let a5 = i == 0 && is_wild && has_next && nc.1 != Rank::Two && nc.1 != Rank::Joker && nc.1
                != Rank::Ace;
            let stands_in = !a1 && (a2 || (!a3 && (a4 || a5)));
            assert(stands_in == wild_slot(s, anchor, i as int) is Some);
            if stands_in {
                if used.is_some() {
                    return Err(BurracoError::DoubleWildcard);
                }
                if i > 0 && cards.0[i - 1].1 == Rank::Ace && i + 1 == n {
                    return Err(BurracoError::WildcardAfterAce);
                }
                let rank = if a2 {
                    Rank::Ace
                } else if i > 0 {
                    cards.0[i - 1].1.next()
                } else {
                    match nc.1.prev() {
                        Some(p) => p,
                        None => Rank::Ace,
                    }
                };
                assert(wild_slot(s, anchor, i as int) == Some(rank));
                used = Some((i, rank));
            } else {
                if c.0 != anchor {
                    return Err(BurracoError::MismatchedSuit);
                }
                if i > 0 {
                    let prev_rank = match used {
                        Some((j, r)) => if j + 1 == i { r } else { cards.0[i - 1].1 },
                        None => cards.0[i - 1].1,
                    };
                    assert(prev_rank == rank_before(s, i as int, used_view(used)));
                    let ok = if prev_rank == Rank::Ace {
                        c.1 == Rank::Two
                    } else {
                        prev_rank.index() as i32 + 1 == c.1.index() as i32
                    };
                    if !ok {
                        return Err(BurracoError::BrokenSequence);
                    }
                }
            }
            i = i + 1;
        }
        Ok(Run { cards, run_type: RunType::Sequence })
    }
}

proof fn lemma_take_push_multiset(s: Seq<Card>, i: int)
    requires
        0 <= i < s.len(),
    ensures
        s.take(i + 1).to_multiset() == s.take(i).to_multiset().insert(s[i]),
{
    broadcast use vstd::seq_lib::to_multiset_build;
    assert(s.take(i + 1) =~= s.take(i).push(s[i]));
}

/// The rank of a group after checking that its natural cards agree on it.
fn check_group_ranks(v: &Vec<Card>) -> (r: Result<Rank, BurracoError>)
    ensures
        match r {
            Ok(a) => !mixed_ranks(v@.to_multiset()) && a == group_anchor(v@.to_multiset()),
            Err(e) => mixed_ranks(v@.to_multiset()) && e == BurracoError::MismatchedRank,
        },
{
    broadcast use vstd::seq_lib::to_multiset_contains;

    let ghost s = v@;
    let ghost m = s.to_multiset();
    let n = v.len();
    let mut f: usize = 0;
    while f < n && (v[f].1 == Rank::Two || v[f].1 == Rank::Joker)
        invariant
            f <= n == s.len(),
            s == v@,
            forall|j: int| 0 <= j < f ==> is_wild_rank(#[trigger] s[j].1),
        decreases n - f,
    {
        f = f + 1;
    }
    let anchor = if f < n { v[f].1 } else { Rank::Two };
    let mut i: usize = 0;
    while i < n
        invariant
            i <= n == s.len(),
            s == v@,
            m == s.to_multiset(),
            f <= n,
            f < n ==> anchor == s[f as int].1 && !is_wild_rank(anchor),
            f == n ==> anchor == Rank::Two && forall|j: int| 0 <= j < n ==> is_wild_rank(#[trigger] s[j].1),
            forall|j: int| 0 <= j < i && !is_wild_rank(#[trigger] s[j].1) ==> s[j].1 == anchor,
        decreases n - i,
    {
        let c = v[i];
        if c.1 != Rank::Two && c.1 != Rank::Joker && c.1 != anchor {
            proof {
                assert(s.contains(s[f as int]));
                assert(s.contains(c));
                vstd::seq_lib::to_multiset_contains(s, s[f as int]);
                vstd::seq_lib::to_multiset_contains(s, c);
                assert(has_card(m, s[f as int]));
                assert(has_card(m, c));
                assert(mixed_ranks(m));
            }
            return Err(BurracoError::MismatchedRank);
        }
        i = i + 1;
    }
    proof {
        assert(!mixed_ranks(m)) by {
            assert forall|x: Card, y: Card|
                has_card(m, x) && has_card(m, y) && !is_wild_rank(x.1) && !is_wild_rank(y.1)
                implies x.1 == y.1 by {
                assert(s.contains(x));
                assert(s.contains(y));
            }
        }
        if f < n {
            assert(s.contains(s[f as int]));
            assert(has_card(m, s[f as int]));
            let c = choose|c: Card| has_card(m, c) && !is_wild_rank(c.1);
            assert(s.contains(c));
        } else {
            assert forall|c: Card| has_card(m, c) implies is_wild_rank(c.1) by {
                assert(s.contains(c));
            }
        }
    }
    Ok(anchor)
}

/// Checks the wildcard budget, then that no suit repeats among the cards of
/// the group's rank.
fn check_group_wildcards_and_suits(v: &Vec<Card>, anchor: Rank) -> (r: Result<(), BurracoError>)
    requires
        cards_wf(v@),
    ensures
        match r {
            Ok(()) => group_wildcards(v@.to_multiset(), anchor) <= 1 && !repeated_suit(v@.to_multiset(), anchor),
            Err(e) => if group_wildcards(v@.to_multiset(), anchor) > 1 {
                e == BurracoError::TooManyWildcards
            } else {
                repeated_suit(v@.to_multiset(), anchor) && e == BurracoError::RepeatedSuit
            },
        },
{
    broadcast use vstd::multiset::group_multiset_axioms;

    let ghost s = v@;
    let n = v.len();
    let mut jokers: usize = 0;
    let mut twos: usize = 0;
    let mut clubs: usize = 0;
    let mut diamonds: usize = 0;
    let mut hearts: usize = 0;
    let mut spades: usize = 0;
    let mut i: usize = 0;
    proof {
        vstd::seq_lib::to_multiset_len(s.take(0));
        vstd::multiset::lemma_multiset_empty_len(s.take(0).to_multiset());
    }
    while i < n
        invariant
            i <= n == s.len(),
            s == v@,
            cards_wf(s),
            jokers == s.take(i as int).to_multiset().count(Card(Suit::Jokers, Rank::Joker)),
            twos == count_twos(s.take(i as int).to_multiset()),
            clubs == s.take(i as int).to_multiset().count(Card(Suit::Clubs, anchor)),
            diamonds == s.take(i as int).to_multiset().count(Card(Suit::Diamonds, anchor)),
            hearts == s.take(i as int).to_multiset().count(Card(Suit::Hearts, anchor)),
            spades == s.take(i as int).to_multiset().count(Card(Suit::Spades, anchor)),
            jokers + twos <= i && clubs <= i && diamonds <= i && hearts <= i && spades <= i,
        decreases n - i,
    {
        proof {
            lemma_take_push_multiset(s, i as int);
            assert(card_wf(s[i as int]));
        }
        let c = v[i];
        if c.1 == Rank::Joker {
            jokers = jokers + 1;
        }
        if c.1 == Rank::Two {
            twos = twos + 1;
        }
        if c.1 == anchor {
            match c.0 {
                Suit::Clubs => clubs = clubs + 1,
                Suit::Diamonds => diamonds = diamonds + 1,
                Suit::Hearts => hearts = hearts + 1,
                Suit::Spades => spades = spades + 1,
                Suit::Jokers => {},
            }
        }
        i = i + 1;
    }
    assert(s.take(n as int) =~= s);
    let wild = if anchor != Rank::Two { jokers + twos } else { jokers };
    if wild > 1 {
        return Err(BurracoError::TooManyWildcards);
    }
    proof {
        assert(real_suits()[0] == Suit::Clubs);
        assert(real_suits()[1] == Suit::Diamonds);
        assert(real_suits()[2] == Suit::Hearts);
        assert(real_suits()[3] == Suit::Spades);
    }
    if clubs > 1 || diamonds > 1 || hearts > 1 || spades > 1 {
        return Err(BurracoError::RepeatedSuit);
    }
    Ok(())
}

impl Run {
    pub fn build_group_run(cards: Cards) -> (r: Result<Run, BurracoError>)
        requires
            cards_wf(cards@),
        ensures
            group_outcome(cards@, r),
    {
        proof {
            broadcast use vstd::seq_lib::to_multiset_len;
            assert(cards@.to_multiset().len() == cards@.len());
        }
        if cards.0.len() < 3 {
            return Err(BurracoError::TooFewCards);
        }
        if cards.0.len() > MAX_CARDS {
            return Err(BurracoError::TooManyCards);
        }
        let anchor = check_group_ranks(&cards.0)?;
        check_group_wildcards_and_suits(&cards.0, anchor)?;
        let mut v = cards.0;
        sort_cards_by_key(&mut v, true);
        Ok(Run { cards: Cards(v), run_type: RunType::Group })
    }
}

/// Where cards are added to a run: after its last card or before its first.
#[derive(Debug, Clone, Copy, PartialEq, Eq, Hash, Structural)]
pub enum Append {
    Top,
    Bottom,
}

/// One transition of the cleanliness scan, from card `i - 1` to card `i`:
/// the running clean streak, its maximum, and whether the last transition
/// was clean. A transition is clean when both cards share a suit and a Two
/// is only followed by a Three; a Two in last place is never clean.
pub open spec fn clean_step(s: Seq<Card>, i: int, st: (int, int, bool)) -> (int, int, bool) {
    let (num, mx, last) = st;
    let p = s[i - 1];
    let c = s[i];
    let base = p.0 == c.0 && (p.1 == Rank::Two ==> c.1 == Rank::Numerical(3));
    let is_last = i == s.len() - 1;
    let clean = if is_last && c.1 == Rank::Two { false } else { base };
    let num1 = if is_last && last && clean { num + 1 } else { num };
    if clean {
        (num1 + 1, mx, true)
    } else {
        let num2 = if last { num1 + 1 } else { num1 };
        (0, if mx >= num2 { mx } else { num2 }, false)
    }
}

/// The scan's state once the transitions into cards 1..k have been walked.
pub open spec fn clean_scan(s: Seq<Card>, k: int) -> (int, int, bool)
    decreases k,
{
    if k <= 1 {
        (0, 0, false)
    } else {
        clean_step(s, k - 1, clean_scan(s, k - 1))
    }
}

/// Bonus of a run of seven or more cards: 100 for a group; for a sequence
/// 300 when all 13 cards are clean, 200 when all are clean, 150 when the
/// longest clean streak (the last one included) holds all cards but one,
/// else 100.
pub open spec fn burraco_bonus(s: Seq<Card>, t: RunType) -> int {
    if s.len() < 7 {
        0
    } else if t == RunType::Group {
        100
    } else {
        let (num, mx, _) = clean_scan(s, s.len() as int);
        let longest = if mx >= num { mx } else { num };
        if num == s.len() {
            if num == 13 {
                300
            } else {
                200
            }
        } else if longest >= 7 && longest == s.len() - 1 {
            150
        } else {
            100
        }
    }
}

pub open spec fn run_score(s: Seq<Card>, t: RunType) -> int {
    burraco_bonus(s, t) + value_sum_of(s)
}

/// The cards of `run` with `cards` added at the given end.
pub open spec fn appended(run: Seq<Card>, cards: Seq<Card>, to: Append) -> Seq<Card> {
    match to {
        Append::Top => run + cards,
        Append::Bottom => cards + run,
    }
}

/// The cards of a run with the card at `at` replaced by `card`, and the card
/// it displaces put in front.
pub open spec fn replaced(run: Seq<Card>, at: int, card: Card) -> Seq<Card> {
    seq![run[at]] + run.update(at, card)
}

/// The cards of a run with the card at `from` moved to stand before
/// position `to`.
pub open spec fn moved(run: Seq<Card>, from: int, to: int) -> Seq<Card> {
    run.insert(to, run[from]).remove(if to < from { from + 1 } else { from })
}

impl Run {
    pub fn cards(&self) -> (r: &Cards)
        ensures
            r@ == self@,
            cards_wf(self@),
            3 <= self@.len() <= MAX_CARDS,
    {
        proof {
            use_type_invariant(self);
            vstd::seq_lib::to_multiset_len(self@);
        }
        &self.cards
    }

    pub fn run_type(&self) -> (r: RunType)
        ensures
            r == self.spec_run_type(),
    {
        self.run_type
    }

    pub fn is_burraco(&self) -> (r: bool)
        ensures
            r == (self@.len() >= 7),
    {
        self.cards.0.len() >= 7
    }

    pub fn burraco_value(&self) -> (r: i32)
        ensures
            r as int == burraco_bonus(self@, self.spec_run_type()),
    {
        if !self.is_burraco() {
            return 0;
        }
        match self.run_type {
            RunType::Group => 100,
            RunType::Sequence => {
                let ghost s = self@;
                let n = self.cards.0.len();
                let mut num: usize = 0;
                let mut mx: usize = 0;
                let mut last = false;
                let mut i: usize = 1;
                while i < n
                    invariant
                        1 <= i <= n == s.len(),
                        s == self@,
                        n >= 7,
                        clean_scan(s, i as int) == (num as int, mx as int, last),
                        num <= i,
                        i < n ==> num < i,
                        mx <= i,
                    decreases n - i,
                {
                    let p = self.cards.0[i - 1];
                    let c = self.cards.0[i];
                    let mut clean = false;
                    if p.0 == c.0 {
                        if p.1 == Rank::Two {
                            if c.1 == Rank::Numerical(3) {
                                clean = true;
                            }
                        } else {
                            clean = true;
                        }
                    }
                    if i == n - 1 {
                        if c.1 == Rank::Two {
                            clean = false;
                        }
                        if last && clean {
                            num = num + 1;
                        }
                    }
                    if clean {
                        num = num + 1;
                    } else {
                        if last {
                            num = num + 1;
                        }
                        if num > mx {
                            mx = num;
                        }
                        num = 0;
                    }
                    last = clean;
                    i = i + 1;
                }
                let longest = if mx >= num { mx } else { num };
                if num == n {
                    if num == 13 {
                        300
                    } else {
                        200
                    }
                } else if longest >= 7 && longest == n - 1 {
                    150
                } else {
                    100
                }
            },
        }
    }

    /// The run's bonus and the sum of its card values.
    pub fn score_burraco_cards(&self) -> (r: (i32, i32))
        ensures
            r.0 as int == burraco_bonus(self@, self.spec_run_type()),
            r.1 as int == value_sum_of(self@),
            0 <= r.1 <= 30 * self@.len(),
            0 <= r.0 <= 300,
    {
        proof {
            use_type_invariant(self);
            crate::card::lemma_value_sum_bounds(self@);
        }
        let cards_score = self.cards.value_sum();
        let burraco_score = self.burraco_value();
        (burraco_score, cards_score)
    }

    pub fn score(&self) -> (r: i32)
        ensures
            r as int == run_score(self@, self.spec_run_type()),
            0 <= r <= 130 * self@.len(),
            3 <= self@.len() <= MAX_CARDS,
    {
        proof {
            use_type_invariant(self);
            vstd::seq_lib::to_multiset_len(self@);
        }
        let (burraco_score, cards_score) = self.score_burraco_cards();
        assert(0 <= burraco_score <= 300);
        burraco_score + cards_score
    }

    /// Adds cards at one end and rebuilds the run with its own builder.
    pub fn append(&self, cards: &Cards, append_to: Append) -> (r: Result<Run, BurracoError>)
        requires
            cards_wf(cards@),
        ensures
            build_outcome(self.spec_run_type(), appended(self@, cards@, append_to), r),
    {
        proof {
            use_type_invariant(self);
        }
        let mut new_cards = copy_cards(&self.cards.0);
        let mut extra = copy_cards(&cards.0);
        match append_to {
            Append::Top => {
                new_cards.append(&mut extra);
            },
            Append::Bottom => {
                extra.append(&mut new_cards);
                new_cards = extra;
            },
        }
        assert(new_cards@ =~= appended(self@, cards@, append_to));
        match self.run_type {
            RunType::Sequence => Run::build_sequence_run(Cards(new_cards)),
            RunType::Group => Run::build_group_run(Cards(new_cards)),
        }
    }

    /// Puts `card` at position `at` of a sequence, moves the card it displaces
    /// to the front, and rebuilds.
    pub fn replace_wildcard(&self, at: usize, card: &Card) -> (r: Result<Run, BurracoError>)
        requires
            card_wf(*card),
        ensures
            at >= self@.len() ==> r == Err::<Run, BurracoError>(BurracoError::InvalidPosition),
            at < self@.len() && self.spec_run_type() == RunType::Group ==> r == Err::<Run, BurracoError>(
                BurracoError::NotASequence,
            ),
            at < self@.len() && self.spec_run_type() == RunType::Sequence ==> sequence_outcome(
                replaced(self@, at as int, *card),
                r,
            ),
    {
        proof {
            use_type_invariant(self);
        }
        let mut new_cards = copy_cards(&self.cards.0);
        if at >= new_cards.len() {
            return Err(BurracoError::InvalidPosition);
        }
        let old_card = new_cards[at];
        new_cards[at] = *card;
        new_cards.insert(0, old_card);
        assert(new_cards@ =~= replaced(self@, at as int, *card));
        match self.run_type {
            RunType::Sequence => Run::build_sequence_run(Cards(new_cards)),
            RunType::Group => Err(BurracoError::NotASequence),
        }
    }

    /// Moves the card at `from` (a wildcard or an Ace) to stand before
    /// position `to` of a sequence, and rebuilds. A move to `from` itself or
    /// to `from + 1` would change nothing and is refused.
    pub fn move_card(&self, from: usize, to: usize) -> (r: Result<Run, BurracoError>)
        ensures
            (from >= self@.len() || to >= self@.len() || from == to || to == from + 1) ==> r == Err::<
                Run,
                BurracoError,
            >(BurracoError::InvalidPosition),
            !(from >= self@.len() || to >= self@.len() || from == to || to == from + 1) ==> (
            if self.spec_run_type() == RunType::Group {
                r == Err::<Run, BurracoError>(BurracoError::NotASequence)
            } else {
                sequence_outcome(moved(self@, from as int, to as int), r)
            }),
    {
        proof {
            use_type_invariant(self);
        }
        let mut new_cards = copy_cards(&self.cards.0);
        let n = new_cards.len();
        if from >= n || to >= n || from == to || to == from + 1 {
            return Err(BurracoError::InvalidPosition);
        }
        let card = new_cards[from];
        new_cards.insert(to, card);
        let remove_idx = if to < from { from + 1 } else { from };
        new_cards.remove(remove_idx);
        assert(new_cards@ =~= moved(self@, from as int, to as int));
        proof {
            assert(cards_wf(new_cards@)) by {
                assert forall|k: int| 0 <= k < new_cards@.len() implies #[trigger] card_wf(new_cards@[k]) by {
                    let ins = self@.insert(to as int, self@[from as int]);
                    let j = if k < remove_idx { k } else { k + 1 };
                    assert(new_cards@[k] == ins[j]);
                    if j < to {
                        assert(ins[j] == self@[j]);
                    } else if j == to {
                        assert(card_wf(self@[from as int]));
                    } else {
                        assert(ins[j] == self@[j - 1]);
                    }
                }
            }
        }
        match self.run_type {
            RunType::Sequence => Run::build_sequence_run(Cards(new_cards)),
            RunType::Group => Err(BurracoError::NotASequence),
        }
    }
}

impl Run {
    /// Every run is legal: it holds at least three cards, and re-validating
    /// its own cards with the builder of its type succeeds and gives back a
    /// run with the same cards and type.
    pub fn revalidate(&self) -> (r: Result<Run, BurracoError>)
        ensures
            self@.len() >= 3,
            r matches Ok(again) && again@ == self@ && again.spec_run_type() == self.spec_run_type(),
    {
        proof {
            use_type_invariant(self);
            vstd::seq_lib::to_multiset_len(self@);
        }
        let cards = copy_cards(&self.cards.0);
        match self.run_type {
            RunType::Sequence => Run::build_sequence_run(Cards(cards)),
            RunType::Group => Run::build_group_run(Cards(cards)),
        }
    }
}

} // verus!
