//! Suits, ranks and cards, with the ordering and scoring primitives that the
//! meld rules are built on.

use vstd::prelude::*;

verus! {

#[derive(Debug, Clone, Copy, PartialEq, Eq, Hash, Structural)]
pub enum Suit {
    Clubs,
    Diamonds,
    Hearts,
    Spades,
    Jokers,
}

#[derive(Debug, Clone, Copy, PartialEq, Eq, Hash, Structural)]
pub enum Rank {
    Two,
    Numerical(i16),
    Jack,
    Queen,
    King,
    Ace,
    Joker,
}

/// A rank is well formed when a numerical rank lies in 3..=10.
pub open spec fn rank_wf(r: Rank) -> bool {
    match r {
        Rank::Numerical(n) => 3 <= n <= 10,
        _ => true,
    }
}

/// Position of a rank in a sequence: Two is 2, Ace is 14, Joker is -2.
pub open spec fn rank_index(r: Rank) -> int {
    match r {
        Rank::Two => 2,
        Rank::Numerical(n) => n as int,
        Rank::Jack => 11,
        Rank::Queen => 12,
        Rank::King => 13,
        Rank::Ace => 14,
        Rank::Joker => -2,
    }
}

/// Point value of a well-formed rank.
pub open spec fn rank_value(r: Rank) -> int {
    match r {
        Rank::Two => 20,
        Rank::Joker => 30,
        Rank::Ace => 15,
        _ => if rank_index(r) <= 7 { 5 } else { 10 },
    }
}

/// The rank with the given index, for 2..=14.
pub open spec fn rank_of_index(i: int) -> Rank {
    if i == 2 {
        Rank::Two
    } else if i == 11 {
        Rank::Jack
    } else if i == 12 {
        Rank::Queen
    } else if i == 13 {
        Rank::King
    } else if i == 14 {
        Rank::Ace
    } else {
        Rank::Numerical(i as i16)
    }
}

/// Successor in a sequence: Ace wraps to Two. Joker has none (it maps to itself).
pub open spec fn rank_next(r: Rank) -> Rank {
    match r {
        Rank::Ace => Rank::Two,
        Rank::Joker => Rank::Joker,
        _ => rank_of_index(rank_index(r) + 1),
    }
}

/// Predecessor in a sequence; Ace, Joker and Two have none.
pub open spec fn rank_prev(r: Rank) -> Option<Rank> {
    match r {
        Rank::Ace => None,
        Rank::Joker => None,
        Rank::Two => None,
        _ => Some(rank_of_index(rank_index(r) - 1)),
    }
}

/// Jokers and Twos can stand in for another rank.
pub open spec fn is_wild_rank(r: Rank) -> bool {
    r == Rank::Joker || r == Rank::Two
}

impl Rank {
    pub fn index(&self) -> (r: i16)
        ensures
            r as int == rank_index(*self),
    {
        match self {
            Rank::Two => 2,
            Rank::Numerical(num) => *num,
            Rank::Jack => 11,
            Rank::Queen => 12,
            Rank::King => 13,
            Rank::Ace => 14,
            Rank::Joker => -2,
        }
    }

    pub fn value(&self) -> (r: i32)
        requires
            rank_wf(*self),
        ensures
            r as int == rank_value(*self),
    {
        let i = self.index();
        if i == -2 {
            30
        } else if i == 2 {
            20
        } else if i == 14 {
            15
        } else if i <= 7 {
            5
        } else {
            10
        }
    }

    pub fn from_index(index: i16) -> (r: Rank)
        requires
            2 <= index <= 14,
        ensures
            r == rank_of_index(index as int),
            rank_wf(r),
            rank_index(r) == index as int,
    {
        if index == 2 {
            Rank::Two
        } else if index == 11 {
            Rank::Jack
        } else if index == 12 {
            Rank::Queen
        } else if index == 13 {
            Rank::King
        } else if index == 14 {
            Rank::Ace
        } else {
            Rank::Numerical(index)
        }
    }

    pub fn next(&self) -> (r: Rank)
        requires
            rank_wf(*self),
            *self != Rank::Joker,
        ensures
            r == rank_next(*self),
            rank_wf(r),
    {
        match self {
            Rank::Ace => Rank::Two,
            _ => Rank::from_index(self.index() + 1),
        }
    }

    pub fn prev(&self) -> (r: Option<Rank>)
        requires
            rank_wf(*self),
            *self != Rank::Two,
        ensures
            r == rank_prev(*self),
            r matches Some(p) ==> rank_wf(p),
    {
        match self {
            Rank::Ace => None,
            Rank::Joker => None,
            _ => Some(Rank::from_index(self.index() - 1)),
        }
    }
}

#[derive(Debug, Clone, Copy, PartialEq, Eq, Hash, Structural)]
pub struct Card(pub Suit, pub Rank);

/// Cards in play: two decks of 52 cards and 3 jokers each. No pile, hand or
/// run can hold more.
pub const MAX_CARDS: usize = 110;

/// A card as dealt: a Joker belongs to the Jokers pseudo-suit and only there.
pub open spec fn card_wf(c: Card) -> bool {
    rank_wf(c.1) && (c.0 == Suit::Jokers <==> c.1 == Rank::Joker)
}

pub open spec fn cards_wf(s: Seq<Card>) -> bool {
    forall|i: int| 0 <= i < s.len() ==> #[trigger] card_wf(s[i])
}

pub open spec fn suit_order(s: Suit) -> int {
    match s {
        Suit::Jokers => 0,
        Suit::Clubs => 1,
        Suit::Diamonds => 2,
        Suit::Hearts => 3,
        Suit::Spades => 4,
    }
}

impl Card {
    /// Sort key used to canonicalize card sequences: (suit order, rank index).
    pub fn val_tpl(&self) -> (r: (i16, i16))
        ensures
            r.0 as int == suit_order(self.0),
            r.1 as int == rank_index(self.1),
    {
        let suit_val: i16 = match self.0 {
            Suit::Clubs => 1,
            Suit::Diamonds => 2,
            Suit::Hearts => 3,
            Suit::Spades => 4,
            Suit::Jokers => 0,
        };
        (suit_val, self.1.index())
    }
}


/// An ordered collection of cards. Order matters for runs, not for piles
/// or hands; duplicates are expected (two decks are in play).
#[derive(Debug, Clone, PartialEq, Eq, Hash)]
pub struct Cards(pub Vec<Card>);

impl View for Cards {
    type V = Seq<Card>;

    open spec fn view(&self) -> Seq<Card> {
        self.0@
    }
}

/// Sum of the point values of the cards.
pub open spec fn value_sum_of(s: Seq<Card>) -> int
    decreases s.len(),
{
    if s.len() == 0 {
        0
    } else {
        value_sum_of(s.drop_last()) + rank_value(s.last().1)
    }
}

/// The 13 ranks of one suit, Two to Ace.
pub open spec fn suit_ranks() -> Seq<Rank> {
    seq![
        Rank::Two,
        Rank::Numerical(3),
        Rank::Numerical(4),
        Rank::Numerical(5),
        Rank::Numerical(6),
        Rank::Numerical(7),
        Rank::Numerical(8),
        Rank::Numerical(9),
        Rank::Numerical(10),
        Rank::Jack,
        Rank::Queen,
        Rank::King,
        Rank::Ace,
    ]
}

pub open spec fn real_suits() -> Seq<Suit> {
    seq![Suit::Clubs, Suit::Diamonds, Suit::Hearts, Suit::Spades]
}

/// One standard deck, suit by suit and rank by rank, then the jokers.
pub open spec fn deck_of(num_jokers: nat) -> Seq<Card> {
    Seq::new(52 + num_jokers, |i: int|
        if i < 52 { Card(real_suits()[i / 13], suit_ranks()[i % 13]) } else { Card(Suit::Jokers, Rank::Joker) })
}

/// All the cards of a match: two decks with three jokers each.
pub open spec fn cards_in_play() -> Seq<Card> {
    deck_of(3) + deck_of(3)
}

pub proof fn lemma_value_sum_bounds(s: Seq<Card>)
    requires
        cards_wf(s),
    ensures
        0 <= value_sum_of(s) <= 30 * s.len(),
    decreases s.len(),
{
    if s.len() > 0 {
        lemma_value_sum_bounds(s.drop_last());
    }
}

/// Sort key of a card, as one integer ordered like the tuple
/// (Two when `twos_last`, suit order, rank index).
pub open spec fn card_key(c: Card, twos_last: bool) -> int {
    (if twos_last && c.1 == Rank::Two { 1000int } else { 0int }) + 100 * suit_order(c.0) + (rank_index(c.1) + 2)
}

pub open spec fn sorted_by_key(s: Seq<Card>, twos_last: bool) -> bool {
    forall|a: int, b: int| 0 <= a < b < s.len() ==> card_key(s[a], twos_last) <= card_key(s[b], twos_last)
}

fn key_of(c: &Card, twos_last: bool) -> (r: i32)
    requires
        rank_wf(c.1),
    ensures
        r as int == card_key(*c, twos_last),
{
    let (suit_val, rank_val) = c.val_tpl();
    let first: i32 = if twos_last && c.1 == Rank::Two { 1000 } else { 0 };
    first + 100 * (suit_val as i32) + (rank_val as i32 + 2)
}

proof fn lemma_swap_multiset(s: Seq<Card>, j: int)
    requires
        0 < j < s.len(),
    ensures
        s.update(j - 1, s[j]).update(j, s[j - 1]).to_multiset() =~= s.to_multiset(),
{
    broadcast use vstd::seq_lib::to_multiset_update;
    broadcast use vstd::multiset::group_multiset_axioms;
    let s1 = s.update(j - 1, s[j]);
    assert(s1[j] == s[j]);
    let m = s.to_multiset();
    assert(s1.to_multiset() == m.insert(s[j]).remove(s[j - 1]));
    assert(s1.update(j, s[j - 1]).to_multiset() == s1.to_multiset().insert(s[j - 1]).remove(s[j]));
    assert(m.count(s[j - 1]) > 0) by {
        broadcast use vstd::seq_lib::to_multiset_contains;
        assert(s.contains(s[j - 1]));
    }
}

/// Sorts the cards in place by `card_key`; the cards stay the same multiset and
/// an already sorted sequence is left as it is.
pub fn sort_cards_by_key(v: &mut Vec<Card>, twos_last: bool)
    requires
        cards_wf(old(v)@),
    ensures
        final(v)@.len() == old(v)@.len(),
        final(v)@.to_multiset() == old(v)@.to_multiset(),
        sorted_by_key(final(v)@, twos_last),
        cards_wf(final(v)@),
        sorted_by_key(old(v)@, twos_last) ==> final(v)@ == old(v)@,
{
    let ghost orig = v@;
    broadcast use vstd::seq_lib::to_multiset_contains;
    let mut i: usize = 1;
    if v.len() == 0 {
        return;
    }
    while i < v.len()
        invariant
            1 <= i <= v@.len(),
            v@.len() == orig.len(),
            v@.to_multiset() == orig.to_multiset(),
            cards_wf(v@),
            forall|a: int, b: int| 0 <= a < b < i ==> card_key(v@[a], twos_last) <= card_key(v@[b], twos_last),
            sorted_by_key(orig, twos_last) ==> v@ == orig,
        decreases v@.len() - i,
    {
        let mut j: usize = i;
        let mut placed = false;
        while j > 0 && !placed
            invariant
                placed ==> j > 0 && card_key(v@[j - 1], twos_last) <= card_key(v@[j as int], twos_last),
                0 <= j <= i < v@.len(),
                v@.len() == orig.len(),
                v@.to_multiset() == orig.to_multiset(),
                cards_wf(v@),
                forall|a: int, b: int| 0 <= a < b <= i && a != j && b != j ==> card_key(v@[a], twos_last) <= card_key(v@[b], twos_last),
                forall|b: int| j < b <= i ==> card_key(v@[j as int], twos_last) < card_key(v@[b], twos_last),
                sorted_by_key(orig, twos_last) ==> v@ == orig && j == i,
            decreases j + (if placed { 0int } else { 1int }),
        {
            proof {
                assert(card_wf(v@[j - 1]));
                assert(card_wf(v@[j as int]));
            }
            if key_of(&v[j - 1], twos_last) <= key_of(&v[j], twos_last) {
                placed = true;
                continue;
            }
            let a = v[j - 1];
            let b = v[j];
            proof {
                lemma_swap_multiset(v@, j as int);
            }
            v[j - 1] = b;
            v[j] = a;
            j = j - 1;
        }
        i = i + 1;
    }
}

impl Cards {
    /// Sorts the cards by (suit, rank index), jokers first.
    pub fn sort(&mut self)
        requires
            cards_wf(old(self)@),
        ensures
            final(self)@.to_multiset() == old(self)@.to_multiset(),
            final(self)@.len() == old(self)@.len(),
            sorted_by_key(final(self)@, false),
            cards_wf(final(self)@),
    {
        sort_cards_by_key(&mut self.0, false);
    }

    pub fn build_deck(num_jokers: usize) -> (r: Cards)
        ensures
            r@ == deck_of(num_jokers as nat),
            cards_wf(r@),
    {
        let suits: [Suit; 4] = [Suit::Clubs, Suit::Diamonds, Suit::Hearts, Suit::Spades];
        let mut deck: Vec<Card> = Vec::new();
        let mut si: usize = 0;
        while si < 4
            invariant
                si <= 4,
                suits@ == real_suits(),
                deck@.len() == 13 * si,
                forall|k: int| 0 <= k < deck@.len() ==> deck@[k] == deck_of(num_jokers as nat)[k],
            decreases 4 - si,
        {
            let mut ri: i16 = 2;
            while ri <= 14
                invariant
                    si < 4,
                    2 <= ri <= 15,
                    suits@ == real_suits(),
                    deck@.len() == 13 * si + (ri - 2),
                    forall|k: int| 0 <= k < deck@.len() ==> deck@[k] == deck_of(num_jokers as nat)[k],
                decreases 15 - ri,
            {
                let rank = Rank::from_index(ri);
                deck.push(Card(suits[si], rank));
                proof {
                    let k = deck@.len() - 1;
                    assert(k / 13 == si as int && k % 13 == ri - 2) by (nonlinear_arith)
                        requires k == 13 * si + (ri - 2), 2 <= ri <= 14;
                }
                ri = ri + 1;
            }
            si = si + 1;
        }
        let mut j: usize = 0;
        while j < num_jokers
            invariant
                j <= num_jokers,
                deck@.len() == 52 + j,
                forall|k: int| 0 <= k < deck@.len() ==> deck@[k] == deck_of(num_jokers as nat)[k],
            decreases num_jokers - j,
        {
            deck.push(Card(Suit::Jokers, Rank::Joker));
            j = j + 1;
        }
        assert(deck@ =~= deck_of(num_jokers as nat));
        proof {
            assert forall|k: int| 0 <= k < deck@.len() implies #[trigger] card_wf(deck@[k]) by {
                if k < 52 {
                    assert(0 <= k / 13 < 4 && 0 <= k % 13 < 13) by (nonlinear_arith)
                        requires 0 <= k < 52;
                }
            }
        }
        Cards(deck)
    }

    /// Removes the last `num_cards` cards and returns them, in order.
    pub fn drain_back(&mut self, num_cards: usize) -> (r: Cards)
        requires
            num_cards <= old(self)@.len(),
        ensures
            final(self)@ == old(self)@.subrange(0, old(self)@.len() - num_cards),
            r@ == old(self)@.subrange(old(self)@.len() - num_cards, old(self)@.len() as int),
    {
        let index = self.0.len() - num_cards;
        Cards(self.0.split_off(index))
    }

    pub fn value_sum(&self) -> (r: i32)
        requires
            cards_wf(self@),
            30 * self@.len() <= i32::MAX,
        ensures
            r as int == value_sum_of(self@),
    {
        let mut sum: i32 = 0;
        let mut i: usize = 0;
        while i < self.0.len()
            invariant
                i <= self@.len(),
                30 * self@.len() <= i32::MAX,
                cards_wf(self@),
                sum as int == value_sum_of(self@.take(i as int)),
            decreases self@.len() - i,
        {
            proof {
                lemma_value_sum_bounds(self@.take(i as int));
                assert(self@.take(i as int + 1).drop_last() =~= self@.take(i as int));
                assert(card_wf(self@[i as int]));
            }
            sum = sum + self.0[i].1.value();
            i = i + 1;
        }
        assert(self@.take(i as int) =~= self@);
        sum
    }
}

} // verus!
