//! Card notation: a comma-separated list of tokens such as `♣5,JK,♣10`,
//! a suit symbol followed by a rank code, or `JK` for a joker.

use vstd::prelude::*;
use vstd::string::*;

use crate::card::{Card, Cards, Rank, Suit, card_wf, cards_wf, rank_wf};
use crate::error::BurracoError;

verus! {

/// Unicode white space (the `White_Space` property), which `str::trim`
/// also drops.
pub open spec fn is_space(c: char) -> bool {
    ('\u{9}' <= c && c <= '\u{d}') || c == ' ' || c == '\u{85}' || c == '\u{a0}' || c == '\u{1680}' || (
        '\u{2000}' <= c && c <= '\u{200a}') || c == '\u{2028}' || c == '\u{2029}' || c == '\u{202f}' || c
        == '\u{205f}' || c == '\u{3000}'
}

pub open spec fn suit_of_symbol(c: char) -> Option<Suit> {
    if c == '♣' {
        Some(Suit::Clubs)
    } else if c == '♦' {
        Some(Suit::Diamonds)
    } else if c == '♥' {
        Some(Suit::Hearts)
    } else if c == '♠' {
        Some(Suit::Spades)
    } else {
        None
    }
}

/// Rank codes: `2` to `10`, `J`, `Q`, `K`, `A`.
pub open spec fn rank_of_code(t: Seq<char>) -> Option<Rank> {
    if t.len() == 1 {
        let c = t[0];
        if c == '2' {
            Some(Rank::Two)
        } else if '3' <= c && c <= '9' {
            Some(Rank::Numerical((c as u32 - '0' as u32) as i16))
        } else if c == 'J' {
            Some(Rank::Jack)
        } else if c == 'Q' {
            Some(Rank::Queen)
        } else if c == 'K' {
            Some(Rank::King)
        } else if c == 'A' {
            Some(Rank::Ace)
        } else {
            None
        }
    } else if t.len() == 2 && t[0] == '1' && t[1] == '0' {
        Some(Rank::Numerical(10))
    } else {
        None
    }
}

/// The card that one token names.
pub open spec fn card_of_token(t: Seq<char>) -> Result<Card, BurracoError> {
    if t == seq!['J', 'K'] {
        Ok(Card(Suit::Jokers, Rank::Joker))
    } else if t.len() == 0 || suit_of_symbol(t[0]) is None {
        Err(BurracoError::InvalidSuit)
    } else if rank_of_code(t.drop_first()) is None {
        Err(BurracoError::InvalidRank)
    } else {
        Ok(Card(suit_of_symbol(t[0])->Some_0, rank_of_code(t.drop_first())->Some_0))
    }
}

/// A token without its leading and trailing white space.
pub open spec fn strip(t: Seq<char>) -> Seq<char>
    decreases t.len(),
{
    if t.len() > 0 && is_space(t[0]) {
        strip(t.drop_first())
    } else if t.len() > 0 && is_space(t.last()) {
        strip(t.drop_last())
    } else {
        t
    }
}

/// The text between commas, in order; there is always at least one piece.
pub open spec fn split_commas(s: Seq<char>) -> Seq<Seq<char>>
    decreases s.len(),
{
    if s.len() == 0 {
        seq![Seq::empty()]
    } else {
        let t = split_commas(s.drop_last());
        if s.last() == ',' {
            t.push(Seq::empty())
        } else {
            t.update(t.len() - 1, t.last().push(s.last()))
        }
    }
}

/// The cards that a list of tokens names, or the error of the first token
/// that names none.
pub open spec fn cards_of_tokens(toks: Seq<Seq<char>>) -> Result<Seq<Card>, BurracoError>
    decreases toks.len(),
{
    if toks.len() == 0 {
        Ok(Seq::empty())
    } else {
        match cards_of_tokens(toks.drop_last()) {
            Err(e) => Err(e),
            Ok(cs) => match card_of_token(strip(toks.last())) {
                Err(e) => Err(e),
                Ok(c) => Ok(cs.push(c)),
            },
        }
    }
}

pub open spec fn all_space(s: Seq<char>) -> bool {
    forall|i: int| 0 <= i < s.len() ==> is_space(#[trigger] s[i])
}

/// The cards that a whole notation string names: none for blank text.
pub open spec fn cards_of_notation(s: Seq<char>) -> Result<Seq<Card>, BurracoError> {
    if all_space(s) {
        Ok(Seq::empty())
    } else {
        cards_of_tokens(split_commas(s))
    }
}

proof fn lemma_error_persists(toks: Seq<Seq<char>>, k: int, e: BurracoError)
    requires
        0 <= k <= toks.len(),
        cards_of_tokens(toks.take(k)) == Err::<Seq<Card>, BurracoError>(e),
    ensures
        cards_of_tokens(toks) == Err::<Seq<Card>, BurracoError>(e),
    decreases toks.len() - k,
{
    if k < toks.len() {
        assert(toks.take(k + 1).drop_last() =~= toks.take(k));
        lemma_error_persists(toks, k + 1, e);
    } else {
        assert(toks.take(k) =~= toks);
    }
}

proof fn lemma_parsed_wf(toks: Seq<Seq<char>>)
    ensures
        cards_of_tokens(toks) matches Ok(cs) ==> cards_wf(cs),
    decreases toks.len(),
{
    if toks.len() > 0 {
        lemma_parsed_wf(toks.drop_last());
    }
}

fn is_space_char(c: char) -> (r: bool)
    ensures
        r == is_space(c),
{
    ('\u{9}' <= c && c <= '\u{d}') || c == ' ' || c == '\u{85}' || c == '\u{a0}' || c == '\u{1680}' || (
        '\u{2000}' <= c && c <= '\u{200a}') || c == '\u{2028}' || c == '\u{2029}' || c == '\u{202f}' || c
        == '\u{205f}' || c == '\u{3000}'
}

fn strip_chars(t: &Vec<char>) -> (r: Vec<char>)
    ensures
        r@ == strip(t@),
{
    let n = t.len();
    let mut lo: usize = 0;
    assert(t@.subrange(0, n as int) =~= t@);
    while lo < n && is_space_char(t[lo])
        invariant
            lo <= n == t@.len(),
            strip(t@) == strip(t@.subrange(lo as int, n as int)),
        decreases n - lo,
    {
        assert(t@.subrange(lo as int, n as int).drop_first() =~= t@.subrange(lo + 1, n as int));
        lo = lo + 1;
    }
    let mut hi: usize = n;
    while hi > lo && is_space_char(t[hi - 1])
        invariant
            lo <= hi <= n == t@.len(),
            lo < n ==> !is_space(t@[lo as int]),
            strip(t@) == strip(t@.subrange(lo as int, hi as int)),
        decreases hi - lo,
    {
        assert(t@.subrange(lo as int, hi as int).drop_last() =~= t@.subrange(lo as int, hi - 1));
        hi = hi - 1;
    }
    let mut r: Vec<char> = Vec::new();
    let mut k: usize = lo;
    while k < hi
        invariant
            lo <= k <= hi <= n == t@.len(),
            r@ =~= t@.subrange(lo as int, k as int),
        decreases hi - k,
    {
        r.push(t[k]);
        k = k + 1;
    }
    r
}

fn rank_from_code(t: &Vec<char>, from: usize) -> (r: Option<Rank>)
    requires
        from <= t@.len(),
    ensures
        r == rank_of_code(t@.subrange(from as int, t@.len() as int)),
{
    let ghost code = t@.subrange(from as int, t@.len() as int);
    let len = t.len() - from;
    if len == 1 {
        let c = t[from];
        if c == '2' {
            Some(Rank::Two)
        } else if '3' <= c && c <= '9' {
            Some(Rank::Numerical((c as u32 - '0' as u32) as i16))
        } else if c == 'J' {
            Some(Rank::Jack)
        } else if c == 'Q' {
            Some(Rank::Queen)
        } else if c == 'K' {
            Some(Rank::King)
        } else if c == 'A' {
            Some(Rank::Ace)
        } else {
            None
        }
    } else if len == 2 && t[from] == '1' && t[from + 1] == '0' {
        Some(Rank::Numerical(10))
    } else {
        None
    }
}

fn card_from_token(t: &Vec<char>) -> (r: Result<Card, BurracoError>)
    ensures
        r == card_of_token(t@),
        r matches Ok(c) ==> card_wf(c),
{
    if t.len() == 2 && t[0] == 'J' && t[1] == 'K' {
        assert(t@ =~= seq!['J', 'K']);
        return Ok(Card(Suit::Jokers, Rank::Joker));
    }
    assert(t@ != seq!['J', 'K']);
    if t.len() == 0 {
        return Err(BurracoError::InvalidSuit);
    }
    let c = t[0];
    let suit = if c == '♣' {
        Suit::Clubs
    } else if c == '♦' {
        Suit::Diamonds
    } else if c == '♥' {
        Suit::Hearts
    } else if c == '♠' {
        Suit::Spades
    } else {
        return Err(BurracoError::InvalidSuit);
    };
    assert(t@.subrange(1, t@.len() as int) =~= t@.drop_first());
    match rank_from_code(t, 1) {
        None => Err(BurracoError::InvalidRank),
        Some(rank) => Ok(Card(suit, rank)),
    }
}

fn chars_of(s: &str) -> (r: Vec<char>)
    ensures
        r@ == s@,
{
    let n = s.unicode_len();
    let mut r: Vec<char> = Vec::new();
    let mut i: usize = 0;
    while i < n
        invariant
            i <= n == s@.len(),
            r@ =~= s@.take(i as int),
        decreases n - i,
    {
        r.push(s.get_char(i));
        i = i + 1;
    }
    r
}

impl Card {
    /// Parses one token, such as `♣10` or `JK`.
    pub fn parse(string: &str) -> (r: Result<Card, BurracoError>)
        ensures
            r == card_of_token(string@),
            r matches Ok(c) ==> card_wf(c),
    {
        let t = chars_of(string);
        card_from_token(&t)
    }
}

impl Cards {
    /// Parses a comma-separated list of card tokens; white space around a
    /// token is ignored, and blank text gives no cards.
    pub fn of(expr: &str) -> (r: Result<Cards, BurracoError>)
        ensures
            match r {
                Ok(cs) => cards_of_notation(expr@) == Ok::<Seq<Card>, BurracoError>(cs@),
                Err(e) => cards_of_notation(expr@) == Err::<Seq<Card>, BurracoError>(e),
            },
            r matches Ok(cs) ==> cards_wf(cs@),
    {
        let s = chars_of(expr);
        let n = s.len();
        let mut blank = true;
        let mut i: usize = 0;
        while i < n
            invariant
                i <= n == s@.len(),
                blank <==> all_space(s@.take(i as int)),
            decreases n - i,
        {
            if !is_space_char(s[i]) {
                blank = false;
            }
            i = i + 1;
            assert(blank <==> all_space(s@.take(i as int))) by {
                if !blank {
                    if !is_space(s@[i - 1]) {
                        assert(s@.take(i as int)[i - 1] == s@[i - 1]);
                    } else {
                        let j = choose|j: int| 0 <= j < i - 1 && !is_space(#[trigger] s@.take(i - 1)[j]);
                        assert(s@.take(i as int)[j] == s@.take(i - 1)[j]);
                    }
                }
            }
        }
        assert(s@.take(n as int) =~= s@);
        if blank {
            return Ok(Cards(Vec::new()));
        }
        let mut toks: Vec<Vec<char>> = Vec::new();
        let mut cur: Vec<char> = Vec::new();
        let mut i: usize = 0;
        while i < n
            invariant
                i <= n == s@.len(),
                split_commas(s@.take(i as int)) =~= toks@.map_values(|v: Vec<char>| v@).push(cur@),
                !all_space(s@),
                s@ == expr@,
            decreases n - i,
        {
            let ghost prev = s@.take(i as int);
            assert(s@.take(i + 1).drop_last() =~= prev);
            if s[i] == ',' {
                toks.push(cur);
                cur = Vec::new();
            } else {
                cur.push(s[i]);
            }
            i = i + 1;
        }
        toks.push(cur);
        let ghost words = toks@.map_values(|v: Vec<char>| v@);
        assert(words =~= split_commas(s@));
        let mut out: Vec<Card> = Vec::new();
        let mut k: usize = 0;
        while k < toks.len()
            invariant
                k <= toks@.len(),
                words == toks@.map_values(|v: Vec<char>| v@),
                cards_of_tokens(words.take(k as int)) == Ok::<Seq<Card>, BurracoError>(out@),
                words =~= split_commas(s@),
                !all_space(s@),
                s@ == expr@,
            decreases toks@.len() - k,
        {
            assert(words.take(k + 1).drop_last() =~= words.take(k as int));
            let t = strip_chars(&toks[k]);
            match card_from_token(&t) {
                Err(e) => {
                    proof {
                        assert(words.take(k + 1).last() == words[k as int]);
                        assert(words[k as int] == toks@[k as int]@);
                        assert(cards_of_tokens(words.take(k + 1)) == Err::<Seq<Card>, BurracoError>(e));
                        lemma_error_persists(words, k + 1, e);
                        assert(!all_space(s@));
                    }
                    return Err(e);
                },
                Ok(c) => {
                    out.push(c);
                },
            }
            k = k + 1;
        }
        assert(words.take(k as int) =~= words);
        proof {
            lemma_parsed_wf(words);
        }
        Ok(Cards(out))
    }
}

/// The symbol of a real suit.
fn suit_symbol(suit: Suit) -> (r: &'static str)
    requires
        suit != Suit::Jokers,
    ensures
        r@.len() == 1,
        suit_of_symbol(r@[0]) == Some(suit),
{
    match suit {
        Suit::Clubs => {
            proof {
                reveal_strlit("♣");
            }
            "♣"
        },
        Suit::Diamonds => {
            proof {
                reveal_strlit("♦");
            }
            "♦"
        },
        Suit::Hearts => {
            proof {
                reveal_strlit("♥");
            }
            "♥"
        },
        _ => {
            proof {
                reveal_strlit("♠");
            }
            "♠"
        },
    }
}

/// The code of a rank other than Joker.
fn rank_code(rank: Rank) -> (r: &'static str)
    requires
        rank_wf(rank),
        rank != Rank::Joker,
    ensures
        rank_of_code(r@) == Some(rank),
{
    match rank {
        Rank::Two => {
            proof {
                reveal_strlit("2");
            }
            "2"
        },
        Rank::Jack => {
            proof {
                reveal_strlit("J");
            }
            "J"
        },
        Rank::Queen => {
            proof {
                reveal_strlit("Q");
            }
            "Q"
        },
        Rank::King => {
            proof {
                reveal_strlit("K");
            }
            "K"
        },
        Rank::Ace => {
            proof {
                reveal_strlit("A");
            }
            "A"
        },
        Rank::Numerical(n) => {
            if n == 3 {
                proof {
                    reveal_strlit("3");
                }
                "3"
            } else if n == 4 {
                proof {
                    reveal_strlit("4");
                }
                "4"
            } else if n == 5 {
                proof {
                    reveal_strlit("5");
                }
                "5"
            } else if n == 6 {
                proof {
                    reveal_strlit("6");
                }
                "6"
            } else if n == 7 {
                proof {
                    reveal_strlit("7");
                }
                "7"
            } else if n == 8 {
                proof {
                    reveal_strlit("8");
                }
                "8"
            } else if n == 9 {
                proof {
                    reveal_strlit("9");
                }
                "9"
            } else {
                proof {
                    reveal_strlit("10");
                }
                "10"
            }
        },
        Rank::Joker => "JK",
    }
}

impl Card {
    /// The token that names this card, such as `♣10` or `JK`; parsing it
    /// gives the card back.
    pub fn to_notation(&self) -> (r: String)
        requires
            card_wf(*self),
        ensures
            card_of_token(r@) == Ok::<Card, BurracoError>(*self),
    {
        if self.1 == Rank::Joker {
            proof {
                reveal_strlit("JK");
            }
            let r = String::from_str("JK");
            assert(r@ =~= seq!['J', 'K']);
            return r;
        }
        let symbol = suit_symbol(self.0);
        let code = rank_code(self.1);
        let mut r = String::from_str(symbol);
        r.append(code);
        proof {
            assert(r@[0] == symbol@[0]);
            assert(r@.drop_first() =~= code@);
            assert(r@ != seq!['J', 'K']) by {
                if r@ == seq!['J', 'K'] {
                    assert(r@[0] == 'J');
                }
            }
        }
        r
    }
}

} // verus!
