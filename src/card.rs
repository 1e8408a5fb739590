use vstd::prelude::*;
use crate::zfinder::{JOKER, SENTINEL};

verus! {

#[derive(Debug, PartialEq, Eq, Copy, Clone, Structural)]
pub enum Suit {
    Clubs,
    Diamonds,
    Hearts,
    Spades,
}

#[derive(Debug, PartialEq, Eq, Copy, Clone, Structural)]
pub enum Rank {
    Ace,
    Two,
    Three,
    Four,
    Five,
    Six,
    Seven,
    Eight,
    Nine,
    Ten,
    Jack,
    Queen,
    King,
}

#[derive(Debug, PartialEq, Eq, Copy, Clone, Structural)]
pub struct CasualCard {
    pub suit: Suit,
    pub rank: Rank,
}

#[derive(Debug, PartialEq, Eq, Copy, Clone, Structural)]
pub enum Card {
    Casual(CasualCard),
    Joker,
}

/// Why a card's text was refused.
#[derive(Debug, PartialEq, Eq, Copy, Clone, Structural)]
pub enum CardError {
    /// The text is neither `JOKER` nor `SUIT#RANK`.
    MalformedCard,
}

impl Suit {
    /// The suit's number, 0 to 3.
    pub open spec fn value(self) -> int {
        match self {
            Suit::Clubs => 0,
            Suit::Diamonds => 1,
            Suit::Hearts => 2,
            Suit::Spades => 3,
        }
    }

    /// The suit's text.
    pub open spec fn name(self) -> Seq<char> {
        match self {
            Suit::Clubs => "CLUBS"@,
            Suit::Diamonds => "DIAMONDS"@,
            Suit::Hearts => "HEARTS"@,
            Suit::Spades => "SPADES"@,
        }
    }
}

impl Rank {
    /// The rank's number, 1 (ace) to 13 (king).
    pub open spec fn value(self) -> int {
        match self {
            Rank::Ace => 1,
            Rank::Two => 2,
            Rank::Three => 3,
            Rank::Four => 4,
            Rank::Five => 5,
            Rank::Six => 6,
            Rank::Seven => 7,
            Rank::Eight => 8,
            Rank::Nine => 9,
            Rank::Ten => 10,
            Rank::Jack => 11,
            Rank::Queen => 12,
            Rank::King => 13,
        }
    }

    /// The rank's text.
    pub open spec fn name(self) -> Seq<char> {
        match self {
            Rank::Ace => "ACE"@,
            Rank::Two => "2"@,
            Rank::Three => "3"@,
            Rank::Four => "4"@,
            Rank::Five => "5"@,
            Rank::Six => "6"@,
            Rank::Seven => "7"@,
            Rank::Eight => "8"@,
            Rank::Nine => "9"@,
            Rank::Ten => "10"@,
            Rank::Jack => "JACK"@,
            Rank::Queen => "QUEEN"@,
            Rank::King => "KING"@,
        }
    }
}

impl CasualCard {
    /// `SUIT#RANK`.
    pub open spec fn text(self) -> Seq<char> {
        self.suit.name() + "#"@ + self.rank.name()
    }

    /// The card's byte: the suit in bits 4 and 5, the rank in the low four bits.
    pub open spec fn byte(self) -> int {
        self.suit.value() * 16 + self.rank.value()
    }
}

impl Card {
    /// The card's text: `JOKER` or `SUIT#RANK`.
    pub open spec fn text(self) -> Seq<char> {
        match self {
            Card::Casual(c) => c.text(),
            Card::Joker => "JOKER"@,
        }
    }

    /// The card's byte; the joker has its own.
    pub open spec fn byte(self) -> int {
        match self {
            Card::Casual(c) => c.byte(),
            Card::Joker => JOKER as int,
        }
    }
}

/// Where the only `#` of a casual card's text stands, and what lies on either side.
proof fn lemma_casual_text_split(c: CasualCard)
    ensures
        c.text()[c.suit.name().len() as int] == '#',
        forall|i: int|
            0 <= i < c.text().len() && i != c.suit.name().len() ==> #[trigger] c.text()[i] != '#',
        c.text().subrange(0, c.suit.name().len() as int) == c.suit.name(),
        c.text().subrange(c.suit.name().len() + 1int, c.text().len() as int) == c.rank.name(),
        c.text().len() > c.suit.name().len(),
{
    reveal_strlit("CLUBS");
    reveal_strlit("DIAMONDS");
    reveal_strlit("HEARTS");
    reveal_strlit("SPADES");
    reveal_strlit("ACE");
    reveal_strlit("2");
    reveal_strlit("3");
    reveal_strlit("4");
    reveal_strlit("5");
    reveal_strlit("6");
    reveal_strlit("7");
    reveal_strlit("8");
    reveal_strlit("9");
    reveal_strlit("10");
    reveal_strlit("JACK");
    reveal_strlit("QUEEN");
    reveal_strlit("KING");
    reveal_strlit("#");
    let t = c.text();
    let l = c.suit.name().len() as int;
    assert(t.subrange(0, l) =~= c.suit.name());
    assert(t.subrange(l + 1, t.len() as int) =~= c.rank.name());
    assert forall|i: int| 0 <= i < t.len() && i != l implies #[trigger] t[i] != '#' by {
        if i < l {
            assert(t[i] == c.suit.name()[i]);
        } else {
            assert(t[i] == c.rank.name()[i - l - 1]);
        }
    }
}

/// Distinct suits have distinct names, and distinct ranks too.
proof fn lemma_names_distinct()
    ensures
        forall|a: Suit, b: Suit| #[trigger] a.name() == #[trigger] b.name() ==> a == b,
        forall|a: Rank, b: Rank| #[trigger] a.name() == #[trigger] b.name() ==> a == b,
{
    reveal_strlit("CLUBS");
    reveal_strlit("DIAMONDS");
    reveal_strlit("HEARTS");
    reveal_strlit("SPADES");
    reveal_strlit("ACE");
    reveal_strlit("2");
    reveal_strlit("3");
    reveal_strlit("4");
    reveal_strlit("5");
    reveal_strlit("6");
    reveal_strlit("7");
    reveal_strlit("8");
    reveal_strlit("9");
    reveal_strlit("10");
    reveal_strlit("JACK");
    reveal_strlit("QUEEN");
    reveal_strlit("KING");
    assert forall|a: Suit, b: Suit| #[trigger] a.name() == #[trigger] b.name() implies a == b by {
        assert(a.name().len() == b.name().len() && a.name()[0] == b.name()[0]);
    }
    assert forall|a: Rank, b: Rank| #[trigger] a.name() == #[trigger] b.name() implies a == b by {
        assert(a.name().len() == b.name().len() && a.name()[0] == b.name()[0]);
    }
}

/// Two cards with the same text are the same card.
pub proof fn lemma_text_injective(a: Card, b: Card)
    requires
        a.text() == b.text(),
    ensures
        a == b,
{
    reveal_strlit("JOKER");
    match (a, b) {
        (Card::Casual(x), Card::Casual(y)) => {
            lemma_casual_text_split(x);
            lemma_casual_text_split(y);
            lemma_names_distinct();
            let lx = x.suit.name().len() as int;
            let ly = y.suit.name().len() as int;
            if lx < ly {
                assert(x.text()[lx] == '#');
            } else if ly < lx {
                assert(y.text()[ly] == '#');
            }
        },
        (Card::Casual(x), Card::Joker) => {
            lemma_casual_text_split(x);
            assert(x.text()[x.suit.name().len() as int] == '#');
        },
        (Card::Joker, Card::Casual(y)) => {
            lemma_casual_text_split(y);
            assert(y.text()[y.suit.name().len() as int] == '#');
        },
        (Card::Joker, Card::Joker) => {},
    }
}

/// The result of reading `s` as a card's text.
pub open spec fn parse_card(s: Seq<char>) -> Result<Card, CardError> {
    if exists|c: Card| c.text() == s {
        Ok(choose|c: Card| c.text() == s)
    } else {
        Err(CardError::MalformedCard)
    }
}

/// Reading a card's text gives the card back.
pub proof fn lemma_parse_text(c: Card)
    ensures
        parse_card(c.text()) == Ok::<Card, CardError>(c),
{
    assert(exists|d: Card| d.text() == c.text());
    let d = choose|d: Card| d.text() == c.text();
    lemma_text_injective(d, c);
}

/// Two cards with the same byte are the same card.
pub proof fn lemma_byte_injective(a: Card, b: Card)
    requires
        a.byte() == b.byte(),
    ensures
        a == b,
{
}

/// A casual card's byte is neither 0x00, nor the sentinel, nor the joker's byte.
pub proof fn lemma_casual_byte_reserved(c: CasualCard)
    ensures
        0 < c.byte() <= 0x3D,
        c.byte() != SENTINEL as int,
        c.byte() != JOKER as int,
{
}

/// The characters of `s`.
pub(crate) fn chars_of(s: &str) -> (r: Vec<char>)
    ensures
        r@ == s@,
{
    let n = s.unicode_len();
    let mut v: Vec<char> = Vec::new();
    let mut i: usize = 0;
    while i < n
        invariant
            n == s@.len(),
            i <= n,
            v@ == s@.subrange(0, i as int),
        decreases n - i,
    {
        v.push(s.get_char(i));
        i += 1;
    }
    assert(v@ =~= s@);
    v
}

/// Whether `cs[lo..hi]` is the text `lit`.
fn span_eq(cs: &Vec<char>, lo: usize, hi: usize, lit: &str) -> (r: bool)
    requires
        lo <= hi <= cs@.len(),
    ensures
        r == (cs@.subrange(lo as int, hi as int) == lit@),
{
    let n = lit.unicode_len();
    if hi - lo != n {
        return false;
    }
    let mut j: usize = 0;
    while j < n
        invariant
            n == lit@.len(),
            hi - lo == n,
            lo <= hi <= cs@.len(),
            j <= n,
            forall|t: int| 0 <= t < j ==> cs@[lo + t] == #[trigger] lit@[t],
        decreases n - j,
    {
        if cs[lo + j] != lit.get_char(j) {
            assert(cs@.subrange(lo as int, hi as int)[j as int] != lit@[j as int]);
            return false;
        }
        j += 1;
    }
    assert(cs@.subrange(lo as int, hi as int) =~= lit@);
    true
}

/// The suit named by `cs[lo..hi]`.
fn suit_in(cs: &Vec<char>, lo: usize, hi: usize) -> (r: Result<Suit, CardError>)
    requires
        lo <= hi <= cs@.len(),
    ensures
        match r {
            Ok(x) => x.name() == cs@.subrange(lo as int, hi as int),
            Err(e) => e == CardError::MalformedCard && forall|x: Suit|
                #[trigger] x.name() != cs@.subrange(lo as int, hi as int),
        },
{
    if span_eq(cs, lo, hi, "CLUBS") {
        Ok(Suit::Clubs)
    } else if span_eq(cs, lo, hi, "DIAMONDS") {
        Ok(Suit::Diamonds)
    } else if span_eq(cs, lo, hi, "HEARTS") {
        Ok(Suit::Hearts)
    } else if span_eq(cs, lo, hi, "SPADES") {
        Ok(Suit::Spades)
    } else {
        Err(CardError::MalformedCard)
    }
}

/// The rank named by `cs[lo..hi]`.
fn rank_in(cs: &Vec<char>, lo: usize, hi: usize) -> (r: Result<Rank, CardError>)
    requires
        lo <= hi <= cs@.len(),
    ensures
        match r {
            Ok(x) => x.name() == cs@.subrange(lo as int, hi as int),
            Err(e) => e == CardError::MalformedCard && forall|x: Rank|
                #[trigger] x.name() != cs@.subrange(lo as int, hi as int),
        },
{
    if span_eq(cs, lo, hi, "ACE") {
        Ok(Rank::Ace)
    } else if span_eq(cs, lo, hi, "2") {
        Ok(Rank::Two)
    } else if span_eq(cs, lo, hi, "3") {
        Ok(Rank::Three)
    } else if span_eq(cs, lo, hi, "4") {
        Ok(Rank::Four)
    } else if span_eq(cs, lo, hi, "5") {
        Ok(Rank::Five)
    } else if span_eq(cs, lo, hi, "6") {
        Ok(Rank::Six)
    } else if span_eq(cs, lo, hi, "7") {
        Ok(Rank::Seven)
    } else if span_eq(cs, lo, hi, "8") {
        Ok(Rank::Eight)
    } else if span_eq(cs, lo, hi, "9") {
        Ok(Rank::Nine)
    } else if span_eq(cs, lo, hi, "10") {
        Ok(Rank::Ten)
    } else if span_eq(cs, lo, hi, "JACK") {
        Ok(Rank::Jack)
    } else if span_eq(cs, lo, hi, "QUEEN") {
        Ok(Rank::Queen)
    } else if span_eq(cs, lo, hi, "KING") {
        Ok(Rank::King)
    } else {
        Err(CardError::MalformedCard)
    }
}

/// The index of the first `#` in `cs[lo..hi]`, or `hi` where there is none.
fn hash_index(cs: &Vec<char>, lo: usize, hi: usize) -> (r: usize)
    requires
        lo <= hi <= cs@.len(),
    ensures
        lo <= r <= hi,
        r < hi ==> cs@[r as int] == '#',
        forall|t: int| lo <= t < r ==> #[trigger] cs@[t] != '#',
{
    let mut i = lo;
    while i < hi && cs[i] != '#'
        invariant
            lo <= i <= hi <= cs@.len(),
            forall|t: int| lo <= t < i ==> #[trigger] cs@[t] != '#',
        decreases hi - i,
    {
        i += 1;
    }
    i
}

/// The casual card written in `cs[lo..hi]`, as `SUIT#RANK` with a single `#`.
fn casual_in(cs: &Vec<char>, lo: usize, hi: usize) -> (r: Result<CasualCard, CardError>)
    requires
        lo <= hi <= cs@.len(),
    ensures
        match r {
            Ok(c) => c.text() == cs@.subrange(lo as int, hi as int),
            Err(e) => e == CardError::MalformedCard && forall|c: CasualCard|
                #[trigger] c.text() != cs@.subrange(lo as int, hi as int),
        },
{
    let ghost w = cs@.subrange(lo as int, hi as int);
    let p = hash_index(cs, lo, hi);
    if p == hi {
        assert forall|c: CasualCard| #[trigger] c.text() != w by {
            lemma_casual_text_split(c);
            if c.text() == w {
                let l = c.suit.name().len() as int;
                assert(cs@[lo + l] == '#');
            }
        }
        return Err(CardError::MalformedCard);
    }
    let q = hash_index(cs, p + 1, hi);
    if q < hi {
        assert forall|c: CasualCard| #[trigger] c.text() != w by {
            lemma_casual_text_split(c);
            if c.text() == w {
                assert(w[p - lo] == '#');
                assert(w[q - lo] == '#');
            }
        }
        return Err(CardError::MalformedCard);
    }
    let suit = suit_in(cs, lo, p);
    let rank = rank_in(cs, p + 1, hi);
    proof {
        reveal_strlit("#");
        assert forall|c: CasualCard| #[trigger] c.text() == w implies c.suit.name() == cs@.subrange(
            lo as int,
            p as int,
        ) && c.rank.name() == cs@.subrange(p + 1, hi as int) by {
            lemma_casual_text_split(c);
            let l = c.suit.name().len() as int;
            if l < p - lo {
                assert(w[l] == '#');
                assert(cs@[lo + l] == '#');
            }
            if l > p - lo {
                assert(w[p - lo] == '#');
            }
            assert(w.subrange(0, l) =~= cs@.subrange(lo as int, p as int));
            assert(w.subrange(l + 1, w.len() as int) =~= cs@.subrange(p + 1, hi as int));
        }
    }
    match (suit, rank) {
        (Ok(suit), Ok(rank)) => {
            let c = CasualCard { suit, rank };
            proof {
                assert(c.text() =~= w);
            }
            Ok(c)
        },
        _ => Err(CardError::MalformedCard),
    }
}

/// The card written in `cs[lo..hi]`.
pub(crate) fn card_in(cs: &Vec<char>, lo: usize, hi: usize) -> (r: Result<Card, CardError>)
    requires
        lo <= hi <= cs@.len(),
    ensures
        r == parse_card(cs@.subrange(lo as int, hi as int)),
{
    let ghost w = cs@.subrange(lo as int, hi as int);
    if span_eq(cs, lo, hi, "JOKER") {
        proof {
            lemma_parse_text(Card::Joker);
        }
        return Ok(Card::Joker);
    }
    match casual_in(cs, lo, hi) {
        Ok(c) => {
            proof {
                lemma_parse_text(Card::Casual(c));
            }
            Ok(Card::Casual(c))
        },
        Err(e) => {
            assert forall|c: Card| #[trigger] c.text() != w by {
                if let Card::Casual(x) = c {
                    assert(x.text() != w);
                }
            }
            Err(e)
        },
    }
}

impl Suit {
    /// Reads a suit: `CLUBS`, `DIAMONDS`, `HEARTS` or `SPADES`.
    pub fn from_string(s: &str) -> (r: Result<Suit, CardError>)
        ensures
            match r {
                Ok(x) => x.name() == s@,
                Err(e) => e == CardError::MalformedCard && forall|x: Suit| #[trigger] x.name() != s@,
            },
    {
        let cs = chars_of(s);
        let r = suit_in(&cs, 0, cs.len());
        assert(cs@.subrange(0, cs@.len() as int) =~= s@);
        r
    }

    fn number(self) -> (r: u8)
        ensures
            r == self.value(),
    {
        match self {
            Suit::Clubs => 0,
            Suit::Diamonds => 1,
            Suit::Hearts => 2,
            Suit::Spades => 3,
        }
    }
}

impl Rank {
    /// Reads a rank: `ACE`, `2` to `10`, `JACK`, `QUEEN` or `KING`.
    pub fn from_string(s: &str) -> (r: Result<Rank, CardError>)
        ensures
            match r {
                Ok(x) => x.name() == s@,
                Err(e) => e == CardError::MalformedCard && forall|x: Rank| #[trigger] x.name() != s@,
            },
    {
        let cs = chars_of(s);
        let r = rank_in(&cs, 0, cs.len());
        assert(cs@.subrange(0, cs@.len() as int) =~= s@);
        r
    }

    fn number(self) -> (r: u8)
        ensures
            r == self.value(),
    {
        match self {
            Rank::Ace => 1,
            Rank::Two => 2,
            Rank::Three => 3,
            Rank::Four => 4,
            Rank::Five => 5,
            Rank::Six => 6,
            Rank::Seven => 7,
            Rank::Eight => 8,
            Rank::Nine => 9,
            Rank::Ten => 10,
            Rank::Jack => 11,
            Rank::Queen => 12,
            Rank::King => 13,
        }
    }
}

impl CasualCard {
    /// Reads `SUIT#RANK`, with exactly one `#`.
    pub fn from_string(s: &str) -> (r: Result<CasualCard, CardError>)
        ensures
            match r {
                Ok(c) => c.text() == s@,
                Err(e) => e == CardError::MalformedCard && forall|c: CasualCard|
                    #[trigger] c.text() != s@,
            },
    {
        let cs = chars_of(s);
        let r = casual_in(&cs, 0, cs.len());
        assert(cs@.subrange(0, cs@.len() as int) =~= s@);
        r
    }

    /// The card as a byte `0b00SSRRRR`: suit in bits 4 and 5, rank in the low nibble.
    pub fn as_byte(self) -> (r: u8)
        ensures
            r == self.byte(),
    {
        let rank = self.rank.number();
        let suit = self.suit.number();
        suit * 16 + rank
    }
}

impl Card {
    /// Reads `JOKER` or `SUIT#RANK`.
    pub fn from_string(s: &str) -> (r: Result<Card, CardError>)
        ensures
            r == parse_card(s@),
    {
        let cs = chars_of(s);
        let r = card_in(&cs, 0, cs.len());
        assert(cs@.subrange(0, cs@.len() as int) =~= s@);
        r
    }

    /// The card's byte; the joker is `JOKER`.
    pub fn as_byte(self) -> (r: u8)
        ensures
            r == self.byte(),
    {
        match self {
            Card::Joker => JOKER,
            Card::Casual(card) => card.as_byte(),
        }
    }
}

} // verus!
