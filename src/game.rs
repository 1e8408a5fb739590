use vstd::prelude::*;
use crate::card::{Card, CardError, parse_card, card_in, chars_of, lemma_byte_injective, lemma_casual_byte_reserved};
use crate::zfinder::{SENTINEL, ZFinder, eqw, occurs, strictly_increasing};

verus! {

/// Characters that separate the cards of a line: the Unicode `White_Space` set.
pub open spec fn is_space(c: char) -> bool {
    ||| ('\u{9}' <= c && c <= '\u{d}')
    ||| c == ' '
    ||| c == '\u{85}'
    ||| c == '\u{a0}'
    ||| c == '\u{1680}'
    ||| ('\u{2000}' <= c && c <= '\u{200a}')
    ||| c == '\u{2028}'
    ||| c == '\u{2029}'
    ||| c == '\u{202f}'
    ||| c == '\u{205f}'
    ||| c == '\u{3000}'
}

/// Whether `c` separates the cards of a line.
fn space_char(c: char) -> (r: bool)
    ensures
        r == is_space(c),
{
    ('\u{9}' <= c && c <= '\u{d}') || c == ' ' || c == '\u{85}' || c == '\u{a0}' || c == '\u{1680}'
        || ('\u{2000}' <= c && c <= '\u{200a}') || c == '\u{2028}' || c == '\u{2029}' || c
        == '\u{202f}' || c == '\u{205f}' || c == '\u{3000}'
}

/// The end of the run of non-space characters that starts at `i`.
pub open spec fn token_end(s: Seq<char>, i: int) -> int
    decreases s.len() - i,
{
    if i < 0 || i >= s.len() || is_space(s[i]) {
        i
    } else {
        token_end(s, i + 1)
    }
}

/// The maximal runs of non-space characters of `s` from `i` on, in order.
pub open spec fn tokens_from(s: Seq<char>, i: int) -> Seq<Seq<char>>
    decreases s.len() - i,
{
    if i < 0 || i >= s.len() {
        seq![]
    } else if is_space(s[i]) {
        tokens_from(s, i + 1)
    } else {
        let e = token_end(s, i);
        if i < e <= s.len() {
            seq![s.subrange(i, e)] + tokens_from(s, e)
        } else {
            seq![]
        }
    }
}

/// The whitespace-separated tokens of a line.
pub open spec fn tokens(s: Seq<char>) -> Seq<Seq<char>> {
    tokens_from(s, 0)
}

proof fn lemma_token_end(s: Seq<char>, i: int, e: int)
    requires
        0 <= i <= e <= s.len(),
        forall|t: int| i <= t < e ==> !is_space(#[trigger] s[t]),
        e == s.len() || is_space(s[e]),
    ensures
        token_end(s, i) == e,
    decreases e - i,
{
    if i < e {
        lemma_token_end(s, i + 1, e);
    }
}

/// Reads a line of whitespace-separated cards.
pub fn parse_line(line: &str) -> (r: Result<Vec<Card>, CardError>)
    ensures
        match r {
            Ok(v) => v@.len() == tokens(line@).len() && forall|j: int|
                0 <= j < v@.len() ==> Ok::<Card, CardError>(#[trigger] v@[j]) == parse_card(
                    tokens(line@)[j],
                ),
            Err(e) => e == CardError::MalformedCard && exists|j: int|
                0 <= j < tokens(line@).len() && #[trigger] parse_card(tokens(line@)[j]) is Err,
        },
{
    let cs = chars_of(line);
    let ghost s = line@;
    let n = cs.len();
    let mut result: Vec<Card> = Vec::new();
    let ghost mut done: Seq<Seq<char>> = seq![];
    let mut i: usize = 0;
    while i < n
        invariant
            cs@ == s,
            s == line@,
            n == s.len(),
            i <= n,
            tokens(s) == done + tokens_from(s, i as int),
            result@.len() == done.len(),
            forall|j: int|
                0 <= j < done.len() ==> Ok::<Card, CardError>(#[trigger] result@[j]) == parse_card(
                    done[j],
                ),
        decreases n - i,
    {
        if space_char(cs[i]) {
            i += 1;
        } else {
            let mut e = i + 1;
            while e < n && !space_char(cs[e])
                invariant
                    cs@ == s,
                    n == s.len(),
                    i < e <= n,
                    forall|t: int| i <= t < e ==> !is_space(#[trigger] s[t]),
                decreases n - e,
            {
                e += 1;
            }
            proof {
                lemma_token_end(s, i as int, e as int);
                assert(tokens_from(s, i as int) == seq![s.subrange(i as int, e as int)] + tokens_from(
                    s,
                    e as int,
                ));
            }
            let ghost tok = s.subrange(i as int, e as int);
            let parsed = card_in(&cs, i, e);
            assert(parsed == parse_card(tok));
            match parsed {
                Ok(c) => {
                    result.push(c);
                    proof {
                        assert(done + tokens_from(s, i as int) =~= done.push(tok) + tokens_from(
                            s,
                            e as int,
                        ));
                        done = done.push(tok);
                    }
                },
                Err(err) => {
                    proof {
                        let ts = tokens_from(s, i as int);
                        assert(ts[0] == tok);
                        assert((done + ts)[done.len() as int] == ts[0]);
                        assert(tokens(s)[done.len() as int] == tok);
                        assert(parse_card(tokens(line@)[done.len() as int]) is Err);
                    }
                    return Err(err);
                },
            }
            i = e;
        }
    }
    proof {
        assert(done + tokens_from(s, n as int) =~= done);
    }
    Ok(result)
}

/// Why a round was not won.
#[derive(Debug, PartialEq, Eq, Copy, Clone, Structural)]
pub enum GameError {
    /// The player does not hold fewer cards than the computer.
    PatternLongerThanText,
    /// The computer holds a joker; only the player may.
    TextContainsWildcard,
    /// The player's cards occur nowhere in the computer's.
    NoMatch,
}

/// The bytes of a sequence of cards.
pub open spec fn bytes_of(cards: Seq<Card>) -> Seq<u8> {
    cards.map_values(|c: Card| c.byte() as u8)
}

/// Some card of the sequence is a joker.
pub open spec fn has_joker(cards: Seq<Card>) -> bool {
    exists|i: int| 0 <= i < cards.len() && cards[i] == Card::Joker
}

/// The player's nonempty hand lies over the computer's cards at offset `k`, each joker
/// of the player matching any single card.
pub open spec fn hand_occurs(computer: Seq<Card>, player: Seq<Card>, k: int) -> bool {
    &&& player.len() > 0
    &&& 0 <= k
    &&& k + player.len() <= computer.len()
    &&& forall|j: int|
        0 <= j < player.len() ==> #[trigger] player[j] == Card::Joker || computer[k + j] == player[j]
}

/// Turning any card of the player's hand into a joker keeps every winning offset.
pub proof fn lemma_hand_joker_widens(computer: Seq<Card>, player: Seq<Card>, j: int, k: int)
    requires
        0 <= j < player.len(),
        hand_occurs(computer, player, k),
    ensures
        hand_occurs(computer, player.update(j, Card::Joker), k),
{
    let q = player.update(j, Card::Joker);
    assert forall|i: int| 0 <= i < q.len() implies #[trigger] q[i] == Card::Joker || computer[k + i]
        == q[i] by {
        assert(player[i] == Card::Joker || computer[k + i] == player[i]);
    }
}

/// On cards without a joker in the text, a match of the bytes is a match of the cards.
proof fn lemma_bytes_match(computer: Seq<Card>, player: Seq<Card>, k: int)
    requires
        !has_joker(computer),
    ensures
        occurs(bytes_of(computer), bytes_of(player), k) <==> hand_occurs(computer, player, k),
{
    let t = bytes_of(computer);
    let p = bytes_of(player);
    if occurs(t, p, k) {
        assert forall|j: int| 0 <= j < player.len() implies #[trigger] player[j] == Card::Joker
            || computer[k + j] == player[j] by {
            assert(eqw(t[k + j], p[j]));
            let a = computer[k + j];
            let b = player[j];
            if let Card::Casual(x) = a {
                lemma_casual_byte_reserved(x);
            } else {
                assert(computer[k + j] == Card::Joker);
            }
            if let Card::Casual(y) = b {
                lemma_casual_byte_reserved(y);
                lemma_byte_injective(a, b);
            }
        }
    }
    if hand_occurs(computer, player, k) {
        assert forall|j: int| 0 <= j < p.len() implies eqw(t[k + j], #[trigger] p[j]) by {
            assert(player[j] == Card::Joker || computer[k + j] == player[j]);
        }
    }
}

/// Encodes a hand as bytes.
fn encode(cards: &Vec<Card>) -> (r: Vec<u8>)
    ensures
        r@ == bytes_of(cards@),
{
    let mut out: Vec<u8> = Vec::new();
    let mut i: usize = 0;
    while i < cards.len()
        invariant
            i <= cards@.len(),
            out@ == bytes_of(cards@.subrange(0, i as int)),
        decreases cards@.len() - i,
    {
        out.push(cards[i].as_byte());
        assert(bytes_of(cards@.subrange(0, i + 1)) =~= bytes_of(cards@.subrange(0, i as int)).push(
            cards@[i as int].byte() as u8,
        ));
        i += 1;
    }
    assert(cards@.subrange(0, i as int) =~= cards@);
    out
}

/// Plays a round: every offset, in increasing order, at which the player's cards occur in
/// the computer's.
pub fn solve(computer: &Vec<Card>, player: &Vec<Card>) -> (r: Result<Vec<usize>, GameError>)
    requires
        computer@.len() + player@.len() < usize::MAX,
    ensures
        computer@.len() <= player@.len() ==> r == Err::<Vec<usize>, GameError>(
            GameError::PatternLongerThanText,
        ),
        computer@.len() > player@.len() && has_joker(computer@) ==> r == Err::<Vec<usize>, GameError>(
            GameError::TextContainsWildcard,
        ),
        computer@.len() > player@.len() && !has_joker(computer@) ==> match r {
            Ok(v) => {
                &&& v@.len() > 0
                &&& strictly_increasing(v@)
                &&& forall|i: int|
                    0 <= i < v@.len() ==> hand_occurs(computer@, player@, #[trigger] v@[i] as int)
                &&& forall|k: int|
                    #[trigger] hand_occurs(computer@, player@, k) ==> v@.contains(k as usize)
            },
            Err(e) => e == GameError::NoMatch && forall|k: int|
                !#[trigger] hand_occurs(computer@, player@, k),
        },
{
    if computer.len() <= player.len() {
        return Err(GameError::PatternLongerThanText);
    }
    let mut i: usize = 0;
    while i < computer.len()
        invariant
            computer@.len() > player@.len(),
            i <= computer@.len(),
            forall|t: int| 0 <= t < i ==> computer@[t] != Card::Joker,
        decreases computer@.len() - i,
    {
        if let Card::Joker = computer[i] {
            return Err(GameError::TextContainsWildcard);
        }
        i += 1;
    }
    let data = encode(computer);
    let pattern = encode(player);
    assert forall|t: int| 0 <= t < data@.len() implies #[trigger] data@[t] != SENTINEL by {
        if let Card::Casual(c) = computer@[t] {
            lemma_casual_byte_reserved(c);
        }
    }
    let mut finder = ZFinder::new(data.as_slice(), pattern.as_slice());
    let found = finder.find_all();
    proof {
        assert forall|k: int|
            occurs(bytes_of(computer@), bytes_of(player@), k) <==> #[trigger] hand_occurs(
                computer@,
                player@,
                k,
            ) by {
            lemma_bytes_match(computer@, player@, k);
        }
    }
    match found {
        Ok(v) => Ok(v),
        Err(_) => Err(GameError::NoMatch),
    }
}

} // verus!
