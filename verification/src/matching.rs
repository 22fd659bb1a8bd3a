//! What data are compressed to: which tokens stand for them, and when they are
//! stored as they are.
use vstd::prelude::*;

use crate::level::CompressionLevel;
#[allow(unused_imports)]
use crate::bytes::u24_at;
#[allow(unused_imports)]
use crate::format::{frames, header, header_len, span, Token, GROUP};
#[allow(unused_imports)]
use crate::table::hash_at;

verus! {

/// The number of earlier positions of each hash that level 3 considers.
pub const HASHTABLE_COUNT: usize = 16;

/// How far the bytes from `q` on and those from `p` on are equal, where the first
/// `m` are, and `limit` is as far as it goes.
pub open spec fn extended(data: Seq<u8>, q: int, p: int, m: nat, limit: nat) -> nat
    decreases limit - m,
{
    if m < limit && data[q + m] == data[p + m] {
        extended(data, q, p, m + 1, limit)
    } else {
        m
    }
}

/// The length of the longest reference at `p`. The last four bytes of the data are
/// never part of one.
pub open spec fn match_limit(data: Seq<u8>, p: int) -> nat {
    if data.len() - 4 - p < 255 {
        (data.len() - 4 - p) as nat
    } else {
        255
    }
}

/// The length of the reference at `p` to the data at `q`, which begin with the same
/// three bytes.
pub open spec fn match_len(data: Seq<u8>, q: int, p: int) -> nat {
    extended(data, q, p, 3, match_limit(data, p))
}

/// The last position with the hash `h` at which one of `tokens` begins.
pub open spec fn last_start(data: Seq<u8>, tokens: Seq<Token>, h: int) -> Option<int>
    decreases tokens.len(),
{
    if tokens.len() == 0 {
        None
    } else {
        let start = span(tokens.drop_last()) as int;
        if hash_at(data, start) == h {
            Some(start)
        } else {
            last_start(data, tokens.drop_last(), h)
        }
    }
}

/// The number of literals that `tokens` end with.
pub open spec fn literal_run(tokens: Seq<Token>) -> nat
    decreases tokens.len(),
{
    if tokens.len() > 0 && tokens.last() is Literal {
        literal_run(tokens.drop_last()) + 1
    } else {
        0
    }
}

/// Whether the six bytes around `p` are all the same.
pub open spec fn is_flat(data: Seq<u8>, p: int) -> bool {
    forall|i: int| p - 3 <= i < p + 3 ==> #[trigger] data[i] == data[p - 3]
}

/// Whether level 1 refers from `p`, which `tokens` lead to, to the data at `q`: they
/// begin with the same three bytes, and lie at least three bytes back or directly
/// before `p` in a run of the same byte.
pub open spec fn refers(data: Seq<u8>, tokens: Seq<Token>, q: int) -> bool {
    let p = span(tokens) as int;
    &&& u24_at(data, q) == u24_at(data, p)
    &&& p - q >= 3 || p == q + 1 && literal_run(tokens) >= 3 && p > 3 && is_flat(data, p)
}

/// The token of level 1 that follows `tokens`.
pub open spec fn next_level_1(data: Seq<u8>, tokens: Seq<Token>) -> Token {
    let p = span(tokens) as int;
    let h = hash_at(data, p);
    match last_start(data, tokens, h) {
        Some(q) => if refers(data, tokens, q) {
            Token::Reference { key: h as nat, len: match_len(data, q, p) }
        } else {
            Token::Literal(data[p])
        },
        None => Token::Literal(data[p]),
    }
}

/// How many positions before `p` have the hash `h`.
pub open spec fn occurrences(data: Seq<u8>, h: int, p: int) -> nat
    decreases p,
{
    if p <= 0 {
        0
    } else if hash_at(data, p - 1) == h {
        occurrences(data, h, p - 1) + 1
    } else {
        occurrences(data, h, p - 1)
    }
}

/// How many of the earlier positions with the hash `h` level 3 considers at `p`:
/// the last sixteen, but only as many as occurred since their number was last a
/// multiple of 256.
pub open spec fn considered(data: Seq<u8>, h: int, p: int) -> nat {
    if occurrences(data, h, p) % 256 < HASHTABLE_COUNT {
        occurrences(data, h, p) % 256
    } else {
        HASHTABLE_COUNT as nat
    }
}

/// Whether level 3 can refer from `p` to `o`: it is one of the positions that are
/// considered, at least three bytes back, and begins with the same three bytes.
pub open spec fn is_candidate(data: Seq<u8>, p: int, o: int) -> bool {
    let h = hash_at(data, p);
    &&& 0 <= o
    &&& o + 2 < p
    &&& hash_at(data, o) == h
    &&& occurrences(data, h, o) + considered(data, h, p) >= occurrences(data, h, p)
    &&& u24_at(data, o) == u24_at(data, p)
}

/// Whether the match at `a` is at least as good as that at `b`: longer, or as long
/// and not farther away.
pub open spec fn as_good(data: Seq<u8>, p: int, a: int, b: int) -> bool {
    ||| match_len(data, a, p) > match_len(data, b, p)
    ||| match_len(data, a, p) == match_len(data, b, p) && a >= b
}

/// Whether `o` is the best position that level 3 can refer to from `p`.
pub open spec fn is_best(data: Seq<u8>, p: int, o: int) -> bool {
    &&& is_candidate(data, p, o)
    &&& forall|other: int| #[trigger] is_candidate(data, p, other) ==> as_good(data, p, o, other)
}

/// The token of level 3 at `p`: a reference to the best match, unless there is none
/// or it is too far away.
pub open spec fn next_level_3(data: Seq<u8>, p: int) -> Token {
    let o = choose|o: int| is_best(data, p, o);
    if is_best(data, p, o) && p - o < 0x1_ffff {
        Token::Reference { key: (p - o) as nat, len: match_len(data, o, p) }
    } else {
        Token::Literal(data[p])
    }
}

/// The token that follows `tokens`.
pub open spec fn next_token(level: CompressionLevel, data: Seq<u8>, tokens: Seq<Token>) -> Token {
    match level {
        CompressionLevel::Lvl1 => next_level_1(data, tokens),
        CompressionLevel::Lvl3 => next_level_3(data, span(tokens) as int),
    }
}

/// The bytes of `s` as literals.
pub open spec fn literals(s: Seq<u8>) -> Seq<Token> {
    Seq::new(s.len(), |i: int| Token::Literal(s[i]))
}

/// Whether compression is given up after `tokens`. This is considered where a
/// control word is complete: if more than three quarters of the data are done and
/// the stream is longer than 31 of 32 parts of them.
pub open spec fn gives_up(level: CompressionLevel, data: Seq<u8>, tokens: Seq<Token>) -> bool {
    let p = span(tokens);
    &&& tokens.len() > 0
    &&& tokens.len() % (GROUP as nat) == 0
    &&& p > 3 * (data.len() / 4)
    &&& header_len(data.len()) + frames(level, tokens).len() > p - p / 32
}

/// How far a match goes: not beyond the limit, and the bytes up to there are equal.
pub proof fn lemma_extended(data: Seq<u8>, q: int, p: int, m: nat, limit: nat)
    ensures
        m <= extended(data, q, p, m, limit),
        m <= limit ==> extended(data, q, p, m, limit) <= limit,
        forall|i: int|
            m <= i < extended(data, q, p, m, limit) ==> #[trigger] data[q + i] == data[p + i],
    decreases limit - m,
{
    if m < limit && data[q + m] == data[p + m] {
        lemma_extended(data, q, p, m + 1, limit);
    }
}

/// A token stands for at least one byte, and not for one of the last four.
pub proof fn lemma_next_width(level: CompressionLevel, data: Seq<u8>, tokens: Seq<Token>)
    ensures
        next_token(level, data, tokens).width() >= 1,
        span(tokens.push(next_token(level, data, tokens))) == span(tokens) + next_token(
            level,
            data,
            tokens,
        ).width(),
        span(tokens) + 10 < data.len() ==> span(tokens) + next_token(level, data, tokens).width()
            + 4 <= data.len(),
{
    let p = span(tokens) as int;
    match level {
        CompressionLevel::Lvl1 => match last_start(data, tokens, hash_at(data, p)) {
            Some(q) => {
                lemma_extended(data, q, p, 3, match_limit(data, p));
            },
            None => {},
        },
        CompressionLevel::Lvl3 => {
            let o = choose|o: int| is_best(data, p, o);
            lemma_extended(data, o, p, 3, match_limit(data, p));
        },
    }
    lemma_span_push(tokens, next_token(level, data, tokens));
}

/// A token adds what it stands for.
pub proof fn lemma_span_push(tokens: Seq<Token>, token: Token)
    ensures
        span(tokens.push(token)) == span(tokens) + token.width(),
{
    assert(tokens.push(token).drop_last() =~= tokens);
}

/// The tokens that the data are compressed to, where `tokens` are those for the
/// front of the data; none if compression is given up. The last bytes of the data
/// are literals.
pub open spec fn plan(level: CompressionLevel, data: Seq<u8>, tokens: Seq<Token>) -> Option<
    Seq<Token>,
>
    decreases data.len() - span(tokens),
{
    if span(tokens) + 10 >= data.len() {
        Some(tokens + literals(data.skip(span(tokens) as int)))
    } else if gives_up(level, data, tokens) {
        None
    } else {
        proof {
            lemma_next_width(level, data, tokens);
        }
        plan(level, data, tokens.push(next_token(level, data, tokens)))
    }
}

/// The stream that holds the data as they are.
pub open spec fn stored(data: Seq<u8>, level: CompressionLevel) -> Seq<u8> {
    header(level, false, header_len(data.len()) + data.len(), data.len()) + data
}

/// What the data are compressed to.
pub open spec fn compressed(data: Seq<u8>, level: CompressionLevel) -> Seq<u8> {
    match plan(level, data, Seq::empty()) {
        Some(tokens) => {
            let body = frames(level, tokens);
            header(level, true, header_len(data.len()) + body.len(), data.len()) + body
        },
        None => stored(data, level),
    }
}

}
