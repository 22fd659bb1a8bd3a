//! Which references compression chooses, and when it gives up.
use vstd::prelude::*;

use crate::format::Token;
use crate::level::CompressionLevel;
#[allow(unused_imports)]
use crate::bytes::{lemma_u24_at_equal, u24_at};
#[allow(unused_imports)]
use crate::format::{frames, header_len, items, span};
#[allow(unused_imports)]
use crate::matching::{
    as_good, compressed, considered, extended, gives_up, is_best, is_candidate, is_flat,
    last_start, lemma_extended, lemma_next_width, literal_run, literals,
    match_limit, next_token, occurrences, plan, refers,
};
#[allow(unused_imports)]
use crate::roundtrip::{in_plan, lemma_header_sizes, lemma_stream, planned};
#[allow(unused_imports)]
use crate::size::{groups, lemma_frames_len};
#[allow(unused_imports)]
use crate::table::hash_at;

verus! {

/// The last token with a hash begins where no later one with that hash begins.
proof fn lemma_last_start_at(data: Seq<u8>, tokens: Seq<Token>, h: int, k: int)
    requires
        0 <= k < tokens.len(),
        hash_at(data, span(tokens.take(k)) as int) == h,
        forall|j: int|
            k < j < tokens.len() ==> hash_at(data, span(#[trigger] tokens.take(j)) as int) != h,
    ensures
        last_start(data, tokens, h) == Some(span(tokens.take(k)) as int),
    decreases tokens.len(),
{
    let n = tokens.len() - 1;
    let before = tokens.drop_last();
    assert(before =~= tokens.take(n));
    if k < n {
        assert(before.take(k) =~= tokens.take(k));
        assert forall|j: int| k < j < before.len() implies hash_at(
            data,
            span(#[trigger] before.take(j)) as int,
        ) != h by {
            assert(before.take(j) =~= tokens.take(j));
        }
        lemma_last_start_at(data, before, h, k);
    }
}

/// Where no token begins with a hash there is no last one.
proof fn lemma_no_start(data: Seq<u8>, tokens: Seq<Token>, h: int)
    requires
        forall|j: int|
            0 <= j < tokens.len() ==> hash_at(data, span(#[trigger] tokens.take(j)) as int) != h,
    ensures
        last_start(data, tokens, h) is None,
    decreases tokens.len(),
{
    if tokens.len() > 0 {
        let before = tokens.drop_last();
        assert(before =~= tokens.take(tokens.len() - 1));
        assert forall|j: int| 0 <= j < before.len() implies hash_at(
            data,
            span(#[trigger] before.take(j)) as int,
        ) != h by {
            assert(before.take(j) =~= tokens.take(j));
        }
        lemma_no_start(data, before, h);
    }
}

/// Three tokens at the end are literals exactly where the run of literals is that long.
proof fn lemma_three_literals(tokens: Seq<Token>)
    ensures
        literal_run(tokens) >= 3 <==> {
            &&& tokens.len() >= 3
            &&& tokens[tokens.len() - 1] is Literal
            &&& tokens[tokens.len() - 2] is Literal
            &&& tokens[tokens.len() - 3] is Literal
        },
{
    reveal_with_fuel(literal_run, 4);
}

/// How a match ends: at the longest length, four bytes before the end of the data, or
/// where the data differ.
proof fn lemma_match_end(data: Seq<u8>, q: int, p: int, m: nat, limit: nat)
    requires
        m <= limit,
    ensures
        ({
            let n = extended(data, q, p, m, limit);
            n == limit || data[q + n] != data[p + n]
        }),
    decreases limit - m,
{
    if m < limit && data[q + m] == data[p + m] {
        lemma_match_end(data, q, p, m + 1, limit);
    }
}

/// Wherever more than ten bytes are left, level 1 refers to the last token start that has
/// the hash of the next three bytes, if the three bytes are the same there and it lies at
/// least three bytes back, or directly before in a run of the same byte, behind three
/// literals. The reference has that hash, and is as long as the data are the same, but at
/// most 255 bytes and without the last four bytes.
pub proof fn law_level_1_reference(data: Seq<u8>, tokens: Seq<Token>, k: int)
    requires
        span(tokens) + 10 < data.len(),
        0 <= k < tokens.len(),
        forall|j: int|
            k < j < tokens.len() ==> hash_at(data, span(#[trigger] tokens.take(j)) as int)
                != hash_at(data, span(tokens) as int),
        ({
            let p = span(tokens) as int;
            let q = span(tokens.take(k)) as int;
            &&& data[q] == data[p] && data[q + 1] == data[p + 1] && data[q + 2] == data[p + 2]
            &&& p - q >= 3 || {
                &&& p == q + 1
                &&& p > 3
                &&& tokens.len() >= 3
                &&& tokens[tokens.len() - 1] is Literal
                &&& tokens[tokens.len() - 2] is Literal
                &&& tokens[tokens.len() - 3] is Literal
                &&& data[p - 3] == data[p - 2] == data[p - 1] == data[p] == data[p + 1] == data[p
                    + 2]
            }
        }),
    ensures
        ({
            let p = span(tokens) as int;
            let q = span(tokens.take(k)) as int;
            next_token(CompressionLevel::Lvl1, data, tokens) matches Token::Reference { key, len }
                && {
                &&& key == hash_at(data, p)
                &&& 3 <= len <= 255
                &&& p + len + 4 <= data.len()
                &&& forall|i: int| 0 <= i < len ==> #[trigger] data[q + i] == data[p + i]
                &&& len == 255 || p + len + 4 == data.len() || data[q + len] != data[p + len]
            }
        }),
{
    let p = span(tokens) as int;
    let q = span(tokens.take(k)) as int;
    let h = hash_at(data, p);
    assert(u24_at(data, q) == u24_at(data, p));
    lemma_last_start_at(data, tokens, h, k);
    lemma_three_literals(tokens);
    assert(is_flat(data, p) || p - q >= 3);
    assert(refers(data, tokens, q));
    let limit = match_limit(data, p);
    lemma_extended(data, q, p, 3, limit);
    lemma_match_end(data, q, p, 3, limit);
    lemma_u24_at_equal(data, q, p);
    crate::table::law_hash_in_table(u24_at(data, p));
}

/// Level 1 writes a literal where the last token start with the hash of the next three
/// bytes has other bytes, lies too near, or is missing.
pub proof fn law_level_1_literal(data: Seq<u8>, tokens: Seq<Token>, k: int)
    requires
        span(tokens) + 10 < data.len(),
        -1 <= k < tokens.len(),
        k >= 0 ==> hash_at(data, span(tokens.take(k)) as int) == hash_at(
            data,
            span(tokens) as int,
        ),
        forall|j: int|
            k < j < tokens.len() ==> hash_at(data, span(#[trigger] tokens.take(j)) as int)
                != hash_at(data, span(tokens) as int),
        k >= 0 ==> {
            let p = span(tokens) as int;
            let q = span(tokens.take(k)) as int;
            ||| data[q] != data[p]
            ||| data[q + 1] != data[p + 1]
            ||| data[q + 2] != data[p + 2]
            ||| p - q < 3 && p != q + 1
            ||| p == q + 1 && {
                ||| p <= 3
                ||| tokens.len() < 3
                ||| !(tokens[tokens.len() - 1] is Literal)
                ||| !(tokens[tokens.len() - 2] is Literal)
                ||| !(tokens[tokens.len() - 3] is Literal)
                ||| data[p - 3] != data[p]
                ||| data[p - 2] != data[p]
                ||| data[p - 1] != data[p]
                ||| data[p + 1] != data[p]
                ||| data[p + 2] != data[p]
            }
        },
    ensures
        next_token(CompressionLevel::Lvl1, data, tokens) == Token::Literal(
            data[span(tokens) as int],
        ),
{
    let p = span(tokens) as int;
    let h = hash_at(data, p);
    if k < 0 {
        lemma_no_start(data, tokens, h);
    } else {
        let q = span(tokens.take(k)) as int;
        lemma_last_start_at(data, tokens, h, k);
        lemma_three_literals(tokens);
        if refers(data, tokens, q) {
            lemma_u24_at_equal(data, q, p);
            assert(data[q + 0] == data[p + 0]);
            assert(data[q + 1] == data[p + 1]);
            assert(data[q + 2] == data[p + 2]);
            if p == q + 1 {
                assert(data[p] == data[p - 3]);
                assert(data[p - 2] == data[p - 3]);
                assert(data[p - 1] == data[p - 3]);
                assert(data[p + 1] == data[p - 3]);
                assert(data[p + 2] == data[p - 3]);
            }
        }
    }
}

/// How many positions before another have a hash.
pub proof fn law_occurrences(data: Seq<u8>, h: int, p: int)
    requires
        0 <= p,
    ensures
        occurrences(data, h, 0) == 0,
        hash_at(data, p) == h ==> occurrences(data, h, p + 1) == occurrences(data, h, p) + 1,
        hash_at(data, p) != h ==> occurrences(data, h, p + 1) == occurrences(data, h, p),
{
}

/// Among candidates before `n` there is a best one.
proof fn lemma_best_before(data: Seq<u8>, p: int, n: int) -> (best: Option<int>)
    requires
        0 <= n,
    ensures
        match best {
            Some(o) => is_candidate(data, p, o) && forall|other: int|
                other < n && #[trigger] is_candidate(data, p, other) ==> as_good(
                    data,
                    p,
                    o,
                    other,
                ),
            None => forall|other: int| other < n ==> !#[trigger] is_candidate(data, p, other),
        },
    decreases n,
{
    if n == 0 {
        None
    } else {
        let before = lemma_best_before(data, p, n - 1);
        if !is_candidate(data, p, n - 1) {
            before
        } else {
            match before {
                None => Some(n - 1),
                Some(o) => if as_good(data, p, o, n - 1) {
                    before
                } else {
                    Some(n - 1)
                },
            }
        }
    }
}

/// A match is at least as long as bytes are known to be the same.
proof fn lemma_match_at_least(data: Seq<u8>, q: int, p: int, m: nat, limit: nat, n: nat)
    requires
        m <= n <= limit,
        forall|i: int| 0 <= i < n ==> #[trigger] data[q + i] == data[p + i],
    ensures
        extended(data, q, p, m, limit) >= n,
    decreases limit - m,
{
    if m < n {
        assert(data[q + m] == data[p + m]);
        lemma_match_at_least(data, q, p, m + 1, limit, n);
    } else {
        lemma_extended(data, q, p, m, limit);
    }
}

/// Level 3 does as well as any position that it considers: at least three bytes back and
/// one of the last sixteen with the hash of the next three bytes, or of as many as came
/// since their number was a multiple of 256. If the data from `o` on are the same for `m`
/// bytes, the reference is longer, or as long and not to farther data. There is a literal
/// instead only where such a position or a better one is too far away.
pub proof fn law_level_3_best(data: Seq<u8>, tokens: Seq<Token>, o: int, m: nat)
    requires
        span(tokens) + 10 < data.len(),
        0 <= o,
        o + 3 <= span(tokens),
        3 <= m <= 255,
        span(tokens) + m + 4 <= data.len(),
        forall|i: int| 0 <= i < m ==> #[trigger] data[o + i] == data[span(tokens) + i],
        ({
            let p = span(tokens) as int;
            let h = hash_at(data, p);
            let c = occurrences(data, h, p);
            c - occurrences(data, h, o) <= if c % 256 < 16 {
                (c % 256) as int
            } else {
                16
            }
        }),
    ensures
        ({
            let p = span(tokens) as int;
            let h = hash_at(data, p);
            let c = occurrences(data, h, p);
            match next_token(CompressionLevel::Lvl3, data, tokens) {
                Token::Reference { key, len } => len > m || len == m && key <= p - o,
                Token::Literal(b) => b == data[p] && (p - o >= 0x1_ffff || exists|far: int|
                    {
                        &&& 0 <= far <= p - 0x1_ffff
                        &&& c - #[trigger] occurrences(data, h, far) <= if c % 256 < 16 {
                            (c % 256) as int
                        } else {
                            16
                        }
                        &&& m < 255
                        &&& p + m + 4 < data.len()
                        &&& forall|i: int|
                            0 <= i <= m ==> #[trigger] data[far + i] == data[p + i]
                    }),
            }
        }),
{
    let p = span(tokens) as int;
    let limit = match_limit(data, p);
    assert(data[o + 0] == data[p + 0] && data[o + 1] == data[p + 1] && data[o + 2] == data[p + 2]);
    assert(u24_at(data, o) == u24_at(data, p));
    assert(is_candidate(data, p, o));
    lemma_match_at_least(data, o, p, 3, limit, m);
    let found = lemma_best_before(data, p, p);
    assert(found is Some);
    let b = found->0;
    assert(is_best(data, p, b));
    let best = choose|x: int| is_best(data, p, x);
    assert(is_best(data, p, best));
    assert(as_good(data, p, best, o));
    if p - best >= 0x1_ffff && p - o < 0x1_ffff {
        lemma_extended(data, best, p, 3, limit);
        lemma_u24_at_equal(data, best, p);
        assert(occurrences(data, hash_at(data, p), best) >= 0);
        assert forall|i: int| 0 <= i <= m implies #[trigger] data[best + i] == data[p + i] by {}
    }
}

/// What a reference of level 3 leads to: the same data, at least three bytes and less than
/// 0x1ffff bytes back, at one of the positions that are considered. It is as long as the
/// data are the same, but at most 255 bytes and without the last four bytes.
pub proof fn law_level_3_reference(data: Seq<u8>, tokens: Seq<Token>)
    requires
        span(tokens) + 10 < data.len(),
    ensures
        ({
            let p = span(tokens) as int;
            let h = hash_at(data, p);
            let c = occurrences(data, h, p);
            match next_token(CompressionLevel::Lvl3, data, tokens) {
                Token::Reference { key, len } => {
                    &&& 3 <= key < 0x1_ffff
                    &&& key <= p
                    &&& 3 <= len <= 255
                    &&& p + len + 4 <= data.len()
                    &&& forall|i: int|
                        0 <= i < len ==> #[trigger] data[p - key + i] == data[p + i]
                    &&& len == 255 || p + len + 4 == data.len() || data[p - key + len] != data[p
                        + len]
                    &&& c - occurrences(data, h, p - key) <= if c % 256 < 16 {
                        (c % 256) as int
                    } else {
                        16
                    }
                },
                Token::Literal(b) => b == data[p],
            }
        }),
{
    let p = span(tokens) as int;
    let limit = match_limit(data, p);
    let best = choose|x: int| is_best(data, p, x);
    if is_best(data, p, best) && p - best < 0x1_ffff {
        lemma_extended(data, best, p, 3, limit);
        lemma_match_end(data, best, p, 3, limit);
        lemma_u24_at_equal(data, best, p);
        assert(p - (p - best) == best);
    }
}

/// Where the tokens before a plan end: at the end of the data or where compression is
/// given up.
proof fn lemma_front(level: CompressionLevel, data: Seq<u8>, tokens: Seq<Token>) -> (all: Seq<
    Token,
>)
    requires
        span(tokens) <= data.len(),
        planned(level, data, tokens),
        forall|k: int|
            0 <= k < tokens.len() && span(#[trigger] tokens.take(k)) + 10 < data.len()
                ==> !gives_up(level, data, tokens.take(k)),
    ensures
        planned(level, data, all),
        forall|k: int|
            0 <= k < all.len() && span(#[trigger] all.take(k)) + 10 < data.len() ==> !gives_up(
                level,
                data,
                all.take(k),
            ),
        match plan(level, data, tokens) {
            Some(whole) => all == whole,
            None => span(all) + 10 < data.len() && gives_up(level, data, all),
        },
    decreases data.len() - span(tokens),
{
    let p = span(tokens) as int;
    let n = tokens.len() as int;
    if p + 10 >= data.len() {
        crate::roundtrip::lemma_plan_planned(level, data, tokens);
        let all = tokens + literals(data.skip(p));
        assert forall|k: int|
            0 <= k < all.len() && span(#[trigger] all.take(k)) + 10 < data.len() implies !gives_up(
            level,
            data,
            all.take(k),
        ) by {
            if k < n {
                assert(all.take(k) =~= tokens.take(k));
            } else {
                let tail = literals(data.skip(p)).take(k - n);
                assert(all.take(k) =~= tokens + tail);
                crate::layout::lemma_span_append(tokens, tail);
            }
        }
        all
    } else if gives_up(level, data, tokens) {
        tokens
    } else {
        let token = next_token(level, data, tokens);
        let all = tokens.push(token);
        lemma_next_width(level, data, tokens);
        assert forall|i: int| 0 <= i < all.len() implies #[trigger] in_plan(
            level,
            data,
            all,
            i,
        ) by {
            if i < n {
                assert(in_plan(level, data, tokens, i));
                assert(all.take(i) =~= tokens.take(i));
            } else {
                assert(all.take(i) =~= tokens);
            }
        }
        assert forall|k: int|
            0 <= k < all.len() && span(#[trigger] all.take(k)) + 10 < data.len() implies !gives_up(
            level,
            data,
            all.take(k),
        ) by {
            if k < n {
                assert(all.take(k) =~= tokens.take(k));
            } else {
                assert(all.take(k) =~= tokens);
            }
        }
        lemma_front(level, data, all)
    }
}

/// Giving up, counted in bytes.
pub proof fn lemma_gives_up(level: CompressionLevel, data: Seq<u8>, tokens: Seq<Token>)
    ensures
        ({
            let p = span(tokens) as int;
            let n: int = if data.len() < 216 {
                3
            } else {
                9
            };
            gives_up(level, data, tokens) <==> {
                &&& tokens.len() > 0
                &&& tokens.len() % 31 == 0
                &&& p > 3 * (data.len() / 4)
                &&& n + items(level, tokens).len() + 4 * (tokens.len() / 31) > p - p / 32
            }
        }),
{
    lemma_frames_len(level, tokens);
    if tokens.len() > 0 && tokens.len() % 31 == 0 {
        assert(groups(tokens.len()) == tokens.len() / 31);
    }
}

/// The parts of a stream.
pub proof fn lemma_parts(data: Seq<u8>, level: CompressionLevel)
    requires
        data.len() <= 0xffff_fe6f,
    ensures
        ({
            let stream = compressed(data, level);
            let n: int = if data.len() < 216 {
                3
            } else {
                9
            };
            match plan(level, data, Seq::empty()) {
                Some(all) => {
                    &&& stream[0] % 2 == 1
                    &&& stream.skip(n) == frames(level, all)
                    &&& stream.len() == n + frames(level, all).len()
                    &&& span(all) == data.len()
                },
                None => stream[0] % 2 == 0 && stream.skip(n) == data,
            }
        }),
{
    let (packed, body) = lemma_stream(data, level);
    let total = header_len(data.len()) + body.len();
    let stream = compressed(data, level);
    lemma_header_sizes(level, packed, total, data.len());
    crate::size::lemma_whole_plan(level, data);
    assert(stream.skip(header_len(data.len()) as int) =~= body);
}

/// The tokens of a stream are those that the data and the tokens before lead to, and
/// literals for the last ten bytes. The data are stored as they are exactly where, behind
/// a complete group, more than three quarters of them are done and the stream is longer
/// than 31 of 32 parts of these.
pub proof fn law_tokens(data: Seq<u8>, level: CompressionLevel) -> (tokens: Seq<Token>)
    requires
        data.len() <= 0xffff_fe6f,
    ensures
        ({
            let stream = compressed(data, level);
            let n: int = if data.len() < 216 {
                3
            } else {
                9
            };
            &&& stream[0] % 2 == 1 ==> {
                &&& span(tokens) == data.len()
                &&& stream.skip(n) == frames(level, tokens)
            }
            &&& stream[0] % 2 == 0 ==> {
                let p = span(tokens) as int;
                &&& stream.skip(n) == data
                &&& tokens.len() > 0
                &&& tokens.len() % 31 == 0
                &&& p + 10 < data.len()
                &&& p > 3 * (data.len() / 4)
                &&& n + items(level, tokens).len() + 4 * (tokens.len() / 31) > p - p / 32
            }
            &&& forall|i: int|
                0 <= i < tokens.len() ==> #[trigger] tokens[i] == {
                    let before = tokens.take(i);
                    if span(before) + 10 < data.len() {
                        next_token(level, data, before)
                    } else {
                        Token::Literal(data[span(before) as int])
                    }
                }
            &&& forall|k: int|
                0 < k < tokens.len() && k % 31 == 0 && span(#[trigger] tokens.take(k)) + 10
                    < data.len() ==> {
                    let p = span(tokens.take(k)) as int;
                    p <= 3 * (data.len() / 4) || n + items(level, tokens.take(k)).len() + 4 * (k
                        / 31) <= p - p / 32
                }
        }),
{
    let tokens = lemma_front(level, data, Seq::empty());
    lemma_parts(data, level);
    lemma_gives_up(level, data, tokens);
    assert forall|i: int| 0 <= i < tokens.len() implies #[trigger] tokens[i] == {
        let before = tokens.take(i);
        if span(before) + 10 < data.len() {
            next_token(level, data, before)
        } else {
            Token::Literal(data[span(before) as int])
        }
    } by {
        assert(in_plan(level, data, tokens, i));
    }
    let n: int = if data.len() < 216 {
        3
    } else {
        9
    };
    assert forall|k: int|
        0 < k < tokens.len() && k % 31 == 0 && span(#[trigger] tokens.take(k)) + 10
            < data.len() implies {
        let p = span(tokens.take(k)) as int;
        p <= 3 * (data.len() / 4) || n + items(level, tokens.take(k)).len() + 4 * (k / 31) <= p - p
            / 32
    } by {
        lemma_gives_up(level, data, tokens.take(k));
        assert(!gives_up(level, data, tokens.take(k)));
    }
    tokens
}

}
