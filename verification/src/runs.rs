//! How small data get that consist of one byte again and again.
use vstd::prelude::*;

use crate::format::Token;
use crate::level::CompressionLevel;
#[allow(unused_imports)]
use crate::bytes::u24_at;
#[allow(unused_imports)]
use crate::choices::{
    law_level_1_literal, law_level_1_reference, law_level_3_best, law_level_3_reference,
    lemma_gives_up, lemma_parts,
};
#[allow(unused_imports)]
use crate::fields::{law_reference_written_level_1, law_reference_written_level_3};
#[allow(unused_imports)]
use crate::format::{frames, items, span};
#[allow(unused_imports)]
use crate::layout::lemma_items_push;
#[allow(unused_imports)]
use crate::matching::{
    compressed, gives_up, lemma_next_width, lemma_span_push, literals, next_token, occurrences,
    plan,
};
#[allow(unused_imports)]
use crate::size::{groups, lemma_frames_len, lemma_items_append};
#[allow(unused_imports)]
use crate::table::{hash_at, law_hash_in_table};

verus! {

/// Whether the data are one byte again and again.
spec fn is_run(data: Seq<u8>) -> bool {
    forall|i: int, j: int| 0 <= i < data.len() && 0 <= j < data.len() ==> data[i] == data[j]
}

/// All positions of a run have the same hash.
proof fn lemma_run_hash(data: Seq<u8>, i: int, j: int)
    requires
        is_run(data),
        0 <= i,
        0 <= j,
        i + 2 < data.len(),
        j + 2 < data.len(),
    ensures
        hash_at(data, i) == hash_at(data, j),
{
    assert(data[i] == data[j] && data[i + 1] == data[j + 1] && data[i + 2] == data[j + 2]);
    assert(u24_at(data, i) == u24_at(data, j));
}

/// The end of a plan: literals for the bytes that are left.
proof fn lemma_plan_end(level: CompressionLevel, data: Seq<u8>, tokens: Seq<Token>)
    requires
        span(tokens) <= data.len() <= span(tokens) + 10,
    ensures
        plan(level, data, tokens) matches Some(all) && frames(level, all).len() == items(
            level,
            tokens,
        ).len() + (data.len() - span(tokens)) + 4 * groups(
            (tokens.len() + (data.len() - span(tokens))) as nat,
        ),
{
    let tail = literals(data.skip(span(tokens) as int));
    let all = tokens + tail;
    lemma_frames_len(level, all);
    lemma_items_append(level, tokens, tail);
    lemma_literal_items(level, data.skip(span(tokens) as int));
}

/// A literal takes one byte.
proof fn lemma_literal_items(level: CompressionLevel, s: Seq<u8>)
    ensures
        items(level, literals(s)).len() == s.len(),
    decreases s.len(),
{
    if s.len() > 0 {
        lemma_literal_items(level, s.drop_last());
        assert(literals(s).drop_last() =~= literals(s.drop_last()));
    }
}

/// The tokens that a run leads to at level 1: four literals, and then references.
spec fn run_tokens_1(tokens: Seq<Token>) -> bool {
    let t = tokens.len() as int;
    &&& t <= 4 ==> {
        &&& span(tokens) == t
        &&& items(CompressionLevel::Lvl1, tokens).len() == t
        &&& forall|i: int| 0 <= i < t ==> #[trigger] tokens[i] is Literal
    }
    &&& t > 4 ==> {
        &&& span(tokens) == 4 + 255 * (t - 4)
        &&& items(CompressionLevel::Lvl1, tokens).len() == 4 + 3 * (t - 4)
        &&& span(tokens.take(t - 1)) == span(tokens) - 255
    }
}

/// The next token of a run at level 1.
proof fn lemma_run_next_1(data: Seq<u8>, tokens: Seq<Token>)
    requires
        is_run(data),
        run_tokens_1(tokens),
        span(tokens) + 10 < data.len(),
    ensures
        !gives_up(CompressionLevel::Lvl1, data, tokens),
        match next_token(CompressionLevel::Lvl1, data, tokens) {
            Token::Literal(_) => tokens.len() < 4,
            Token::Reference { key, len } => {
                &&& tokens.len() >= 4
                &&& key < 4096
                &&& 3 <= len <= 255
                &&& len == 255 || span(tokens) + len + 4 == data.len()
                &&& span(tokens) + len + 4 <= data.len()
            },
        },
{
    let p = span(tokens) as int;
    let t = tokens.len() as int;
    lemma_gives_up(CompressionLevel::Lvl1, data, tokens);
    if t % 31 == 0 && t > 0 {
        assert(t >= 31);
    }
    law_hash_in_table(u24_at(data, p));
    if t > 0 {
        let k = t - 1;
        let q = span(tokens.take(k)) as int;
        assert(tokens =~= tokens.take(k).push(tokens[k]));
        lemma_span_push(tokens.take(k), tokens[k]);
        assert(t <= 4 ==> q == p - 1);
        lemma_run_hash(data, q, p);
        assert(data[q] == data[p] && data[q + 1] == data[p + 1] && data[q + 2] == data[p + 2]);
        if t < 4 {
            law_level_1_literal(data, tokens, k);
        } else {
            if t == 4 {
                assert(tokens[t - 1] is Literal && tokens[t - 2] is Literal && tokens[t - 3]
                    is Literal);
                assert(data[p - 3] == data[p - 2] == data[p - 1] == data[p] == data[p + 1]
                    == data[p + 2]);
            }
            law_level_1_reference(data, tokens, k);
            let len = next_token(CompressionLevel::Lvl1, data, tokens)->len;
            assert(data[q + len] == data[p + len]);
        }
    } else {
        law_level_1_literal(data, tokens, -1);
    }
}

/// The numbers of bytes that references to a run take at level 1.
proof fn lemma_run_bound_1(r: int, tail: int, n: int)
    requires
        r >= 1,
        0 <= tail <= 10,
        n > 14 + 255 * (r - 1),
    ensures
        9 + 4 + 3 * r + tail + 4 * ((4 + r + tail + 30) / 31) <= 32 + n / 60,
{
    let g = (4 + r + tail + 30) / 31;
    assert(31 * g <= 44 + r);
}

/// The rest of the plan for a run at level 1.
proof fn lemma_run_plan_1(data: Seq<u8>, tokens: Seq<Token>)
    requires
        is_run(data),
        run_tokens_1(tokens),
        span(tokens) <= data.len(),
        tokens.len() > 4 ==> data.len() > 14 + 255 * (tokens.len() - 5),
    ensures
        plan(CompressionLevel::Lvl1, data, tokens) matches Some(all) && 9 + frames(
            CompressionLevel::Lvl1,
            all,
        ).len() <= 32 + data.len() / 60,
    decreases data.len() - span(tokens),
{
    let level = CompressionLevel::Lvl1;
    let p = span(tokens) as int;
    let n = data.len() as int;
    let t = tokens.len() as int;
    if p + 10 >= n {
        lemma_plan_end(level, data, tokens);
        if t > 4 {
            lemma_run_bound_1(t - 4, n - p, n);
        }
    } else {
        let token = next_token(level, data, tokens);
        let all = tokens.push(token);
        lemma_run_next_1(data, tokens);
        lemma_next_width(level, data, tokens);
        lemma_items_push(level, tokens, token);
        assert(all.take(t) =~= tokens);
        match token {
            Token::Literal(_) => {
                assert forall|i: int| 0 <= i < all.len() implies #[trigger] all[i] is Literal by {
                    if i < t {
                        assert(tokens[i] is Literal);
                    }
                }
                lemma_run_plan_1(data, all);
            },
            Token::Reference { key, len } => {
                law_reference_written_level_1(key, len);
                if len == 255 {
                    lemma_run_plan_1(data, all);
                } else {
                    lemma_plan_end(level, data, all);
                    assert(items(level, all).len() <= items(level, tokens).len() + 3);
                    lemma_run_bound_1(t - 3, 4, n);
                }
            },
        }
    }
}

/// Positions of a run before another all have its hash.
proof fn lemma_run_occurrences(data: Seq<u8>, h: int, p: int)
    requires
        is_run(data),
        0 <= p,
        p + 2 < data.len(),
        h == hash_at(data, 0),
    ensures
        occurrences(data, h, p) == p,
    decreases p,
{
    if p > 0 {
        lemma_run_occurrences(data, h, p - 1);
        lemma_run_hash(data, p - 1, 0);
    }
}

/// The tokens that a run leads to at level 3: three literals, and then references and
/// literals in turn.
spec fn run_tokens_3(tokens: Seq<Token>) -> bool {
    let t = tokens.len() as int;
    let p = span(tokens) as int;
    let r = p / 256;
    let size = items(CompressionLevel::Lvl3, tokens).len();
    ||| p < 3 && t == p && size == p
    ||| p % 256 == 3 && t == 3 + 2 * r && size == 3 + 5 * r
    ||| p % 256 == 2 && t == 2 + 2 * r && size == 2 + 5 * r
}

/// The next token of a run at level 3.
proof fn lemma_run_next_3(data: Seq<u8>, tokens: Seq<Token>)
    requires
        is_run(data),
        run_tokens_3(tokens),
        span(tokens) + 10 < data.len(),
    ensures
        !gives_up(CompressionLevel::Lvl3, data, tokens),
        match next_token(CompressionLevel::Lvl3, data, tokens) {
            Token::Literal(_) => span(tokens) % 256 < 3,
            Token::Reference { key, len } => {
                &&& span(tokens) % 256 == 3
                &&& key == 3
                &&& 3 <= len <= 255
                &&& len == 255 || span(tokens) + len + 4 == data.len()
                &&& span(tokens) + len + 4 <= data.len()
            },
        },
{
    let level = CompressionLevel::Lvl3;
    let p = span(tokens) as int;
    let t = tokens.len() as int;
    let h = hash_at(data, p);
    let n = data.len() as int;
    lemma_gives_up(level, data, tokens);
    if t % 31 == 0 && t > 0 {
        assert(t >= 31);
        assert(p >= 256 * (p / 256) + 2);
    }
    lemma_run_hash(data, p, 0);
    lemma_run_occurrences(data, h, p);
    law_level_3_reference(data, tokens);
    if let Token::Reference { key, len } = next_token(level, data, tokens) {
        lemma_run_occurrences(data, h, p - key);
        assert(data[p - key + len] == data[p + len]);
    }
    if p % 256 == 3 {
        let m: nat = if n - 4 - p < 255 {
            (n - 4 - p) as nat
        } else {
            255
        };
        lemma_run_occurrences(data, h, p - 3);
        assert forall|i: int| 0 <= i < m implies #[trigger] data[p - 3 + i] == data[p + i] by {}
        law_level_3_best(data, tokens, p - 3, m);
        if next_token(level, data, tokens) is Literal {
            let far = choose|far: int|
                {
                    &&& 0 <= far <= p - 0x1_ffff
                    &&& p - #[trigger] occurrences(data, h, far) <= 3
                    &&& m < 255
                    &&& p + m + 4 < data.len()
                    &&& forall|i: int| 0 <= i <= m ==> #[trigger] data[far + i] == data[p + i]
                };
            lemma_run_occurrences(data, h, far);
        }
    }
}

/// The numbers of bytes that references to a run take at level 3.
proof fn lemma_run_bound_3(r: int, tail: int, n: int)
    requires
        r >= 1,
        0 <= tail <= 10,
        n > 13 + 256 * (r - 1),
    ensures
        9 + 3 + 5 * r + tail + 4 * ((3 + 2 * r + tail + 30) / 31) <= 32 + n / 40,
{
    let g = (3 + 2 * r + tail + 30) / 31;
    assert(31 * g <= 43 + 2 * r);
}

/// The rest of the plan for a run at level 3.
proof fn lemma_run_plan_3(data: Seq<u8>, tokens: Seq<Token>)
    requires
        is_run(data),
        run_tokens_3(tokens),
        span(tokens) <= data.len(),
        span(tokens) > 3 ==> data.len() > 13 + 256 * (span(tokens) / 256 - 1),
    ensures
        plan(CompressionLevel::Lvl3, data, tokens) matches Some(all) && 9 + frames(
            CompressionLevel::Lvl3,
            all,
        ).len() <= 32 + data.len() / 40,
    decreases data.len() - span(tokens),
{
    let level = CompressionLevel::Lvl3;
    let p = span(tokens) as int;
    let n = data.len() as int;
    if p + 10 >= n {
        lemma_plan_end(level, data, tokens);
        if p > 3 {
            lemma_run_bound_3(p / 256, n - p, n);
        }
    } else {
        let token = next_token(level, data, tokens);
        let all = tokens.push(token);
        lemma_run_next_3(data, tokens);
        lemma_next_width(level, data, tokens);
        lemma_items_push(level, tokens, token);
        match token {
            Token::Literal(_) => {
                lemma_run_plan_3(data, all);
            },
            Token::Reference { key, len } => {
                law_reference_written_level_3(key, len);
                if len == 255 {
                    lemma_run_plan_3(data, all);
                } else {
                    lemma_plan_end(level, data, all);
                    assert(items(level, all).len() <= items(level, tokens).len() + 4);
                    lemma_run_bound_3(p / 256 + 1, 4, n);
                }
            },
        }
    }
}

/// One byte again and again, however often, is compressed at level 1 to 32 bytes and one
/// more for every 60 bytes at most.
pub proof fn law_equal_bytes_level_1(data: Seq<u8>)
    requires
        data.len() <= 0xffff_fe6f,
        forall|i: int, j: int| 0 <= i < data.len() && 0 <= j < data.len() ==> data[i] == data[j],
    ensures
        compressed(data, CompressionLevel::Lvl1).len() <= 32 + data.len() / 60,
        compressed(data, CompressionLevel::Lvl1)[0] % 2 == 1,
{
    assert(is_run(data));
    lemma_run_plan_1(data, Seq::empty());
    lemma_parts(data, CompressionLevel::Lvl1);
}

/// One byte again and again, however often, is compressed at level 3 to 32 bytes and one
/// more for every 40 bytes at most.
pub proof fn law_equal_bytes_level_3(data: Seq<u8>)
    requires
        data.len() <= 0xffff_fe6f,
        forall|i: int, j: int| 0 <= i < data.len() && 0 <= j < data.len() ==> data[i] == data[j],
    ensures
        compressed(data, CompressionLevel::Lvl3).len() <= 32 + data.len() / 40,
        compressed(data, CompressionLevel::Lvl3)[0] % 2 == 1,
{
    assert(is_run(data));
    lemma_run_plan_3(data, Seq::empty());
    lemma_parts(data, CompressionLevel::Lvl3);
}

}
