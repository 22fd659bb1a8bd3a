//! How long streams get.
use vstd::prelude::*;

use crate::level::CompressionLevel;
#[allow(unused_imports)]
use crate::bytes::{lemma_le_bytes_len, u24_at};
#[allow(unused_imports)]
use crate::format::{frames, group, header_len, items, law_reference_read_back, span, Token, GROUP};
#[allow(unused_imports)]
use crate::layout::lemma_span_append;
#[allow(unused_imports)]
use crate::matching::{
    gives_up, is_best, last_start, lemma_extended, lemma_next_width, literals, match_limit,
    next_token, plan,
};
#[allow(unused_imports)]
use crate::table::{hash_at, law_hash_in_table};

verus! {

/// Whether a stream can hold the tokens.
pub open spec fn all_fit(level: CompressionLevel, tokens: Seq<Token>) -> bool {
    forall|i: int| 0 <= i < tokens.len() ==> #[trigger] tokens[i].fits(level)
}

/// A token takes at most four bytes, and not more than it stands for.
pub proof fn lemma_token_len(level: CompressionLevel, token: Token)
    requires
        token.fits(level),
    ensures
        1 <= token.bytes(level).len() <= 4,
        token.bytes(level).len() <= token.width(),
{
    match token {
        Token::Literal(_) => {},
        Token::Reference { key, len } => {
            law_reference_read_back(level, key, len);
        },
    }
}

/// Tokens take at most four bytes each, and together not more than they stand for.
pub proof fn lemma_items_len(level: CompressionLevel, tokens: Seq<Token>)
    requires
        all_fit(level, tokens),
    ensures
        tokens.len() <= items(level, tokens).len() <= span(tokens),
    decreases tokens.len(),
{
    if tokens.len() > 0 {
        let before = tokens.drop_last();
        assert forall|i: int| 0 <= i < before.len() implies #[trigger] before[i].fits(level) by {
            assert(tokens[i].fits(level));
        }
        lemma_items_len(level, before);
        assert(tokens[tokens.len() - 1].fits(level));
        lemma_token_len(level, tokens.last());
    }
}

/// The number of groups that `n` tokens fill.
pub open spec fn groups(n: nat) -> nat {
    if n == 0 {
        1
    } else {
        (n + 30) / 31
    }
}

/// The bytes of adjoining tokens.
pub proof fn lemma_items_append(level: CompressionLevel, a: Seq<Token>, b: Seq<Token>)
    ensures
        items(level, a + b) == items(level, a) + items(level, b),
    decreases b.len(),
{
    if b.len() == 0 {
        assert(a + b =~= a);
        assert(items(level, a) + items(level, b) =~= items(level, a));
    } else {
        lemma_items_append(level, a, b.drop_last());
        assert((a + b).drop_last() =~= a + b.drop_last());
        assert(items(level, a + b) =~= items(level, a) + items(level, b));
    }
}

/// The body is as long as its tokens and one control word for each group.
pub proof fn lemma_frames_len(level: CompressionLevel, tokens: Seq<Token>)
    ensures
        frames(level, tokens).len() == items(level, tokens).len() + 4 * groups(tokens.len()),
    decreases tokens.len(),
{
    if tokens.len() <= GROUP {
        lemma_le_bytes_len(crate::format::control_bits(tokens) + 0x8000_0000, 4);
    } else {
        let first = tokens.take(GROUP as int);
        let rest = tokens.skip(GROUP as int);
        lemma_frames_len(level, rest);
        lemma_le_bytes_len(crate::format::control_bits(first) + 0x8000_0000, 4);
        assert(tokens =~= first + rest);
        lemma_items_append(level, first, rest);
    }
}

/// Every token that data lead to fits in a stream.
pub proof fn lemma_next_fits(level: CompressionLevel, data: Seq<u8>, tokens: Seq<Token>)
    requires
        span(tokens) + 10 < data.len(),
    ensures
        next_token(level, data, tokens).fits(level),
{
    let p = span(tokens) as int;
    match level {
        CompressionLevel::Lvl1 => {
            law_hash_in_table(u24_at(data, p));
            match last_start(data, tokens, hash_at(data, p)) {
                Some(q) => {
                    lemma_extended(data, q, p, 3, match_limit(data, p));
                },
                None => {},
            }
        },
        CompressionLevel::Lvl3 => {
            let o = choose|o: int| is_best(data, p, o);
            lemma_extended(data, o, p, 3, match_limit(data, p));
        },
    }
}

/// A literal stands for one byte.
pub proof fn lemma_span_literals(s: Seq<u8>)
    ensures
        span(literals(s)) == s.len(),
    decreases s.len(),
{
    if s.len() > 0 {
        lemma_span_literals(s.drop_last());
        assert(literals(s).drop_last() =~= literals(s.drop_last()));
    }
}

/// The length of a stream of the tokens.
pub open spec fn stream_len(level: CompressionLevel, data: Seq<u8>, tokens: Seq<Token>) -> nat {
    header_len(data.len()) + frames(level, tokens).len()
}

/// A stream that compression is going on with is not much longer than the data. It
/// was not where the last control word was complete, and few tokens came since.
pub open spec fn bounded(level: CompressionLevel, data: Seq<u8>, tokens: Seq<Token>) -> bool {
    stream_len(level, data, tokens) <= data.len() + 17 + 4 * since(tokens.len())
}

/// The number of tokens in the last of the groups that `n` tokens fill.
pub open spec fn since(n: nat) -> int {
    if n == 0 {
        0
    } else {
        (n - 1) % 31 + 1
    }
}

/// A token comes into the last group, or into a new one where that is full.
proof fn lemma_groups_next(n: nat)
    ensures
        since(n) <= 31,
        n > 0 && n % 31 == 0 ==> groups(n) * 31 == n && groups(n + 1) == groups(n) + 1 && since(
            n + 1,
        ) == 1,
        n == 0 || n % 31 != 0 ==> groups(n + 1) == groups(n) && since(n + 1) == since(n) + 1,
{
    if n > 0 {
        let q = (n / 31) as int;
        let r = (n % 31) as int;
        assert(n == 31 * q + r);
        if r == 0 {
            assert((n + 30) / 31 == q && (n + 31) / 31 == q + 1);
            assert(n as int % 31 == 0);
        } else {
            assert((n + 30) / 31 == q + 1 && (n + 31) / 31 == q + 1);
            assert((n - 1) % 31 == r - 1);
        }
    }
}

/// Adding a token where compression goes on.
#[verifier::rlimit(50)]
proof fn lemma_bounded_push(level: CompressionLevel, data: Seq<u8>, tokens: Seq<Token>, token: Token)
    requires
        all_fit(level, tokens),
        token.fits(level),
        span(tokens) <= data.len(),
        bounded(level, data, tokens),
        !gives_up(level, data, tokens),
    ensures
        bounded(level, data, tokens.push(token)),
        all_fit(level, tokens.push(token)),
{
    let all = tokens.push(token);
    let n = tokens.len();
    assert(all.drop_last() =~= tokens);
    assert forall|i: int| 0 <= i < all.len() implies #[trigger] all[i].fits(level) by {
        if i < n {
            assert(tokens[i].fits(level));
        }
    }
    lemma_token_len(level, token);
    lemma_items_len(level, tokens);
    lemma_frames_len(level, tokens);
    lemma_frames_len(level, all);
    lemma_groups_next(n);
    let p = span(tokens);
    let size = data.len();
    if n > 0 && n % 31 == 0 {
        if p <= 3 * (size / 4) {
            assert(4 * p <= 3 * size);
        }
    }
}

/// What holds of every plan: its tokens fit, stand for all of the data, and make a
/// stream that is not much longer than the data.
pub proof fn lemma_plan(level: CompressionLevel, data: Seq<u8>, tokens: Seq<Token>)
    requires
        all_fit(level, tokens),
        span(tokens) <= data.len(),
        bounded(level, data, tokens),
    ensures
        plan(level, data, tokens) matches Some(all) ==> {
            &&& all_fit(level, all)
            &&& span(all) == data.len()
            &&& stream_len(level, data, all) <= data.len() + 160
        },
    decreases data.len() - span(tokens),
{
    let p = span(tokens) as int;
    if p + 10 >= data.len() {
        let tail = literals(data.skip(p));
        let all = tokens + tail;
        lemma_span_append(tokens, tail);
        lemma_span_literals(data.skip(p));
        assert forall|i: int| 0 <= i < all.len() implies #[trigger] all[i].fits(level) by {
            if i < tokens.len() {
                assert(tokens[i].fits(level));
            }
        }
        lemma_frames_len(level, tokens);
        lemma_frames_len(level, all);
        lemma_items_append(level, tokens, tail);
        assert forall|i: int| 0 <= i < tail.len() implies #[trigger] tail[i].fits(level) by {}
        lemma_items_len(level, tail);
        lemma_groups_next(tokens.len());
        assert(groups(all.len()) <= groups(tokens.len()) + 1);
    } else if !gives_up(level, data, tokens) {
        let token = next_token(level, data, tokens);
        lemma_next_width(level, data, tokens);
        lemma_next_fits(level, data, tokens);
        lemma_bounded_push(level, data, tokens, token);
        lemma_plan(level, data, tokens.push(token));
    }
}

/// What holds of the plan for all of the data.
pub proof fn lemma_whole_plan(level: CompressionLevel, data: Seq<u8>)
    ensures
        plan(level, data, Seq::empty()) matches Some(all) ==> {
            &&& all_fit(level, all)
            &&& span(all) == data.len()
            &&& stream_len(level, data, all) <= data.len() + 160
            &&& data.len() < 216 ==> stream_len(level, data, all) < 256
        },
{
    let none = Seq::<Token>::empty();
    lemma_frames_len(level, none);
    lemma_plan(level, data, none);
    if let Some(all) = plan(level, data, none) {
        lemma_frames_len(level, all);
        lemma_items_len(level, all);
    }
}

}
