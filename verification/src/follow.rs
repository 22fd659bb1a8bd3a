//! Why a stream leads back to the data: the reader follows the writer token by
//! token.
use vstd::prelude::*;

use crate::format::Token;
use crate::level::CompressionLevel;
use crate::state::State;
#[allow(unused_imports)]
use crate::bytes::{lemma_u24_at_equal, u24_at};
#[allow(unused_imports)]
use crate::error::ErrorView;
#[allow(unused_imports)]
use crate::format::{law_reference_read_back, reference_bytes, span};
#[allow(unused_imports)]
use crate::matching::{
    is_best, is_candidate, is_flat, last_start, lemma_extended, lemma_span_push, literal_run,
    literals, match_len, match_limit, next_level_1, next_token,
};
#[allow(unused_imports)]
use crate::reference::copied;
#[allow(unused_imports)]
use crate::search1::lemma_last_start;
#[allow(unused_imports)]
use crate::size::{all_fit, lemma_next_fits};
#[allow(unused_imports)]
use crate::table::{hash_at, hashed, law_hash_in_table, HASHTABLE_SIZE};

verus! {

/// The table with the positions where the tokens begin.
pub open spec fn entered(data: Seq<u8>, tokens: Seq<Token>) -> Seq<u32>
    decreases tokens.len(),
{
    if tokens.len() == 0 {
        Seq::new(HASHTABLE_SIZE as nat, |i: int| 0u32)
    } else {
        let start = span(tokens.drop_last()) as int;
        entered(data, tokens.drop_last()).update(hash_at(data, start), start as u32)
    }
}

/// The table leads to the last position with each hash.
pub proof fn lemma_entered(level: CompressionLevel, data: Seq<u8>, tokens: Seq<Token>, h: int)
    requires
        all_fit(level, tokens),
        span(tokens) <= u32::MAX,
        0 <= h < HASHTABLE_SIZE,
    ensures
        entered(data, tokens).len() == HASHTABLE_SIZE,
        last_start(data, tokens, h) matches Some(q) ==> entered(data, tokens)[h] == q,
    decreases tokens.len(),
{
    if tokens.len() > 0 {
        let before = tokens.drop_last();
        lemma_fits_front(level, tokens, before.len() as int);
        assert(tokens.take(before.len() as int) =~= before);
        lemma_entered(level, data, before, h);
        lemma_last_start(level, data, tokens, h);
        law_hash_in_table(u24_at(data, span(before) as int));
    }
}

/// The front of tokens that fit.
pub proof fn lemma_fits_front(level: CompressionLevel, tokens: Seq<Token>, n: int)
    requires
        all_fit(level, tokens),
        0 <= n <= tokens.len(),
    ensures
        all_fit(level, tokens.take(n)),
{
    assert forall|i: int| 0 <= i < n implies #[trigger] tokens.take(n)[i].fits(level) by {
        assert(tokens[i].fits(level));
    }
}

/// The last tokens are literals, one byte each.
pub proof fn lemma_literal_run_span(tokens: Seq<Token>, d: nat)
    requires
        d <= literal_run(tokens),
    ensures
        d <= tokens.len(),
        span(tokens.take(tokens.len() - d)) + d == span(tokens),
        literal_run(tokens.take(tokens.len() - d)) == literal_run(tokens) - d,
    decreases d,
{
    if d > 0 {
        lemma_literal_run_span(tokens.drop_last(), (d - 1) as nat);
        assert(tokens.drop_last().take(tokens.drop_last().len() - (d - 1)) =~= tokens.take(
            tokens.len() - d,
        ));
    } else {
        assert(tokens.take(tokens.len() as int) =~= tokens);
    }
}

/// A position that is not among the last literals is the last with its hash without
/// them too.
pub proof fn lemma_last_start_front(data: Seq<u8>, tokens: Seq<Token>, h: int, d: nat)
    requires
        d <= literal_run(tokens),
        last_start(data, tokens, h) matches Some(q) && q + d < span(tokens),
    ensures
        d <= tokens.len(),
        last_start(data, tokens.take(tokens.len() - d), h) == last_start(data, tokens, h),
    decreases d,
{
    if d > 0 {
        let before = tokens.drop_last();
        lemma_last_start_front(data, before, h, (d - 1) as nat);
        assert(before.take(before.len() - (d - 1)) =~= tokens.take(tokens.len() - d));
    } else {
        assert(tokens.take(tokens.len() as int) =~= tokens);
    }
}

/// Data that repeat are copied from where they repeat.
pub proof fn lemma_copied_data(data: Seq<u8>, q: int, p: int, len: nat)
    requires
        0 <= q < p,
        p + len <= data.len(),
        forall|i: int| 0 <= i < len ==> #[trigger] data[q + i] == data[p + i],
    ensures
        copied(data.take(p), q, len) == data.take(p + len),
    decreases len,
{
    if len > 0 {
        lemma_copied_data(data, q, p, (len - 1) as nat);
        assert(data[q + (len - 1)] == data[p + (len - 1)]);
        assert(data.take(p + len) =~= data.take(p + len - 1).push(data[p + len - 1]));
    } else {
        assert(data.take(p + 0) =~= data.take(p));
    }
}

/// The data of a match are equal as far as it goes.
pub proof fn lemma_match(data: Seq<u8>, q: int, p: int)
    requires
        0 <= q < p,
        p + 10 < data.len(),
        u24_at(data, q) == u24_at(data, p),
    ensures
        3 <= match_len(data, q, p) <= 255,
        p + match_len(data, q, p) + 4 <= data.len(),
        forall|i: int| 0 <= i < match_len(data, q, p) ==> #[trigger] data[q + i] == data[p + i],
{
    lemma_extended(data, q, p, 3, match_limit(data, p));
    lemma_u24_at_equal(data, q, p);
}

/// Where a match lies directly before in a run of the same byte, the run reaches from
/// three bytes before to the end of the match.
pub proof fn lemma_flat(data: Seq<u8>, p: int, len: nat, i: int)
    requires
        is_flat(data, p),
        forall|j: int| 0 <= j < len ==> #[trigger] data[p - 1 + j] == data[p + j],
        -3 <= i < len,
    ensures
        data[p + i] == data[p - 3],
    decreases i + 3,
{
    if i >= 0 {
        lemma_flat(data, p, len, i - 1);
        assert(data[p - 1 + i] == data[p + i]);
    }
}

/// Whether a reader that has read `tokens` of the stream has the data that they stand
/// for. At level 1 the table lags behind by `d` literals.
pub open spec fn follows(
    s: State,
    level: CompressionLevel,
    data: Seq<u8>,
    tokens: Seq<Token>,
    d: nat,
) -> bool {
    &&& s.level == level
    &&& s.dec_size == data.len()
    &&& s.out == data.take(span(tokens) as int)
    &&& level == CompressionLevel::Lvl1 ==> {
        &&& d <= 2
        &&& d <= literal_run(tokens)
        &&& s.next_hashed == span(tokens) - d
        &&& s.table == entered(data, tokens.take(tokens.len() - d))
    }
}

/// Entering the positions of literals is entering where they begin.
proof fn lemma_hashed_literals(data: Seq<u8>, out: Seq<u8>, tokens: Seq<Token>, d: nat)
    requires
        d <= literal_run(tokens),
        out == data.take(out.len() as int),
        out.len() <= data.len(),
        span(tokens) + 2 <= out.len(),
    ensures
        hashed(
            entered(data, tokens.take(tokens.len() - d)),
            out,
            span(tokens) - d,
            span(tokens) as int,
        ) == entered(data, tokens),
    decreases d,
{
    lemma_literal_run_span(tokens, d);
    if d > 0 {
        let before = tokens.drop_last();
        lemma_hashed_literals(data, out, before, (d - 1) as nat);
        assert(before.take(before.len() - (d - 1)) =~= tokens.take(tokens.len() - d));
        assert(hash_at(out, span(before) as int) == hash_at(data, span(before) as int));
    } else {
        assert(tokens.take(tokens.len() as int) =~= tokens);
    }
}

/// Reading a literal.
pub proof fn lemma_literal(
    s: State,
    level: CompressionLevel,
    data: Seq<u8>,
    tokens: Seq<Token>,
    d: nat,
) -> (next_d: nat)
    requires
        follows(s, level, data, tokens, d),
        span(tokens) < data.len(),
        all_fit(level, tokens),
    ensures
        ({
            let b = data[span(tokens) as int];
            let next = s.feed_literal(b);
            &&& follows(next, level, data, tokens.push(Token::Literal(b)), next_d)
            &&& next.control == s.control / 2
        }),
{
    let p = span(tokens) as int;
    let b = data[p];
    let all = tokens.push(Token::Literal(b));
    let out = s.out.push(b);
    lemma_span_push(tokens, Token::Literal(b));
    assert(all.drop_last() =~= tokens);
    assert(out =~= data.take(p + 1));
    assert(literal_run(all) == literal_run(tokens) + 1);
    if level == CompressionLevel::Lvl1 {
        lemma_literal_run_span(tokens, d);
        if d < 2 {
            assert(all.take(all.len() - (d + 1)) =~= tokens.take(tokens.len() - d));
            d + 1
        } else {
            let front = tokens.take(tokens.len() - 2);
            let first = tokens.take(tokens.len() - 1);
            lemma_literal_run_span(tokens, 1);
            assert(first.drop_last() =~= front);
            assert(hash_at(out, p - 2) == hash_at(data, p - 2));
            assert(hashed(s.table, out, p - 2, p - 2) == s.table);
            assert(hashed(s.table, out, p - 2, p - 1) == entered(data, first));
            assert(all.take(all.len() - 2) =~= first);
            2
        }
    } else {
        0
    }
}

/// Where a reader of level 1 finds the data of a reference.
proof fn lemma_source_level_1(
    s: State,
    data: Seq<u8>,
    tokens: Seq<Token>,
    d: nat,
    key: nat,
    len: nat,
)
    requires
        follows(s, CompressionLevel::Lvl1, data, tokens, d),
        all_fit(CompressionLevel::Lvl1, tokens),
        span(tokens) + 10 < data.len(),
        data.len() <= u32::MAX,
        next_level_1(data, tokens) == (Token::Reference { key, len }),
    ensures
        key < HASHTABLE_SIZE,
        3 <= len <= 255,
        span(tokens) + len + 4 <= data.len(),
        s.table[key as int] < span(tokens),
        forall|i: int|
            0 <= i < len ==> #[trigger] data[s.table[key as int] + i] == data[span(tokens) + i],
{
    let p = span(tokens) as int;
    let h = hash_at(data, p);
    law_hash_in_table(u24_at(data, p));
    let q = last_start(data, tokens, h)->0;
    lemma_last_start(CompressionLevel::Lvl1, data, tokens, h);
    lemma_match(data, q, p);
    let front = tokens.take(tokens.len() - d);
    lemma_literal_run_span(tokens, d);
    lemma_fits_front(CompressionLevel::Lvl1, tokens, tokens.len() - d);
    lemma_entered(CompressionLevel::Lvl1, data, front, h);
    if p - q >= 3 {
        lemma_last_start_front(data, tokens, h, d);
    } else {
        // The last literal that was entered begins a run of the same byte.
        let u = p - 1 - d;
        lemma_literal_run_span(tokens, d + 1);
        assert(front.drop_last() =~= tokens.take(tokens.len() - (d + 1)));
        assert(span(front.drop_last()) == u);
        assert(data[u] == data[p] && data[u + 1] == data[p + 1] && data[u + 2] == data[p + 2]);
        assert(last_start(data, front, h) == Some(u));
        assert forall|i: int| 0 <= i < len implies #[trigger] data[u + i] == data[p + i] by {
            assert forall|j: int| 0 <= j < len implies #[trigger] data[p - 1 + j] == data[p
                + j] by {
                assert(data[q + j] == data[p + j]);
            }
            lemma_flat(data, p, len, i);
            lemma_flat(data, p, len, i - 1 - d);
            assert(p + (i - 1 - d) == u + i);
        }
    }
}

/// Reading a reference.
pub proof fn lemma_reference(
    s: State,
    level: CompressionLevel,
    data: Seq<u8>,
    tokens: Seq<Token>,
    d: nat,
    key: nat,
    len: nat,
) -> (next: State)
    requires
        follows(s, level, data, tokens, d),
        all_fit(level, tokens),
        span(tokens) + 10 < data.len(),
        data.len() <= u32::MAX,
        next_token(level, data, tokens) == (Token::Reference { key, len }),
    ensures
        s.feed_reference(reference_bytes(level, key, len)) == Ok::<State, ErrorView>(next.next()),
        follows(next, level, data, tokens.push(Token::Reference { key, len }), 0),
        next.control == s.control / 2,
{
    let p = span(tokens) as int;
    let token = Token::Reference { key, len };
    let all = tokens.push(token);
    lemma_next_fits(level, data, tokens);
    law_reference_read_back(level, key, len);
    lemma_span_push(tokens, token);
    assert(all.drop_last() =~= tokens);
    assert(all.take(all.len() - 0) =~= all);
    match level {
        CompressionLevel::Lvl1 => {
            lemma_source_level_1(s, data, tokens, d, key, len);
            let q = s.table[key as int] as int;
            lemma_copied_data(data, q, p, len);
            let out = data.take(p + len);
            lemma_hashed_literals(data, out, tokens, d);
            assert(hash_at(out, p) == hash_at(data, p));
            let table = hashed(s.table, out, s.next_hashed, p + 1);
            assert(table == entered(data, all));
            State { out, control: s.control / 2, table, next_hashed: p + len, ..s }
        },
        CompressionLevel::Lvl3 => {
            let o = choose|o: int| is_best(data, p, o);
            assert(is_candidate(data, p, o));
            lemma_match(data, o, p);
            lemma_copied_data(data, o, p, len);
            State { out: data.take(p + len), control: s.control / 2, ..s }
        },
    }
}

}
