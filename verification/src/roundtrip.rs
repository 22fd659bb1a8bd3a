//! Decompression undoes compression.
use vstd::arithmetic::power2::{
    lemma2_to64, lemma_pow2_pos, lemma_pow2_strictly_increases, lemma_pow2_unfold, pow2,
};
use vstd::prelude::*;

use crate::encoder::MAX_DATA_LEN;
use crate::format::Token;
use crate::level::CompressionLevel;
use crate::state::State;
#[allow(unused_imports)]
use crate::bytes::{law_le_bytes_read_back, le_bytes, lemma_byte_ranges, lemma_le_bytes_len};
#[allow(unused_imports)]
use crate::error::ErrorView;
#[allow(unused_imports)]
use crate::follow::{follows, lemma_fits_front, lemma_literal, lemma_reference};
#[allow(unused_imports)]
use crate::format::{
    control_bits, flags, frames, group, header, header_len, items, law_reference_read_back,
    reference_bytes, reference_of, span, GROUP,
};
#[allow(unused_imports)]
use crate::layout::{
    closed_frames, lemma_control_bits_bound, lemma_items_first, lemma_span_append,
};
#[allow(unused_imports)]
use crate::matching::{compressed, gives_up, lemma_next_width, literals, next_token, plan, stored};
#[allow(unused_imports)]
use crate::size::{all_fit, lemma_next_fits, lemma_span_literals, lemma_whole_plan};
#[allow(unused_imports)]
use crate::state::{decompressed, is_long, level_of, run, sizes_of, Outcome, Phase};

verus! {

/// Whether a token is what the data and the tokens before it lead to.
pub open spec fn in_plan(level: CompressionLevel, data: Seq<u8>, tokens: Seq<Token>, i: int) -> bool {
    let before = tokens.take(i);
    let p = span(before) as int;
    tokens[i] == if p + 10 < data.len() {
        next_token(level, data, before)
    } else {
        Token::Literal(data[p])
    }
}

/// Whether all tokens are what the data lead to.
pub open spec fn planned(level: CompressionLevel, data: Seq<u8>, tokens: Seq<Token>) -> bool {
    forall|i: int| 0 <= i < tokens.len() ==> #[trigger] in_plan(level, data, tokens, i)
}

/// The tokens that data are compressed to are what the data lead to.
pub proof fn lemma_plan_planned(level: CompressionLevel, data: Seq<u8>, tokens: Seq<Token>)
    requires
        planned(level, data, tokens),
        span(tokens) <= data.len(),
    ensures
        plan(level, data, tokens) matches Some(all) ==> planned(level, data, all),
    decreases data.len() - span(tokens),
{
    let p = span(tokens) as int;
    let n = tokens.len() as int;
    if p + 10 >= data.len() {
        let tail = literals(data.skip(p));
        let all = tokens + tail;
        assert forall|i: int| 0 <= i < all.len() implies #[trigger] in_plan(
            level,
            data,
            all,
            i,
        ) by {
            if i < n {
                assert(in_plan(level, data, tokens, i));
                assert(all.take(i) =~= tokens.take(i));
            } else {
                let front = data.subrange(p, p + (i - n));
                assert(all.take(i) =~= tokens + literals(front));
                lemma_span_append(tokens, literals(front));
                lemma_span_literals(front);
            }
        }
    } else if !gives_up(level, data, tokens) {
        let token = next_token(level, data, tokens);
        let all = tokens.push(token);
        lemma_next_width(level, data, tokens);
        assert forall|i: int| 0 <= i < all.len() implies #[trigger] in_plan(
            level,
            data,
            all,
            i,
        ) by {
            if i < n {
                assert(in_plan(level, data, tokens, i));
                assert(all.take(i) =~= tokens.take(i));
            } else {
                assert(all.take(i) =~= tokens);
            }
        }
        lemma_plan_planned(level, data, all);
    }
}

/// The bytes and the bits of literals.
proof fn lemma_literals(level: CompressionLevel, s: Seq<u8>)
    ensures
        items(level, literals(s)) == s,
        control_bits(literals(s)) == 0,
    decreases s.len(),
{
    if s.len() > 0 {
        lemma_literals(level, s.drop_last());
        lemma_literals(level, s.skip(1));
        assert(literals(s).drop_last() =~= literals(s.drop_last()));
        assert(literals(s).skip(1) =~= literals(s.skip(1)));
        assert(items(level, literals(s)) =~= s);
    } else {
        assert(items(level, literals(s)) =~= s);
    }
}

/// One step of reading, where the bytes that are needed are there.
proof fn lemma_run_step(s: State, bytes: Seq<u8>, rest: Seq<u8>)
    requires
        s.needed() == bytes.len(),
        bytes.len() > 0,
    ensures
        run(s, bytes + rest) == match s.feed(bytes) {
            Ok(next) => run(next, rest),
            Err(e) => Outcome { result: Err(e), rest },
        },
{
    assert((bytes + rest).take(bytes.len() as int) =~= bytes);
    assert((bytes + rest).skip(bytes.len() as int) =~= rest);
}

proof fn lemma_pow2_zero()
    ensures
        pow2(0) == 1,
{
    lemma2_to64();
}

/// Reading one of the last bytes of the data.
proof fn lemma_last_byte(s: State, data: Seq<u8>, next: State, more: Seq<u8>)
    requires
        s.out.len() < data.len(),
        s.out == data.take(s.out.len() as int),
        s.phase == Phase::Last,
        next == (State {
            out: data.take(s.out.len() as int + 1),
            control: s.control / 2,
            ..s
        }),
    ensures
        run(s, seq![data[s.out.len() as int]] + more) == run(next.last(), more),
{
    let p = s.out.len() as int;
    let bytes = seq![data[p]];
    lemma_run_step(s, bytes, more);
    assert(s.out.push(data[p]) =~= next.out);
    assert(s.feed(bytes) == Ok::<State, ErrorView>(next.last()));
}

/// Reading the last bytes of the data, where no control word comes between them.
proof fn lemma_tail(s: State, data: Seq<u8>, rest: Seq<u8>)
    requires
        s.out.len() <= data.len(),
        s.out == data.take(s.out.len() as int),
        s.dec_size == data.len(),
        s.control == 0 || s.control >= pow2((data.len() - s.out.len()) as nat),
    ensures
        run(s.last(), data.skip(s.out.len() as int) + rest) == (Outcome { result: Ok(data), rest }),
    decreases data.len() - s.out.len(),
{
    let p = s.out.len() as int;
    if p < data.len() {
        let n = (data.len() - p) as nat;
        lemma_pow2_unfold(n);
        lemma_pow2_pos((n - 1) as nat);
        let last = State { phase: Phase::Last, ..s };
        assert(s.last() == last);
        let next = State { out: data.take(p + 1), control: s.control / 2, ..last };
        let more = data.skip(p + 1) + rest;
        assert(data.skip(p) + rest =~= seq![data[p]] + more);
        lemma_last_byte(last, data, next, more);
        lemma_tail(next, data, rest);
    } else {
        assert(s.out =~= data);
        assert(data.skip(p) + rest =~= rest);
    }
}

/// Reading the last bytes of the data, where a control word comes before them.
proof fn lemma_tail_word(s: State, data: Seq<u8>, word: Seq<u8>, rest: Seq<u8>)
    requires
        s.out.len() < data.len(),
        s.out == data.take(s.out.len() as int),
        s.dec_size == data.len(),
        s.control == 1,
        word.len() == 4,
    ensures
        run(s.last(), word + (data.skip(s.out.len() as int) + rest)) == (Outcome {
            result: Ok(data),
            rest,
        }),
{
    let p = s.out.len() as int;
    let skip = State { phase: Phase::Skip, ..s };
    let last = State { phase: Phase::Last, ..s };
    let next = State { out: data.take(p + 1), control: 0, ..last };
    assert(s.last() == skip);
    lemma_run_step(skip, word, data.skip(p) + rest);
    assert(skip.feed(word) == Ok::<State, ErrorView>(last));
    let more = data.skip(p + 1) + rest;
    assert(data.skip(p) + rest =~= seq![data[p]] + more);
    lemma_last_byte(last, data, next, more);
    lemma_tail(next, data, rest);
}

/// Reading the last bytes of the data, where a control word comes behind `n` of them.
proof fn lemma_tail_skip(s: State, data: Seq<u8>, n: nat, word: Seq<u8>, rest: Seq<u8>)
    requires
        s.out.len() + n < data.len(),
        s.out == data.take(s.out.len() as int),
        s.dec_size == data.len(),
        s.control == pow2(n),
        word.len() == 4,
    ensures
        run(
            s.last(),
            data.subrange(s.out.len() as int, s.out.len() as int + n) + (word + (data.skip(
                s.out.len() as int + n,
            ) + rest)),
        ) == (Outcome { result: Ok(data), rest }),
    decreases n,
{
    let p = s.out.len() as int;
    let last = State { phase: Phase::Last, ..s };
    let next = State { out: data.take(p + 1), control: s.control / 2, ..last };
    let behind = word + (data.skip(p + n) + rest);
    if n > 0 {
        lemma_pow2_unfold(n);
        lemma_pow2_pos((n - 1) as nat);
        assert(s.last() == last);
        let more = data.subrange(p + 1, p + n) + behind;
        assert(data.subrange(p, p + n) + behind =~= seq![data[p]] + more);
        lemma_last_byte(last, data, next, more);
        lemma_tail_skip(next, data, (n - 1) as nat, word, rest);
    } else {
        lemma_pow2_zero();
        assert(data.subrange(p, p + n) + behind =~= behind);
        lemma_tail_word(s, data, word, rest);
    }
}

/// From the last bytes of the data on, all tokens are literals.
proof fn lemma_planned_tail(level: CompressionLevel, data: Seq<u8>, all: Seq<Token>, k: int, i: int)
    requires
        planned(level, data, all),
        0 <= k <= i <= all.len(),
        span(all.take(k)) + 10 >= data.len(),
    ensures
        span(all.take(i)) == span(all.take(k)) + (i - k),
        i < all.len() ==> all[i] == Token::Literal(data[span(all.take(k)) + (i - k)]),
    decreases i,
{
    if i > k {
        lemma_planned_tail(level, data, all, k, i - 1);
        assert(all.take(i).drop_last() =~= all.take(i - 1));
    }
    if i < all.len() {
        assert(in_plan(level, data, all, i));
    }
}

/// The tokens from the last bytes of the data on, of which `n` come first.
proof fn lemma_planned_literals(
    level: CompressionLevel,
    data: Seq<u8>,
    all: Seq<Token>,
    k: int,
    n: nat,
)
    requires
        planned(level, data, all),
        span(all) == data.len(),
        0 <= k,
        k + n <= all.len(),
        span(all.take(k)) + 10 >= data.len(),
    ensures
        all.len() - k == data.len() - span(all.take(k)),
        all.subrange(k, k + n) == literals(
            data.subrange(span(all.take(k)) as int, span(all.take(k)) as int + n),
        ),
        all.skip(k + n) == literals(data.skip(span(all.take(k)) as int + n)),
{
    let p = span(all.take(k)) as int;
    lemma_planned_tail(level, data, all, k, all.len() as int);
    assert(all.take(all.len() as int) =~= all);
    let now = literals(data.subrange(p, p + n));
    let then = literals(data.skip(p + n));
    assert forall|i: int| 0 <= i < n implies #[trigger] all.subrange(k, k + n)[i] == now[i] by {
        lemma_planned_tail(level, data, all, k, k + i);
    }
    assert forall|i: int| 0 <= i < then.len() implies #[trigger] all.skip(k + n)[i]
        == then[i] by {
        lemma_planned_tail(level, data, all, k, k + n + i);
    }
    assert(all.subrange(k, k + n) =~= now);
    assert(all.skip(k + n) =~= then);
}

/// Reading the tokens from the last bytes of the data on, where `n` tokens are left of
/// a group.
proof fn lemma_read_tail(
    level: CompressionLevel,
    data: Seq<u8>,
    all: Seq<Token>,
    k: int,
    n: nat,
    e: nat,
    s: State,
    rest: Seq<u8>,
)
    requires
        planned(level, data, all),
        span(all) == data.len(),
        0 <= k,
        0 < n,
        k + n <= all.len(),
        span(all.take(k)) + 10 >= data.len(),
        s.dec_size == data.len(),
        s.out == data.take(span(all.take(k)) as int),
        n <= e,
        k + n < all.len() ==> e == n,
        s.control == control_bits(all.subrange(k, k + n)) + pow2(e),
    ensures
        run(
            s.next(),
            items(level, all.subrange(k, k + n)) + (closed_frames(level, all.skip(k + n)) + rest),
        ) == (Outcome { result: Ok(data), rest }),
{
    let p = span(all.take(k)) as int;
    let now = data.subrange(p, p + n);
    let then = data.skip(p + n);
    lemma_planned_literals(level, data, all, k, n);
    lemma_literals(level, now);
    lemma_literals(level, then);
    lemma_pow2_pos((e - 1) as nat);
    lemma_pow2_unfold(e);
    assert(s.next() == s.last());
    if k + n < all.len() {
        let word = le_bytes(0x8000_0000, 4);
        lemma_le_bytes_len(0x8000_0000, 4);
        assert(closed_frames(level, literals(then)) == word + then);
        assert(word + then + rest =~= word + (then + rest));
        lemma_tail_skip(s, data, n, word, rest);
    } else {
        if n < e {
            lemma_pow2_strictly_increases(n, e);
        }
        assert(now =~= data.skip(p));
        assert(closed_frames(level, literals(then)) + rest =~= rest);
        lemma_tail(s, data, rest);
    }
}

/// What a reference leads to does not depend on how its bytes came.
proof fn lemma_reference_phase(s: State, other: State, bytes: Seq<u8>)
    requires
        other == (State { phase: other.phase, ..s }),
    ensures
        other.feed_reference(bytes) == s.feed_reference(bytes),
{
    let (key, len) = reference_of(s.level, bytes);
    assert(other.copy(s.table[key as int] as int, len) == s.copy(s.table[key as int] as int, len));
    assert(other.copy(s.out.len() - key, len) == s.copy(s.out.len() - key, len));
}

/// Reading a reference byte by byte.
#[verifier::rlimit(50)]
proof fn lemma_read_reference(s: State, key: nat, len: nat, next: State, more: Seq<u8>)
    requires
        s.phase == Phase::Head,
        crate::format::reference_fits(s.level, key, len),
        s.feed_reference(reference_bytes(s.level, key, len)) == Ok::<State, ErrorView>(next),
    ensures
        run(s, reference_bytes(s.level, key, len) + more) == run(next, more),
{
    let bytes = reference_bytes(s.level, key, len);
    law_reference_read_back(s.level, key, len);
    let head = bytes[0];
    let first = seq![head];
    let extra = bytes.skip(1);
    assert(bytes =~= first + extra);
    if extra.len() == 0 {
        assert(bytes =~= first);
        lemma_run_step(s, bytes, more);
    } else {
        let mid = State { phase: Phase::Extra { head }, ..s };
        assert(bytes + more =~= first + (extra + more));
        lemma_run_step(s, first, extra + more);
        assert(s.feed(first) == Ok::<State, ErrorView>(mid));
        lemma_run_step(mid, extra, more);
        lemma_reference_phase(s, mid, bytes);
        assert(mid.feed(extra) == Ok::<State, ErrorView>(next));
    }
}

/// The first control bit and those that follow.
proof fn lemma_first_bit(tokens: Seq<Token>, e: nat, control: u32)
    requires
        0 < tokens.len() <= e,
        control == control_bits(tokens) + pow2(e),
    ensures
        control != 1,
        control % 2 == tokens[0].bit(),
        control / 2 == control_bits(tokens.skip(1)) + pow2((e - 1) as nat),
{
    lemma_pow2_unfold(e);
    lemma_pow2_pos((e - 1) as nat);
}

/// The first group of those that follow.
proof fn lemma_first_group(level: CompressionLevel, tokens: Seq<Token>, n: nat)
    requires
        tokens.len() > 0,
        n == if tokens.len() <= GROUP {
            tokens.len()
        } else {
            GROUP as nat
        },
    ensures
        closed_frames(level, tokens) == group(level, tokens.take(n as int)) + closed_frames(
            level,
            tokens.skip(n as int),
        ),
{
    if tokens.len() <= GROUP {
        assert(tokens.take(n as int) =~= tokens);
        assert(closed_frames(level, tokens) =~= group(level, tokens) + closed_frames(
            level,
            tokens.skip(n as int),
        ));
    }
}

/// Reading a control word.
proof fn lemma_read_control(s: State, tokens: Seq<Token>, next: State, more: Seq<u8>)
    requires
        tokens.len() <= GROUP,
        s.phase == Phase::Control,
        next == (State { control: (control_bits(tokens) + 0x8000_0000) as u32, ..s }),
    ensures
        run(s, le_bytes(control_bits(tokens) + 0x8000_0000, 4) + more) == run(next.next(), more),
        next.control == control_bits(tokens) + pow2(31),
{
    let word = control_bits(tokens) + 0x8000_0000;
    lemma2_to64();
    lemma_byte_ranges();
    lemma_control_bits_bound(tokens);
    if tokens.len() < GROUP {
        lemma_pow2_strictly_increases(tokens.len(), 31);
    }
    law_le_bytes_read_back(word, 4);
    lemma_run_step(s, le_bytes(word, 4), more);
    assert(next.dispatch() == next.next());
    assert(s.feed(le_bytes(word, 4)) == Ok::<State, ErrorView>(next.next()));
}

/// What is left of a stream from the `k`th token on, where `n` tokens are left of a
/// group.
spec fn left(level: CompressionLevel, all: Seq<Token>, k: int, n: nat, rest: Seq<u8>) -> Seq<u8> {
    items(level, all.subrange(k, k + n)) + (closed_frames(level, all.skip(k + n)) + rest)
}

/// The number of tokens of the group that begins with the `k`th token.
spec fn group_len(all: Seq<Token>, k: int) -> nat {
    if all.len() - k <= GROUP {
        (all.len() - k) as nat
    } else {
        GROUP as nat
    }
}

/// Reading the control word of the group that begins with the `k`th token.
proof fn lemma_group_step(
    level: CompressionLevel,
    all: Seq<Token>,
    k: int,
    s: State,
    rest: Seq<u8>,
) -> (next: State)
    requires
        0 <= k < all.len(),
        s.control == 1,
    ensures
        next == (State { control: next.control, phase: next.phase, ..s }),
        next.control == control_bits(all.subrange(k, k + group_len(all, k))) + pow2(31),
        run(s.next(), left(level, all, k, 0, rest)) == run(
            next.next(),
            left(level, all, k, group_len(all, k), rest),
        ),
{
    let n = group_len(all, k);
    let then = all.skip(k);
    let first = all.subrange(k, k + n);
    let word = le_bytes(control_bits(first) + 0x8000_0000, 4);
    let more = left(level, all, k, n, rest);
    assert(then.take(n as int) =~= first);
    assert(then.skip(n as int) =~= all.skip(k + n));
    lemma_first_group(level, then, n);
    assert(all.skip(k + 0) =~= then);
    assert(items(level, all.subrange(k, k + 0)) =~= Seq::empty());
    assert(left(level, all, k, 0, rest) =~= word + more);
    let at = State { phase: Phase::Control, ..s };
    let next = State { control: (control_bits(first) + 0x8000_0000) as u32, ..at };
    lemma_read_control(at, first, next, more);
    next
}

/// The bytes of the `k`th token come first.
proof fn lemma_left(level: CompressionLevel, all: Seq<Token>, k: int, n: nat, rest: Seq<u8>)
    requires
        0 <= k,
        0 < n,
        k + n <= all.len(),
    ensures
        left(level, all, k, n, rest) == all[k].bytes(level) + left(
            level,
            all,
            k + 1,
            (n - 1) as nat,
            rest,
        ),
        all.subrange(k, k + n)[0] == all[k],
        all.subrange(k, k + n).skip(1) == all.subrange(k + 1, k + 1 + (n - 1)),
{
    let now = all.subrange(k, k + n);
    let later = all.subrange(k + 1, k + 1 + (n - 1));
    assert(now.skip(1) =~= later);
    lemma_items_first(level, now);
    assert(all.skip(k + n) =~= all.skip(k + 1 + (n - 1)));
    assert(left(level, all, k, n, rest) =~= all[k].bytes(level) + left(
        level,
        all,
        k + 1,
        (n - 1) as nat,
        rest,
    ));
}

/// Reading a token before the last bytes of the data.
proof fn lemma_token_step(
    level: CompressionLevel,
    data: Seq<u8>,
    tokens: Seq<Token>,
    d: nat,
    s: State,
    more: Seq<u8>,
) -> (r: (State, nat))
    requires
        all_fit(level, tokens),
        data.len() <= u32::MAX,
        span(tokens) + 10 < data.len(),
        follows(s, level, data, tokens, d),
        s.control != 1,
        s.control % 2 == next_token(level, data, tokens).bit(),
    ensures
        follows(r.0, level, data, tokens.push(next_token(level, data, tokens)), r.1),
        r.0.control == s.control / 2,
        run(s.next(), next_token(level, data, tokens).bytes(level) + more) == run(
            r.0.next(),
            more,
        ),
{
    lemma_next_fits(level, data, tokens);
    match next_token(level, data, tokens) {
        Token::Literal(b) => {
            let at = State { phase: Phase::Literal, ..s };
            assert(s.next() == at);
            let next_d = lemma_literal(at, level, data, tokens, d);
            let next = at.feed_literal(b);
            assert(b == data[span(tokens) as int]);
            lemma_run_step(at, seq![b], more);
            assert(at.feed(seq![b]) == Ok::<State, ErrorView>(next.next()));
            (next, next_d)
        },
        Token::Reference { key, len } => {
            let at = State { phase: Phase::Head, ..s };
            assert(s.next() == at);
            let next = lemma_reference(at, level, data, tokens, d, key, len);
            lemma_read_reference(at, key, len, next.next(), more);
            (next, 0)
        },
    }
}

/// Reading the tokens from the `k`th on, where `n` tokens are left of a group.
proof fn lemma_read_tokens(
    level: CompressionLevel,
    data: Seq<u8>,
    all: Seq<Token>,
    k: int,
    n: nat,
    e: nat,
    d: nat,
    s: State,
    rest: Seq<u8>,
)
    requires
        planned(level, data, all),
        all_fit(level, all),
        span(all) == data.len(),
        data.len() <= u32::MAX,
        0 <= k,
        k + n <= all.len(),
        span(all.take(k)) < data.len(),
        follows(s, level, data, all.take(k), d),
        n <= e,
        k + n < all.len() ==> e == n,
        s.control == control_bits(all.subrange(k, k + n)) + pow2(e),
    ensures
        run(s.next(), left(level, all, k, n, rest)) == (Outcome { result: Ok(data), rest }),
    decreases all.len() - k, (if n == 0 {
        1int
    } else {
        0
    }),
{
    let before = all.take(k);
    if k == all.len() {
        assert(before =~= all);
    } else if n == 0 {
        lemma_pow2_zero();
        assert(all.subrange(k, k + n) =~= Seq::empty());
        let next = lemma_group_step(level, all, k, s, rest);
        lemma_read_tokens(level, data, all, k, group_len(all, k), 31, d, next, rest);
    } else if span(before) + 10 >= data.len() {
        lemma_read_tail(level, data, all, k, n, e, s, rest);
    } else {
        let more = left(level, all, k + 1, (n - 1) as nat, rest);
        lemma_left(level, all, k, n, rest);
        assert(in_plan(level, data, all, k));
        assert(all.take(k + 1) =~= before.push(all[k]));
        lemma_first_bit(all.subrange(k, k + n), e, s.control);
        lemma_fits_front(level, all, k);
        lemma_next_width(level, data, before);
        let (next, next_d) = lemma_token_step(level, data, before, d, s, more);
        lemma_read_tokens(
            level,
            data,
            all,
            k + 1,
            (n - 1) as nat,
            (e - 1) as nat,
            next_d,
            next,
            rest,
        );
    }
}

/// The first byte of a header tells the level, the length of the header and whether the
/// data are compressed.
proof fn lemma_flags(level: CompressionLevel, is_compressed: bool, long: bool)
    ensures
        level_of(flags(level, is_compressed, long)) == level,
        flags(level, is_compressed, long) / 4 % 4 == level.number(),
        is_long(flags(level, is_compressed, long)) == long,
        flags(level, is_compressed, long) % 2 == (if is_compressed {
            1int
        } else {
            0
        }),
        flags(level, is_compressed, long) / 64 == 1,
{
}

/// The sizes in a header.
pub proof fn lemma_header_sizes(
    level: CompressionLevel,
    is_compressed: bool,
    total: nat,
    size: nat,
)
    requires
        total <= u32::MAX,
        size <= u32::MAX,
        header_len(size) == 3 ==> total < 256,
    ensures
        header(level, is_compressed, total, size).len() == header_len(size),
        header(level, is_compressed, total, size)[0] == flags(
            level,
            is_compressed,
            header_len(size) == 9,
        ),
        sizes_of(
            flags(level, is_compressed, header_len(size) == 9),
            header(level, is_compressed, total, size).skip(1),
        ) == (total as u32, size as u32),
{
    let long = header_len(size) == 9;
    let h = header(level, is_compressed, total, size);
    lemma_flags(level, is_compressed, long);
    lemma_byte_ranges();
    if long {
        law_le_bytes_read_back(total, 4);
        law_le_bytes_read_back(size, 4);
        assert(h.skip(1).take(4) =~= le_bytes(total, 4));
        assert(h.skip(1).skip(4) =~= le_bytes(size, 4));
    } else {
        lemma_le_bytes_len(total, 1);
        lemma_le_bytes_len(size, 1);
    }
}

/// Reading a header.
#[verifier::rlimit(50)]
proof fn lemma_read_header(
    level: CompressionLevel,
    is_compressed: bool,
    total: nat,
    size: nat,
    max_size: u32,
    more: Seq<u8>,
)
    requires
        total <= u32::MAX,
        size <= u32::MAX,
        header_len(size) == 3 ==> total < 256,
    ensures
        ({
            let f = flags(level, is_compressed, header_len(size) == 9);
            let s = State { phase: Phase::Sizes { flags: f }, ..State::start(max_size) };
            run(State::start(max_size), header(level, is_compressed, total, size) + more)
                == match s.feed_sizes(f, (total as u32, size as u32)) {
                Ok(next) => run(next, more),
                Err(e) => Outcome { result: Err(e), rest: more },
            }
        }),
{
    let h = header(level, is_compressed, total, size);
    let f = flags(level, is_compressed, header_len(size) == 9);
    let start = State::start(max_size);
    let s = State { phase: Phase::Sizes { flags: f }, ..start };
    lemma_flags(level, is_compressed, header_len(size) == 9);
    lemma_header_sizes(level, is_compressed, total, size);
    let sizes = h.skip(1);
    assert(h + more =~= seq![f] + (sizes + more));
    lemma_run_step(start, seq![f], sizes + more);
    assert(start.feed(seq![f]) == Ok::<State, ErrorView>(s));
    lemma_run_step(s, sizes, more);
}

/// Reading the body of compressed data.
proof fn lemma_read_body(
    level: CompressionLevel,
    data: Seq<u8>,
    all: Seq<Token>,
    s: State,
    rest: Seq<u8>,
)
    requires
        plan(level, data, Seq::empty()) == Some(all),
        data.len() <= u32::MAX,
        s.level == level,
        s.dec_size == data.len(),
        s.control == 1,
        s.out == Seq::<u8>::empty(),
        s.table == State::start(0).table,
        s.next_hashed == 0,
    ensures
        run(s.next(), frames(level, all) + rest) == (Outcome { result: Ok(data), rest }),
{
    let none = Seq::<Token>::empty();
    lemma_whole_plan(level, data);
    lemma_plan_planned(level, data, none);
    lemma_pow2_zero();
    if all.len() == 0 {
        let at = State { phase: Phase::Control, ..s };
        let next = State { control: 0x8000_0000, ..at };
        assert(frames(level, all) + rest =~= le_bytes(0x8000_0000, 4) + rest);
        lemma_read_control(at, all, next, rest);
        assert(next.next().out =~= data);
    } else {
        assert(all.take(0) =~= none);
        assert(data.take(0) =~= s.out);
        assert(none.take(none.len() - 0) =~= none);
        assert(all.subrange(0, 0) =~= none);
        assert(all.skip(0) =~= all);
        assert(left(level, all, 0, 0, rest) =~= frames(level, all) + rest);
        lemma_read_tokens(level, data, all, 0, 0, 0, 0, s, rest);
    }
}

/// What a stream is made of.
pub proof fn lemma_stream(data: Seq<u8>, level: CompressionLevel) -> (r: (bool, Seq<u8>))
    requires
        data.len() <= MAX_DATA_LEN,
    ensures
        ({
            let total = header_len(data.len()) + r.1.len();
            &&& compressed(data, level) == header(level, r.0, total, data.len()) + r.1
            &&& total <= data.len() + 400
            &&& data.len() < 216 ==> total < 256
            &&& match plan(level, data, Seq::empty()) {
                Some(all) => r.0 && r.1 == frames(level, all),
                None => !r.0 && r.1 == data,
            }
        }),
{
    lemma_whole_plan(level, data);
    match plan(level, data, Seq::empty()) {
        Some(all) => (true, frames(level, all)),
        None => (false, data),
    }
}

/// The state behind a header.
spec fn behind_header(level: CompressionLevel, size: nat, max_size: u32, phase: Phase) -> State {
    State { level, dec_size: size as u32, phase, ..State::start(max_size) }
}

/// Reading the header of data that are accepted.
proof fn lemma_accepted(
    level: CompressionLevel,
    is_compressed: bool,
    total: nat,
    size: nat,
    max_size: u32,
    more: Seq<u8>,
) -> (phase: Phase)
    requires
        header_len(size) <= total <= u32::MAX,
        size <= max_size,
        header_len(size) == 3 ==> total < 256,
        !is_compressed ==> total == header_len(size) + size,
    ensures
        ({
            let s = behind_header(level, size, max_size, phase);
            run(State::start(max_size), header(level, is_compressed, total, size) + more) == run(
                if is_compressed {
                    s.next()
                } else {
                    s
                },
                more,
            )
        }),
        !is_compressed ==> phase == if size == 0 {
            Phase::Done
        } else {
            Phase::Stored
        },
{
    let f = flags(level, is_compressed, header_len(size) == 9);
    lemma_flags(level, is_compressed, header_len(size) == 9);
    lemma_read_header(level, is_compressed, total, size, max_size, more);
    if is_compressed {
        Phase::Sizes { flags: f }
    } else if size == 0 {
        Phase::Done
    } else {
        Phase::Stored
    }
}

/// Reading data that are stored as they are.
proof fn lemma_read_stored(data: Seq<u8>, s: State, rest: Seq<u8>)
    requires
        s.dec_size == data.len(),
        s.out == Seq::<u8>::empty(),
        s.phase == if data.len() == 0 {
            Phase::Done
        } else {
            Phase::Stored
        },
    ensures
        run(s, data + rest) == (Outcome { result: Ok(data), rest }),
{
    if data.len() == 0 {
        assert(data + rest =~= rest);
        assert(data =~= Seq::empty());
    } else {
        lemma_run_step(s, data, rest);
    }
}

/// Data that were compressed are decompressed to what they were, and what follows
/// them in the input is left there.
#[verifier::rlimit(50)]
pub proof fn law_roundtrip(data: Seq<u8>, level: CompressionLevel, max_size: u32, rest: Seq<u8>)
    requires
        data.len() <= MAX_DATA_LEN,
        data.len() <= max_size,
    ensures
        decompressed(compressed(data, level) + rest, max_size) == (Outcome {
            result: Ok(data),
            rest,
        }),
{
    let size = data.len();
    let (packed, body) = lemma_stream(data, level);
    let total = header_len(size) + body.len();
    let more = body + rest;
    assert(compressed(data, level) + rest =~= header(level, packed, total, size) + more);
    let phase = lemma_accepted(level, packed, total, size, max_size, more);
    let s = behind_header(level, size, max_size, phase);
    match plan(level, data, Seq::empty()) {
        Some(all) => {
            lemma_read_body(level, data, all, s, rest);
        },
        None => {
            lemma_read_stored(data, s, rest);
        },
    }
}

/// Data that are larger than what is accepted are refused, with their size.
pub proof fn law_too_large(data: Seq<u8>, level: CompressionLevel, max_size: u32, rest: Seq<u8>)
    requires
        data.len() <= MAX_DATA_LEN,
        data.len() > max_size,
    ensures
        decompressed(compressed(data, level) + rest, max_size).result == Err::<Seq<u8>, ErrorView>(
            ErrorView::SizeLimitExceeded { dec: data.len() as u32, max: max_size },
        ),
{
    let size = data.len();
    let (packed, body) = lemma_stream(data, level);
    let total = header_len(size) + body.len();
    let more = body + rest;
    assert(compressed(data, level) + rest =~= header(level, packed, total, size) + more);
    lemma_read_header(level, packed, total, size, max_size, more);
}

/// A stream is at most 400 bytes longer than its data.
pub proof fn law_compressed_len(data: Seq<u8>, level: CompressionLevel)
    requires
        data.len() <= MAX_DATA_LEN,
    ensures
        compressed(data, level).len() <= data.len() + 400,
{
    let (packed, body) = lemma_stream(data, level);
    let total = header_len(data.len()) + body.len();
    lemma_header_sizes(level, packed, total, data.len());
}

/// The header of a stream tells its level, and the sizes of the stream and of the data.
/// One bit of it is always set, and it is short for less than 216 bytes of data.
pub proof fn law_header(data: Seq<u8>, level: CompressionLevel)
    requires
        data.len() <= MAX_DATA_LEN,
    ensures
        ({
            let stream = compressed(data, level);
            let n = header_len(data.len()) as int;
            &&& n <= stream.len() <= u32::MAX
            &&& stream[0] / 64 == 1
            &&& stream[0] / 4 % 4 == level.number()
            &&& is_long(stream[0]) == (data.len() >= 216)
            &&& sizes_of(stream[0], stream.subrange(1, n)) == (
                stream.len() as u32,
                data.len() as u32,
            )
        }),
{
    let size = data.len();
    let stream = compressed(data, level);
    let n = header_len(size) as int;
    let (packed, body) = lemma_stream(data, level);
    let total = header_len(size) + body.len();
    let h = header(level, packed, total, size);
    lemma_flags(level, packed, header_len(size) == 9);
    lemma_header_sizes(level, packed, total, size);
    assert(stream.subrange(1, n) =~= h.skip(1));
}

}
