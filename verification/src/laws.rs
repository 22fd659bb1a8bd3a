//! What holds of every input that is decompressed.
use vstd::prelude::*;

use crate::encoder::MAX_DATA_LEN;
use crate::level::CompressionLevel;
use crate::state::State;
#[allow(unused_imports)]
use crate::bytes::u24_at;
#[allow(unused_imports)]
use crate::error::{ErrorView, IoError};
#[allow(unused_imports)]
use crate::format::reference_of;
#[allow(unused_imports)]
use crate::matching::compressed;
#[allow(unused_imports)]
use crate::reference::{copied, lemma_copied_len};
#[allow(unused_imports)]
use crate::roundtrip::law_roundtrip;
#[allow(unused_imports)]
use crate::state::{decompressed, is_long, run, sizes_of, Outcome, Phase};
#[allow(unused_imports)]
use crate::table::{hash_at, hashed, law_hash_in_table, HASHTABLE_SIZE};

verus! {

/// Entering positions keeps the size of a table.
proof fn lemma_hashed_len(table: Seq<u32>, s: Seq<u8>, start: int, end: int)
    requires
        table.len() == HASHTABLE_SIZE,
    ensures
        hashed(table, s, start, end).len() == table.len(),
    decreases end - start,
{
    if start < end {
        lemma_hashed_len(table, s, start, end - 1);
        law_hash_in_table(u24_at(s, end - 1));
    }
}

/// A reference keeps the sizes, and the data within them.
proof fn lemma_reference_wf(s: State, bytes: Seq<u8>)
    requires
        s.wf(),
    ensures
        s.feed_reference(bytes) matches Ok(next) ==> next.wf() && next.max_size == s.max_size
            && next.dec_size == s.dec_size && !(next.phase is Flags) && !(next.phase is Sizes),
{
    let (key, len) = reference_of(s.level, bytes);
    lemma_copied_len(s.out, s.table[key as int] as int, len);
    lemma_copied_len(s.out, s.out.len() - key, len);
    let out = copied(s.out, s.table[key as int] as int, len);
    lemma_hashed_len(s.table, out, s.next_hashed, out.len() + 1 - len);
}

/// Every step keeps what should hold of a state, and the size that is accepted. Behind
/// the header the size of the data stays too.
pub proof fn law_feed_wf(s: State, bytes: Seq<u8>)
    requires
        s.wf(),
        bytes.len() == s.needed(),
    ensures
        s.feed(bytes) matches Ok(next) ==> {
            &&& next.wf()
            &&& next.max_size == s.max_size
            &&& !(next.phase is Flags)
            &&& s.phase is Flags || !(next.phase is Sizes)
            &&& s.phase is Flags || s.phase is Sizes || next.dec_size == s.dec_size
        },
{
    match s.phase {
        Phase::Head => {
            lemma_reference_wf(s, bytes);
        },
        Phase::Extra { head } => {
            lemma_reference_wf(s, seq![head] + bytes);
        },
        Phase::Literal => {
            let out = s.out.push(bytes[0]);
            lemma_hashed_len(s.table, out, s.next_hashed, out.len() - 2);
        },
        _ => {},
    }
}

/// Behind the header, the data come out in the size that the header tells.
proof fn lemma_run_size(s: State, input: Seq<u8>)
    requires
        s.wf(),
        !(s.phase is Flags),
        !(s.phase is Sizes),
    ensures
        run(s, input).result matches Ok(data) ==> data.len() == s.dec_size,
    decreases input.len(),
{
    let n = s.needed() as int;
    if 0 < n <= input.len() {
        law_feed_wf(s, input.take(n));
        match s.feed(input.take(n)) {
            Ok(next) => {
                lemma_run_size(next, input.skip(n));
            },
            Err(_) => {},
        }
    }
}

/// Decompressed data have the size that the header tells, and that is not larger than
/// what is accepted.
pub proof fn law_size_limit(input: Seq<u8>, max_size: u32)
    ensures
        decompressed(input, max_size).result matches Ok(data) ==> {
            let n: int = if is_long(input[0]) {
                9
            } else {
                3
            };
            &&& n <= input.len()
            &&& data.len() == sizes_of(input[0], input.subrange(1, n)).1
            &&& data.len() <= max_size
        },
{
    let start = State::start(max_size);
    if input.len() > 0 {
        let first = input.take(1);
        law_feed_wf(start, first);
        if let Ok(s) = start.feed(first) {
            let more = input.skip(1);
            let n = s.needed() as int;
            assert(decompressed(input, max_size) == run(s, more));
            if n <= more.len() {
                assert(more.take(n) =~= input.subrange(1, n + 1));
                law_feed_wf(s, more.take(n));
                if let Ok(next) = s.feed(more.take(n)) {
                    assert(run(s, more) == run(next, more.skip(n)));
                    lemma_run_size(next, more.skip(n));
                }
            }
        }
    }
}

/// Data of a level other than 1 and 3 are refused after the first byte.
pub proof fn law_unsupported_level(input: Seq<u8>, max_size: u32)
    requires
        input.len() > 0,
        input[0] / 4 % 4 != 1,
        input[0] / 4 % 4 != 3,
    ensures
        decompressed(input, max_size) == (Outcome {
            result: Err(ErrorView::UnsupportedLevel),
            rest: input.skip(1),
        }),
{
}

/// What is left of the input from a state on is its end.
proof fn lemma_run_rest(s: State, input: Seq<u8>)
    ensures
        run(s, input).rest.len() <= input.len(),
        run(s, input).rest == input.skip(input.len() - run(s, input).rest.len()),
    decreases input.len(),
{
    let n = s.needed() as int;
    if 0 < n <= input.len() {
        match s.feed(input.take(n)) {
            Ok(next) => {
                lemma_run_rest(next, input.skip(n));
                let rest = run(next, input.skip(n)).rest;
                assert(input.skip(n).skip(input.len() - n - rest.len()) =~= input.skip(
                    input.len() - rest.len(),
                ));
            },
            Err(_) => {},
        }
    } else {
        assert(input.skip(0) =~= input);
    }
}

/// The input is read from the front: what is left of it is its end.
pub proof fn law_rest_is_end(input: Seq<u8>, max_size: u32)
    ensures
        ({
            let rest = decompressed(input, max_size).rest;
            rest.len() <= input.len() && rest == input.skip(input.len() - rest.len())
        }),
{
    lemma_run_rest(State::start(max_size), input);
}

/// Unless the input ended too early, the result from a state on is the same with more
/// input.
proof fn lemma_run_extended(s: State, input: Seq<u8>, more: Seq<u8>)
    requires
        run(s, input).result != Err::<Seq<u8>, ErrorView>(ErrorView::Io(IoError::UnexpectedEof)),
    ensures
        run(s, input + more) == (Outcome {
            result: run(s, input).result,
            rest: run(s, input).rest + more,
        }),
    decreases input.len(),
{
    let n = s.needed() as int;
    if 0 < n <= input.len() {
        assert((input + more).take(n) =~= input.take(n));
        assert((input + more).skip(n) =~= input.skip(n) + more);
        match s.feed(input.take(n)) {
            Ok(next) => {
                lemma_run_extended(next, input.skip(n), more);
            },
            Err(_) => {},
        }
    }
}

/// What follows a stream in the input changes nothing: unless the input ended too early,
/// the result is the same with more input, which is left.
pub proof fn law_more_input(input: Seq<u8>, more: Seq<u8>, max_size: u32)
    requires
        decompressed(input, max_size).result != Err::<Seq<u8>, ErrorView>(
            ErrorView::Io(IoError::UnexpectedEof),
        ),
    ensures
        decompressed(input + more, max_size) == (Outcome {
            result: decompressed(input, max_size).result,
            rest: decompressed(input, max_size).rest + more,
        }),
{
    lemma_run_extended(State::start(max_size), input, more);
}

/// A stream of which the end is missing is refused: the input ended too early.
pub proof fn law_truncated(data: Seq<u8>, level: CompressionLevel, max_size: u32, n: int)
    requires
        data.len() <= MAX_DATA_LEN,
        data.len() <= max_size,
        0 <= n < compressed(data, level).len(),
    ensures
        decompressed(compressed(data, level).take(n), max_size).result == Err::<
            Seq<u8>,
            ErrorView,
        >(ErrorView::Io(IoError::UnexpectedEof)),
{
    let stream = compressed(data, level);
    let none = Seq::<u8>::empty();
    law_roundtrip(data, level, max_size, none);
    assert(stream + none =~= stream);
    assert(stream.take(n) + stream.skip(n) =~= stream);
    if decompressed(stream.take(n), max_size).result != Err::<Seq<u8>, ErrorView>(
        ErrorView::Io(IoError::UnexpectedEof),
    ) {
        law_more_input(stream.take(n), stream.skip(n), max_size);
        let rest = decompressed(stream.take(n), max_size).rest;
        assert((rest + stream.skip(n)).len() > 0);
    }
}

/// What is read alike comes from the same data: different data are compressed to
/// different streams, at whatever levels.
pub proof fn law_compress_injective(
    a: Seq<u8>,
    b: Seq<u8>,
    level_a: CompressionLevel,
    level_b: CompressionLevel,
)
    requires
        a.len() <= MAX_DATA_LEN,
        b.len() <= MAX_DATA_LEN,
        compressed(a, level_a) == compressed(b, level_b),
    ensures
        a == b,
{
    law_roundtrip(a, level_a, u32::MAX, Seq::empty());
    law_roundtrip(b, level_b, u32::MAX, Seq::empty());
}

/// Data that are not compressed are returned as they are, without the header, whatever
/// the other flags are.
#[verifier::rlimit(50)]
pub proof fn law_stored(input: Seq<u8>, max_size: u32)
    requires
        input.len() > 0,
        input[0] % 2 == 0,
        input[0] / 4 % 4 == 1 || input[0] / 4 % 4 == 3,
    ensures
        ({
            let n: int = if is_long(input[0]) {
                9
            } else {
                3
            };
            let (comp, dec) = sizes_of(input[0], input.subrange(1, n));
            n <= input.len() && comp == n + dec && dec <= max_size && comp <= input.len()
                ==> decompressed(input, max_size) == (Outcome {
                result: Ok(input.subrange(n, n + dec)),
                rest: input.skip(n + dec),
            })
        }),
{
    let start = State::start(max_size);
    let n: int = if is_long(input[0]) {
        9
    } else {
        3
    };
    let (comp, dec) = sizes_of(input[0], input.subrange(1, n));
    if n <= input.len() && comp == n + dec && dec <= max_size && comp <= input.len() {
        let more = input.skip(1);
        let behind = more.skip(n - 1);
        let s = State { phase: Phase::Sizes { flags: input[0] }, ..start };
        assert(start.feed(input.take(1)) == Ok::<State, ErrorView>(s));
        assert(run(start, input) == run(s, more));
        assert(more.take(n - 1) =~= input.subrange(1, n));
        assert(behind =~= input.skip(n));
        let next = s.feed_sizes(input[0], (comp, dec))->Ok_0;
        assert(run(s, more) == run(next, behind));
        assert(behind.skip(dec as int) =~= input.skip(n + dec));
        if dec > 0 {
            assert(behind.take(dec as int) =~= input.subrange(n, n + dec));
            let done = State { out: behind.take(dec as int), phase: Phase::Done, ..next };
            assert(next.feed(behind.take(dec as int)) == Ok::<State, ErrorView>(done));
            assert(run(next, behind) == run(done, behind.skip(dec as int)));
        } else {
            assert(input.subrange(n, n + dec) =~= Seq::empty());
            assert(behind =~= input.skip(n + dec));
        }
    }
}

/// After positions were entered into a table, each hash leads to the last of them that
/// has it, and where there is none to what it led to before.
#[verifier::rlimit(50)]
pub proof fn law_hashed(table: Seq<u32>, s: Seq<u8>, start: int, end: int, h: int)
    requires
        table.len() == HASHTABLE_SIZE,
        0 <= h < HASHTABLE_SIZE,
    ensures
        hashed(table, s, start, end).len() == HASHTABLE_SIZE,
        (forall|i: int| start <= i < end ==> #[trigger] hash_at(s, i) != h) ==> hashed(
            table,
            s,
            start,
            end,
        )[h] == table[h],
        forall|i: int|
            start <= i < end && #[trigger] hash_at(s, i) == h && (forall|j: int|
                i < j < end ==> #[trigger] hash_at(s, j) != h) ==> hashed(table, s, start, end)[h]
                == i as u32,
    decreases end - start,
{
    lemma_hashed_len(table, s, start, end);
    if start < end {
        law_hashed(table, s, start, end - 1, h);
        law_hash_in_table(u24_at(s, end - 1));
        assert(hash_at(s, end - 1) < HASHTABLE_SIZE);
    }
}

}
