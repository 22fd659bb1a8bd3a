//! Compression.
use vstd::prelude::*;

use crate::level::CompressionLevel;
use crate::search1::Search1;
use crate::search3::Search3;
use crate::writer::{begin_group, write_header, Writer};
#[allow(unused_imports)]
use crate::format::{header_len, span, Token, GROUP};
#[allow(unused_imports)]
use crate::layout::lemma_control_full;
#[allow(unused_imports)]
use crate::matching::{compressed, gives_up, lemma_next_width, literals, next_token, plan, stored};
#[allow(unused_imports)]
use crate::size::{all_fit, lemma_next_fits, lemma_whole_plan};
#[allow(unused_imports)]
use crate::writer::{lemma_group_begun, with_control};

verus! {

/// The longest data that can be compressed.
pub const MAX_DATA_LEN: usize = 0xffff_fe6f;

/// Begins a new group where the last one is full, which an odd control word tells. If
/// compression has turned out too inefficient by then, `dest` is replaced by the stream
/// that holds the data as they are, and the result is `true`.
pub fn check_inefficient(
    control: &mut u32,
    source_pos: usize,
    level: CompressionLevel,
    control_pos: &mut usize,
    dest: &mut Vec<u8>,
    data: &[u8],
) -> (b: bool)
    requires
        *old(control) % 2 == 1 ==> *old(control_pos) + 4 <= old(dest)@.len(),
        data@.len() + 9 <= usize::MAX,
    ensures
        b == (*old(control) % 2 == 1 && source_pos > 3 * (data@.len() / 4) && old(dest)@.len()
            > source_pos - source_pos / 32),
        b ==> {
            &&& final(dest)@ == stored(data@, level)
            &&& *final(control) == *old(control)
            &&& *final(control_pos) == *old(control_pos)
        },
        *old(control) % 2 == 0 ==> {
            &&& final(dest)@ == old(dest)@
            &&& *final(control) == *old(control)
            &&& *final(control_pos) == *old(control_pos)
        },
        !b && *old(control) % 2 == 1 ==> {
            &&& final(dest)@ == with_control(
                old(dest)@,
                *old(control_pos) as int,
                (*old(control) / 2 + 0x8000_0000) as nat,
            ) + seq![0u8, 0, 0, 0]
            &&& *final(control_pos) == old(dest)@.len()
            &&& *final(control) == 0x8000_0000
        },
{
    let bits: u32 = *control;
    assert(bits & 1 == bits % 2) by (bit_vector);
    if bits & 1 != 0 {
        if source_pos > 3 * (data.len() / 4) && dest.len() > source_pos - (source_pos / 32) {
            let headerlen: usize = if data.len() < 216 {
                3
            } else {
                9
            };
            dest.clear();
            dest.reserve(headerlen + data.len());
            dest.resize(headerlen, 0);
            dest.extend_from_slice(data);
            assert(dest@.skip(headerlen as int) =~= data@);
            write_header(dest, headerlen, headerlen + data.len(), data.len(), level, false);
            return true;
        }
        begin_group(control, control_pos, dest);
    }
    false
}

/// Makes room for the next token of a stream, unless compression is given up.
fn check_group(w: &mut Writer, source_pos: usize, data: &[u8]) -> (b: bool)
    requires
        old(w).wf(),
        old(w).complete@.len() > 0 ==> old(w).last@.len() > 0,
        old(w).header_len == header_len(data@.len()),
        source_pos == span(old(w).tokens()),
        data.len() <= MAX_DATA_LEN,
    ensures
        b == gives_up(old(w).level, data@, old(w).tokens()),
        b ==> final(w).dest@ == stored(data@, old(w).level),
        !b ==> {
            &&& final(w).wf()
            &&& final(w).last@.len() == old(w).last@.len() % (GROUP as nat)
            &&& final(w).tokens() == old(w).tokens()
            &&& final(w).level == old(w).level
            &&& final(w).header_len == old(w).header_len
        },
{
    let ghost full = w.last@.len() == GROUP;
    proof {
        w.lemma_len();
        lemma_control_full(w.last@);
    }
    if check_inefficient(
        &mut w.control,
        source_pos,
        w.level,
        &mut w.control_pos,
        &mut w.dest,
        data,
    ) {
        return true;
    }
    proof {
        if full {
            w.complete@ = old(w).tokens();
            w.last@ = Seq::empty();
            lemma_group_begun(*old(w), *w);
        }
    }
    false
}

/// Writes the tokens of level 1 up to the last bytes of the data. The result is how
/// far they reach, or nothing if the data are stored as they are.
fn compress_level_1(w: &mut Writer, data: &[u8]) -> (r: Option<usize>)
    requires
        old(w).wf(),
        old(w).tokens() == Seq::<Token>::empty(),
        old(w).header_len == header_len(data@.len()),
        old(w).level == CompressionLevel::Lvl1,
        data.len() <= MAX_DATA_LEN,
    ensures
        front_written(*old(w), *final(w), data@, r),
{
    let mut search = Search1::new();
    let mut source_pos: usize = 0;
    while source_pos + 10 < data.len()
        invariant
            data.len() <= MAX_DATA_LEN,
            w.wf(),
            w.complete@.len() > 0 ==> w.last@.len() > 0,
            w.level == CompressionLevel::Lvl1,
            w.level == old(w).level,
            w.header_len == header_len(data@.len()),
            w.header_len == old(w).header_len,
            source_pos == span(w.tokens()),
            source_pos <= data.len(),
            all_fit(w.level, w.tokens()),
            plan(w.level, data@, w.tokens()) == plan(w.level, data@, Seq::empty()),
            search.agrees(data@),
            search@ == w.tokens(),
        decreases data.len() - source_pos,
    {
        let ghost tokens = w.tokens();
        if check_group(w, source_pos, data) {
            return None;
        }
        proof {
            lemma_next_width(w.level, data@, tokens);
            lemma_next_fits(w.level, data@, tokens);
            lemma_fits_push(w.level, tokens, next_token(w.level, data@, tokens));
        }
        match search.step(data, source_pos) {
            Some((key, len)) => {
                w.push_reference(key, len);
                source_pos += len as usize;
            },
            None => {
                w.push_literal(data[source_pos]);
                source_pos += 1;
            },
        }
    }
    Some(source_pos)
}

/// Writes the tokens of level 3 up to the last bytes of the data. The result is how
/// far they reach, or nothing if the data are stored as they are.
fn compress_level_3(w: &mut Writer, data: &[u8]) -> (r: Option<usize>)
    requires
        old(w).wf(),
        old(w).tokens() == Seq::<Token>::empty(),
        old(w).header_len == header_len(data@.len()),
        old(w).level == CompressionLevel::Lvl3,
        data.len() <= MAX_DATA_LEN,
    ensures
        front_written(*old(w), *final(w), data@, r),
{
    let mut search = Search3::new();
    let mut source_pos: usize = 0;
    while source_pos + 10 < data.len()
        invariant
            data.len() <= MAX_DATA_LEN,
            w.wf(),
            w.complete@.len() > 0 ==> w.last@.len() > 0,
            w.level == CompressionLevel::Lvl3,
            w.level == old(w).level,
            w.header_len == header_len(data@.len()),
            w.header_len == old(w).header_len,
            source_pos == span(w.tokens()),
            source_pos <= data.len(),
            all_fit(w.level, w.tokens()),
            plan(w.level, data@, w.tokens()) == plan(w.level, data@, Seq::empty()),
            search.agrees(data@),
            search@ == source_pos,
        decreases data.len() - source_pos,
    {
        let ghost tokens = w.tokens();
        if check_group(w, source_pos, data) {
            return None;
        }
        proof {
            lemma_next_width(w.level, data@, tokens);
            lemma_next_fits(w.level, data@, tokens);
            lemma_fits_push(w.level, tokens, next_token(w.level, data@, tokens));
        }
        match search.step(data, source_pos) {
            Some((key, len)) => {
                w.push_reference(key, len);
                source_pos += len as usize;
            },
            None => {
                w.push_literal(data[source_pos]);
                source_pos += 1;
            },
        }
    }
    Some(source_pos)
}

/// Tokens that fit, and one more.
proof fn lemma_fits_push(level: CompressionLevel, tokens: Seq<Token>, token: Token)
    requires
        all_fit(level, tokens),
        token.fits(level),
    ensures
        all_fit(level, tokens.push(token)),
{
    let all = tokens.push(token);
    assert forall|i: int| 0 <= i < all.len() implies #[trigger] all[i].fits(level) by {
        if i < tokens.len() {
            assert(tokens[i].fits(level));
        }
    }
}

/// What the tokens before the last bytes leave behind.
spec fn front_written(before: Writer, after: Writer, data: Seq<u8>, r: Option<usize>) -> bool {
    let level = before.level;
    match r {
        Some(source_pos) => {
            &&& after.wf()
            &&& after.complete@.len() > 0 ==> after.last@.len() > 0
            &&& after.level == level
            &&& after.header_len == before.header_len
            &&& source_pos == span(after.tokens())
            &&& source_pos <= data.len() <= source_pos + 10
            &&& plan(level, data, after.tokens()) == plan(level, data, Seq::empty())
        },
        None => {
            &&& plan(level, data, Seq::empty()) is None
            &&& after.dest@ == stored(data, level)
        },
    }
}

/// Compresses `data` at the given level. Where that is not worth it, the stream holds
/// the data as they are.
pub fn compress(data: &[u8], level: CompressionLevel) -> (dest: Vec<u8>)
    requires
        data.len() <= MAX_DATA_LEN,
    ensures
        dest@ == compressed(data@, level),
{
    let headerlen: usize = if data.len() < 216 {
        3
    } else {
        9
    };
    let mut w = Writer::new(level, headerlen);
    let front = match level {
        CompressionLevel::Lvl1 => compress_level_1(&mut w, data),
        CompressionLevel::Lvl3 => compress_level_3(&mut w, data),
    };
    let mut source_pos: usize = match front {
        Some(pos) => pos,
        None => {
            return w.dest;
        },
    };
    let ghost tokens = w.tokens();
    let ghost start = source_pos as int;
    assert(tokens + literals(data@.subrange(start, start)) =~= tokens);
    while source_pos < data.len()
        invariant
            0 <= start <= source_pos <= data.len(),
            w.wf(),
            w.complete@.len() > 0 ==> w.last@.len() > 0,
            w.level == level,
            w.header_len == headerlen,
            w.tokens() == tokens + literals(data@.subrange(start, source_pos as int)),
        decreases data.len() - source_pos,
    {
        if w.is_full() {
            w.next_group();
        }
        w.push_literal(data[source_pos]);
        source_pos += 1;
        assert(w.tokens() =~= tokens + literals(data@.subrange(start, source_pos as int)));
    }
    assert(data@.subrange(start, source_pos as int) =~= data@.skip(start));
    proof {
        w.lemma_len();
        lemma_whole_plan(level, data@);
    }
    w.finish();
    let dest_len: usize = w.dest.len();
    write_header(&mut w.dest, headerlen, dest_len, data.len(), level, true);
    w.dest
}

}
