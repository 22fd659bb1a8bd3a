//! What calls of the library give.
use vstd::prelude::*;

use crate::bytes::read_u24;
use crate::decoder::{decompress, Decoder};
use crate::encoder::{check_inefficient, compress};
use crate::error::Error;
use crate::format::Token;
use crate::level::CompressionLevel;
use crate::reference::copy_buffer_bytes;
use crate::table::{hash, update_hashtable, HASHTABLE_SIZE};
use crate::writer::{begin_group, write_control, write_header, Writer};
#[allow(unused_imports)]
use crate::bytes::{law_le_bytes_read_back, le_bytes, lemma_byte_ranges, lemma_le_value_small};
#[allow(unused_imports)]
use crate::choices::law_tokens;
#[allow(unused_imports)]
use crate::error::{decimal, ErrorView};
#[allow(unused_imports)]
use crate::fields::{
    law_hash_bits, law_header_bytes, law_number_bytes, law_reference_written_level_1,
    law_reference_written_level_3,
};
#[allow(unused_imports)]
use crate::format::{frames, span};
#[allow(unused_imports)]
use crate::laws::{law_hashed, law_size_limit};
#[allow(unused_imports)]
use crate::matching::compressed;
#[allow(unused_imports)]
use crate::reference::{law_copied_bytes, lemma_copied_len};
#[allow(unused_imports)]
use crate::roundtrip::{law_roundtrip, law_too_large};
#[allow(unused_imports)]
use crate::runs::{law_equal_bytes_level_1, law_equal_bytes_level_3};
#[allow(unused_imports)]
use crate::state::{decompressed, Phase, State};
#[allow(unused_imports)]
use crate::table::hash_at;

verus! {

/// Decompressing what was compressed gives the data back, and leaves what follows the
/// stream. If the data are larger than what is accepted, the error tells both sizes.
pub proof fn law_compress_decompress<'a>(
    data: &[u8],
    level: CompressionLevel,
    dest: Vec<u8>,
    r: &mut &'a [u8],
    max_size: u32,
    res: Result<Vec<u8>, Error>,
    rest: Seq<u8>,
)
    requires
        data@.len() <= 0xffff_fe6f,
        call_ensures(compress, (data, level), dest),
        call_ensures(decompress, (r, max_size), res),
        old(r)@ == dest@ + rest,
    ensures
        data@.len() <= max_size ==> (res matches Ok(out) && out@ == data@) && final(r)@ == rest,
        data@.len() > max_size ==> (res matches Err(e) && e == (Error::SizeLimitExceeded {
            dec: data@.len() as u32,
            max: max_size,
        })),
{
    if data@.len() <= max_size {
        law_roundtrip(data@, level, max_size, rest);
    } else {
        law_too_large(data@, level, max_size, rest);
    }
}

/// Compressing gives the same bytes each time.
pub proof fn law_compress_again(data: &[u8], level: CompressionLevel, a: Vec<u8>, b: Vec<u8>)
    requires
        call_ensures(compress, (data, level), a),
        call_ensures(compress, (data, level), b),
    ensures
        a@ == b@,
        a@ == compressed(data@, level),
{
}

/// The header of what is compressed: flags, the size of the stream, the size of the data.
pub proof fn law_compress_header(data: &[u8], level: CompressionLevel, dest: Vec<u8>)
    requires
        data@.len() <= 0xffff_fe6f,
        call_ensures(compress, (data, level), dest),
    ensures
        ({
            let s = dest@;
            let number: int = if level == CompressionLevel::Lvl1 {
                1
            } else {
                3
            };
            &&& data@.len() < 216 ==> {
                &&& s.len() >= 3
                &&& s[0] / 2 == 0x20 + 2 * number
                &&& s[1] == s.len()
                &&& s[2] == data@.len()
            }
            &&& data@.len() >= 216 ==> {
                &&& s.len() >= 9
                &&& s[0] / 2 == 0x21 + 2 * number
                &&& s[1] + 0x100 * s[2] + 0x1_0000 * s[3] + 0x100_0000 * s[4] == s.len()
                &&& s[5] + 0x100 * s[6] + 0x1_0000 * s[7] + 0x100_0000 * s[8] == data@.len()
            }
            &&& s[0] % 2 == 0 ==> s == s.take(
                if data@.len() < 216 {
                    3
                } else {
                    9
                },
            ) + data@
        }),
{
    law_header_bytes(data@, level);
}

/// One byte again and again is compressed to a small part of it.
pub proof fn law_compress_equal_bytes(data: &[u8], level: CompressionLevel, dest: Vec<u8>)
    requires
        data@.len() <= 0xffff_fe6f,
        call_ensures(compress, (data, level), dest),
        forall|i: int, j: int|
            0 <= i < data@.len() && 0 <= j < data@.len() ==> data@[i] == data@[j],
    ensures
        level == CompressionLevel::Lvl1 ==> dest@.len() <= 32 + data@.len() / 60,
        level == CompressionLevel::Lvl3 ==> dest@.len() <= 32 + data@.len() / 40,
{
    match level {
        CompressionLevel::Lvl1 => law_equal_bytes_level_1(data@),
        CompressionLevel::Lvl3 => law_equal_bytes_level_3(data@),
    }
}

/// What decompressing gives, and what it leaves of the input. Never are there more data
/// than what is accepted.
pub proof fn law_decompress<'a>(
    r: &mut &'a [u8],
    max_size: u32,
    res: Result<Vec<u8>, Error>,
)
    requires
        call_ensures(decompress, (r, max_size), res),
    ensures
        final(r)@ == decompressed(old(r)@, max_size).rest,
        res matches Ok(out) ==> decompressed(old(r)@, max_size).result == Ok::<
            Seq<u8>,
            ErrorView,
        >(out@) && out@.len() <= max_size,
        res matches Err(e) ==> decompressed(old(r)@, max_size).result == Err::<
            Seq<u8>,
            ErrorView,
        >(e@),
{
    law_size_limit(old(r)@, max_size);
}

/// A decoder begins where decompression does.
pub proof fn law_decoder_new(max_size: u32, d: Decoder)
    requires
        call_ensures(Decoder::new, (max_size,), d),
    ensures
        d@ == State::start(max_size),
{
}

/// A decoder asks for the bytes of its next step.
pub proof fn law_decoder_needed(d: Decoder, n: usize)
    requires
        d@.wf(),
        call_ensures(Decoder::needed, (&d,), n),
    ensures
        n == d@.needed(),
        n == 0 <==> d@.phase == Phase::Done,
{
}

/// A decoder takes one step with the bytes that it is fed with, and stays where it is if
/// they are refused.
pub proof fn law_decoder_feed(d: &mut Decoder, bytes: &[u8], r: Result<(), Error>)
    requires
        old(d)@.wf(),
        old(d)@.phase != Phase::Done,
        bytes@.len() == old(d)@.needed(),
        call_ensures(Decoder::feed, (d, bytes), r),
    ensures
        r is Ok ==> old(d)@.feed(bytes@) == Ok::<State, ErrorView>(final(d)@),
        r matches Err(e) ==> old(d)@.feed(bytes@) == Err::<State, ErrorView>(e@) && final(d)@
            == old(d)@,
        final(d)@.wf(),
{
}

/// A decoder that is done gives the data.
pub proof fn law_decoder_finish(d: Decoder, out: Vec<u8>)
    requires
        d@.phase == Phase::Done,
        call_ensures(Decoder::finish, (d,), out),
    ensures
        out@ == d@.out,
{
}

/// Bit `i` of a hash is the exclusive or of the bits `i` and `i + 12` of what is hashed.
pub proof fn law_hash_call(val: u32, h: u32, i: u32)
    requires
        i < 12,
        call_ensures(hash, (val,), h),
    ensures
        (h >> i) & 1 == ((val >> i) & 1) ^ ((val >> ((i + 12) as u32)) & 1),
        h < 4096,
{
    law_hash_bits(val, i);
}

/// Three bytes are read with the low byte first.
pub proof fn law_read_u24_call(inp: &[u8], r: u32)
    requires
        inp@.len() >= 3,
        call_ensures(read_u24, (inp,), r),
    ensures
        r == inp@[0] + 0x100 * inp@[1] + 0x1_0000 * inp@[2],
{
}

/// The numbers of the levels.
pub proof fn law_as_u8_call(level: CompressionLevel, n: u8)
    requires
        call_ensures(CompressionLevel::as_u8, (&level,), n),
    ensures
        level == CompressionLevel::Lvl1 ==> n == 1,
        level == CompressionLevel::Lvl3 ==> n == 3,
{
}

/// What errors say.
pub proof fn law_message_call(e: Error, s: String)
    requires
        call_ensures(Error::message, (&e,), s),
    ensures
        e matches Error::Io(_) ==> s@ == "failed to fill whole buffer"@,
        e is UnsupportedLevel ==> s@
            == "Unsupported QuickLZ level, this library only supports level 1 and 3"@,
        e matches Error::SizeLimitExceeded { dec, max } ==> s@
            == "Maximum uncompressed size exceeded: "@ + decimal(dec as nat) + "/"@ + decimal(
            max as nat,
        ),
        e matches Error::CorruptData(text) ==> s@ == text@,
{
}

/// Copying adds `length` bytes, each equal to the one that stands as far behind `start`
/// as it stands behind the end of what was there.
pub proof fn law_copy_call(
    buf: &mut Vec<u8>,
    start: usize,
    length: usize,
    r: Result<(), Error>,
    i: int,
)
    requires
        call_ensures(copy_buffer_bytes, (buf, start, length), r),
    ensures
        length == 0 ==> r is Ok && final(buf)@ == old(buf)@,
        length > 0 && start >= old(buf)@.len() ==> (r matches Err(e) && e@
            == ErrorView::CorruptData("Invalid back reference in QuickLZ"@)) && final(buf)@
            == old(buf)@,
        length > 0 && start < old(buf)@.len() ==> {
            &&& r is Ok
            &&& final(buf)@.len() == old(buf)@.len() + length
            &&& 0 <= i < old(buf)@.len() ==> final(buf)@[i] == old(buf)@[i]
            &&& 0 <= i < length ==> final(buf)@[old(buf)@.len() + i] == final(buf)@[start + i]
        },
{
    lemma_copied_len(old(buf)@, start as int, length as nat);
    if length > 0 && start < old(buf)@.len() && 0 <= i < length {
        law_copied_bytes(old(buf)@, start as int, length as nat, i);
    }
}

/// A hash leads to the last of the positions that has it, or where it led before.
pub proof fn law_update_hashtable_call(
    table: &mut [u32; HASHTABLE_SIZE],
    dest: &[u8],
    start: usize,
    end: usize,
    h: int,
    i: int,
)
    requires
        start < end ==> end + 2 <= dest@.len(),
        end <= 0x1_0000_0000,
        0 <= h < 4096,
        call_ensures(update_hashtable, (table, dest, start, end), ()),
    ensures
        (forall|j: int| start <= j < end ==> #[trigger] hash_at(dest@, j) != h)
            ==> final(table)@[h] == old(table)@[h],
        start <= i < end && hash_at(dest@, i) == h && (forall|j: int|
            i < j < end ==> #[trigger] hash_at(dest@, j) != h) ==> final(table)@[h] == i,
{
    law_hashed(old(table)@, dest@, start as int, end as int, h);
}

/// A header is written in place, byte by byte; the bytes behind it stay.
pub proof fn law_write_header_call(
    dest: &mut Vec<u8>,
    header_len: usize,
    dest_len: usize,
    srclen: usize,
    level: CompressionLevel,
    is_compressed: bool,
)
    requires
        header_len == 3 || header_len == 9,
        header_len <= old(dest)@.len(),
        call_ensures(write_header, (dest, header_len, dest_len, srclen, level, is_compressed), ()),
    ensures
        ({
            let s = final(dest)@;
            let number: int = if level == CompressionLevel::Lvl1 {
                1
            } else {
                3
            };
            let bit: int = if is_compressed {
                1
            } else {
                0
            };
            &&& s.len() == old(dest)@.len()
            &&& s.skip(header_len as int) == old(dest)@.skip(header_len as int)
            &&& header_len == 3 ==> {
                &&& s[0] == 0x40 + 4 * number + bit
                &&& s[1] == dest_len % 256
                &&& s[2] == srclen % 256
            }
            &&& header_len == 9 ==> {
                &&& s[0] == 0x42 + 4 * number + bit
                &&& s[1] == dest_len % 256
                &&& s[2] == dest_len as int / 0x100 % 256
                &&& s[3] == dest_len as int / 0x1_0000 % 256
                &&& s[4] == dest_len as int / 0x100_0000 % 256
                &&& s[5] == srclen % 256
                &&& s[6] == srclen as int / 0x100 % 256
                &&& s[7] == srclen as int / 0x1_0000 % 256
                &&& s[8] == srclen as int / 0x100_0000 % 256
            }
        }),
{
    law_number_bytes(dest_len as nat);
    law_number_bytes(srclen as nat);
    assert(final(dest)@.skip(header_len as int) =~= old(dest)@.skip(header_len as int));
}

/// A control word is written in place, with the low byte first; the other bytes stay.
pub proof fn law_write_control_call(dest: &mut Vec<u8>, ctrl_pos: usize, ctrl: u32, i: int)
    requires
        ctrl_pos + 4 <= old(dest)@.len(),
        call_ensures(write_control, (dest, ctrl_pos, ctrl), ()),
    ensures
        ({
            let s = final(dest)@;
            let p = ctrl_pos as int;
            &&& s.len() == old(dest)@.len()
            &&& 0 <= i < s.len() && (i < p || p + 4 <= i) ==> s[i] == old(dest)@[i]
            &&& s[p] == ctrl as int % 256
            &&& s[p + 1] == ctrl as int / 0x100 % 256
            &&& s[p + 2] == ctrl as int / 0x1_0000 % 256
            &&& s[p + 3] == ctrl as int / 0x100_0000 % 256
        }),
{
    law_number_bytes(ctrl as nat);
}

/// A group is closed with its control word, and the place for the next one holds zeros.
pub proof fn law_begin_group_call(
    control: &mut u32,
    control_pos: &mut usize,
    dest: &mut Vec<u8>,
    i: int,
)
    requires
        *old(control_pos) + 4 <= old(dest)@.len(),
        call_ensures(begin_group, (control, control_pos, dest), ()),
    ensures
        ({
            let s = final(dest)@;
            let p = *old(control_pos) as int;
            let n = old(dest)@.len();
            let word = *old(control) as int / 2 + 0x8000_0000;
            &&& s.len() == n + 4
            &&& 0 <= i < n && (i < p || p + 4 <= i) ==> s[i] == old(dest)@[i]
            &&& s[p] == word % 256
            &&& s[p + 1] == word / 0x100 % 256
            &&& s[p + 2] == word / 0x1_0000 % 256
            &&& s[p + 3] == word / 0x100_0000 % 256
            &&& n <= i < n + 4 ==> s[i] == 0
            &&& *final(control_pos) == n
            &&& *final(control) == 0x8000_0000
        }),
{
    law_number_bytes((*old(control) / 2 + 0x8000_0000) as nat);
}

/// Where the group is not full nothing happens. Where it is full and more than three
/// quarters of the data are done, but the stream is longer than 31 of 32 parts of these,
/// the stream is replaced by the data as they are, behind a header. Else a new group
/// begins.
pub proof fn law_check_inefficient_call(
    control: &mut u32,
    source_pos: usize,
    level: CompressionLevel,
    control_pos: &mut usize,
    dest: &mut Vec<u8>,
    data: &[u8],
    b: bool,
    i: int,
)
    requires
        *old(control) % 2 == 1 ==> *old(control_pos) + 4 <= old(dest)@.len(),
        data@.len() + 9 <= u32::MAX,
        call_ensures(
            check_inefficient,
            (control, source_pos, level, control_pos, dest, data),
            b,
        ),
    ensures
        ({
            let s = final(dest)@;
            let size = data@.len();
            let p = *old(control_pos) as int;
            let n = old(dest)@.len();
            let word = *old(control) as int / 2 + 0x8000_0000;
            let number: int = if level == CompressionLevel::Lvl1 {
                1
            } else {
                3
            };
            &&& b == (*old(control) % 2 == 1 && source_pos > 3 * (size / 4) && n > source_pos
                - source_pos / 32)
            &&& b || *old(control) % 2 == 0 ==> *final(control) == *old(control)
                && *final(control_pos) == *old(control_pos)
            &&& *old(control) % 2 == 0 ==> s == old(dest)@
            &&& b && size < 216 ==> {
                &&& s == s.take(3) + data@
                &&& s.len() == 3 + size
                &&& s[0] == 0x40 + 4 * number
                &&& s[1] == size + 3
                &&& s[2] == size
            }
            &&& b && size >= 216 ==> {
                &&& s == s.take(9) + data@
                &&& s.len() == 9 + size
                &&& s[0] == 0x42 + 4 * number
                &&& s[1] + 0x100 * s[2] + 0x1_0000 * s[3] + 0x100_0000 * s[4] == size + 9
                &&& s[5] + 0x100 * s[6] + 0x1_0000 * s[7] + 0x100_0000 * s[8] == size
            }
            &&& !b && *old(control) % 2 == 1 ==> {
                &&& s.len() == n + 4
                &&& 0 <= i < n && (i < p || p + 4 <= i) ==> s[i] == old(dest)@[i]
                &&& s[p] == word % 256
                &&& s[p + 1] == word / 0x100 % 256
                &&& s[p + 2] == word / 0x1_0000 % 256
                &&& s[p + 3] == word / 0x100_0000 % 256
                &&& n <= i < n + 4 ==> s[i] == 0
                &&& *final(control_pos) == n
                &&& *final(control) == 0x8000_0000
            }
        }),
{
    let size = data@.len();
    law_number_bytes((*old(control) / 2 + 0x8000_0000) as nat);
    if b {
        lemma_stored_bytes(data@, level);
    }
}

/// The bytes of a stream that holds the data as they are.
proof fn lemma_stored_bytes(data: Seq<u8>, level: CompressionLevel)
    requires
        data.len() + 9 <= u32::MAX,
    ensures
        ({
            let s = crate::matching::stored(data, level);
            let size = data.len();
            &&& size < 216 ==> {
                &&& s == s.take(3) + data
                &&& s.len() == 3 + size
                &&& s[0] == 0x40 + 4 * level.number()
                &&& s[1] == size + 3
                &&& s[2] == size
            }
            &&& size >= 216 ==> {
                &&& s == s.take(9) + data
                &&& s.len() == 9 + size
                &&& s[0] == 0x42 + 4 * level.number()
                &&& s[1] + 0x100 * s[2] + 0x1_0000 * s[3] + 0x100_0000 * s[4] == size + 9
                &&& s[5] + 0x100 * s[6] + 0x1_0000 * s[7] + 0x100_0000 * s[8] == size
            }
        }),
{
    let s = crate::matching::stored(data, level);
    let size = data.len();
    lemma_byte_ranges();
    if size < 216 {
        law_number_bytes(size + 3);
        law_number_bytes(size);
        assert(s =~= s.take(3) + data);
    } else {
        law_le_bytes_read_back(size + 9, 4);
        law_le_bytes_read_back(size, 4);
        lemma_le_value_small(le_bytes(size + 9, 4));
        lemma_le_value_small(le_bytes(size, 4));
        assert(s.subrange(1, 5) =~= le_bytes(size + 9, 4));
        assert(s.subrange(5, 9) =~= le_bytes(size, 4));
        assert(s =~= s.take(9) + data);
    }
}

/// A new stream holds zeros where the header and the first control word will be.
pub proof fn law_writer_new_call(level: CompressionLevel, header_len: usize, w: Writer, i: int)
    requires
        header_len <= usize::MAX - 4,
        call_ensures(Writer::new, (level, header_len), w),
    ensures
        w.wf(),
        w.tokens().len() == 0,
        w.dest@.len() == header_len + 4,
        0 <= i < header_len + 4 ==> w.dest@[i] == 0,
        w.level == level,
        w.header_len == header_len,
        w.control_pos == header_len,
        w.control == 0x8000_0000,
{
}

/// A literal adds its byte, and no bit to the control word.
pub proof fn law_push_literal_call(w: &mut Writer, b: u8)
    requires
        old(w).wf(),
        old(w).last@.len() < 31,
        call_ensures(Writer::push_literal, (w, b), ()),
    ensures
        final(w).wf(),
        final(w).tokens() == old(w).tokens().push(Token::Literal(b)),
        final(w).dest@ == old(w).dest@.push(b),
        final(w).control == old(w).control / 2,
        final(w).control_pos == old(w).control_pos,
        final(w).level == old(w).level,
        final(w).header_len == old(w).header_len,
{
}

/// A reference adds its bytes, and a bit to the control word.
pub proof fn law_push_reference_call(w: &mut Writer, key: u32, len: u32)
    requires
        old(w).wf(),
        old(w).last@.len() < 31,
        3 <= len <= 255,
        old(w).level == CompressionLevel::Lvl1 ==> key < 4096,
        old(w).level == CompressionLevel::Lvl3 ==> key < 0x2_0000,
        call_ensures(Writer::push_reference, (w, key, len), ()),
    ensures
        final(w).wf(),
        final(w).tokens() == old(w).tokens().push(
            Token::Reference { key: key as nat, len: len as nat },
        ),
        final(w).control == old(w).control / 2 + 0x8000_0000,
        final(w).control_pos == old(w).control_pos,
        final(w).level == old(w).level,
        final(w).header_len == old(w).header_len,
        old(w).level == CompressionLevel::Lvl1 && len < 18 ==> final(w).dest@ == old(w).dest@
            + seq![(key as int % 16 * 16 + (len - 2)) as u8, (key as int / 16) as u8],
        old(w).level == CompressionLevel::Lvl1 && len >= 18 ==> final(w).dest@ == old(w).dest@
            + seq![(key as int % 16 * 16) as u8, (key as int / 16) as u8, len as u8],
        old(w).level == CompressionLevel::Lvl3 && len == 3 && key < 64 ==> final(w).dest@ == old(
            w,
        ).dest@ + seq![(key * 4) as u8],
        old(w).level == CompressionLevel::Lvl3 && len == 3 && 64 <= key < 0x4000 ==> final(w).dest@
            == old(w).dest@ + seq![(key as int % 64 * 4 + 1) as u8, (key as int / 64) as u8],
        old(w).level == CompressionLevel::Lvl3 && 3 < len < 19 && key < 0x400 ==> final(w).dest@
            == old(w).dest@ + seq![
            (key as int % 4 * 64 + (len - 3) * 4 + 2) as u8,
            (key as int / 4) as u8,
        ],
        old(w).level == CompressionLevel::Lvl3 && (len == 3 && 0x4000 <= key || 3 < len < 19
            && 0x400 <= key || 19 <= len < 34) ==> final(w).dest@ == old(w).dest@ + seq![
            (key as int % 2 * 128 + (len - 2) * 4 + 3) as u8,
            (key as int / 2 % 256) as u8,
            (key as int / 512) as u8,
        ],
        old(w).level == CompressionLevel::Lvl3 && 34 <= len ==> final(w).dest@ == old(w).dest@
            + seq![
            ((len - 3) % 2 * 128 + 3) as u8,
            (key as int % 2 * 128 + (len - 3) / 2) as u8,
            (key as int / 2 % 256) as u8,
            (key as int / 512) as u8,
        ],
{
    match old(w).level {
        CompressionLevel::Lvl1 => law_reference_written_level_1(key as nat, len as nat),
        CompressionLevel::Lvl3 => law_reference_written_level_3(key as nat, len as nat),
    }
}

/// A group is full with 31 tokens.
pub proof fn law_is_full_call(w: Writer, b: bool)
    requires
        w.wf(),
        call_ensures(Writer::is_full, (&w,), b),
    ensures
        b == (w.last@.len() == 31),
{
}

/// A full group is closed with its control word, and a place of zeros is added for the
/// next one. The tokens stay.
pub proof fn law_next_group_call(w: &mut Writer, i: int)
    requires
        old(w).wf(),
        old(w).last@.len() == 31,
        call_ensures(Writer::next_group, (w,), ()),
    ensures
        ({
            let s = final(w).dest@;
            let p = old(w).control_pos as int;
            let n = old(w).dest@.len();
            let word = old(w).control as int / 2 + 0x8000_0000;
            &&& final(w).wf()
            &&& final(w).tokens() == old(w).tokens()
            &&& final(w).last@.len() == 0
            &&& s.len() == n + 4
            &&& 0 <= i < n && (i < p || p + 4 <= i) ==> s[i] == old(w).dest@[i]
            &&& s[p] == word % 256
            &&& s[p + 1] == word / 0x100 % 256
            &&& s[p + 2] == word / 0x1_0000 % 256
            &&& s[p + 3] == word / 0x100_0000 % 256
            &&& n <= i < n + 4 ==> s[i] == 0
            &&& final(w).control_pos == n
            &&& final(w).control == 0x8000_0000
            &&& final(w).level == old(w).level
            &&& final(w).header_len == old(w).header_len
        }),
{
    law_number_bytes((old(w).control / 2 + 0x8000_0000) as nat);
}

/// A finished stream holds all of its tokens behind the place for the header.
pub proof fn law_finish_call(w: &mut Writer)
    requires
        old(w).wf(),
        old(w).complete@.len() > 0 ==> old(w).last@.len() > 0,
        call_ensures(Writer::finish, (w,), ()),
    ensures
        final(w).dest@.skip(old(w).header_len as int) == frames(old(w).level, old(w).tokens()),
{
}

/// The tokens of what is compressed: those that the data and the tokens before lead to.
/// The data are stored as they are exactly where compression has turned out too
/// inefficient.
pub proof fn law_compress_tokens(data: &[u8], level: CompressionLevel, dest: Vec<u8>) -> (tokens:
    Seq<Token>)
    requires
        data@.len() <= 0xffff_fe6f,
        call_ensures(compress, (data, level), dest),
    ensures
        ({
            let n: int = if data@.len() < 216 {
                3
            } else {
                9
            };
            &&& dest@[0] % 2 == 1 ==> {
                &&& span(tokens) == data@.len()
                &&& dest@.skip(n) == frames(level, tokens)
            }
            &&& dest@[0] % 2 == 0 ==> dest@.skip(n) == data@ && tokens.len() > 0 && tokens.len()
                % 31 == 0
        }),
{
    law_tokens(data@, level)
}

/// Data are compressed up to 400 bytes below the largest size that a header can tell, at
/// either level.
pub proof fn law_compress_accepts(data: &[u8], level: CompressionLevel)
    requires
        data@.len() <= 0xffff_fe6f,
    ensures
        call_requires(compress, (data, level)),
{
}

/// Any input may be decompressed, with any limit.
pub proof fn law_decompress_accepts<'a>(r: &mut &'a [u8], max_size: u32)
    ensures
        call_requires(decompress, (r, max_size)),
        call_requires(Decoder::new, (max_size,)),
{
}

/// A decoder may be fed with whatever bytes come next, as long as they are as many as it
/// asks for.
pub proof fn law_decoder_accepts(d: &mut Decoder, bytes: &[u8])
    requires
        old(d)@.wf(),
        old(d)@.phase != Phase::Done,
        bytes@.len() == old(d)@.needed(),
    ensures
        call_requires(Decoder::feed, (d, bytes)),
{
}

/// The parts of compression and decompression take whatever their places allow.
pub proof fn law_parts_accept(
    val: u32,
    inp: &[u8],
    buf: &mut Vec<u8>,
    start: usize,
    length: usize,
    level: CompressionLevel,
    is_compressed: bool,
)
    ensures
        call_requires(hash, (val,)),
        inp@.len() >= 3 ==> call_requires(read_u24, (inp,)),
        call_requires(copy_buffer_bytes, (buf, start, length)),
        old(buf)@.len() >= 3 ==> call_requires(
            write_header,
            (buf, 3, start, length, level, is_compressed),
        ),
        old(buf)@.len() >= 9 ==> call_requires(
            write_header,
            (buf, 9, start, length, level, is_compressed),
        ),
        start + 4 <= old(buf)@.len() ==> call_requires(write_control, (buf, start, val)),
{
}

}
