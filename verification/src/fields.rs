//! The fields of a stream: which of its bits say what.
use vstd::arithmetic::power2::{lemma2_to64, lemma_pow2_pos, lemma_pow2_unfold, pow2};
use vstd::prelude::*;

use crate::error::Error;
use crate::format::Token;
use crate::level::CompressionLevel;
#[allow(unused_imports)]
use crate::bytes::{
    law_le_bytes_read_back, le_bytes, le_value, lemma_byte_ranges,
    lemma_le_value_small, u24_at,
};
#[allow(unused_imports)]
use crate::error::{decimal, ErrorView, IoError};
#[allow(unused_imports)]
use crate::format::{
    control_bits, extra_len, flags, frames, group, header, header_len, items, reference_bytes,
    reference_of, span,
};
#[allow(unused_imports)]
use crate::layout::{lemma_control_bits_bound, lemma_items_push};
#[allow(unused_imports)]
use crate::matching::{compressed, lemma_span_push};
#[allow(unused_imports)]
use crate::roundtrip::lemma_stream;
#[allow(unused_imports)]
use crate::table::{hash_at, hash_of};

verus! {

/// Numbers are written with the low byte first.
pub proof fn law_number_bytes(n: nat)
    ensures
        le_bytes(n, 1) == seq![(n % 256) as u8],
        le_bytes(n, 2) == seq![(n % 256) as u8, (n / 0x100 % 256) as u8],
        le_bytes(n, 3) == seq![
            (n % 256) as u8,
            (n / 0x100 % 256) as u8,
            (n / 0x1_0000 % 256) as u8,
        ],
        le_bytes(n, 4) == seq![
            (n % 256) as u8,
            (n / 0x100 % 256) as u8,
            (n / 0x1_0000 % 256) as u8,
            (n / 0x100_0000 % 256) as u8,
        ],
{
    reveal_with_fuel(le_bytes, 5);
    assert(n / 256 / 256 == n / 0x1_0000);
    assert(n / 256 / 256 / 256 == n / 0x100_0000);
    assert(le_bytes(n, 1) =~= seq![(n % 256) as u8]);
    assert(le_bytes(n, 2) =~= seq![(n % 256) as u8, (n / 0x100 % 256) as u8]);
    assert(le_bytes(n, 3) =~= seq![
        (n % 256) as u8,
        (n / 0x100 % 256) as u8,
        (n / 0x1_0000 % 256) as u8,
    ]);
    assert(le_bytes(n, 4) =~= seq![
        (n % 256) as u8,
        (n / 0x100 % 256) as u8,
        (n / 0x1_0000 % 256) as u8,
        (n / 0x100_0000 % 256) as u8,
    ]);
}

/// Numbers are read with the low byte first.
pub proof fn law_bytes_number(a: u8, b: u8, c: u8, d: u8)
    ensures
        le_value(seq![a]) == a,
        le_value(seq![a, b]) == a + 0x100 * b,
        le_value(seq![a, b, c]) == a + 0x100 * b + 0x1_0000 * c,
        le_value(seq![a, b, c, d]) == a + 0x100 * b + 0x1_0000 * c + 0x100_0000 * d,
{
    lemma_le_value_small(seq![a]);
    lemma_le_value_small(seq![a, b]);
    lemma_le_value_small(seq![a, b, c]);
    lemma_le_value_small(seq![a, b, c, d]);
}

/// A number of three bytes is read from where it begins, with the low byte first.
pub proof fn law_three_bytes(s: Seq<u8>, i: int)
    ensures
        u24_at(s, i) == s[i] + 0x100 * s[i + 1] + 0x1_0000 * s[i + 2],
{
}

/// Bit `i` of a hash is the exclusive or of the bits `i` and `i + 12` of what is
/// hashed.
pub proof fn law_hash_bits(val: u32, i: u32)
    requires
        i < 12,
    ensures
        (hash_of(val) >> i) & 1 == ((val >> i) & 1) ^ ((val >> ((i + 12) as u32)) & 1),
        hash_of(val) < 4096,
{
    let h = hash_of(val);
    let j = (i + 12) as u32;
    assert((h >> i) & 1 == ((val >> i) & 1) ^ ((val >> j) & 1) && h < 4096) by (bit_vector)
        requires
            i < 12,
            j == i + 12,
            h == ((val >> 12) ^ val) & 0xfff,
    ;
}

/// Hashing keeps exclusive or.
pub proof fn law_hash_xor(x: u32, y: u32)
    ensures
        hash_of(x ^ y) == hash_of(x) ^ hash_of(y),
{
    assert((((x ^ y) >> 12) ^ (x ^ y)) & 0xfff == (((x >> 12) ^ x) & 0xfff) ^ (((y >> 12) ^ y)
        & 0xfff)) by (bit_vector);
}

/// The hash of three bytes is the exclusive or of two numbers of twelve bits: one has the
/// first byte and the low half of the second, the other the high half of the second
/// and the third.
pub proof fn law_hash_halves(s: Seq<u8>, i: int)
    ensures
        hash_at(s, i) == (((s[i] + 0x100 * (s[i + 1] % 16)) as u32) ^ ((s[i + 1] / 16 + 16 * s[i
            + 2]) as u32)) as int,
{
    let a = s[i] as u32;
    let b = s[i + 1] as u32;
    let c = s[i + 2] as u32;
    let v = u24_at(s, i);
    let low = (a + 0x100 * (b % 16)) as u32;
    let high = (b / 16 + 16 * c) as u32;
    assert(((v >> 12) ^ v) & 0xfff == low ^ high) by (bit_vector)
        requires
            a < 256,
            b < 256,
            c < 256,
            v == a + 0x100 * b + 0x1_0000 * c,
            low == a + 0x100 * (b % 16),
            high == b / 16 + 16 * c,
    ;
}

/// What the bytes of a reference of level 1 stand for: the hash is in the high half of
/// the first byte and in the second, the length in the low half of the first or, where
/// that is zero, in the third.
pub proof fn law_reference_fields_level_1(a: u8, b: u8, c: u8)
    ensures
        a % 16 != 0 ==> extra_len(CompressionLevel::Lvl1, a) == 1,
        a % 16 != 0 ==> reference_of(CompressionLevel::Lvl1, seq![a, b]) == (
            (a / 16 + 16 * b) as nat,
            (a % 16 + 2) as nat,
        ),
        a % 16 == 0 ==> extra_len(CompressionLevel::Lvl1, a) == 2,
        a % 16 == 0 ==> reference_of(CompressionLevel::Lvl1, seq![a, b, c]) == (
            (a / 16 + 16 * b) as nat,
            c as nat,
        ),
{
    reveal(reference_of);
    law_bytes_number(a, b, c, 0);
}

/// The parts of the number that two bytes of a reference of level 3 make.
proof fn lemma_two_bytes(x: int, y: int, v: int)
    requires
        0 <= x < 256,
        0 <= y < 256,
        v == x + 0x100 * y,
    ensures
        v % 4 == x % 4,
        v / 4 == x / 4 + 64 * y,
        v / 64 == x / 64 + 4 * y,
        v / 4 % 16 == x / 4 % 16,
{
    assert((x / 4 + 64 * y) % 16 == x / 4 % 16);
}

/// The parts of the number that three bytes of a reference of level 3 make.
proof fn lemma_three_bytes(x: int, y: int, z: int, v: int)
    requires
        0 <= x < 256,
        0 <= y < 256,
        0 <= z < 256,
        v == x + 0x100 * y + 0x1_0000 * z,
    ensures
        v % 4 == x % 4,
        v % 128 == x % 128,
        v / 128 == x / 128 + 2 * y + 512 * z,
        v / 4 % 32 == x / 4 % 32,
{
    assert(v / 4 == x / 4 + 64 * y + 0x4000 * z);
}

/// The parts of the number that four bytes of a reference of level 3 make.
proof fn lemma_four_bytes(x: int, y: int, z: int, w: int, v: int)
    requires
        0 <= x < 256,
        0 <= y < 256,
        0 <= z < 256,
        0 <= w < 256,
        v == x + 0x100 * y + 0x1_0000 * z + 0x100_0000 * w,
    ensures
        v % 4 == x % 4,
        v % 128 == x % 128,
        v / 0x8000 == y / 128 + 2 * z + 512 * w,
        v / 128 % 256 == x / 128 + 2 * (y % 128),
{
    let high = y / 128 + 2 * z + 512 * w;
    let low = x / 128 + 2 * (y % 128);
    assert(v / 128 == x / 128 + 2 * y + 512 * z + 0x2_0000 * w);
    assert(v / 128 == 256 * high + low);
    assert(v / 128 / 256 == v / 0x8000);
}

/// What the bytes of a reference of level 3 stand for. The low bits of the first byte
/// tell the form; above them are the length and then the distance.
pub proof fn law_reference_fields_level_3(a: u8, b: u8, c: u8, d: u8)
    ensures
        a % 4 == 0 ==> extra_len(CompressionLevel::Lvl3, a) == 0,
        a % 4 == 0 ==> reference_of(CompressionLevel::Lvl3, seq![a]) == ((a / 4) as nat, 3nat),
        a % 4 == 1 ==> extra_len(CompressionLevel::Lvl3, a) == 1,
        a % 4 == 1 ==> reference_of(CompressionLevel::Lvl3, seq![a, b]) == (
            (a / 4 + 64 * b) as nat,
            3nat,
        ),
        a % 4 == 2 ==> extra_len(CompressionLevel::Lvl3, a) == 1,
        a % 4 == 2 ==> reference_of(CompressionLevel::Lvl3, seq![a, b]) == (
            (a / 64 + 4 * b) as nat,
            (a / 4 % 16 + 3) as nat,
        ),
        a % 4 == 3 && a % 128 != 3 ==> extra_len(CompressionLevel::Lvl3, a) == 2,
        a % 4 == 3 && a % 128 != 3 ==> reference_of(CompressionLevel::Lvl3, seq![a, b, c]) == (
            (a / 128 + 2 * b + 512 * c) as nat,
            (a / 4 % 32 + 2) as nat,
        ),
        a % 128 == 3 ==> extra_len(CompressionLevel::Lvl3, a) == 3,
        a % 128 == 3 ==> reference_of(CompressionLevel::Lvl3, seq![a, b, c, d]) == (
            (b / 128 + 2 * c + 512 * d) as nat,
            (a / 128 + 2 * (b % 128) + 3) as nat,
        ),
{
    reveal(reference_of);
    law_bytes_number(a, b, c, d);
    lemma_two_bytes(a as int, b as int, a + 0x100 * b);
    lemma_three_bytes(a as int, b as int, c as int, a + 0x100 * b + 0x1_0000 * c);
    lemma_four_bytes(
        a as int,
        b as int,
        c as int,
        d as int,
        a + 0x100 * b + 0x1_0000 * c + 0x100_0000 * d,
    );
}

/// The bytes that are written for a reference of level 1.
pub proof fn law_reference_written_level_1(key: nat, len: nat)
    requires
        key < 4096,
        3 <= len <= 255,
    ensures
        len < 18 ==> reference_bytes(CompressionLevel::Lvl1, key, len) == seq![
            (key % 16 * 16 + (len - 2)) as u8,
            (key / 16) as u8,
        ],
        len >= 18 ==> reference_bytes(CompressionLevel::Lvl1, key, len) == seq![
            (key % 16 * 16) as u8,
            (key / 16) as u8,
            len as u8,
        ],
{
    reveal(reference_bytes);
    if len < 18 {
        let v = key * 16 + (len - 2) as nat;
        law_number_bytes(v);
        assert(v == 256 * (key / 16) + (key % 16 * 16 + (len - 2)));
        assert(v / 0x100 == key / 16);
    } else {
        let v = len * 0x1_0000 + key * 16;
        law_number_bytes(v);
        assert(v == 0x1_0000 * len + 256 * (key / 16) + key % 16 * 16);
        assert(v / 0x100 == 256 * len + key / 16);
        assert(v / 0x1_0000 == len);
    }
}

/// The bytes of the number that a far reference of level 3 is written as.
proof fn lemma_far_bytes(key: nat, len: nat, v: nat)
    requires
        key < 0x2_0000,
        3 <= len < 34,
        v == key * 128 + (len - 2) * 4 + 3,
    ensures
        v % 256 == key % 2 * 128 + (len - 2) * 4 + 3,
        v / 0x100 == key / 2,
        v / 0x1_0000 == key / 512,
        key / 512 < 256,
{
    let low = key % 2 * 128 + (len - 2) * 4 + 3;
    assert(v == 256 * (key / 2) + low);
    assert(key / 2 / 256 == key / 512);
}

/// The bytes of the number that a long reference of level 3 is written as.
proof fn lemma_long_bytes(key: nat, m: nat, v: nat)
    requires
        key < 0x2_0000,
        m < 256,
        v == key * 0x8000 + m * 128 + 3,
    ensures
        v % 256 == m % 2 * 128 + 3,
        v / 0x100 % 256 == key % 2 * 128 + m / 2,
        v / 0x1_0000 == key / 2,
        v / 0x100_0000 == key / 512,
        key / 512 < 256,
{
    let w = key * 128 + m / 2;
    assert(v == 256 * w + (m % 2 * 128 + 3));
    assert(v / 0x100 == w);
    let low = key % 2 * 128 + m / 2;
    assert(w == 256 * (key / 2) + low);
    assert(w / 256 == key / 2);
    assert(key / 2 / 256 == key / 512);
}

/// The bytes that are written for a reference of level 3: the first form that has room
/// for its distance and its length.
#[verifier::rlimit(50)]
pub proof fn law_reference_written_level_3(key: nat, len: nat)
    requires
        key < 0x2_0000,
        3 <= len <= 255,
    ensures
        len == 3 && key < 64 ==> reference_bytes(CompressionLevel::Lvl3, key, len) == seq![
            (key * 4) as u8,
        ],
        len == 3 && 64 <= key < 0x4000 ==> reference_bytes(CompressionLevel::Lvl3, key, len)
            == seq![(key % 64 * 4 + 1) as u8, (key / 64) as u8],
        3 < len < 19 && key < 0x400 ==> reference_bytes(CompressionLevel::Lvl3, key, len) == seq![
            (key % 4 * 64 + (len - 3) * 4 + 2) as u8,
            (key / 4) as u8,
        ],
        (len == 3 && 0x4000 <= key) || (3 < len < 19 && 0x400 <= key) || 19 <= len < 34
            ==> reference_bytes(CompressionLevel::Lvl3, key, len) == seq![
            (key % 2 * 128 + (len - 2) * 4 + 3) as u8,
            (key / 2 % 256) as u8,
            (key / 512) as u8,
        ],
        34 <= len ==> reference_bytes(CompressionLevel::Lvl3, key, len) == seq![
            ((len - 3) % 2 * 128 + 3) as u8,
            (key % 2 * 128 + (len - 3) / 2) as u8,
            (key / 2 % 256) as u8,
            (key / 512) as u8,
        ],
{
    reveal(reference_bytes);
    if len == 3 && key < 64 {
        law_number_bytes(key * 4);
    } else if len == 3 && key < 0x4000 {
        let v = key * 4 + 1;
        law_number_bytes(v);
        assert(v == 256 * (key / 64) + (key % 64 * 4 + 1));
        assert(v / 0x100 == key / 64);
    } else if len < 19 && key < 0x400 {
        let v = key * 64 + (len - 3) as nat * 4 + 2;
        law_number_bytes(v);
        assert(v == 256 * (key / 4) + (key % 4 * 64 + (len - 3) * 4 + 2));
        assert(v / 0x100 == key / 4);
    } else if len < 34 {
        let v = key * 128 + (len - 2) as nat * 4 + 3;
        law_number_bytes(v);
        lemma_far_bytes(key, len, v);
    } else {
        let m = (len - 3) as nat;
        let v = key * 0x8000 + m * 128 + 3;
        law_number_bytes(v);
        lemma_long_bytes(key, m, v);
    }
}

/// A bit of the bits of tokens below a mark.
proof fn lemma_word_bit(tokens: Seq<Token>, e: nat, i: nat)
    requires
        tokens.len() <= e,
        i < e,
    ensures
        (control_bits(tokens) + pow2(e)) as int / pow2(i) as int % 2 == (if i < tokens.len()
            && tokens[i as int] is Reference {
            1int
        } else {
            0
        }),
    decreases i,
{
    lemma2_to64();
    lemma_pow2_unfold(e);
    let w = (control_bits(tokens) + pow2(e)) as int;
    let rest = if tokens.len() == 0 {
        tokens
    } else {
        tokens.skip(1)
    };
    let half = (control_bits(rest) + pow2((e - 1) as nat)) as int;
    let low: int = if tokens.len() == 0 {
        0
    } else {
        tokens[0].bit() as int
    };
    assert(w == 2 * half + low);
    if i == 0 {
        assert(w / 1 == w);
    } else {
        lemma_word_bit(rest, (e - 1) as nat, (i - 1) as nat);
        lemma_pow2_unfold(i);
        lemma_pow2_pos((i - 1) as nat);
        vstd::arithmetic::div_mod::lemma_div_denominator(w, 2, pow2((i - 1) as nat) as int);
        assert(w / 2 == half);
        assert(w / pow2(i) as int == half / pow2((i - 1) as nat) as int);
    }
}

/// A group of up to 31 tokens begins with its control word. The highest bit of that is
/// set, and bit `i` is set exactly where token `i` is a reference. The tokens follow.
pub proof fn law_control_word(level: CompressionLevel, tokens: Seq<Token>, i: nat)
    requires
        tokens.len() <= 31,
        i < 31,
    ensures
        ({
            let body = frames(level, tokens);
            let word = body[0] + 0x100 * body[1] + 0x1_0000 * body[2] + 0x100_0000 * body[3];
            &&& body == body.take(4) + items(level, tokens)
            &&& body.take(4).len() == 4
            &&& word / 0x8000_0000 == 1
            &&& word / pow2(i) as int % 2 == if i < tokens.len() && tokens[i as int] is Reference {
                1int
            } else {
                0
            }
        }),
{
    let body = frames(level, tokens);
    let n = control_bits(tokens) + 0x8000_0000;
    lemma2_to64();
    lemma_byte_ranges();
    lemma_control_bits_bound(tokens);
    if tokens.len() < 31 {
        vstd::arithmetic::power2::lemma_pow2_strictly_increases(tokens.len(), 31);
    }
    law_le_bytes_read_back(n, 4);
    lemma_le_value_small(le_bytes(n, 4));
    assert(body.take(4) =~= le_bytes(n, 4));
    lemma_word_bit(tokens, 31, i);
}

/// The first 31 tokens are a group, and the others are laid out as if they came alone.
pub proof fn law_groups(level: CompressionLevel, tokens: Seq<Token>)
    requires
        tokens.len() > 31,
    ensures
        frames(level, tokens) == frames(level, tokens.take(31)) + frames(level, tokens.skip(31)),
{
}

/// The bytes of tokens follow each other: a literal is its byte.
pub proof fn law_items(level: CompressionLevel, tokens: Seq<Token>, b: u8, key: nat, len: nat)
    ensures
        items(level, Seq::empty()) == Seq::<u8>::empty(),
        items(level, tokens.push(Token::Literal(b))) == items(level, tokens).push(b),
        items(level, tokens.push(Token::Reference { key, len })) == items(level, tokens)
            + reference_bytes(level, key, len),
{
    lemma_items_push(level, tokens, Token::Literal(b));
    lemma_items_push(level, tokens, Token::Reference { key, len });
    assert(items(level, tokens) + seq![b] =~= items(level, tokens).push(b));
}

/// A literal stands for one byte, and a reference for as many as its length tells.
pub proof fn law_span(tokens: Seq<Token>, b: u8, key: nat, len: nat)
    ensures
        span(Seq::empty()) == 0,
        span(tokens.push(Token::Literal(b))) == span(tokens) + 1,
        span(tokens.push(Token::Reference { key, len })) == span(tokens) + len,
{
    lemma_span_push(tokens, Token::Literal(b));
    lemma_span_push(tokens, Token::Reference { key, len });
}

/// The numbers of the levels.
pub proof fn law_level_numbers(level: CompressionLevel)
    ensures
        level.number() == if level == CompressionLevel::Lvl1 {
            1int
        } else {
            3
        },
{
}

/// The first byte of a header: bit 0 is set where the data are compressed, bit 1 where
/// the header is long, the next two bits are the level, and of the others only bit 6
/// is set.
pub proof fn law_flags(is_compressed: bool, long: bool)
    ensures
        flags(CompressionLevel::Lvl1, is_compressed, long) / 4 == 0x11,
        flags(CompressionLevel::Lvl3, is_compressed, long) / 4 == 0x13,
        forall|level: CompressionLevel|
            (#[trigger] flags(level, is_compressed, long) % 2 == 1) == is_compressed,
        forall|level: CompressionLevel|
            (#[trigger] flags(level, is_compressed, long) / 2 % 2 == 1) == long,
{
}

/// The header of a stream, byte by byte: the flags, the size of the stream and the size
/// of the data. Three bytes are enough for less than 216 bytes of data.
#[verifier::rlimit(50)]
pub proof fn law_header_bytes(data: Seq<u8>, level: CompressionLevel)
    requires
        data.len() <= 0xffff_fe6f,
    ensures
        ({
            let s = compressed(data, level);
            let number: int = if level == CompressionLevel::Lvl1 {
                1
            } else {
                3
            };
            &&& data.len() < 216 ==> {
                &&& s.len() >= 3
                &&& s[0] / 2 == 0x20 + 2 * number
                &&& s[1] == s.len()
                &&& s[2] == data.len()
            }
            &&& data.len() >= 216 ==> {
                &&& s.len() >= 9
                &&& s[0] / 2 == 0x21 + 2 * number
                &&& s[1] + 0x100 * s[2] + 0x1_0000 * s[3] + 0x100_0000 * s[4] == s.len()
                &&& s[5] + 0x100 * s[6] + 0x1_0000 * s[7] + 0x100_0000 * s[8] == data.len()
            }
            &&& s[0] % 2 == 0 ==> s == s.take(
                if data.len() < 216 {
                    3
                } else {
                    9
                },
            ) + data
        }),
{
    let s = compressed(data, level);
    let size = data.len();
    let (packed, body) = lemma_stream(data, level);
    let total = header_len(size) + body.len();
    let h = header(level, packed, total, size);
    lemma_byte_ranges();
    crate::roundtrip::lemma_header_sizes(level, packed, total, size);
    assert(s.take(header_len(size) as int) =~= h);
    if size < 216 {
        law_number_bytes(total);
        law_number_bytes(size);
    } else {
        law_le_bytes_read_back(total, 4);
        law_le_bytes_read_back(size, 4);
        lemma_le_value_small(le_bytes(total, 4));
        lemma_le_value_small(le_bytes(size, 4));
        assert(h.subrange(1, 5) =~= le_bytes(total, 4));
        assert(h.subrange(5, 9) =~= le_bytes(size, 4));
    }
}

/// Numbers in texts are decimal: the last digit is the remainder by ten, and the digits
/// before it are those of the quotient.
pub proof fn law_decimal(n: nat, d: nat)
    requires
        d < 10,
    ensures
        decimal(d).len() == 1,
        decimal(d)[0] as int == '0' as int + d,
        n > 0 ==> decimal(10 * n + d) == decimal(n) + decimal(d),
{
    if n > 0 {
        assert(decimal(10 * n + d) =~= decimal(n) + decimal(d));
    }
}

/// What errors say.
pub proof fn law_error_texts(dec: u32, max: u32, text: String)
    ensures
        Error::Io(IoError::UnexpectedEof).text() == "failed to fill whole buffer"@,
        Error::UnsupportedLevel.text()
            == "Unsupported QuickLZ level, this library only supports level 1 and 3"@,
        (Error::SizeLimitExceeded { dec, max }).text() == "Maximum uncompressed size exceeded: "@
            + decimal(dec as nat) + "/"@ + decimal(max as nat),
        Error::CorruptData(text).text() == text@,
{
}

/// Contracts speak of the errors as they are.
pub proof fn law_error_views(e: IoError, dec: u32, max: u32, text: String)
    ensures
        Error::Io(e)@ == ErrorView::Io(e),
        Error::UnsupportedLevel@ == ErrorView::UnsupportedLevel,
        (Error::SizeLimitExceeded { dec, max })@ == (ErrorView::SizeLimitExceeded { dec, max }),
        Error::CorruptData(text)@ == ErrorView::CorruptData(text@),
{
}

}
