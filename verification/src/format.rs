//! The layout of a compressed stream.
//!
//! A stream is a header and a body. The body of compressed data is a series of
//! groups. A group is a control word and up to 31 tokens; the control word says
//! which of them are references to earlier data and which are literal bytes.
use vstd::prelude::*;

use crate::level::CompressionLevel;
#[allow(unused_imports)]
use crate::bytes::{law_le_bytes_read_back, le_bytes, le_value, lemma_byte_ranges};

verus! {

/// One step of a compressed stream: a byte, or a reference to earlier data.
///
/// The key of a reference is the hash of the three bytes that it begins with at
/// level 1, and the distance to the earlier data at level 3.
pub enum Token {
    Literal(u8),
    Reference { key: nat, len: nat },
}

impl Token {
    /// How many bytes of data the token stands for.
    pub open spec fn width(self) -> nat {
        match self {
            Token::Literal(_) => 1,
            Token::Reference { key, len } => len,
        }
    }

    /// The token's bit in a control word.
    pub open spec fn bit(self) -> nat {
        match self {
            Token::Literal(_) => 0,
            Token::Reference { .. } => 1,
        }
    }

    /// The token's bytes in a stream.
    pub open spec fn bytes(self, level: CompressionLevel) -> Seq<u8> {
        match self {
            Token::Literal(b) => seq![b],
            Token::Reference { key, len } => reference_bytes(level, key, len),
        }
    }

    /// Whether a stream can hold the token.
    pub open spec fn fits(self, level: CompressionLevel) -> bool {
        match self {
            Token::Literal(_) => true,
            Token::Reference { key, len } => reference_fits(level, key, len),
        }
    }
}

/// Whether a reference can be written down.
pub open spec fn reference_fits(level: CompressionLevel, key: nat, len: nat) -> bool {
    &&& 3 <= len <= 255
    &&& match level {
        CompressionLevel::Lvl1 => key < 4096,
        CompressionLevel::Lvl3 => key < 0x2_0000,
    }
}

/// The bytes of a reference: the shortest form that holds its key and length.
#[verifier::opaque]
pub open spec fn reference_bytes(level: CompressionLevel, key: nat, len: nat) -> Seq<u8> {
    match level {
        CompressionLevel::Lvl1 => if len < 18 {
            le_bytes(key * 16 + (len - 2) as nat, 2)
        } else {
            le_bytes(len * 0x1_0000 + key * 16, 3)
        },
        CompressionLevel::Lvl3 => if len == 3 && key < 64 {
            le_bytes(key * 4, 1)
        } else if len == 3 && key < 0x4000 {
            le_bytes(key * 4 + 1, 2)
        } else if len < 19 && key < 0x400 {
            le_bytes(key * 64 + (len - 3) as nat * 4 + 2, 2)
        } else if len < 34 {
            le_bytes(key * 128 + (len - 2) as nat * 4 + 3, 3)
        } else {
            le_bytes(key * 0x8000 + (len - 3) as nat * 128 + 3, 4)
        },
    }
}

/// How many bytes of a reference follow its first byte.
pub open spec fn extra_len(level: CompressionLevel, head: u8) -> nat {
    match level {
        CompressionLevel::Lvl1 => if head % 16 == 0 {
            2
        } else {
            1
        },
        CompressionLevel::Lvl3 => if head % 4 == 0 {
            0
        } else if head % 4 == 1 || head % 4 == 2 {
            1
        } else if head % 128 == 3 {
            3
        } else {
            2
        },
    }
}

/// The key and the length that the bytes of a reference stand for.
#[verifier::opaque]
pub open spec fn reference_of(level: CompressionLevel, bytes: Seq<u8>) -> (nat, nat) {
    let v = le_value(bytes);
    match level {
        CompressionLevel::Lvl1 => if v % 16 == 0 {
            ((v % 0x1_0000) / 16, v / 0x1_0000)
        } else {
            (v / 16, v % 16 + 2)
        },
        CompressionLevel::Lvl3 => if v % 4 == 0 {
            (v / 4, 3)
        } else if v % 4 == 1 {
            (v / 4, 3)
        } else if v % 4 == 2 {
            (v / 64, v / 4 % 16 + 3)
        } else if v % 128 == 3 {
            (v / 0x8000, v / 128 % 256 + 3)
        } else {
            (v / 128, v / 4 % 32 + 2)
        },
    }
}

/// The first byte of a number gives its remainders.
proof fn lemma_first_byte(v: nat, k: nat)
    requires
        k > 0,
    ensures
        le_bytes(v, k)[0] == v % 256,
        le_bytes(v, k)[0] % 4 == v % 4,
        le_bytes(v, k)[0] % 16 == v % 16,
        le_bytes(v, k)[0] % 128 == v % 128,
{
}

/// The parts of the number that a reference of level 1 is written as.
proof fn lemma_parts_level_1(key: nat, len: nat)
    requires
        key < 4096,
        3 <= len <= 255,
    ensures
        len < 18 ==> (key * 16 + (len - 2)) % 16 == len - 2,
        len < 18 ==> (key * 16 + (len - 2)) / 16 == key,
        (len * 0x1_0000 + key * 16) % 16 == 0,
        (len * 0x1_0000 + key * 16) % 0x1_0000 == key * 16,
        (len * 0x1_0000 + key * 16) / 0x1_0000 == len,
{
}

/// The parts of the number that a reference of level 3 is written as, in the
/// form for short and near matches.
proof fn lemma_parts_near(v: nat, key: nat, len: nat)
    requires
        3 <= len < 19,
        v == key * 64 + (len - 3) * 4 + 2,
    ensures
        v % 4 == 2,
        v / 64 == key,
        v / 4 % 16 == len - 3,
{
    assert(v / 4 == key * 16 + (len - 3));
}

/// The parts of the number that a reference of level 3 is written as, in the
/// form for short and far matches.
proof fn lemma_parts_far(v: nat, key: nat, len: nat)
    requires
        3 <= len < 34,
        v == key * 128 + (len - 2) * 4 + 3,
    ensures
        v % 4 == 3,
        v % 128 != 3,
        v / 128 == key,
        v / 4 % 32 == len - 2,
{
    assert(v / 4 == key * 32 + (len - 2));
}

/// The parts of the number that a reference of level 3 is written as, in the
/// form for long matches.
proof fn lemma_parts_long(v: nat, key: nat, len: nat)
    requires
        3 <= len <= 255,
        v == key * 0x8000 + (len - 3) * 128 + 3,
    ensures
        v % 4 == 3,
        v % 128 == 3,
        v / 0x8000 == key,
        v / 128 % 256 == len - 3,
{
    assert(v / 128 == key * 256 + (len - 3));
}

/// What is written for a reference is read back: its first byte tells how many
/// follow, and together they give its key and its length.
pub proof fn law_reference_read_back(level: CompressionLevel, key: nat, len: nat)
    requires
        reference_fits(level, key, len),
    ensures
        reference_bytes(level, key, len).len() == 1 + extra_len(
            level,
            reference_bytes(level, key, len)[0],
        ),
        reference_of(level, reference_bytes(level, key, len)) == (key, len),
        reference_bytes(level, key, len).len() <= 4,
        reference_bytes(level, key, len).len() <= len,
{
    reveal(reference_bytes);
    reveal(reference_of);
    lemma_byte_ranges();
    match level {
        CompressionLevel::Lvl1 => {
            lemma_parts_level_1(key, len);
            if len < 18 {
                let v = key * 16 + (len - 2) as nat;
                law_le_bytes_read_back(v, 2);
                lemma_first_byte(v, 2);
            } else {
                let v = len * 0x1_0000 + key * 16;
                law_le_bytes_read_back(v, 3);
                lemma_first_byte(v, 3);
            }
        },
        CompressionLevel::Lvl3 => {
            if len == 3 && key < 64 {
                law_le_bytes_read_back(key * 4, 1);
                lemma_first_byte(key * 4, 1);
            } else if len == 3 && key < 0x4000 {
                law_le_bytes_read_back(key * 4 + 1, 2);
                lemma_first_byte(key * 4 + 1, 2);
            } else if len < 19 && key < 0x400 {
                let v = key * 64 + (len - 3) as nat * 4 + 2;
                law_le_bytes_read_back(v, 2);
                lemma_first_byte(v, 2);
                lemma_parts_near(v, key, len);
            } else if len < 34 {
                let v = key * 128 + (len - 2) as nat * 4 + 3;
                law_le_bytes_read_back(v, 3);
                lemma_first_byte(v, 3);
                lemma_parts_far(v, key, len);
            } else {
                let v = key * 0x8000 + (len - 3) as nat * 128 + 3;
                law_le_bytes_read_back(v, 4);
                lemma_first_byte(v, 4);
                lemma_parts_long(v, key, len);
            }
        },
    }
}

/// How many bytes of data the tokens stand for.
pub open spec fn span(tokens: Seq<Token>) -> nat
    decreases tokens.len(),
{
    if tokens.len() == 0 {
        0
    } else {
        span(tokens.drop_last()) + tokens.last().width()
    }
}

/// The bytes of the tokens, one after the other.
pub open spec fn items(level: CompressionLevel, tokens: Seq<Token>) -> Seq<u8>
    decreases tokens.len(),
{
    if tokens.len() == 0 {
        Seq::empty()
    } else {
        items(level, tokens.drop_last()) + tokens.last().bytes(level)
    }
}

/// The bits of the tokens; the first token has the lowest bit.
pub open spec fn control_bits(tokens: Seq<Token>) -> nat
    decreases tokens.len(),
{
    if tokens.len() == 0 {
        0
    } else {
        tokens[0].bit() + 2 * control_bits(tokens.skip(1))
    }
}

/// The number of tokens that one control word covers.
pub const GROUP: usize = 31;

/// A control word followed by its tokens. The highest bit of the control word is
/// always set.
pub open spec fn group(level: CompressionLevel, tokens: Seq<Token>) -> Seq<u8> {
    le_bytes(control_bits(tokens) + 0x8000_0000, 4) + items(level, tokens)
}

/// The body of compressed data.
pub open spec fn frames(level: CompressionLevel, tokens: Seq<Token>) -> Seq<u8>
    decreases tokens.len(),
{
    if tokens.len() <= GROUP {
        group(level, tokens)
    } else {
        group(level, tokens.take(GROUP as int)) + frames(level, tokens.skip(GROUP as int))
    }
}

/// The first byte of a header.
pub open spec fn flags(level: CompressionLevel, compressed: bool, long: bool) -> u8 {
    (0x40 + 4 * level.number() + (if long {
        2int
    } else {
        0
    }) + (if compressed {
        1int
    } else {
        0
    })) as u8
}

/// The length of the header of `size` bytes of data.
pub open spec fn header_len(size: nat) -> nat {
    if size < 216 {
        3
    } else {
        9
    }
}

/// The header of a stream of `total` bytes, itself included, for `size` bytes of
/// data.
pub open spec fn header(
    level: CompressionLevel,
    compressed: bool,
    total: nat,
    size: nat,
) -> Seq<u8> {
    if header_len(size) == 3 {
        seq![flags(level, compressed, false)] + le_bytes(total, 1) + le_bytes(size, 1)
    } else {
        seq![flags(level, compressed, true)] + le_bytes(total, 4) + le_bytes(size, 4)
    }
}

}
