//! Writing a compressed stream token by token.
use vstd::prelude::*;

use crate::bytes::{push_u16, push_u24, push_u32, put_u32};
use crate::format::{Token, GROUP};
use crate::level::CompressionLevel;
#[allow(unused_imports)]
use crate::bytes::{le_bytes, lemma_le_bytes_len, lemma_le_bytes_truncated};
#[allow(unused_imports)]
use crate::format::{control_bits, flags, frames, items, reference_bytes, reference_fits};
#[allow(unused_imports)]
use crate::layout::{
    closed_frames, control_after, lemma_control_after, lemma_control_bits_bound,
    lemma_control_full, lemma_frames_append, lemma_items_push,
};
#[allow(unused_imports)]
use vstd::arithmetic::power2::{lemma2_to64, lemma_pow2_unfold, pow2};

verus! {

/// Writes a header of `header_len` bytes at the start of `dest`, in place of the bytes
/// that are there: a short one of 3 bytes or a long one of 9 bytes. Of each size the low
/// byte or the low four bytes are written.
pub fn write_header(
    dest: &mut Vec<u8>,
    header_len: usize,
    dest_len: usize,
    srclen: usize,
    level: CompressionLevel,
    compressed: bool,
)
    requires
        header_len == 3 || header_len == 9,
        header_len <= old(dest)@.len(),
    ensures
        final(dest)@ == ({
            let k: nat = if header_len == 9 {
                4
            } else {
                1
            };
            seq![flags(level, compressed, header_len == 9)] + le_bytes(dest_len as nat, k)
                + le_bytes(srclen as nat, k) + old(dest)@.skip(header_len as int)
        }),
{
    let n: u8 = level.as_u8();
    assert(n == 1 || n == 3 ==> 0x01u8 | (n << 2) | 0x40 == 0x41 + 4 * n && (n << 2) | 0x40 == 0x40
        + 4 * n && (0x01u8 | (n << 2) | 0x40) | 0x02 == 0x43 + 4 * n && ((n << 2) | 0x40) | 0x02
        == 0x42 + 4 * n) by (bit_vector);
    let flags_byte: u8 = if compressed {
        0x01 | (n << 2) | 0x40
    } else {
        (n << 2) | 0x40
    };
    if header_len == 3 {
        assert(dest_len as u8 == dest_len % 256 && srclen as u8 == srclen % 256) by (bit_vector);
        dest[0] = flags_byte;
        dest[1] = #[verifier::truncate] (dest_len as u8);
        dest[2] = #[verifier::truncate] (srclen as u8);
        proof {
            lemma_le_bytes_len(dest_len as nat, 1);
            lemma_le_bytes_len(srclen as nat, 1);
        }
    } else {
        dest[0] = flags_byte | 0x02;
        proof {
            lemma_le_bytes_len(dest_len as nat, 4);
            lemma_le_bytes_len(srclen as nat, 4);
            lemma_le_bytes_truncated(dest_len as u64);
            lemma_le_bytes_truncated(srclen as u64);
        }
        put_u32(dest, 1, #[verifier::truncate] (dest_len as u32));
        put_u32(dest, 5, #[verifier::truncate] (srclen as u32));
    }
}

/// The bytes of `dest` with the control word `ctrl` at `ctrl_pos`.
pub open spec fn with_control(dest: Seq<u8>, ctrl_pos: int, ctrl: nat) -> Seq<u8> {
    dest.take(ctrl_pos) + le_bytes(ctrl, 4) + dest.skip(ctrl_pos + 4)
}

/// Writes an u32 control sequence.
pub fn write_control(dest: &mut Vec<u8>, ctrl_pos: usize, ctrl: u32)
    requires
        ctrl_pos + 4 <= old(dest)@.len(),
    ensures
        final(dest)@ == with_control(old(dest)@, ctrl_pos as int, ctrl as nat),
{
    put_u32(dest, ctrl_pos, ctrl);
}

/// Completes a full group with its control word, of which `control` holds the bits
/// above a mark in the lowest bit, and adds the place of the next control word.
pub fn begin_group(control: &mut u32, control_pos: &mut usize, dest: &mut Vec<u8>)
    requires
        *old(control_pos) + 4 <= old(dest)@.len(),
    ensures
        final(dest)@ == with_control(
            old(dest)@,
            *old(control_pos) as int,
            (*old(control) / 2 + 0x8000_0000) as nat,
        ) + seq![0u8, 0, 0, 0],
        *final(control_pos) == old(dest)@.len(),
        *final(control) == 0x8000_0000,
{
    let bits: u32 = *control;
    assert((bits >> 1) | (1u32 << 31) == bits / 2 + 0x8000_0000) by (bit_vector);
    assert(1u32 << 31 == 0x8000_0000) by (bit_vector);
    write_control(dest, *control_pos, (bits >> 1) | (1 << 31));
    proof {
        lemma_le_bytes_len((bits / 2 + 0x8000_0000) as nat, 4);
        reveal_with_fuel(le_bytes, 5);
        assert(le_bytes(0, 4) =~= seq![0u8, 0, 0, 0]);
    }
    *control_pos = dest.len();
    push_u32(dest, 0);
    *control = 1 << 31;
}

/// Appends a reference to `dest`, in the shortest form that holds it.
pub(crate) fn write_reference(dest: &mut Vec<u8>, level: CompressionLevel, key: u32, len: u32)
    requires
        reference_fits(level, key as nat, len as nat),
    ensures
        final(dest)@ == old(dest)@ + reference_bytes(level, key as nat, len as nat),
{
    proof {
        reveal(reference_bytes);
    }
    match level {
        CompressionLevel::Lvl1 => {
            if len < 18 {
                let rest: u32 = len - 2;
                assert(key < 4096 && rest < 16 ==> key << 4 | rest == key * 16 + rest)
                    by (bit_vector);
                push_u16(dest, (key << 4 | rest) as u16);
            } else {
                assert(key < 4096 && len <= 255 ==> key << 4 | len << 16 == len * 0x1_0000 + key
                    * 16) by (bit_vector);
                push_u24(dest, key << 4 | len << 16);
            }
        },
        CompressionLevel::Lvl3 => {
            assert(1u32 << 4 == 16 && 1u32 << 5 == 32 && 1u32 << 6 == 64 && 1u32 << 10 == 0x400
                && 1u32 << 14 == 0x4000) by (bit_vector);
            if len == 3 && key < (1 << 6) {
                assert(key < 64 ==> key << 2 == key * 4) by (bit_vector);
                let ghost before = dest@;
                dest.push((key << 2) as u8);
                assert(le_bytes((key * 4) as nat, 1) =~= seq![(key * 4) as u8]) by {
                    lemma_le_bytes_len((key * 4) as nat, 1);
                }
                assert(dest@ =~= before + le_bytes((key * 4) as nat, 1));
            } else if len == 3 && key < (1 << 14) {
                assert(key < 0x4000 ==> (key << 2) | 1 == key * 4 + 1) by (bit_vector);
                push_u16(dest, ((key << 2) | 1) as u16);
            } else if len - 3 < (1 << 4) && key < (1 << 10) {
                let rest: u32 = len - 3;
                assert(key < 0x400 && rest < 16 ==> (key << 6) | (rest << 2) | 2 == key * 64 + rest
                    * 4 + 2) by (bit_vector);
                push_u16(dest, ((key << 6) | (rest << 2) | 2) as u16);
            } else if len - 2 < (1 << 5) {
                let rest: u32 = len - 2;
                assert(key < 0x2_0000 && rest < 32 ==> (key << 7) | (rest << 2) | 3 == key * 128
                    + rest * 4 + 3) by (bit_vector);
                push_u24(dest, (key << 7) | (rest << 2) | 3);
            } else {
                let rest: u32 = len - 3;
                assert(key < 0x2_0000 && rest < 256 ==> (key << 15) | (rest << 7) | 3 == key
                    * 0x8000 + rest * 128 + 3) by (bit_vector);
                push_u32(dest, (key << 15) | (rest << 7) | 3);
            }
        },
    }
}

/// `n` bytes of zero.
pub open spec fn zeros(n: nat) -> Seq<u8> {
    Seq::new(n, |i: int| 0u8)
}

/// A stream that is being written. The bytes of the header and of the last control
/// word are not there yet, only places for them.
pub struct Writer {
    /// The stream.
    pub dest: Vec<u8>,
    /// The level of the references.
    pub level: CompressionLevel,
    /// The length of the header.
    pub header_len: usize,
    /// The bits of the last group, behind a mark.
    pub control: u32,
    /// The place of the last control word.
    pub control_pos: usize,
    /// The tokens of the complete groups.
    pub complete: Ghost<Seq<Token>>,
    /// The tokens of the last group.
    pub last: Ghost<Seq<Token>>,
}

impl Writer {
    /// The tokens that were written.
    pub open spec fn tokens(self) -> Seq<Token> {
        self.complete@ + self.last@
    }

    /// What the stream holds: complete groups behind the place for the header, the
    /// place for a control word, and the tokens of the last group. The places hold
    /// zeros.
    pub open spec fn wf(self) -> bool {
        &&& self.complete@.len() % (GROUP as nat) == 0
        &&& self.last@.len() <= GROUP
        &&& self.control == control_after(self.last@)
        &&& self.header_len <= self.control_pos
        &&& self.control_pos + 4 <= self.dest@.len()
        &&& self.dest@.take(self.header_len as int) == zeros(self.header_len as nat)
        &&& self.dest@.subrange(self.header_len as int, self.control_pos as int) == closed_frames(
            self.level,
            self.complete@,
        )
        &&& self.dest@.subrange(self.control_pos as int, self.control_pos + 4) == zeros(4)
        &&& self.dest@.skip(self.control_pos + 4) == items(self.level, self.last@)
    }

    /// A stream without tokens.
    pub fn new(level: CompressionLevel, header_len: usize) -> (w: Writer)
        requires
            header_len <= usize::MAX - 4,
        ensures
            w.wf(),
            w.tokens() == Seq::<Token>::empty(),
            w.last@.len() == 0,
            w.level == level,
            w.header_len == header_len,
            w.dest@ == zeros((header_len + 4) as nat),
            w.control == 0x8000_0000,
            w.control_pos == header_len,
    {
        let w = Writer {
            dest: vec![0u8; header_len + 4],
            level,
            header_len,
            control: 1 << 31,
            control_pos: header_len,
            complete: Ghost(Seq::empty()),
            last: Ghost(Seq::empty()),
        };
        assert(1u32 << 31 == 0x8000_0000) by (bit_vector);
        assert(w.dest@.take(header_len as int) =~= zeros(header_len as nat));
        assert(w.dest@.subrange(header_len as int, header_len as int) =~= Seq::empty());
        assert(w.dest@.subrange(header_len as int, header_len + 4) =~= zeros(4));
        assert(w.dest@.skip(header_len + 4) =~= Seq::empty());
        assert(w.tokens() =~= Seq::empty());
        w
    }

    /// Whether the last group is full.
    pub fn is_full(&self) -> (b: bool)
        requires
            self.wf(),
        ensures
            b == (self.last@.len() == GROUP),
    {
        let control: u32 = self.control;
        proof {
            lemma_control_full(self.last@);
            assert(control & 1 == control % 2) by (bit_vector);
        }
        control & 1 != 0
    }

    /// The length of the stream.
    pub proof fn lemma_len(self)
        requires
            self.wf(),
            self.complete@.len() > 0 ==> self.last@.len() > 0,
        ensures
            self.dest@.len() == self.header_len + frames(self.level, self.tokens()).len(),
    {
        lemma_frames_append(self.level, self.complete@, self.last@);
        lemma_le_bytes_len(control_bits(self.last@) + 0x8000_0000, 4);
        assert(self.dest@.subrange(self.header_len as int, self.control_pos as int).len()
            == self.control_pos - self.header_len);
        assert(self.dest@.skip(self.control_pos + 4).len() == self.dest@.len() - self.control_pos
            - 4);
    }

    /// Completes the last group, which is full, and begins a new one.
    pub fn next_group(&mut self)
        requires
            old(self).wf(),
            old(self).last@.len() == GROUP,
        ensures
            final(self).wf(),
            final(self).last@.len() == 0,
            final(self).tokens() == old(self).tokens(),
            final(self).level == old(self).level,
            final(self).header_len == old(self).header_len,
            final(self).dest@ == with_control(
                old(self).dest@,
                old(self).control_pos as int,
                (old(self).control / 2 + 0x8000_0000) as nat,
            ) + seq![0u8, 0, 0, 0],
            final(self).control_pos == old(self).dest@.len(),
            final(self).control == 0x8000_0000,
    {
        begin_group(&mut self.control, &mut self.control_pos, &mut self.dest);
        self.complete = Ghost(self.tokens());
        self.last = Ghost(Seq::empty());
        proof {
            lemma_group_begun(*old(self), *self);
        }
    }

    /// Writes a literal.
    pub fn push_literal(&mut self, b: u8)
        requires
            old(self).wf(),
            old(self).last@.len() < GROUP,
        ensures
            final(self).wf(),
            final(self).last@.len() == old(self).last@.len() + 1,
            final(self).tokens() == old(self).tokens().push(Token::Literal(b)),
            final(self).level == old(self).level,
            final(self).header_len == old(self).header_len,
            final(self).dest@ == old(self).dest@.push(b),
            final(self).control == old(self).control / 2,
            final(self).control_pos == old(self).control_pos,
    {
        let control: u32 = self.control;
        assert(control >> 1 == control / 2) by (bit_vector);
        self.dest.push(b);
        self.control = control >> 1;
        self.last = Ghost(self.last@.push(Token::Literal(b)));
        proof {
            assert(self.dest@ =~= old(self).dest@ + Token::Literal(b).bytes(self.level));
            lemma_token_added(*old(self), *self, Token::Literal(b));
        }
    }

    /// Writes a reference.
    pub fn push_reference(&mut self, key: u32, len: u32)
        requires
            old(self).wf(),
            old(self).last@.len() < GROUP,
            reference_fits(old(self).level, key as nat, len as nat),
        ensures
            final(self).wf(),
            final(self).last@.len() == old(self).last@.len() + 1,
            final(self).tokens() == old(self).tokens().push(
                Token::Reference { key: key as nat, len: len as nat },
            ),
            final(self).level == old(self).level,
            final(self).header_len == old(self).header_len,
            final(self).dest@ == old(self).dest@ + reference_bytes(
                old(self).level,
                key as nat,
                len as nat,
            ),
            final(self).control == old(self).control / 2 + 0x8000_0000,
            final(self).control_pos == old(self).control_pos,
    {
        let control: u32 = self.control;
        let ghost token = Token::Reference { key: key as nat, len: len as nat };
        assert((control >> 1) | (1u32 << 31) == control / 2 + 0x8000_0000) by (bit_vector);
        write_reference(&mut self.dest, self.level, key, len);
        self.control = (control >> 1) | (1 << 31);
        self.last = Ghost(self.last@.push(token));
        proof {
            lemma_token_added(*old(self), *self, token);
        }
    }

    /// Completes the last group, which need not be full.
    pub fn finish(&mut self)
        requires
            old(self).wf(),
            old(self).complete@.len() > 0 ==> old(self).last@.len() > 0,
        ensures
            final(self).dest@.skip(old(self).header_len as int) == frames(
                old(self).level,
                old(self).tokens(),
            ),
            final(self).dest@ == with_control(
                old(self).dest@,
                old(self).control_pos as int,
                control_bits(old(self).last@) + 0x8000_0000,
            ),
            *final(self) == (Writer { dest: final(self).dest, ..*old(self) }),
    {
        let mut control: u32 = self.control;
        let ghost odd = 2 * control_bits(self.last@) + 1;
        let ghost mut k: nat = (GROUP - self.last@.len()) as nat;
        proof {
            lemma_control_after(self.last@);
            lemma_control_bits_bound(self.last@);
        }
        loop
            invariant
                control == pow2(k) * odd,
                odd % 2 == 1,
            ensures
                control == odd,
            decreases k,
        {
            proof {
                lemma2_to64();
                assert(control & 1 == control % 2 && control >> 1 == control / 2) by (bit_vector);
                if k > 0 {
                    lemma_pow2_unfold(k);
                    let half = pow2((k - 1) as nat);
                    assert((2 * half) * odd == 2 * (half * odd)) by (nonlinear_arith);
                } else {
                    assert(pow2(0) * odd == odd) by (nonlinear_arith)
                        requires
                            pow2(0) == 1,
                    ;
                }
            }
            if control & 1 != 0 {
                break ;
            }
            control = control >> 1;
            proof {
                k = (k - 1) as nat;
            }
        }
        assert((control >> 1) | (1u32 << 31) == control / 2 + 0x8000_0000) by (bit_vector);
        write_control(&mut self.dest, self.control_pos, (control >> 1) | (1 << 31));
        proof {
            lemma_group_completed(*old(self), self.dest@);
        }
    }
}

/// With its control word the last group is complete.
proof fn lemma_group_completed(before: Writer, dest: Seq<u8>)
    requires
        before.wf(),
        before.complete@.len() > 0 ==> before.last@.len() > 0,
        dest == with_control(
            before.dest@,
            before.control_pos as int,
            control_bits(before.last@) + 0x8000_0000,
        ),
    ensures
        dest.len() == before.dest@.len(),
        dest.take(before.header_len as int) == before.dest@.take(before.header_len as int),
        dest.skip(before.header_len as int) == frames(before.level, before.tokens()),
{
    let h = before.header_len as int;
    let c = before.control_pos as int;
    let word = le_bytes(control_bits(before.last@) + 0x8000_0000, 4);
    lemma_le_bytes_len(control_bits(before.last@) + 0x8000_0000, 4);
    lemma_frames_append(before.level, before.complete@, before.last@);
    assert(dest.take(h) =~= before.dest@.take(h));
    assert(dest.skip(h) =~= before.dest@.subrange(h, c) + (word + before.dest@.skip(c + 4)));
}

/// Completing a full group and beginning a new one keeps a stream what it should be.
pub proof fn lemma_group_begun(before: Writer, after: Writer)
    requires
        before.wf(),
        before.last@.len() == GROUP,
        after.dest@ == with_control(
            before.dest@,
            before.control_pos as int,
            (before.control / 2 + 0x8000_0000) as nat,
        ) + seq![0u8, 0, 0, 0],
        after.control_pos == before.dest@.len(),
        after.control == 0x8000_0000,
        after.header_len == before.header_len,
        after.level == before.level,
        after.complete@ == before.tokens(),
        after.last@ == Seq::<Token>::empty(),
    ensures
        after.wf(),
        after.tokens() == before.tokens(),
{
    let h = before.header_len as int;
    let c = after.control_pos as int;
    let dest = with_control(
        before.dest@,
        before.control_pos as int,
        (before.control / 2 + 0x8000_0000) as nat,
    );
    lemma_control_full(before.last@);
    lemma_group_completed(before, dest);
    assert(after.tokens() =~= before.tokens());
    assert(after.dest@.take(h) =~= dest.take(h));
    assert(after.dest@.subrange(h, c) =~= dest.skip(h));
    assert(after.dest@.subrange(c, c + 4) =~= zeros(4));
    assert(after.dest@.skip(c + 4) =~= Seq::empty());
}

/// Adding the bytes and the bit of a token keeps a stream what it should be.
proof fn lemma_token_added(before: Writer, after: Writer, token: Token)
    requires
        before.wf(),
        before.last@.len() < GROUP,
        after.dest@ == before.dest@ + token.bytes(before.level),
        after.control == before.control / 2 + token.bit() * 0x8000_0000,
        after.control_pos == before.control_pos,
        after.header_len == before.header_len,
        after.level == before.level,
        after.complete == before.complete,
        after.last@ == before.last@.push(token),
    ensures
        after.wf(),
        after.tokens() == before.tokens().push(token),
{
    let h = before.header_len as int;
    let c = before.control_pos as int;
    lemma_items_push(before.level, before.last@, token);
    assert(after.last@.drop_last() =~= before.last@);
    assert(after.tokens() =~= before.tokens().push(token));
    assert(after.dest@.take(h) =~= before.dest@.take(h));
    assert(after.dest@.subrange(h, c) =~= before.dest@.subrange(h, c));
    assert(after.dest@.subrange(c, c + 4) =~= before.dest@.subrange(c, c + 4));
    assert(after.dest@.skip(c + 4) =~= before.dest@.skip(c + 4) + token.bytes(before.level));
}

}
