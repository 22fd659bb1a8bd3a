//! Decompression, as a machine that is fed with the bytes it asks for.
use vstd::prelude::*;

use crate::bytes::get_u32;
use crate::error::{format_number, push_decimal, Error, IoError};
use crate::level::CompressionLevel;
use crate::reference::{copy_buffer_bytes, parse_level_1, parse_level_3};
use crate::state::{Phase, State};
use crate::table::{update_hashtable, HASHTABLE_SIZE};
#[allow(unused_imports)]
use crate::format::extra_len;
#[allow(unused_imports)]
use crate::reference::lemma_copied_len;
#[allow(unused_imports)]
use crate::state::{decompressed, run, sizes_of};

verus! {

/// A decompressor that does no input of its own: it tells how many bytes it
/// needs next and is fed with them.
pub struct Decoder {
    max_size: u32,
    phase: Phase,
    level: CompressionLevel,
    dec_size: u32,
    control: u32,
    out: Vec<u8>,
    table: Box<[u32; HASHTABLE_SIZE]>,
    next_hashed: usize,
}

impl View for Decoder {
    type V = State;

    closed spec fn view(&self) -> State {
        State {
            max_size: self.max_size,
            phase: self.phase,
            level: self.level,
            dec_size: self.dec_size,
            control: self.control,
            out: self.out@,
            table: self.table@,
            next_hashed: self.next_hashed as int,
        }
    }
}

/// The lowest bits and the halves of control words and flags.
proof fn lemma_low_bits(control: u32, flags: u8)
    ensures
        control >> 1 == control / 2,
        control & 1 == control % 2,
        (flags >> 2) & 0b11 == flags / 4 % 4,
        (flags & 2 == 2) == (flags / 2 % 2 == 1),
        flags & 1 == flags % 2,
{
    assert(control >> 1 == control / 2) by (bit_vector);
    assert(control & 1 == control % 2) by (bit_vector);
    assert((flags >> 2) & 0b11 == flags / 4 % 4 && (flags & 2 == 2) == (flags / 2 % 2 == 1) && flags
        & 1 == flags % 2) by (bit_vector);
}

impl Decoder {
    /// A decoder for a stream of at most `max_size` bytes of data.
    pub fn new(max_size: u32) -> (d: Decoder)
        ensures
            d@ == State::start(max_size),
            d@.wf(),
    {
        let d = Decoder {
            max_size,
            phase: Phase::Flags,
            level: CompressionLevel::Lvl1,
            dec_size: 0,
            control: 1,
            out: Vec::new(),
            table: Box::new([0u32; HASHTABLE_SIZE]),
            next_hashed: 0,
        };
        assert(d@.table =~= State::start(max_size).table);
        d
    }

    /// How many bytes the decoder needs next; zero when the data are complete.
    pub fn needed(&self) -> (n: usize)
        requires
            self@.wf(),
        ensures
            n == self@.needed(),
            n == 0 <==> self@.phase == Phase::Done,
    {
        match self.phase {
            Phase::Flags => 1,
            Phase::Sizes { flags } => {
                proof {
                    lemma_low_bits(0, flags);
                }
                if flags & 2 == 2 {
                    8
                } else {
                    2
                }
            },
            Phase::Stored => self.dec_size as usize,
            Phase::Control => 4,
            Phase::Head => 1,
            Phase::Extra { head } => Decoder::extra_len(self.level, head),
            Phase::Literal => 1,
            Phase::Skip => 4,
            Phase::Last => 1,
            Phase::Done => 0,
        }
    }

    /// How many bytes of a reference follow its first byte.
    fn extra_len(level: CompressionLevel, head: u8) -> (n: usize)
        ensures
            n == extra_len(level, head),
    {
        match level {
            CompressionLevel::Lvl1 => if head % 16 == 0 {
                2
            } else {
                1
            },
            CompressionLevel::Lvl3 => if head % 4 == 0 {
                0
            } else if head % 4 != 3 {
                1
            } else if head % 128 == 3 {
                3
            } else {
                2
            },
        }
    }

    fn next(&mut self)
        ensures
            final(self)@ == old(self)@.next(),
    {
        if self.control == 1 {
            self.phase = Phase::Control;
        } else {
            self.dispatch();
        }
    }

    fn dispatch(&mut self)
        ensures
            final(self)@ == old(self)@.dispatch(),
    {
        proof {
            lemma_low_bits(self.control, 0);
        }
        if self.control & 1 == 1 {
            self.phase = Phase::Head;
        } else if self.dec_size <= 10 || self.out.len() >= self.dec_size as usize - 10 {
            self.last();
        } else {
            self.phase = Phase::Literal;
        }
    }

    fn last(&mut self)
        ensures
            final(self)@ == old(self)@.last(),
    {
        if self.out.len() >= self.dec_size as usize {
            self.phase = Phase::Done;
        } else if self.control == 1 {
            self.phase = Phase::Skip;
        } else {
            self.phase = Phase::Last;
        }
    }

    /// Takes in the bytes that come next. An error leaves the decoder as it is.
    pub fn feed(&mut self, bytes: &[u8]) -> (r: Result<(), Error>)
        requires
            old(self)@.wf(),
            old(self)@.phase != Phase::Done,
            bytes@.len() == old(self)@.needed(),
        ensures
            final(self)@.wf(),
            match old(self)@.feed(bytes@) {
                Ok(state) => r is Ok && final(self)@ == state,
                Err(error) => r matches Err(e) && e@ == error && final(self)@ == old(self)@,
            },
    {
        match self.phase {
            Phase::Flags => self.feed_flags(bytes[0]),
            Phase::Sizes { flags } => self.feed_sizes(flags, bytes),
            Phase::Stored => {
                self.out = vstd::slice::slice_to_vec(bytes);
                self.phase = Phase::Done;
                Ok(())
            },
            Phase::Control => {
                assert(bytes@.take(4) =~= bytes@);
                self.control = get_u32(bytes);
                self.dispatch();
                Ok(())
            },
            Phase::Head => {
                let head: u8 = bytes[0];
                if Decoder::extra_len(self.level, head) == 0 {
                    assert(bytes@ =~= seq![head] + bytes@.skip(1));
                    self.feed_reference(head, vstd::slice::slice_subrange(bytes, 1, 1))
                } else {
                    self.phase = Phase::Extra { head };
                    Ok(())
                }
            },
            Phase::Extra { head } => self.feed_reference(head, bytes),
            Phase::Literal => {
                self.feed_literal(bytes[0]);
                self.next();
                Ok(())
            },
            Phase::Skip => {
                self.phase = Phase::Last;
                Ok(())
            },
            Phase::Last => {
                proof {
                    lemma_low_bits(self.control, 0);
                }
                self.out.push(bytes[0]);
                self.control = self.control >> 1;
                self.last();
                Ok(())
            },
            Phase::Done => Ok(()),
        }
    }

    fn feed_flags(&mut self, flags: u8) -> (r: Result<(), Error>)
        requires
            old(self)@.wf(),
            old(self)@.phase == Phase::Flags,
        ensures
            final(self)@.wf(),
            match old(self)@.feed_flags(flags) {
                Ok(state) => r is Ok && final(self)@ == state,
                Err(error) => r matches Err(e) && e@ == error && final(self)@ == old(self)@,
            },
    {
        proof {
            lemma_low_bits(0, flags);
        }
        let level: u8 = (flags >> 2) & 0b11;
        if level != 3 && level != 1 {
            return Err(Error::UnsupportedLevel);
        }
        self.phase = Phase::Sizes { flags };
        Ok(())
    }

    fn feed_sizes(&mut self, flags: u8, bytes: &[u8]) -> (r: Result<(), Error>)
        requires
            old(self)@.wf(),
            old(self)@.phase == (Phase::Sizes { flags }),
            bytes@.len() == old(self)@.needed(),
        ensures
            final(self)@.wf(),
            match old(self)@.feed_sizes(flags, sizes_of(flags, bytes@)) {
                Ok(state) => r is Ok && final(self)@ == state,
                Err(error) => r matches Err(e) && e@ == error && final(self)@ == old(self)@,
            },
    {
        proof {
            lemma_low_bits(0, flags);
        }
        let header_len: u32 = if flags & 2 == 2 {
            9
        } else {
            3
        };
        let comp_size: u32;
        let dec_size: u32;
        if header_len == 3 {
            comp_size = bytes[0] as u32;
            dec_size = bytes[1] as u32;
        } else {
            let second = vstd::slice::slice_subrange(bytes, 4, 8);
            assert(second@.take(4) =~= bytes@.skip(4));
            comp_size = get_u32(bytes);
            dec_size = get_u32(second);
        }
        if dec_size > self.max_size {
            return Err(Error::SizeLimitExceeded { dec: dec_size, max: self.max_size });
        }
        if comp_size < header_len {
            return Err(
                Error::CorruptData(format_number("Invalid compressed size: ", comp_size, "")),
            );
        }
        if flags & 1 != 1 {
            if comp_size - header_len != dec_size {
                let mut text = format_number(
                    "Compressed and uncompressed size of uncompressed data do not match (",
                    comp_size - header_len,
                    " != ",
                );
                push_decimal(&mut text, dec_size);
                text.append(")");
                return Err(Error::CorruptData(text));
            }
        }
        self.level = if (flags >> 2) & 0b11 == 1 {
            CompressionLevel::Lvl1
        } else {
            CompressionLevel::Lvl3
        };
        self.dec_size = dec_size;
        if flags & 1 != 1 {
            if dec_size == 0 {
                self.phase = Phase::Done;
            } else {
                self.phase = Phase::Stored;
            }
        } else {
            self.out.reserve(dec_size as usize);
            self.next();
        }
        Ok(())
    }

    fn feed_literal(&mut self, b: u8)
        requires
            old(self)@.wf(),
            old(self)@.phase == Phase::Literal,
        ensures
            final(self)@ == old(self)@.feed_literal(b),
    {
        proof {
            lemma_low_bits(self.control, 0);
        }
        self.out.push(b);
        self.control = self.control >> 1;
        if self.level == CompressionLevel::Lvl1 {
            let end: usize = self.out.len().saturating_sub(2);
            update_hashtable(&mut self.table, &self.out, self.next_hashed, end);
            if self.next_hashed < end {
                self.next_hashed = end;
            }
        }
    }

    /// Copies earlier data behind the data, within the size that the header
    /// tells.
    fn copy(&mut self, start: usize, matchlen: u32) -> (r: Result<(), Error>)
        requires
            old(self)@.wf(),
            3 <= matchlen <= 258,
        ensures
            match old(self)@.copy(start as int, matchlen as nat) {
                Ok(out) => r is Ok && final(self)@ == (State { out, ..old(self)@ }),
                Err(error) => r matches Err(e) && e@ == error && final(self)@ == old(self)@,
            },
            r is Ok ==> final(self)@.out.len() == old(self)@.out.len() + matchlen,
    {
        proof {
            lemma_copied_len(self.out@, start as int, matchlen as nat);
        }
        match (self.out.len() as u32).checked_add(matchlen) {
            Some(len) => {
                if len > self.dec_size {
                    return Err(
                        Error::CorruptData(
                            format_number("Decompressed size exceeded (", self.dec_size, ")"),
                        ),
                    );
                }
            },
            None => {
                return Err(
                    Error::CorruptData(
                        format_number("Too big length in QuickLZ reference (", matchlen, ")"),
                    ),
                );
            },
        }
        copy_buffer_bytes(&mut self.out, start, matchlen as usize)
    }

    fn feed_reference(&mut self, head: u8, extra: &[u8]) -> (r: Result<(), Error>)
        requires
            old(self)@.wf(),
            extra@.len() == extra_len(old(self)@.level, head),
        ensures
            final(self)@.wf(),
            match old(self)@.feed_reference(seq![head] + extra@) {
                Ok(state) => r is Ok && final(self)@ == state,
                Err(error) => r matches Err(e) && e@ == error && final(self)@ == old(self)@,
            },
    {
        proof {
            lemma_low_bits(self.control, 0);
        }
        match self.level {
            CompressionLevel::Lvl1 => {
                let (hash, matchlen) = parse_level_1(head, extra);
                if matchlen < 3 {
                    return Err(
                        Error::CorruptData(
                            format_number(
                                "Too small length for QuickLZ reference (",
                                matchlen as u32,
                                ")",
                            ),
                        ),
                    );
                }
                let offset: u32 = self.table[hash as usize];
                self.copy(offset as usize, matchlen as u32)?;
                let end: usize = self.out.len() - (matchlen as usize - 1);
                update_hashtable(&mut self.table, &self.out, self.next_hashed, end);
                self.next_hashed = self.out.len();
                self.control = self.control >> 1;
                self.next();
                Ok(())
            },
            CompressionLevel::Lvl3 => {
                let (offset, matchlen) = parse_level_3(head, extra);
                if self.out.len() < offset as usize {
                    return Err(
                        Error::CorruptData("Too big offset in QuickLZ reference".to_owned()),
                    );
                }
                self.copy(self.out.len() - offset as usize, matchlen)?;
                self.control = self.control >> 1;
                self.next();
                Ok(())
            },
        }
    }

    /// The data, once they are complete.
    pub fn finish(self) -> (out: Vec<u8>)
        requires
            self@.phase == Phase::Done,
        ensures
            out@ == self@.out,
    {
        self.out
    }
}

/// Decompresses the data at the front of `r`, and moves `r` behind what was read.
///
/// The decompressed size is limited to `max_size`. An error is returned if the
/// data would be larger, if they are compressed at a level other than 1 and 3, if
/// they are corrupt, and if `r` ends too early. In case of an error, some of the
/// data that belong to the stream may still be in `r`.
pub fn decompress<'a>(r: &mut &'a [u8], max_size: u32) -> (res: Result<Vec<u8>, Error>)
    ensures
        final(r)@ == decompressed(old(r)@, max_size).rest,
        match decompressed(old(r)@, max_size).result {
            Ok(data) => res matches Ok(out) && out@ == data,
            Err(error) => res matches Err(e) && e@ == error,
        },
{
    let mut decoder = Decoder::new(max_size);
    let mut rest: &'a [u8] = *r;
    loop
        invariant
            decoder@.wf(),
            run(decoder@, rest@) == decompressed(old(r)@, max_size),
        decreases rest@.len(),
    {
        let n = decoder.needed();
        if n == 0 {
            *r = rest;
            return Ok(decoder.finish());
        }
        if rest.len() < n {
            *r = rest;
            return Err(Error::Io(IoError::UnexpectedEof));
        }
        let bytes = vstd::slice::slice_subrange(rest, 0, n);
        assert(bytes@ =~= rest@.take(n as int));
        let fed = decoder.feed(bytes);
        rest = vstd::slice::slice_subrange(rest, n, rest.len());
        if let Err(e) = fed {
            *r = rest;
            return Err(e);
        }
    }
}

}
