//! What a stream means: the states that its bytes lead through, and the data.
use vstd::prelude::*;

use crate::level::CompressionLevel;
#[allow(unused_imports)]
use crate::bytes::le_value;
#[allow(unused_imports)]
use crate::error::{decimal, numbered, ErrorView, IoError};
#[allow(unused_imports)]
use crate::format::{extra_len, reference_of};
#[allow(unused_imports)]
use crate::reference::copied;
#[allow(unused_imports)]
use crate::table::{hashed, HASHTABLE_SIZE};

verus! {

/// What the next bytes of a stream are.
#[derive(Debug, Clone, Copy, PartialEq, Eq, Structural)]
pub enum Phase {
    /// The first byte of the header.
    Flags,
    /// The two sizes of the header.
    Sizes { flags: u8 },
    /// Data that were not compressed.
    Stored,
    /// A control word.
    Control,
    /// The first byte of a reference.
    Head,
    /// The other bytes of a reference.
    Extra { head: u8 },
    /// A byte of data.
    Literal,
    /// A control word among the last bytes of the data, where it is not needed.
    Skip,
    /// One of the last bytes of the data.
    Last,
    /// Nothing: the data are complete.
    Done,
}

/// How far a stream was read, and what came out of it.
#[verifier::ext_equal]
pub struct State {
    /// The greatest decompressed size that is accepted.
    pub max_size: u32,
    pub phase: Phase,
    pub level: CompressionLevel,
    /// The decompressed size that the header tells.
    pub dec_size: u32,
    /// The control bits that are left.
    pub control: u32,
    /// The data so far.
    pub out: Seq<u8>,
    /// The positions that references of level 1 lead to.
    pub table: Seq<u32>,
    /// The first position that was not yet considered for the table.
    pub next_hashed: int,
}

/// An error that tells what is wrong with the data.
pub open spec fn corrupt<T>(text: Seq<char>) -> Result<T, ErrorView> {
    Err(ErrorView::CorruptData(text))
}

/// The level that the first byte of a header tells.
pub open spec fn level_of(flags: u8) -> CompressionLevel {
    if flags / 4 % 4 == 1 {
        CompressionLevel::Lvl1
    } else {
        CompressionLevel::Lvl3
    }
}

/// Whether the first byte of a header begins a header of nine bytes.
pub open spec fn is_long(flags: u8) -> bool {
    flags / 2 % 2 == 1
}

/// The size of the stream and of the data, from the bytes of a header that
/// follow the first.
pub open spec fn sizes_of(flags: u8, bytes: Seq<u8>) -> (u32, u32) {
    if is_long(flags) {
        (le_value(bytes.take(4)) as u32, le_value(bytes.skip(4)) as u32)
    } else {
        (bytes[0] as u32, bytes[1] as u32)
    }
}

impl State {
    /// The state before the first byte.
    pub open spec fn start(max_size: u32) -> State {
        State {
            max_size,
            phase: Phase::Flags,
            level: CompressionLevel::Lvl1,
            dec_size: 0,
            control: 1,
            out: Seq::empty(),
            table: Seq::new(HASHTABLE_SIZE as nat, |i: int| 0u32),
            next_hashed: 0,
        }
    }

    /// How many bytes come next. No more are needed when this is zero.
    pub open spec fn needed(self) -> nat {
        match self.phase {
            Phase::Flags => 1,
            Phase::Sizes { flags } => if is_long(flags) {
                8
            } else {
                2
            },
            Phase::Stored => self.dec_size as nat,
            Phase::Control => 4,
            Phase::Head => 1,
            Phase::Extra { head } => extra_len(self.level, head),
            Phase::Literal => 1,
            Phase::Skip => 4,
            Phase::Last => 1,
            Phase::Done => 0,
        }
    }

    /// What holds of every state that a stream leads to.
    pub open spec fn wf(self) -> bool {
        &&& self.table.len() == HASHTABLE_SIZE
        &&& self.dec_size <= self.max_size
        &&& self.out.len() <= self.dec_size
        &&& 0 <= self.next_hashed <= self.out.len()
        &&& match self.phase {
            Phase::Flags => self.out.len() == 0,
            Phase::Sizes { flags } => self.out.len() == 0 && (flags / 4 % 4 == 1 || flags / 4 % 4
                == 3),
            Phase::Stored => self.dec_size > 0,
            Phase::Control | Phase::Head => true,
            Phase::Extra { head } => extra_len(self.level, head) > 0,
            Phase::Literal => self.out.len() + 10 < self.dec_size,
            Phase::Skip | Phase::Last => self.out.len() < self.dec_size,
            Phase::Done => self.out.len() == self.dec_size,
        }
    }

    /// Turns to the next token; a control word comes first where the last one is
    /// used up.
    pub open spec fn next(self) -> State {
        if self.control == 1 {
            State { phase: Phase::Control, ..self }
        } else {
            self.dispatch()
        }
    }

    /// Turns to the next token, whose control bit is there.
    pub open spec fn dispatch(self) -> State {
        if self.control % 2 == 1 {
            State { phase: Phase::Head, ..self }
        } else if self.out.len() + 10 >= self.dec_size {
            self.last()
        } else {
            State { phase: Phase::Literal, ..self }
        }
    }

    /// Turns to the next of the last bytes of the data.
    pub open spec fn last(self) -> State {
        if self.out.len() >= self.dec_size {
            State { phase: Phase::Done, ..self }
        } else if self.control == 1 {
            State { phase: Phase::Skip, ..self }
        } else {
            State { phase: Phase::Last, ..self }
        }
    }

    /// The state after `bytes`, the bytes that come next.
    pub open spec fn feed(self, bytes: Seq<u8>) -> Result<State, ErrorView> {
        match self.phase {
            Phase::Flags => self.feed_flags(bytes[0]),
            Phase::Sizes { flags } => self.feed_sizes(flags, sizes_of(flags, bytes)),
            Phase::Stored => Ok(State { out: bytes, phase: Phase::Done, ..self }),
            Phase::Control => Ok(State { control: le_value(bytes) as u32, ..self }.dispatch()),
            Phase::Head => if extra_len(self.level, bytes[0]) == 0 {
                self.feed_reference(bytes)
            } else {
                Ok(State { phase: Phase::Extra { head: bytes[0] }, ..self })
            },
            Phase::Extra { head } => self.feed_reference(seq![head] + bytes),
            Phase::Literal => Ok(self.feed_literal(bytes[0]).next()),
            Phase::Skip => Ok(State { phase: Phase::Last, ..self }),
            Phase::Last => Ok(
                State { out: self.out.push(bytes[0]), control: self.control / 2, ..self }.last(),
            ),
            Phase::Done => Ok(self),
        }
    }

    /// The first byte of the header: only level 1 and 3 are supported.
    pub open spec fn feed_flags(self, flags: u8) -> Result<State, ErrorView> {
        if flags / 4 % 4 == 1 || flags / 4 % 4 == 3 {
            Ok(State { phase: Phase::Sizes { flags }, ..self })
        } else {
            Err(ErrorView::UnsupportedLevel)
        }
    }

    /// The sizes in the header: the data may not be too large, and the stream
    /// holds at least its header. Data that are stored as they are have the size
    /// that the stream has room for.
    pub open spec fn feed_sizes(self, flags: u8, sizes: (u32, u32)) -> Result<State, ErrorView> {
        let (comp, dec) = sizes;
        let header: int = if is_long(flags) {
            9
        } else {
            3
        };
        let known = State { level: level_of(flags), dec_size: dec, ..self };
        if dec > self.max_size {
            Err(ErrorView::SizeLimitExceeded { dec, max: self.max_size })
        } else if comp < header {
            corrupt(numbered("Invalid compressed size: "@, comp as nat, ""@))
        } else if flags % 2 == 1 {
            Ok(known.next())
        } else if comp - header != dec {
            corrupt(
                numbered(
                    "Compressed and uncompressed size of uncompressed data do not match ("@,
                    (comp - header) as nat,
                    " != "@,
                ) + decimal(dec as nat) + ")"@,
            )
        } else if dec == 0 {
            Ok(State { phase: Phase::Done, ..known })
        } else {
            Ok(State { phase: Phase::Stored, ..known })
        }
    }

    /// A byte of data. At level 1 the positions whose three bytes are complete,
    /// but for the last of them, go into the table.
    pub open spec fn feed_literal(self, b: u8) -> State {
        let out = self.out.push(b);
        let end: int = if out.len() < 2 {
            0
        } else {
            out.len() - 2
        };
        let read = State { out, control: self.control / 2, ..self };
        match self.level {
            CompressionLevel::Lvl1 => State {
                table: hashed(self.table, out, self.next_hashed, end),
                next_hashed: if self.next_hashed < end {
                    end
                } else {
                    self.next_hashed
                },
                ..read
            },
            CompressionLevel::Lvl3 => read,
        }
    }

    /// The data with `len` bytes copied from `start`, which may not exceed the
    /// size that the header tells.
    pub open spec fn copy(self, start: int, len: nat) -> Result<Seq<u8>, ErrorView> {
        if self.out.len() + len > u32::MAX {
            corrupt(numbered("Too big length in QuickLZ reference ("@, len, ")"@))
        } else if self.out.len() + len > self.dec_size {
            corrupt(numbered("Decompressed size exceeded ("@, self.dec_size as nat, ")"@))
        } else if start >= self.out.len() {
            corrupt("Invalid back reference in QuickLZ"@)
        } else {
            Ok(copied(self.out, start, len))
        }
    }

    /// A reference, all of whose bytes are there. At level 1 it leads to the
    /// position in the table, and the positions up to its own go into the table;
    /// those behind, which it stands for, do not. At level 3 it leads to the
    /// position at its distance.
    pub open spec fn feed_reference(self, bytes: Seq<u8>) -> Result<State, ErrorView> {
        let (key, len) = reference_of(self.level, bytes);
        match self.level {
            CompressionLevel::Lvl1 => if len < 3 {
                corrupt(numbered("Too small length for QuickLZ reference ("@, len, ")"@))
            } else {
                match self.copy(self.table[key as int] as int, len) {
                    Ok(out) => Ok(
                        State {
                            out,
                            control: self.control / 2,
                            table: hashed(
                                self.table,
                                out,
                                self.next_hashed,
                                out.len() + 1 - len,
                            ),
                            next_hashed: out.len() as int,
                            ..self
                        }.next(),
                    ),
                    Err(e) => Err(e),
                }
            },
            CompressionLevel::Lvl3 => if self.out.len() < key {
                corrupt("Too big offset in QuickLZ reference"@)
            } else {
                match self.copy(self.out.len() - key, len) {
                    Ok(out) => Ok(State { out, control: self.control / 2, ..self }.next()),
                    Err(e) => Err(e),
                }
            },
        }
    }
}

/// What comes of an input: the data or an error, and the input that is left.
#[verifier::ext_equal]
pub struct Outcome {
    pub result: Result<Seq<u8>, ErrorView>,
    pub rest: Seq<u8>,
}

/// What comes of `input` from `state` on: the bytes that are needed are taken off
/// until no more are needed.
pub open spec fn run(state: State, input: Seq<u8>) -> Outcome
    decreases input.len(),
{
    let n = state.needed() as int;
    if n == 0 {
        Outcome { result: Ok(state.out), rest: input }
    } else if input.len() < n {
        Outcome { result: Err(ErrorView::Io(IoError::UnexpectedEof)), rest: input }
    } else {
        match state.feed(input.take(n)) {
            Ok(next) => run(next, input.skip(n)),
            Err(e) => Outcome { result: Err(e), rest: input.skip(n) },
        }
    }
}

/// What decompressing `input` gives.
pub open spec fn decompressed(input: Seq<u8>, max_size: u32) -> Outcome {
    run(State::start(max_size), input)
}

}
