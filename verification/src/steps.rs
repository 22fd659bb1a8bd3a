//! What each step of decompression does, and how the steps make up the whole.
use vstd::prelude::*;

use crate::level::CompressionLevel;
use crate::state::{Outcome, Phase, State};
#[allow(unused_imports)]
use crate::bytes::lemma_le_value_small;
#[allow(unused_imports)]
use crate::error::{decimal, ErrorView, IoError};
#[allow(unused_imports)]
use crate::fields::{
    law_bytes_number, law_reference_fields_level_1, law_reference_fields_level_3,
};
#[allow(unused_imports)]
use crate::format::reference_of;
#[allow(unused_imports)]
use crate::laws::law_hashed;
#[allow(unused_imports)]
use crate::reference::{copied, law_copied_bytes, lemma_copied_len};
#[allow(unused_imports)]
use crate::state::{decompressed, run};
#[allow(unused_imports)]
use crate::table::{hash_at, hashed};

verus! {

/// Decompression begins without data, with the first byte of a header, and with
/// position 0 for every hash.
pub proof fn law_start(input: Seq<u8>, max_size: u32, h: int)
    requires
        0 <= h < 4096,
    ensures
        ({
            let s = State::start(max_size);
            &&& decompressed(input, max_size) == run(s, input)
            &&& s.max_size == max_size
            &&& s.phase == Phase::Flags
            &&& s.control == 1
            &&& s.out == Seq::<u8>::empty()
            &&& s.table.len() == 4096
            &&& s.table[h] == 0
            &&& s.next_hashed == 0
        }),
{
}

/// How many bytes each step takes.
pub proof fn law_step_sizes(s: State)
    ensures
        s.needed() == match s.phase {
            Phase::Flags | Phase::Head | Phase::Literal | Phase::Last => 1int,
            Phase::Sizes { flags } => if flags / 2 % 2 == 1 {
                8
            } else {
                2
            },
            Phase::Stored => s.dec_size as int,
            Phase::Control | Phase::Skip => 4,
            Phase::Extra { head } => if s.level == CompressionLevel::Lvl1 {
                if head % 16 == 0 {
                    2
                } else {
                    1
                }
            } else if head % 4 == 0 {
                0
            } else if head % 4 == 3 {
                if head % 128 == 3 {
                    3
                } else {
                    2
                }
            } else {
                1
            },
            Phase::Done => 0,
        },
{
}

/// A step takes its bytes off the input, and what comes of the others is what comes of
/// them alone. An error ends decompression.
pub proof fn law_step(s: State, bytes: Seq<u8>, rest: Seq<u8>)
    requires
        bytes.len() == s.needed(),
        bytes.len() > 0,
    ensures
        s.feed(bytes) matches Ok(next) ==> run(s, bytes + rest) == run(next, rest),
        s.feed(bytes) matches Err(e) ==> run(s, bytes + rest) == (Outcome { result: Err(e), rest }),
{
    assert((bytes + rest).take(bytes.len() as int) =~= bytes);
    assert((bytes + rest).skip(bytes.len() as int) =~= rest);
}

/// Where no bytes are needed the data are complete, and where they are missing the input
/// ended too early. The input that is left stays.
pub proof fn law_last_step(s: State, input: Seq<u8>)
    ensures
        s.needed() == 0 ==> run(s, input) == (Outcome { result: Ok(s.out), rest: input }),
        input.len() < s.needed() ==> run(s, input) == (Outcome {
            result: Err(ErrorView::Io(IoError::UnexpectedEof)),
            rest: input,
        }),
{
}

/// The first byte of a header is kept if its level is 1 or 3.
pub proof fn law_flags_step(s: State, flags: u8)
    requires
        s.phase == Phase::Flags,
    ensures
        flags / 4 % 4 == 1 || flags / 4 % 4 == 3 ==> s.feed(seq![flags]) == Ok::<State, ErrorView>(
            State { phase: Phase::Sizes { flags }, ..s },
        ),
        flags / 4 % 4 == 0 || flags / 4 % 4 == 2 ==> s.feed(seq![flags]) == Err::<
            State,
            ErrorView,
        >(ErrorView::UnsupportedLevel),
{
}

/// The sizes in a header. The data may not be larger than what is accepted, the stream
/// not smaller than its header, and both sizes agree where the data are stored as they
/// are. The level is what the flags say, whatever the sizes are.
#[verifier::rlimit(50)]
pub proof fn law_sizes_step(s: State, flags: u8, bytes: Seq<u8>, comp: u32, dec: u32)
    requires
        s.phase == (Phase::Sizes { flags }),
        s.control == 1,
        flags / 2 % 2 == 0 ==> bytes.len() == 2 && comp == bytes[0] && dec == bytes[1],
        flags / 2 % 2 == 1 ==> {
            &&& bytes.len() == 8
            &&& comp == bytes[0] + 0x100 * bytes[1] + 0x1_0000 * bytes[2] + 0x100_0000 * bytes[3]
            &&& dec == bytes[4] + 0x100 * bytes[5] + 0x1_0000 * bytes[6] + 0x100_0000 * bytes[7]
        },
    ensures
        ({
            let n: int = if flags / 2 % 2 == 1 {
                9
            } else {
                3
            };
            let level = if flags / 4 % 4 == 1 {
                CompressionLevel::Lvl1
            } else {
                CompressionLevel::Lvl3
            };
            let r = s.feed(bytes);
            &&& dec > s.max_size ==> r == Err::<State, ErrorView>(
                ErrorView::SizeLimitExceeded { dec, max: s.max_size },
            )
            &&& dec <= s.max_size && comp < n ==> r == Err::<State, ErrorView>(
                ErrorView::CorruptData("Invalid compressed size: "@ + decimal(comp as nat)),
            )
            &&& dec <= s.max_size && comp >= n && flags % 2 == 0 && comp - n != dec ==> r == Err::<
                State,
                ErrorView,
            >(
                ErrorView::CorruptData(
                    "Compressed and uncompressed size of uncompressed data do not match ("@
                        + decimal((comp - n) as nat) + " != "@ + decimal(dec as nat) + ")"@,
                ),
            )
            &&& dec <= s.max_size && comp >= n && flags % 2 == 0 && comp - n == dec ==> r == Ok::<
                State,
                ErrorView,
            >(
                State {
                    level,
                    dec_size: dec,
                    phase: if dec == 0 {
                        Phase::Done
                    } else {
                        Phase::Stored
                    },
                    ..s
                },
            )
            &&& dec <= s.max_size && comp >= n && flags % 2 == 1 ==> r == Ok::<State, ErrorView>(
                State { level, dec_size: dec, phase: Phase::Control, ..s },
            )
        }),
{
    if flags / 2 % 2 == 1 {
        lemma_le_value_small(bytes.take(4));
        lemma_le_value_small(bytes.skip(4));
    }
    reveal_strlit("");
    let first = "Invalid compressed size: "@ + decimal(comp as nat);
    assert(first + ""@ =~= first);
}

/// Data that are stored as they are come out as they are.
pub proof fn law_stored_step(s: State, bytes: Seq<u8>)
    requires
        s.phase == Phase::Stored,
        bytes.len() == s.dec_size,
    ensures
        s.feed(bytes) == Ok::<State, ErrorView>(State { out: bytes, phase: Phase::Done, ..s }),
{
}

/// A control word is read, and its lowest bit tells what comes next.
#[verifier::rlimit(50)]
pub proof fn law_control_step(s: State, a: u8, b: u8, c: u8, d: u8)
    requires
        s.phase == Phase::Control,
    ensures
        s.feed(seq![a, b, c, d]) == Ok::<State, ErrorView>(
            State {
                control: (a + 0x100 * b + 0x1_0000 * c + 0x100_0000 * d) as u32,
                phase: if a % 2 == 1 {
                    Phase::Head
                } else if s.out.len() + 10 < s.dec_size {
                    Phase::Literal
                } else if s.out.len() < s.dec_size {
                    Phase::Last
                } else {
                    Phase::Done
                },
                ..s
            },
        ),
{
    let w = a + 0x100 * b + 0x1_0000 * c + 0x100_0000 * d;
    let word = w as u32;
    law_bytes_number(a, b, c, d);
    lemma_word_parity(a as int, b as int, c as int, d as int);
    let next = State { control: word, ..s };
    assert(s.feed(seq![a, b, c, d]) == Ok::<State, ErrorView>(next.dispatch()));
    assert(word == w);
    assert(word % 2 == a % 2);
}

/// The first byte tells whether a number is odd.
proof fn lemma_word_parity(a: int, b: int, c: int, d: int)
    requires
        0 <= a < 256,
        0 <= b < 256,
        0 <= c < 256,
        0 <= d < 256,
    ensures
        0 <= a + 0x100 * b + 0x1_0000 * c + 0x100_0000 * d < 0x1_0000_0000,
        (a + 0x100 * b + 0x1_0000 * c + 0x100_0000 * d) % 2 == a % 2,
{
    assert(a + 0x100 * b + 0x1_0000 * c + 0x100_0000 * d == a + 2 * (0x80 * b + 0x8000 * c
        + 0x80_0000 * d));
}

/// The first byte of a reference is kept where others belong to it: all references of
/// level 1, and those of level 3 but for one form.
pub proof fn law_head_step(s: State, head: u8)
    requires
        s.phase == Phase::Head,
        s.level == CompressionLevel::Lvl1 || head % 4 != 0,
    ensures
        s.feed(seq![head]) == Ok::<State, ErrorView>(
            State { phase: Phase::Extra { head }, ..s },
        ),
{
}

/// A literal byte comes out.
pub proof fn law_literal_step(s: State, b: u8)
    requires
        s.phase == Phase::Literal,
    ensures
        s.feed(seq![b]) matches Ok(next) && {
            &&& next.out == s.out.push(b)
            &&& next.control == s.control / 2
            &&& next.max_size == s.max_size
            &&& next.level == s.level
            &&& next.dec_size == s.dec_size
            &&& next.control == 1 ==> next.phase == Phase::Control
            &&& next.control != 1 && next.control % 2 == 1 ==> next.phase == Phase::Head
            &&& next.control % 2 == 0 && next.out.len() + 10 < next.dec_size ==> next.phase
                == Phase::Literal
            &&& next.control % 2 == 0 && next.out.len() + 10 >= next.dec_size > next.out.len()
                ==> next.phase == Phase::Last
            &&& next.control % 2 == 0 && next.out.len() >= next.dec_size ==> next.phase
                == Phase::Done
        },
{
}

/// After a literal of level 1 the positions that have three bytes, but for the last of
/// them, are in the table: a hash leads to the last of them that has it, or where it led
/// before. At level 3 the table stays.
#[verifier::rlimit(50)]
pub proof fn law_literal_table(s: State, b: u8, h: int, i: int)
    requires
        s.phase == Phase::Literal,
        s.table.len() == 4096,
        0 <= s.next_hashed <= s.out.len(),
        s.out.len() < s.dec_size,
        0 <= h < 4096,
    ensures
        s.feed(seq![b]) matches Ok(next) && {
            let end = s.out.len() - 1;
            &&& next.table.len() == 4096
            &&& s.level == CompressionLevel::Lvl3 ==> next.table == s.table && next.next_hashed
                == s.next_hashed
            &&& s.level == CompressionLevel::Lvl1 && end > s.next_hashed ==> next.next_hashed
                == end
            &&& s.level == CompressionLevel::Lvl1 && end <= s.next_hashed ==> next.next_hashed
                == s.next_hashed
            &&& s.level == CompressionLevel::Lvl1 && (forall|j: int|
                s.next_hashed <= j < end ==> #[trigger] hash_at(next.out, j) != h)
                ==> next.table[h] == s.table[h]
            &&& s.level == CompressionLevel::Lvl1 && s.next_hashed <= i < end && hash_at(
                next.out,
                i,
            ) == h && (forall|j: int| i < j < end ==> #[trigger] hash_at(next.out, j) != h)
                ==> next.table[h] == i
        },
{
    let out = s.out.push(b);
    let end: int = if out.len() < 2 {
        0
    } else {
        out.len() - 2
    };
    let next = s.feed_literal(b);
    assert(s.feed(seq![b]) == Ok::<State, ErrorView>(next.next()));
    assert(next.next() == (State { phase: next.next().phase, ..next }));
    lemma_table(s.table, out, s.next_hashed, end, h, i);
    let last = s.out.len() - 1;
    if s.level == CompressionLevel::Lvl1 {
        assert(next.next().table == hashed(s.table, out, s.next_hashed, end));
        assert(next.next().out == out);
        if s.out.len() == 0 {
            assert(hashed(s.table, out, s.next_hashed, end) == s.table);
        } else {
            assert(end == last);
            if forall|j: int| s.next_hashed <= j < last ==> #[trigger] hash_at(out, j) != h {
                assert(next.next().table[h] == s.table[h]);
            }
            if s.next_hashed <= i < last && hash_at(out, i) == h && (forall|j: int|
                i < j < last ==> #[trigger] hash_at(out, j) != h) {
                assert(next.next().table[h] == i);
            }
        }
    }
}

/// What a table holds after positions were entered.
proof fn lemma_table(table: Seq<u32>, out: Seq<u8>, start: int, end: int, h: int, i: int)
    requires
        table.len() == 4096,
        0 <= h < 4096,
        0 <= start,
        end <= 0x1_0000_0000,
    ensures
        hashed(table, out, start, end).len() == 4096,
        (forall|j: int| start <= j < end ==> #[trigger] hash_at(out, j) != h) ==> hashed(
            table,
            out,
            start,
            end,
        )[h] == table[h],
        start <= i < end && hash_at(out, i) == h && (forall|j: int|
            i < j < end ==> #[trigger] hash_at(out, j) != h) ==> hashed(table, out, start, end)[h]
            == i,
{
    law_hashed(table, out, start, end, h);
}

/// A reference of level 1. It leads to the position that the table has for its hash, from
/// where as many bytes are copied as its length tells.
#[verifier::rlimit(50)]
pub proof fn law_reference_step_level_1(
    s: State,
    head: u8,
    bytes: Seq<u8>,
    len: nat,
    i: int,
)
    requires
        s.phase == (Phase::Extra { head }),
        s.level == CompressionLevel::Lvl1,
        s.table.len() == 4096,
        0 <= s.next_hashed <= s.out.len() <= s.dec_size,
        head % 16 != 0 ==> bytes.len() == 1 && len == head % 16 + 2,
        head % 16 == 0 ==> bytes.len() == 2 && len == bytes[1],
    ensures
        ({
            let source = s.table[head / 16 + 16 * bytes[0]] as int;
            let size = s.out.len();
            let r = s.feed(bytes);
            &&& len < 3 ==> r == Err::<State, ErrorView>(
                ErrorView::CorruptData(
                    "Too small length for QuickLZ reference ("@ + decimal(len) + ")"@,
                ),
            )
            &&& len >= 3 && size + len > u32::MAX ==> r == Err::<State, ErrorView>(
                ErrorView::CorruptData(
                    "Too big length in QuickLZ reference ("@ + decimal(len) + ")"@,
                ),
            )
            &&& len >= 3 && s.dec_size < size + len <= u32::MAX ==> r == Err::<State, ErrorView>(
                ErrorView::CorruptData(
                    "Decompressed size exceeded ("@ + decimal(s.dec_size as nat) + ")"@,
                ),
            )
            &&& len >= 3 && size + len <= s.dec_size && source >= size ==> r == Err::<
                State,
                ErrorView,
            >(ErrorView::CorruptData("Invalid back reference in QuickLZ"@))
            &&& len >= 3 && size + len <= s.dec_size && source < size ==> (r matches Ok(next) && {
                &&& next.out.len() == size + len
                &&& 0 <= i < size ==> next.out[i] == s.out[i]
                &&& 0 <= i < len ==> next.out[size + i] == next.out[source + i]
                &&& next.control == s.control / 2
                &&& next.max_size == s.max_size
                &&& next.level == s.level
                &&& next.dec_size == s.dec_size
                &&& next.next_hashed == next.out.len()
                &&& next.control == 1 ==> next.phase == Phase::Control
                &&& next.control != 1 && next.control % 2 == 1 ==> next.phase == Phase::Head
                &&& next.control % 2 == 0 && next.out.len() + 10 < next.dec_size ==> next.phase
                    == Phase::Literal
                &&& next.control % 2 == 0 && next.out.len() + 10 >= next.dec_size > next.out.len()
                    ==> next.phase == Phase::Last
                &&& next.control % 2 == 0 && next.out.len() >= next.dec_size ==> next.phase
                    == Phase::Done
            })
        }),
{
    let whole = seq![head] + bytes;
    let size = s.out.len();
    if head % 16 == 0 {
        law_reference_fields_level_1(head, bytes[0], bytes[1]);
        assert(whole =~= seq![head, bytes[0], bytes[1]]);
    } else {
        law_reference_fields_level_1(head, bytes[0], 0);
        assert(whole =~= seq![head, bytes[0]]);
    }
    let key = (head / 16 + 16 * bytes[0]) as nat;
    assert(reference_of(s.level, whole) == (key, len));
    let source = s.table[key as int] as int;
    if len >= 3 && size + len <= s.dec_size && source < size {
        let out = copied(s.out, source, len);
        lemma_copied_len(s.out, source, len);
        if 0 <= i < len {
            law_copied_bytes(s.out, source, len, i);
        }
        assert(out.len() == size + len);
    }
}

/// After a reference of level 1 the positions up to its own are in the table: a hash leads
/// to the last of them that has it, or where it led before.
#[verifier::rlimit(50)]
pub proof fn law_reference_table(s: State, head: u8, bytes: Seq<u8>, h: int, i: int)
    requires
        s.phase == (Phase::Extra { head }),
        s.level == CompressionLevel::Lvl1,
        s.table.len() == 4096,
        0 <= s.next_hashed <= s.out.len() <= s.dec_size,
        bytes.len() == if head % 16 == 0 {
            2int
        } else {
            1
        },
        0 <= h < 4096,
    ensures
        s.feed(bytes) matches Ok(next) ==> {
            &&& next.table.len() == 4096
            &&& (forall|j: int|
                s.next_hashed <= j <= s.out.len() ==> #[trigger] hash_at(next.out, j) != h)
                ==> next.table[h] == s.table[h]
            &&& s.next_hashed <= i <= s.out.len() && hash_at(next.out, i) == h && (forall|j: int|
                i < j <= s.out.len() ==> #[trigger] hash_at(next.out, j) != h) ==> next.table[h]
                == i
        },
{
    let whole = seq![head] + bytes;
    let (key, len) = reference_of(s.level, whole);
    let source = s.table[key as int] as int;
    let size = s.out.len() as int;
    lemma_copied_len(s.out, source, len);
    let out = copied(s.out, source, len);
    assert(out.len() + 1 - len == size + 1);
    if s.feed(bytes) is Ok {
        let table = hashed(s.table, out, s.next_hashed, size + 1);
        let next = State {
            out,
            control: s.control / 2,
            table,
            next_hashed: out.len() as int,
            ..s
        };
        assert(s.feed(bytes) == Ok::<State, ErrorView>(next.next()));
        assert(next.next() == (State { phase: next.next().phase, ..next }));
        lemma_table(s.table, out, s.next_hashed, size + 1, h, i);
        let n = next.next();
        assert(n.table == table && n.out == out);
        if forall|j: int| s.next_hashed <= j <= size ==> #[trigger] hash_at(out, j) != h {
            assert(forall|j: int|
                s.next_hashed <= j < size + 1 ==> #[trigger] hash_at(out, j) != h);
            assert(n.table[h] == s.table[h]);
        }
        if s.next_hashed <= i <= size && hash_at(out, i) == h && (forall|j: int|
            i < j <= size ==> #[trigger] hash_at(out, j) != h) {
            assert(forall|j: int| i < j < size + 1 ==> #[trigger] hash_at(out, j) != h);
            assert(n.table[h] == i);
        }
    }
}

/// A reference of level 3, whose bytes are `whole`. It leads as far back as its distance
/// tells, from where as many bytes are copied as its length tells.
#[verifier::rlimit(50)]
pub proof fn law_reference_step_level_3(s: State, whole: Seq<u8>, dist: nat, len: nat, i: int)
    requires
        s.level == CompressionLevel::Lvl3,
        s.out.len() <= s.dec_size,
        whole.len() > 0,
        whole.len() == 1 ==> s.phase == Phase::Head,
        whole.len() > 1 ==> s.phase == (Phase::Extra { head: whole[0] }),
        ({
            let a = whole[0];
            let b = whole[1];
            let c = whole[2];
            let d = whole[3];
            ||| whole.len() == 1 && a % 4 == 0 && dist == a / 4 && len == 3
            ||| whole.len() == 2 && a % 4 == 1 && dist == a / 4 + 64 * b && len == 3
            ||| whole.len() == 2 && a % 4 == 2 && dist == a / 64 + 4 * b && len == a / 4 % 16 + 3
            ||| whole.len() == 3 && a % 4 == 3 && a % 128 != 3 && dist == a / 128 + 2 * b + 512 * c
                && len == a / 4 % 32 + 2
            ||| whole.len() == 4 && a % 128 == 3 && dist == b / 128 + 2 * c + 512 * d && len == a
                / 128 + 2 * (b % 128) + 3
        }),
    ensures
        ({
            let size = s.out.len();
            let r = s.feed(
                if whole.len() == 1 {
                    whole
                } else {
                    whole.skip(1)
                },
            );
            &&& dist > size ==> r == Err::<State, ErrorView>(
                ErrorView::CorruptData("Too big offset in QuickLZ reference"@),
            )
            &&& dist <= size && size + len > u32::MAX ==> r == Err::<State, ErrorView>(
                ErrorView::CorruptData(
                    "Too big length in QuickLZ reference ("@ + decimal(len) + ")"@,
                ),
            )
            &&& dist <= size && s.dec_size < size + len <= u32::MAX ==> r == Err::<
                State,
                ErrorView,
            >(
                ErrorView::CorruptData(
                    "Decompressed size exceeded ("@ + decimal(s.dec_size as nat) + ")"@,
                ),
            )
            &&& dist == 0 && size + len <= s.dec_size ==> r == Err::<State, ErrorView>(
                ErrorView::CorruptData("Invalid back reference in QuickLZ"@),
            )
            &&& 0 < dist <= size && size + len <= s.dec_size ==> (r matches Ok(next) && {
                &&& next.out.len() == size + len
                &&& 0 <= i < size ==> next.out[i] == s.out[i]
                &&& 0 <= i < len ==> next.out[size + i] == next.out[size + i - dist]
                &&& next.control == s.control / 2
                &&& next.max_size == s.max_size
                &&& next.level == s.level
                &&& next.dec_size == s.dec_size
                &&& next.next_hashed == s.next_hashed
                &&& next.table == s.table
                &&& next.control == 1 ==> next.phase == Phase::Control
                &&& next.control != 1 && next.control % 2 == 1 ==> next.phase == Phase::Head
                &&& next.control % 2 == 0 && next.out.len() + 10 < next.dec_size ==> next.phase
                    == Phase::Literal
                &&& next.control % 2 == 0 && next.out.len() + 10 >= next.dec_size > next.out.len()
                    ==> next.phase == Phase::Last
                &&& next.control % 2 == 0 && next.out.len() >= next.dec_size ==> next.phase
                    == Phase::Done
            })
        }),
{
    let size = s.out.len();
    law_reference_fields_level_3(whole[0], whole[1], whole[2], whole[3]);
    if whole.len() == 1 {
        assert(whole =~= seq![whole[0]]);
    } else {
        assert(seq![whole[0]] + whole.skip(1) =~= whole);
        if whole.len() == 2 {
            assert(whole =~= seq![whole[0], whole[1]]);
        } else if whole.len() == 3 {
            assert(whole =~= seq![whole[0], whole[1], whole[2]]);
        } else {
            assert(whole =~= seq![whole[0], whole[1], whole[2], whole[3]]);
        }
    }
    assert(reference_of(s.level, whole) == (dist, len));
    if 0 < dist <= size && size + len <= s.dec_size {
        lemma_copied_len(s.out, size - dist, len);
        if 0 <= i < len {
            law_copied_bytes(s.out, size - dist, len, i);
        }
    }
}

/// A control word among the last bytes is passed over.
pub proof fn law_skip_step(s: State, word: Seq<u8>)
    requires
        s.phase == Phase::Skip,
    ensures
        s.feed(word) == Ok::<State, ErrorView>(State { phase: Phase::Last, ..s }),
{
}

/// One of the last bytes comes out.
pub proof fn law_last_byte_step(s: State, b: u8)
    requires
        s.phase == Phase::Last,
    ensures
        s.feed(seq![b]) == Ok::<State, ErrorView>(
            State {
                out: s.out.push(b),
                control: s.control / 2,
                phase: if s.out.len() + 1 >= s.dec_size {
                    Phase::Done
                } else if s.control / 2 == 1 {
                    Phase::Skip
                } else {
                    Phase::Last
                },
                ..s
            },
        ),
{
}

/// Reading a header that is accepted and tells of compressed data.
proof fn lemma_header_read(flags: u8, sizes: Seq<u8>, dec: u32, body: Seq<u8>, max_size: u32)
    requires
        flags % 2 == 1,
        flags / 4 % 4 == 1 || flags / 4 % 4 == 3,
        dec <= max_size,
        flags / 2 % 2 == 0 ==> sizes.len() == 2 && sizes[0] >= 3 && dec == sizes[1],
        flags / 2 % 2 == 1 ==> {
            &&& sizes.len() == 8
            &&& sizes[0] >= 9 || sizes[1] > 0 || sizes[2] > 0 || sizes[3] > 0
            &&& dec == sizes[4] + 0x100 * sizes[5] + 0x1_0000 * sizes[6] + 0x100_0000 * sizes[7]
        },
    ensures
        decompressed(seq![flags] + sizes + body, max_size) == run(
            State {
                level: if flags / 4 % 4 == 1 {
                    CompressionLevel::Lvl1
                } else {
                    CompressionLevel::Lvl3
                },
                dec_size: dec,
                phase: Phase::Control,
                ..State::start(max_size)
            },
            body,
        ),
{
    let start = State::start(max_size);
    let s = State { phase: Phase::Sizes { flags }, ..start };
    assert(seq![flags] + sizes + body =~= seq![flags] + (sizes + body));
    law_flags_step(start, flags);
    law_step(start, seq![flags], sizes + body);
    let comp: u32 = if flags / 2 % 2 == 1 {
        (sizes[0] + 0x100 * sizes[1] + 0x1_0000 * sizes[2] + 0x100_0000 * sizes[3]) as u32
    } else {
        sizes[0] as u32
    };
    law_sizes_step(s, flags, sizes, comp, dec);
    law_step(s, sizes, body);
}

/// What compressed data are decompressed to depends on the level and the size in the
/// header and on the body: not on the length of the header, nor on the other flags, nor
/// on the size of the stream.
pub proof fn law_header_forms(
    flags: u8,
    sizes: Seq<u8>,
    other_flags: u8,
    other_sizes: Seq<u8>,
    dec: u32,
    body: Seq<u8>,
    max_size: u32,
)
    requires
        flags % 2 == 1,
        other_flags % 2 == 1,
        flags / 4 % 4 == other_flags / 4 % 4,
        flags / 4 % 4 == 1 || flags / 4 % 4 == 3,
        dec <= max_size,
        flags / 2 % 2 == 0 ==> sizes.len() == 2 && sizes[0] >= 3 && dec == sizes[1],
        flags / 2 % 2 == 1 ==> {
            &&& sizes.len() == 8
            &&& sizes[0] >= 9 || sizes[1] > 0 || sizes[2] > 0 || sizes[3] > 0
            &&& dec == sizes[4] + 0x100 * sizes[5] + 0x1_0000 * sizes[6] + 0x100_0000 * sizes[7]
        },
        other_flags / 2 % 2 == 0 ==> other_sizes.len() == 2 && other_sizes[0] >= 3 && dec
            == other_sizes[1],
        other_flags / 2 % 2 == 1 ==> {
            &&& other_sizes.len() == 8
            &&& other_sizes[0] >= 9 || other_sizes[1] > 0 || other_sizes[2] > 0 || other_sizes[3]
                > 0
            &&& dec == other_sizes[4] + 0x100 * other_sizes[5] + 0x1_0000 * other_sizes[6]
                + 0x100_0000 * other_sizes[7]
        },
    ensures
        decompressed(seq![flags] + sizes + body, max_size) == decompressed(
            seq![other_flags] + other_sizes + body,
            max_size,
        ),
{
    lemma_header_read(flags, sizes, dec, body, max_size);
    lemma_header_read(other_flags, other_sizes, dec, body, max_size);
}

}
