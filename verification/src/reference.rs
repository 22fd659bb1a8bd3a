//! Reading references and copying the data that they refer to.
use vstd::prelude::*;

use crate::error::Error;
#[allow(unused_imports)]
use crate::bytes::lemma_le_value_small;
#[allow(unused_imports)]
use crate::error::ErrorView;
#[allow(unused_imports)]
use crate::format::{extra_len, reference_of};
#[allow(unused_imports)]
use crate::level::CompressionLevel;

verus! {

/// Reads a reference of level 1: the hash and the length.
pub(crate) fn parse_level_1(head: u8, extra: &[u8]) -> (r: (u32, u8))
    requires
        extra@.len() == extra_len(CompressionLevel::Lvl1, head),
    ensures
        r.0 < 4096,
        (r.0 as nat, r.1 as nat) == reference_of(CompressionLevel::Lvl1, seq![head] + extra@),
{
    let next: u32 = head as u32;
    let second: u32 = extra[0] as u32;
    assert(next < 256 ==> next & 0xf == next % 16) by (bit_vector);
    assert(next < 256 && second < 256 ==> (next >> 4) | (second << 4) == next / 16 + 16 * second)
        by (bit_vector);
    proof {
        reveal(reference_of);
        lemma_le_value_small(seq![head] + extra@);
    }
    let mut matchlen: u8 = (next & 0xf) as u8;
    let hash: u32 = (next >> 4) | (second << 4);
    if matchlen != 0 {
        matchlen += 2;
    } else {
        matchlen = extra[1];
    }
    (hash, matchlen)
}

/// Reads a reference of level 3: the distance and the length.
pub(crate) fn parse_level_3(head: u8, extra: &[u8]) -> (r: (u32, u32))
    requires
        extra@.len() == extra_len(CompressionLevel::Lvl3, head),
    ensures
        r.0 < 0x2_0000,
        3 <= r.1 <= 258,
        (r.0 as nat, r.1 as nat) == reference_of(CompressionLevel::Lvl3, seq![head] + extra@),
{
    let next: u32 = head as u32;
    proof {
        reveal(reference_of);
        lemma_le_value_small(seq![head] + extra@);
        assert(next < 256 ==> next & 0b11 == next % 4 && next & 0x7f == next % 128 && next >> 2
            == next / 4) by (bit_vector);
    }
    let offset: u32;
    let matchlen: u32;
    if next & 0b11 == 0 {
        matchlen = 3;
        offset = next >> 2;
    } else if next & 0b11 == 0b01 {
        let second: u32 = extra[0] as u32;
        matchlen = 3;
        offset = (next >> 2) | (second << 6);
        assert(next < 256 && second < 256 ==> (next >> 2) | (second << 6) == (next + 256 * second)
            / 4) by (bit_vector);
        assert(next % 4 == 1 ==> (next + 256 * second) % 4 == 1);
    } else if next & 0b11 == 0b10 {
        let second: u32 = extra[0] as u32;
        assert(next < 256 && second < 256 ==> (next >> 6) | (second << 2) == (next + 256 * second)
            / 64 && (next >> 2) & 0xf == (next + 256 * second) / 4 % 16) by (bit_vector);
        matchlen = 3 + ((next >> 2) & 0xf);
        offset = (next >> 6) | (second << 2);
        assert(next % 4 == 2 ==> (next + 256 * second) % 4 == 2);
    } else if next & 0x7f == 0b11 {
        let next2: u32 = extra[0] as u32;
        let next3: u32 = extra[1] as u32;
        let next4: u32 = extra[2] as u32;
        assert(next < 256 && next2 < 256 && next3 < 256 && next4 < 256 ==> (next2 >> 7) | (next3
            << 1) | (next4 << 9) == (next + 256 * next2 + 65536 * next3 + 16777216 * next4)
            / 0x8000 && (next >> 7) | ((next2 & 0x7f) << 1) == (next + 256 * next2 + 65536 * next3
            + 16777216 * next4) / 128 % 256) by (bit_vector);
        matchlen = 3 + ((next >> 7) | ((next2 & 0x7f) << 1));
        offset = (next2 >> 7) | (next3 << 1) | (next4 << 9);
        let ghost v = next + 256 * next2 + 65536 * next3 + 16777216 * next4;
        assert(next % 128 == 3 ==> v % 128 == 3 && v % 4 == 3);
    } else {
        let second: u32 = extra[0] as u32;
        let third: u32 = extra[1] as u32;
        assert(next < 256 && second < 256 && third < 256 ==> (next >> 7) | (second << 1) | (third
            << 9) == (next + 256 * second + 65536 * third) / 128 && (next >> 2) & 0x1f == (next
            + 256 * second + 65536 * third) / 4 % 32) by (bit_vector);
        matchlen = 2 + ((next >> 2) & 0x1f);
        offset = (next >> 7) | (second << 1) | (third << 9);
        let ghost v = next + 256 * second + 65536 * third;
        assert(next % 4 == 3 && next % 128 != 3 ==> v % 4 == 3 && v % 128 != 3 && v / 4 % 32 != 0);
    }
    (offset, matchlen)
}

/// `buf` with `length` bytes added, each equal to the one that stands as far
/// behind `start` as it stands behind the end of `buf`. The copied bytes may run
/// into the added ones, which then repeat.
pub open spec fn copied(buf: Seq<u8>, start: int, length: nat) -> Seq<u8>
    decreases length,
{
    if length == 0 {
        buf
    } else {
        let prefix = copied(buf, start, (length - 1) as nat);
        prefix.push(prefix[start + length - 1])
    }
}

/// Copying adds `length` bytes and keeps those that were there.
pub proof fn lemma_copied_len(buf: Seq<u8>, start: int, length: nat)
    ensures
        copied(buf, start, length).len() == buf.len() + length,
        forall|i: int| 0 <= i < buf.len() ==> copied(buf, start, length)[i] == buf[i],
    decreases length,
{
    if length > 0 {
        lemma_copied_len(buf, start, (length - 1) as nat);
    }
}

/// Each added byte equals the byte that it was copied from.
pub proof fn law_copied_bytes(buf: Seq<u8>, start: int, length: nat, i: int)
    requires
        0 <= start < buf.len(),
        0 <= i < length,
    ensures
        copied(buf, start, length)[buf.len() + i] == copied(buf, start, length)[start + i],
    decreases length,
{
    lemma_copied_len(buf, start, (length - 1) as nat);
    if i < length - 1 {
        law_copied_bytes(buf, start, (length - 1) as nat, i);
    }
}

/// Copies `[start; start + length)` bytes from `buf` to the end of `buf`.
pub fn copy_buffer_bytes(buf: &mut Vec<u8>, start: usize, length: usize) -> (r: Result<(), Error>)
    ensures
        r is Ok <==> length == 0 || start < old(buf)@.len(),
        r is Ok ==> final(buf)@ == copied(old(buf)@, start as int, length as nat),
        r matches Err(e) ==> e@ == ErrorView::CorruptData("Invalid back reference in QuickLZ"@)
            && final(buf)@ == old(buf)@,
{
    if length > 0 && start >= buf.len() {
        return Err(Error::CorruptData("Invalid back reference in QuickLZ".to_owned()));
    }
    let mut added: usize = 0;
    while added < length
        invariant
            added <= length,
            length > 0 ==> start < old(buf)@.len(),
            buf@ == copied(old(buf)@, start as int, added as nat),
            buf@.len() == old(buf)@.len() + added,
        decreases length - added,
    {
        assert(start + added < buf.len());
        let val: u8 = buf[start + added];
        buf.push(val);
        added += 1;
    }
    Ok(())
}

}
