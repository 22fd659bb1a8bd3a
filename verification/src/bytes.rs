//! Little-endian numbers in byte sequences.
use byteorder::{ByteOrder, LittleEndian, WriteBytesExt};
use vstd::prelude::*;

verus! {

/// The `k` low bytes of `n`, least significant byte first.
pub open spec fn le_bytes(n: nat, k: nat) -> Seq<u8>
    decreases k,
{
    if k == 0 {
        Seq::empty()
    } else {
        seq![(n % 256) as u8] + le_bytes(n / 256, (k - 1) as nat)
    }
}

/// The number whose bytes, least significant byte first, are `s`.
pub open spec fn le_value(s: Seq<u8>) -> nat
    decreases s.len(),
{
    if s.len() == 0 {
        0
    } else {
        s[0] as nat + 256 * le_value(s.skip(1))
    }
}

/// How many numbers `k` bytes can hold.
pub open spec fn byte_range(k: nat) -> nat
    decreases k,
{
    if k == 0 {
        1
    } else {
        256 * byte_range((k - 1) as nat)
    }
}

/// The three-byte number that starts at position `i` of `s`.
pub open spec fn u24_at(s: Seq<u8>, i: int) -> u32 {
    (s[i] + 256 * s[i + 1] + 65536 * s[i + 2]) as u32
}

/// A number that fits in `k` bytes is read back from its `k` bytes.
pub proof fn law_le_bytes_read_back(n: nat, k: nat)
    requires
        n < byte_range(k),
    ensures
        le_bytes(n, k).len() == k,
        le_value(le_bytes(n, k)) == n,
    decreases k,
{
    if k > 0 {
        law_le_bytes_read_back(n / 256, (k - 1) as nat);
        assert(le_bytes(n, k).skip(1) =~= le_bytes(n / 256, (k - 1) as nat));
    }
}

/// `k` bytes are `k` bytes, whatever the number.
pub proof fn lemma_le_bytes_len(n: nat, k: nat)
    ensures
        le_bytes(n, k).len() == k,
    decreases k,
{
    if k > 0 {
        lemma_le_bytes_len(n / 256, (k - 1) as nat);
    }
}

/// The `k` low bytes of a number are those of its remainder.
pub proof fn lemma_le_bytes_remainder(n: nat, k: nat)
    ensures
        byte_range(k) > 0,
        le_bytes(n % byte_range(k), k) == le_bytes(n, k),
    decreases k,
{
    if k > 0 {
        let r = byte_range((k - 1) as nat);
        lemma_le_bytes_remainder(n / 256, (k - 1) as nat);
        vstd::arithmetic::div_mod::lemma_mod_breakdown(n as int, 256, r as int);
    }
}

/// Four bytes of a number are those of its low 32 bits.
pub proof fn lemma_le_bytes_truncated(n: u64)
    ensures
        le_bytes((n as u32) as nat, 4) == le_bytes(n as nat, 4),
{
    assert(n as u32 == n % 0x1_0000_0000) by (bit_vector);
    lemma_byte_ranges();
    lemma_le_bytes_remainder(n as nat, 4);
}

/// The numbers that one to four bytes can hold.
pub proof fn lemma_byte_ranges()
    ensures
        byte_range(1) == 0x100,
        byte_range(2) == 0x1_0000,
        byte_range(3) == 0x100_0000,
        byte_range(4) == 0x1_0000_0000,
{
    reveal_with_fuel(byte_range, 5);
}

/// The value of up to four bytes, written out.
pub proof fn lemma_le_value_small(s: Seq<u8>)
    ensures
        s.len() == 1 ==> le_value(s) == s[0],
        s.len() == 2 ==> le_value(s) == s[0] + 256 * s[1],
        s.len() == 3 ==> le_value(s) == s[0] + 256 * s[1] + 65536 * s[2],
        s.len() == 4 ==> le_value(s) == s[0] + 256 * s[1] + 65536 * s[2] + 16777216 * s[3],
{
    reveal_with_fuel(le_value, 5);
    if 1 <= s.len() <= 4 {
        let a = s.skip(1);
        assert(s.len() > 1 ==> a[0] == s[1]);
        let b = a.skip(1);
        assert(s.len() > 2 ==> b[0] == s[2]);
        let c = b.skip(1);
        assert(s.len() > 3 ==> c[0] == s[3]);
    }
}

/// Equal three-byte numbers have equal bytes.
pub proof fn lemma_u24_at_equal(s: Seq<u8>, i: int, j: int)
    requires
        u24_at(s, i) == u24_at(s, j),
    ensures
        forall|k: int| 0 <= k < 3 ==> #[trigger] s[i + k] == s[j + k],
{
    assert(s[i] == s[j] && s[i + 1] == s[j + 1] && s[i + 2] == s[j + 2]);
    assert forall|k: int| 0 <= k < 3 implies #[trigger] s[i + k] == s[j + k] by {
        if k == 0 {
        } else if k == 1 {
        } else {
        }
    }
}

/// Reads the first three bytes of `inp` as a number.
pub fn read_u24(inp: &[u8]) -> (r: u32)
    requires
        inp@.len() >= 3,
    ensures
        r == u24_at(inp@, 0),
        r < 0x100_0000,
{
    let a: u32 = inp[0] as u32;
    let b: u32 = inp[1] as u32;
    let c: u32 = inp[2] as u32;
    assert(a < 256 && b < 256 && c < 256 ==> a | (b << 8) | (c << 16) == a + 256 * b + 65536 * c)
        by (bit_vector);
    a | b << 8 | c << 16
}

/// Appends `n` to `dest` with `byteorder::WriteBytesExt::write_u16`.
///
/// Writing to a vector cannot fail. The two bytes of `n` come behind what
/// `dest` holds, the low byte first.
#[verifier::external_body]
pub(crate) fn push_u16(dest: &mut Vec<u8>, n: u16)
    ensures
        final(dest)@ == old(dest)@ + le_bytes(n as nat, 2),
{
    dest.write_u16::<LittleEndian>(n).unwrap();
}

/// Appends `n` to `dest` with `byteorder::WriteBytesExt::write_u24`.
///
/// The call panics on a number that needs more than three bytes. Writing to a
/// vector cannot fail. The three bytes of `n` come behind what `dest` holds,
/// the low byte first.
#[verifier::external_body]
pub(crate) fn push_u24(dest: &mut Vec<u8>, n: u32)
    requires
        n < 0x100_0000,
    ensures
        final(dest)@ == old(dest)@ + le_bytes(n as nat, 3),
{
    dest.write_u24::<LittleEndian>(n).unwrap();
}

/// Appends `n` to `dest` with `byteorder::WriteBytesExt::write_u32`.
///
/// Writing to a vector cannot fail. The four bytes of `n` come behind what
/// `dest` holds, the low byte first.
#[verifier::external_body]
pub(crate) fn push_u32(dest: &mut Vec<u8>, n: u32)
    ensures
        final(dest)@ == old(dest)@ + le_bytes(n as nat, 4),
{
    dest.write_u32::<LittleEndian>(n).unwrap();
}

/// Overwrites four bytes of `dest` with `byteorder::LittleEndian::write_u32`.
///
/// The bytes from `pos` on become those of `n`, the low byte first; all others
/// stay as they are.
#[verifier::external_body]
pub(crate) fn put_u32(dest: &mut Vec<u8>, pos: usize, n: u32)
    requires
        pos + 4 <= old(dest)@.len(),
    ensures
        final(dest)@ == old(dest)@.take(pos as int) + le_bytes(n as nat, 4) + old(dest)@.skip(
            pos + 4,
        ),
{
    LittleEndian::write_u32(&mut dest[pos..pos + 4], n);
}

/// Reads a number with `byteorder::LittleEndian::read_u32`.
///
/// The result is the value of the first four bytes of `inp`, the low byte
/// first. The call panics on fewer than four bytes.
#[verifier::external_body]
pub(crate) fn get_u32(inp: &[u8]) -> (r: u32)
    requires
        inp@.len() >= 4,
    ensures
        r == le_value(inp@.take(4)),
{
    LittleEndian::read_u32(inp)
}

}
