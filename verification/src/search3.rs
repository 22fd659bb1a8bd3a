//! Finding the references of level 3.
use vstd::prelude::*;

use crate::bytes::read_u24;
use crate::format::Token;
use crate::matching::HASHTABLE_COUNT;
use crate::search1::{extend_match, remainder};
use crate::table::{hash, HASHTABLE_SIZE};
#[allow(unused_imports)]
use crate::bytes::u24_at;
#[allow(unused_imports)]
use crate::matching::{
    as_good, considered, is_best, is_candidate, lemma_extended, match_len, match_limit,
    next_level_3, occurrences,
};
#[allow(unused_imports)]
use crate::table::{hash_at, law_hash_in_table};

verus! {

/// Later positions have as many earlier ones with a hash, and those behind one with
/// that hash have more.
pub proof fn lemma_occurrences(data: Seq<u8>, h: int, a: int, b: int)
    requires
        0 <= a <= b,
    ensures
        occurrences(data, h, a) <= occurrences(data, h, b),
        a < b && hash_at(data, a) == h ==> occurrences(data, h, a) + 1 <= occurrences(data, h, b),
    decreases b - a,
{
    if a < b {
        lemma_occurrences(data, h, a, b - 1);
    }
}

/// Each number below that of the occurrences is that of a position.
pub proof fn lemma_occurrence(data: Seq<u8>, h: int, p: int, n: nat) -> (o: int)
    requires
        0 <= p,
        n < occurrences(data, h, p),
    ensures
        0 <= o < p,
        hash_at(data, o) == h,
        occurrences(data, h, o) == n,
    decreases p,
{
    if hash_at(data, p - 1) == h && occurrences(data, h, p - 1) == n {
        p - 1
    } else {
        lemma_occurrence(data, h, p - 1, n)
    }
}

/// Each slot that is considered after `count` positions was last filled with one of
/// as many of them.
proof fn lemma_slot_number(count: nat, i: int) -> (n: nat)
    requires
        0 <= i < 16,
        i < count % 256,
    ensures
        n % 16 == i,
        n < count <= n + 16,
        count % 256 < 16 ==> count <= n + count % 256,
{
    if count % 256 < 16 {
        let base = count - count % 256;
        assert(base % 16 == 0);
        (base + i) as nat
    } else {
        (count - 1 - (count - 1 - i) % 16) as nat
    }
}

/// The slot of one of the last positions is considered.
proof fn lemma_number_slot(count: nat, n: nat)
    requires
        n < count <= n + 16,
        count % 256 < 16 ==> count <= n + count % 256,
    ensures
        n % 16 < 16,
        n % 16 < count % 256,
{
    if count % 256 < 16 {
        let base = count - count % 256;
        assert(base % 16 == 0);
        assert((n - base) % 16 == n - base);
    }
}

/// The counter of a hash tells the slot of the next position.
proof fn lemma_counter(n: nat)
    ensures
        n % 256 % 16 == n % 16,
        (n + 1) % 256 == if n % 256 == 255 {
            0
        } else {
            n % 256 + 1
        },
{
}

/// Sixteen positions in turn have different slots.
proof fn lemma_slots_differ(a: nat, b: nat)
    requires
        a < b < a + 16,
    ensures
        a % 16 != b % 16,
{
}

/// For each hash the last positions that it was seen at.
pub struct Search3 {
    /// The positions: for each slot one of each hash. They go into the slots in
    /// turn.
    hashtable: Vec<u32>,
    /// How many positions each hash was seen at, modulo 256.
    hash_counter: Box<[u8; HASHTABLE_SIZE]>,
    /// The first position that was not entered.
    pos: Ghost<int>,
}

impl View for Search3 {
    type V = int;

    /// The first position that was not entered.
    closed spec fn view(&self) -> int {
        self.pos@
    }
}

impl Search3 {
    /// The position in a slot.
    spec fn slot(self, i: int, h: int) -> int {
        self.hashtable@[i * HASHTABLE_SIZE + h] as int
    }

    /// Whether the tables hold the last positions of each hash.
    pub closed spec fn agrees(self, data: Seq<u8>) -> bool {
        &&& 0 <= self.pos@
        &&& self.hashtable@.len() == HASHTABLE_COUNT * HASHTABLE_SIZE
        &&& forall|h: int|
            0 <= h < HASHTABLE_SIZE ==> #[trigger] self.hash_counter@[h] == occurrences(
                data,
                h,
                self.pos@,
            ) % 256
        &&& forall|o: int| 0 <= o < self.pos@ ==> self.holds(data, #[trigger] hash_at(data, o), o)
    }

    spec fn holds(self, data: Seq<u8>, h: int, o: int) -> bool {
        occurrences(data, h, o) + HASHTABLE_COUNT >= occurrences(data, h, self.pos@)
            ==> self.slot((occurrences(data, h, o) % 16) as int, h) == o
    }

    /// Tables without positions.
    pub fn new() -> (s: Search3)
        ensures
            s@ == 0,
            forall|data: Seq<u8>| s.agrees(data),
    {
        Search3 {
            hashtable: vec![0u32; HASHTABLE_COUNT * HASHTABLE_SIZE],
            hash_counter: Box::new([0u8; HASHTABLE_SIZE]),
            pos: Ghost(0),
        }
    }

    /// Enters the next position.
    fn enter(&mut self, data: &[u8], pos: usize)
        requires
            old(self).agrees(data@),
            pos == old(self)@,
            pos + 2 < data.len(),
            data.len() <= u32::MAX,
        ensures
            final(self).agrees(data@),
            final(self)@ == pos + 1,
    {
        let next: u32 = read_u24(vstd::slice::slice_subrange(data, pos, data.len()));
        assert(next == u24_at(data@, pos as int));
        let hash: usize = hash(next) as usize;
        let counter: u8 = self.hash_counter[hash];
        self.hash_counter[hash] = counter.wrapping_add(1);
        let slot: usize = counter as usize % HASHTABLE_COUNT;
        self.hashtable[slot * HASHTABLE_SIZE + hash] = pos as u32;
        self.pos = Ghost(pos + 1);
        proof {
            let h = hash as int;
            let n = occurrences(data@, h, pos as int);
            lemma_counter(n);
            assert forall|o: int| 0 <= o < self.pos@ implies self.holds(
                data@,
                #[trigger] hash_at(data@, o),
                o,
            ) by {
                let k = hash_at(data@, o);
                law_hash_in_table(u24_at(data@, o));
                if o < pos {
                    assert(old(self).holds(data@, k, o));
                    lemma_occurrences(data@, k, o, pos as int);
                    let a = occurrences(data@, k, o);
                    if k == h && a + 16 > n {
                        lemma_slots_differ(a, n);
                    }
                }
            }
        }
    }

    /// The position in each slot that is considered is one of the last that have
    /// the hash.
    proof fn lemma_slot(self, data: Seq<u8>, h: int, i: int)
        requires
            self.agrees(data),
            0 <= h < HASHTABLE_SIZE,
            0 <= i < considered(data, h, self.pos@),
        ensures
            0 <= self.slot(i, h) < self.pos@,
            hash_at(data, self.slot(i, h)) == h,
            occurrences(data, h, self.slot(i, h)) + considered(data, h, self.pos@) >= occurrences(
                data,
                h,
                self.pos@,
            ),
    {
        let count = occurrences(data, h, self.pos@);
        let n = lemma_slot_number(count, i);
        let o = lemma_occurrence(data, h, self.pos@, n);
        assert(self.holds(data, hash_at(data, o), o));
    }

    /// Each of the last positions that have the hash is in a slot that is
    /// considered.
    proof fn lemma_in_slot(self, data: Seq<u8>, h: int, o: int) -> (i: int)
        requires
            self.agrees(data),
            0 <= o < self.pos@,
            hash_at(data, o) == h,
            occurrences(data, h, o) + considered(data, h, self.pos@) >= occurrences(
                data,
                h,
                self.pos@,
            ),
        ensures
            0 <= i < considered(data, h, self.pos@),
            self.slot(i, h) == o,
    {
        let count = occurrences(data, h, self.pos@);
        lemma_occurrences(data, h, o, self.pos@);
        assert(self.holds(data, hash_at(data, o), o));
        let n = occurrences(data, h, o);
        lemma_number_slot(count, n);
        (n % 16) as int
    }

    /// Finds the best position that can be referred to from `source_pos`, and the
    /// length of the match.
    fn find(&self, data: &[u8], source_pos: usize) -> (r: Option<(usize, usize)>)
        requires
            self.agrees(data@),
            source_pos == self@,
            source_pos + 10 < data.len(),
            data.len() <= u32::MAX,
        ensures
            match r {
                Some((offset, matchlen)) => is_best(data@, source_pos as int, offset as int)
                    && matchlen == match_len(data@, offset as int, source_pos as int),
                None => forall|o: int| !#[trigger] is_candidate(data@, source_pos as int, o),
            },
    {
        let ghost p = source_pos as int;
        let next: u32 = read_u24(vstd::slice::slice_subrange(data, source_pos, data.len()));
        assert(next == u24_at(data@, p));
        let limit: usize = remainder(data, source_pos);
        let hash: usize = hash(next) as usize;
        let ghost h = hash as int;
        let counter: u8 = self.hash_counter[hash];
        let mut matchlen: usize = 0;
        let mut offset: usize = 0;
        let mut index: usize = 0;
        while index < HASHTABLE_COUNT && index < counter as usize
            invariant
                self.agrees(data@),
                source_pos == self@,
                p == source_pos,
                h == hash,
                h == hash_at(data@, p),
                0 <= h < HASHTABLE_SIZE,
                next == u24_at(data@, p),
                limit == match_limit(data@, p),
                7 <= limit,
                source_pos + limit < data.len(),
                counter == occurrences(data@, h, p) % 256,
                index <= considered(data@, h, p),
                matchlen == 0 ==> offset == 0 && forall|i: int|
                    0 <= i < index ==> !is_candidate(data@, p, #[trigger] self.slot(i, h)),
                matchlen != 0 ==> {
                    &&& is_candidate(data@, p, offset as int)
                    &&& matchlen == match_len(data@, offset as int, p)
                    &&& forall|i: int|
                        0 <= i < index && is_candidate(data@, p, #[trigger] self.slot(i, h))
                            ==> as_good(data@, p, offset as int, self.slot(i, h))
                },
            decreases HASHTABLE_COUNT - index,
        {
            proof {
                self.lemma_slot(data@, h, index as int);
            }
            let o: usize = self.hashtable[index * HASHTABLE_SIZE + hash] as usize;
            assert(o == self.slot(index as int, h));
            let at_o: u32 = read_u24(vstd::slice::slice_subrange(data, o, data.len()));
            assert(at_o == u24_at(data@, o as int));
            if at_o == next && o + 2 < source_pos {
                let m: usize = extend_match(data, o, source_pos, limit);
                if m > matchlen || (m == matchlen && o > offset) {
                    offset = o;
                    matchlen = m;
                }
            }
            index += 1;
        }
        assert(index == considered(data@, h, p));
        assert forall|other: int| #[trigger] is_candidate(data@, p, other) implies matchlen != 0
            && as_good(data@, p, offset as int, other) by {
            let i = self.lemma_in_slot(data@, h, other);
            assert(self.slot(i, h) == other);
        }
        if matchlen >= 3 {
            Some((offset, matchlen))
        } else {
            proof {
                if matchlen != 0 {
                    lemma_extended(data@, offset as int, p, 3, limit as nat);
                }
            }
            None
        }
    }

    /// Finds the token at `source_pos`, and enters the positions that it covers: the
    /// distance and the length of a reference, or nothing for a literal.
    pub fn step(&mut self, data: &[u8], source_pos: usize) -> (r: Option<(u32, u32)>)
        requires
            old(self).agrees(data@),
            source_pos == old(self)@,
            source_pos + 10 < data.len(),
            data.len() <= u32::MAX,
        ensures
            final(self).agrees(data@),
            final(self)@ == source_pos + next_level_3(data@, source_pos as int).width(),
            next_level_3(data@, source_pos as int) == match r {
                Some((key, len)) => Token::Reference { key: key as nat, len: len as nat },
                None => Token::Literal(data@[source_pos as int]),
            },
    {
        let ghost p = source_pos as int;
        let found = self.find(data, source_pos);
        let ghost best = choose|o: int| is_best(data@, p, o);
        self.enter(data, source_pos);
        match found {
            Some((offset, matchlen)) => {
                proof {
                    assert(is_best(data@, p, offset as int));
                    assert(is_best(data@, p, best));
                    assert(as_good(data@, p, best, offset as int));
                    assert(as_good(data@, p, offset as int, best));
                    lemma_extended(data@, offset as int, p, 3, match_limit(data@, p));
                }
                if source_pos - offset < 0x1_ffff {
                    let mut u: usize = 1;
                    while u < matchlen
                        invariant
                            1 <= u <= matchlen,
                            source_pos + matchlen + 2 < data.len(),
                            data.len() <= u32::MAX,
                            self.agrees(data@),
                            self@ == source_pos + u,
                        decreases matchlen - u,
                    {
                        self.enter(data, source_pos + u);
                        u += 1;
                    }
                    Some(((source_pos - offset) as u32, matchlen as u32))
                } else {
                    None
                }
            },
            None => None,
        }
    }
}

}
