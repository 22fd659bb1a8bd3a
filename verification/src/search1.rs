//! Finding the references of level 1.
use bit_vec::BitVec;
use vstd::prelude::*;

use crate::bits::{bit_at, new_bits, set_bit};
use crate::bytes::read_u24;
use crate::format::Token;
use crate::table::{hash, is_eq, HASHTABLE_SIZE};
#[allow(unused_imports)]
use crate::bits::bits_of;
#[allow(unused_imports)]
use crate::bytes::u24_at;
#[allow(unused_imports)]
use crate::format::span;
#[allow(unused_imports)]
use crate::level::CompressionLevel;
#[allow(unused_imports)]
use crate::matching::{
    extended, is_flat, last_start, lemma_span_push, literal_run, match_limit, next_level_1, refers,
};
#[allow(unused_imports)]
use crate::size::all_fit;
#[allow(unused_imports)]
use crate::table::hash_at;
#[allow(unused_imports)]
use vstd::std_specs::cmp::PartialEqSpec;

verus! {

/// Tokens stand for at least as many bytes as they are.
pub proof fn lemma_span_len(level: CompressionLevel, tokens: Seq<Token>)
    requires
        all_fit(level, tokens),
    ensures
        tokens.len() <= span(tokens),
        tokens.len() > 0 ==> span(tokens.drop_last()) < span(tokens),
    decreases tokens.len(),
{
    if tokens.len() > 0 {
        let before = tokens.drop_last();
        assert forall|i: int| 0 <= i < before.len() implies #[trigger] before[i].fits(level) by {
            assert(tokens[i].fits(level));
        }
        lemma_span_len(level, before);
        assert(tokens[tokens.len() - 1].fits(level));
    }
}

/// The last position with a hash lies before what the tokens lead to, and has that
/// hash.
pub proof fn lemma_last_start(
    level: CompressionLevel,
    data: Seq<u8>,
    tokens: Seq<Token>,
    h: int,
)
    requires
        all_fit(level, tokens),
    ensures
        last_start(data, tokens, h) matches Some(q) ==> 0 <= q < span(tokens) && hash_at(data, q)
            == h,
    decreases tokens.len(),
{
    if tokens.len() > 0 {
        let before = tokens.drop_last();
        assert forall|i: int| 0 <= i < before.len() implies #[trigger] before[i].fits(level) by {
            assert(tokens[i].fits(level));
        }
        lemma_last_start(level, data, before, h);
        lemma_span_len(level, tokens);
    }
}

/// There are at most as many literals at the end as there are tokens.
pub proof fn lemma_literal_run(tokens: Seq<Token>)
    ensures
        literal_run(tokens) <= tokens.len(),
    decreases tokens.len(),
{
    if tokens.len() > 0 {
        lemma_literal_run(tokens.drop_last());
    }
}

/// How far the bytes from `offset` on and those from `pos` on are equal, at most up
/// to `limit`, where the first three are.
pub(crate) fn extend_match(data: &[u8], offset: usize, pos: usize, limit: usize) -> (m: usize)
    requires
        offset < pos,
        pos + limit < data.len(),
        3 <= limit,
    ensures
        m == extended(data@, offset as int, pos as int, 3, limit as nat),
        3 <= m <= limit,
{
    let mut m: usize = 3;
    while data[offset + m] == data[pos + m] && m < limit
        invariant
            offset < pos,
            pos + limit < data.len(),
            3 <= m <= limit,
            extended(data@, offset as int, pos as int, 3, limit as nat) == extended(
                data@,
                offset as int,
                pos as int,
                m as nat,
                limit as nat,
            ),
        decreases limit - m,
    {
        m += 1;
    }
    m
}

/// How long a reference at `pos` can be.
pub(crate) fn remainder(data: &[u8], pos: usize) -> (n: usize)
    requires
        pos + 10 < data.len(),
    ensures
        n == match_limit(data@, pos as int),
        7 <= n <= 255,
        pos + n < data.len(),
{
    let left: usize = data.len() - 4 - pos;
    if left < 0xff {
        left
    } else {
        0xff
    }
}

/// Whether the six bytes around `pos` are all the same.
fn surrounded_by_same(data: &[u8], pos: usize) -> (b: bool)
    requires
        3 <= pos,
        pos + 3 <= data.len(),
    ensures
        b == is_flat(data@, pos as int),
{
    let around = vstd::slice::slice_subrange(data, pos - 3, pos + 3);
    let b = is_eq(around);
    proof {
        let p = pos as int;
        if b {
            assert forall|i: int| p - 3 <= i < p + 3 implies #[trigger] data@[i] == data@[p - 3] by {
                let j = i - (p - 3);
                assert(around@[j] == data@[i]);
                assert(1 <= j ==> around@[0].eq_spec(&around@[j]));
            }
        } else {
            let i = choose|i: int| 1 <= i < 6 && !around@[0].eq_spec(&#[trigger] around@[i]);
            assert(data@[p - 3 + i] != data@[p - 3]);
        }
    }
    b
}

/// For each hash the last position that it was seen at.
pub struct Search1 {
    /// The last position with each hash.
    hashtable: Box<[u32; HASHTABLE_SIZE]>,
    /// The three bytes at that position.
    cachetable: Box<[u32; HASHTABLE_SIZE]>,
    /// Whether there was one.
    hash_counter: BitVec,
    /// The number of literals since the last reference.
    lits: u32,
    /// The tokens so far.
    tokens: Ghost<Seq<Token>>,
}

impl View for Search1 {
    type V = Seq<Token>;

    /// The tokens so far.
    closed spec fn view(&self) -> Seq<Token> {
        self.tokens@
    }
}

impl Search1 {
    /// Whether the tables tell, for `data` of which the tokens stand for the front,
    /// the last position of each hash at which a token begins.
    pub closed spec fn agrees(self, data: Seq<u8>) -> bool {
        &&& bits_of(self.hash_counter).len() == HASHTABLE_SIZE
        &&& self.lits == literal_run(self.tokens@)
        &&& forall|h: int|
            0 <= h < HASHTABLE_SIZE ==> self.knows(
                data,
                h,
                #[trigger] last_start(data, self.tokens@, h),
            )
    }

    spec fn knows(self, data: Seq<u8>, h: int, start: Option<int>) -> bool {
        match start {
            Some(q) => {
                &&& bits_of(self.hash_counter)[h]
                &&& self.hashtable@[h] == q
                &&& self.cachetable@[h] == u24_at(data, q)
            },
            None => !bits_of(self.hash_counter)[h],
        }
    }

    /// Tables without positions.
    pub fn new() -> (s: Search1)
        ensures
            s@ == Seq::<Token>::empty(),
            forall|data: Seq<u8>| s.agrees(data),
    {
        Search1 {
            hashtable: Box::new([0u32; HASHTABLE_SIZE]),
            cachetable: Box::new([0u32; HASHTABLE_SIZE]),
            hash_counter: new_bits(HASHTABLE_SIZE, false),
            lits: 0,
            tokens: Ghost(Seq::empty()),
        }
    }

    /// Finds the next token, and enters the position where it begins: the hash and
    /// the length of a reference, or nothing for a literal.
    pub fn step(&mut self, data: &[u8], source_pos: usize) -> (r: Option<(u32, u32)>)
        requires
            old(self).agrees(data@),
            all_fit(CompressionLevel::Lvl1, old(self)@),
            source_pos == span(old(self)@),
            source_pos + 10 < data.len(),
            data.len() <= u32::MAX,
        ensures
            final(self).agrees(data@),
            final(self)@ == old(self)@.push(next_level_1(data@, old(self)@)),
            next_level_1(data@, old(self)@) == match r {
                Some((key, len)) => Token::Reference { key: key as nat, len: len as nat },
                None => Token::Literal(data@[source_pos as int]),
            },
    {
        let ghost tokens = self.tokens@;
        let ghost p = source_pos as int;
        let next: u32 = read_u24(vstd::slice::slice_subrange(data, source_pos, data.len()));
        assert(next == u24_at(data@, p));
        let hash: u32 = hash(next);
        let hash_i: usize = hash as usize;
        let offset: u32 = self.hashtable[hash_i];
        let cache: u32 = self.cachetable[hash_i];
        let counter: bool = bit_at(&self.hash_counter, hash_i);
        let ghost start = last_start(data@, tokens, hash_i as int);
        proof {
            assert(self.knows(data@, hash_i as int, start));
            lemma_last_start(CompressionLevel::Lvl1, data@, tokens, hash_i as int);
            lemma_span_len(CompressionLevel::Lvl1, tokens);
            lemma_literal_run(tokens);
            lemma_span_push(tokens, next_level_1(data@, tokens));
        }
        self.cachetable[hash_i] = next;
        self.hashtable[hash_i] = source_pos as u32;
        self.tokens = Ghost(tokens.push(next_level_1(data@, tokens)));
        let found: bool = cache == next && counter && (source_pos as u32 - offset >= 3
            || source_pos == offset as usize + 1 && self.lits >= 3 && source_pos > 3
            && surrounded_by_same(data, source_pos));
        assert(found == (start matches Some(q) && refers(data@, tokens, q)));
        let r: Option<(u32, u32)>;
        if found {
            let matchlen: usize = extend_match(
                data,
                offset as usize,
                source_pos,
                remainder(data, source_pos),
            );
            self.lits = 0;
            r = Some((hash, matchlen as u32));
        } else {
            self.lits = self.lits + 1;
            set_bit(&mut self.hash_counter, hash_i, true);
            r = None;
        }
        proof {
            let token = next_level_1(data@, tokens);
            assert(tokens.push(token).drop_last() =~= tokens);
            assert forall|h: int| 0 <= h < HASHTABLE_SIZE implies self.knows(
                data@,
                h,
                #[trigger] last_start(data@, self.tokens@, h),
            ) by {
                assert(old(self).knows(data@, h, last_start(data@, tokens, h)));
            }
        }
        r
    }
}

}
