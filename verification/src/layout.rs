//! How the tokens of a stream are laid out as they are added one by one.
use vstd::arithmetic::power2::pow2;
use vstd::prelude::*;

use crate::level::CompressionLevel;
#[allow(unused_imports)]
use crate::format::{control_bits, frames, group, items, span, Token, GROUP};

verus! {

/// Adding a token adds its bytes.
pub proof fn lemma_items_push(level: CompressionLevel, tokens: Seq<Token>, token: Token)
    ensures
        items(level, tokens.push(token)) == items(level, tokens) + token.bytes(level),
{
    assert(tokens.push(token).drop_last() =~= tokens);
}

/// The first token has the first bytes.
pub proof fn lemma_items_first(level: CompressionLevel, tokens: Seq<Token>)
    requires
        tokens.len() > 0,
    ensures
        items(level, tokens) == tokens[0].bytes(level) + items(level, tokens.skip(1)),
    decreases tokens.len(),
{
    if tokens.len() == 1 {
        assert(tokens.drop_last() =~= Seq::empty());
        assert(tokens.skip(1) =~= Seq::empty());
        assert(items(level, tokens.drop_last()) =~= Seq::empty());
        assert(items(level, tokens) =~= tokens[0].bytes(level) + items(level, tokens.skip(1)));
    } else {
        lemma_items_first(level, tokens.drop_last());
        assert(tokens.drop_last().skip(1) =~= tokens.skip(1).drop_last());
        assert(tokens.skip(1).last() == tokens.last());
        assert(items(level, tokens) =~= tokens[0].bytes(level) + items(level, tokens.skip(1)));
    }
}

/// The bits of the tokens fit below the bit of the next one.
pub proof fn lemma_control_bits_bound(tokens: Seq<Token>)
    ensures
        control_bits(tokens) < pow2(tokens.len()),
    decreases tokens.len(),
{
    vstd::arithmetic::power2::lemma2_to64();
    if tokens.len() > 0 {
        lemma_control_bits_bound(tokens.skip(1));
        vstd::arithmetic::power2::lemma_pow2_unfold(tokens.len());
    }
}

/// Adding a token sets the next bit.
pub proof fn lemma_control_bits_push(tokens: Seq<Token>, token: Token)
    ensures
        control_bits(tokens.push(token)) == control_bits(tokens) + token.bit() * pow2(tokens.len()),
    decreases tokens.len(),
{
    vstd::arithmetic::power2::lemma2_to64();
    let all = tokens.push(token);
    if tokens.len() == 0 {
        assert(all.skip(1) =~= Seq::empty());
        assert(control_bits(all.skip(1)) == 0);
        assert(token.bit() * 1 == token.bit());
    } else {
        lemma_control_bits_push(tokens.skip(1), token);
        assert(all.skip(1) =~= tokens.skip(1).push(token));
        vstd::arithmetic::power2::lemma_pow2_unfold(tokens.len());
        let p = pow2((tokens.len() - 1) as nat);
        assert(2 * (token.bit() * p) == token.bit() * (2 * p)) by (nonlinear_arith);
    }
}

/// The control word while the tokens of a group are added: a mark moves down from
/// the highest bit, and the bits of the tokens follow it.
pub open spec fn control_after(tokens: Seq<Token>) -> nat
    decreases tokens.len(),
{
    if tokens.len() == 0 {
        0x8000_0000
    } else {
        control_after(tokens.drop_last()) / 2 + tokens.last().bit() * 0x8000_0000
    }
}

/// The bits of the tokens stand above the mark, whose place tells how many they are.
pub proof fn lemma_control_after(tokens: Seq<Token>)
    requires
        tokens.len() <= GROUP,
    ensures
        control_after(tokens) == pow2((GROUP - tokens.len()) as nat) * (2 * control_bits(tokens)
            + 1),
        control_after(tokens) < 0x1_0000_0000,
    decreases tokens.len(),
{
    vstd::arithmetic::power2::lemma2_to64();
    let n = tokens.len();
    if n > 0 {
        let before = tokens.drop_last();
        let token = tokens.last();
        lemma_control_after(before);
        assert(tokens =~= before.push(token));
        lemma_control_bits_push(before, token);
        let b = control_bits(before);
        let low = pow2((GROUP - n) as nat);
        let high = pow2((n - 1) as nat);
        vstd::arithmetic::power2::lemma_pow2_unfold((GROUP - n + 1) as nat);
        vstd::arithmetic::power2::lemma_pow2_adds((GROUP - n) as nat, (n - 1) as nat);
        assert(low * high == 0x4000_0000);
        assert(control_after(before) == 2 * low * (2 * b + 1));
        assert(2 * low * (2 * b + 1) == 2 * (low * (2 * b + 1))) by (nonlinear_arith);
        let bit = token.bit();
        assert(low * (2 * (b + bit * high) + 1) == low * (2 * b + 1) + bit * (2 * (low * high)))
            by (nonlinear_arith);
        assert(bit * (2 * (low * high)) == bit * 0x8000_0000);
    } else {
        let odd = 2 * control_bits(tokens) + 1;
        assert(pow2(31) * odd == pow2(31)) by (nonlinear_arith)
            requires
                odd == 1,
        ;
    }
}

/// The mark reaches the lowest bit when the group is full, and no earlier.
pub proof fn lemma_control_full(tokens: Seq<Token>)
    requires
        tokens.len() <= GROUP,
    ensures
        control_after(tokens) % 2 == 1 <==> tokens.len() == GROUP,
        tokens.len() == GROUP ==> control_after(tokens) == 2 * control_bits(tokens) + 1,
{
    lemma_control_after(tokens);
    vstd::arithmetic::power2::lemma2_to64();
    if tokens.len() < GROUP {
        let n = (GROUP - tokens.len()) as nat;
        vstd::arithmetic::power2::lemma_pow2_unfold(n);
        let half = pow2((n - 1) as nat);
        let odd = 2 * control_bits(tokens) + 1;
        assert((2 * half) * odd == 2 * (half * odd)) by (nonlinear_arith);
    } else {
        assert(pow2(0) == 1);
        assert(control_after(tokens) == 1 * (2 * control_bits(tokens) + 1));
    }
}

/// A series of groups, which has no group where there are no tokens.
pub open spec fn closed_frames(level: CompressionLevel, tokens: Seq<Token>) -> Seq<u8> {
    if tokens.len() == 0 {
        Seq::empty()
    } else {
        frames(level, tokens)
    }
}

/// A group is added behind complete groups.
pub proof fn lemma_frames_append(level: CompressionLevel, closed: Seq<Token>, open: Seq<Token>)
    requires
        closed.len() % (GROUP as nat) == 0,
        open.len() <= GROUP,
        closed.len() > 0 ==> open.len() > 0,
    ensures
        frames(level, closed + open) == closed_frames(level, closed) + group(level, open),
    decreases closed.len(),
{
    let all = closed + open;
    if closed.len() == 0 {
        assert(all =~= open);
        assert(frames(level, all) =~= closed_frames(level, closed) + group(level, open));
    } else {
        let rest = closed.skip(GROUP as int);
        assert(all.take(GROUP as int) =~= closed.take(GROUP as int));
        assert(all.skip(GROUP as int) =~= rest + open);
        lemma_frames_append(level, rest, open);
        if rest.len() == 0 {
            assert(closed.take(GROUP as int) =~= closed);
        }
        assert(frames(level, all) =~= closed_frames(level, closed) + group(level, open));
    }
}

/// What adjoining tokens stand for adds up.
pub proof fn lemma_span_append(a: Seq<Token>, b: Seq<Token>)
    ensures
        span(a + b) == span(a) + span(b),
    decreases b.len(),
{
    if b.len() == 0 {
        assert(a + b =~= a);
    } else {
        lemma_span_append(a, b.drop_last());
        assert((a + b).drop_last() =~= a + b.drop_last());
    }
}

}
