//! The portable scalar compression function.
use vstd::prelude::*;
use crate::consts::K32;
use crate::spec::{
    wadd, message_words, sched, round, rounds, compress_words, compress_block,
    compress_blocks,
};
use crate::words::{
    big_sigma0_word, big_sigma1_word, small_sigma0_word, small_sigma1_word, ch_word, maj_word,
    load_word,
};

verus! {

/// One round on the working variables.
fn step(v: [u32; 8], kt: u32, wt: u32) -> (r: [u32; 8])
    ensures
        r@ == round(v@, kt, wt),
{
    let t1 = v[7].wrapping_add(big_sigma1_word(v[4])).wrapping_add(ch_word(v[4], v[5], v[6])).wrapping_add(
        kt,
    ).wrapping_add(wt);
    let t2 = big_sigma0_word(v[0]).wrapping_add(maj_word(v[0], v[1], v[2]));
    let r = [t1.wrapping_add(t2), v[0], v[1], v[2], v[3].wrapping_add(t1), v[4], v[5], v[6]];
    assert(r@ =~= round(v@, kt, wt));
    r
}

/// Compresses one 64-byte block into the chaining value.
pub fn compress_one(state: &mut [u32; 8], block: &[u8; 64])
    ensures
        final(state)@ == compress_block(old(state)@, block@),
{
    let ghost m = message_words(block@);
    let mut w = [0u32; 64];
    let mut t: usize = 0;
    while t < 16
        invariant
            t <= 16,
            m == message_words(block@),
            forall|u: int| 0 <= u < t ==> w[u] == sched(m, u as nat),
        decreases 16 - t,
    {
        w[t] = load_word(block, t);
        t += 1;
    }
    while t < 64
        invariant
            16 <= t <= 64,
            forall|u: int| 0 <= u < t ==> w[u] == sched(m, u as nat),
        decreases 64 - t,
    {
        w[t] = small_sigma1_word(w[t - 2]).wrapping_add(w[t - 7]).wrapping_add(
            small_sigma0_word(w[t - 15]),
        ).wrapping_add(w[t - 16]);
        t += 1;
    }
    let mut v = *state;
    let mut t: usize = 0;
    while t < 64
        invariant
            t <= 64,
            forall|u: int| 0 <= u < 64 ==> w[u] == sched(m, u as nat),
            v@ == rounds(old(state)@, m, t as nat),
            *state == *old(state),
        decreases 64 - t,
    {
        v = step(v, K32[t], w[t]);
        t += 1;
    }
    let mut i: usize = 0;
    while i < 8
        invariant
            i <= 8,
            v@ == rounds(old(state)@, m, 64),
            forall|j: int| 0 <= j < i ==> state[j] == wadd(old(state)@[j], v[j]),
            forall|j: int| i <= j < 8 ==> state[j] == old(state)@[j],
        decreases 8 - i,
    {
        state[i] = state[i].wrapping_add(v[i]);
        i += 1;
    }
    assert(state@ =~= compress_words(old(state)@, m));
}

/// Compresses the blocks, first to last, into the chaining value.
pub fn compress(state: &mut [u32; 8], blocks: &[[u8; 64]])
    ensures
        final(state)@ == compress_blocks(old(state)@, blocks@),
{
    let mut i: usize = 0;
    while i < blocks.len()
        invariant
            i <= blocks.len(),
            state@ == compress_blocks(old(state)@, blocks@.take(i as int)),
        decreases blocks.len() - i,
    {
        compress_one(state, &blocks[i]);
        assert(blocks@.take(i + 1).drop_last() =~= blocks@.take(i as int));
        i += 1;
    }
    assert(blocks@.take(blocks.len() as int) =~= blocks@);
}

} // verus!
