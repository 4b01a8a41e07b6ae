//! Independent padding plus the scalar compressor: a reference digest for
//! both hashers, covering SHA-224's other initial value and its truncation.
use vstd::prelude::*;
use crate::soft;
use crate::dispatch::{Backend, compress_with};
use crate::spec::{
    hash_blocks, final_state, pad, pad_suffix, zero_count, max_len, state_bytes,
    word_byte, digest_from, be_value, lemma_pad_suffix_length_field, lemma_compress_blocks_bytes, lemma_hash_blocks_split, lemma_pad_len,
};

verus! {

/// Splits a byte string of whole blocks into its 64-byte blocks.
pub fn blocks(input: &[u8]) -> (r: Vec<[u8; 64]>)
    requires
        input@.len() % 64 == 0,
    ensures
        r@.len() == input@.len() / 64,
        forall|i: int|
            0 <= i < r@.len() ==> (#[trigger] r@[i])@ == input@.subrange(64 * i, 64 * i + 64),
{
    let n = input.len() / 64;
    let mut r: Vec<[u8; 64]> = Vec::new();
    assert(64 * n <= input@.len());
    let mut i: usize = 0;
    while i < n
        invariant
            i <= n,
            n == input@.len() / 64,
            64 * n <= input@.len(),
            r@.len() == i,
            forall|j: int|
                0 <= j < i ==> (#[trigger] r@[j])@ == input@.subrange(64 * j, 64 * j + 64),
        decreases n - i,
    {
        let mut block = [0u8; 64];
        let mut j: usize = 0;
        while j < 64
            invariant
                i < n,
                64 * n <= input.len(),
                j <= 64,
                forall|u: int| 0 <= u < j ==> block@[u] == input@[64 * i + u],
            decreases 64 - j,
        {
            assert(64 * i + j < input.len());
            block[j] = input[64 * i + j];
            j += 1;
        }
        assert(block@ =~= input@.subrange(64 * i, 64 * i + 64));
        r.push(block);
        i += 1;
    }
    r
}

/// Builds the final one or two blocks of padding for a message of
/// `total_len` bytes whose incomplete last block is `remainder`; returns the
/// buffer and how many of its bytes (64 or 128) are used.
pub fn padding_blocks(remainder: &[u8], total_len: u64) -> (r: ([u8; 128], usize))
    requires
        remainder@.len() == total_len % 64,
        total_len < max_len(),
    ensures
        r.1 == 64 || r.1 == 128,
        r.0@.take(r.1 as int) == remainder@ + pad_suffix(total_len as nat),
        r.1 == (if total_len % 64 < 56 { 64int } else { 128 }),
        forall|i: int| r.1 <= i < 128 ==> r.0@[i] == 0u8,
        r.0@[remainder@.len() as int] == 0x80u8,
        be_value(r.0@.subrange(r.1 - 8, r.1 as int)) == 8 * total_len,
{
    let rem = remainder.len();
    let mut padding = [0u8; 128];
    let mut i: usize = 0;
    while i < rem
        invariant
            i <= rem,
            rem < 64,
            rem == remainder@.len(),
            forall|u: int| 0 <= u < i ==> padding@[u] == remainder@[u],
            forall|u: int| i <= u < 128 ==> padding@[u] == 0u8,
        decreases rem - i,
    {
        padding[i] = remainder[i];
        i += 1;
    }
    padding[rem] = 0x80;
    let len = if rem < 56 { 64 } else { 128 };
    let bits = total_len * 8;
    padding[len - 8] = (bits >> 56) as u8;
    padding[len - 7] = (bits >> 48) as u8;
    padding[len - 6] = (bits >> 40) as u8;
    padding[len - 5] = (bits >> 32) as u8;
    padding[len - 4] = (bits >> 24) as u8;
    padding[len - 3] = (bits >> 16) as u8;
    padding[len - 2] = (bits >> 8) as u8;
    padding[len - 1] = bits as u8;
    proof {
        assert(zero_count(total_len as nat) == len - rem - 9);
        assert(bits == (total_len * 8) as u64);
        assert(padding@.take(len as int) =~= remainder@ + pad_suffix(total_len as nat));
        let p = pad_suffix(total_len as nat);
        lemma_pad_suffix_length_field(total_len as nat);
        assert(padding@.subrange(len - 8, len as int) =~= p.subrange(p.len() - 8, p.len() as int));
    }
    (padding, len)
}

/// The big-endian encoding of the chaining value.
pub fn state_to_bytes(state: &[u32; 8]) -> (digest: [u8; 32])
    ensures
        digest@ == state_bytes(state@),
{
    let mut digest = [0u8; 32];
    let mut i: usize = 0;
    while i < 8
        invariant
            i <= 8,
            forall|u: int| 0 <= u < 4 * i ==> digest@[u] == word_byte(state@[u / 4], u % 4),
        decreases 8 - i,
    {
        let word = state[i];
        digest[4 * i] = (word >> 24) as u8;
        digest[4 * i + 1] = (word >> 16) as u8;
        digest[4 * i + 2] = (word >> 8) as u8;
        digest[4 * i + 3] = word as u8;
        i += 1;
    }
    assert(digest@ =~= state_bytes(state@));
    digest
}

/// Compresses the padded tail of a message with the backend `backend`:
/// `remainder` is its incomplete last block and `total_len` its length.
pub fn compress_tail(state: &mut [u32; 8], remainder: &[u8], total_len: u64, backend: Backend)
    requires
        remainder@.len() == total_len % 64,
        total_len < max_len(),
    ensures
        final(state)@ == hash_blocks(
            old(state)@,
            remainder@ + pad_suffix(total_len as nat),
            (remainder@.len() + pad_suffix(total_len as nat).len()) as nat / 64,
        ),
{
    let (padding, len) = padding_blocks(remainder, total_len);
    let ghost tail = padding@.take(len as int);
    let tail_blocks = blocks(&padding[0..len]);
    compress_with(backend, state, tail_blocks.as_slice());
    proof {
        lemma_compress_blocks_bytes(old(state)@, tail_blocks@, tail);
    }
}

/// The chaining value of a whole message is that of its whole blocks
/// followed by its padded tail.
pub proof fn lemma_final_state_split(iv: Seq<u32>, m: Seq<u8>, full: nat)
    requires
        full == m.len() / 64 * 64,
    ensures
        final_state(iv, m) == hash_blocks(
            hash_blocks(iv, m.take(full as int), full / 64),
            m.skip(full as int) + pad_suffix(m.len()),
            (m.skip(full as int).len() + pad_suffix(m.len()).len()) as nat / 64,
        ),
{
    let tail = m.skip(full as int) + pad_suffix(m.len());
    lemma_pad_len(m.len());
    lemma_hash_blocks_split(iv, m.take(full as int), tail, full / 64, tail.len() / 64);
    assert(m.take(full as int) + tail =~= pad(m));
}

/// The digest of `input` from the chaining value `state`: padding is built
/// here and the blocks go through the scalar compressor.
pub fn soft_digest(input: &[u8], state: [u32; 8]) -> (digest: [u8; 32])
    requires
        input@.len() < max_len(),
    ensures
        digest@ == digest_from(state@, input@),
{
    let mut state = state;
    let ghost iv = state@;
    let ghost m = input@;
    let len_in = input.len();
    let full = len_in / 64 * 64;
    let head = blocks(&input[0..full]);
    soft::compress(&mut state, head.as_slice());
    proof {
        lemma_compress_blocks_bytes(iv, head@, m.take(full as int));
    }
    let remainder = &input[full..len_in];
    compress_tail(&mut state, remainder, len_in as u64, Backend::Soft);
    proof {
        assert(remainder@ == m.skip(full as int));
        lemma_final_state_split(iv, m, full as nat);
    }
    state_to_bytes(&state)
}

} // verus!
