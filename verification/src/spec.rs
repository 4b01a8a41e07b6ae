//! The mathematical model of SHA-224 and SHA-256 (FIPS 180-4), and the
//! lemmas that connect its pieces.
use vstd::prelude::*;
use crate::consts::{K32, H256_224, H256_256};

verus! {

// ---------------------------------------------------------------------------
// Words and the logical functions of section 4.1.2
// ---------------------------------------------------------------------------

/// Addition modulo 2^32.
pub open spec fn wadd(x: u32, y: u32) -> u32 {
    x.wrapping_add(y)
}

/// Rotation to the right by `n` bits, for `0 < n < 32`.
pub open spec fn rotr(x: u32, n: u32) -> u32 {
    (x >> n) | (x << ((32 - n) as u32))
}

pub open spec fn big_sigma0(x: u32) -> u32 {
    rotr(x, 2) ^ rotr(x, 13) ^ rotr(x, 22)
}

pub open spec fn big_sigma1(x: u32) -> u32 {
    rotr(x, 6) ^ rotr(x, 11) ^ rotr(x, 25)
}

pub open spec fn small_sigma0(x: u32) -> u32 {
    rotr(x, 7) ^ rotr(x, 18) ^ (x >> 3)
}

pub open spec fn small_sigma1(x: u32) -> u32 {
    rotr(x, 17) ^ rotr(x, 19) ^ (x >> 10)
}

pub open spec fn ch(x: u32, y: u32, z: u32) -> u32 {
    (x & y) ^ (!x & z)
}

pub open spec fn maj(x: u32, y: u32, z: u32) -> u32 {
    (x & y) ^ (x & z) ^ (y & z)
}

// ---------------------------------------------------------------------------
// One block: message words, schedule, rounds, feed-forward
// ---------------------------------------------------------------------------

/// The big-endian word `i` (0..16) of a 64-byte block.
pub open spec fn block_word(b: Seq<u8>, i: int) -> u32 {
    ((b[4 * i] as u32) << 24u32) | ((b[4 * i + 1] as u32) << 16u32) | ((b[4 * i + 2] as u32)
        << 8u32) | (b[4 * i + 3] as u32)
}

/// The sixteen message words of a 64-byte block.
pub open spec fn message_words(b: Seq<u8>) -> Seq<u32> {
    Seq::new(16, |i: int| block_word(b, i))
}

/// Word `t` of the message schedule W, from the sixteen message words `m`.
pub open spec fn sched(m: Seq<u32>, t: nat) -> u32
    decreases t,
{
    if t < 16 {
        m[t as int]
    } else {
        wadd(
            wadd(
                wadd(small_sigma1(sched(m, (t - 2) as nat)), sched(m, (t - 7) as nat)),
                small_sigma0(sched(m, (t - 15) as nat)),
            ),
            sched(m, (t - 16) as nat),
        )
    }
}

/// Round constant `t`.
pub open spec fn k(t: int) -> u32 {
    K32@[t]
}

/// One round on the working variables `s` = (a, b, c, d, e, f, g, h).
pub open spec fn round(s: Seq<u32>, kt: u32, wt: u32) -> Seq<u32> {
    let t1 = wadd(wadd(wadd(wadd(s[7], big_sigma1(s[4])), ch(s[4], s[5], s[6])), kt), wt);
    let t2 = wadd(big_sigma0(s[0]), maj(s[0], s[1], s[2]));
    seq![wadd(t1, t2), s[0], s[1], s[2], wadd(s[3], t1), s[4], s[5], s[6]]
}

/// The working variables after the first `n` rounds over the schedule of `m`.
pub open spec fn rounds(s: Seq<u32>, m: Seq<u32>, n: nat) -> Seq<u32>
    decreases n,
{
    if n == 0 {
        s
    } else {
        round(rounds(s, m, (n - 1) as nat), k(n - 1), sched(m, (n - 1) as nat))
    }
}

/// Word-wise sum of the chaining value and the working variables.
pub open spec fn feed_forward(s: Seq<u32>, r: Seq<u32>) -> Seq<u32> {
    Seq::new(8, |i: int| wadd(s[i], r[i]))
}

/// The compression function on sixteen message words.
pub open spec fn compress_words(s: Seq<u32>, m: Seq<u32>) -> Seq<u32> {
    feed_forward(s, rounds(s, m, 64))
}

/// The compression function on a 64-byte block.
pub open spec fn compress_block(s: Seq<u32>, b: Seq<u8>) -> Seq<u32> {
    compress_words(s, message_words(b))
}

/// Compression of a sequence of blocks, first to last.
pub open spec fn compress_blocks(s: Seq<u32>, blocks: Seq<[u8; 64]>) -> Seq<u32>
    decreases blocks.len(),
{
    if blocks.len() == 0 {
        s
    } else {
        compress_block(compress_blocks(s, blocks.drop_last()), blocks.last()@)
    }
}

/// Compression of the first `n` 64-byte blocks of the byte string `m`.
pub open spec fn hash_blocks(s: Seq<u32>, m: Seq<u8>, n: nat) -> Seq<u32>
    decreases n,
{
    if n == 0 {
        s
    } else {
        compress_block(hash_blocks(s, m, (n - 1) as nat), m.subrange(64 * (n - 1), 64 * n as int))
    }
}

// ---------------------------------------------------------------------------
// Padding, digests
// ---------------------------------------------------------------------------

/// Messages are shorter than 2^64 bits.
pub open spec fn max_len() -> nat {
    0x2000_0000_0000_0000
}

/// The eight big-endian bytes of `v`.
pub open spec fn be64(v: u64) -> Seq<u8> {
    seq![
        (v >> 56u64) as u8,
        (v >> 48u64) as u8,
        (v >> 40u64) as u8,
        (v >> 32u64) as u8,
        (v >> 24u64) as u8,
        (v >> 16u64) as u8,
        (v >> 8u64) as u8,
        v as u8,
    ]
}

/// Number of zero bytes between the 0x80 marker and the length field.
pub open spec fn zero_count(len: nat) -> nat {
    if len % 64 < 56 {
        (55 - len % 64) as nat
    } else {
        (119 - len % 64) as nat
    }
}

/// The bytes that padding appends to a message of `len` bytes.
pub open spec fn pad_suffix(len: nat) -> Seq<u8> {
    seq![0x80u8] + Seq::new(zero_count(len), |i: int| 0u8) + be64((len * 8) as u64)
}

/// The padded message (section 5.1.1).
pub open spec fn pad(m: Seq<u8>) -> Seq<u8> {
    m + pad_suffix(m.len())
}

/// The chaining value after the whole padded message.
pub open spec fn final_state(iv: Seq<u32>, m: Seq<u8>) -> Seq<u32> {
    hash_blocks(iv, pad(m), pad(m).len() / 64)
}

/// Byte `j` (0..4) of the big-endian encoding of `w`.
pub open spec fn word_byte(w: u32, j: int) -> u8 {
    if j == 0 {
        (w >> 24u32) as u8
    } else if j == 1 {
        (w >> 16u32) as u8
    } else if j == 2 {
        (w >> 8u32) as u8
    } else {
        w as u8
    }
}

/// The big-endian encoding of eight words.
pub open spec fn state_bytes(s: Seq<u32>) -> Seq<u8> {
    Seq::new(32, |i: int| word_byte(s[i / 4], i % 4))
}

/// The 32-byte digest of `m` from the initial value `iv`.
pub open spec fn digest_from(iv: Seq<u32>, m: Seq<u8>) -> Seq<u8> {
    state_bytes(final_state(iv, m))
}

/// SHA-256 of `m`.
pub open spec fn sha256(m: Seq<u8>) -> Seq<u8> {
    digest_from(H256_256@, m)
}

/// SHA-224 of `m`: the SHA-256 computation from another initial value,
/// truncated to 28 bytes.
pub open spec fn sha224(m: Seq<u8>) -> Seq<u8> {
    digest_from(H256_224@, m).take(28)
}

// ---------------------------------------------------------------------------
// Lemmas
// ---------------------------------------------------------------------------

/// The compression of the first `n` blocks depends only on those blocks.
pub proof fn lemma_hash_blocks_agree(s: Seq<u32>, a: Seq<u8>, b: Seq<u8>, n: nat)
    requires
        64 * n <= a.len(),
        64 * n <= b.len(),
        a.take((64 * n) as int) == b.take((64 * n) as int),
    ensures
        hash_blocks(s, a, n) == hash_blocks(s, b, n),
    decreases n,
{
    if n > 0 {
        let n1 = (n - 1) as nat;
        assert(a.take((64 * n1) as int) =~= a.take((64 * n) as int).take((64 * n1) as int));
        assert(b.take((64 * n1) as int) =~= b.take((64 * n) as int).take((64 * n1) as int));
        lemma_hash_blocks_agree(s, a, b, n1);
        assert(a.subrange((64 * n1) as int, 64 * n as int) =~= a.take((64 * n) as int).subrange((64 * n1) as int, 64 * n as int));
        assert(b.subrange((64 * n1) as int, 64 * n as int) =~= b.take((64 * n) as int).subrange((64 * n1) as int, 64 * n as int));
    }
}

/// Compressing `a` then the first `nb` blocks of `b` is compressing the first
/// `na + nb` blocks of `a + b`, where `a` holds exactly `na` blocks.
pub proof fn lemma_hash_blocks_split(s: Seq<u32>, a: Seq<u8>, b: Seq<u8>, na: nat, nb: nat)
    requires
        a.len() == 64 * na,
        64 * nb <= b.len(),
    ensures
        hash_blocks(s, a + b, na + nb) == hash_blocks(hash_blocks(s, a, na), b, nb),
    decreases nb,
{
    if nb == 0 {
        assert((a + b).take((64 * na) as int) =~= a.take((64 * na) as int));
        lemma_hash_blocks_agree(s, a + b, a, na);
    } else {
        let nb1 = (nb - 1) as nat;
        lemma_hash_blocks_split(s, a, b, na, nb1);
        assert((na + nb - 1) as nat == na + nb1);
        assert((a + b).subrange((64 * (na + nb1)) as int, (64 * (na + nb)) as int) =~= b.subrange(
            (64 * nb1) as int,
            64 * nb as int,
        ));
    }
}

/// Blocks given as arrays compress like the same bytes given as one string.
pub proof fn lemma_compress_blocks_bytes(s: Seq<u32>, blocks: Seq<[u8; 64]>, m: Seq<u8>)
    requires
        64 * blocks.len() <= m.len(),
        forall|i: int|
            0 <= i < blocks.len() ==> (#[trigger] blocks[i])@ == m.subrange(64 * i, 64 * i + 64),
    ensures
        compress_blocks(s, blocks) == hash_blocks(s, m, blocks.len()),
    decreases blocks.len(),
{
    if blocks.len() > 0 {
        let n1 = (blocks.len() - 1) as nat;
        lemma_compress_blocks_bytes(s, blocks.drop_last(), m);
        assert(blocks.last() == blocks[n1 as int]);
    }
}

/// Compressing `a` and then `b` is compressing `a + b`.
pub proof fn lemma_compress_blocks_split(s: Seq<u32>, a: Seq<[u8; 64]>, b: Seq<[u8; 64]>)
    ensures
        compress_blocks(compress_blocks(s, a), b) == compress_blocks(s, a + b),
    decreases b.len(),
{
    if b.len() == 0 {
        assert(a + b =~= a);
    } else {
        lemma_compress_blocks_split(s, a, b.drop_last());
        assert((a + b).drop_last() =~= a + b.drop_last());
        assert((a + b).last() == b.last());
    }
}

/// The padded message is a whole number of blocks.
pub proof fn lemma_pad_len(len: nat)
    ensures
        (len + pad_suffix(len).len()) % 64 == 0,
        len + pad_suffix(len).len() == 64 * (len / 64) + (if len % 64 < 56 { 64int } else { 128 }),
{
    assert(pad_suffix(len).len() == 9 + zero_count(len));
}

/// The number that a byte string denotes, most significant byte first.
pub open spec fn be_value(b: Seq<u8>) -> nat
    decreases b.len(),
{
    if b.len() == 0 {
        0
    } else {
        be_value(b.drop_last()) * 256 + b.last() as nat
    }
}

/// Eight bytes, most significant first, denote the 64-bit number `v`.
pub proof fn lemma_be64_value(v: u64)
    ensures
        be_value(be64(v)) == v,
        be64(v).len() == 8,
{
    let b = be64(v);
    let b0 = (v >> 56u64) as u8;
    let b1 = (v >> 48u64) as u8;
    let b2 = (v >> 40u64) as u8;
    let b3 = (v >> 32u64) as u8;
    let b4 = (v >> 24u64) as u8;
    let b5 = (v >> 16u64) as u8;
    let b6 = (v >> 8u64) as u8;
    let b7 = v as u8;
    assert(((((((((b0 as u64) * 256 + b1 as u64) * 256 + b2 as u64) * 256 + b3 as u64) * 256
        + b4 as u64) * 256 + b5 as u64) * 256 + b6 as u64) * 256 + b7 as u64) == v) by (bit_vector)
        requires
            b0 == (v >> 56u64) as u8,
            b1 == (v >> 48u64) as u8,
            b2 == (v >> 40u64) as u8,
            b3 == (v >> 32u64) as u8,
            b4 == (v >> 24u64) as u8,
            b5 == (v >> 16u64) as u8,
            b6 == (v >> 8u64) as u8,
            b7 == v as u8,
    ;
    assert(b.take(1).drop_last() =~= b.take(0));
    assert(b.take(2).drop_last() =~= b.take(1));
    assert(b.take(3).drop_last() =~= b.take(2));
    assert(b.take(4).drop_last() =~= b.take(3));
    assert(b.take(5).drop_last() =~= b.take(4));
    assert(b.take(6).drop_last() =~= b.take(5));
    assert(b.take(7).drop_last() =~= b.take(6));
    assert(b.take(8).drop_last() =~= b.take(7));
    assert(b.take(8) =~= b);
    assert(be_value(b.take(0)) == 0);
    assert(be_value(b.take(1)) == b0);
    assert(be_value(b.take(2)) == b0 * 256 + b1);
    assert(be_value(b.take(3)) == (b0 * 256 + b1) * 256 + b2);
    assert(be_value(b.take(4)) == ((b0 * 256 + b1) * 256 + b2) * 256 + b3);
    assert(be_value(b.take(5)) == (((b0 * 256 + b1) * 256 + b2) * 256 + b3) * 256 + b4);
    assert(be_value(b.take(6)) == ((((b0 * 256 + b1) * 256 + b2) * 256 + b3) * 256 + b4) * 256
        + b5);
    assert(be_value(b.take(7)) == (((((b0 * 256 + b1) * 256 + b2) * 256 + b3) * 256 + b4) * 256
        + b5) * 256 + b6);
}

/// The shape of padding (FIPS 180-4, 5.1.1): the message, the byte 0x80,
/// zero bytes, and eight bytes whose big-endian value is the bit length
/// 8 * |m| in full; the result is the shortest such string whose length is
/// a multiple of 64 bytes.
pub proof fn lemma_pad_shape(m: Seq<u8>)
    requires
        m.len() < max_len(),
    ensures
        pad(m).len() % 64 == 0,
        m.len() + 9 <= pad(m).len() < m.len() + 9 + 64,
        pad(m).take(m.len() as int) == m,
        pad(m)[m.len() as int] == 0x80u8,
        forall|i: int| m.len() < i < pad(m).len() - 8 ==> pad(m)[i] == 0u8,
        be_value(pad(m).subrange(pad(m).len() - 8, pad(m).len() as int)) == 8 * m.len(),
{
    let p = pad(m);
    lemma_pad_len(m.len());
    assert(p.take(m.len() as int) =~= m);
    let bits = (m.len() * 8) as u64;
    assert(bits == 8 * m.len());
    assert(p.subrange(p.len() - 8, p.len() as int) =~= be64(bits));
    lemma_be64_value(bits);
}

/// The padding suffix of a message of `len` bytes ends in the big-endian
/// bit length 8 * len, in full.
pub proof fn lemma_pad_suffix_length_field(len: nat)
    requires
        len < max_len(),
    ensures
        pad_suffix(len).len() >= 9,
        be_value(pad_suffix(len).subrange(pad_suffix(len).len() - 8, pad_suffix(len).len() as int))
            == 8 * len,
{
    let p = pad_suffix(len);
    let bits = (len * 8) as u64;
    assert(p.subrange(p.len() - 8, p.len() as int) =~= be64(bits));
    lemma_be64_value(bits);
}

} // verus!
