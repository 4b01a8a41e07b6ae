//! Eight-word vectors made of two lanes of four 32-bit words, as in a
//! 256-bit register, and the vector instructions the two-lane message
//! schedule uses. Every operation acts on each 128-bit lane on its own.
use vstd::prelude::*;
use crate::spec::{wadd, small_sigma0, small_sigma1};

verus! {

/// Lane-wise addition of 32-bit words (vpaddd).
pub fn vpaddd(a: [u32; 8], b: [u32; 8]) -> (r: [u32; 8])
    ensures
        forall|i: int| 0 <= i < 8 ==> #[trigger] r[i] == wadd(a[i], b[i]),
{
    [
        a[0].wrapping_add(b[0]),
        a[1].wrapping_add(b[1]),
        a[2].wrapping_add(b[2]),
        a[3].wrapping_add(b[3]),
        a[4].wrapping_add(b[4]),
        a[5].wrapping_add(b[5]),
        a[6].wrapping_add(b[6]),
        a[7].wrapping_add(b[7]),
    ]
}

/// Bitwise exclusive or (vpxor).
pub fn vpxor(a: [u32; 8], b: [u32; 8]) -> (r: [u32; 8])
    ensures
        forall|i: int| 0 <= i < 8 ==> #[trigger] r[i] == a[i] ^ b[i],
{
    [a[0] ^ b[0], a[1] ^ b[1], a[2] ^ b[2], a[3] ^ b[3], a[4] ^ b[4], a[5] ^ b[5], a[6] ^ b[6], a[7] ^ b[7]]
}

/// Logical right shift of each 32-bit word (vpsrld).
pub fn vpsrld(a: [u32; 8], n: u32) -> (r: [u32; 8])
    requires
        n < 32,
    ensures
        forall|i: int| 0 <= i < 8 ==> #[trigger] r[i] == a[i] >> n,
{
    [a[0] >> n, a[1] >> n, a[2] >> n, a[3] >> n, a[4] >> n, a[5] >> n, a[6] >> n, a[7] >> n]
}

/// Left shift of each 32-bit word (vpslld).
pub fn vpslld(a: [u32; 8], n: u32) -> (r: [u32; 8])
    requires
        n < 32,
    ensures
        forall|i: int| 0 <= i < 8 ==> #[trigger] r[i] == a[i] << n,
{
    [a[0] << n, a[1] << n, a[2] << n, a[3] << n, a[4] << n, a[5] << n, a[6] << n, a[7] << n]
}

/// Per lane, the words of `lo` moved down one place with the first word of
/// `hi` shifted in (vpalignr by four bytes).
pub fn vpalignr4(hi: [u32; 8], lo: [u32; 8]) -> (r: [u32; 8])
    ensures
        forall|i: int|
            0 <= i < 8 ==> #[trigger] r[i] == if i % 4 < 3 {
                lo[i + 1]
            } else {
                hi[i - 3]
            },
{
    [lo[1], lo[2], lo[3], hi[0], lo[5], lo[6], lo[7], hi[4]]
}

/// The lane word that control field `i % 4` of `imm` selects.
pub open spec fn pshufd_source(imm: u8, i: int) -> int {
    4 * (i / 4) + ((imm >> ((2 * (i % 4)) as u8)) & 3u8) as int
}

/// Per lane, word i takes the word that two-bit field i of `imm` names
/// (vpshufd).
pub fn vpshufd(a: [u32; 8], imm: u8) -> (r: [u32; 8])
    ensures
        forall|i: int| 0 <= i < 8 ==> #[trigger] r[i] == a[pshufd_source(imm, i)],
{
    let s0 = (imm & 3) as usize;
    let s1 = ((imm >> 2) & 3) as usize;
    let s2 = ((imm >> 4) & 3) as usize;
    let s3 = ((imm >> 6) & 3) as usize;
    proof {
        assert((imm >> 0u8) & 3u8 == imm & 3u8) by (bit_vector);
        assert((imm & 3u8) < 4 && ((imm >> 2u8) & 3u8) < 4 && ((imm >> 4u8) & 3u8) < 4 && ((imm
            >> 6u8) & 3u8) < 4) by (bit_vector);
    }
    let r = [a[s0], a[s1], a[s2], a[s3], a[4 + s0], a[4 + s1], a[4 + s2], a[4 + s3]];
    assert forall|i: int| 0 <= i < 8 implies #[trigger] r[i] == a[pshufd_source(imm, i)] by {
        assert(i % 4 == 0 ==> (2 * (i % 4)) as u8 == 0u8);
        assert(i % 4 == 1 ==> (2 * (i % 4)) as u8 == 2u8);
        assert(i % 4 == 2 ==> (2 * (i % 4)) as u8 == 4u8);
        assert(i % 4 == 3 ==> (2 * (i % 4)) as u8 == 6u8);
    }
    r
}

/// The 64-bit word made of two 32-bit words, `lo` in the low half.
pub open spec fn qword(lo: u32, hi: u32) -> u64 {
    ((hi as u64) << 32u64) | (lo as u64)
}

fn qword_shr(lo: u32, hi: u32, n: u64) -> (r: (u32, u32))
    requires
        n < 64,
    ensures
        r.0 == (qword(lo, hi) >> n) as u32,
        r.1 == ((qword(lo, hi) >> n) >> 32u64) as u32,
{
    let q = ((hi as u64) << 32) | (lo as u64);
    let s = q >> n;
    (s as u32, (s >> 32) as u32)
}

/// Logical right shift of each 64-bit word (vpsrlq); a vector holds four,
/// each made of an even-indexed word and the word above it.
pub fn vpsrlq(a: [u32; 8], n: u64) -> (r: [u32; 8])
    requires
        n < 64,
    ensures
        forall|k: int|
            0 <= k < 4 ==> #[trigger] r[2 * k] == (qword(a[2 * k], a[2 * k + 1]) >> n) as u32 && r[2
                * k + 1] == ((qword(a[2 * k], a[2 * k + 1]) >> n) >> 32u64) as u32,
{
    let (r0, r1) = qword_shr(a[0], a[1], n);
    let (r2, r3) = qword_shr(a[2], a[3], n);
    let (r4, r5) = qword_shr(a[4], a[5], n);
    let (r6, r7) = qword_shr(a[6], a[7], n);
    let r = [r0, r1, r2, r3, r4, r5, r6, r7];
    assert forall|k: int| 0 <= k < 4 implies #[trigger] r[2 * k] == (qword(a[2 * k], a[2 * k + 1])
        >> n) as u32 && r[2 * k + 1] == ((qword(a[2 * k], a[2 * k + 1]) >> n) >> 32u64) as u32 by {
        if k == 0 {
        } else if k == 1 {
        } else if k == 2 {
        } else {
        }
    }
    r
}

/// Byte `k` (0..16) of lane `lane`, bytes being little-endian within words.
pub open spec fn lane_byte(a: [u32; 8], lane: int, k: int) -> u8 {
    (a[4 * lane + k / 4] >> ((8 * (k % 4)) as u32)) as u8
}

/// The byte that shuffle control byte `m` selects from lane `lane`: zero
/// when its top bit is set, else the byte its low four bits name.
pub open spec fn pick_byte(a: [u32; 8], lane: int, m: u8) -> u8 {
    if m & 0x80u8 != 0 {
        0
    } else {
        lane_byte(a, lane, (m & 0x0fu8) as int)
    }
}

/// The little-endian word of four bytes.
pub open spec fn assemble(b0: u8, b1: u8, b2: u8, b3: u8) -> u32 {
    (b0 as u32) | ((b1 as u32) << 8u32) | ((b2 as u32) << 16u32) | ((b3 as u32) << 24u32)
}

/// Word `i` of the byte shuffle of `a` under `mask`.
pub open spec fn shuffled_word(a: [u32; 8], mask: Seq<u8>, i: int) -> u32 {
    let lane = i / 4;
    let w = i % 4;
    assemble(
        pick_byte(a, lane, mask[4 * w]),
        pick_byte(a, lane, mask[4 * w + 1]),
        pick_byte(a, lane, mask[4 * w + 2]),
        pick_byte(a, lane, mask[4 * w + 3]),
    )
}

fn pick(a: &[u32; 8], lane: usize, m: u8) -> (b: u8)
    requires
        lane < 2,
    ensures
        b == pick_byte(*a, lane as int, m),
{
    if m & 0x80 != 0 {
        0
    } else {
        let k = (m & 0x0f) as usize;
        proof {
            assert(m & 0x0fu8 < 16) by (bit_vector);
        }
        (a[4 * lane + k / 4] >> ((8 * (k % 4)) as u32)) as u8
    }
}

/// Per lane, byte i takes the byte that control byte i of `mask` selects
/// (vpshufb, the same sixteen control bytes for both lanes).
pub fn vpshufb(a: [u32; 8], mask: [u8; 16]) -> (r: [u32; 8])
    ensures
        forall|i: int| 0 <= i < 8 ==> #[trigger] r[i] == shuffled_word(a, mask@, i),
{
    let mut r = [0u32; 8];
    let mut i: usize = 0;
    while i < 8
        invariant
            i <= 8,
            forall|u: int| 0 <= u < i ==> #[trigger] r[u] == shuffled_word(a, mask@, u),
        decreases 8 - i,
    {
        let lane = i / 4;
        let w = i % 4;
        let b0 = pick(&a, lane, mask[4 * w]) as u32;
        let b1 = pick(&a, lane, mask[4 * w + 1]) as u32;
        let b2 = pick(&a, lane, mask[4 * w + 2]) as u32;
        let b3 = pick(&a, lane, mask[4 * w + 3]) as u32;
        r[i] = b0 | (b1 << 8) | (b2 << 16) | (b3 << 24);
        i += 1;
    }
    r
}

// ---------------------------------------------------------------------------
// What the schedule's instruction sequences compute
// ---------------------------------------------------------------------------

/// sigma0 from 32-bit shifts: (x >> 3) ^ (((x >> 7) ^ (x << 25)) ^ (x >> 18) ^ (x << 14)).
pub proof fn lemma_sigma0_by_shifts(x: u32)
    ensures
        (x >> 3u32) ^ ((((x >> 7u32) ^ (x << 25u32)) ^ (x >> 18u32)) ^ (x << 14u32)) == small_sigma0(x),
{
    assert((x >> 3u32) ^ ((((x >> 7u32) ^ (x << 25u32)) ^ (x >> 18u32)) ^ (x << 14u32)) == ((x
        >> 7u32) | (x << 25u32)) ^ ((x >> 18u32) | (x << 14u32)) ^ (x >> 3u32)) by (bit_vector);
}

/// For a word held in both halves of a 64-bit word, 64-bit right shifts by
/// 17 and 19 leave the 32-bit rotations in the low half, so with a 32-bit
/// shift by 10 they give sigma1.
pub proof fn lemma_sigma1_by_qwords(x: u32)
    ensures
        ((qword(x, x) >> 17u64) as u32) ^ ((qword(x, x) >> 19u64) as u32) ^ (x >> 10u32)
            == small_sigma1(x),
{
    assert(((((x as u64) << 32u64) | (x as u64)) >> 17u64) as u32 == (x >> 17u32) | (x << 15u32))
        by (bit_vector);
    assert(((((x as u64) << 32u64) | (x as u64)) >> 19u64) as u32 == (x >> 19u32) | (x << 13u32))
        by (bit_vector);
}

/// A word taken apart into its four bytes and put back together.
proof fn lemma_reassemble(x: u32)
    ensures
        assemble(
            (x >> 0u32) as u8,
            (x >> 8u32) as u8,
            (x >> 16u32) as u8,
            (x >> 24u32) as u8,
        ) == x,
        assemble(0, 0, 0, 0) == 0,
{
    assert(((((x >> 0u32) as u8) as u32) | ((((x >> 8u32) as u8) as u32) << 8u32) | ((((x >> 16u32)
        as u8) as u32) << 16u32) | ((((x >> 24u32) as u8) as u32) << 24u32)) == x) by (bit_vector);
    assert((((0u8 as u32) | ((0u8 as u32) << 8u32) | ((0u8 as u32) << 16u32) | ((0u8 as u32)
        << 24u32))) == 0u32) by (bit_vector);
}

/// The shuffle control bytes used here: 0x80 set only in 0xff, and each
/// other byte is its own index.
proof fn lemma_control_bytes()
    ensures
        0u8 & 0x80u8 == 0 && 0u8 & 0x0fu8 == 0,
        1u8 & 0x80u8 == 0 && 1u8 & 0x0fu8 == 1,
        2u8 & 0x80u8 == 0 && 2u8 & 0x0fu8 == 2,
        3u8 & 0x80u8 == 0 && 3u8 & 0x0fu8 == 3,
        8u8 & 0x80u8 == 0 && 8u8 & 0x0fu8 == 8,
        9u8 & 0x80u8 == 0 && 9u8 & 0x0fu8 == 9,
        10u8 & 0x80u8 == 0 && 10u8 & 0x0fu8 == 10,
        11u8 & 0x80u8 == 0 && 11u8 & 0x0fu8 == 11,
        0xffu8 & 0x80u8 != 0,
{
    assert(0u8 & 0x80u8 == 0 && 0u8 & 0x0fu8 == 0 && 1u8 & 0x80u8 == 0 && 1u8 & 0x0fu8 == 1 && 2u8
        & 0x80u8 == 0 && 2u8 & 0x0fu8 == 2 && 3u8 & 0x80u8 == 0 && 3u8 & 0x0fu8 == 3 && 8u8 & 0x80u8
        == 0 && 8u8 & 0x0fu8 == 8 && 9u8 & 0x80u8 == 0 && 9u8 & 0x0fu8 == 9 && 10u8 & 0x80u8 == 0
        && 10u8 & 0x0fu8 == 10 && 11u8 & 0x80u8 == 0 && 11u8 & 0x0fu8 == 11 && 0xffu8 & 0x80u8
        != 0) by (bit_vector);
}

/// Control bytes that keep words 0 and 2 of each lane, moved to words 0 and 1.
pub open spec fn low_mask() -> Seq<u8> {
    seq![0u8, 1, 2, 3, 8, 9, 10, 11, 0xff, 0xff, 0xff, 0xff, 0xff, 0xff, 0xff, 0xff]
}

/// Control bytes that keep words 0 and 2 of each lane, moved to words 2 and 3.
pub open spec fn high_mask() -> Seq<u8> {
    seq![0xffu8, 0xff, 0xff, 0xff, 0xff, 0xff, 0xff, 0xff, 0, 1, 2, 3, 8, 9, 10, 11]
}

/// The two picked-up words of a lane, for one half of a control mask.
proof fn lemma_pick_words(a: [u32; 8], lane: int)
    requires
        0 <= lane < 2,
    ensures
        assemble(
            pick_byte(a, lane, 0),
            pick_byte(a, lane, 1),
            pick_byte(a, lane, 2),
            pick_byte(a, lane, 3),
        ) == a[4 * lane],
        assemble(
            pick_byte(a, lane, 8),
            pick_byte(a, lane, 9),
            pick_byte(a, lane, 10),
            pick_byte(a, lane, 11),
        ) == a[4 * lane + 2],
        assemble(
            pick_byte(a, lane, 0xff),
            pick_byte(a, lane, 0xff),
            pick_byte(a, lane, 0xff),
            pick_byte(a, lane, 0xff),
        ) == 0,
{
    lemma_control_bytes();
    lemma_reassemble(a[4 * lane]);
    lemma_reassemble(a[4 * lane + 2]);
}

/// The shuffle by `low_mask` keeps words 0 and 2 of each lane as words 0
/// and 1, and clears words 2 and 3.
pub proof fn lemma_shuffle_low(a: [u32; 8], mask: Seq<u8>, i: int)
    requires
        mask == low_mask(),
        0 <= i < 8,
    ensures
        shuffled_word(a, mask, i) == if i % 4 == 0 {
            a[i]
        } else if i % 4 == 1 {
            a[i + 1]
        } else {
            0
        },
{
    lemma_pick_words(a, i / 4);
}

/// The shuffle by `high_mask` keeps words 0 and 2 of each lane as words 2
/// and 3, and clears words 0 and 1.
pub proof fn lemma_shuffle_high(a: [u32; 8], mask: Seq<u8>, i: int)
    requires
        mask == high_mask(),
        0 <= i < 8,
    ensures
        shuffled_word(a, mask, i) == if i % 4 == 2 {
            a[i - 2]
        } else if i % 4 == 3 {
            a[i - 1]
        } else {
            0
        },
{
    lemma_pick_words(a, i / 4);
}

} // verus!
