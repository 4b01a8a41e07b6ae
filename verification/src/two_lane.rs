//! SHA-256 compression laid out for two-lane vector units (AVX2 message
//! scheduling with BMI2 scalar rounds), in portable safe code.
//!
//! Two lanes schedule consecutive blocks together: the sixteen-word window of
//! each block lives in four groups of four words, and every group of W + K is
//! stored for both lanes at once. The schedule runs on eight-word vectors:
//! sigma0 from 32-bit shifts, sigma1 from 64-bit shifts of words held in
//! both halves of a 64-bit word, W16/W17 before W18/W19; the scheduling loop
//! stops at the zero group of the constant table. Compression stays
//! sequential: the second
//! block starts from the chaining value produced by the first. The scalar
//! rounds keep b ^ c across rounds and defer the final Sigma0 addition of
//! each round to the next one.
use vstd::prelude::*;
use crate::consts::K32;
use crate::spec::{
    wadd, rotr, big_sigma0, big_sigma1, ch, maj, k, sched, round, rounds, feed_forward,
    compress_words, compress_block, compress_blocks, message_words, small_sigma0, small_sigma1,
};
use crate::words::{rotate, load_word};
use crate::lanes::{
    vpaddd, vpxor, vpsrld, vpslld, vpalignr4, vpshufd, vpsrlq, vpshufb, low_mask, high_mask,
    lemma_sigma0_by_shifts, lemma_sigma1_by_qwords, lemma_shuffle_low, lemma_shuffle_high,
};

verus! {

// ---------------------------------------------------------------------------
// Scalar rounds
// ---------------------------------------------------------------------------

/// The working variables a..h, with `t3` still to be added to `a` and
/// `bc` equal to b ^ c.
struct Regs {
    a: u32,
    b: u32,
    c: u32,
    d: u32,
    e: u32,
    f: u32,
    g: u32,
    h: u32,
    t3: u32,
    bc: u32,
}

/// The working variables that the registers stand for.
spec fn regs_view(r: Regs) -> Seq<u32> {
    seq![wadd(r.a, r.t3), r.b, r.c, r.d, r.e, r.f, r.g, r.h]
}

/// Ch from f ^ g, with one AND.
proof fn lemma_ch(e: u32, f: u32, g: u32)
    ensures
        ((f ^ g) & e) ^ g == ch(e, f, g),
{
    assert(((f ^ g) & e) ^ g == (e & f) ^ (!e & g)) by (bit_vector);
}

/// Maj from b ^ c kept from the previous round and a ^ b.
proof fn lemma_maj(a: u32, b: u32, c: u32)
    ensures
        ((b ^ c) & (a ^ b)) ^ b == maj(a, b, c),
{
    assert(((b ^ c) & (a ^ b)) ^ b == (a & b) ^ (a & c) ^ (b & c)) by (bit_vector);
}

/// Sigma1 summed from its largest rotation down.
proof fn lemma_xor3(p: u32, q: u32, s: u32)
    ensures
        (p ^ q) ^ s == s ^ q ^ p,
{
    assert((p ^ q) ^ s == s ^ q ^ p) by (bit_vector);
}

/// Sigma0 summed as (r13 ^ r22) ^ r2.
proof fn lemma_xor3b(p: u32, q: u32, s: u32)
    ensures
        (p ^ q) ^ s == s ^ p ^ q,
{
    assert((p ^ q) ^ s == s ^ p ^ q) by (bit_vector);
}

/// T1, summed as the scalar instructions do: h + (W + K), then Ch, then Sigma1.
proof fn lemma_t1(h: u32, wk: u32, c: u32, s1: u32, kt: u32, wt: u32)
    requires
        wk == wadd(wt, kt),
    ensures
        wadd(wadd(wadd(h, wk), c), s1) == wadd(wadd(wadd(wadd(h, s1), c), kt), wt),
{
}

/// The deferred Sigma0 completes T1 + T2.
proof fn lemma_t2(t1: u32, mj: u32, s0: u32)
    ensures
        wadd(wadd(t1, mj), s0) == wadd(t1, wadd(s0, mj)),
{
}

/// One round, in the instruction order of BMI2 scalar rounds: `t4` starts
/// as a copy of f, the Sigma0 of this round is left pending in `t3`, and at
/// the end every variable moves one place (h becomes a, a becomes b, ...).
fn deferred_round(r: &mut Regs, wk: u32, Ghost(kt): Ghost<u32>, Ghost(wt): Ghost<u32>)
    requires
        old(r).bc == old(r).b ^ old(r).c,
        wk == wadd(wt, kt),
    ensures
        final(r).bc == final(r).b ^ final(r).c,
        regs_view(*final(r)) == round(regs_view(*old(r)), kt, wt),
{
    let ghost s = regs_view(*r);
    let mut t4 = r.f;
    r.h = r.h.wrapping_add(wk);
    t4 = t4 ^ r.g;
    let mut t0 = rotate(r.e, 25);
    let mut tmp = rotate(r.e, 11);
    r.a = r.a.wrapping_add(r.t3);
    t4 = t4 & r.e;
    t4 = t4 ^ r.g;
    t0 = t0 ^ tmp;
    r.t3 = rotate(r.e, 6);
    r.h = r.h.wrapping_add(t4);
    t0 = t0 ^ r.t3;
    tmp = r.a;
    t4 = rotate(r.a, 22);
    r.h = r.h.wrapping_add(t0);
    tmp = tmp ^ r.b;
    r.t3 = rotate(r.a, 13);
    t0 = rotate(r.a, 2);
    r.d = r.d.wrapping_add(r.h);
    r.bc = r.bc & tmp;
    r.t3 = r.t3 ^ t4;
    r.bc = r.bc ^ r.b;
    r.t3 = r.t3 ^ t0;
    r.h = r.h.wrapping_add(r.bc);
    proof {
        lemma_ch(s[4], s[5], s[6]);
        lemma_maj(s[0], s[1], s[2]);
        lemma_t1(s[7], wk, ch(s[4], s[5], s[6]), big_sigma1(s[4]), kt, wt);
        let t1 = wadd(wadd(wadd(wadd(s[7], big_sigma1(s[4])), ch(s[4], s[5], s[6])), kt), wt);
        lemma_t2(t1, maj(s[0], s[1], s[2]), big_sigma0(s[0]));
        lemma_xor3(rotr(s[4], 25), rotr(s[4], 11), rotr(s[4], 6));
        lemma_xor3b(rotr(s[0], 13), rotr(s[0], 22), rotr(s[0], 2));
    }
    let (a, b, c, d, e, f, g, h) = (r.h, r.a, r.b, r.c, r.d, r.e, r.f, r.g);
    r.a = a;
    r.b = b;
    r.c = c;
    r.d = d;
    r.e = e;
    r.f = f;
    r.g = g;
    r.h = h;
    r.bc = tmp;
    assert(regs_view(*r) =~= round(s, kt, wt));
}

/// Registers holding the working variables `s`, with nothing deferred.
fn regs_from(s: &[u32; 8]) -> (r: Regs)
    ensures
        r.bc == r.b ^ r.c,
        regs_view(r) == s@,
{
    let r = Regs {
        a: s[0],
        b: s[1],
        c: s[2],
        d: s[3],
        e: s[4],
        f: s[5],
        g: s[6],
        h: s[7],
        t3: 0,
        bc: s[1] ^ s[2],
    };
    assert(wadd(s[0], 0) == s[0]);
    assert(regs_view(r) =~= s@);
    r
}

// ---------------------------------------------------------------------------
// Constants, the two-lane message schedule
// ---------------------------------------------------------------------------

/// The round constants laid out for the two lanes: group g holds constants
/// 4g..4g+4 twice, once per lane; a zero group ends the table.
pub fn lane_constants() -> (kt: [[u32; 8]; 17])
    ensures
        forall|g: int, j: int| 0 <= g < 16 && 0 <= j < 8 ==> #[trigger] kt[g][j] == k(4 * g + j % 4),
        forall|j: int| 0 <= j < 8 ==> #[trigger] kt[16][j] == 0,
{
    let mut kt = [[0u32; 8]; 17];
    let mut i: usize = 0;
    while i < 16
        invariant
            i <= 16,
            forall|g: int, j: int| 0 <= g < i && 0 <= j < 8 ==> #[trigger] kt[g][j] == k(4 * g + j % 4),
            forall|g: int, j: int| i <= g < 17 && 0 <= j < 8 ==> #[trigger] kt[g][j] == 0,
        decreases 16 - i,
    {
        let mut group = [0u32; 8];
        let mut j: usize = 0;
        while j < 8
            invariant
                i < 16,
                j <= 8,
                forall|u: int| 0 <= u < j ==> #[trigger] group[u] == k(4 * i + u % 4),
            decreases 8 - j,
        {
            group[j] = K32[4 * i + j % 4];
            j += 1;
        }
        kt[i] = group;
        i += 1;
    }
    kt
}

/// The sixteen message words of lane `lane` of four groups of eight words.
pub open spec fn lane_words(w: [[u32; 8]; 4], lane: int) -> Seq<u32> {
    Seq::new(16, |t: int| w[t / 4][4 * lane + t % 4])
}

/// `v` holds schedule words 4g..4g+4 of `m0` in its low lane and of `m1`
/// in its high lane.
pub open spec fn group_holds(v: [u32; 8], m0: Seq<u32>, m1: Seq<u32>, g: int) -> bool {
    forall|i: int|
        0 <= i < 8 ==> #[trigger] v[i] == sched(if i < 4 { m0 } else { m1 }, (4 * g + i % 4) as nat)
}

/// The window holds groups g..g+4 of both schedules, group g + q in
/// place (g + q) % 4.
pub open spec fn window_holds(win: [[u32; 8]; 4], m0: Seq<u32>, m1: Seq<u32>, g: int) -> bool {
    forall|q: int| 0 <= q < 4 ==> #[trigger] group_holds(win[(g + q) % 4], m0, m1, g + q)
}

/// sigma0 of every word, from 32-bit shifts.
fn sigma0_lanes(v0: [u32; 8]) -> (r: [u32; 8])
    ensures
        forall|i: int| 0 <= i < 8 ==> #[trigger] r[i] == small_sigma0(v0[i]),
{
    let mut v1 = vpsrld(v0, 7);
    let mut v2 = vpslld(v0, 25);
    v1 = vpxor(v1, v2);
    v2 = vpsrld(v0, 18);
    v1 = vpxor(v1, v2);
    v2 = vpslld(v0, 14);
    v1 = vpxor(v1, v2);
    let v0s = vpsrld(v0, 3);
    let r = vpxor(v0s, v1);
    assert forall|i: int| 0 <= i < 8 implies #[trigger] r[i] == small_sigma0(v0[i]) by {
        lemma_sigma0_by_shifts(v0[i]);
    }
    r
}

/// sigma1 of every word held in both halves of a 64-bit word, left in the
/// low half; the high halves are left over.
fn sigma1_pairs(v0: [u32; 8]) -> (r: [u32; 8])
    ensures
        forall|k: int|
            0 <= k < 4 && v0[2 * k] == v0[2 * k + 1] ==> #[trigger] r[2 * k] == small_sigma1(v0[2 * k]),
{
    let mut v1 = vpsrlq(v0, 17);
    let v2 = vpsrlq(v0, 19);
    v1 = vpxor(v1, v2);
    let v0s = vpsrld(v0, 10);
    let r = vpxor(v1, v0s);
    assert forall|k: int| 0 <= k < 4 && v0[2 * k] == v0[2 * k + 1] implies #[trigger] r[2 * k]
        == small_sigma1(v0[2 * k]) by {
        lemma_sigma1_by_qwords(v0[2 * k]);
        assert(r[2 * k] == v1[2 * k] ^ v0s[2 * k]);
    }
    r
}

/// W[t-16] + W[t-7] + sigma0(W[t-15]): schedule word `t` without its
/// sigma1 term.
pub open spec fn partial_word(m: Seq<u32>, t: int) -> u32 {
    wadd(wadd(sched(m, (t - 16) as nat), sched(m, (t - 7) as nat)), small_sigma0(sched(m, (t - 15) as nat)))
}

/// The message the lane of word `i` schedules.
pub open spec fn lane_of(m0: Seq<u32>, m1: Seq<u32>, i: int) -> Seq<u32> {
    if i < 4 {
        m0
    } else {
        m1
    }
}

/// The terms of schedule words 4n..4n+4 that do not need sigma1.
fn partial_sums(
    w0: [u32; 8],
    w1: [u32; 8],
    w2: [u32; 8],
    w3: [u32; 8],
    Ghost(m0): Ghost<Seq<u32>>,
    Ghost(m1): Ghost<Seq<u32>>,
    Ghost(n): Ghost<int>,
) -> (r: [u32; 8])
    requires
        4 <= n < 16,
        group_holds(w0, m0, m1, n - 4),
        group_holds(w1, m0, m1, n - 3),
        group_holds(w2, m0, m1, n - 2),
        group_holds(w3, m0, m1, n - 1),
    ensures
        forall|i: int| 0 <= i < 8 ==> #[trigger] r[i] == partial_word(lane_of(m0, m1, i), 4 * n + i % 4),
{
    let v0 = vpalignr4(w1, w0);
    let v1 = vpalignr4(w3, w2);
    let a = vpaddd(w0, v1);
    let s0 = sigma0_lanes(v0);
    let r = vpaddd(a, s0);
    assert forall|i: int| 0 <= i < 8 implies #[trigger] r[i] == partial_word(lane_of(m0, m1, i), 4 * n + i % 4) by {
        let m = lane_of(m0, m1, i);
        let t = 4 * n + i % 4;
        assert(w0[i] == sched(m, (t - 16) as nat));
        if i % 4 < 3 {
            assert(w0[i + 1] == sched(m, (t - 15) as nat));
            assert(w2[i + 1] == sched(m, (t - 7) as nat));
        } else {
            assert(w1[i - 3] == sched(m, (t - 15) as nat));
            assert(w3[i - 3] == sched(m, (t - 7) as nat));
        }
        assert(v0[i] == sched(m, (t - 15) as nat));
        assert(v1[i] == sched(m, (t - 7) as nat));
    }
    r
}

/// Adds sigma1 of words 0 and 2 of each lane of `x`, each duplicated by
/// the word shuffle `imm`, into the words that `mask` moves them to.
fn add_sigma1(c: [u32; 8], x: [u32; 8], imm: u8, mask: [u8; 16]) -> (r: [u32; 8])
    requires
        imm == 250u8 || imm == 80u8,
        mask@ == low_mask() || mask@ == high_mask(),
    ensures
        forall|i: int|
            0 <= i < 8 ==> #[trigger] r[i] == wadd(
                c[i],
                if mask@ == low_mask() {
                    if i % 4 == 0 {
                        small_sigma1(x[i - i % 4 + if imm == 250u8 { 2int } else { 0 }])
                    } else if i % 4 == 1 {
                        small_sigma1(x[i - i % 4 + if imm == 250u8 { 3int } else { 1 }])
                    } else {
                        0
                    }
                } else {
                    if i % 4 == 2 {
                        small_sigma1(x[i - i % 4 + if imm == 250u8 { 2int } else { 0 }])
                    } else if i % 4 == 3 {
                        small_sigma1(x[i - i % 4 + if imm == 250u8 { 3int } else { 1 }])
                    } else {
                        0
                    }
                },
            ),
{
    let d = vpshufd(x, imm);
    let e = sigma1_pairs(d);
    let sel = vpshufb(e, mask);
    let r = vpaddd(c, sel);
    proof {
        lemma_pshufd_controls();
        assert forall|i: int| 0 <= i < 8 implies #[trigger] r[i] == wadd(
            c[i],
            if mask@ == low_mask() {
                if i % 4 == 0 {
                    small_sigma1(x[i - i % 4 + if imm == 250u8 { 2int } else { 0 }])
                } else if i % 4 == 1 {
                    small_sigma1(x[i - i % 4 + if imm == 250u8 { 3int } else { 1 }])
                } else {
                    0
                }
            } else {
                if i % 4 == 2 {
                    small_sigma1(x[i - i % 4 + if imm == 250u8 { 2int } else { 0 }])
                } else if i % 4 == 3 {
                    small_sigma1(x[i - i % 4 + if imm == 250u8 { 3int } else { 1 }])
                } else {
                    0
                }
            },
        ) by {
            let o = i - i % 4;
            if mask@ == low_mask() {
                lemma_shuffle_low(e, mask@, i);
            } else {
                lemma_shuffle_high(e, mask@, i);
            }
            assert(d[o] == d[o + 1]);
            assert(d[o + 2] == d[o + 3]);
            assert(e[o] == small_sigma1(d[o]));
            assert(e[o + 2] == small_sigma1(d[o + 2]));
        }
    }
    r
}

/// Adds sigma1 of W[4n-2] and W[4n-1] (words 2 and 3 of each lane of
/// `w3`) to words 0 and 1 of each lane.
fn add_sigma1_low(c: [u32; 8], w3: [u32; 8], low: [u8; 16]) -> (r: [u32; 8])
    requires
        low@ == low_mask(),
    ensures
        forall|i: int|
            0 <= i < 8 ==> #[trigger] r[i] == if i % 4 == 0 {
                wadd(c[i], small_sigma1(w3[i + 2]))
            } else if i % 4 == 1 {
                wadd(c[i], small_sigma1(w3[i + 2]))
            } else {
                c[i]
            },
{
    let r = add_sigma1(c, w3, 250, low);
    assert forall|i: int| 0 <= i < 8 implies #[trigger] r[i] == if i % 4 == 0 {
        wadd(c[i], small_sigma1(w3[i + 2]))
    } else if i % 4 == 1 {
        wadd(c[i], small_sigma1(w3[i + 2]))
    } else {
        c[i]
    } by {
        assert(r[i] == wadd(c[i], if i % 4 == 0 {
            small_sigma1(w3[i - i % 4 + 2])
        } else if i % 4 == 1 {
            small_sigma1(w3[i - i % 4 + 3])
        } else {
            0
        }));
    }
    r
}

/// Adds sigma1 of the new words 0 and 1 of each lane to words 2 and 3.
fn add_sigma1_high(c: [u32; 8], high: [u8; 16]) -> (r: [u32; 8])
    requires
        high@ == high_mask(),
    ensures
        forall|i: int|
            0 <= i < 8 ==> #[trigger] r[i] == if i % 4 == 2 {
                wadd(c[i], small_sigma1(c[i - 2]))
            } else if i % 4 == 3 {
                wadd(c[i], small_sigma1(c[i - 2]))
            } else {
                c[i]
            },
{
    proof {
        assert(high@ != low_mask()) by {
            assert(high@[0] != low_mask()[0]);
        }
    }
    let r = add_sigma1(c, c, 80, high);
    assert forall|i: int| 0 <= i < 8 implies #[trigger] r[i] == if i % 4 == 2 {
        wadd(c[i], small_sigma1(c[i - 2]))
    } else if i % 4 == 3 {
        wadd(c[i], small_sigma1(c[i - 2]))
    } else {
        c[i]
    } by {
        assert(r[i] == wadd(c[i], if i % 4 == 2 {
            small_sigma1(c[i - i % 4 + 0])
        } else if i % 4 == 3 {
            small_sigma1(c[i - i % 4 + 1])
        } else {
            0
        }));
    }
    r
}

/// Schedule words 4n..4n+4 of both lanes from the four groups before them:
/// W[t-16] + W[t-7], then sigma0(W[t-15]), then sigma1(W[t-2]) for the
/// first two words, and from those two new words for the last two.
#[verifier::spinoff_prover]
fn schedule_vec(
    w0: [u32; 8],
    w1: [u32; 8],
    w2: [u32; 8],
    w3: [u32; 8],
    low: [u8; 16],
    high: [u8; 16],
    Ghost(m0): Ghost<Seq<u32>>,
    Ghost(m1): Ghost<Seq<u32>>,
    Ghost(n): Ghost<int>,
) -> (r: [u32; 8])
    requires
        4 <= n < 16,
        low@ == low_mask(),
        high@ == high_mask(),
        group_holds(w0, m0, m1, n - 4),
        group_holds(w1, m0, m1, n - 3),
        group_holds(w2, m0, m1, n - 2),
        group_holds(w3, m0, m1, n - 1),
    ensures
        group_holds(r, m0, m1, n),
{
    let b = partial_sums(w0, w1, w2, w3, Ghost(m0), Ghost(m1), Ghost(n));
    let c = add_sigma1_low(b, w3, low);
    let r = add_sigma1_high(c, high);
    assert forall|i: int| 0 <= i < 8 implies #[trigger] r[i] == sched(
        if i < 4 { m0 } else { m1 },
        (4 * n + i % 4) as nat,
    ) by {
        let m = lane_of(m0, m1, i);
        let t = 4 * n + i % 4;
        if i % 4 < 2 {
            assert(w3[i + 2] == sched(m, (t - 2) as nat));
            lemma_word_from_partial(m, t, b[i], w3[i + 2]);
        } else {
            assert(w3[i] == sched(m, (t - 4) as nat));
            lemma_word_from_partial(m, t - 2, b[i - 2], w3[i]);
            lemma_word_from_partial(m, t, b[i], c[i - 2]);
        }
    }
    r
}

/// A partial sum completed by sigma1 of W[t-2] is schedule word `t`.
proof fn lemma_word_from_partial(m: Seq<u32>, t: int, p: u32, x: u32)
    requires
        16 <= t,
        p == partial_word(m, t),
        x == sched(m, (t - 2) as nat),
    ensures
        wadd(p, small_sigma1(x)) == sched(m, t as nat),
{
    lemma_sched_step(m, t as nat);
}

/// The two control bytes of the word duplications: 250 picks words 2, 2,
/// 3, 3 and 80 picks words 0, 0, 1, 1.
proof fn lemma_pshufd_controls()
    ensures
        (250u8 >> 0u8) & 3u8 == 2,
        (250u8 >> 2u8) & 3u8 == 2,
        (250u8 >> 4u8) & 3u8 == 3,
        (250u8 >> 6u8) & 3u8 == 3,
        (80u8 >> 0u8) & 3u8 == 0,
        (80u8 >> 2u8) & 3u8 == 0,
        (80u8 >> 4u8) & 3u8 == 1,
        (80u8 >> 6u8) & 3u8 == 1,
{
    assert((250u8 >> 0u8) & 3u8 == 2 && (250u8 >> 2u8) & 3u8 == 2 && (250u8 >> 4u8) & 3u8 == 3 && (
    250u8 >> 6u8) & 3u8 == 3 && (80u8 >> 0u8) & 3u8 == 0 && (80u8 >> 2u8) & 3u8 == 0 && (80u8
        >> 4u8) & 3u8 == 1 && (80u8 >> 6u8) & 3u8 == 1) by (bit_vector);
}

/// The schedule recurrence, summed in the order of the vector code:
/// W[t-16] + W[t-7], then sigma0(W[t-15]), then sigma1(W[t-2]).
proof fn lemma_sched_step(m: Seq<u32>, t: nat)
    requires
        16 <= t,
    ensures
        sched(m, t) == wadd(
            wadd(
                wadd(sched(m, (t - 16) as nat), sched(m, (t - 7) as nat)),
                small_sigma0(sched(m, (t - 15) as nat)),
            ),
            small_sigma1(sched(m, (t - 2) as nat)),
        ),
{
}

// ---------------------------------------------------------------------------
// Compression of one or two blocks
// ---------------------------------------------------------------------------

/// Stage `t` of W + K of lane `lane` sits in group t / 4 of `wk`.
pub open spec fn wk_holds(wk: [[u32; 8]; 17], m: Seq<u32>, lane: int, t: int) -> bool {
    wk[t / 4][4 * lane + t % 4] == wadd(sched(m, t as nat), k(t))
}

/// `kt` is the table of `lane_constants`.
pub open spec fn lane_constants_hold(kt: [[u32; 8]; 17]) -> bool {
    &&& forall|g: int, j: int| 0 <= g < 16 && 0 <= j < 8 ==> #[trigger] kt[g][j] == k(4 * g + j % 4)
    &&& forall|j: int| 0 <= j < 8 ==> #[trigger] kt[16][j] == 0
}

/// Group `n` of W + K, from group `n` of the schedule and of the constants.
fn add_constants(v: [u32; 8], kt: &[[u32; 8]; 17], n: usize, Ghost(m0): Ghost<Seq<u32>>, Ghost(m1): Ghost<Seq<u32>>) -> (r: [u32; 8])
    requires
        n < 16,
        lane_constants_hold(*kt),
        group_holds(v, m0, m1, n as int),
    ensures
        forall|t: int|
            4 * n <= t < 4 * n + 4 ==> r[t % 4] == wadd(sched(m0, t as nat), k(t)) && r[4 + t % 4]
                == wadd(sched(m1, t as nat), k(t)),
{
    let r = vpaddd(v, kt[n]);
    assert forall|t: int| 4 * n <= t < 4 * n + 4 implies r[t % 4] == wadd(sched(m0, t as nat), k(t))
        && r[4 + t % 4] == wadd(sched(m1, t as nat), k(t)) by {
        assert(v[t % 4] == sched(m0, t as nat));
        assert(v[4 + t % 4] == sched(m1, t as nat));
        assert(kt[n as int][t % 4] == k(t));
        assert(kt[n as int][4 + t % 4] == k(t));
    }
    r
}

/// Four rounds over group `g` of W + K of lane `lane`.
fn four_rounds(
    r: &mut Regs,
    wk: &[[u32; 8]; 17],
    g: usize,
    lane: usize,
    Ghost(s): Ghost<Seq<u32>>,
    Ghost(m): Ghost<Seq<u32>>,
)
    requires
        g < 16,
        lane < 2,
        old(r).bc == old(r).b ^ old(r).c,
        regs_view(*old(r)) == rounds(s, m, 4 * g as nat),
        forall|t: int| 4 * g <= t < 4 * g + 4 ==> #[trigger] wk_holds(*wk, m, lane as int, t),
    ensures
        final(r).bc == final(r).b ^ final(r).c,
        regs_view(*final(r)) == rounds(s, m, 4 * g as nat + 4),
{
    let mut j: usize = 0;
    while j < 4
        invariant
            g < 16,
            lane < 2,
            j <= 4,
            r.bc == r.b ^ r.c,
            regs_view(*r) == rounds(s, m, (4 * g + j) as nat),
            forall|t: int| 4 * g <= t < 4 * g + 4 ==> #[trigger] wk_holds(*wk, m, lane as int, t),
        decreases 4 - j,
    {
        let t = 4 * g + j;
        proof {
            assert(wk_holds(*wk, m, lane as int, t as int));
            assert(t / 4 == g && t % 4 == j);
        }
        deferred_round(r, wk[g][4 * lane + j], Ghost(k(t as int)), Ghost(sched(m, t as nat)));
        j += 1;
    }
}

/// Adds the pending Sigma0 to `a`, then the saved chaining value to the
/// working variables.
fn feed(r: &Regs, saved: &[u32; 8]) -> (out: [u32; 8])
    ensures
        out@ == feed_forward(saved@, regs_view(*r)),
{
    let a = r.a.wrapping_add(r.t3);
    let out = [
        a.wrapping_add(saved[0]),
        r.b.wrapping_add(saved[1]),
        r.c.wrapping_add(saved[2]),
        r.d.wrapping_add(saved[3]),
        r.e.wrapping_add(saved[4]),
        r.f.wrapping_add(saved[5]),
        r.g.wrapping_add(saved[6]),
        r.h.wrapping_add(saved[7]),
    ];
    assert(out@ =~= feed_forward(saved@, regs_view(*r)));
    out
}

/// Four rounds of the first block over group `g`, while group g + 4 of both
/// schedules replaces group g in the window and its W + K is stored.
fn schedule_rounds4(
    r: &mut Regs,
    wk: &mut [[u32; 8]; 17],
    win: &mut [[u32; 8]; 4],
    kt: &[[u32; 8]; 17],
    low: [u8; 16],
    high: [u8; 16],
    g: usize,
    Ghost(s0): Ghost<Seq<u32>>,
    Ghost(m0): Ghost<Seq<u32>>,
    Ghost(m1): Ghost<Seq<u32>>,
)
    requires
        g < 12,
        lane_constants_hold(*kt),
        low@ == low_mask(),
        high@ == high_mask(),
        old(r).bc == old(r).b ^ old(r).c,
        regs_view(*old(r)) == rounds(s0, m0, 4 * g as nat),
        window_holds(*old(win), m0, m1, g as int),
        forall|t: int| 0 <= t < 4 * g + 16 ==> #[trigger] wk_holds(*old(wk), m0, 0, t),
        forall|t: int| 0 <= t < 4 * g + 16 ==> #[trigger] wk_holds(*old(wk), m1, 1, t),
    ensures
        final(r).bc == final(r).b ^ final(r).c,
        regs_view(*final(r)) == rounds(s0, m0, 4 * g as nat + 4),
        window_holds(*final(win), m0, m1, g + 1),
        forall|t: int| 0 <= t < 4 * g + 20 ==> #[trigger] wk_holds(*final(wk), m0, 0, t),
        forall|t: int| 0 <= t < 4 * g + 20 ==> #[trigger] wk_holds(*final(wk), m1, 1, t),
        final(wk)[16] == old(wk)[16],
{
    four_rounds(r, wk, g, 0, Ghost(s0), Ghost(m0));
    let ghost old_win = *win;
    proof {
        assert(group_holds(win[(g + 0) % 4], m0, m1, g + 0));
        assert((g + 0) % 4 == g % 4);
        assert(group_holds(win[(g + 1) % 4], m0, m1, g + 1));
        assert(group_holds(win[(g + 2) % 4], m0, m1, g + 2));
        assert(group_holds(win[(g + 3) % 4], m0, m1, g + 3));
    }
    let v = schedule_vec(
        win[g % 4],
        win[(g + 1) % 4],
        win[(g + 2) % 4],
        win[(g + 3) % 4],
        low,
        high,
        Ghost(m0),
        Ghost(m1),
        Ghost(g + 4),
    );
    win[g % 4] = v;
    let sum = add_constants(v, kt, g + 4, Ghost(m0), Ghost(m1));
    let ghost old_wk = *wk;
    wk[g + 4] = sum;
    proof {
        assert forall|q: int| 0 <= q < 4 implies #[trigger] group_holds(win[(g + 1 + q) % 4], m0, m1, g + 1 + q) by {
            if q < 3 {
                assert(group_holds(old_win[(g + (q + 1)) % 4], m0, m1, g + (q + 1)));
                assert((g + 1 + q) % 4 != g % 4);
            } else {
                assert((g + 1 + q) % 4 == g % 4);
            }
        }
        assert forall|t: int| 0 <= t < 4 * g + 20 implies #[trigger] wk_holds(*wk, m0, 0, t) by {
            if t < 4 * g + 16 {
                assert(wk_holds(old_wk, m0, 0, t));
            } else {
                assert(t / 4 == g + 4);
            }
        }
        assert forall|t: int| 0 <= t < 4 * g + 20 implies #[trigger] wk_holds(*wk, m1, 1, t) by {
            if t < 4 * g + 16 {
                assert(wk_holds(old_wk, m1, 1, t));
            } else {
                assert(t / 4 == g + 4);
            }
        }
    }
}

/// The rounds of the first block, interleaved with the scheduling of both
/// lanes; on return `wk` holds W + K of both blocks and the incoming
/// chaining value. The scheduling loop ends at the zero group of `kt`.
fn first_block(
    wk: &mut [[u32; 8]; 17],
    w: [[u32; 8]; 4],
    kt: &[[u32; 8]; 17],
    low: [u8; 16],
    high: [u8; 16],
    state: &[u32; 8],
) -> (out: [u32; 8])
    requires
        lane_constants_hold(*kt),
        low@ == low_mask(),
        high@ == high_mask(),
    ensures
        out@ == compress_words(state@, lane_words(w, 0)),
        forall|t: int| 0 <= t < 64 ==> #[trigger] wk_holds(*final(wk), lane_words(w, 0), 0, t),
        forall|t: int| 0 <= t < 64 ==> #[trigger] wk_holds(*final(wk), lane_words(w, 1), 1, t),
        final(wk)[16] == *state,
{
    let ghost m0 = lane_words(w, 0);
    let ghost m1 = lane_words(w, 1);
    let ghost s0 = state@;
    wk[16] = *state;
    let mut win = w;
    proof {
        assert forall|q: int| 0 <= q < 4 implies #[trigger] group_holds(win[(0 + q) % 4], m0, m1, 0 + q) by {
            assert((0 + q) % 4 == q);
            assert forall|i: int| 0 <= i < 8 implies #[trigger] win[q][i] == sched(
                if i < 4 { m0 } else { m1 },
                (4 * q + i % 4) as nat,
            ) by {
                if i < 4 {
                    assert(m0[4 * q + i % 4] == w[q][i]);
                } else {
                    assert(m1[4 * q + i % 4] == w[q][i]);
                }
            }
        }
    }
    let mut g: usize = 0;
    while g < 4
        invariant
            g <= 4,
            win == w,
            lane_constants_hold(*kt),
            window_holds(win, m0, m1, 0),
            wk[16] == *state,
            forall|t: int| 0 <= t < 4 * g ==> #[trigger] wk_holds(*wk, m0, 0, t),
            forall|t: int| 0 <= t < 4 * g ==> #[trigger] wk_holds(*wk, m1, 1, t),
        decreases 4 - g,
    {
        assert(group_holds(win[(0 + g as int) % 4], m0, m1, 0 + g as int));
        let sum = add_constants(win[g], kt, g, Ghost(m0), Ghost(m1));
        let ghost old_wk = *wk;
        wk[g] = sum;
        proof {
            assert forall|t: int| 0 <= t < 4 * g + 4 implies #[trigger] wk_holds(*wk, m0, 0, t) by {
                if t < 4 * g {
                    assert(wk_holds(old_wk, m0, 0, t));
                } else {
                    assert(t / 4 == g);
                }
            }
            assert forall|t: int| 0 <= t < 4 * g + 4 implies #[trigger] wk_holds(*wk, m1, 1, t) by {
                if t < 4 * g {
                    assert(wk_holds(old_wk, m1, 1, t));
                } else {
                    assert(t / 4 == g);
                }
            }
        }
        g += 1;
    }
    let mut r = regs_from(state);
    let mut g: usize = 0;
    loop
        invariant_except_break
            g <= 8,
        invariant
            g % 4 == 0,
            g <= 12,
            lane_constants_hold(*kt),
            low@ == low_mask(),
            high@ == high_mask(),
            r.bc == r.b ^ r.c,
            regs_view(r) == rounds(s0, m0, 4 * g as nat),
            window_holds(win, m0, m1, g as int),
            forall|t: int| 0 <= t < 4 * g + 16 ==> #[trigger] wk_holds(*wk, m0, 0, t),
            forall|t: int| 0 <= t < 4 * g + 16 ==> #[trigger] wk_holds(*wk, m1, 1, t),
            wk[16] == *state,
        ensures
            g == 12,
        decreases 12 - g,
    {
        schedule_rounds4(&mut r, wk, &mut win, kt, low, high, g, Ghost(s0), Ghost(m0), Ghost(m1));
        schedule_rounds4(&mut r, wk, &mut win, kt, low, high, g + 1, Ghost(s0), Ghost(m0), Ghost(m1));
        schedule_rounds4(&mut r, wk, &mut win, kt, low, high, g + 2, Ghost(s0), Ghost(m0), Ghost(m1));
        schedule_rounds4(&mut r, wk, &mut win, kt, low, high, g + 3, Ghost(s0), Ghost(m0), Ghost(m1));
        g += 4;
        proof {
            assert(kt[8][0] == k(32));
            assert(kt[12][0] == k(48));
        }
        if kt[g + 4][0] == 0 {
            break;
        }
    }
    four_rounds(&mut r, wk, 12, 0, Ghost(s0), Ghost(m0));
    four_rounds(&mut r, wk, 13, 0, Ghost(s0), Ghost(m0));
    four_rounds(&mut r, wk, 14, 0, Ghost(s0), Ghost(m0));
    four_rounds(&mut r, wk, 15, 0, Ghost(s0), Ghost(m0));
    feed(&r, &wk[16])
}

/// The rounds of the second block, from W + K of lane 1, two groups at a
/// time until the saved chaining value is reached.
fn second_block(
    wk: &mut [[u32; 8]; 17],
    state: &[u32; 8],
    Ghost(m0): Ghost<Seq<u32>>,
    Ghost(m1): Ghost<Seq<u32>>,
) -> (out: [u32; 8])
    requires
        forall|t: int| 0 <= t < 64 ==> #[trigger] wk_holds(*old(wk), m0, 0, t),
        forall|t: int| 0 <= t < 64 ==> #[trigger] wk_holds(*old(wk), m1, 1, t),
    ensures
        out@ == compress_words(state@, m1),
        forall|t: int| 0 <= t < 64 ==> #[trigger] wk_holds(*final(wk), m0, 0, t),
        forall|t: int| 0 <= t < 64 ==> #[trigger] wk_holds(*final(wk), m1, 1, t),
        final(wk)[16] == *state,
{
    let ghost s1 = state@;
    let ghost before = *wk;
    wk[16] = *state;
    proof {
        assert forall|t: int| 0 <= t < 64 implies #[trigger] wk_holds(*wk, m0, 0, t) by {
            assert(wk_holds(before, m0, 0, t));
        }
        assert forall|t: int| 0 <= t < 64 implies #[trigger] wk_holds(*wk, m1, 1, t) by {
            assert(wk_holds(before, m1, 1, t));
        }
    }
    let mut r = regs_from(state);
    let mut g: usize = 0;
    while g != 16
        invariant
            g % 2 == 0,
            g <= 16,
            r.bc == r.b ^ r.c,
            regs_view(r) == rounds(s1, m1, 4 * g as nat),
            wk[16] == *state,
            forall|t: int| 0 <= t < 64 ==> #[trigger] wk_holds(*wk, m0, 0, t),
            forall|t: int| 0 <= t < 64 ==> #[trigger] wk_holds(*wk, m1, 1, t),
        decreases 16 - g,
    {
        four_rounds(&mut r, wk, g, 1, Ghost(s1), Ghost(m1));
        four_rounds(&mut r, wk, g + 1, 1, Ghost(s1), Ghost(m1));
        g += 2;
    }
    feed(&r, &wk[16])
}

/// The chaining value after compressing the block of lane 0 and, when
/// `len` is 2, then the block of lane 1.
pub open spec fn pair_result(s: Seq<u32>, w: [[u32; 8]; 4], len: usize) -> Seq<u32> {
    let first = compress_words(s, lane_words(w, 0));
    if len == 1 {
        first
    } else {
        compress_words(first, lane_words(w, 1))
    }
}

/// Compresses the block of lane 0 of `w`, then, when `len` is 2, the block
/// of lane 1. `w` holds four groups of eight message words: in each group,
/// four consecutive words of the first block, then the same words of the
/// second. `wk` is scratch space: sixteen groups of W + K and one group for
/// the saved chaining value; on return it holds W + K of both blocks and
/// the chaining value the last block started from.
pub fn compress_pair(state: &mut [u32; 8], w: [[u32; 8]; 4], wk: &mut [[u32; 8]; 17], len: usize)
    requires
        len == 1 || len == 2,
    ensures
        final(state)@ == pair_result(old(state)@, w, len),
        len == 1 ==> final(state)@ == compress_words(old(state)@, lane_words(w, 0)),
        len == 2 ==> final(state)@ == compress_words(
            compress_words(old(state)@, lane_words(w, 0)),
            lane_words(w, 1),
        ),
        forall|t: int| 0 <= t < 64 ==> #[trigger] wk_holds(*final(wk), lane_words(w, 0), 0, t),
        forall|t: int| 0 <= t < 64 ==> #[trigger] wk_holds(*final(wk), lane_words(w, 1), 1, t),
        final(wk)[16]@ == if len == 2 {
            compress_words(old(state)@, lane_words(w, 0))
        } else {
            old(state)@
        },
{
    let low: [u8; 16] = [0, 1, 2, 3, 8, 9, 10, 11, 0xff, 0xff, 0xff, 0xff, 0xff, 0xff, 0xff, 0xff];
    let high: [u8; 16] = [0xff, 0xff, 0xff, 0xff, 0xff, 0xff, 0xff, 0xff, 0, 1, 2, 3, 8, 9, 10, 11];
    assert(low@ =~= low_mask());
    assert(high@ =~= high_mask());
    let kt = lane_constants();
    let first = first_block(wk, w, &kt, low, high, state);
    if len == 2 {
        let second = second_block(wk, &first, Ghost(lane_words(w, 0)), Ghost(lane_words(w, 1)));
        *state = second;
    } else {
        *state = first;
    }
}

/// Loads two blocks as big-endian words into four groups of eight: in each
/// group, four words of `b0` and then the same four words of `b1`.
fn load_pair(b0: &[u8; 64], b1: &[u8; 64]) -> (w: [[u32; 8]; 4])
    ensures
        lane_words(w, 0) == message_words(b0@),
        lane_words(w, 1) == message_words(b1@),
{
    let mut w = [[0u32; 8]; 4];
    let mut g: usize = 0;
    while g < 4
        invariant
            g <= 4,
            forall|u: int| 0 <= u < 4 * g ==> #[trigger] w[u / 4][u % 4] == message_words(b0@)[u],
            forall|u: int| 0 <= u < 4 * g ==> #[trigger] w[u / 4][4 + u % 4] == message_words(b1@)[u],
        decreases 4 - g,
    {
        let mut v = [0u32; 8];
        let mut j: usize = 0;
        while j < 4
            invariant
                g < 4,
                j <= 4,
                forall|u: int| 0 <= u < j ==> #[trigger] v[u] == message_words(b0@)[4 * g + u],
                forall|u: int| 0 <= u < j ==> #[trigger] v[4 + u] == message_words(b1@)[4 * g + u],
            decreases 4 - j,
        {
            v[j] = load_word(b0, 4 * g + j);
            v[4 + j] = load_word(b1, 4 * g + j);
            j += 1;
        }
        let ghost old_w = w;
        w[g] = v;
        proof {
            assert forall|u: int| 0 <= u < 4 * g + 4 implies #[trigger] w[u / 4][u % 4] == message_words(b0@)[u] by {
                if u < 4 * g {
                    assert(old_w[u / 4][u % 4] == message_words(b0@)[u]);
                } else {
                    assert(u / 4 == g);
                    assert(v[u % 4] == message_words(b0@)[4 * g + u % 4]);
                }
            }
            assert forall|u: int| 0 <= u < 4 * g + 4 implies #[trigger] w[u / 4][4 + u % 4] == message_words(b1@)[u] by {
                if u < 4 * g {
                    assert(old_w[u / 4][4 + u % 4] == message_words(b1@)[u]);
                } else {
                    assert(u / 4 == g);
                    assert(v[4 + u % 4] == message_words(b1@)[4 * g + u % 4]);
                }
            }
        }
        g += 1;
    }
    assert(lane_words(w, 0) =~= message_words(b0@));
    assert(lane_words(w, 1) =~= message_words(b1@));
    w
}

/// Compresses the blocks, first to last, into the chaining value, two at a
/// time; an odd last block goes alone.
pub fn compress(state: &mut [u32; 8], blocks: &[[u8; 64]])
    ensures
        final(state)@ == compress_blocks(old(state)@, blocks@),
{
    let n = blocks.len();
    let mut i: usize = 0;
    while i < n
        invariant
            i <= n,
            n == blocks@.len(),
            state@ == compress_blocks(old(state)@, blocks@.take(i as int)),
        decreases n - i,
    {
        let len: usize = if n - i >= 2 { 2 } else { 1 };
        let p0 = &blocks[i];
        // Duplicate an odd tail rather than read past the input.
        let p1 = if len == 2 { &blocks[i + 1] } else { &blocks[i] };
        let w = load_pair(p0, p1);
        // Sixteen groups of W + K and one group for the chaining value.
        let mut wk = [[0u32; 8]; 17];
        let ghost before = state@;
        compress_pair(state, w, &mut wk, len);
        proof {
            let s0 = old(state)@;
            assert(blocks@.take(i + 1).drop_last() =~= blocks@.take(i as int));
            assert(blocks@.take(i + 1).last() == blocks@[i as int]);
            assert(*p0 == blocks@[i as int]);
            let first = compress_block(before, blocks@[i as int]@);
            assert(compress_blocks(s0, blocks@.take(i + 1)) == first);
            if len == 2 {
                assert(blocks@.take(i + 2).drop_last() =~= blocks@.take(i + 1));
                assert(blocks@.take(i + 2).last() == blocks@[i + 1]);
                assert(*p1 == blocks@[i + 1]);
                assert(compress_blocks(s0, blocks@.take(i + 2)) == compress_block(first, blocks@[i + 1]@));
            }
        }
        i += len;
    }
    assert(blocks@.take(n as int) =~= blocks@);
}

/// A pair with one block compresses the block of the low lane alone: the
/// high lane, which holds a copy or anything else, does not matter.
pub proof fn lemma_single_ignores_high_lane(s: Seq<u32>, w: [[u32; 8]; 4], v: [[u32; 8]; 4])
    requires
        lane_words(w, 0) == lane_words(v, 0),
    ensures
        pair_result(s, w, 1) == pair_result(s, v, 1),
{
}

/// Compressing a pair is compressing its blocks one after the other, as the
/// scalar compressor does: the first block alone for one, the first and
/// then the second for two.
pub proof fn lemma_pair_is_sequential(s: Seq<u32>, w: [[u32; 8]; 4], b0: [u8; 64], b1: [u8; 64])
    requires
        lane_words(w, 0) == message_words(b0@),
        lane_words(w, 1) == message_words(b1@),
    ensures
        pair_result(s, w, 1) == compress_blocks(s, seq![b0]),
        pair_result(s, w, 2) == compress_blocks(s, seq![b0, b1]),
{
    let one = seq![b0];
    let two = seq![b0, b1];
    assert(one.drop_last() =~= Seq::<[u8; 64]>::empty());
    assert(compress_blocks(s, one.drop_last()) == s);
    assert(one.last() == b0);
    assert(compress_blocks(s, one) == compress_block(s, b0@));
    assert(two.drop_last() =~= one);
    assert(two.last() == b1);
    assert(compress_blocks(s, two) == compress_block(compress_block(s, b0@), b1@));
}

} // verus!
