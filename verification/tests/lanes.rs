use lib::lanes::{vpaddd, vpalignr4, vpshufb, vpshufd, vpsrld, vpslld, vpsrlq, vpxor};
use lib::two_lane::lane_constants;

const V: [u32; 8] = [0x0302_0100, 0x0706_0504, 0x0b0a_0908, 0x0f0e_0d0c, 10, 11, 12, 13];

#[test]
fn word_shuffles() {
    assert_eq!(vpshufd(V, 250), [V[2], V[2], V[3], V[3], 12, 12, 13, 13]);
    assert_eq!(vpshufd(V, 80), [V[0], V[0], V[1], V[1], 10, 10, 11, 11]);
    let hi = [100, 101, 102, 103, 104, 105, 106, 107];
    assert_eq!(vpalignr4(hi, V), [V[1], V[2], V[3], 100, 11, 12, 13, 104]);
}

#[test]
fn byte_shuffles() {
    let low = [0, 1, 2, 3, 8, 9, 10, 11, 0xff, 0xff, 0xff, 0xff, 0xff, 0xff, 0xff, 0xff];
    let high = [0xff, 0xff, 0xff, 0xff, 0xff, 0xff, 0xff, 0xff, 0, 1, 2, 3, 8, 9, 10, 11];
    assert_eq!(vpshufb(V, low), [V[0], V[2], 0, 0, 10, 12, 0, 0]);
    assert_eq!(vpshufb(V, high), [0, 0, V[0], V[2], 0, 0, 10, 12]);
    // Byte reversal within each word.
    let swap = [3, 2, 1, 0, 7, 6, 5, 4, 11, 10, 9, 8, 15, 14, 13, 12];
    assert_eq!(vpshufb(V, swap)[0], 0x0001_0203);
}

#[test]
fn shifts_and_arithmetic() {
    let x = 0x8000_0001u32;
    let dup = [x, x, 0, 0, 1, 2, 3, 4];
    let q = vpsrlq(dup, 17);
    assert_eq!(q[0], x.rotate_right(17));
    assert_eq!(q[1], x >> 17);
    assert_eq!(vpsrld(dup, 1)[0], x >> 1);
    assert_eq!(vpslld(dup, 1)[0], x << 1);
    assert_eq!(vpxor(dup, dup), [0; 8]);
    assert_eq!(vpaddd([u32::MAX; 8], [2; 8]), [1; 8]);
}

#[test]
fn constants_end_with_a_zero_group() {
    let kt = lane_constants();
    assert_eq!(kt[0], [0x428a2f98, 0x71374491, 0xb5c0fbcf, 0xe9b5dba5, 0x428a2f98, 0x71374491, 0xb5c0fbcf, 0xe9b5dba5]);
    assert_eq!(kt[15][7], 0xc67178f2);
    assert_eq!(kt[16], [0; 8]);
}
