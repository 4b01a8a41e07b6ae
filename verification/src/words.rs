//! Executable versions of the word functions of FIPS 180-4, section 4.1.2.
use vstd::prelude::*;
use crate::spec::{rotr, big_sigma0, big_sigma1, small_sigma0, small_sigma1, ch, maj, block_word};

verus! {

/// Rotation to the right by `n` bits.
pub fn rotate(x: u32, n: u32) -> (r: u32)
    requires
        0 < n < 32,
    ensures
        r == rotr(x, n),
{
    (x >> n) | (x << (32 - n))
}

pub fn big_sigma0_word(x: u32) -> (r: u32)
    ensures
        r == big_sigma0(x),
{
    rotate(x, 2) ^ rotate(x, 13) ^ rotate(x, 22)
}

pub fn big_sigma1_word(x: u32) -> (r: u32)
    ensures
        r == big_sigma1(x),
{
    rotate(x, 6) ^ rotate(x, 11) ^ rotate(x, 25)
}

pub fn small_sigma0_word(x: u32) -> (r: u32)
    ensures
        r == small_sigma0(x),
{
    rotate(x, 7) ^ rotate(x, 18) ^ (x >> 3)
}

pub fn small_sigma1_word(x: u32) -> (r: u32)
    ensures
        r == small_sigma1(x),
{
    rotate(x, 17) ^ rotate(x, 19) ^ (x >> 10)
}

pub fn ch_word(x: u32, y: u32, z: u32) -> (r: u32)
    ensures
        r == ch(x, y, z),
{
    (x & y) ^ (!x & z)
}

pub fn maj_word(x: u32, y: u32, z: u32) -> (r: u32)
    ensures
        r == maj(x, y, z),
{
    (x & y) ^ (x & z) ^ (y & z)
}

/// Reads the big-endian word `i` of a 64-byte block.
pub fn load_word(block: &[u8; 64], i: usize) -> (r: u32)
    requires
        i < 16,
    ensures
        r == block_word(block@, i as int),
{
    ((block[4 * i] as u32) << 24) | ((block[4 * i + 1] as u32) << 16) | ((block[4 * i + 2] as u32)
        << 8) | (block[4 * i + 3] as u32)
}

} // verus!
