//! The xorshift32 generator that drives the randomized checks.
use vstd::prelude::*;

verus! {

/// One step of xorshift32 (shifts 13, 17, 5).
pub open spec fn xorshift(x: u32) -> u32 {
    let a = x ^ (x << 13u32);
    let b = a ^ (a >> 17u32);
    b ^ (b << 5u32)
}

/// The state after `n` steps from `x`.
pub open spec fn xorshift_n(x: u32, n: nat) -> u32
    decreases n,
{
    if n == 0 {
        x
    } else {
        xorshift(xorshift_n(x, (n - 1) as nat))
    }
}

/// A xorshift32 generator; the field is its state.
pub struct Rng(pub u32);

impl Rng {
    /// Advances the generator one step and returns the new state.
    pub fn next(&mut self) -> (r: u32)
        ensures
            final(self).0 == xorshift(old(self).0),
            r == final(self).0,
    {
        self.0 = self.0 ^ (self.0 << 13);
        self.0 = self.0 ^ (self.0 >> 17);
        self.0 = self.0 ^ (self.0 << 5);
        self.0
    }

    /// Fills `bytes`, in order, with the low bytes of successive outputs.
    pub fn fill(&mut self, bytes: &mut [u8])
        ensures
            final(bytes)@.len() == old(bytes)@.len(),
            forall|i: int|
                0 <= i < old(bytes)@.len() ==> final(bytes)@[i] == xorshift_n(old(self).0, (i + 1) as nat) as u8,
            final(self).0 == xorshift_n(old(self).0, old(bytes)@.len()),
    {
        let n = bytes.len();
        let mut i: usize = 0;
        while i < n
            invariant
                i <= n,
                n == bytes@.len(),
                bytes@.len() == old(bytes)@.len(),
                self.0 == xorshift_n(old(self).0, i as nat),
                forall|j: int| 0 <= j < i ==> bytes@[j] == xorshift_n(old(self).0, (j + 1) as nat) as u8,
            decreases n - i,
        {
            bytes[i] = self.next() as u8;
            i += 1;
        }
    }
}

} // verus!
