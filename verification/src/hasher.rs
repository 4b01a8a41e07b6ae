//! Streaming SHA-224 and SHA-256: bytes are buffered up to a whole block,
//! whole blocks are compressed as soon as they are complete, and the padding
//! is applied when the digest is taken.
use vstd::prelude::*;
use crate::consts::{H256_224, H256_256};
use crate::oracle::{compress_tail, state_to_bytes, lemma_final_state_split};
use crate::dispatch::{Backend, compress_with};
use crate::spec::{
    hash_blocks, compress_block, compress_blocks, max_len, sha224, sha256, digest_from, lemma_hash_blocks_agree,
};

verus! {

/// The buffered state shared by both hashers.
pub struct Engine {
    state: [u32; 8],
    buffer: [u8; 64],
    pos: usize,
    total: u64,
    backend: Backend,
    msg: Ghost<Seq<u8>>,
    iv: Ghost<Seq<u32>>,
}

impl Engine {
    /// The bytes absorbed so far.
    pub closed spec fn message(&self) -> Seq<u8> {
        self.msg@
    }

    /// The initial chaining value.
    pub closed spec fn initial(&self) -> Seq<u32> {
        self.iv@
    }

    /// The chaining value covers every whole block absorbed so far, and the
    /// buffer holds the rest.
    pub closed spec fn wf(&self) -> bool {
        let m = self.msg@;
        &&& m.len() < max_len()
        &&& self.total as nat == m.len()
        &&& self.pos as nat == m.len() % 64
        &&& self.iv@.len() == 8
        &&& self.state@ == hash_blocks(self.iv@, m, m.len() / 64)
        &&& forall|i: int|
            0 <= i < self.pos ==> self.buffer@[i] == m[m.len() - self.pos + i]
    }

    /// A hasher that has absorbed nothing, starting from `iv` and
    /// compressing with `backend`.
    pub fn new(iv: [u32; 8], backend: Backend) -> (r: Engine)
        ensures
            r.wf(),
            r.message() == Seq::<u8>::empty(),
            r.initial() == iv@,
    {
        Engine {
            state: iv,
            buffer: [0u8; 64],
            pos: 0,
            total: 0,
            backend,
            msg: Ghost(Seq::empty()),
            iv: Ghost(iv@),
        }
    }

    /// Absorbs `data[i..i + k]`, which fits in the buffer; a block that
    /// becomes complete is compressed at once.
    fn absorb(&mut self, data: &[u8], i: usize, k: usize)
        requires
            old(self).wf(),
            i + k <= data@.len(),
            old(self).pos + k <= 64,
            old(self).message().len() + k < max_len(),
        ensures
            final(self).wf(),
            final(self).message() == old(self).message() + data@.subrange(i as int, (i + k) as int),
            final(self).initial() == old(self).initial(),
    {
        let ghost m0 = self.msg@;
        let ghost m1 = m0 + data@.subrange(i as int, (i + k) as int);
        let ghost iv = self.iv@;
        let ghost q = m0.len() / 64;
        let pos = self.pos;
        let mut j: usize = 0;
        while j < k
            invariant
                pos == self.pos,
                pos + k <= 64,
                i + k <= data.len(),
                j <= k,
                old(self).wf(),
                self.state == old(self).state,
                self.total == old(self).total,
                self.msg == old(self).msg,
                self.iv == old(self).iv,
                self.pos == old(self).pos,
                self.backend == old(self).backend,
                forall|u: int| 0 <= u < pos ==> self.buffer@[u] == m0[m0.len() - pos + u],
                forall|u: int| pos <= u < pos + j ==> self.buffer@[u] == data@[i + u - pos],
            decreases k - j,
        {
            self.buffer[pos + j] = data[i + j];
            j += 1;
        }
        proof {
            assert(m1.take(64 * q as int) =~= m0.take(64 * q as int));
            lemma_hash_blocks_agree(iv, m0, m1, q);
            assert forall|u: int| 0 <= u < pos + k implies self.buffer@[u] == m1[64 * q + u] by {
                if u >= pos {
                    assert(m1[64 * q + u] == data@[i + u - pos]);
                }
            }
        }
        self.total = self.total + k as u64;
        self.msg = Ghost(m1);
        if pos + k == 64 {
            proof {
                assert(self.buffer@ =~= m1.subrange(64 * q as int, (64 * q + 64) as int));
            }
            let one = [self.buffer];
            let ghost before = self.state@;
            compress_with(self.backend, &mut self.state, &one);
            proof {
                assert(one@.len() == 1);
                assert(one@.drop_last() =~= Seq::<[u8; 64]>::empty());
                assert(compress_blocks(before, one@.drop_last()) == before);
                assert(one@.last() == self.buffer);
                assert(self.state@ == compress_block(before, self.buffer@));
            }
            self.pos = 0;
            proof {
                assert(m1.len() / 64 == q + 1);
            }
        } else {
            self.pos = pos + k;
            proof {
                assert(m1.len() / 64 == q);
            }
        }
    }

    /// Absorbs `data`.
    pub fn update(&mut self, data: &[u8])
        requires
            old(self).wf(),
            old(self).message().len() + data@.len() < max_len(),
        ensures
            final(self).wf(),
            final(self).message() == old(self).message() + data@,
            final(self).initial() == old(self).initial(),
    {
        let n = data.len();
        let mut i: usize = 0;
        while i < n
            invariant
                i <= n,
                n == data@.len(),
                self.wf(),
                self.message() == old(self).message() + data@.take(i as int),
                self.initial() == old(self).initial(),
                old(self).message().len() + data@.len() < max_len(),
            decreases n - i,
        {
            let room = 64 - self.pos;
            let k = if n - i < room { n - i } else { room };
            self.absorb(data, i, k);
            assert(data@.take(i as int) + data@.subrange(i as int, (i + k) as int) =~= data@.take(
                (i + k) as int,
            ));
            i += k;
        }
        assert(data@.take(n as int) =~= data@);
    }

    /// The 32-byte digest of everything absorbed.
    pub fn finish(self) -> (r: [u8; 32])
        requires
            self.wf(),
        ensures
            r@ == digest_from(self.initial(), self.message()),
    {
        let mut state = self.state;
        let ghost m = self.msg@;
        proof {
            let q = m.len() / 64;
            let full = (q * 64) as nat;
            assert(full / 64 == q);
            assert(self.buffer@.take(self.pos as int) =~= m.skip(full as int));
            lemma_final_state_split(self.iv@, m, full);
            assert(m.take(full as int).take(full as int) =~= m.take(full as int));
            lemma_hash_blocks_agree(self.iv@, m.take(full as int), m, q);
        }
        compress_tail(&mut state, &self.buffer[0..self.pos], self.total, self.backend);
        state_to_bytes(&state)
    }
}

/// The SHA-256 hasher.
pub struct Sha256 {
    core: Engine,
}

impl View for Sha256 {
    type V = Seq<u8>;

    closed spec fn view(&self) -> Seq<u8> {
        self.core.message()
    }
}

impl Sha256 {
    pub closed spec fn wf(&self) -> bool {
        self.core.wf() && self.core.initial() == H256_256@
    }

    /// A hasher that has absorbed nothing and compresses with the scalar
    /// backend.
    pub fn new() -> (r: Sha256)
        ensures
            r.wf(),
            r@ == Seq::<u8>::empty(),
    {
        Sha256 { core: Engine::new(H256_256, Backend::Soft) }
    }

    /// A hasher that has absorbed nothing and compresses with `backend`.
    pub fn with_backend(backend: Backend) -> (r: Sha256)
        ensures
            r.wf(),
            r@ == Seq::<u8>::empty(),
    {
        Sha256 { core: Engine::new(H256_256, backend) }
    }

    /// Absorbs `data`.
    pub fn update(&mut self, data: &[u8])
        requires
            old(self).wf(),
            old(self)@.len() + data@.len() < max_len(),
        ensures
            final(self).wf(),
            final(self)@ == old(self)@ + data@,
    {
        self.core.update(data);
    }

    /// The SHA-256 digest of everything absorbed.
    pub fn finalize(self) -> (r: [u8; 32])
        requires
            self.wf(),
        ensures
            r@ == sha256(self@),
    {
        self.core.finish()
    }

    /// The SHA-256 digest of `data`.
    pub fn digest(data: &[u8]) -> (r: [u8; 32])
        requires
            data@.len() < max_len(),
        ensures
            r@ == sha256(data@),
    {
        let mut h = Sha256::new();
        h.update(data);
        assert(h@ =~= data@);
        h.finalize()
    }
}

/// The SHA-224 hasher.
pub struct Sha224 {
    core: Engine,
}

impl View for Sha224 {
    type V = Seq<u8>;

    closed spec fn view(&self) -> Seq<u8> {
        self.core.message()
    }
}

impl Sha224 {
    pub closed spec fn wf(&self) -> bool {
        self.core.wf() && self.core.initial() == H256_224@
    }

    /// A hasher that has absorbed nothing and compresses with the scalar
    /// backend.
    pub fn new() -> (r: Sha224)
        ensures
            r.wf(),
            r@ == Seq::<u8>::empty(),
    {
        Sha224 { core: Engine::new(H256_224, Backend::Soft) }
    }

    /// A hasher that has absorbed nothing and compresses with `backend`.
    pub fn with_backend(backend: Backend) -> (r: Sha224)
        ensures
            r.wf(),
            r@ == Seq::<u8>::empty(),
    {
        Sha224 { core: Engine::new(H256_224, backend) }
    }

    /// Absorbs `data`.
    pub fn update(&mut self, data: &[u8])
        requires
            old(self).wf(),
            old(self)@.len() + data@.len() < max_len(),
        ensures
            final(self).wf(),
            final(self)@ == old(self)@ + data@,
    {
        self.core.update(data);
    }

    /// The SHA-224 digest of everything absorbed.
    pub fn finalize(self) -> (r: [u8; 28])
        requires
            self.wf(),
        ensures
            r@ == sha224(self@),
    {
        let full = self.core.finish();
        let mut r = [0u8; 28];
        let mut i: usize = 0;
        while i < 28
            invariant
                i <= 28,
                forall|u: int| 0 <= u < i ==> r@[u] == full@[u],
            decreases 28 - i,
        {
            r[i] = full[i];
            i += 1;
        }
        assert(r@ =~= full@.take(28));
        r
    }

    /// The SHA-224 digest of `data`.
    pub fn digest(data: &[u8]) -> (r: [u8; 28])
        requires
            data@.len() < max_len(),
        ensures
            r@ == sha224(data@),
    {
        let mut h = Sha224::new();
        h.update(data);
        assert(h@ =~= data@);
        h.finalize()
    }
}

// ---------------------------------------------------------------------------
// Laws
// ---------------------------------------------------------------------------

/// The SHA-256 digest of a message is the reference digest of it from the
/// SHA-256 initial value (what `soft_digest(m, H256_256)` returns).
pub proof fn lemma_sha256_is_reference(m: Seq<u8>)
    ensures
        sha256(m) == digest_from(H256_256@, m),
        sha256(m).len() == 32,
{
}

/// The SHA-224 digest of a message is the first 28 bytes of the reference
/// digest of it from the SHA-224 initial value (what
/// `soft_digest(m, H256_224)[..28]` holds).
pub proof fn lemma_sha224_is_reference(m: Seq<u8>)
    ensures
        sha224(m) == digest_from(H256_224@, m).take(28),
        sha224(m).len() == 28,
{
}

proof fn lemma_views_prefix(chunks: Seq<Seq<u8>>, views: Seq<Seq<u8>>, i: int)
    requires
        views.len() == chunks.len() + 1,
        views[0] == Seq::<u8>::empty(),
        forall|j: int| 0 <= j < chunks.len() ==> #[trigger] views[j + 1] == views[j] + chunks[j],
        0 <= i <= chunks.len(),
    ensures
        views[i] == chunks.take(i).flatten_alt(),
    decreases i,
{
    if i == 0 {
        assert(chunks.take(0).len() == 0);
    } else {
        lemma_views_prefix(chunks, views, i - 1);
        assert(chunks.take(i).drop_last() =~= chunks.take(i - 1));
        assert(chunks.take(i).last() == chunks[i - 1]);
        assert(views[(i - 1) + 1] == views[i - 1] + chunks[i - 1]);
    }
}

/// Streaming equals one-shot: a hasher that starts empty and absorbs the
/// chunks one after another (each `update` appending its chunk, as its
/// contract says) holds their concatenation, so `finalize` gives the
/// reference digest of the whole message, for SHA-256 and, truncated to 28
/// bytes, for SHA-224, however the message was cut.
pub proof fn lemma_streaming_is_one_shot(chunks: Seq<Seq<u8>>, views: Seq<Seq<u8>>)
    requires
        views.len() == chunks.len() + 1,
        views[0] == Seq::<u8>::empty(),
        forall|i: int| 0 <= i < chunks.len() ==> #[trigger] views[i + 1] == views[i] + chunks[i],
    ensures
        views.last() == chunks.flatten(),
        sha256(views.last()) == digest_from(H256_256@, chunks.flatten()),
        sha224(views.last()) == digest_from(H256_224@, chunks.flatten()).take(28),
{
    lemma_views_prefix(chunks, views, chunks.len() as int);
    assert(chunks.take(chunks.len() as int) =~= chunks);
    chunks.lemma_flatten_and_flatten_alt_are_equivalent();
}

} // verus!
