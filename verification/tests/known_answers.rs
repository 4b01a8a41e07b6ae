use lib::consts::{H256_224, H256_256};
use lib::oracle::{blocks, padding_blocks, soft_digest, state_to_bytes};
use lib::rng::Rng;
use lib::dispatch::{compress_with, Backend};
use lib::{soft, two_lane, Sha224, Sha256};

fn hex(bytes: &[u8]) -> String {
    bytes.iter().map(|b| format!("{:02x}", b)).collect()
}

const ABC: &[u8] = b"abc";
const TWO_BLOCKS: &[u8] = b"abcdbcdecdefdefgefghfghighijhijkijkljklmklmnlmnomnopnopq";

#[test]
fn sha256_known_answers() {
    assert_eq!(
        hex(&Sha256::digest(b"")),
        "e3b0c44298fc1c149afbf4c8996fb92427ae41e4649b934ca495991b7852b855"
    );
    assert_eq!(
        hex(&Sha256::digest(ABC)),
        "ba7816bf8f01cfea414140de5dae2223b00361a396177a9cb410ff61f20015ad"
    );
    assert_eq!(
        hex(&Sha256::digest(TWO_BLOCKS)),
        "248d6a61d20638b8e5c026930c3e6039a33ce45964ff2167f6ecedd419db06c1"
    );
}

#[test]
fn sha224_known_answers() {
    assert_eq!(
        hex(&Sha224::digest(b"")),
        "d14a028c2a3a2bc9476102bb288234c415a2b01f828ea62ac5b3e42f"
    );
    assert_eq!(
        hex(&Sha224::digest(ABC)),
        "23097d223405d8228642a477bda255b32aadbce4bda0b3f7e36c9da7"
    );
    assert_eq!(
        hex(&Sha224::digest(TWO_BLOCKS)),
        "75388b16512776cc5dba5da1fd890150b0c6455cb4f58b1952522525"
    );
}

#[test]
fn sha256_million_a_streamed() {
    let chunk = [b'a'; 1000];
    let mut h = Sha256::new();
    for _ in 0..1000 {
        h.update(&chunk);
    }
    assert_eq!(
        hex(&h.finalize()),
        "cdc76e5c9914fb9281a1c7e284d73e67f1809a48a497200e046d39ccc7112cd0"
    );
}

#[test]
fn oracle_matches_known_answers() {
    assert_eq!(
        hex(&soft_digest(ABC, H256_256)),
        "ba7816bf8f01cfea414140de5dae2223b00361a396177a9cb410ff61f20015ad"
    );
    assert_eq!(
        hex(&soft_digest(ABC, H256_224)[..28]),
        "23097d223405d8228642a477bda255b32aadbce4bda0b3f7e36c9da7"
    );
}

#[test]
fn streaming_equals_one_shot_at_every_split() {
    let mut data = vec![0u8; 300];
    Rng(7).fill(&mut data);
    let whole = Sha256::digest(&data);
    for split in 0..=data.len() {
        let mut h = Sha256::new();
        h.update(&data[..split]);
        h.update(&data[split..]);
        assert_eq!(h.finalize(), whole, "split={split}");
    }
}

#[test]
fn padding_lengths_at_block_boundaries() {
    for (len, used) in [(0u64, 64usize), (55, 64), (56, 128), (63, 128), (64, 64), (119, 64), (120, 128)] {
        let rem = vec![0x11u8; (len % 64) as usize];
        let (padding, n) = padding_blocks(&rem, len);
        assert_eq!(n, used, "len={len}");
        assert_eq!(padding[rem.len()], 0x80);
        let bits = len * 8;
        assert_eq!(&padding[n - 8..n], &bits.to_be_bytes());
        assert!(padding[rem.len() + 1..n - 8].iter().all(|&b| b == 0));
    }
}

#[test]
fn blocks_splits_in_order() {
    let data: Vec<u8> = (0..192u32).map(|i| i as u8).collect();
    let b = blocks(&data);
    assert_eq!(b.len(), 3);
    assert_eq!(b[0][0], 0);
    assert_eq!(b[1][0], 64);
    assert_eq!(b[2][63], 191);
    assert!(blocks(&[]).is_empty());
}

#[test]
fn state_bytes_are_big_endian() {
    let bytes = state_to_bytes(&[0x01020304, 0, 0, 0, 0, 0, 0, 0xa1b2c3d4]);
    assert_eq!(&bytes[..4], &[1, 2, 3, 4]);
    assert_eq!(&bytes[28..], &[0xa1, 0xb2, 0xc3, 0xd4]);
}

#[test]
fn rng_xorshift_steps() {
    let mut rng = Rng(1);
    assert_eq!(rng.next(), 0x0004_2021);
    assert_eq!(rng.0, 0x0004_2021);
    let mut r1 = Rng(0x6d2b_79f5);
    let mut r2 = Rng(0x6d2b_79f5);
    let mut bytes = [0u8; 5];
    r1.fill(&mut bytes);
    for b in bytes {
        assert_eq!(b, r2.next() as u8);
    }
    assert_eq!(r1.0, r2.0);
}

#[test]
fn compress_split_law_on_both_compressors() {
    let mut data = vec![0u8; 64 * 5];
    Rng(99).fill(&mut data);
    let b = blocks(&data);
    let mut whole = H256_256;
    soft::compress(&mut whole, &b);
    for split in 0..=5 {
        let mut s = H256_256;
        soft::compress(&mut s, &b[..split]);
        soft::compress(&mut s, &b[split..]);
        assert_eq!(s, whole);
        let mut t = H256_256;
        two_lane::compress(&mut t, &b[..split]);
        two_lane::compress(&mut t, &b[split..]);
        assert_eq!(t, whole);
    }
}

#[test]
fn single_block_compression_of_abc() {
    // "abc" padded to one block; the chaining value is the digest of "abc".
    let (padding, n) = padding_blocks(ABC, 3);
    assert_eq!(n, 64);
    let mut block = [0u8; 64];
    block.copy_from_slice(&padding[..64]);
    let mut s = H256_256;
    let mut w = [[0u32; 8]; 4];
    for t in 0..16 {
        let word = u32::from_be_bytes([block[4 * t], block[4 * t + 1], block[4 * t + 2], block[4 * t + 3]]);
        w[t / 4][t % 4] = word;
        w[t / 4][4 + t % 4] = word;
    }
    let mut wk = [[0u32; 8]; 17];
    two_lane::compress_pair(&mut s, w, &mut wk, 1);
    assert_eq!(s[0], 0xba7816bf);
    assert_eq!(s[7], 0xf20015ad);
    // The scratch area ends with the chaining value the block started from.
    assert_eq!(wk[16], H256_256);
    // W[0] + K[0] of both lanes.
    assert_eq!(wk[0][0], w[0][0].wrapping_add(0x428a2f98));
    assert_eq!(wk[0][4], w[0][0].wrapping_add(0x428a2f98));
    let mut u = H256_256;
    soft::compress_one(&mut u, &block);
    assert_eq!(u, s);
}

#[test]
fn pair_scratch_holds_first_result_after_two_blocks() {
    let mut data = vec![0u8; 128];
    Rng(5).fill(&mut data);
    let b = blocks(&data);
    let mut w = [[0u32; 8]; 4];
    for t in 0..16 {
        w[t / 4][t % 4] = u32::from_be_bytes([b[0][4 * t], b[0][4 * t + 1], b[0][4 * t + 2], b[0][4 * t + 3]]);
        w[t / 4][4 + t % 4] = u32::from_be_bytes([b[1][4 * t], b[1][4 * t + 1], b[1][4 * t + 2], b[1][4 * t + 3]]);
    }
    let mut first = H256_256;
    soft::compress_one(&mut first, &b[0]);
    let mut both = H256_256;
    soft::compress(&mut both, &b);
    let mut s = H256_256;
    let mut wk = [[0u32; 8]; 17];
    two_lane::compress_pair(&mut s, w, &mut wk, 2);
    assert_eq!(s, both);
    assert_eq!(wk[16], first);
}

#[test]
fn every_backend_compresses_alike() {
    let mut data = vec![0u8; 64 * 7];
    Rng(11).fill(&mut data);
    let b = blocks(&data);
    let mut expected = H256_224;
    soft::compress(&mut expected, &b);
    for backend in [Backend::ShaNi, Backend::Avx2, Backend::Soft] {
        let mut s = H256_224;
        compress_with(backend, &mut s, &b);
        assert_eq!(s, expected, "{backend:?}");
    }
}

#[test]
fn hashers_with_each_backend() {
    let mut data = vec![0u8; 1000];
    Rng(3).fill(&mut data);
    let expected256 = Sha256::digest(&data);
    let expected224 = Sha224::digest(&data);
    for backend in [Backend::ShaNi, Backend::Avx2, Backend::Soft] {
        let mut h = Sha256::with_backend(backend);
        let mut g = Sha224::with_backend(backend);
        for chunk in data.chunks(77) {
            h.update(chunk);
            g.update(chunk);
        }
        assert_eq!(h.finalize(), expected256, "{backend:?}");
        assert_eq!(g.finalize(), expected224, "{backend:?}");
    }
    assert_eq!(
        hex(&Sha256::with_backend(Backend::Avx2).finalize()),
        "e3b0c44298fc1c149afbf4c8996fb92427ae41e4649b934ca495991b7852b855"
    );
}
