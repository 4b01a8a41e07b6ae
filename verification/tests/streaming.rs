use lib::consts::{H256_224, H256_256};
use lib::oracle::soft_digest;
use lib::rng::Rng;
use lib::{Sha224, Sha256};

#[test]
fn public_api_streaming_boundaries_and_random() {
    // Exercise the hashers through the public API.
    let mut rng = Rng(0x6d2b_79f5);
    let mut data = [0u8; 16 * 1024 + 63];
    let lengths = [
        511, 512, 513, 1023, 1024, 1025, 4095, 4096, 4097, 16383, 16384,
    ];
    let chunks = [
        1, 2, 3, 31, 55, 56, 63, 64, 65, 119, 120, 127, 128, 129, 255, 256, 257, 1024,
    ];
    for case in 0..1536 {
        let len = if case <= 257 {
            case
        } else if case % 2 == 0 {
            lengths[rng.next() as usize % lengths.len()]
        } else {
            rng.next() as usize % (16 * 1024 + 1)
        };
        let offset = rng.next() as usize % 64;
        let input = &mut data[offset..offset + len];
        rng.fill(input);
        let expected224 = soft_digest(input, H256_224);
        let expected256 = soft_digest(input, H256_256);
        assert_eq!(
            Sha224::digest(&*input)[..],
            expected224[..28],
            "case={case}"
        );
        assert_eq!(Sha256::digest(&*input)[..], expected256, "case={case}");
        let mut h224 = Sha224::new();
        let mut h256 = Sha256::new();
        let mut pos = 0;
        while pos < len {
            h224.update(&[]);
            h256.update(&[]);
            let chunk = if rng.next() & 1 == 0 {
                chunks[rng.next() as usize % chunks.len()]
            } else {
                1 + rng.next() as usize % 2048
            };
            let end = (pos + chunk).min(len);
            h224.update(&input[pos..end]);
            h256.update(&input[pos..end]);
            pos = end;
        }
        assert_eq!(
            h224.finalize()[..],
            expected224[..28],
            "chunked case={case}"
        );
        assert_eq!(h256.finalize()[..], expected256, "chunked case={case}");
    }
}

#[test]
fn public_api_read_only_input_at_guard_pages() {
    let mut page = vec![0u8; 4096];
    Rng(0x23b1_9e75).fill(&mut page);
    let data = &page[..];
    // Every length includes padding boundaries and every input alignment.
    for len in 0..=4096 {
        for input in [&data[..len], &data[data.len() - len..]] {
            assert_eq!(
                Sha224::digest(input)[..],
                soft_digest(input, H256_224)[..28],
                "len={len}"
            );
            assert_eq!(
                Sha256::digest(input)[..],
                soft_digest(input, H256_256),
                "len={len}"
            );
        }
    }
}
