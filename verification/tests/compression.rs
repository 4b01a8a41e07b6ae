use lib::oracle::blocks;
use lib::rng::Rng;
use lib::{soft, two_lane};

#[test]
fn matches_soft() {
    let mut seed = 0x1234_5678u32;
    let mut next = || {
        seed ^= seed << 13;
        seed ^= seed >> 17;
        seed ^= seed << 5;
        seed
    };
    let mut input = [0u8; 64 * 17 + 63];
    for byte in &mut input {
        *byte = next() as u8;
    }
    // Exercise unaligned loads, empty input, odd tails, and multiple block pairs.
    for offset in 0..64 {
        for len in 0..=17 {
            let blocks = blocks(&input[offset..offset + 64 * len]);
            let initial: [u32; 8] = core::array::from_fn(|_| next());
            let mut expected = initial;
            soft::compress(&mut expected, &blocks);
            let mut actual = initial;
            two_lane::compress(&mut actual, &blocks);
            assert_eq!(actual, expected, "offset={offset}, blocks={len}");
            for split in 0..=len {
                let mut split_state = initial;
                two_lane::compress(&mut split_state, &blocks[..split]);
                two_lane::compress(&mut split_state, &blocks[split..]);
                assert_eq!(split_state, expected, "blocks={len}, split={split}");
            }
        }
    }
}

struct CheckedState {
    before: [u32; 8],
    state: [u32; 8],
    after: [u32; 8],
}

impl CheckedState {
    fn new(state: [u32; 8]) -> Self {
        Self {
            before: [0xa5a5_a5a5; 8],
            state,
            after: [0x5a5a_5a5a; 8],
        }
    }

    fn check(&self) {
        assert_eq!(self.before, [0xa5a5_a5a5; 8]);
        assert_eq!(self.after, [0x5a5a_5a5a; 8]);
    }
}

#[test]
fn compression_patterns_and_random() {
    let mut rng = Rng(0x91e1_0da5);
    let mut input = [0u8; 64 * 257 + 63];
    for case in 0..2048 {
        let len = if case <= 257 {
            case
        } else {
            rng.next() as usize % 258
        };
        let offset = rng.next() as usize % 64;
        let input = &mut input[offset..offset + 64 * len];
        match case % 8 {
            0 => input.fill(0),
            1 => input.fill(0xff),
            2 => input.fill(0xaa),
            3 => input.fill(0x55),
            4 => input.iter_mut().enumerate().for_each(|(i, b)| *b = i as u8),
            5 => input
                .iter_mut()
                .enumerate()
                .for_each(|(i, b)| *b = 1 << (i % 8)),
            _ => rng.fill(input),
        }
        let initial = match case % 4 {
            0 => [0; 8],
            1 => [u32::MAX; 8],
            _ => core::array::from_fn(|_| rng.next()),
        };
        let blocks = blocks(input);
        let mut expected = initial;
        soft::compress(&mut expected, &blocks);
        let mut actual = CheckedState::new(initial);
        two_lane::compress(&mut actual.state, &blocks);
        actual.check();
        assert_eq!(
            actual.state, expected,
            "case={case}, offset={offset}, blocks={len}"
        );

        let mut split = CheckedState::new(initial);
        let mut pos = 0;
        while pos < len {
            let end = (pos + 1 + rng.next() as usize % 33).min(len);
            two_lane::compress(&mut split.state, &[]);
            two_lane::compress(&mut split.state, &blocks[pos..end]);
            split.check();
            pos = end;
        }
        assert_eq!(split.state, expected, "split case={case}, blocks={len}");
    }
}

#[test]
fn compression_state_at_guard_pages() {
    const PAGE: usize = 4096;
    let mut rng = Rng(0x8b4f_a103);
    let mut data = vec![0u8; PAGE];
    rng.fill(&mut data);
    let mut state_page = vec![0u32; PAGE / 4];
    for len in (0..=PAGE).step_by(64) {
        for input in [&data[..len], &data[data.len() - len..]] {
            let initial: [u32; 8] = core::array::from_fn(|_| rng.next());
            let mut expected = initial;
            soft::compress(&mut expected, &blocks(input));
            // Every state alignment within a cache line, plus the last 32
            // bytes of the page.
            for offset in (0..64).step_by(4).chain([PAGE - 32]) {
                state_page.fill(0xa5a5_a5a5);
                let word = offset / 4;
                let state: &mut [u32; 8] = (&mut state_page[word..word + 8]).try_into().unwrap();
                *state = initial;
                two_lane::compress(state, &blocks(input));
                assert_eq!(*state, expected, "len={len}, state offset={offset}");
                // Nothing outside the state was written.
                for (i, w) in state_page.iter().enumerate() {
                    if i < word || i >= word + 8 {
                        assert_eq!(*w, 0xa5a5_a5a5, "canary word={i}");
                    }
                }
            }
        }
    }
}
