use fs_core::props::{
    check_cache, check_slice, geometry_from, parent_byte, Geometry, Parent, PARENT_LEN,
};
use fs_core::{BlockRead, Error};

fn seed(start: u64, length: u64, offset: u64, read_len: u64) -> Vec<u8> {
    let mut out = Vec::new();
    for word in [start, length, offset, read_len] {
        out.extend_from_slice(&word.to_le_bytes());
    }
    out
}

#[test]
fn the_parent_pattern_distinguishes_every_offset() {
    let parent = Parent::new();
    assert_eq!(parent.0.len() as u64, PARENT_LEN);

    for window in 1..=64u64 {
        let mut same = 0;
        for at in 0..PARENT_LEN - window {
            if parent_byte(at) == parent_byte(at + window) {
                same += 1;
            }
        }
        let ratio = same as f64 / (PARENT_LEN - window) as f64;
        assert!(
            ratio < 0.10,
            "at a shift of {window} bytes, {:.1}% of the parent matches itself, so a read \
             misplaced by that much could return the right bytes by accident",
            ratio * 100.0
        );
    }
}

#[test]
fn the_pattern_is_the_published_hash() {
    for at in [0u64, 1, 2, 77, 4095, u64::MAX] {
        assert_eq!(
            parent_byte(at),
            (at.wrapping_mul(2_654_435_761) >> 13) as u8
        );
    }
    assert_eq!(Parent::default().0, Parent::new().0);
}

#[test]
fn boundaries_decode_to_the_boundaries() {
    let cases = [
        (0u64, PARENT_LEN, 0u64, PARENT_LEN as usize),
        (0, PARENT_LEN, 0, 0),
        (0, PARENT_LEN, PARENT_LEN - 1, 1),
        (0, PARENT_LEN, PARENT_LEN, 1),
        (16, 64, 0, 64),
        (16, 64, 0, 65),
    ];
    for (start, length, offset, read_len) in cases {
        let geom = geometry_from(&seed(start, length, offset, read_len as u64));
        assert_eq!(
            (geom.start, geom.length, geom.offset, geom.read_len),
            (start, length, offset, read_len)
        );
    }
}

#[test]
fn wild_words_stay_wild_only_in_steps_of_eight() {
    let geom = geometry_from(&seed(u64::MAX - 7, u64::MAX, 4099, u64::MAX));
    assert_eq!(geom.start, u64::MAX - 7);
    assert_eq!(geom.length, u64::MAX % 4098);
    assert_eq!(geom.offset, 1);
    assert_eq!(geom.read_len, (u64::MAX % 4098) as usize);
}

#[test]
fn missing_bytes_are_zeros() {
    let geom = geometry_from(&[3, 1]);
    assert_eq!(
        (geom.start, geom.length, geom.offset, geom.read_len),
        (259, 0, 0, 0)
    );
}

#[test]
fn a_slice_answers_the_parents_bytes_or_nothing() {
    let bytes = check_slice(&Geometry {
        start: 100,
        length: 50,
        offset: 10,
        read_len: 40,
    })
    .expect("inside the slice");
    let want: Vec<u8> = (110..150).map(parent_byte).collect();
    assert_eq!(bytes, want);

    assert!(check_slice(&Geometry {
        start: 100,
        length: 50,
        offset: 10,
        read_len: 41,
    })
    .is_none());
    assert!(check_slice(&Geometry {
        start: 4090,
        length: 50,
        offset: 0,
        read_len: 7,
    })
    .is_none());
    assert!(check_slice(&Geometry {
        start: u64::MAX,
        length: 8,
        offset: 0,
        read_len: 0,
    })
    .is_some());
}

#[test]
fn a_cache_answers_what_the_device_would() {
    for (start, length, offset, read_len) in [
        (0u64, 0u64, 0u64, 4096usize),
        (7, 1023, 4000, 96),
        (3, 5, 17, 100),
        (0, 511, 511, 2),
    ] {
        let bytes = check_cache(&Geometry {
            start,
            length,
            offset,
            read_len,
        })
        .expect("inside the device");
        let want: Vec<u8> = (offset..offset + read_len as u64).map(parent_byte).collect();
        assert_eq!(bytes, want);
    }
    assert!(check_cache(&Geometry {
        start: 4,
        length: 100,
        offset: 4096,
        read_len: 1,
    })
    .is_none());
    assert!(check_cache(&Geometry {
        start: 4,
        length: 100,
        offset: u64::MAX,
        read_len: 0,
    })
    .is_some());
}

#[test]
fn the_parent_reads_nothing_anywhere_and_names_what_was_there() {
    let mut parent = Parent::new();
    assert!(parent.read_at(u64::MAX, &mut []).is_ok());
    let mut buf = [0u8; 8];
    match parent.read_at(PARENT_LEN - 3, &mut buf) {
        Err(Error::ShortRead { offset, want, got }) => {
            assert_eq!((offset, want, got), (PARENT_LEN - 3, 8, 3));
        }
        other => panic!("expected ShortRead, got {other:?}"),
    }
    match parent.read_at(u64::MAX, &mut buf) {
        Err(Error::ShortRead { got, .. }) => assert_eq!(got, 0),
        other => panic!("expected ShortRead, got {other:?}"),
    }
    assert_eq!(buf, [0u8; 8]);
}

/// xorshift64*. Small and deterministic.
fn next(state: &mut u64) -> u64 {
    *state ^= *state >> 12;
    *state ^= *state << 25;
    *state ^= *state >> 27;
    state.wrapping_mul(0x2545_f491_4f6c_dd1d)
}

#[test]
fn deterministic_geometries_are_survived() {
    let mut state: u64 = 0x9e37_79b9_7f4a_7c15;
    for _ in 0..500 {
        let mut data = [0u8; 32];
        for b in data.iter_mut() {
            *b = next(&mut state) as u8;
        }
        let geom = geometry_from(&data);
        let sliced = check_slice(&geom);
        let effective = geom.length.min(PARENT_LEN.saturating_sub(geom.start));
        let fits = geom
            .offset
            .checked_add(geom.read_len as u64)
            .is_some_and(|end| end <= effective);
        assert_eq!(sliced.is_some(), fits);
        let cached = check_cache(&geom);
        let fits = geom.read_len == 0
            || geom
                .offset
                .checked_add(geom.read_len as u64)
                .is_some_and(|end| end <= PARENT_LEN);
        assert_eq!(cached.is_some(), fits);
    }
}

#[test]
fn bytes_a_power_of_two_apart_are_different_bytes() {
    for at in [0u64, 1, 511, 4096, 65_535, 1 << 40] {
        for k in 0..=20 {
            assert_ne!(parent_byte(at), parent_byte(at + (1 << k)), "{at} and 2^{k}");
        }
    }
}
