//! Columns from training to reading.
use std::collections::BTreeSet;
use std::ops::RangeInclusive;

use compact_space::{
    get_compact_space, CompactSpace, CompactSpaceCompressor, CompactSpaceDecompressor,
};
use ownedbytes::OwnedBytes;

#[test]
fn compact_space_test() {
    let ips: &BTreeSet<u128> = &[
        2u128, 4u128, 1000, 1001, 1002, 1003, 1004, 1005, 1008, 1010, 1012, 1260,
    ]
    .into_iter()
    .collect();
    let compact_space = get_compact_space(ips, ips.len() as u64, 11);
    let amplitude = compact_space.amplitude_compact_space();
    assert_eq!(amplitude, 17);
    assert_eq!(1, compact_space.u128_to_compact(2).unwrap());
    assert_eq!(2, compact_space.u128_to_compact(3).unwrap());
    assert_eq!(compact_space.u128_to_compact(100).unwrap_err(), 1);

    for (num1, num2) in [(0usize, 1usize), (1, 2)] {
        assert_eq!(
            compact_space.get_range_mapping(num1).compact_end() + 1,
            compact_space.get_range_mapping(num2).compact_start
        );
    }

    let mut output: Vec<u8> = Vec::new();
    compact_space.serialize(&mut output);

    assert_eq!(
        compact_space,
        CompactSpace::deserialize(&mut &output[..]).unwrap()
    );

    for ip in ips {
        let compact = compact_space.u128_to_compact(*ip).unwrap();
        assert_eq!(compact_space.compact_to_u128(compact), *ip);
    }
}

#[test]
fn compact_space_amplitude_test() {
    let ips: &BTreeSet<u128> = &[100000u128, 1000000].into_iter().collect();
    let compact_space = get_compact_space(ips, ips.len() as u64, 1);
    let amplitude = compact_space.amplitude_compact_space();
    assert_eq!(amplitude, 2);
}

fn test_all(data: OwnedBytes, expected: &[Option<u128>]) {
    let decompressor = CompactSpaceDecompressor::open(data).unwrap();
    for (idx, expected_val) in expected.iter().cloned().enumerate() {
        let val = decompressor.get(idx as u64);
        assert_eq!(val, expected_val);

        if let Some(expected_val) = expected_val {
            let test_range = |range: RangeInclusive<u128>| {
                let expected_positions = expected
                    .iter()
                    .enumerate()
                    .filter(|(_, val)| val.map(|val| range.contains(&val)).unwrap_or(false))
                    .map(|(pos, _)| pos as u64)
                    .collect::<Vec<_>>();
                let positions = decompressor.get_range(range);
                assert_eq!(positions, expected_positions);
            };

            test_range(expected_val.saturating_sub(1)..=expected_val);
            test_range(expected_val..=expected_val);
            test_range(expected_val..=expected_val.saturating_add(1));
            test_range(expected_val.saturating_sub(1)..=expected_val.saturating_add(1));
        }
    }
}

fn test_aux_vals_opt(u128_vals: &[Option<u128>]) -> OwnedBytes {
    let compressor = CompactSpaceCompressor::train_from(u128_vals);
    let data = compressor.compress(u128_vals).unwrap();
    let data = OwnedBytes::new(data);
    test_all(data.clone(), u128_vals);
    data
}

fn test_aux_vals(u128_vals: &[u128]) -> OwnedBytes {
    test_aux_vals_opt(&u128_vals.iter().cloned().map(Some).collect::<Vec<_>>())
}

#[test]
fn test_range_1() {
    let vals = &[
        1u128,
        100u128,
        3u128,
        99999u128,
        100000u128,
        100001u128,
        4_000_211_221u128,
        4_000_211_222u128,
        333u128,
    ];
    let data = test_aux_vals(vals);
    let decomp = CompactSpaceDecompressor::open(data).unwrap();
    let positions = decomp.get_range(0..=1);
    assert_eq!(positions, vec![0]);
    let positions = decomp.get_range(0..=2);
    assert_eq!(positions, vec![0]);
    let positions = decomp.get_range(0..=3);
    assert_eq!(positions, vec![0, 2]);
    assert_eq!(decomp.get_range(99999u128..=99999u128), vec![3]);
    assert_eq!(decomp.get_range(99999u128..=100000u128), vec![3, 4]);
    assert_eq!(decomp.get_range(99998u128..=100000u128), vec![3, 4]);
    assert_eq!(decomp.get_range(99998u128..=99999u128), vec![3]);
    assert_eq!(decomp.get_range(99998u128..=99998u128), vec![]);
    assert_eq!(decomp.get_range(333u128..=333u128), vec![8]);
    assert_eq!(decomp.get_range(332u128..=333u128), vec![8]);
    assert_eq!(decomp.get_range(332u128..=334u128), vec![8]);
    assert_eq!(decomp.get_range(333u128..=334u128), vec![8]);

    assert_eq!(
        decomp.get_range(4_000_211_221u128..=5_000_000_000u128),
        vec![6, 7]
    );
}

#[test]
fn test_empty() {
    let vals = &[];
    let data = test_aux_vals(vals);
    let _decomp = CompactSpaceDecompressor::open(data).unwrap();
}

#[test]
fn test_range_2() {
    let vals = &[
        100u128,
        99999u128,
        100000u128,
        100001u128,
        4_000_211_221u128,
        4_000_211_222u128,
        333u128,
    ];
    let data = test_aux_vals(vals);
    let decomp = CompactSpaceDecompressor::open(data).unwrap();
    let positions = decomp.get_range(0..=5);
    assert_eq!(positions, vec![]);
    let positions = decomp.get_range(0..=100);
    assert_eq!(positions, vec![0]);
    let positions = decomp.get_range(0..=105);
    assert_eq!(positions, vec![0]);
}

#[test]
fn test_null() {
    let vals = vec![None, Some(2u128)];
    let compressor = CompactSpaceCompressor::train_from(&vals);
    let data = compressor.compress(&vals).unwrap();
    let decomp = CompactSpaceDecompressor::open(OwnedBytes::new(data)).unwrap();
    let positions = decomp.get_range(0..=1);
    assert_eq!(positions, vec![]);
    let positions = decomp.get_range(2..=2);
    assert_eq!(positions, vec![1]);

    let positions = decomp.get_range(2..=3);
    assert_eq!(positions, vec![1]);

    let positions = decomp.get_range(1..=3);
    assert_eq!(positions, vec![1]);

    let positions = decomp.get_range(2..=3);
    assert_eq!(positions, vec![1]);

    let positions = decomp.get_range(3..=3);
    assert_eq!(positions, vec![]);
}

#[test]
fn test_range_3() {
    let vals = &[
        200u128,
        201,
        202,
        203,
        204,
        204,
        206,
        207,
        208,
        209,
        210,
        1_000_000,
        5_000_000_000,
    ];
    let vals: Vec<Option<u128>> = vals.iter().cloned().map(Some).collect();
    let compressor = CompactSpaceCompressor::train_from(&vals);
    let data = compressor.compress(&vals).unwrap();
    let decomp = CompactSpaceDecompressor::open(OwnedBytes::new(data)).unwrap();

    assert_eq!(decomp.get_range(199..=200), vec![0]);
    assert_eq!(decomp.get_range(199..=201), vec![0, 1]);
    assert_eq!(decomp.get_range(200..=200), vec![0]);
    assert_eq!(decomp.get_range(1_000_000..=1_000_000), vec![11]);
}

#[test]
fn test_bug1() {
    let vals = &[9223372036854775806];
    let _data = test_aux_vals(vals);
}

#[test]
fn test_bug2() {
    let vals = &[340282366920938463463374607431768211455u128];
    let _data = test_aux_vals(vals);
}

#[test]
fn test_bug3() {
    let vals = &[340282366920938463463374607431768211454];
    let _data = test_aux_vals(vals);
}

#[test]
fn test_bug4() {
    let vals = &[340282366920938463463374607431768211455, 0];
    let _data = test_aux_vals(vals);
}

#[test]
fn test_first_large_gaps() {
    let vals = &[1_000_000_000u128; 100];
    let _data = test_aux_vals(vals);
}

/// A column of numbers from all over the space, near its edges and near those of its halves.
fn scattered(len: usize, seed: u64) -> Vec<Option<u128>> {
    let mut state = seed;
    let mut next = move || {
        state = state
            .wrapping_mul(6364136223846793005)
            .wrapping_add(1442695040888963407);
        (state >> 11) as u128
    };
    (0..len)
        .map(|_| {
            let num = (next() << 80) ^ (next() << 40) ^ next();
            match next() % 25 {
                0 => Some(u128::MAX - num % 10),
                1 => Some(i64::MAX as u128 + 5 - num % 10),
                2 => Some(i128::MAX as u128 + 5 - num % 10),
                3 => Some(num % 10),
                4 => None,
                _ => Some(num),
            }
        })
        .collect()
}

#[test]
fn compress_decompress_random() {
    for (len, seed) in [(1usize, 1u64), (2, 2), (7, 3), (64, 4), (333, 5), (1000, 6)] {
        let _data = test_aux_vals_opt(&scattered(len, seed));
    }
}

#[test]
fn every_value_reads_back_from_its_row() {
    let vals = scattered(500, 17);
    let data = test_aux_vals_opt(&vals);
    let decomp = CompactSpaceDecompressor::open(data).unwrap();
    assert!(decomp.is_searchable());
    assert_eq!(decomp.num_vals(), 500);
    assert_eq!(decomp.iter(), vals);
    for (row, val) in vals.iter().enumerate() {
        assert!(decomp.is_readable(row as u64));
        assert_eq!(decomp.get_val(row as u64), *val);
    }
    let present: Vec<u128> = vals.iter().filter_map(|val| *val).collect();
    assert_eq!(decomp.min_value(), *present.iter().min().unwrap());
    assert_eq!(decomp.max_value(), *present.iter().max().unwrap());
}

#[test]
fn bounds_of_a_column_without_values_are_zero() {
    for vals in [vec![], vec![None, None, None]] {
        let data = test_aux_vals_opt(&vals);
        let decomp = CompactSpaceDecompressor::open(data).unwrap();
        assert_eq!(decomp.min_value(), 0);
        assert_eq!(decomp.max_value(), 0);
        assert_eq!(decomp.num_vals(), vals.len() as u64);
        assert_eq!(decomp.iter(), vals);
        assert_eq!(decomp.get_range(0..=u128::MAX), vec![]);
    }
}

#[test]
fn search_between_vals() {
    let vals = vec![
        Some(5u128),
        None,
        Some(1_000_000),
        Some(7),
        Some(1_000_001),
        Some(5),
        Some(6),
    ];
    let decomp = CompactSpaceDecompressor::open(test_aux_vals_opt(&vals)).unwrap();
    assert_eq!(decomp.get_between_vals(0..=u128::MAX), vec![0, 2, 3, 4, 5, 6]);
    assert_eq!(decomp.get_between_vals(5..=6), vec![0, 5, 6]);
    assert_eq!(decomp.get_between_vals(6..=1_000_000), vec![2, 3, 6]);
    assert_eq!(decomp.get_between_vals(8..=999_999), vec![]);
    // the wrong way round
    assert_eq!(decomp.get_between_vals(RangeInclusive::new(7, 5)), vec![]);
    // beyond all values
    assert_eq!(decomp.get_between_vals(1_000_002..=u128::MAX), vec![]);
    assert_eq!(decomp.get_between_vals(0..=4), vec![]);
}

#[test]
fn compact_values_start_behind_null() {
    let vals = vec![Some(100u128), Some(101), None, Some(104), Some(103), Some(102)];
    let decomp = CompactSpaceDecompressor::open(test_aux_vals_opt(&vals)).unwrap();
    assert_eq!(decomp.iter_compact(), vec![1, 2, 0, 5, 4, 3]);
    assert_eq!(decomp.u128_to_compact(102), Ok(3));
    assert_eq!(decomp.u128_to_compact(99), Err(0));
    assert_eq!(decomp.u128_to_compact(105), Err(1));
    assert_eq!(decomp.compact_to_u128(4), 103);
}

#[test]
fn clones_read_alike() {
    let vals = scattered(50, 9);
    let decomp = CompactSpaceDecompressor::open(test_aux_vals_opt(&vals)).unwrap();
    let clone = decomp.clone();
    drop(decomp);
    assert_eq!(clone.iter(), vals);
}
