//! The pieces that a compressed column is made of.
use std::collections::BTreeSet;

use compact_space::{
    get_compact_space, ip_to_u128, CodecError, CompactSpace, CompactSpaceCompressor,
    CompactSpaceDecompressor, IPCodecParams, IpAddr, RangeMapping,
};
use ownedbytes::OwnedBytes;

fn space_of(values: &[u128], cost_per_blank: usize) -> CompactSpace {
    let set: BTreeSet<u128> = values.iter().cloned().collect();
    get_compact_space(&set, values.len() as u64, cost_per_blank)
}

fn ranges(space: &CompactSpace) -> Vec<(u128, u128, u64)> {
    (0..space.num_ranges())
        .map(|pos| {
            let range = space.get_range_mapping(pos);
            (range.start, range.end, range.compact_start)
        })
        .collect()
}

#[test]
fn blanks_are_left_out() {
    let space = space_of(&[100, 101, 102, 103, 104, 50000, 50001], 36);
    assert_eq!(ranges(&space), vec![(100, 104, 1), (50000, 50001, 6)]);
    assert_eq!(space.amplitude_compact_space(), 7);
}

#[test]
fn a_blank_that_does_not_pay_is_kept() {
    // 12 values that take 4 bits each, and 5 with the blank: 12 bits saved
    let values = [0u128, 1, 2, 3, 4, 5, 12, 13, 14, 15, 16, 17];
    assert_eq!(ranges(&space_of(&values, 12)), vec![(0, 17, 1)]);
    assert_eq!(ranges(&space_of(&values, 11)), vec![(0, 5, 1), (12, 17, 7)]);
}

#[test]
fn short_blanks_do_not_count() {
    // a blank of three values, and one of two
    assert_eq!(ranges(&space_of(&[0, 4], 0)), vec![(0, 0, 1), (4, 4, 2)]);
    assert_eq!(ranges(&space_of(&[0, 3], 0)), vec![(0, 3, 1)]);
}

#[test]
fn no_values_make_the_range_of_zero() {
    let space = space_of(&[], 36);
    assert_eq!(ranges(&space), vec![(0, 0, 1)]);
    assert_eq!(space.amplitude_compact_space(), 1);
    assert_eq!(space.u128_to_compact(0), Ok(1));
}

#[test]
fn a_space_that_64_bits_cannot_number_is_cut_down_to_its_values() {
    let values = [0u128, 1, 3, u128::MAX - 1, u128::MAX];
    let space = space_of(&values, 1_000_000);
    assert_eq!(
        ranges(&space),
        vec![
            (0, 1, 1),
            (3, 3, 3),
            (u128::MAX - 1, u128::MAX, 4)
        ]
    );
    assert_eq!(space.amplitude_compact_space(), 5);
}

#[test]
fn values_and_compact_values_undo_each_other() {
    let space = space_of(&[3, 4, 5, 1000, 1002, 70_000_000], 1);
    let amplitude = space.amplitude_compact_space() as u64;
    let mut last = None;
    for compact in 1..=amplitude {
        let value = space.compact_to_u128(compact);
        assert_eq!(space.u128_to_compact(value), Ok(compact));
        assert!(last < Some(value));
        last = Some(value);
    }
    assert_eq!(space.u128_to_compact(70_000_000), Ok(amplitude));
}

#[test]
fn ranges_begin_and_end_with_values() {
    let values = [8u128, 9, 11, 400, 402, 403, 90_000, 1 << 70];
    let space = space_of(&values, 2);
    assert!(space.num_ranges() > 1);
    for (start, end, _) in ranges(&space) {
        assert!(values.contains(&start));
        assert!(values.contains(&end));
    }
    let amplitude = space.amplitude_compact_space();
    assert!(values.len() as u128 <= amplitude);
    assert!(amplitude <= (1 << 70) - 8 + 1);
}

#[test]
fn values_outside_get_the_place_of_the_next_range() {
    let space = space_of(&[1000, 1001, 2000], 1);
    assert_eq!(space.num_ranges(), 2);
    assert_eq!(space.u128_to_compact(999), Err(0));
    assert_eq!(space.u128_to_compact(1005), Err(1));
    assert_eq!(space.u128_to_compact(2001), Err(2));
}

#[test]
fn lengths_of_ranges() {
    let range = RangeMapping {
        start: 10,
        end: 14,
        compact_start: 3,
    };
    assert_eq!(range.range_length(), 5);
    assert_eq!(range.compact_end(), 7);
}

#[test]
fn the_space_on_the_wire() {
    let space = space_of(&[100, 101, 1000], 1);
    let mut bytes = vec![9u8];
    space.serialize(&mut bytes);
    // two ranges; 100, 1 further; 899 further, 0 further
    assert_eq!(
        bytes,
        vec![9, 2 + 128, 100 + 128, 1 + 128, (899 % 128) as u8, (899 / 128) as u8 + 128, 128]
    );
    bytes.push(77);
    let mut reader = &bytes[1..];
    let read = CompactSpace::deserialize(&mut reader).unwrap();
    assert_eq!(read, space);
    assert_eq!(read.clone(), space);
    assert_eq!(reader, &[77u8][..]);
}

#[test]
fn a_truncated_space_is_an_error() {
    let space = space_of(&[100, 101, 1000], 1);
    let mut bytes = Vec::new();
    space.serialize(&mut bytes);
    for len in 0..bytes.len() {
        assert_eq!(
            CompactSpace::deserialize(&mut &bytes[..len]),
            Err(CodecError::TruncatedVInt)
        );
    }
}

#[test]
fn numbers_out_of_range_are_malformed() {
    // a number that does not end in time
    let mut bytes = vec![1u8; 11];
    assert_eq!(
        CompactSpace::deserialize(&mut &bytes[..]),
        Err(CodecError::Malformed)
    );
    bytes.truncate(10);
    assert_eq!(
        CompactSpace::deserialize(&mut &bytes[..]),
        Err(CodecError::TruncatedVInt)
    );
    // a range that ends beyond the space
    let mut bytes = vec![129u8];
    bytes.extend([127u8; 18]);
    bytes.push(3 + 128);
    bytes.push(1 + 128);
    assert_eq!(
        CompactSpace::deserialize(&mut &bytes[..]),
        Err(CodecError::Malformed)
    );
}

#[test]
fn ranges_that_share_a_value_are_told_from_a_compact_space() {
    // two ranges; 5..=6 and 6..=7
    let bytes = [130u8, 133, 129, 128, 129];
    let space = CompactSpace::deserialize(&mut &bytes[..]).unwrap();
    assert_eq!(ranges(&space), vec![(5, 6, 1), (6, 7, 3)]);
    assert!(!space.is_one_to_one());
    assert!(space_of(&[1, 2, 90], 1).is_one_to_one());
}

#[test]
fn a_value_outside_the_space_cannot_be_written() {
    let column = [Some(7u128), None, Some(9)];
    let compressor = CompactSpaceCompressor::train_from(&column);
    assert_eq!(
        compressor.compress(&[Some(7), Some(10)]),
        Err(CodecError::ValueNotCovered)
    );
    let compressor = CompactSpaceCompressor::train_from(&column);
    let mut output = vec![1u8, 2, 3];
    assert_eq!(
        compressor.compress_into(&[Some(6)], &mut output),
        Err(CodecError::ValueNotCovered)
    );
    assert_eq!(output, vec![1, 2, 3]);
}

#[test]
fn whole_words_are_written_before_an_error() {
    // nine bits a row
    let column: Vec<Option<u128>> = (0..256u128).map(Some).collect();
    let whole = CompactSpaceCompressor::train_from(&column).compress(&column).unwrap();
    for rows in [0usize, 7, 8, 64, 100] {
        let mut vals: Vec<Option<u128>> = column[..rows].to_vec();
        vals.push(Some(256));
        vals.push(Some(0));
        let compressor = CompactSpaceCompressor::train_from(&column);
        let mut output = vec![77u8];
        assert_eq!(
            compressor.compress_into(&vals, &mut output),
            Err(CodecError::ValueNotCovered)
        );
        let written = rows * 9 / 64 * 8;
        assert_eq!(output[0], 77);
        assert_eq!(output[1..], whole[..written]);
    }
}

#[test]
fn columns_are_written_value_by_value() {
    // nine bits a row
    let column: Vec<Option<u128>> =
        (0..256u128).map(|i| if i % 10 == 9 { None } else { Some(i) }).collect();
    let whole = CompactSpaceCompressor::train_from(&column).compress(&column).unwrap();
    let mut writer = CompactSpaceCompressor::train_from(&column).start();
    let mut output = vec![];
    for (i, val) in column.iter().enumerate() {
        assert_eq!(writer.write(*val, &mut output), Ok(()));
        assert_eq!(output.len(), (i + 1) * 9 / 64 * 8);
        // what cannot be written leaves no trace
        assert_eq!(
            writer.write(Some(1000), &mut output),
            Err(CodecError::ValueNotCovered)
        );
        assert_eq!(output[..], whole[..(i + 1) * 9 / 64 * 8]);
    }
    writer.finish(&mut output);
    assert_eq!(output, whole);

    // the same, with an output that is emptied after each value
    let mut writer = CompactSpaceCompressor::train_from(&column).start();
    let mut sent = vec![];
    let mut piece = vec![];
    for val in &column {
        assert_eq!(writer.write(*val, &mut piece), Ok(()));
        sent.append(&mut piece);
    }
    writer.finish(&mut piece);
    sent.append(&mut piece);
    assert_eq!(sent, whole);
}

#[test]
fn a_column_may_count_fewer_rows_than_it_has() {
    let column = [Some(7u128), None, Some(9), Some(7), Some(8)];
    let compressor = CompactSpaceCompressor::train_with_count(&column, 3);
    let bytes = compressor.compress(&column).unwrap();
    let read = CompactSpaceDecompressor::open(OwnedBytes::new(bytes)).unwrap();
    assert_eq!(read.num_vals(), 3);
    assert_eq!((read.min_value(), read.max_value()), (7, 9));
    assert!(read.is_searchable());
    assert_eq!(read.get_range(7..=8), vec![0]);
    assert_eq!(read.get_range(9..=9), vec![2]);
    assert_eq!(read.get(3), Some(7));
    assert_eq!(read.get(4), Some(8));
}

#[test]
fn the_count_of_rows_decides_what_pays() {
    let column = [Some(0u128), Some(1), Some(9), Some(10)];
    let params_of = |compressor: CompactSpaceCompressor| {
        let bytes = compressor.compress(&column).unwrap();
        CompactSpaceDecompressor::open(OwnedBytes::new(bytes)).unwrap()
    };
    // four rows would save four bits, a blank costs 36
    let few = params_of(CompactSpaceCompressor::train_from(&column));
    assert_eq!(few.num_vals(), 4);
    assert_eq!(few.u128_to_compact(5), Ok(6));
    let many = params_of(CompactSpaceCompressor::train_with_count(&column, 40));
    assert_eq!(many.num_vals(), 40);
    assert_eq!(many.u128_to_compact(5), Err(1));
    assert_eq!(many.get(2), Some(9));
}

#[test]
fn footers_are_as_short_as_their_columns_allow() {
    let column: Vec<Option<u128>> = (0..200u128).map(|i| Some(i << 100)).collect();
    let bytes = CompactSpaceCompressor::train_from(&column).compress(&column).unwrap();
    let mut footer_len = [0u8; 4];
    footer_len.copy_from_slice(&bytes[bytes.len() - 4..]);
    assert!(u32::from_le_bytes(footer_len) <= 100 + 38 * 201);
}

#[test]
fn the_column_on_the_wire() {
    let column = [Some(7u128), None, Some(9)];
    let mut output = vec![255u8];
    CompactSpaceCompressor::train_from(&column)
        .compress_into(&column, &mut output)
        .unwrap();
    // the compact values 1, 0 and 3 in two bits each, and the padding
    let mut expected = vec![255u8, 0b11_00_01, 0, 0, 0, 0, 0, 0, 0];
    // flags, smallest, largest, count, bits
    expected.extend([0u8; 8]);
    expected.extend([7 + 128, 9 + 128, 3 + 128, 2]);
    // one range, 7, 2 further
    expected.extend([1 + 128, 7 + 128, 2 + 128]);
    // length of the parameters
    expected.extend([15u8, 0, 0, 0]);
    assert_eq!(output, expected);
    let read = CompactSpaceDecompressor::open(OwnedBytes::new(output[1..].to_vec())).unwrap();
    assert_eq!(read.iter(), column.to_vec());
}

#[test]
fn values_that_take_more_than_56_bits_are_given_64() {
    // the blank between the two is cut out, so that two bits are enough
    let column: Vec<Option<u128>> = vec![Some(0), Some(1u128 << 60)];
    let compressor = CompactSpaceCompressor::train_from(&column);
    let bytes = compressor.compress(&column).unwrap();
    let read = CompactSpaceDecompressor::open(OwnedBytes::new(bytes)).unwrap();
    assert_eq!(read.iter(), column);

    let mut footer: Vec<u8> = vec![0; 8];
    footer.extend([128, 128, 129, 64, 129, 128]);
    // 0..=2 to the power 60
    let mut rest = 1u128 << 60;
    while rest >= 128 {
        footer.push((rest % 128) as u8);
        rest /= 128;
    }
    footer.push(rest as u8 + 128);
    let params = IPCodecParams::deserialize(&mut &footer[..]).unwrap();
    assert_eq!(params.num_bits(), 64);
    assert_eq!(params.num_vals(), 1);
    assert_eq!(params.compact_space().amplitude_compact_space(), (1 << 60) + 1);
    let mut written = Vec::new();
    params.serialize(&mut written);
    assert_eq!(written, footer);
    assert_eq!(params.clone().min_value(), 0);
    assert_eq!(params.max_value(), 0);

    // the row 2 to the power 60, and the padding of a packer
    let mut bytes = ((1u64 << 60) + 1).to_le_bytes().to_vec();
    bytes.extend([0u8; 7]);
    let footer_len = footer.len() as u32;
    bytes.extend(&footer);
    bytes.extend(footer_len.to_le_bytes());
    let read = CompactSpaceDecompressor::open(OwnedBytes::new(bytes)).unwrap();
    assert_eq!(read.get(0), Some(1 << 60));
    assert_eq!(read.get_range(0..=(1 << 60)), vec![0]);
    assert_eq!(read.get_range(0..=(1 << 60) - 1), vec![]);
}

#[test]
fn parameters_that_end_early_are_an_error() {
    let footer = [0u8; 7];
    assert!(matches!(
        IPCodecParams::deserialize(&mut &footer[..]),
        Err(CodecError::UnexpectedEof)
    ));
    let footer = [0u8; 12];
    assert!(matches!(
        IPCodecParams::deserialize(&mut &footer[..]),
        Err(CodecError::TruncatedVInt)
    ));
    // 65 bits
    let mut footer = vec![0u8; 8];
    footer.extend([128, 128, 128, 65, 128]);
    assert!(matches!(
        IPCodecParams::deserialize(&mut &footer[..]),
        Err(CodecError::Malformed)
    ));
}

#[test]
fn bytes_that_are_no_column_do_not_open() {
    let open = |bytes: &[u8]| CompactSpaceDecompressor::open(OwnedBytes::new(bytes.to_vec()));
    let has_footer =
        |bytes: &[u8]| CompactSpaceDecompressor::has_footer(&OwnedBytes::new(bytes.to_vec()));
    assert!(!has_footer(&[]));
    assert!(!has_footer(&[0, 0, 0]));
    assert!(!has_footer(&[1, 0, 0, 0]));
    assert!(!has_footer(&[9, 9, 0, 1, 0, 0]));
    assert!(has_footer(&[9, 9, 2, 0, 0, 0]));
    assert!(has_footer(&[0, 0, 0, 0]));
    assert!(matches!(open(&[0, 0, 0, 0]), Err(CodecError::UnexpectedEof)));
    assert!(matches!(open(&[9, 9, 2, 0, 0, 0]), Err(CodecError::UnexpectedEof)));
    // parameters that begin with flags and a number without an end
    let mut bytes = vec![0u8; 8];
    bytes.extend([1; 20]);
    bytes.extend([28, 0, 0, 0]);
    assert!(matches!(open(&bytes), Err(CodecError::Malformed)));
}

#[test]
fn rows_that_are_not_there_are_not_readable() {
    let column = [Some(7u128), None, Some(9)];
    let bytes = CompactSpaceCompressor::train_from(&column).compress(&column).unwrap();
    let len = bytes.len() as u64;
    let read = CompactSpaceDecompressor::open(OwnedBytes::new(bytes)).unwrap();
    assert!(read.is_readable(2));
    assert!(!read.is_readable(len * 4));
    assert!(!read.is_readable(u64::MAX));

    // the footer says a thousand rows of eight bits, and there are none
    let mut footer: Vec<u8> = vec![0; 8];
    footer.extend([128, 128, (1000 % 128) as u8, (1000 / 128) as u8 + 128, 8, 129, 128, 128]);
    let mut bytes = footer.clone();
    bytes.extend((footer.len() as u32).to_le_bytes());
    let read = CompactSpaceDecompressor::open(OwnedBytes::new(bytes)).unwrap();
    assert_eq!(read.num_vals(), 1000);
    assert!(!read.is_complete());
    assert!(!read.is_searchable());
    // no row is read where no value can be found
    assert!(!read.is_searchable_for(0, 5));
    assert!(read.is_searchable_for(1, 5));
    assert_eq!(read.get_range(1..=5), vec![]);
    assert!(read.is_searchable_for(5, 1));
    assert_eq!(read.get_range(std::ops::RangeInclusive::new(5, 1)), vec![]);
}

#[test]
fn addresses_as_numbers() {
    assert_eq!(ip_to_u128(IpAddr::V4([127, 0, 0, 1])), 0xffff_7f00_0001);
    assert_eq!(ip_to_u128(IpAddr::V4([0, 0, 0, 0])), 0xffff_0000_0000);
    let mut octets = [0u8; 16];
    octets[15] = 1;
    assert_eq!(ip_to_u128(IpAddr::V6(octets)), 1);
    assert_eq!(ip_to_u128(IpAddr::V6([255; 16])), u128::MAX);
    let octets: [u8; 16] = [0x20, 1, 0xd, 0xb8, 0, 0, 0, 0, 0, 0, 0, 0, 0, 0, 0, 0x42];
    assert_eq!(
        ip_to_u128(IpAddr::V6(octets)),
        0x2001_0db8_0000_0000_0000_0000_0000_0042
    );
    let mut mapped = [0u8; 16];
    mapped[10] = 255;
    mapped[11] = 255;
    mapped[12] = 10;
    mapped[15] = 3;
    assert_eq!(
        ip_to_u128(IpAddr::V6(mapped)),
        ip_to_u128(IpAddr::V4([10, 0, 0, 3]))
    );
}
