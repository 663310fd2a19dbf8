//! Reads single values and ranges of values of a compressed column.
use std::ops::RangeInclusive;

use ownedbytes::OwnedBytes;
use vstd::prelude::*;

use crate::bitpack::{field, field_in_bounds};
use crate::compressor::NULL_VALUE_COMPACT_SPACE;
use crate::error::CodecError;
use crate::params::{parse_params, IPCodecParams, Params};
use crate::space::{
    amplitude, covers, from_compact, law_compact_round_trip, law_compact_value_of_covered,
    law_insert_position, law_order_kept, lemma_compact_in_order, lemma_from_compact_at,
    lemma_range_of_compact, lemma_to_compact_between, ranges_laid_out, ranges_wf, to_compact,
    RangeMapping,
};
use crate::wire::{
    le_bytes, le_value, lemma_le_bytes_len, lemma_le_round_trip, read_u32,
};

verus! {

#[verifier::external_type_specification]
#[verifier::external_body]
pub struct ExOwnedBytes(OwnedBytes);

/// The bytes that an `OwnedBytes` gives access to.
pub uninterp spec fn owned_bytes(data: OwnedBytes) -> Seq<u8>;

/// `OwnedBytes::as_slice`: the bytes themselves.
pub assume_specification[ OwnedBytes::as_slice ](data: &OwnedBytes) -> (bytes: &[u8])
    ensures
        bytes@ == owned_bytes(*data),
;

/// `OwnedBytes::clone`: another handle on the same bytes.
pub assume_specification[ <OwnedBytes as Clone>::clone ](data: &OwnedBytes) -> (other: OwnedBytes)
    ensures
        owned_bytes(other) == owned_bytes(*data),
;

/// `RangeInclusive::start`: the lower bound. Nothing is said of a range that was iterated to its
/// end.
pub assume_specification<Idx>[ RangeInclusive::<Idx>::start ](
    range: &RangeInclusive<Idx>,
) -> (start: &Idx)
    ensures
        !range@.exhausted ==> *start == range@.start,
;

/// `RangeInclusive::end`: the upper bound. Nothing is said of a range that was iterated to its
/// end.
pub assume_specification<Idx>[ RangeInclusive::<Idx>::end ](
    range: &RangeInclusive<Idx>,
) -> (end: &Idx)
    ensures
        !range@.exhausted ==> *end == range@.end,
;

/// A compressed column, ready to be read.
#[derive(Debug)]
pub struct CompactSpaceDecompressor {
    data: OwnedBytes,
    params: IPCodecParams,
}

/// What a compressed column is made of.
pub struct Column {
    /// The packed compact values and the footer.
    pub bytes: Seq<u8>,
    /// The parameters that the footer holds.
    pub params: Params,
}

impl View for CompactSpaceDecompressor {
    type V = Column;

    closed spec fn view(&self) -> Column {
        Column { bytes: owned_bytes(self.data), params: self.params@ }
    }
}

impl Clone for CompactSpaceDecompressor {
    fn clone(&self) -> (other: Self)
        ensures
            other@ == self@,
    {
        CompactSpaceDecompressor { data: self.data.clone(), params: self.params.clone() }
    }
}

/// Whether `bytes` end with a footer: four bytes that give the length of the parameters, and as
/// many bytes before them.
pub open spec fn has_footer(bytes: Seq<u8>) -> bool {
    bytes.len() >= 4 && le_value(bytes.skip(bytes.len() - 4)) <= bytes.len() - 4
}

/// The parameters in the footer at the end of `bytes`.
pub open spec fn parse_footer(bytes: Seq<u8>) -> Result<Params, CodecError>
    recommends
        has_footer(bytes),
{
    let end = bytes.len() - 4;
    match parse_params(bytes.subrange(end - le_value(bytes.skip(end)), end)) {
        Ok((params, _)) => Ok(params),
        Err(error) => Err(error),
    }
}

impl Column {
    /// Whether the bytes that it takes to read the row `idx` are there.
    pub open spec fn in_bounds(self, idx: int) -> bool {
        field_in_bounds(self.bytes, self.params.num_bits as nat, idx as nat)
    }

    /// The compact value of the row `idx`.
    pub open spec fn compact(self, idx: int) -> int {
        field(self.bytes, self.params.num_bits as nat, idx as nat) as int
    }

    /// The value of the row `idx`, or none if it is missing.
    pub open spec fn value(self, idx: int) -> Option<int> {
        if self.compact(idx) == NULL_VALUE_COMPACT_SPACE {
            None
        } else {
            Some(from_compact(self.params.ranges, self.compact(idx)))
        }
    }

    /// Whether the row `idx` can be read: its bytes are there, and its value, if it has one, is a
    /// value of the original space.
    pub open spec fn readable(self, idx: int) -> bool {
        &&& self.in_bounds(idx)
        &&& self.value(idx) matches Some(value) ==> self.params.ranges.len() > 0 && value
            <= u128::MAX
    }

    /// Whether the bytes of all rows are there.
    pub open spec fn complete(self) -> bool {
        forall|idx: int| 0 <= idx < self.params.num_vals ==> #[trigger] self.in_bounds(idx)
    }

    /// Whether the column can be searched for any values: the ranges form a compact space, and
    /// the bytes of all rows are there.
    pub open spec fn searchable(self) -> bool {
        ranges_wf(self.params.ranges) && self.complete()
    }

    /// Whether the column can be searched for the values `from..=to`. Where these are none, or
    /// where the compact space has none of them, the rows are not read.
    pub open spec fn searchable_for(self, from: int, to: int) -> bool {
        from <= to ==> ranges_wf(self.params.ranges) && (compact_bounds(
            self.params.ranges,
            from,
            to,
        ) is Some ==> self.complete())
    }

    /// Whether every row holds a compact value of the compact space, or null.
    pub open spec fn wf(self) -> bool {
        &&& self.searchable()
        &&& self.params.ranges.len() > 0
        &&& forall|idx: int|
            0 <= idx < self.params.num_vals ==> #[trigger] self.compact(idx) <= amplitude(
                self.params.ranges,
            )
    }

    /// Whether the row `idx` holds a value of `from..=to`.
    pub open spec fn holds_value_in(self, idx: int, from: int, to: int) -> bool {
        self.value(idx) matches Some(value) && from <= value <= to
    }
}

/// Those of the first `count` rows that `test` holds of, in ascending order.
pub open spec fn rows_where(test: spec_fn(int) -> bool, count: nat) -> Seq<u64>
    decreases count,
{
    if count == 0 {
        Seq::empty()
    } else {
        let before = rows_where(test, (count - 1) as nat);
        if test(count - 1) {
            before.push((count - 1) as u64)
        } else {
            before
        }
    }
}

/// The compact values, from the first to the last, that the values `from..=to` have. A bound that
/// no range holds gives way to the next range within the bounds. None, if both bounds lie between
/// the same two ranges.
pub open spec fn compact_bounds(ranges: Seq<RangeMapping>, from: int, to: int) -> Option<
    (int, int),
> {
    let first = to_compact(ranges, from);
    let last = to_compact(ranges, to);
    if first is Err && first == last {
        None
    } else {
        Some(
            (
                match first {
                    Ok(compact) => compact,
                    Err(pos) => ranges[pos].compact_start as int,
                },
                match last {
                    Ok(compact) => compact,
                    Err(pos) => ranges[pos - 1].last_compact(),
                },
            ),
        )
    }
}

/// The rows that a search for the values `from..=to` finds.
pub open spec fn found_rows(column: Column, from: int, to: int) -> Seq<u64> {
    if from > to {
        Seq::empty()
    } else {
        match compact_bounds(column.params.ranges, from, to) {
            None => Seq::empty(),
            Some((first, last)) => rows_where(
                |idx: int| first <= column.compact(idx) <= last,
                column.params.num_vals as nat,
            ),
        }
    }
}

/// Appends `idx` to `positions` if `val` is one of `first..=last`.
fn push_if_in_range(positions: &mut Vec<u64>, idx: u64, val: u64, first: u64, last: u64)
    ensures
        final(positions)@ == if first <= val <= last {
            old(positions)@.push(idx)
        } else {
            old(positions)@
        },
{
    if first <= val && val <= last {
        positions.push(idx);
    }
}

impl CompactSpaceDecompressor {
    /// Whether the bytes end with a footer, as they must to be opened: four bytes that give the
    /// length of the parameters, and as many bytes before them.
    pub fn has_footer(data: &OwnedBytes) -> (has: bool)
        ensures
            has == has_footer(owned_bytes(*data)),
    {
        let bytes: &[u8] = data.as_slice();
        if bytes.len() < 4 {
            return false;
        }
        let (data_slice, footer_len_bytes) = bytes.split_at(bytes.len() - 4);
        let mut footer_len_reader: &[u8] = footer_len_bytes;
        proof {
            assert(footer_len_bytes@ =~= bytes@.skip(bytes@.len() - 4));
            assert(footer_len_bytes@.take(4) =~= footer_len_bytes@);
        }
        match read_u32(&mut footer_len_reader) {
            Ok(footer_len) => footer_len as usize <= data_slice.len(),
            Err(_) => false,
        }
    }

    /// Opens a compressed column.
    pub fn open(data: OwnedBytes) -> (result: Result<CompactSpaceDecompressor, CodecError>)
        requires
            has_footer(owned_bytes(data)),
        ensures
            match parse_footer(owned_bytes(data)) {
                Ok(params) => result is Ok && result->Ok_0@ == (Column {
                    bytes: owned_bytes(data),
                    params,
                }) && ranges_laid_out(params.ranges),
                Err(error) => result == Err::<CompactSpaceDecompressor, CodecError>(error),
            },
    {
        let bytes: &[u8] = data.as_slice();
        let (data_slice, footer_len_bytes) = bytes.split_at(bytes.len() - 4);
        let mut footer_len_reader: &[u8] = footer_len_bytes;
        proof {
            assert(footer_len_bytes@ =~= bytes@.skip(bytes@.len() - 4));
            assert(footer_len_bytes@.take(4) =~= footer_len_bytes@);
        }
        let footer_len: u32 = match read_u32(&mut footer_len_reader) {
            Ok(footer_len) => footer_len,
            Err(error) => return Err(error),
        };
        let (_, data_footer) = data_slice.split_at(data_slice.len() - footer_len as usize);
        let mut footer_reader: &[u8] = data_footer;
        proof {
            let end = bytes@.len() - 4;
            assert(data_footer@ =~= bytes@.subrange(end - footer_len, end));
        }
        match IPCodecParams::deserialize(&mut footer_reader) {
            Ok(params) => Ok(CompactSpaceDecompressor { data, params }),
            Err(error) => Err(error),
        }
    }

    /// Converting to compact space for the decompressor is more complex, since we may get values
    /// which are outside the compact space. e.g. if we map
    /// 1000 => 5
    /// 2000 => 6
    ///
    /// and we want a mapping for 1005, there is no equivalent compact space. We instead return an
    /// error with the index of the next range.
    pub fn u128_to_compact(&self, value: u128) -> (result: Result<u64, usize>)
        requires
            ranges_wf(self@.params.ranges),
        ensures
            match result {
                Ok(compact) => to_compact(self@.params.ranges, value as int) == Ok::<int, int>(
                    compact as int,
                ) && 1 <= compact <= amplitude(self@.params.ranges) <= u64::MAX,
                Err(pos) => to_compact(self@.params.ranges, value as int) == Err::<int, int>(
                    pos as int,
                ) && pos <= self@.params.ranges.len(),
            },
    {
        self.params.compact_space().u128_to_compact(value)
    }

    /// Unpacks a value from compact space u64 to u128 space.
    pub fn compact_to_u128(&self, compact: u64) -> (value: u128)
        requires
            self@.params.ranges.len() > 0,
            compact >= 1,
            from_compact(self@.params.ranges, compact as int) <= u128::MAX,
        ensures
            value == from_compact(self@.params.ranges, compact as int),
    {
        self.params.compact_space().compact_to_u128(compact)
    }

    /// The compact value of the row `idx`.
    fn get_compact(&self, idx: u64) -> (compact: u64)
        requires
            self@.in_bounds(idx as int),
        ensures
            compact == self@.compact(idx as int),
    {
        self.params.unpack(idx, self.data.as_slice())
    }

    /// The rows, in ascending order, whose value is one of `range`.
    ///
    /// Comparing on compact space: 1.08 GElements/s, which equals a throughput of 17,3 Gb/s
    /// (based on u128 = 16byte)
    ///
    /// Comparing on original space: .06 GElements/s (not completely optimized)
    pub fn get_range(&self, range: RangeInclusive<u128>) -> (positions: Vec<u64>)
        requires
            self@.searchable() || (!range@.exhausted && self@.searchable_for(
                range@.start as int,
                range@.end as int,
            )),
        ensures
            !range@.exhausted ==> positions@ == found_rows(
                self@,
                range@.start as int,
                range@.end as int,
            ),
            !range@.exhausted && self@.wf() ==> positions@ == rows_where(
                |idx: int|
                    self@.holds_value_in(idx, range@.start as int, range@.end as int),
                self@.params.num_vals as nat,
            ),            !range@.exhausted && self@.searchable() ==> forall|row: u64| #[trigger]
                positions@.contains(row) <==> row < self@.params.num_vals && ({
                    let compact = field(
                        self@.bytes,
                        self@.params.num_bits as nat,
                        row as nat,
                    );
                    &&& self@.params.ranges.len() > 0
                    &&& 1 <= compact <= amplitude(self@.params.ranges)
                    &&& range@.start <= from_compact(self@.params.ranges, compact as int)
                        <= range@.end
                }),
            !range@.exhausted ==> forall|i: int, j: int|
                0 <= i < j < positions@.len() ==> positions@[i] < positions@[j],
            !range@.exhausted && !self@.searchable() ==> positions@.len() == 0,
    {
        let from_value: u128 = *range.start();
        let to_value: u128 = *range.end();
        proof {
            if self@.wf() {
                law_search_finds_values(self@, from_value, to_value);
            }
            if self@.searchable() {
                law_search_finds_compact_values(self@, from_value, to_value);
                law_rows_are_those_that_pass(
                    |idx: int|
                        ({
                            let compact = field(
                                self@.bytes,
                                self@.params.num_bits as nat,
                                idx as nat,
                            );
                            &&& self@.params.ranges.len() > 0
                            &&& 1 <= compact <= amplitude(self@.params.ranges)
                            &&& from_value <= from_compact(self@.params.ranges, compact as int)
                                <= to_value
                        }),
                    self@.params.num_vals as nat,
                );
            }
        }
        self.get_rows_between(from_value, to_value)
    }

    /// The rows, in ascending order, whose value is one of `from_value..=to_value`.
    fn get_rows_between(&self, from_value: u128, to_value: u128) -> (positions: Vec<u64>)
        requires
            self@.searchable_for(from_value as int, to_value as int),
        ensures
            positions@ == found_rows(self@, from_value as int, to_value as int),
    {
        if from_value > to_value {
            return Vec::new();
        }
        let compact_from = self.u128_to_compact(from_value);
        let compact_to = self.u128_to_compact(to_value);
        let compact_space = self.params.compact_space();
        proof {
            law_insert_position(self@.params.ranges, from_value);
            law_insert_position(self@.params.ranges, to_value);
            if compact_bounds(self@.params.ranges, from_value as int, to_value as int) is Some {
                lemma_bounds_are_compact(self@.params.ranges, from_value, to_value);
            }
        }
        // Quick return, if both ranges fall into the same non-mapped space, the range can't cover
        // any values, so we can early exit
        if let (Err(pos1), Err(pos2)) = (compact_to, compact_from) {
            if pos1 == pos2 {
                return Vec::new();
            }
        }
        let first: u64 = match compact_from {
            Ok(compact) => compact,
            Err(pos) => {
                // If no range lay above, none would lie above the upper bound either.
                compact_space.get_range_mapping(pos).compact_start
            },
        };
        // If there is no compact space, we go to the closest upperbound compact space
        let last: u64 = match compact_to {
            Ok(compact) => compact,
            Err(pos) => {
                // If no range lay below, none would lie below the lower bound either.
                compact_space.get_range_mapping(pos - 1).compact_end()
            },
        };
        let ghost test = |idx: int| first <= self@.compact(idx) <= last;
        assert(compact_bounds(self@.params.ranges, from_value as int, to_value as int) == Some(
            (first as int, last as int),
        ));
        let num_vals: u64 = self.params.num_vals();
        let step_size: u64 = 4;
        let cutoff: u64 = num_vals - num_vals % step_size;
        let mut positions: Vec<u64> = Vec::new();
        let mut idx: u64 = 0;
        // unrolled loop
        while idx < cutoff
            invariant
                self@.complete(),
                num_vals == self@.params.num_vals,
                cutoff % 4 == 0,
                idx % 4 == 0,
                idx <= cutoff <= num_vals,
                test == |idx: int| first <= self@.compact(idx) <= last,
                positions@ == rows_where(test, idx as nat),
            decreases cutoff - idx,
        {
            assert(self@.in_bounds(idx as int));
            assert(self@.in_bounds(idx + 1));
            assert(self@.in_bounds(idx + 2));
            assert(self@.in_bounds(idx + 3));
            let val1: u64 = self.get_compact(idx);
            let val2: u64 = self.get_compact(idx + 1);
            let val3: u64 = self.get_compact(idx + 2);
            let val4: u64 = self.get_compact(idx + 3);
            push_if_in_range(&mut positions, idx, val1, first, last);
            assert(positions@ == rows_where(test, (idx + 1) as nat));
            push_if_in_range(&mut positions, idx + 1, val2, first, last);
            assert(positions@ == rows_where(test, (idx + 2) as nat));
            push_if_in_range(&mut positions, idx + 2, val3, first, last);
            assert(positions@ == rows_where(test, (idx + 3) as nat));
            push_if_in_range(&mut positions, idx + 3, val4, first, last);
            assert(positions@ == rows_where(test, (idx + 4) as nat));
            idx += 4;
        }
        // handle rest
        while idx < num_vals
            invariant
                self@.complete(),
                num_vals == self@.params.num_vals,
                idx <= num_vals,
                test == |idx: int| first <= self@.compact(idx) <= last,
                positions@ == rows_where(test, idx as nat),
            decreases num_vals - idx,
        {
            assert(self@.in_bounds(idx as int));
            let val: u64 = self.get_compact(idx);
            push_if_in_range(&mut positions, idx, val, first, last);
            idx += 1;
        }
        proof {
            lemma_rows_where_same(
                test,
                |idx: int| first as int <= self@.compact(idx) <= last as int,
                num_vals as nat,
            );
        }
        positions
    }

    /// The compact values of all rows.
    pub fn iter_compact(&self) -> (compacts: Vec<u64>)
        requires
            self@.complete(),
        ensures
            compacts@.len() == self@.params.num_vals,
            forall|idx: int|
                0 <= idx < compacts@.len() ==> #[trigger] compacts@[idx] == self@.compact(idx),
            forall|idx: int|
                0 <= idx < compacts@.len() ==> #[trigger] compacts@[idx] == field(
                    self@.bytes,
                    self@.params.num_bits as nat,
                    idx as nat,
                ),
    {
        let num_vals: u64 = self.params.num_vals();
        let mut compacts: Vec<u64> = Vec::new();
        let mut idx: u64 = 0;
        while idx < num_vals
            invariant
                self@.complete(),
                num_vals == self@.params.num_vals,
                idx <= num_vals,
                compacts@.len() == idx,
                forall|i: int| 0 <= i < idx ==> #[trigger] compacts@[i] == self@.compact(i),
            decreases num_vals - idx,
        {
            assert(self@.in_bounds(idx as int));
            compacts.push(self.get_compact(idx));
            idx += 1;
        }
        compacts
    }

    /// The values of all rows.
    pub fn iter(&self) -> (vals: Vec<Option<u128>>)
        requires
            forall|idx: int|
                0 <= idx < self@.params.num_vals ==> #[trigger] self@.readable(idx),
        ensures
            vals@.len() == self@.params.num_vals,
            forall|idx: int|
                0 <= idx < vals@.len() ==> same_value(#[trigger] vals@[idx], self@.value(idx)),
            forall|idx: int|
                0 <= idx < vals@.len() ==> #[trigger] vals@[idx] == {
                    let compact = field(self@.bytes, self@.params.num_bits as nat, idx as nat);
                    if compact == 0 {
                        None
                    } else {
                        Some(from_compact(self@.params.ranges, compact as int) as u128)
                    }
                },
    {
        let num_vals: u64 = self.params.num_vals();
        let mut vals: Vec<Option<u128>> = Vec::new();
        let mut idx: u64 = 0;
        while idx < num_vals
            invariant
                forall|i: int| 0 <= i < num_vals ==> #[trigger] self@.readable(i),
                idx <= num_vals,
                vals@.len() == idx,
                forall|i: int| 0 <= i < idx ==> same_value(#[trigger] vals@[i], self@.value(i)),
            decreases num_vals - idx,
        {
            assert(self@.readable(idx as int));
            vals.push(self.get(idx));
            idx += 1;
        }
        vals
    }

    /// The value of the row `idx`, or none if it is missing.
    pub fn get(&self, idx: u64) -> (val: Option<u128>)
        requires
            self@.readable(idx as int),
        ensures
            same_value(val, self@.value(idx as int)),
            val == {
                let compact = field(self@.bytes, self@.params.num_bits as nat, idx as nat);
                if compact == 0 {
                    None
                } else {
                    Some(from_compact(self@.params.ranges, compact as int) as u128)
                }
            },
    {
        let compact: u64 = self.get_compact(idx);
        if compact == NULL_VALUE_COMPACT_SPACE {
            None
        } else {
            Some(self.compact_to_u128(compact))
        }
    }

    /// The value of the row `doc`, or none if it is missing.
    pub fn get_val(&self, doc: u64) -> (val: Option<u128>)
        requires
            self@.readable(doc as int),
        ensures
            same_value(val, self@.value(doc as int)),
            val == {
                let compact = field(self@.bytes, self@.params.num_bits as nat, doc as nat);
                if compact == 0 {
                    None
                } else {
                    Some(from_compact(self@.params.ranges, compact as int) as u128)
                }
            },
    {
        self.get(doc)
    }

    /// The rows, in ascending order, whose value is one of `range`.
    pub fn get_between_vals(&self, range: RangeInclusive<u128>) -> (positions: Vec<u64>)
        requires
            self@.searchable() || (!range@.exhausted && self@.searchable_for(
                range@.start as int,
                range@.end as int,
            )),
        ensures
            !range@.exhausted ==> positions@ == found_rows(
                self@,
                range@.start as int,
                range@.end as int,
            ),
            !range@.exhausted && self@.wf() ==> positions@ == rows_where(
                |idx: int|
                    self@.holds_value_in(idx, range@.start as int, range@.end as int),
                self@.params.num_vals as nat,
            ),            !range@.exhausted && self@.searchable() ==> forall|row: u64| #[trigger]
                positions@.contains(row) <==> row < self@.params.num_vals && ({
                    let compact = field(
                        self@.bytes,
                        self@.params.num_bits as nat,
                        row as nat,
                    );
                    &&& self@.params.ranges.len() > 0
                    &&& 1 <= compact <= amplitude(self@.params.ranges)
                    &&& range@.start <= from_compact(self@.params.ranges, compact as int)
                        <= range@.end
                }),
            !range@.exhausted ==> forall|i: int, j: int|
                0 <= i < j < positions@.len() ==> positions@[i] < positions@[j],
            !range@.exhausted && !self@.searchable() ==> positions@.len() == 0,
    {
        self.get_range(range)
    }

    /// The smallest value of the column, or 0 if it has none.
    pub fn min_value(&self) -> (value: u128)
        ensures
            value == self@.params.min_value,
    {
        self.params.min_value()
    }

    /// The largest value of the column, or 0 if it has none.
    pub fn max_value(&self) -> (value: u128)
        ensures
            value == self@.params.max_value,
    {
        self.params.max_value()
    }

    /// The number of rows.
    pub fn num_vals(&self) -> (count: u64)
        ensures
            count == self@.params.num_vals,
    {
        self.params.num_vals()
    }

    /// Whether the row `idx` can be read. Bytes that are not those of a compressed column may have
    /// fewer rows than they say, or rows that stand for no value.
    pub fn is_readable(&self, idx: u64) -> (readable: bool)
        ensures
            readable == self@.readable(idx as int),
            readable == {
                let width = self@.params.num_bits as nat;
                let compact = field(self@.bytes, width, idx as nat);
                &&& field_in_bounds(self@.bytes, width, idx as nat)
                &&& compact == 0 || (self@.params.ranges.len() > 0 && from_compact(
                    self@.params.ranges,
                    compact as int,
                ) <= u128::MAX)
            },
    {
        if !self.is_in_bounds(idx) {
            return false;
        }
        let compact: u64 = self.get_compact(idx);
        compact == NULL_VALUE_COMPACT_SPACE || self.params.compact_space().can_unpack(compact)
    }

    /// Whether the column can be searched. Bytes that are not those of a compressed column may
    /// have fewer rows than they say, or ranges that overlap.
    pub fn is_searchable(&self) -> (searchable: bool)
        ensures
            searchable == self@.searchable(),
            searchable == (ranges_wf(self@.params.ranges) && forall|idx: int|
                0 <= idx < self@.params.num_vals ==> #[trigger] field_in_bounds(
                    self@.bytes,
                    self@.params.num_bits as nat,
                    idx as nat,
                )),
    {
        self.params.compact_space().is_one_to_one() && self.is_complete()
    }

    /// Whether the column can be searched for the values `from_value..=to_value`.
    pub fn is_searchable_for(&self, from_value: u128, to_value: u128) -> (searchable: bool)
        ensures
            searchable == self@.searchable_for(from_value as int, to_value as int),
            searchable <==> from_value > to_value || (ranges_wf(self@.params.ranges) && (
            self@.complete() || forall|x: int|
                from_value <= x <= to_value ==> !#[trigger] covers(self@.params.ranges, x))),
    {
        proof {
            law_searchable_for_values(self@, from_value, to_value);
        }
        if from_value > to_value {
            return true;
        }
        if !self.params.compact_space().is_one_to_one() {
            return false;
        }
        let compact_from = self.u128_to_compact(from_value);
        let compact_to = self.u128_to_compact(to_value);
        if let (Err(pos1), Err(pos2)) = (compact_to, compact_from) {
            if pos1 == pos2 {
                return true;
            }
        }
        self.is_complete()
    }

    /// Whether the bytes of all rows are there.
    pub fn is_complete(&self) -> (complete: bool)
        ensures
            complete == self@.complete(),
            complete == forall|idx: int|
                0 <= idx < self@.params.num_vals ==> #[trigger] field_in_bounds(
                    self@.bytes,
                    self@.params.num_bits as nat,
                    idx as nat,
                ),
    {
        let num_vals: u64 = self.params.num_vals();
        if num_vals == 0 {
            return true;
        }
        let complete: bool = self.is_in_bounds(num_vals - 1);
        proof {
            if complete {
                assert forall|idx: int| 0 <= idx < num_vals implies #[trigger] self@.in_bounds(
                    idx,
                ) by {
                    lemma_in_bounds_before(self@, idx, num_vals - 1);
                }
                assert forall|idx: int|
                    0 <= idx < num_vals implies #[trigger] field_in_bounds(
                    self@.bytes,
                    self@.params.num_bits as nat,
                    idx as nat,
                ) by {
                    assert(self@.in_bounds(idx));
                }
            } else {
                assert(!field_in_bounds(
                    self@.bytes,
                    self@.params.num_bits as nat,
                    (num_vals - 1) as nat,
                ));
            }
        }
        complete
    }

    /// Whether the bytes that it takes to read the row `idx` are there.
    fn is_in_bounds(&self, idx: u64) -> (in_bounds: bool)
        ensures
            in_bounds == self@.in_bounds(idx as int),
    {
        let num_bits: u8 = self.params.num_bits();
        if num_bits == 0 {
            return true;
        }
        let len: usize = self.data.as_slice().len();
        match idx.checked_mul(num_bits as u64) {
            Some(addr_in_bits) => len >= 8 && addr_in_bits / 8 <= (len - 8) as u64,
            None => false,
        }
    }
}

/// Whether `val` is the value `value`.
pub open spec fn same_value(val: Option<u128>, value: Option<int>) -> bool {
    match value {
        Some(v) => val == Some(v as u128) && 0 <= v <= u128::MAX,
        None => val is None,
    }
}

proof fn lemma_in_bounds_before(column: Column, i: int, j: int)
    requires
        0 <= i <= j,
        column.in_bounds(j),
    ensures
        column.in_bounds(i),
{
    let width = column.params.num_bits as int;
    assert(i * width <= j * width) by (nonlinear_arith)
        requires
            0 <= i <= j,
            0 <= width,
    ;
}

/// Tests that agree on the first `count` rows pick the same of them.
pub proof fn lemma_rows_where_same(
    left: spec_fn(int) -> bool,
    right: spec_fn(int) -> bool,
    count: nat,
)
    requires
        forall|idx: int| 0 <= idx < count ==> #[trigger] left(idx) == right(idx),
    ensures
        rows_where(left, count) == rows_where(right, count),
    decreases count,
{
    if count > 0 {
        lemma_rows_where_same(left, right, (count - 1) as nat);
        assert(left(count - 1) == right(count - 1));
    }
}

/// The rows that are picked are those that the test holds of, each once and in ascending order.
pub proof fn law_rows_are_those_that_pass(test: spec_fn(int) -> bool, count: nat)
    requires
        count <= u64::MAX,
    ensures
        forall|idx: u64| #[trigger]
            rows_where(test, count).contains(idx) <==> idx < count && test(idx as int),
        forall|i: int, j: int|
            0 <= i < j < rows_where(test, count).len() ==> rows_where(test, count)[i]
                < rows_where(test, count)[j],
    decreases count,
{
    let rows = rows_where(test, count);
    if count > 0 {
        let before = rows_where(test, (count - 1) as nat);
        law_rows_are_those_that_pass(test, (count - 1) as nat);
        assert forall|idx: u64| #[trigger] rows.contains(idx) <==> idx < count && test(
            idx as int,
        ) by {
            if before.contains(idx) {
                let i = choose|i: int| 0 <= i < before.len() && before[i] == idx;
                assert(rows[i] == idx);
            }
            if test(count - 1) && idx == count - 1 {
                assert(rows[before.len() as int] == idx);
            }
            if rows.contains(idx) {
                let i = choose|i: int| 0 <= i < rows.len() && rows[i] == idx;
                if i < before.len() {
                    assert(before[i] == idx);
                }
            }
        }
        assert forall|i: int, j: int| 0 <= i < j < rows.len() implies rows[i] < rows[j] by {
            if j == before.len() {
                assert(before.contains(before[i]));
            }
        }
    }
}

/// A compact value unpacks to `from` or above exactly if it is no less than the first compact
/// value from there on.
proof fn lemma_at_or_above(ranges: Seq<RangeMapping>, from: u128, compact: u64)
    requires
        ranges_wf(ranges),
        ranges.len() > 0,
        1 <= compact <= amplitude(ranges),
    ensures
        match to_compact(ranges, from as int) {
            Ok(first) => first >= 1 && (from <= from_compact(ranges, compact as int) <==> first
                <= compact),
            Err(pos) => {
                &&& 0 <= pos <= ranges.len()
                &&& pos < ranges.len() ==> ranges[pos].compact_start >= 1 && (from <= from_compact(
                    ranges,
                    compact as int,
                ) <==> ranges[pos].compact_start <= compact)
                &&& pos == ranges.len() ==> from_compact(ranges, compact as int) < from
            },
        },
{
    law_compact_round_trip(ranges, compact);
    let value = from_compact(ranges, compact as int) as u128;
    law_compact_value_of_covered(ranges, value);
    law_compact_value_of_covered(ranges, from);
    law_insert_position(ranges, from);
    match to_compact(ranges, from as int) {
        Ok(_) => {
            law_order_kept(ranges, from, value);
        },
        Err(pos) => {
            let k = lemma_range_of_compact(ranges, compact as int);
            if k + 1 < ranges.len() {
                lemma_compact_in_order(ranges, k, k + 1);
            }
            lemma_from_compact_at(ranges, compact as int, k);
            if pos < ranges.len() {
                lemma_compact_in_order(ranges, pos, pos);
                if k < pos {
                    lemma_compact_in_order(ranges, k, pos);
                } else {
                    lemma_compact_in_order(ranges, pos, k);
                }
            }
        },
    }
}

/// A compact value unpacks to `to` or below exactly if it is no more than the last compact value
/// up to there.
proof fn lemma_at_or_below(ranges: Seq<RangeMapping>, to: u128, compact: u64)
    requires
        ranges_wf(ranges),
        ranges.len() > 0,
        1 <= compact <= amplitude(ranges),
    ensures
        match to_compact(ranges, to as int) {
            Ok(last) => from_compact(ranges, compact as int) <= to <==> compact <= last,
            Err(pos) => {
                &&& 0 <= pos <= ranges.len()
                &&& pos > 0 ==> (from_compact(ranges, compact as int) <= to <==> compact
                    <= ranges[pos - 1].last_compact())
                &&& pos == 0 ==> to < from_compact(ranges, compact as int)
            },
        },
{
    law_compact_round_trip(ranges, compact);
    let value = from_compact(ranges, compact as int) as u128;
    law_compact_value_of_covered(ranges, value);
    law_compact_value_of_covered(ranges, to);
    law_insert_position(ranges, to);
    match to_compact(ranges, to as int) {
        Ok(_) => {
            law_order_kept(ranges, value, to);
        },
        Err(pos) => {
            let k = lemma_range_of_compact(ranges, compact as int);
            if k + 1 < ranges.len() {
                lemma_compact_in_order(ranges, k, k + 1);
            }
            lemma_from_compact_at(ranges, compact as int, k);
            if pos > 0 {
                if k < pos {
                    lemma_compact_in_order(ranges, k, pos - 1);
                } else {
                    lemma_compact_in_order(ranges, pos - 1, k);
                }
            }
        },
    }
}

/// A search of any column, even one whose rows hold compact values that the compact space does not
/// have, finds the rows that hold a compact value of a value within its bounds, and no others.
pub proof fn law_search_finds_compact_values(column: Column, from: u128, to: u128)
    requires
        column.searchable(),
    ensures
        found_rows(column, from as int, to as int) == rows_where(
            |idx: int|
                ({
                    let compact = field(column.bytes, column.params.num_bits as nat, idx as nat);
                    &&& column.params.ranges.len() > 0
                    &&& 1 <= compact <= amplitude(column.params.ranges)
                    &&& from <= from_compact(column.params.ranges, compact as int) <= to
                }),
            column.params.num_vals as nat,
        ),
{
    let ranges = column.params.ranges;
    let count = column.params.num_vals as nat;
    let by_value = |idx: int|
        ({
            let compact = field(column.bytes, column.params.num_bits as nat, idx as nat);
            &&& column.params.ranges.len() > 0
            &&& 1 <= compact <= amplitude(column.params.ranges)
            &&& from <= from_compact(column.params.ranges, compact as int) <= to
        });
    if from > to || compact_bounds(ranges, from as int, to as int) is None {
        assert forall|idx: int| 0 <= idx < count implies !#[trigger] by_value(idx) by {
            let compact = column.compact(idx);
            if by_value(idx) {
                lemma_compact_in_order(ranges, ranges.len() - 1, ranges.len() - 1);
                lemma_same_gap(ranges, from, to, compact as u64);
            }
        }
        lemma_rows_where_none(by_value, count);
    } else {
        let (first, last) = compact_bounds(ranges, from as int, to as int)->Some_0;
        let by_compact = |idx: int| first <= column.compact(idx) <= last;
        assert forall|idx: int| 0 <= idx < count implies #[trigger] by_compact(idx) == by_value(
            idx,
        ) by {
            let compact = column.compact(idx);
            lemma_bounds_are_compact(ranges, from, to);
            law_compact_value_of_covered(ranges, to);
            lemma_compact_in_order(ranges, ranges.len() - 1, ranges.len() - 1);
            if let Err(pos) = to_compact(ranges, to as int) {
                lemma_compact_in_order(ranges, pos - 1, ranges.len() - 1);
            }
            assert(last <= amplitude(ranges) <= u64::MAX);
            if 1 <= compact <= amplitude(ranges) {
                lemma_at_or_above(ranges, from, compact as u64);
                lemma_at_or_below(ranges, to, compact as u64);
            }
        }
        lemma_rows_where_same(by_compact, by_value, count);
    }
}

/// A column can be searched for values if its ranges form a compact space and the bytes of all its
/// rows are there. Where there are no values to search for it always can be, and where the compact
/// space holds none of them the rows need not be there; then nothing is found.
pub proof fn law_searchable_for_values(column: Column, from: u128, to: u128)
    ensures
        column.searchable() ==> column.searchable_for(from as int, to as int),
        column.searchable_for(from as int, to as int) <==> from > to || (ranges_wf(
            column.params.ranges,
        ) && (column.complete() || forall|x: int|
            from <= x <= to ==> !#[trigger] covers(column.params.ranges, x))),
        from > to ==> column.searchable_for(from as int, to as int) && found_rows(
            column,
            from as int,
            to as int,
        ) == Seq::<u64>::empty(),
        column.searchable_for(from as int, to as int) && !column.complete() ==> found_rows(
            column,
            from as int,
            to as int,
        ) == Seq::<u64>::empty(),
{
    let ranges = column.params.ranges;
    if from <= to && ranges_wf(ranges) {
        law_insert_position(ranges, from);
        law_insert_position(ranges, to);
        law_compact_value_of_covered(ranges, from);
        law_compact_value_of_covered(ranges, to);
        if compact_bounds(ranges, from as int, to as int) is None {
            assert forall|x: int| from <= x <= to implies !#[trigger] covers(ranges, x) by {
                if covers(ranges, x) {
                    let k = choose|k: int|
                        0 <= k < ranges.len() && (#[trigger] ranges[k]).contains(x);
                    assert(ranges[k].end < from || to < ranges[k].start);
                }
            }
        } else if !covers(ranges, from as int) && !covers(ranges, to as int) {
            let first = to_compact(ranges, from as int)->Err_0;
            let last = to_compact(ranges, to as int)->Err_0;
            let k = if first < last {
                first
            } else {
                last
            };
            assert(from < ranges[k].start && ranges[k].end < to);
            assert(ranges[k].contains(ranges[k].start as int));
            assert(covers(ranges, ranges[k].start as int));
        }
    }
}

/// The parameters of a column are read from in front of the last four bytes, as many bytes as these
/// say, whatever stands before.
pub proof fn law_footer_is_found(data: Seq<u8>, encoded: Seq<u8>)
    requires
        encoded.len() <= u32::MAX,
    ensures
        has_footer(data + encoded + le_bytes(encoded.len(), 4)),
        parse_footer(data + encoded + le_bytes(encoded.len(), 4)) == match parse_params(encoded) {
            Ok((params, _)) => Ok(params),
            Err(error) => Err(error),
        },
{
    let bytes = data + encoded + le_bytes(encoded.len(), 4);
    lemma_le_bytes_len(encoded.len(), 4);
    let end = bytes.len() - 4;
    assert(bytes.skip(end) =~= le_bytes(encoded.len(), 4));
    assert(vstd::arithmetic::power::pow(256, 4) == 0x1_0000_0000) by {
        reveal_with_fuel(vstd::arithmetic::power::pow, 5);
    }
    lemma_le_round_trip(encoded.len(), 4);
    assert(bytes.subrange(end - encoded.len(), end) =~= encoded);
}

/// Bytes end with a footer exactly if the number in the last four of them, lowest first, is not
/// more than the number of the bytes before.
pub proof fn law_what_has_a_footer(bytes: Seq<u8>)
    ensures
        has_footer(bytes) <==> bytes.len() >= 4 && ({
            let last = bytes.len() - 4;
            bytes[last] + 0x100 * bytes[last + 1] + 0x1_0000 * bytes[last + 2] + 0x100_0000
                * bytes[last + 3] <= last
        }),
{
    if bytes.len() >= 4 {
        let a = bytes.skip(bytes.len() - 4);
        let b = a.drop_first();
        let c = b.drop_first();
        let d = c.drop_first();
        assert(d.drop_first().len() == 0);
        assert(le_value(d.drop_first()) == 0);
        assert(le_value(d) == d[0]);
        assert(le_value(c) == c[0] + 256 * le_value(d));
        assert(le_value(b) == b[0] + 256 * le_value(c));
        assert(le_value(a) == a[0] + 256 * le_value(b));
    }
}

/// A search finds the rows that hold a value within its bounds, and no others.
pub proof fn law_search_finds_values(column: Column, from: u128, to: u128)
    requires
        column.wf(),
    ensures
        found_rows(column, from as int, to as int) == rows_where(
            |idx: int| column.holds_value_in(idx, from as int, to as int),
            column.params.num_vals as nat,
        ),
{
    let ranges = column.params.ranges;
    let count = column.params.num_vals as nat;
    let by_value = |idx: int| column.holds_value_in(idx, from as int, to as int);
    if from > to || compact_bounds(ranges, from as int, to as int) is None {
        assert forall|idx: int| 0 <= idx < count implies !#[trigger] by_value(idx) by {
            let compact = column.compact(idx);
            if from <= to && compact > 0 {
                lemma_at_or_above(ranges, from, compact as u64);
                lemma_at_or_below(ranges, to, compact as u64);
                lemma_same_gap(ranges, from, to, compact as u64);
            }
        }
        lemma_rows_where_none(by_value, count);
    } else {
        let (first, last) = compact_bounds(ranges, from as int, to as int)->Some_0;
        let by_compact = |idx: int| first <= column.compact(idx) <= last;
        assert forall|idx: int| 0 <= idx < count implies #[trigger] by_compact(idx) == by_value(
            idx,
        ) by {
            let compact = column.compact(idx);
            lemma_bounds_are_compact(ranges, from, to);
            if compact > 0 {
                lemma_at_or_above(ranges, from, compact as u64);
                lemma_at_or_below(ranges, to, compact as u64);
            }
        }
        lemma_rows_where_same(by_compact, by_value, count);
    }
}

proof fn lemma_rows_where_none(test: spec_fn(int) -> bool, count: nat)
    requires
        forall|idx: int| 0 <= idx < count ==> !#[trigger] test(idx),
    ensures
        rows_where(test, count) == Seq::<u64>::empty(),
    decreases count,
{
    if count > 0 {
        lemma_rows_where_none(test, (count - 1) as nat);
        assert(!test(count - 1));
    }
}

/// Nothing unpacks to a value between bounds that lie between the same two ranges.
proof fn lemma_same_gap(ranges: Seq<RangeMapping>, from: u128, to: u128, compact: u64)
    requires
        ranges_wf(ranges),
        ranges.len() > 0,
        1 <= compact <= amplitude(ranges),
        compact_bounds(ranges, from as int, to as int) is None,
    ensures
        !(from <= from_compact(ranges, compact as int) <= to),
{
    lemma_at_or_above(ranges, from, compact);
    lemma_at_or_below(ranges, to, compact);
    let pos = to_compact(ranges, from as int)->Err_0;
    if 0 < pos < ranges.len() {
        lemma_compact_in_order(ranges, pos - 1, pos);
    }
}

/// The bounds of a search are compact values of values.
proof fn lemma_bounds_are_compact(ranges: Seq<RangeMapping>, from: u128, to: u128)
    requires
        ranges_wf(ranges),
        from <= to,
        compact_bounds(ranges, from as int, to as int) is Some,
    ensures
        compact_bounds(ranges, from as int, to as int)->Some_0.0 >= 1,
        to_compact(ranges, from as int) matches Err(pos) ==> 0 <= pos < ranges.len(),
        to_compact(ranges, to as int) matches Err(pos) ==> 0 < pos <= ranges.len(),
{
    law_insert_position(ranges, from);
    law_insert_position(ranges, to);
    law_compact_value_of_covered(ranges, from);
    law_compact_value_of_covered(ranges, to);
    if let Err(pos) = to_compact(ranges, from as int) {
        if pos == ranges.len() {
            if covers(ranges, to as int) {
                let k = choose|k: int|
                    0 <= k < ranges.len() && (#[trigger] ranges[k]).contains(to as int);
                assert(ranges[k].end < from);
            }
            lemma_to_compact_between(ranges, to as int, pos);
        } else {
            lemma_compact_in_order(ranges, pos, pos);
        }
    }
    if let Err(pos) = to_compact(ranges, to as int) {
        if pos == 0 {
            lemma_to_compact_between(ranges, from as int, 0);
        }
    }
}

} // verus!
