//! What holds of a column from its training to its reading.
use vstd::arithmetic::power2::pow2;
use vstd::prelude::*;

use crate::bitpack::{field, field_in_bounds};
use crate::bits::{
    bit_len, bits_value, le_bits, lemma_bit_len_bound, lemma_bit_len_monotone,
    lemma_bits_value_of, lemma_le_bits_concat, lemma_le_bits_len, lemma_le_bits_subrange,
    lemma_packed_bits_at, lemma_packed_bits_len, packed_bits,
};
use crate::builder::{law_built_space_covers, least_cut, lemma_cover_len, spans, total_len};
use crate::compressor::{
    all_covered, compact_of, compacts, footer, is_compressed, is_covered, is_packed, packed_len,
    params_wf, trained_on, trained_with, values_of, COST_PER_BLANK_IN_BITS,
};
use crate::decompressor::{
    found_rows, has_footer, law_search_finds_values, lemma_rows_where_same, parse_footer, rows_where,
    same_value, Column,
};
use crate::cutting::{is_best_cutting, law_built_space_is_best};
use crate::error::CodecError;
use crate::order::{ascending, lemma_ascending, lemma_increasing_unique, strictly_increasing};
use crate::params::{encode_params, law_params_round_trip, Params};
use crate::space::{
    amplitude, covers, encode_ranges, from_compact, law_compact_value_of_covered,
    law_value_round_trip, lemma_compact_in_order, lemma_to_compact_at, ranges_laid_out,
    to_compact, RangeMapping,
};
use crate::wire::{
    le_bytes, le_value, lemma_le_bytes_len, lemma_le_round_trip, lemma_vint_bytes_len, vint_bytes,
};

verus! {

/// The values of a column are those that stand in one of its rows.
pub proof fn law_values_of_column(column: Seq<Option<u128>>)
    ensures
        values_of(column).finite(),
        forall|value: u128| #[trigger]
            values_of(column).contains(value) <==> exists|i: int|
                0 <= i < column.len() && #[trigger] column[i] == Some(value),
{
    lemma_values_of(column);
}

proof fn lemma_values_of(column: Seq<Option<u128>>)
    ensures
        values_of(column).finite(),
        forall|value: u128| #[trigger]
            values_of(column).contains(value) <==> column.contains(Some(value)),
    decreases column.len(),
{
    if column.len() > 0 {
        let shorter = column.drop_last();
        lemma_values_of(shorter);
        assert forall|value: u128| #[trigger]
            values_of(column).contains(value) <==> column.contains(Some(value)) by {
            if shorter.contains(Some(value)) {
                let i = choose|i: int| 0 <= i < shorter.len() && shorter[i] == Some(value);
                assert(column[i] == Some(value));
            }
            if column.contains(Some(value)) {
                let i = choose|i: int| 0 <= i < column.len() && column[i] == Some(value);
                if i < shorter.len() {
                    assert(shorter[i] == Some(value));
                }
            }
            if column.last() == Some(value) {
                assert(column[column.len() - 1] == Some(value));
            }
        }
    }
}

/// A compact space that was trained on a column covers every value of it: compressing the column
/// with it cannot fail.
pub proof fn law_training_covers_column(params: Params, column: Seq<Option<u128>>)
    requires
        trained_on(params, column),
    ensures
        all_covered(params.ranges, column),
{
    law_counted_training_covers_column(params, column, column.len() as int);
}

/// A compact space that was trained on a column covers every value of it, however many rows the
/// column counts.
pub proof fn law_counted_training_covers_column(
    params: Params,
    column: Seq<Option<u128>>,
    total_num_values: int,
)
    requires
        trained_with(params, column, total_num_values),
    ensures
        all_covered(params.ranges, column),
{
    let values = ascending(values_of(column));
    let least = least_cut(values, total_num_values, COST_PER_BLANK_IN_BITS as int);
    lemma_values_of(column);
    lemma_ascending(values_of(column));
    assert forall|i: int| 0 <= i < column.len() implies is_covered(
        params.ranges,
        #[trigger] column[i],
    ) by {
        if let Some(value) = column[i] {
            assert(column.contains(Some(value)));
            assert(values.to_set().contains(value));
            let k = choose|k: int| 0 <= k < values.len() && values[k] == value;
            law_built_space_covers(params.ranges, values, least);
            assert(covers(params.ranges, values[k] as int));
        }
    }
}

/// The parameters that a column gives give its smallest and its largest value: both occur in it,
/// and no value lies outside of them. Without a value both are 0.
pub proof fn law_training_bounds_column(params: Params, column: Seq<Option<u128>>)
    requires
        trained_on(params, column),
    ensures
        forall|i: int|
            0 <= i < column.len() ==> (#[trigger] column[i] matches Some(value)
                ==> params.min_value <= value <= params.max_value),
        (exists|i: int| 0 <= i < column.len() && #[trigger] column[i] is Some)
            ==> column.contains(Some(params.min_value)) && column.contains(Some(params.max_value)),
        (forall|i: int| 0 <= i < column.len() ==> #[trigger] column[i] is None) ==> params.min_value
            == 0 && params.max_value == 0,
{
    law_counted_training_bounds_column(params, column, column.len() as int);
}

/// The parameters that a column gives give its smallest and its largest value, or 0 if it has
/// none, however many rows the column counts. That number of rows is given too.
pub proof fn law_counted_training_bounds_column(
    params: Params,
    column: Seq<Option<u128>>,
    total_num_values: int,
)
    requires
        trained_with(params, column, total_num_values),
    ensures
        params.num_vals == total_num_values,
        forall|i: int|
            0 <= i < column.len() ==> (#[trigger] column[i] matches Some(value)
                ==> params.min_value <= value <= params.max_value),
        (exists|i: int| 0 <= i < column.len() && #[trigger] column[i] is Some)
            ==> column.contains(Some(params.min_value)) && column.contains(Some(params.max_value)),
        (forall|i: int| 0 <= i < column.len() ==> #[trigger] column[i] is None) ==> params.min_value
            == 0 && params.max_value == 0,
{
    let values = ascending(values_of(column));
    lemma_values_of(column);
    lemma_ascending(values_of(column));
    assert forall|i: int| 0 <= i < column.len() implies (#[trigger] column[i] matches Some(value)
        ==> params.min_value <= value <= params.max_value) by {
        if let Some(value) = column[i] {
            assert(column.contains(Some(value)));
            assert(values.to_set().contains(value));
            let k = choose|k: int| 0 <= k < values.len() && values[k] == value;
            assert(k > 0 ==> values[0] < values[k]);
            assert(k < values.len() - 1 ==> values[k] < values.last());
        }
    }
    if values.len() > 0 {
        assert(values.to_set().contains(values[0]));
        assert(values.to_set().contains(values.last()));
        assert(column.contains(Some(values[0])));
    } else {
        assert forall|i: int| 0 <= i < column.len() implies #[trigger] column[i] is None by {
            if let Some(value) = column[i] {
                assert(column.contains(Some(value)));
                assert(values.to_set().contains(value));
            }
        }
    }
}

/// The largest value of a column, or 0 if it has none, has the last compact value of the space
/// that was trained on it.
pub proof fn law_training_ends_with_max_value(params: Params, column: Seq<Option<u128>>)
    requires
        trained_on(params, column),
    ensures
        to_compact(params.ranges, params.max_value as int) == Ok::<int, int>(
            amplitude(params.ranges),
        ),
{
    law_counted_training_ends_with_max_value(params, column, column.len() as int);
}

/// The largest value of a column, or 0 if it has none, has the last compact value of the space
/// that was trained on it, however many rows the column counts.
pub proof fn law_counted_training_ends_with_max_value(
    params: Params,
    column: Seq<Option<u128>>,
    total_num_values: int,
)
    requires
        trained_with(params, column, total_num_values),
    ensures
        to_compact(params.ranges, params.max_value as int) == Ok::<int, int>(
            amplitude(params.ranges),
        ),
{
    let values = ascending(values_of(column));
    let least = least_cut(values, total_num_values, COST_PER_BLANK_IN_BITS as int);
    lemma_values_of(column);
    lemma_ascending(values_of(column));
    if values.len() > 0 {
        law_built_space_covers(params.ranges, values, least);
    } else {
        assert(spans(params.ranges)[0] == (params.ranges[0].start, params.ranges[0].end));
        assert(spans(params.ranges).len() == params.ranges.len());
        lemma_to_compact_at(params.ranges, 0, 0);
    }
}

/// The compact value of `val` is given by the bits that are there for it.
proof fn lemma_compact_fits(params: Params, val: Option<u128>)
    requires
        params_wf(params),
        is_covered(params.ranges, val),
    ensures
        compact_of(params.ranges, val) <= amplitude(params.ranges),
        bit_len(compact_of(params.ranges, val) as nat) <= params.num_bits,
        val matches Some(value) ==> compact_of(params.ranges, val) >= 1 && from_compact(
            params.ranges,
            compact_of(params.ranges, val) as int,
        ) == value,
        val is None ==> compact_of(params.ranges, val) == 0,
{
    lemma_compact_in_order(params.ranges, 0, params.ranges.len() - 1);
    if let Some(value) = val {
        law_compact_value_of_covered(params.ranges, value);
        law_value_round_trip(params.ranges, value);
    }
    lemma_bit_len_monotone(
        compact_of(params.ranges, val) as nat,
        amplitude(params.ranges) as nat,
    );
}

/// What was packed at `idx` is read there, whatever stands behind the packed values.
pub proof fn law_packed_values_read_back(
    bytes: Seq<u8>,
    values: Seq<u64>,
    width: nat,
    rest: Seq<u8>,
    idx: int,
)
    requires
        is_packed(bytes, values, width),
        width <= 56 || width == 64,
        0 <= idx < values.len(),
        bit_len(values[idx] as nat) <= width,
        idx * width <= u64::MAX,
    ensures
        field_in_bounds(bytes + rest, width, idx as nat),
        field(bytes + rest, width, idx as nat) == values[idx],
{
    if width > 0 {
        let all = bytes + rest;
        let place = idx * width;
        let addr = place / 8;
        let shift = place % 8;
        let packed = packed_bits(values, width);
        lemma_packed_bits_len(values, width);
        lemma_packed_bits_at(values, width, idx);
        assert(place + width <= values.len() * width);
        assert(0 <= place) by (nonlinear_arith)
            requires
                place == idx * width,
                0 <= idx,
        ;
        assert(addr + 8 <= packed_len(values.len(), width));
        assert(shift + width <= 64) by {
            if width == 64 {
                assert(place == 64 * idx);
            }
        }
        lemma_le_bits_len(bytes);
        lemma_le_bits_len(all);
        lemma_le_bits_subrange(all, addr, addr + 8);
        lemma_le_bits_subrange(all, 0, bytes.len() as int);
        assert(all.subrange(0, bytes.len() as int) =~= bytes);
        let read = le_bits(all).subrange(8 * addr, 8 * (addr + 8)).subrange(shift, shift + width);
        assert(read =~= le_bits(all).subrange(place, place + width));
        assert(le_bits(all).subrange(place, place + width) =~= le_bits(bytes).subrange(
            place,
            place + width,
        ));
        assert(le_bits(bytes).subrange(place, place + width) =~= packed.subrange(
            place,
            place + width,
        ));
        lemma_bits_value_of(values[idx] as nat, width);
    } else {
        assert(values[idx] == 0);
    }
}

proof fn lemma_encode_ranges_len(ranges: Seq<RangeMapping>, prev: int)
    ensures
        encode_ranges(ranges, prev).len() >= ranges.len(),
    decreases ranges.len(),
{
    if ranges.len() > 0 {
        lemma_encode_ranges_len(ranges.drop_first(), ranges[0].end as int);
        assert(vint_bytes((ranges[0].start - prev) as nat).len() >= 1);
    }
}

proof fn lemma_vint_u128_len(v: nat)
    requires
        v <= u128::MAX,
    ensures
        vint_bytes(v).len() <= 19,
{
    assert(vstd::arithmetic::power::pow(128, 19) > u128::MAX) by {
        reveal_with_fuel(vstd::arithmetic::power::pow, 20);
    }
    lemma_vint_bytes_len(v, 19);
}

proof fn lemma_encode_ranges_max_len(ranges: Seq<RangeMapping>, i: int)
    requires
        ranges_laid_out(ranges),
        0 <= i <= ranges.len(),
    ensures
        encode_ranges(
            ranges.skip(i),
            if i == 0 {
                0
            } else {
                ranges[i - 1].end as int
            },
        ).len() <= 38 * (ranges.len() - i),
    decreases ranges.len() - i,
{
    if i < ranges.len() {
        let prev = if i == 0 {
            0
        } else {
            ranges[i - 1].end as int
        };
        assert(ranges.skip(i).drop_first() =~= ranges.skip(i + 1));
        lemma_encode_ranges_max_len(ranges, i + 1);
        lemma_vint_u128_len((ranges[i].start - prev) as nat);
        lemma_vint_u128_len((ranges[i].end - ranges[i].start) as nat);
    }
}

/// Each range has a compact value of its own.
proof fn lemma_last_compact_counts_ranges(ranges: Seq<RangeMapping>, i: int)
    requires
        ranges_laid_out(ranges),
        0 <= i < ranges.len(),
    ensures
        i + 1 <= ranges[i].last_compact() <= u64::MAX,
    decreases i,
{
    lemma_compact_in_order(ranges, i, i);
    if i > 0 {
        lemma_last_compact_counts_ranges(ranges, i - 1);
        lemma_compact_in_order(ranges, i - 1, i);
    }
}

proof fn lemma_values_of_len(column: Seq<Option<u128>>)
    ensures
        values_of(column).finite(),
        values_of(column).len() <= column.len(),
    decreases column.len(),
{
    if column.len() > 0 {
        lemma_values_of_len(column.drop_last());
    }
}

/// The parameters that a column gives are not longer than its length allows: a range takes at most
/// 38 bytes, there are no more ranges than rows, and what else there is takes at most 100 bytes.
/// Those of a column of a hundred million rows are well below the length that a footer can have.
pub proof fn law_footer_length(params: Params, column: Seq<Option<u128>>)
    requires
        trained_on(params, column),
    ensures
        encode_params(params).len() <= 100 + 38 * (column.len() + 1),
        column.len() <= 100_000_000 ==> encode_params(params).len() <= u32::MAX,
{
    law_counted_footer_length(params, column, column.len() as int);
}

/// The parameters that a column gives are not longer than its length allows, however many rows the
/// column counts.
pub proof fn law_counted_footer_length(
    params: Params,
    column: Seq<Option<u128>>,
    total_num_values: int,
)
    requires
        trained_with(params, column, total_num_values),
    ensures
        encode_params(params).len() <= 100 + 38 * (column.len() + 1),
        column.len() <= 100_000_000 ==> encode_params(params).len() <= u32::MAX,
{
    let values = ascending(values_of(column));
    let least = least_cut(values, total_num_values, COST_PER_BLANK_IN_BITS as int);
    let ranges = params.ranges;
    lemma_values_of_len(column);
    lemma_ascending(values_of(column));
    assert(values.no_duplicates());
    values.unique_seq_to_set();
    lemma_cover_len(values, least);
    assert(spans(ranges).len() == ranges.len());
    lemma_encode_ranges_max_len(ranges, 0);
    assert(ranges.skip(0) =~= ranges);
    lemma_le_bytes_len(0, 8);
    lemma_vint_u128_len(params.min_value as nat);
    lemma_vint_u128_len(params.max_value as nat);
    lemma_vint_u128_len(params.num_vals as nat);
    lemma_last_compact_counts_ranges(ranges, ranges.len() - 1);
    lemma_vint_u128_len(ranges.len());
}

/// The footer of a compressed column is read back.
pub proof fn law_footer_reads_back(bytes: Seq<u8>, vals: Seq<Option<u128>>, params: Params)
    requires
        params_wf(params),
        is_compressed(bytes, vals, params),
        encode_params(params).len() <= u32::MAX,
    ensures
        has_footer(bytes),
        parse_footer(bytes) == Ok::<Params, CodecError>(params),
{
    let len = packed_len(vals.len(), params.num_bits as nat) as int;
    let encoded = encode_params(params);
    let end = bytes.len() - 4;
    lemma_le_bytes_len(encoded.len(), 4);
    vstd::arithmetic::div_mod::lemma_small_mod(encoded.len(), 0x1_0000_0000);
    assert(bytes =~= bytes.take(len) + footer(params));
    assert(bytes.skip(end) =~= le_bytes(encoded.len(), 4));
    assert(vstd::arithmetic::power::pow(256, 4) == 0x1_0000_0000) by {
        reveal_with_fuel(vstd::arithmetic::power::pow, 5);
    }
    lemma_le_round_trip(encoded.len(), 4);
    assert(bytes.subrange(end - encoded.len(), end) =~= encoded);
    assert(params.ranges.len() <= u64::MAX) by {
        lemma_encode_ranges_len(params.ranges, 0);
    }
    law_params_round_trip(params, Seq::empty());
    assert(encoded + Seq::<u8>::empty() =~= encoded);
}

/// Every row of a compressed column reads as the value that was written there.
pub proof fn law_row_reads_back(
    bytes: Seq<u8>,
    vals: Seq<Option<u128>>,
    params: Params,
    idx: int,
)
    requires
        params_wf(params),
        all_covered(params.ranges, vals),
        is_compressed(bytes, vals, params),
        0 <= idx < vals.len(),
        idx * params.num_bits <= u64::MAX,
    ensures
        ({
            let column = Column { bytes, params };
            &&& column.readable(idx)
            &&& column.compact(idx) <= amplitude(params.ranges)
            &&& same_value(vals[idx], column.value(idx))
        }),
{
    let len = packed_len(vals.len(), params.num_bits as nat) as int;
    let values = compacts(params.ranges, vals);
    assert(is_covered(params.ranges, vals[idx]));
    assert(values[idx] == compact_of(params.ranges, vals[idx]));
    lemma_compact_fits(params, vals[idx]);
    law_packed_values_read_back(
        bytes.take(len),
        values,
        params.num_bits as nat,
        bytes.skip(len),
        idx,
    );
    assert(bytes =~= bytes.take(len) + bytes.skip(len));
}

proof fn lemma_row_of_column(
    bytes: Seq<u8>,
    column: Seq<Option<u128>>,
    params: Params,
    idx: int,
)
    requires
        params_wf(params),
        all_covered(params.ranges, column),
        is_compressed(bytes, column, params),
        column.len() * params.num_bits <= u64::MAX,
        0 <= idx < column.len(),
    ensures
        ({
            let read = Column { bytes, params };
            &&& read.readable(idx)
            &&& read.compact(idx) <= amplitude(params.ranges)
            &&& same_value(column[idx], read.value(idx))
        }),
{
    assert(idx * params.num_bits <= column.len() * params.num_bits) by (nonlinear_arith)
        requires
            0 <= idx < column.len(),
            0 <= params.num_bits,
    ;
    law_row_reads_back(bytes, column, params, idx);
}

/// Values that are compressed open with the parameters that they were written with, and every row
/// reads as the value that was written there. If the parameters count no more rows than were
/// written, all rows that they count are there.
pub proof fn law_written_values_read_back(
    bytes: Seq<u8>,
    vals: Seq<Option<u128>>,
    params: Params,
)
    requires
        params_wf(params),
        all_covered(params.ranges, vals),
        is_compressed(bytes, vals, params),
        encode_params(params).len() <= u32::MAX,
        vals.len() * params.num_bits <= u64::MAX,
    ensures
        has_footer(bytes),
        parse_footer(bytes) == Ok::<Params, CodecError>(params),
        params.num_vals <= vals.len() ==> (Column { bytes, params }).wf(),
        forall|idx: int|
            0 <= idx < vals.len() ==> #[trigger] (Column { bytes, params }).readable(idx),
        forall|idx: int|
            0 <= idx < vals.len() ==> same_value(
                #[trigger] vals[idx],
                (Column { bytes, params }).value(idx),
            ),
{
    let read = Column { bytes, params };
    law_footer_reads_back(bytes, vals, params);
    assert forall|idx: int| 0 <= idx < vals.len() implies #[trigger] read.in_bounds(idx) by {
        lemma_row_of_column(bytes, vals, params, idx);
    }
    assert forall|idx: int| 0 <= idx < vals.len() implies #[trigger] read.readable(idx) by {
        lemma_row_of_column(bytes, vals, params, idx);
    }
    assert forall|idx: int| 0 <= idx < vals.len() implies #[trigger] read.compact(idx)
        <= amplitude(params.ranges) by {
        lemma_row_of_column(bytes, vals, params, idx);
    }
    assert forall|idx: int| 0 <= idx < vals.len() implies same_value(
        #[trigger] vals[idx],
        read.value(idx),
    ) by {
        lemma_row_of_column(bytes, vals, params, idx);
    }
}

/// A search of compressed values finds, of the rows that the parameters count, those where a value
/// within its bounds was written, and no others. The parameters count no more rows than were
/// written.
pub proof fn law_written_values_are_searched(
    bytes: Seq<u8>,
    vals: Seq<Option<u128>>,
    params: Params,
    from: u128,
    to: u128,
)
    requires
        params_wf(params),
        params.num_vals <= vals.len(),
        all_covered(params.ranges, vals),
        is_compressed(bytes, vals, params),
        encode_params(params).len() <= u32::MAX,
        vals.len() * params.num_bits <= u64::MAX,
    ensures
        found_rows(Column { bytes, params }, from as int, to as int) == rows_where(
            |idx: int| vals[idx] matches Some(value) && from <= value <= to,
            params.num_vals as nat,
        ),
{
    let read = Column { bytes, params };
    law_written_values_read_back(bytes, vals, params);
    law_search_finds_values(read, from, to);
    let by_value = |idx: int| read.holds_value_in(idx, from as int, to as int);
    let in_vals = |idx: int| vals[idx] matches Some(value) && from <= value <= to;
    assert forall|idx: int| 0 <= idx < params.num_vals implies #[trigger] by_value(idx) == in_vals(
        idx,
    ) by {
        assert(same_value(vals[idx], read.value(idx)));
    }
    lemma_rows_where_same(by_value, in_vals, params.num_vals as nat);
}

/// A column that is compressed in the space that it was trained on opens with the parameters of
/// its training, and every row of it reads as the value that stands there in the column.
pub proof fn law_column_reads_back(bytes: Seq<u8>, column: Seq<Option<u128>>, params: Params)
    requires
        trained_on(params, column),
        is_compressed(bytes, column, params),
        encode_params(params).len() <= u32::MAX,
        column.len() * params.num_bits <= u64::MAX,
    ensures
        has_footer(bytes),
        parse_footer(bytes) == Ok::<Params, CodecError>(params),
        (Column { bytes, params }).wf(),
        forall|idx: int|
            0 <= idx < column.len() ==> #[trigger] (Column { bytes, params }).readable(idx),
        forall|idx: int|
            0 <= idx < column.len() ==> same_value(
                #[trigger] column[idx],
                (Column { bytes, params }).value(idx),
            ),
{
    law_training_covers_column(params, column);
    law_written_values_read_back(bytes, column, params);
}

/// A column that is compressed in the space that it was trained on reads back, however many rows
/// it counts. If it counts no more rows than it has, all that it counts are there.
pub proof fn law_counted_column_reads_back(
    bytes: Seq<u8>,
    column: Seq<Option<u128>>,
    params: Params,
    total_num_values: int,
)
    requires
        trained_with(params, column, total_num_values),
        is_compressed(bytes, column, params),
        encode_params(params).len() <= u32::MAX,
        column.len() * params.num_bits <= u64::MAX,
    ensures
        has_footer(bytes),
        parse_footer(bytes) == Ok::<Params, CodecError>(params),
        total_num_values <= column.len() ==> (Column { bytes, params }).wf(),
        forall|idx: int|
            0 <= idx < column.len() ==> #[trigger] (Column { bytes, params }).readable(idx),
        forall|idx: int|
            0 <= idx < column.len() ==> same_value(
                #[trigger] column[idx],
                (Column { bytes, params }).value(idx),
            ),
{
    law_counted_training_covers_column(params, column, total_num_values);
    law_written_values_read_back(bytes, column, params);
}

/// A search of a compressed column finds the rows whose value in the column lies within its
/// bounds, and no others.
pub proof fn law_column_is_searched(
    bytes: Seq<u8>,
    column: Seq<Option<u128>>,
    params: Params,
    from: u128,
    to: u128,
)
    requires
        trained_on(params, column),
        is_compressed(bytes, column, params),
        encode_params(params).len() <= u32::MAX,
        column.len() * params.num_bits <= u64::MAX,
    ensures
        found_rows(Column { bytes, params }, from as int, to as int) == rows_where(
            |idx: int| column[idx] matches Some(value) && from <= value <= to,
            column.len(),
        ),
{
    law_training_covers_column(params, column);
    law_written_values_are_searched(bytes, column, params, from, to);
}

/// A search of a compressed column finds, of the rows that it counts, those whose value in the
/// column lies within its bounds, and no others. It counts no more rows than it has.
pub proof fn law_counted_column_is_searched(
    bytes: Seq<u8>,
    column: Seq<Option<u128>>,
    params: Params,
    total_num_values: int,
    from: u128,
    to: u128,
)
    requires
        trained_with(params, column, total_num_values),
        total_num_values <= column.len(),
        is_compressed(bytes, column, params),
        encode_params(params).len() <= u32::MAX,
        column.len() * params.num_bits <= u64::MAX,
    ensures
        found_rows(Column { bytes, params }, from as int, to as int) == rows_where(
            |idx: int| column[idx] matches Some(value) && from <= value <= to,
            total_num_values as nat,
        ),
{
    law_counted_training_covers_column(params, column, total_num_values);
    law_written_values_are_searched(bytes, column, params, from, to);
}

/// The rows of a trained column take as few bits as will do: with one bit less, the largest compact
/// value could not be written. Only compact values of more than 56 bits take 64.
pub proof fn law_training_takes_fewest_bits(
    params: Params,
    column: Seq<Option<u128>>,
    total_num_values: int,
)
    requires
        trained_with(params, column, total_num_values),
    ensures
        bit_len(amplitude(params.ranges) as nat) <= 56 ==> params.num_bits == bit_len(
            amplitude(params.ranges) as nat,
        ),
        amplitude(params.ranges) < pow2(56) ==> 1 <= params.num_bits <= 56 && pow2(
            (params.num_bits - 1) as nat,
        ) <= amplitude(params.ranges) < pow2(params.num_bits as nat),
        amplitude(params.ranges) >= pow2(56) ==> params.num_bits == 64,
{
    let top = amplitude(params.ranges) as nat;
    lemma_compact_in_order(params.ranges, 0, params.ranges.len() - 1);
    lemma_bit_len_bound(top, 56);
    lemma_bit_len_bound(top, params.num_bits as nat);
    assert(top >= 1);
    assert(bit_len(top) >= 1);
    if params.num_bits >= 1 {
        lemma_bit_len_bound(top, (params.num_bits - 1) as nat);
    }
}

/// A compressed column that was trained on is as long as its rows, at the fewest bits that will do,
/// rounded up to whole bytes, seven bytes of padding, the parameters and four bytes more.
pub proof fn law_compressed_length(
    bytes: Seq<u8>,
    vals: Seq<Option<u128>>,
    params: Params,
    column: Seq<Option<u128>>,
    total_num_values: int,
)
    requires
        trained_with(params, column, total_num_values),
        is_compressed(bytes, vals, params),
        amplitude(params.ranges) < pow2(56),
    ensures
        bytes.len() == (vals.len() * bit_len(amplitude(params.ranges) as nat) + 7) / 8 + 7
            + encode_params(params).len() + 4,
{
    law_training_takes_fewest_bits(params, column, total_num_values);
    lemma_bit_len_bound(amplitude(params.ranges) as nat, 56);
    lemma_le_bytes_len(encode_params(params).len() % 0x1_0000_0000, 4);
    let len = packed_len(vals.len(), params.num_bits as nat) as int;
    assert(bytes =~= bytes.take(len) + bytes.skip(len));
}

/// The compact space that a column is trained to is made of the best cutting of the space of its
/// values, where a cut costs 36 bits: no other way to cut blanks of three numbers or more out of it
/// takes fewer bits over all the rows. Only where even the best cutting leaves more numbers than 64
/// bits can count, nothing but the values themselves is left. Without values, the space is the
/// number 0.
pub proof fn law_training_cuts_best(
    params: Params,
    column: Seq<Option<u128>>,
    total_num_values: int,
    values: Seq<u128>,
) -> (best: Seq<(u128, u128)>)
    requires
        trained_with(params, column, total_num_values),
        strictly_increasing(values),
        forall|value: u128| #[trigger]
            values.contains(value) <==> column.contains(Some(value)),
    ensures
        values.len() == 0 ==> params.ranges == seq![
            RangeMapping { start: 0, end: 0, compact_start: 1 },
        ],
        values.len() > 0 ==> {
            &&& is_best_cutting(values, best, total_num_values, 36)
            &&& total_len(best) <= u64::MAX ==> spans(params.ranges) == best
            &&& total_len(best) > u64::MAX ==> forall|x: u128| #[trigger]
                covers(params.ranges, x as int) ==> values.contains(x)
        },
{
    let set = values_of(column);
    let ranges = params.ranges;
    lemma_values_of(column);
    lemma_ascending(set);
    assert forall|value: u128| values.to_set().contains(value) <==> set.contains(value) by {
        assert(values.contains(value) <==> column.contains(Some(value)));
    }
    assert(values.to_set() =~= set);
    lemma_increasing_unique(values, ascending(set));
    if values.len() > 0 {
        law_built_space_is_best(ranges, values, params.num_vals, COST_PER_BLANK_IN_BITS)
    } else {
        assert(spans(ranges).len() == ranges.len());
        assert(spans(ranges)[0] == (ranges[0].start, ranges[0].end));
        assert(ranges =~= seq![RangeMapping { start: 0, end: 0, compact_start: 1 }]);
        Seq::empty()
    }
}

/// What compressed values look like, bit by bit: one after the other, each with as many bits as the
/// parameters say and its lowest bit first, the compact values, with 0 for a missing value; behind
/// them zeros up to whole bytes and seven bytes of zeros; then the parameters and, in four bytes,
/// the 32 lowest bits of their length.
pub proof fn law_compressed_bytes(bytes: Seq<u8>, vals: Seq<Option<u128>>, params: Params)
    requires
        params_wf(params),
        all_covered(params.ranges, vals),
        is_compressed(bytes, vals, params),
    ensures
        ({
            let width = params.num_bits as int;
            let encoded = encode_params(params);
            let end = (vals.len() * width + 7) / 8 + 7;
            &&& bytes.len() == end + encoded.len() + 4
            &&& forall|idx: int| #![trigger vals[idx]]
                0 <= idx < vals.len() ==> ({
                    let compact = bits_value(
                        le_bits(bytes).subrange(idx * width, idx * width + width),
                    ) as int;
                    match vals[idx] {
                        Some(value) => to_compact(params.ranges, value as int) == Ok::<int, int>(
                            compact,
                        ),
                        None => compact == 0,
                    }
                })
            &&& forall|bit: int|
                vals.len() * width <= bit < 8 * end ==> !#[trigger] le_bits(bytes)[bit]
            &&& bytes.subrange(end, bytes.len() - 4) == encoded
            &&& le_value(bytes.skip(bytes.len() - 4)) == encoded.len() % 0x1_0000_0000
        }),
{
    let width = params.num_bits as int;
    let encoded = encode_params(params);
    let values = compacts(params.ranges, vals);
    let len = packed_len(vals.len(), params.num_bits as nat) as int;
    let packed = packed_bits(values, params.num_bits as nat);
    let length = encoded.len() % 0x1_0000_0000;
    assert(0 <= vals.len() * width) by (nonlinear_arith)
        requires
            0 <= width,
    ;
    lemma_le_bytes_len(length, 4);
    assert(bytes =~= bytes.take(len) + footer(params));
    assert(bytes.skip(bytes.len() - 4) =~= le_bytes(length, 4));
    assert(vstd::arithmetic::power::pow(256, 4) == 0x1_0000_0000) by {
        reveal_with_fuel(vstd::arithmetic::power::pow, 5);
    }
    lemma_le_round_trip(length, 4);
    assert(bytes.subrange(len, bytes.len() - 4) =~= encoded);
    lemma_le_bits_concat(bytes.take(len), footer(params));
    lemma_le_bits_len(bytes.take(len));
    lemma_packed_bits_len(values, params.num_bits as nat);
    assert forall|idx: int| #![trigger vals[idx]] 0 <= idx < vals.len() implies ({
        let compact = bits_value(le_bits(bytes).subrange(idx * width, idx * width + width)) as int;
        match vals[idx] {
            Some(value) => to_compact(params.ranges, value as int) == Ok::<int, int>(compact),
            None => compact == 0,
        }
    }) by {
        assert(is_covered(params.ranges, vals[idx]));
        assert(values[idx] == compact_of(params.ranges, vals[idx]));
        lemma_compact_fits(params, vals[idx]);
        lemma_packed_bits_at(values, params.num_bits as nat, idx);
        lemma_bits_value_of(values[idx] as nat, params.num_bits as nat);
        assert(0 <= idx * width) by (nonlinear_arith)
            requires
                0 <= idx,
                0 <= width,
        ;
        assert(le_bits(bytes).subrange(idx * width, idx * width + width) =~= packed.subrange(
            idx * width,
            idx * width + width,
        ));
        if let Some(value) = vals[idx] {
            law_compact_value_of_covered(params.ranges, value);
        }
    }
    assert forall|bit: int| vals.len() * width <= bit < 8 * len implies !#[trigger] le_bits(
        bytes,
    )[bit] by {
        assert(le_bits(bytes)[bit] == le_bits(bytes.take(len))[bit]);
    }
}

} // verus!
