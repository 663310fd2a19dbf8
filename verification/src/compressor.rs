//! Writes a column of numbers, some of which may be missing, in its compact space.
use std::collections::BTreeSet;

use tantivy_bitpacker::BitPacker;
use vstd::prelude::*;

use crate::bitpack::{packer_close, packer_write, packing_width, pending_bits};
use crate::bits::{
    bit_len, bits_of, le_bits, lemma_bit_len_bound, lemma_bit_len_monotone, lemma_le_bits_concat,
    lemma_le_bits_len, lemma_le_bits_prefix, lemma_packed_bits_len, packed_bits, zero_bits,
};
use crate::builder::{cover, get_compact_space, law_built_space_covers, least_cut, spans};
use crate::error::CodecError;
use crate::order::{ascending, sorted_values};
use crate::params::{encode_params, IPCodecParams, Params};
use crate::space::{
    amplitude, covers, law_compact_value_of_covered, lemma_compact_in_order, ranges_wf, to_compact,
    CompactSpace, RangeMapping,
};
use crate::wire::{le_bytes, write_u32};

verus! {

/// The compact value that stands for a missing value.
pub const NULL_VALUE_COMPACT_SPACE: u64 = 0;

/// The cost per blank is quite hard actually, since blanks are delta encoded, the actual cost of
/// blanks depends on the number of blanks.
///
/// The number is taken by looking at a real dataset. It is optimized for larger datasets.
pub const COST_PER_BLANK_IN_BITS: usize = 36;

/// Writes the values of one column.
pub struct CompactSpaceCompressor {
    params: IPCodecParams,
}

/// Writes the values of one column one by one.
pub struct ColumnWriter {
    compressor: CompactSpaceCompressor,
    bitpacker: BitPacker,
}

impl View for CompactSpaceCompressor {
    type V = Params;

    closed spec fn view(&self) -> Params {
        self.params@
    }
}

/// The values of a column that are not missing.
pub open spec fn values_of(column: Seq<Option<u128>>) -> Set<u128>
    decreases column.len(),
{
    if column.len() == 0 {
        Set::empty()
    } else {
        match column.last() {
            Some(value) => values_of(column.drop_last()).insert(value),
            None => values_of(column.drop_last()),
        }
    }
}

/// Whether `params` are those of a column: its compact space, the smallest and the largest of
/// its values, their number, and the width that the compact values take.
pub open spec fn trained_on(params: Params, column: Seq<Option<u128>>) -> bool {
    trained_with(params, column, column.len() as int)
}

/// Whether `params` are those of a column that counts `total_num_values` rows.
pub open spec fn trained_with(
    params: Params,
    column: Seq<Option<u128>>,
    total_num_values: int,
) -> bool {
    let values = ascending(values_of(column));
    &&& params_wf(params)
    &&& spans(params.ranges) == cover(
        values,
        least_cut(values, total_num_values, COST_PER_BLANK_IN_BITS as int),
    )
    &&& params.min_value == if values.len() == 0 {
        0
    } else {
        values[0]
    }
    &&& params.max_value == if values.len() == 0 {
        0
    } else {
        values.last()
    }
    &&& params.num_vals == total_num_values
    &&& params.num_bits == packing_width(amplitude(params.ranges) as nat)
}

/// Whether `params` can be used to write with: there is a compact space, and its compact values
/// fit in the bits that they are given.
pub open spec fn params_wf(params: Params) -> bool {
    &&& ranges_wf(params.ranges)
    &&& params.ranges.len() > 0
    &&& params.num_bits <= 64
    &&& bit_len(amplitude(params.ranges) as nat) <= params.num_bits
    &&& params.num_bits <= 56 || params.num_bits == 64
}

/// Whether the compact space has a compact value for `val`, as it has for every missing value.
pub open spec fn is_covered(ranges: Seq<RangeMapping>, val: Option<u128>) -> bool {
    match val {
        Some(value) => covers(ranges, value as int),
        None => true,
    }
}

/// The compact value of `val`.
pub open spec fn compact_of(ranges: Seq<RangeMapping>, val: Option<u128>) -> u64 {
    match val {
        Some(value) => to_compact(ranges, value as int)->Ok_0 as u64,
        None => NULL_VALUE_COMPACT_SPACE,
    }
}

/// The compact values of `vals`.
pub open spec fn compacts(ranges: Seq<RangeMapping>, vals: Seq<Option<u128>>) -> Seq<u64> {
    vals.map_values(|val: Option<u128>| compact_of(ranges, val))
}

/// Whether every one of `vals` has a compact value.
pub open spec fn all_covered(ranges: Seq<RangeMapping>, vals: Seq<Option<u128>>) -> bool {
    forall|i: int| 0 <= i < vals.len() ==> is_covered(ranges, #[trigger] vals[i])
}

/// The number of bytes that `count` packed values of `width` bits take, with the padding behind
/// them.
pub open spec fn packed_len(count: nat, width: nat) -> nat {
    (count * width + 7) / 8 + 7
}

/// Whether `bytes` are the values, packed with `width` bits each and followed by zeros.
pub open spec fn is_packed(bytes: Seq<u8>, values: Seq<u64>, width: nat) -> bool {
    &&& bytes.len() == packed_len(values.len(), width)
    &&& le_bits(bytes) == packed_bits(values, width) + zero_bits(
        (8 * packed_len(values.len(), width) - values.len() * width) as nat,
    )
}

/// The footer: the parameters and, in four bytes, the 32 lowest bits of their length.
pub open spec fn footer(params: Params) -> Seq<u8> {
    encode_params(params) + le_bytes(encode_params(params).len() % 0x1_0000_0000, 4)
}

/// Whether `bytes` are `vals` as they are written with `params`: the packed compact values, and
/// behind them the footer.
pub open spec fn is_compressed(
    bytes: Seq<u8>,
    vals: Seq<Option<u128>>,
    params: Params,
) -> bool {
    let len = packed_len(vals.len(), params.num_bits as nat) as int;
    &&& len <= bytes.len()
    &&& is_packed(bytes.take(len), compacts(params.ranges, vals), params.num_bits as nat)
    &&& bytes.skip(len) == footer(params)
}

/// The place of the first of `vals` that has no compact value, or their number if all have one.
pub open spec fn first_uncovered(ranges: Seq<RangeMapping>, vals: Seq<Option<u128>>) -> nat
    decreases vals.len(),
{
    if vals.len() == 0 || !is_covered(ranges, vals[0]) {
        0
    } else {
        1 + first_uncovered(ranges, vals.drop_first())
    }
}

impl CompactSpaceCompressor {
    /// Whether the compressor can write.
    pub open spec fn wf(&self) -> bool {
        params_wf(self@)
    }

    /// Builds the compact space of a column.
    pub fn train_from(column: &[Option<u128>]) -> (compressor: CompactSpaceCompressor)
        ensures
            compressor.wf(),
            trained_on(compressor@, column@),
            compressor@.num_vals == column@.len(),
            compressor@.num_bits == if bit_len(amplitude(compressor@.ranges) as nat) <= 56 {
                bit_len(amplitude(compressor@.ranges) as nat)
            } else {
                64
            },
    {
        Self::train_with_count(column, column.len() as u64)
    }

    /// Builds the compact space of a column that counts `total_num_values` rows.
    pub fn train_with_count(column: &[Option<u128>], total_num_values: u64) -> (compressor:
        CompactSpaceCompressor)
        ensures
            compressor.wf(),
            trained_with(compressor@, column@, total_num_values as int),
            compressor@.num_vals == total_num_values,
            compressor@.num_bits == if bit_len(amplitude(compressor@.ranges) as nat) <= 56 {
                bit_len(amplitude(compressor@.ranges) as nat)
            } else {
                64
            },
    {
        let mut values_sorted: BTreeSet<u128> = BTreeSet::new();
        let mut i: usize = 0;
        while i < column.len()
            invariant
                i <= column@.len(),
                values_sorted@ == values_of(column@.take(i as int)),
            decreases column@.len() - i,
        {
            assert(column@.take(i + 1).drop_last() =~= column@.take(i as int));
            if let Some(value) = column[i] {
                insert_value(&mut values_sorted, value);
            }
            i += 1;
        }
        assert(column@.take(i as int) =~= column@);
        let compact_space: CompactSpace = get_compact_space(
            &values_sorted,
            total_num_values,
            COST_PER_BLANK_IN_BITS,
        );
        let sorted: Vec<u128> = sorted_values(&values_sorted);
        let min_value: u128 = if sorted.len() == 0 {
            0
        } else {
            sorted[0]
        };
        let max_value: u128 = if sorted.len() == 0 {
            0
        } else {
            sorted[sorted.len() - 1]
        };
        proof {
            assert(spans(compact_space@).len() == compact_space@.len());
            if sorted@.len() > 0 {
                law_built_space_covers(
                    compact_space@,
                    sorted@,
                    least_cut(sorted@, total_num_values as int, COST_PER_BLANK_IN_BITS as int),
                );
            }
            lemma_compact_in_order(compact_space@, 0, compact_space@.len() - 1);
            lemma_u64_bit_len(amplitude(compact_space@) as u64);
        }
        let amplitude_compact_space: u128 = compact_space.amplitude_compact_space();
        let num_bits: u8 = tantivy_bitpacker::compute_num_bits(amplitude_compact_space as u64);
        CompactSpaceCompressor {
            params: IPCodecParams::new(
                compact_space,
                min_value,
                max_value,
                total_num_values,
                num_bits,
            ),
        }
    }

    /// Begins to write values in the compact space.
    pub fn start(self) -> (writer: ColumnWriter)
        ensures
            writer.params() == self@,
            writer.pending() == Seq::<bool>::empty(),
    {
        ColumnWriter { compressor: self, bitpacker: BitPacker::new() }
    }

    /// Appends the footer.
    fn write_footer(self, writer: &mut Vec<u8>)
        ensures
            final(writer)@ == old(writer)@ + footer(self@),
    {
        proof {
            use_type_invariant(&self);
        }
        let before: usize = writer.len();
        self.params.serialize(writer);
        let footer_len: u64 = (writer.len() - before) as u64;
        assert(footer_len as u32 == footer_len % 0x1_0000_0000u64) by (bit_vector);
        write_u32(
            #[verifier::truncate]
            (footer_len as u32),
            writer,
        );
        assert(writer@ =~= old(writer)@ + footer(self@));
    }

    /// Writes values in the compact space.
    pub fn compress(self, vals: &[Option<u128>]) -> (result: Result<Vec<u8>, CodecError>)
        ensures
            result is Ok <==> all_covered(self@.ranges, vals@),
            result matches Ok(bytes) ==> is_compressed(bytes@, vals@, self@),
            result matches Err(error) ==> error == CodecError::ValueNotCovered,
    {
        let mut output: Vec<u8> = Vec::new();
        match self.compress_into(vals, &mut output) {
            Ok(()) => {
                assert(output@.skip(0) =~= output@);
                Ok(output)
            },
            Err(error) => Err(error),
        }
    }

    /// Appends values in the compact space. If one of them lies outside of it, an error is
    /// returned; of what was packed of the values before it, the whole words of 64 bits have then
    /// been appended.
    pub fn compress_into(self, vals: &[Option<u128>], write: &mut Vec<u8>) -> (result: Result<
        (),
        CodecError,
    >)
        ensures
            old(write)@.is_prefix_of(final(write)@),
            result is Ok <==> all_covered(self@.ranges, vals@),
            result is Ok ==> is_compressed(
                final(write)@.skip(old(write)@.len() as int),
                vals@,
                self@,
            ),
            result matches Err(error) ==> {
                let before = vals@.take(first_uncovered(self@.ranges, vals@) as int);
                let packed = packed_bits(compacts(self@.ranges, before), self@.num_bits as nat);
                let written = le_bits(final(write)@.skip(old(write)@.len() as int));
                &&& error == CodecError::ValueNotCovered
                &&& written.is_prefix_of(packed)
                &&& packed.len() < written.len() + 64
                &&& written.len() % 64 == 0
            },
    {
        let ghost params = self@;
        let ghost width = params.num_bits as nat;
        let mut writer: ColumnWriter = self.start();
        let mut i: usize = 0;
        proof {
            assert(vals@.skip(0) =~= vals@);
            assert(compacts(params.ranges, vals@.take(0)) =~= Seq::empty());
            assert(le_bits(write@) + writer.pending() =~= le_bits(old(write)@) + packed_bits(
                Seq::empty(),
                width,
            ));
        }
        while i < vals.len()
            invariant
                i <= vals@.len(),
                params == self@,
                writer.params() == params,
                width == params.num_bits,
                forall|j: int| 0 <= j < i ==> is_covered(params.ranges, #[trigger] vals@[j]),
                first_uncovered(params.ranges, vals@) == i + first_uncovered(
                    params.ranges,
                    vals@.skip(i as int),
                ),
                old(write)@.is_prefix_of(write@),
                (write@.len() - old(write)@.len()) % 8 == 0,
                le_bits(write@) + writer.pending() == le_bits(old(write)@) + packed_bits(
                    compacts(params.ranges, vals@.take(i as int)),
                    width,
                ),
                writer.pending().len() < 64,
            decreases vals@.len() - i,
        {
            let ghost packed = packed_bits(compacts(params.ranges, vals@.take(i as int)), width);
            proof {
                assert(vals@.skip(i as int).drop_first() =~= vals@.skip(i + 1));
                lemma_compacts_step(params.ranges, vals@, i as int, width);
            }
            if let Err(error) = writer.write(vals[i], write) {
                proof {
                    assert(!is_covered(params.ranges, vals@[i as int]));
                    lemma_written_prefix(old(write)@, write@, writer.pending(), packed);
                }
                return Err(error);
            }
            proof {
                let bits = bits_of(compact_of(params.ranges, vals@[i as int]) as nat, width);
                assert(le_bits(old(write)@) + packed + bits =~= le_bits(old(write)@) + (packed
                    + bits));
            }
            i += 1;
        }
        proof {
            assert(vals@.take(i as int) =~= vals@);
            assert(vals@.skip(i as int) =~= Seq::empty());
        }
        let ghost pending = writer.pending();
        let ghost unclosed = write@;
        writer.finish(write);
        proof {
            let start = old(write)@.len() as int;
            let len = packed_len(vals@.len(), width) as int;
            let closed = write@.take(closed_len(unclosed.len(), pending.len()) as int);
            lemma_closed_is_packed(
                old(write)@,
                unclosed,
                pending,
                closed,
                compacts(params.ranges, vals@),
                width,
            );
            let suffix = write@.skip(start);
            assert(suffix.take(len) =~= closed.skip(start));
            assert(suffix.skip(len) =~= footer(params));
            assert(old(write)@.is_prefix_of(write@)) by {
                assert(closed.take(start) =~= old(write)@);
                assert(write@.take(start) =~= old(write)@);
            }
        }
        Ok(())
    }

    #[verifier::type_invariant]
    spec fn inv(self) -> bool {
        params_wf(self.params@)
    }
}

/// The length of an output of `len` bytes once the `pending` bits behind it are filled up to whole
/// bytes and followed by seven more.
pub open spec fn closed_len(len: nat, pending: nat) -> nat {
    len + (pending + 7) / 8 + 7
}

impl ColumnWriter {
    /// The parameters that the values are written with.
    pub closed spec fn params(self) -> Params {
        self.compressor@
    }

    /// The bits of the values so far that are not in the output yet.
    pub closed spec fn pending(self) -> Seq<bool> {
        pending_bits(self.bitpacker)
    }

    /// Takes the next value of the column, and appends to the output the word of 64 bits that it
    /// fills up, if it does. A value outside the compact space is an error, and changes nothing.
    pub fn write(&mut self, val: Option<u128>, output: &mut Vec<u8>) -> (result: Result<
        (),
        CodecError,
    >)
        ensures
            final(self).params() == old(self).params(),
            result is Ok <==> is_covered(old(self).params().ranges, val),
            result is Ok ==> {
                &&& le_bits(final(output)@) + final(self).pending() == le_bits(old(output)@)
                    + old(self).pending() + bits_of(
                    compact_of(old(self).params().ranges, val) as nat,
                    old(self).params().num_bits as nat,
                )
                &&& old(output)@.is_prefix_of(final(output)@)
                &&& final(output)@.len() == old(output)@.len() || final(output)@.len()
                    == old(output)@.len() + 8
                &&& final(self).pending().len() < 64
            },
            result matches Err(error) ==> {
                &&& error == CodecError::ValueNotCovered
                &&& final(output)@ == old(output)@
                &&& final(self).pending() == old(self).pending()
            },
    {
        proof {
            use_type_invariant(&self.compressor);
        }
        let ghost params = self.params();
        let compact: u64 = if let Some(value) = val {
            proof {
                law_compact_value_of_covered(params.ranges, value);
            }
            match self.compressor.params.compact_space().u128_to_compact(value) {
                Ok(compact) => compact,
                Err(_) => return Err(CodecError::ValueNotCovered),
            }
        } else {
            NULL_VALUE_COMPACT_SPACE
        };
        proof {
            lemma_compact_in_order(params.ranges, 0, params.ranges.len() - 1);
            lemma_bit_len_monotone(compact as nat, amplitude(params.ranges) as nat);
        }
        let num_bits: u8 = self.compressor.params.num_bits();
        packer_write(&mut self.bitpacker, compact, num_bits, output);
        Ok(())
    }

    /// Ends the column: the bits that are left, the padding, and the footer are appended.
    pub fn finish(self, output: &mut Vec<u8>)
        ensures
            ({
                let len = closed_len(old(output)@.len(), self.pending().len());
                &&& len <= final(output)@.len()
                &&& le_bits(final(output)@.take(len as int)) == le_bits(old(output)@)
                    + self.pending() + zero_bits(
                    ((8 - self.pending().len() % 8) % 8 + 56) as nat,
                )
                &&& final(output)@.skip(len as int) == footer(self.params())
            }),
    {
        let ColumnWriter { compressor, mut bitpacker } = self;
        packer_close(&mut bitpacker, output);
        let ghost closed = output@;
        compressor.write_footer(output);
        proof {
            lemma_le_bits_len(old(output)@);
            lemma_le_bits_len(closed);
            assert(closed.len() == closed_len(old(output)@.len(), self.pending().len()));
            assert(output@.take(closed.len() as int) =~= closed);
            assert(output@.skip(closed.len() as int) =~= footer(self.params()));
        }
    }
}

/// Whether `sent`, together with the bits that a writer holds back, are `vals` packed with
/// `params`.
pub open spec fn is_packed_so_far(
    sent: Seq<u8>,
    pending: Seq<bool>,
    vals: Seq<Option<u128>>,
    params: Params,
) -> bool {
    le_bits(sent) + pending == packed_bits(
        compacts(params.ranges, vals),
        params.num_bits as nat,
    )
}

/// A column can be written in pieces: where a writer puts the next value into an output that was
/// emptied, what was sent before and what is in the output now are the values up to that one.
pub proof fn law_pieces_go_on(
    sent: Seq<u8>,
    before: Seq<bool>,
    piece: Seq<u8>,
    after: Seq<bool>,
    vals: Seq<Option<u128>>,
    val: Option<u128>,
    params: Params,
)
    requires
        is_packed_so_far(sent, before, vals, params),
        le_bits(piece) + after == le_bits(Seq::empty()) + before + bits_of(
            compact_of(params.ranges, val) as nat,
            params.num_bits as nat,
        ),
    ensures
        is_packed_so_far(sent + piece, after, vals.push(val), params),
{
    let bits = bits_of(compact_of(params.ranges, val) as nat, params.num_bits as nat);
    let longer = vals.push(val);
    lemma_compacts_step(params.ranges, longer, vals.len() as int, params.num_bits as nat);
    assert(longer.take(vals.len() as int) =~= vals);
    assert(longer.take(longer.len() as int) =~= longer);
    lemma_le_bits_concat(sent, piece);
    assert(le_bits(piece) + after =~= before + bits);
    assert(le_bits(sent + piece) + after =~= le_bits(sent) + (le_bits(piece) + after));
    assert(le_bits(sent) + (before + bits) =~= (le_bits(sent) + before) + bits);
}

/// A column that is written in pieces is the column as it is written at once: where a writer
/// finishes into an output that was emptied, what was sent before and what is in the output now
/// are the compressed values.
pub proof fn law_pieces_make_a_column(
    sent: Seq<u8>,
    pending: Seq<bool>,
    piece: Seq<u8>,
    vals: Seq<Option<u128>>,
    params: Params,
)
    requires
        is_packed_so_far(sent, pending, vals, params),
        closed_len(0, pending.len()) <= piece.len(),
        le_bits(piece.take(closed_len(0, pending.len()) as int)) == le_bits(Seq::empty()) + pending
            + zero_bits(((8 - pending.len() % 8) % 8 + 56) as nat),
        piece.skip(closed_len(0, pending.len()) as int) == footer(params),
    ensures
        is_compressed(sent + piece, vals, params),
{
    let width = params.num_bits as nat;
    let values = compacts(params.ranges, vals);
    let len = closed_len(0, pending.len()) as int;
    let closed = sent + piece.take(len);
    lemma_le_bits_concat(sent, piece.take(len));
    assert(le_bits(closed) =~= le_bits(sent) + pending + zero_bits(
        ((8 - pending.len() % 8) % 8 + 56) as nat,
    ));
    assert(le_bits(sent) + pending =~= le_bits(Seq::empty()) + packed_bits(values, width));
    lemma_closed_is_packed(Seq::empty(), sent, pending, closed, values, width);
    assert(closed.skip(0) =~= closed);
    assert((sent + piece).take(closed.len() as int) =~= closed);
    assert((sent + piece).skip(closed.len() as int) =~= piece.skip(len));
}

/// Adds a value to a set of values.
fn insert_value(values: &mut BTreeSet<u128>, value: u128)
    ensures
        final(values)@ == old(values)@.insert(value),
{
    broadcast use vstd::laws_cmp::group_laws_cmp;

    values.insert(value);
}

proof fn lemma_u64_bit_len(n: u64)
    ensures
        bit_len(n as nat) <= 64,
{
    vstd::arithmetic::power2::lemma2_to64();
    lemma_bit_len_bound(n as nat, 64);
}

proof fn lemma_compacts_step(
    ranges: Seq<RangeMapping>,
    vals: Seq<Option<u128>>,
    i: int,
    width: nat,
)
    requires
        0 <= i < vals.len(),
    ensures
        packed_bits(compacts(ranges, vals.take(i + 1)), width) == packed_bits(
            compacts(ranges, vals.take(i)),
            width,
        ) + bits_of(compact_of(ranges, vals[i]) as nat, width),
{
    let longer = compacts(ranges, vals.take(i + 1));
    assert(longer.drop_last() =~= compacts(ranges, vals.take(i)));
    assert(longer.last() == compact_of(ranges, vals[i]));
}

/// What was written is the start of what was packed.
proof fn lemma_written_prefix(
    before: Seq<u8>,
    output: Seq<u8>,
    pending: Seq<bool>,
    packed: Seq<bool>,
)
    requires
        before.is_prefix_of(output),
        (output.len() - before.len()) % 8 == 0,
        le_bits(output) + pending == le_bits(before) + packed,
        pending.len() < 64,
    ensures
        le_bits(output.skip(before.len() as int)).len() % 64 == 0,
        le_bits(output.skip(before.len() as int)).is_prefix_of(packed),
        packed.len() < le_bits(output.skip(before.len() as int)).len() + 64,
{
    let n = before.len() as int;
    lemma_le_bits_len(before);
    lemma_le_bits_len(output);
    lemma_le_bits_len(output.skip(n));
    assert(output.take(n) =~= before);
    assert(le_bits(before) =~= le_bits(output).take(8 * n)) by {
        assert((le_bits(output) + pending).take(8 * n) =~= le_bits(output).take(8 * n));
        assert((le_bits(before) + packed).take(8 * n) =~= le_bits(before));
    }
    lemma_le_bits_prefix(output, before);
    let written = le_bits(output).skip(8 * n);
    assert(packed =~= (le_bits(before) + packed).skip(8 * n));
    assert(written =~= packed.take(written.len() as int)) by {
        assert((le_bits(output) + pending).skip(8 * n) =~= written + pending);
    }
}

/// A closed packer has put the packed values and their padding behind what was there.
proof fn lemma_closed_is_packed(
    before: Seq<u8>,
    unclosed: Seq<u8>,
    pending: Seq<bool>,
    closed: Seq<u8>,
    values: Seq<u64>,
    width: nat,
)
    requires
        le_bits(unclosed) + pending == le_bits(before) + packed_bits(values, width),
        le_bits(closed) == le_bits(unclosed) + pending + zero_bits(
            ((8 - pending.len() % 8) % 8 + 56) as nat,
        ),
    ensures
        before.len() <= closed.len(),
        closed.take(before.len() as int) == before,
        is_packed(closed.skip(before.len() as int), values, width),
{
    let n = before.len() as int;
    let packed = packed_bits(values, width);
    let bits = values.len() * width;
    let zeros = zero_bits(((8 - pending.len() % 8) % 8 + 56) as nat);
    lemma_le_bits_len(before);
    lemma_le_bits_len(unclosed);
    lemma_le_bits_len(closed);
    lemma_packed_bits_len(values, width);
    assert((le_bits(unclosed) + pending).len() == (le_bits(before) + packed).len());
    assert(pending.len() % 8 == bits % 8);
    assert(zeros.len() == 8 * packed_len(values.len(), width) - bits);
    assert(le_bits(closed) =~= le_bits(before) + (packed + zeros));
    assert(le_bits(before) =~= le_bits(closed).take(8 * n));
    lemma_le_bits_prefix(closed, before);
    assert(le_bits(closed).skip(8 * n) =~= packed + zeros);
}

/// The values that can be written are those that a range holds, and every missing value can be.
pub proof fn law_values_that_can_be_written(ranges: Seq<RangeMapping>, vals: Seq<Option<u128>>)
    ensures
        all_covered(ranges, vals) <==> forall|i: int|
            0 <= i < vals.len() ==> (#[trigger] vals[i] matches Some(value) ==> exists|pos: int|
                0 <= pos < ranges.len() && (#[trigger] ranges[pos]).start <= value
                    <= ranges[pos].end),
{
    assert forall|value: u128|
        covers(ranges, value as int) <==> exists|pos: int|
            0 <= pos < ranges.len() && (#[trigger] ranges[pos]).start <= value
                <= ranges[pos].end by {
        if covers(ranges, value as int) {
            let pos = choose|pos: int|
                0 <= pos < ranges.len() && (#[trigger] ranges[pos]).contains(value as int);
            assert(ranges[pos].start <= value <= ranges[pos].end);
        }
        if exists|pos: int|
            0 <= pos < ranges.len() && (#[trigger] ranges[pos]).start <= value
                <= ranges[pos].end {
            let pos = choose|pos: int|
                0 <= pos < ranges.len() && (#[trigger] ranges[pos]).start <= value
                    <= ranges[pos].end;
            assert(ranges[pos].contains(value as int));
        }
    }
    assert(all_covered(ranges, vals) <==> forall|i: int|
        0 <= i < vals.len() ==> (#[trigger] vals[i] matches Some(value) ==> covers(
            ranges,
            value as int,
        )));
}

/// All values before the first that cannot be written can be, and that one cannot; if there is
/// none, all can be written.
pub proof fn law_first_uncovered(ranges: Seq<RangeMapping>, vals: Seq<Option<u128>>)
    ensures
        first_uncovered(ranges, vals) <= vals.len(),
        forall|i: int|
            0 <= i < first_uncovered(ranges, vals) ==> (#[trigger] vals[i] matches Some(value)
                ==> covers(ranges, value as int)),
        first_uncovered(ranges, vals) < vals.len() ==> (vals[first_uncovered(
            ranges,
            vals,
        ) as int] matches Some(value) && !covers(ranges, value as int)),
    decreases vals.len(),
{
    if vals.len() > 0 && is_covered(ranges, vals[0]) {
        let rest = vals.drop_first();
        law_first_uncovered(ranges, rest);
        assert forall|i: int| 0 <= i < first_uncovered(ranges, vals) implies (
        #[trigger] vals[i] matches Some(value) ==> covers(ranges, value as int)) by {
            if i > 0 {
                assert(rest[i - 1] == vals[i]);
            }
        }
    }
}

} // verus!
