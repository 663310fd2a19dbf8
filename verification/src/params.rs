//! What a reader has to know of a compressed column, as it stands in its footer.
use tantivy_bitpacker::BitUnpacker;
use vstd::prelude::*;

use crate::bitpack::{field, field_in_bounds, unpacker_width};
use crate::error::CodecError;
use crate::space::{
    encode_space, law_space_round_trip, parse_space, ranges_laid_out, CompactSpace, RangeMapping,
};
use crate::wire::{
    le_bytes, le_value, lemma_le_bytes_len, lemma_parse_le, lemma_parse_vint_u128, parse_le,
    parse_vint_u128, read_u64, read_u8, read_vint_u128, vint_bytes, write_u64, write_u8,
    write_vint_u128,
};

verus! {

/// The parameters of a compressed column.
#[derive(Debug)]
pub struct IPCodecParams {
    compact_space: CompactSpace,
    bit_unpacker: BitUnpacker,
    min_value: u128,
    max_value: u128,
    num_vals: u64,
    num_bits: u8,
}

/// What the parameters of a compressed column say.
pub struct Params {
    /// The ranges of the compact space.
    pub ranges: Seq<RangeMapping>,
    /// The smallest value, or 0 if there is none.
    pub min_value: u128,
    /// The largest value, or 0 if there is none.
    pub max_value: u128,
    /// The number of values, nulls included.
    pub num_vals: u64,
    /// The number of bits that each packed compact value takes.
    pub num_bits: u8,
}

impl View for IPCodecParams {
    type V = Params;

    closed spec fn view(&self) -> Params {
        Params {
            ranges: self.compact_space@,
            min_value: self.min_value,
            max_value: self.max_value,
            num_vals: self.num_vals,
            num_bits: self.num_bits,
        }
    }
}

impl Clone for IPCodecParams {
    fn clone(&self) -> (params: Self)
        ensures
            params@ == self@,
    {
        proof {
            use_type_invariant(self);
        }
        IPCodecParams {
            compact_space: self.compact_space.clone(),
            bit_unpacker: BitUnpacker::new(self.num_bits),
            min_value: self.min_value,
            max_value: self.max_value,
            num_vals: self.num_vals,
            num_bits: self.num_bits,
        }
    }
}

/// The bytes of the parameters: flags, of which none is set, the smallest and the largest value,
/// the number of values, the number of bits and the compact space.
pub open spec fn encode_params(params: Params) -> Seq<u8> {
    le_bytes(0, 8) + vint_bytes(params.min_value as nat) + vint_bytes(params.max_value as nat)
        + vint_bytes(params.num_vals as nat) + seq![params.num_bits] + encode_space(params.ranges)
}

/// What is read of parameters at the start of `bytes`, and the bytes behind them.
pub open spec fn parse_params(bytes: Seq<u8>) -> Result<(Params, Seq<u8>), CodecError> {
    match parse_le(bytes, 8) {
        Err(error) => Err(error),
        Ok((_, bytes)) => match parse_vint_u128(bytes) {
            Err(error) => Err(error),
            Ok((min_value, bytes)) => match parse_vint_u128(bytes) {
                Err(error) => Err(error),
                Ok((max_value, bytes)) => match parse_vint_u128(bytes) {
                    Err(error) => Err(error),
                    Ok((num_vals, bytes)) => match parse_le(bytes, 1) {
                        Err(error) => Err(error),
                        Ok((num_bits, bytes)) => match parse_space(bytes) {
                            Err(error) => Err(error),
                            Ok((ranges, rest)) => if num_bits > 64 {
                                Err(CodecError::Malformed)
                            } else {
                                Ok(
                                    (
                                        Params {
                                            ranges,
                                            min_value: min_value as u128,
                                            max_value: max_value as u128,
                                            num_vals: (num_vals % (u64::MAX as nat + 1)) as u64,
                                            num_bits: num_bits as u8,
                                        },
                                        rest,
                                    ),
                                )
                            },
                        },
                    },
                },
            },
        },
    }
}

impl IPCodecParams {
    #[verifier::type_invariant]
    spec fn inv(self) -> bool {
        self.num_bits <= 64 && unpacker_width(self.bit_unpacker) == self.num_bits
    }

    pub(crate) fn new(
        compact_space: CompactSpace,
        min_value: u128,
        max_value: u128,
        num_vals: u64,
        num_bits: u8,
    ) -> (params: IPCodecParams)
        requires
            num_bits <= 64,
        ensures
            params@ == (Params {
                ranges: compact_space@,
                min_value,
                max_value,
                num_vals,
                num_bits,
            }),
    {
        IPCodecParams {
            compact_space,
            bit_unpacker: BitUnpacker::new(num_bits),
            min_value,
            max_value,
            num_vals,
            num_bits,
        }
    }

    /// The compact space of the column.
    pub fn compact_space(&self) -> (space: &CompactSpace)
        ensures
            space@ == self@.ranges,
    {
        &self.compact_space
    }

    /// The smallest value of the column, or 0 if it has none.
    pub fn min_value(&self) -> (value: u128)
        ensures
            value == self@.min_value,
    {
        self.min_value
    }

    /// The largest value of the column, or 0 if it has none.
    pub fn max_value(&self) -> (value: u128)
        ensures
            value == self@.max_value,
    {
        self.max_value
    }

    /// The number of values of the column, nulls included.
    pub fn num_vals(&self) -> (count: u64)
        ensures
            count == self@.num_vals,
    {
        self.num_vals
    }

    /// The number of bits that each packed compact value takes.
    pub fn num_bits(&self) -> (bits: u8)
        ensures
            bits == self@.num_bits,
            bits <= 64,
    {
        proof {
            use_type_invariant(self);
        }
        self.num_bits
    }

    /// The packed compact value at `idx`.
    pub(crate) fn unpack(&self, idx: u64, data: &[u8]) -> (compact: u64)
        requires
            field_in_bounds(data@, self@.num_bits as nat, idx as nat),
        ensures
            compact == field(data@, self@.num_bits as nat, idx as nat),
    {
        proof {
            use_type_invariant(self);
        }
        self.bit_unpacker.get(idx, data)
    }

    /// Appends the bytes of the parameters.
    pub fn serialize(&self, writer: &mut Vec<u8>)
        ensures
            final(writer)@ == old(writer)@ + encode_params(self@),
    {
        // header flags for future optional dictionary encoding
        let footer_flags: u64 = 0;
        write_u64(footer_flags, writer);
        write_vint_u128(self.min_value, writer);
        write_vint_u128(self.max_value, writer);
        write_vint_u128(self.num_vals as u128, writer);
        write_u8(self.num_bits, writer);
        self.compact_space.serialize(writer);
        assert(writer@ =~= old(writer)@ + encode_params(self@));
    }

    /// Reads parameters off the start of `reader`.
    pub fn deserialize(reader: &mut &[u8]) -> (result: Result<IPCodecParams, CodecError>)
        ensures
            match parse_params(old(reader)@) {
                Ok((params, rest)) => result is Ok && result->Ok_0@ == params && final(reader)@
                    == rest && ranges_laid_out(params.ranges),
                Err(error) => result == Err::<IPCodecParams, CodecError>(error),
            },
    {
        let _header_flags: u64 = match read_u64(reader) {
            Ok(flags) => flags,
            Err(error) => return Err(error),
        };
        let min_value: u128 = match read_vint_u128(reader) {
            Ok(value) => value,
            Err(error) => return Err(error),
        };
        let max_value: u128 = match read_vint_u128(reader) {
            Ok(value) => value,
            Err(error) => return Err(error),
        };
        let num_vals: u128 = match read_vint_u128(reader) {
            Ok(count) => count,
            Err(error) => return Err(error),
        };
        let num_bits: u8 = match read_u8(reader) {
            Ok(bits) => bits,
            Err(error) => return Err(error),
        };
        let compact_space: CompactSpace = match CompactSpace::deserialize(reader) {
            Ok(space) => space,
            Err(error) => return Err(error),
        };
        if num_bits > 64 {
            return Err(CodecError::Malformed);
        }
        assert(num_vals as u64 == num_vals % 0x1_0000_0000_0000_0000u128) by (bit_vector);
        Ok(
            IPCodecParams::new(
                compact_space,
                min_value,
                max_value,
                #[verifier::truncate]
                (num_vals as u64),
                num_bits,
            ),
        )
    }
}

proof fn lemma_encode_params_split(params: Params, rest: Seq<u8>)
    ensures
        encode_params(params) + rest == le_bytes(0, 8) + (vint_bytes(params.min_value as nat) + (
        vint_bytes(params.max_value as nat) + (vint_bytes(params.num_vals as nat) + (le_bytes(
            params.num_bits as nat,
            1,
        ) + (encode_space(params.ranges) + rest))))),
{
    let a = le_bytes(0, 8);
    let b = vint_bytes(params.min_value as nat);
    let c = vint_bytes(params.max_value as nat);
    let d = vint_bytes(params.num_vals as nat);
    let e = seq![params.num_bits];
    let f = encode_space(params.ranges);
    assert(le_bytes(params.num_bits as nat, 1) =~= e) by {
        assert(le_bytes(params.num_bits as nat / 256, 0) =~= Seq::empty());
    }
    assert(a + b + c + d + e + f + rest =~= a + (b + (c + (d + (e + (f + rest))))));
}

/// Parameters are read back as they were written, and what stands behind them is left.
pub proof fn law_params_round_trip(params: Params, rest: Seq<u8>)
    requires
        ranges_laid_out(params.ranges),
        params.ranges.len() <= u64::MAX,
        params.num_bits <= 64,
    ensures
        parse_params(encode_params(params) + rest) == Ok::<(Params, Seq<u8>), CodecError>(
            (params, rest),
        ),
{
    let p = params;
    let a5 = encode_space(p.ranges) + rest;
    let a4 = le_bytes(p.num_bits as nat, 1) + a5;
    let a3 = vint_bytes(p.num_vals as nat) + a4;
    let a2 = vint_bytes(p.max_value as nat) + a3;
    let a1 = vint_bytes(p.min_value as nat) + a2;
    let a0 = le_bytes(0, 8) + a1;
    assert(encode_params(p) + rest == a0) by {
        lemma_encode_params_split(p, rest);
    }
    assert(parse_le(a0, 8) == Ok::<(nat, Seq<u8>), CodecError>((0, a1))) by {
        vstd::arithmetic::power::lemma_pow_positive(256, 8);
        lemma_parse_le(0, 8, a1);
    }
    assert(parse_vint_u128(a1) == Ok::<(nat, Seq<u8>), CodecError>((p.min_value as nat, a2))) by {
        lemma_parse_vint_u128(p.min_value, a2);
    }
    assert(parse_vint_u128(a2) == Ok::<(nat, Seq<u8>), CodecError>((p.max_value as nat, a3))) by {
        lemma_parse_vint_u128(p.max_value, a3);
    }
    assert(parse_vint_u128(a3) == Ok::<(nat, Seq<u8>), CodecError>((p.num_vals as nat, a4))) by {
        lemma_parse_vint_u128(p.num_vals as u128, a4);
    }
    assert(parse_le(a4, 1) == Ok::<(nat, Seq<u8>), CodecError>((p.num_bits as nat, a5))) by {
        vstd::arithmetic::power::lemma_pow1(256);
        lemma_parse_le(p.num_bits as nat, 1, a5);
    }
    assert(parse_space(a5) == Ok::<(Seq<RangeMapping>, Seq<u8>), CodecError>((p.ranges, rest))) by {
        law_space_round_trip(p.ranges, rest);
    }
    assert(p.num_vals as nat % (u64::MAX as nat + 1) == p.num_vals) by {
        vstd::arithmetic::div_mod::lemma_small_mod(p.num_vals as nat, u64::MAX as nat + 1);
    }
}

/// The bytes of parameters are, one behind the other: eight zeros, the variable-length numbers of
/// the smallest value, the largest value and the number of values, the number of bits, and the
/// compact space.
pub proof fn law_params_on_the_wire(params: Params)
    ensures
        ({
            let bytes = encode_params(params);
            let min_at: int = 8;
            let max_at = min_at + vint_bytes(params.min_value as nat).len() as int;
            let num_vals_at = max_at + vint_bytes(params.max_value as nat).len() as int;
            let num_bits_at = num_vals_at + vint_bytes(params.num_vals as nat).len() as int;
            &&& num_bits_at < bytes.len()
            &&& forall|i: int| 0 <= i < 8 ==> #[trigger] bytes[i] == 0
            &&& bytes.subrange(min_at, max_at) == vint_bytes(params.min_value as nat)
            &&& bytes.subrange(max_at, num_vals_at) == vint_bytes(params.max_value as nat)
            &&& bytes.subrange(num_vals_at, num_bits_at) == vint_bytes(params.num_vals as nat)
            &&& bytes[num_bits_at] == params.num_bits
            &&& bytes.skip(num_bits_at + 1) == encode_space(params.ranges)
        }),
{
    let bytes = encode_params(params);
    let a = le_bytes(0, 8);
    let b = vint_bytes(params.min_value as nat);
    let c = vint_bytes(params.max_value as nat);
    let d = vint_bytes(params.num_vals as nat);
    let e = seq![params.num_bits];
    let f = encode_space(params.ranges);
    lemma_le_bytes_len(0, 8);
    lemma_zero_bytes(8);
    assert forall|i: int| 0 <= i < 8 implies #[trigger] bytes[i] == 0 by {
        assert(bytes[i] == a[i]);
    }
    let max_at = 8 + b.len() as int;
    let num_vals_at = max_at + c.len();
    let num_bits_at = num_vals_at + d.len();
    assert(bytes.subrange(8, max_at) =~= b);
    assert(bytes.subrange(max_at, num_vals_at) =~= c);
    assert(bytes.subrange(num_vals_at, num_bits_at) =~= d);
    assert(bytes[num_bits_at] == e[0]);
    assert(bytes.skip(num_bits_at + 1) =~= f);
}

proof fn lemma_zero_bytes(n: nat)
    ensures
        le_bytes(0, n).len() == n,
        forall|i: int| 0 <= i < n ==> #[trigger] le_bytes(0, n)[i] == 0,
    decreases n,
{
    if n > 0 {
        lemma_zero_bytes((n - 1) as nat);
        assert forall|i: int| 0 <= i < n implies #[trigger] le_bytes(0, n)[i] == 0 by {
            if i > 0 {
                assert(le_bytes(0, n)[i] == le_bytes(0, (n - 1) as nat)[i - 1]);
            }
        }
    }
}

/// Parameters are read number by number: behind eight bytes, whatever they hold, the smallest value,
/// the largest value, the number of values, of which the 64 lowest bits are kept, the number of
/// bits, which must not be more than 64, and the compact space. The first of them that cannot be
/// read is the error.
pub proof fn law_params_are_read_in_order(
    bytes: Seq<u8>,
    min_value: nat,
    max_value: nat,
    num_vals: nat,
    num_bits: u8,
    at_min: Seq<u8>,
    at_max: Seq<u8>,
    at_num_vals: Seq<u8>,
    at_num_bits: Seq<u8>,
)
    ensures
        bytes.len() < 8 ==> parse_params(bytes) == Err::<(Params, Seq<u8>), CodecError>(
            CodecError::UnexpectedEof,
        ),
        bytes.len() >= 8 && at_min == bytes.skip(8) ==> {
            &&& parse_vint_u128(at_min) matches Err(error) ==> parse_params(bytes) == Err::<
                (Params, Seq<u8>),
                CodecError,
            >(error)
            &&& parse_vint_u128(at_min) == Ok::<(nat, Seq<u8>), CodecError>((min_value, at_max))
                ==> {
                &&& parse_vint_u128(at_max) matches Err(error) ==> parse_params(bytes) == Err::<
                    (Params, Seq<u8>),
                    CodecError,
                >(error)
                &&& parse_vint_u128(at_max) == Ok::<(nat, Seq<u8>), CodecError>(
                    (max_value, at_num_vals),
                ) ==> {
                    &&& parse_vint_u128(at_num_vals) matches Err(error) ==> parse_params(bytes)
                        == Err::<(Params, Seq<u8>), CodecError>(error)
                    &&& parse_vint_u128(at_num_vals) == Ok::<(nat, Seq<u8>), CodecError>(
                        (num_vals, at_num_bits),
                    ) ==> {
                        &&& at_num_bits.len() == 0 ==> parse_params(bytes) == Err::<
                            (Params, Seq<u8>),
                            CodecError,
                        >(CodecError::UnexpectedEof)
                        &&& at_num_bits.len() > 0 && num_bits == at_num_bits[0] ==> parse_params(
                            bytes,
                        ) == match parse_space(at_num_bits.skip(1)) {
                            Err(error) => Err(error),
                            Ok((ranges, rest)) => if num_bits > 64 {
                                Err(CodecError::Malformed)
                            } else {
                                Ok(
                                    (
                                        Params {
                                            ranges,
                                            min_value: min_value as u128,
                                            max_value: max_value as u128,
                                            num_vals: (num_vals as int
                                                % 0x1_0000_0000_0000_0000) as u64,
                                            num_bits,
                                        },
                                        rest,
                                    ),
                                )
                            },
                        }
                    }
                }
            }
        },
{
    if at_num_bits.len() > 0 {
        let first = at_num_bits.take(1);
        assert(first.drop_first().len() == 0);
        assert(le_value(first.drop_first()) == 0);
        assert(le_value(first) == at_num_bits[0]);
    }
}

} // verus!
