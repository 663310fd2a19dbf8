//! The numbers of the footer on the wire, and what this crate relies on of `tantivy_common` to
//! write and read them.
//!
//! Numbers of fixed length are little-endian. A variable-length number is its base 128 digits,
//! lowest first, one to a byte; 128 is added to the last of them.
use std::io;

use tantivy_common::{BinarySerializable, VInt, VIntU128};
use vstd::prelude::*;

use crate::error::CodecError;

verus! {

#[verifier::external_type_specification]
#[verifier::external_body]
pub struct ExIoError(io::Error);

/// The bytes of the variable-length number `v`.
pub open spec fn vint_bytes(v: nat) -> Seq<u8>
    decreases v,
{
    if v < 128 {
        seq![(v + 128) as u8]
    } else {
        seq![(v % 128) as u8] + vint_bytes(v / 128)
    }
}

/// The length of the variable-length number at the start of `bytes`, if it ends there.
pub open spec fn vint_len(bytes: Seq<u8>) -> Option<nat>
    decreases bytes.len(),
{
    if bytes.len() == 0 {
        None
    } else if bytes[0] >= 128 {
        Some(1)
    } else {
        match vint_len(bytes.drop_first()) {
            Some(n) => Some(n + 1),
            None => None,
        }
    }
}

/// The variable-length number at the start of `bytes`.
pub open spec fn vint_value(bytes: Seq<u8>) -> nat
    decreases bytes.len(),
{
    if bytes.len() == 0 {
        0
    } else if bytes[0] >= 128 {
        (bytes[0] - 128) as nat
    } else {
        bytes[0] as nat + 128 * vint_value(bytes.drop_first())
    }
}

/// Whether at most `max_len` bytes are read of the variable-length number at the start of
/// `bytes`, be it that it ends by then or that the bytes do.
pub open spec fn vint_within(bytes: Seq<u8>, max_len: nat) -> bool {
    match vint_len(bytes) {
        Some(n) => n <= max_len,
        None => bytes.len() <= max_len,
    }
}

/// The `n` lowest bytes of `v`, lowest first.
pub open spec fn le_bytes(v: nat, n: nat) -> Seq<u8>
    decreases n,
{
    if n == 0 {
        Seq::empty()
    } else {
        seq![(v % 256) as u8] + le_bytes(v / 256, (n - 1) as nat)
    }
}

/// The number whose bytes, lowest first, are `bytes`.
pub open spec fn le_value(bytes: Seq<u8>) -> nat
    decreases bytes.len(),
{
    if bytes.len() == 0 {
        0
    } else {
        bytes[0] as nat + 256 * le_value(bytes.drop_first())
    }
}

/// The most bytes that are read of a 64-bit variable-length number.
pub const VINT_MAX_LEN: usize = 10;

/// The most bytes that are read of a 128-bit variable-length number.
pub const VINT_U128_MAX_LEN: usize = 19;

/// `VInt::serialize` into a vector: the bytes of the number are appended. The call cannot fail,
/// since writing to a vector cannot.
#[verifier::external_body]
pub(crate) fn write_vint(val: u64, output: &mut Vec<u8>)
    ensures
        final(output)@ == old(output)@ + vint_bytes(val as nat),
{
    VInt(val).serialize(output).expect("writing to a vector cannot fail");
}

/// `VIntU128::serialize` into a vector: the bytes of the number are appended. The call cannot
/// fail, since writing to a vector cannot.
#[verifier::external_body]
pub(crate) fn write_vint_u128(val: u128, output: &mut Vec<u8>)
    ensures
        final(output)@ == old(output)@ + vint_bytes(val as nat),
{
    VIntU128(val).serialize(output).expect("writing to a vector cannot fail");
}

/// `VInt::deserialize` from a slice: the number at its start, of which the 64 lowest bits are
/// kept, and the slice is moved past it. An error where the slice ends first. It panics where an
/// eleventh byte would have to be read. What an error leaves of the slice is not stated.
#[verifier::external_body]
fn deserialize_vint(reader: &mut &[u8]) -> (result: Result<u64, io::Error>)
    requires
        vint_within(old(reader)@, 10),
    ensures
        match vint_len(old(reader)@) {
            Some(n) => {
                &&& result is Ok
                &&& result->Ok_0 == vint_value(old(reader)@) % (u64::MAX as nat + 1)
                &&& final(reader)@ == old(reader)@.skip(n as int)
            },
            None => result is Err,
        },
{
    VInt::deserialize(reader).map(|vint| vint.0)
}

/// `VIntU128::deserialize` from a slice: the number at its start, of which the 128 lowest bits
/// are kept, and the slice is moved past it. An error where the slice ends first. It panics where
/// a twentieth byte would have to be read. What an error leaves of the slice is not stated.
#[verifier::external_body]
fn deserialize_vint_u128(reader: &mut &[u8]) -> (result: Result<u128, io::Error>)
    requires
        vint_within(old(reader)@, 19),
    ensures
        match vint_len(old(reader)@) {
            Some(n) => {
                &&& result is Ok
                &&& result->Ok_0 == vint_value(old(reader)@)
                    % (u128::MAX as nat + 1)
                &&& final(reader)@ == old(reader)@.skip(n as int)
            },
            None => result is Err,
        },
{
    VIntU128::deserialize(reader).map(|vint| vint.0)
}

/// `BinarySerializable::serialize` of a `u64` into a vector: its eight bytes, lowest first, are
/// appended. The call cannot fail, since writing to a vector cannot.
#[verifier::external_body]
pub(crate) fn write_u64(val: u64, output: &mut Vec<u8>)
    ensures
        final(output)@ == old(output)@ + le_bytes(val as nat, 8),
{
    val.serialize(output).expect("writing to a vector cannot fail");
}

/// `BinarySerializable::serialize` of a `u32` into a vector: its four bytes, lowest first, are
/// appended. The call cannot fail, since writing to a vector cannot.
#[verifier::external_body]
pub(crate) fn write_u32(val: u32, output: &mut Vec<u8>)
    ensures
        final(output)@ == old(output)@ + le_bytes(val as nat, 4),
{
    val.serialize(output).expect("writing to a vector cannot fail");
}

/// `BinarySerializable::serialize` of a `u8` into a vector: the byte is appended. The call cannot
/// fail, since writing to a vector cannot.
#[verifier::external_body]
pub(crate) fn write_u8(val: u8, output: &mut Vec<u8>)
    ensures
        final(output)@ == old(output)@.push(val),
{
    val.serialize(output).expect("writing to a vector cannot fail");
}

/// `BinarySerializable::deserialize` of a `u64` from a slice: the number that its first eight
/// bytes, lowest first, stand for, and the slice is moved past them. An error where there are
/// fewer. What an error leaves of the slice is not stated.
#[verifier::external_body]
fn deserialize_u64(reader: &mut &[u8]) -> (result: Result<u64, io::Error>)
    ensures
        result is Ok <==> old(reader)@.len() >= 8,
        result matches Ok(val) ==> {
            &&& val == le_value(old(reader)@.take(8))
            &&& final(reader)@ == old(reader)@.skip(8)
        },
{
    u64::deserialize(reader)
}

/// `BinarySerializable::deserialize` of a `u32` from a slice: the number that its first four
/// bytes, lowest first, stand for, and the slice is moved past them. An error where there are
/// fewer. What an error leaves of the slice is not stated.
#[verifier::external_body]
fn deserialize_u32(reader: &mut &[u8]) -> (result: Result<u32, io::Error>)
    ensures
        result is Ok <==> old(reader)@.len() >= 4,
        result matches Ok(val) ==> {
            &&& val == le_value(old(reader)@.take(4))
            &&& final(reader)@ == old(reader)@.skip(4)
        },
{
    u32::deserialize(reader)
}

/// `BinarySerializable::deserialize` of a `u8` from a slice: its first byte, and the slice is
/// moved past it. An error where there is none. What an error leaves of the slice is not stated.
#[verifier::external_body]
fn deserialize_u8(reader: &mut &[u8]) -> (result: Result<u8, io::Error>)
    ensures
        result is Ok <==> old(reader)@.len() >= 1,
        result matches Ok(val) ==> {
            &&& val == old(reader)@[0]
            &&& final(reader)@ == old(reader)@.skip(1)
        },
{
    u8::deserialize(reader)
}

/// What is read of a variable-length number at the start of `bytes`, of at most `max_len` bytes
/// and modulo `modulus`, and the bytes behind it.
pub open spec fn parse_vint(bytes: Seq<u8>, max_len: nat, modulus: nat) -> Result<
    (nat, Seq<u8>),
    CodecError,
> {
    if !vint_within(bytes, max_len) {
        Err(CodecError::Malformed)
    } else {
        match vint_len(bytes) {
            Some(n) => Ok((vint_value(bytes) % modulus, bytes.skip(n as int))),
            None => Err(CodecError::TruncatedVInt),
        }
    }
}

/// What is read of a 64-bit variable-length number.
pub open spec fn parse_vint_u64(bytes: Seq<u8>) -> Result<(nat, Seq<u8>), CodecError> {
    parse_vint(bytes, VINT_MAX_LEN as nat, u64::MAX as nat + 1)
}

/// What is read of a 128-bit variable-length number.
pub open spec fn parse_vint_u128(bytes: Seq<u8>) -> Result<(nat, Seq<u8>), CodecError> {
    parse_vint(bytes, VINT_U128_MAX_LEN as nat, u128::MAX as nat + 1)
}

/// What is read of a number of `n` bytes, lowest first.
pub open spec fn parse_le(bytes: Seq<u8>, n: nat) -> Result<(nat, Seq<u8>), CodecError> {
    if bytes.len() < n {
        Err(CodecError::UnexpectedEof)
    } else {
        Ok((le_value(bytes.take(n as int)), bytes.skip(n as int)))
    }
}

/// Whether at most `max_len` bytes are read of the variable-length number at the start of
/// `bytes`.
fn is_vint_within(bytes: &[u8], max_len: usize) -> (within: bool)
    ensures
        within == vint_within(bytes@, max_len as nat),
{
    let mut i: usize = 0;
    assert(bytes@.skip(0) =~= bytes@);
    while i < max_len && i < bytes.len()
        invariant
            i <= max_len,
            i <= bytes@.len(),
            vint_len(bytes@) == match vint_len(bytes@.skip(i as int)) {
                Some(n) => Some((n + i) as nat),
                None => None,
            },
        decreases max_len - i,
    {
        assert(bytes@.skip(i as int).drop_first() =~= bytes@.skip(i + 1));
        if bytes[i] >= 128 {
            return true;
        }
        i += 1;
    }
    proof {
        lemma_vint_len_bound(bytes@.skip(i as int));
    }
    i == bytes.len()
}

/// Reads a 64-bit variable-length number off the start of `reader`.
pub(crate) fn read_vint(reader: &mut &[u8]) -> (result: Result<u64, CodecError>)
    ensures
        match parse_vint_u64(old(reader)@) {
            Ok((val, rest)) => result == Ok::<u64, CodecError>(val as u64) && val <= u64::MAX
                && final(reader)@ == rest,
            Err(error) => result == Err::<u64, CodecError>(error),
        },
{
    if !is_vint_within(*reader, VINT_MAX_LEN) {
        return Err(CodecError::Malformed);
    }
    match deserialize_vint(reader) {
        Ok(val) => Ok(val),
        Err(_) => Err(CodecError::TruncatedVInt),
    }
}

/// Reads a 128-bit variable-length number off the start of `reader`.
pub(crate) fn read_vint_u128(reader: &mut &[u8]) -> (result: Result<u128, CodecError>)
    ensures
        match parse_vint_u128(old(reader)@) {
            Ok((val, rest)) => result == Ok::<u128, CodecError>(val as u128) && val <= u128::MAX
                && final(reader)@ == rest,
            Err(error) => result == Err::<u128, CodecError>(error),
        },
{
    if !is_vint_within(*reader, VINT_U128_MAX_LEN) {
        return Err(CodecError::Malformed);
    }
    match deserialize_vint_u128(reader) {
        Ok(val) => Ok(val),
        Err(_) => Err(CodecError::TruncatedVInt),
    }
}

/// Reads a `u64` off the start of `reader`.
pub(crate) fn read_u64(reader: &mut &[u8]) -> (result: Result<u64, CodecError>)
    ensures
        match parse_le(old(reader)@, 8) {
            Ok((val, rest)) => result == Ok::<u64, CodecError>(val as u64) && val <= u64::MAX
                && final(reader)@ == rest,
            Err(error) => result == Err::<u64, CodecError>(error),
        },
{
    match deserialize_u64(reader) {
        Ok(val) => Ok(val),
        Err(_) => Err(CodecError::UnexpectedEof),
    }
}

/// Reads a `u32` off the start of `reader`.
pub(crate) fn read_u32(reader: &mut &[u8]) -> (result: Result<u32, CodecError>)
    ensures
        match parse_le(old(reader)@, 4) {
            Ok((val, rest)) => result == Ok::<u32, CodecError>(val as u32) && val <= u32::MAX
                && final(reader)@ == rest,
            Err(error) => result == Err::<u32, CodecError>(error),
        },
{
    match deserialize_u32(reader) {
        Ok(val) => Ok(val),
        Err(_) => Err(CodecError::UnexpectedEof),
    }
}

/// Reads a byte off the start of `reader`.
pub(crate) fn read_u8(reader: &mut &[u8]) -> (result: Result<u8, CodecError>)
    ensures
        match parse_le(old(reader)@, 1) {
            Ok((val, rest)) => result == Ok::<u8, CodecError>(val as u8) && val <= u8::MAX
                && final(reader)@ == rest,
            Err(error) => result == Err::<u8, CodecError>(error),
        },
{
    proof {
        if reader@.len() >= 1 {
            let first = reader@.take(1);
            assert(first.drop_first().len() == 0);
            assert(le_value(first.drop_first()) == 0);
            assert(le_value(first) == first[0]);
        }
    }
    match deserialize_u8(reader) {
        Ok(val) => Ok(val),
        Err(_) => Err(CodecError::UnexpectedEof),
    }
}

proof fn lemma_vint_len_bound(bytes: Seq<u8>)
    ensures
        vint_len(bytes) matches Some(n) ==> 1 <= n <= bytes.len(),
    decreases bytes.len(),
{
    if bytes.len() > 0 {
        lemma_vint_len_bound(bytes.drop_first());
    }
}

/// A variable-length number is read back as it was written, and what stands behind it is left.
pub proof fn lemma_vint_round_trip(v: nat, rest: Seq<u8>)
    ensures
        vint_len(vint_bytes(v) + rest) == Some(vint_bytes(v).len()),
        vint_value(vint_bytes(v) + rest) == v,
        (vint_bytes(v) + rest).skip(vint_bytes(v).len() as int) == rest,
    decreases v,
{
    let all = vint_bytes(v) + rest;
    assert(all.skip(vint_bytes(v).len() as int) =~= rest);
    if v >= 128 {
        lemma_vint_round_trip(v / 128, rest);
        assert(all.drop_first() =~= vint_bytes(v / 128) + rest);
    }
}

/// A number below 128 to the power `n` takes at most `n` bytes.
pub proof fn lemma_vint_bytes_len(v: nat, n: nat)
    requires
        n >= 1,
        v < vstd::arithmetic::power::pow(128, n),
    ensures
        1 <= vint_bytes(v).len() <= n,
    decreases n,
{
    vstd::arithmetic::power::lemma_pow0(128);
    reveal(vstd::arithmetic::power::pow);
    assert(vstd::arithmetic::power::pow(128, n) == 128 * vstd::arithmetic::power::pow(
        128,
        (n - 1) as nat,
    ));
    if v >= 128 {
        if n == 1 {
            assert(false);
        }
        lemma_vint_bytes_len(v / 128, (n - 1) as nat);
    }
}

/// A `u64` written as a variable-length number is read back.
pub proof fn lemma_parse_vint_u64(v: u64, rest: Seq<u8>)
    ensures
        parse_vint_u64(vint_bytes(v as nat) + rest) == Ok::<(nat, Seq<u8>), CodecError>(
            (v as nat, rest),
        ),
{
    lemma_vint_round_trip(v as nat, rest);
    assert(vstd::arithmetic::power::pow(128, 10) > u64::MAX) by {
        reveal_with_fuel(vstd::arithmetic::power::pow, 11);
    }
    lemma_vint_bytes_len(v as nat, 10);
    vstd::arithmetic::div_mod::lemma_small_mod(v as nat, u64::MAX as nat + 1);
}

/// A `u128` written as a variable-length number is read back.
pub proof fn lemma_parse_vint_u128(v: u128, rest: Seq<u8>)
    ensures
        parse_vint_u128(vint_bytes(v as nat) + rest) == Ok::<(nat, Seq<u8>), CodecError>(
            (v as nat, rest),
        ),
{
    lemma_vint_round_trip(v as nat, rest);
    assert(vstd::arithmetic::power::pow(128, 19) > u128::MAX) by {
        reveal_with_fuel(vstd::arithmetic::power::pow, 20);
    }
    lemma_vint_bytes_len(v as nat, 19);
    vstd::arithmetic::div_mod::lemma_small_mod(v as nat, u128::MAX as nat + 1);
}

pub proof fn lemma_le_bytes_len(v: nat, n: nat)
    ensures
        le_bytes(v, n).len() == n,
    decreases n,
{
    if n > 0 {
        lemma_le_bytes_len(v / 256, (n - 1) as nat);
    }
}

/// The `n` lowest bytes of a number that they can hold give it back.
pub proof fn lemma_le_round_trip(v: nat, n: nat)
    requires
        v < vstd::arithmetic::power::pow(256, n),
    ensures
        le_value(le_bytes(v, n)) == v,
    decreases n,
{
    reveal(vstd::arithmetic::power::pow);
    if n > 0 {
        assert(vstd::arithmetic::power::pow(256, n) == 256 * vstd::arithmetic::power::pow(
            256,
            (n - 1) as nat,
        ));
        lemma_le_round_trip(v / 256, (n - 1) as nat);
        assert(le_bytes(v, n).drop_first() =~= le_bytes(v / 256, (n - 1) as nat));
    }
}

/// A number written with `n` bytes, lowest first, is read back.
pub proof fn lemma_parse_le(v: nat, n: nat, rest: Seq<u8>)
    requires
        v < vstd::arithmetic::power::pow(256, n),
    ensures
        parse_le(le_bytes(v, n) + rest, n) == Ok::<(nat, Seq<u8>), CodecError>((v, rest)),
{
    lemma_le_bytes_len(v, n);
    lemma_le_round_trip(v, n);
    assert((le_bytes(v, n) + rest).take(n as int) =~= le_bytes(v, n));
    assert((le_bytes(v, n) + rest).skip(n as int) =~= rest);
}

proof fn lemma_vint_len_at(bytes: Seq<u8>, k: int)
    requires
        0 <= k <= bytes.len(),
        forall|i: int| 0 <= i < k ==> #[trigger] bytes[i] < 128,
    ensures
        k < bytes.len() && bytes[k] >= 128 ==> vint_len(bytes) == Some((k + 1) as nat),
        k == bytes.len() ==> vint_len(bytes) is None,
    decreases bytes.len(),
{
    if bytes.len() > 0 && k > 0 {
        let rest = bytes.drop_first();
        assert forall|i: int| 0 <= i < k - 1 implies #[trigger] rest[i] < 128 by {
            assert(rest[i] == bytes[i + 1]);
        }
        lemma_vint_len_at(rest, k - 1);
    }
}

/// A variable-length number ends with its first byte of 128 or more. It is read if it has at most 10
/// bytes, or at most 19 where it is to have 128 bits; a number that is longer is malformed, and one
/// that the bytes end in before that is truncated. `k` is the number of bytes before the first of
/// 128 or more.
pub proof fn law_vint_is_read(bytes: Seq<u8>, k: int)
    requires
        0 <= k <= bytes.len(),
        forall|i: int| 0 <= i < k ==> #[trigger] bytes[i] < 128,
        k < bytes.len() ==> bytes[k] >= 128,
    ensures
        k < bytes.len() ==> parse_vint_u64(bytes) == if k < 10 {
            Ok::<(nat, Seq<u8>), CodecError>(
                ((vint_value(bytes) as int % 0x1_0000_0000_0000_0000) as nat, bytes.skip(k + 1)),
            )
        } else {
            Err(CodecError::Malformed)
        },
        k == bytes.len() ==> parse_vint_u64(bytes) == if k <= 10 {
            Err::<(nat, Seq<u8>), CodecError>(CodecError::TruncatedVInt)
        } else {
            Err(CodecError::Malformed)
        },
        k < bytes.len() ==> parse_vint_u128(bytes) == if k < 19 {
            Ok::<(nat, Seq<u8>), CodecError>(
                (
                    (vint_value(bytes) as int % (u128::MAX + 1)) as nat,
                    bytes.skip(k + 1),
                ),
            )
        } else {
            Err(CodecError::Malformed)
        },
        k == bytes.len() ==> parse_vint_u128(bytes) == if k <= 19 {
            Err::<(nat, Seq<u8>), CodecError>(CodecError::TruncatedVInt)
        } else {
            Err(CodecError::Malformed)
        },
{
    lemma_vint_len_at(bytes, k);
}

} // verus!
