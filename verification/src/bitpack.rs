//! What this crate relies on of `tantivy_bitpacker`.
//!
//! A [`BitPacker`] is a stream of bits on its way into a byte string: the bits that were written
//! stand in the output, but for fewer than 64 of them that the packer still holds back. A
//! [`BitUnpacker`] reads numbers of one fixed width back out of such a byte string.
use tantivy_bitpacker::{BitPacker, BitUnpacker};
use vstd::prelude::*;

use crate::bits::{bit_len, bits_of, bits_value, le_bits, zero_bits};

verus! {

#[verifier::external_type_specification]
#[verifier::external_body]
pub struct ExBitPacker(BitPacker);

#[verifier::external_type_specification]
#[verifier::external_body]
pub struct ExBitUnpacker(BitUnpacker);

/// The bits that a packer has taken and not yet handed to its output, in the order in which they
/// were written.
pub uninterp spec fn pending_bits(packer: BitPacker) -> Seq<bool>;

/// The number of bits of each number that an unpacker reads.
pub uninterp spec fn unpacker_width(unpacker: BitUnpacker) -> nat;

/// The width in bits that is used to pack numbers of up to `amplitude`: as many as its binary
/// digits, or 64 where those would be more than 56.
pub open spec fn packing_width(amplitude: nat) -> nat {
    if bit_len(amplitude) <= 56 {
        bit_len(amplitude)
    } else {
        64
    }
}

/// Whether `bytes` holds the eight bytes, from the one in which the number at `idx` begins, that
/// it takes to read a number of `width` bits there. A number of no bits takes none.
pub open spec fn field_in_bounds(bytes: Seq<u8>, width: nat, idx: nat) -> bool {
    width == 0 || (idx * width <= u64::MAX && (idx * width) / 8 + 8 <= bytes.len())
}

/// The number of `width` bits at `idx`, as it is read out of eight bytes from the one in which it
/// begins: the part of it that lies beyond them reads as zeros.
pub open spec fn field(bytes: Seq<u8>, width: nat, idx: nat) -> nat {
    if width == 0 {
        0
    } else {
        let addr = ((idx * width) / 8) as int;
        let shift = ((idx * width) % 8) as int;
        let end = if shift + width <= 64 {
            shift + width
        } else {
            64
        };
        bits_value(le_bits(bytes.subrange(addr, addr + 8)).subrange(shift, end))
    }
}

/// `tantivy_bitpacker::compute_num_bits`: the number of binary digits of `n`, or 64 where there
/// are more than 56 of them.
pub assume_specification[ tantivy_bitpacker::compute_num_bits ](n: u64) -> (num_bits: u8)
    ensures
        num_bits == packing_width(n as nat),
;

/// `BitPacker::new`: a packer that holds no bits.
pub assume_specification[ BitPacker::new ]() -> (packer: BitPacker)
    ensures
        pending_bits(packer) == Seq::<bool>::empty(),
;

/// `BitPacker::write` into a vector: the `num_bits` bits of `val` are put behind all the bits
/// that the output and the packer hold. Nothing or one word of eight bytes is appended to the
/// output, and fewer than 64 bits stay in the packer. The call cannot fail, since writing to a
/// vector cannot. It is asked for only where `val` fits in `num_bits` bits: bits above those would
/// run into the next number.
#[verifier::external_body]
pub(crate) fn packer_write(packer: &mut BitPacker, val: u64, num_bits: u8, output: &mut Vec<u8>)
    requires
        num_bits <= 64,
        bit_len(val as nat) <= num_bits,
    ensures
        le_bits(final(output)@) + pending_bits(*final(packer)) == le_bits(old(output)@)
            + pending_bits(*old(packer)) + bits_of(val as nat, num_bits as nat),
        old(output)@.is_prefix_of(final(output)@),
        final(output)@.len() == old(output)@.len() || final(output)@.len() == old(output)@.len()
            + 8,
        pending_bits(*final(packer)).len() < 64,
{
    packer.write(val, num_bits, output).expect("writing to a vector cannot fail");
}

/// `BitPacker::close` into a vector: the bits that the packer holds are put behind those of the
/// output, filled up with zeros to whole bytes, and followed by seven bytes of zeros. The packer
/// holds no bits afterwards. The call cannot fail, since writing to a vector cannot.
#[verifier::external_body]
pub(crate) fn packer_close(packer: &mut BitPacker, output: &mut Vec<u8>)
    ensures
        le_bits(final(output)@) == le_bits(old(output)@) + pending_bits(*old(packer)) + zero_bits(
            ((8 - pending_bits(*old(packer)).len() % 8) % 8 + 56) as nat,
        ),
        pending_bits(*final(packer)) == Seq::<bool>::empty(),
{
    packer.close(output).expect("writing to a vector cannot fail");
}

/// `BitUnpacker::new`: an unpacker of numbers of `num_bits` bits. More than 64 make it panic.
pub assume_specification[ BitUnpacker::new ](num_bits: u8) -> (unpacker: BitUnpacker)
    requires
        num_bits <= 64,
    ensures
        unpacker_width(unpacker) == num_bits,
;

/// `BitUnpacker::get`: the number at `idx`. It panics where the eight bytes that it reads are not
/// all there.
pub assume_specification[ BitUnpacker::get ](
    unpacker: &BitUnpacker,
    idx: u64,
    data: &[u8],
) -> (val: u64)
    requires
        field_in_bounds(data@, unpacker_width(*unpacker), idx as nat),
    ensures
        val == field(data@, unpacker_width(*unpacker), idx as nat),
;

} // verus!
