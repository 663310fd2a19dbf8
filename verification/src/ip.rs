//! IP addresses as numbers.
use vstd::arithmetic::power::{lemma_pow_increases, pow};
use vstd::prelude::*;

verus! {

/// An IP address by its octets, in the order in which they are written.
#[derive(Debug, Clone, Copy, PartialEq, Eq)]
pub enum IpAddr {
    V4([u8; 4]),
    V6([u8; 16]),
}

/// The number whose base 256 digits, highest first, are `octets`.
pub open spec fn be_value(octets: Seq<u8>) -> nat
    decreases octets.len(),
{
    if octets.len() == 0 {
        0
    } else {
        256 * be_value(octets.drop_last()) + octets.last() as nat
    }
}

impl IpAddr {
    /// The octets of the address as an IPv6 address. That of the IPv4 address `a.b.c.d` is
    /// `::ffff:a.b.c.d`.
    pub open spec fn v6_octets(self) -> Seq<u8> {
        match self {
            IpAddr::V4(v4) => seq![0, 0, 0, 0, 0, 0, 0, 0, 0, 0, 0xff, 0xff] + v4@,
            IpAddr::V6(v6) => v6@,
        }
    }
}

/// The number of an IP address: an IPv4 address is numbered as the IPv6 address that it maps to.
pub fn ip_to_u128(ip_addr: IpAddr) -> (number: u128)
    ensures
        number == be_value(ip_addr.v6_octets()),
        ip_addr matches IpAddr::V4(v4) ==> number == 0xffff_0000_0000 + be_value(v4@),
        ip_addr matches IpAddr::V6(v6) ==> number == be_value(v6@),
{
    proof {
        if let IpAddr::V4(v4) = ip_addr {
            law_v4_numbers(v4);
        }
    }
    let octets: [u8; 16] = match ip_addr {
        IpAddr::V4(v4) => [
            0, 0, 0, 0, 0, 0, 0, 0, 0, 0, 0xff, 0xff, v4[0], v4[1], v4[2], v4[3],
        ],
        IpAddr::V6(v6) => v6,
    };
    assert(octets@ =~= ip_addr.v6_octets());
    let mut number: u128 = 0;
    let mut i: usize = 0;
    proof {
        reveal(pow);
        assert(octets@.take(0) =~= Seq::empty());
    }
    while i < 16
        invariant
            i <= 16,
            octets@.len() == 16,
            number == be_value(octets@.take(i as int)),
            number < pow(256, i as nat),
        decreases 16 - i,
    {
        proof {
            lemma_pow_increases(256, i as nat + 1, 16);
            assert(pow(256, 16) == u128::MAX + 1) by {
                reveal_with_fuel(pow, 17);
            }
            assert(pow(256, i as nat + 1) == 256 * pow(256, i as nat)) by {
                reveal(pow);
            }
            assert(octets@.take(i + 1).drop_last() =~= octets@.take(i as int));
        }
        number = number * 256 + octets[i] as u128;
        i += 1;
    }
    assert(octets@.take(16) =~= octets@);
    number
}

proof fn lemma_be_value_injective(a: Seq<u8>, b: Seq<u8>)
    requires
        a.len() == b.len(),
        be_value(a) == be_value(b),
    ensures
        a == b,
    decreases a.len(),
{
    if a.len() == 0 {
        assert(a =~= b);
    } else {
        lemma_be_value_injective(a.drop_last(), b.drop_last());
        assert(a =~= a.drop_last().push(a.last()));
        assert(b =~= b.drop_last().push(b.last()));
    }
}

/// Addresses have the same number exactly if they are the same IPv6 address.
pub proof fn law_numbers_tell_addresses_apart(left: IpAddr, right: IpAddr)
    ensures
        be_value(left.v6_octets()) == be_value(right.v6_octets()) <==> left.v6_octets()
            == right.v6_octets(),
{
    assert(left.v6_octets().len() == 16);
    assert(right.v6_octets().len() == 16);
    if be_value(left.v6_octets()) == be_value(right.v6_octets()) {
        lemma_be_value_injective(left.v6_octets(), right.v6_octets());
    }
}

/// The numbers of the IPv4 addresses follow on each other.
pub proof fn law_v4_numbers(v4: [u8; 4])
    ensures
        be_value(IpAddr::V4(v4).v6_octets()) == 0xffff_0000_0000 + be_value(v4@),
{
    let head = seq![0u8, 0, 0, 0, 0, 0, 0, 0, 0, 0, 0xff, 0xff];
    assert(be_value(head) == 0xffff) by {
        reveal_with_fuel(be_value, 13);
    }
    lemma_be_value_concat(head, v4@);
    assert(pow(256, 4) == 0x1_0000_0000) by {
        reveal_with_fuel(pow, 5);
    }
}

proof fn lemma_be_value_concat(a: Seq<u8>, b: Seq<u8>)
    ensures
        be_value(a + b) == be_value(a) * pow(256, b.len()) + be_value(b),
    decreases b.len(),
{
    reveal(pow);
    if b.len() == 0 {
        assert(a + b =~= a);
        assert(be_value(a) * 1 == be_value(a));
    } else {
        lemma_be_value_concat(a, b.drop_last());
        assert((a + b).drop_last() =~= a + b.drop_last());
        let p = pow(256, (b.len() - 1) as nat);
        assert(256 * (be_value(a) * p) == be_value(a) * (256 * p)) by (nonlinear_arith);
    }
}

/// The octets are the base 256 digits of their number.
proof fn lemma_be_value_digit(octets: Seq<u8>, i: int)
    requires
        0 <= i < octets.len(),
    ensures
        (be_value(octets) as int / pow(256, (octets.len() - 1 - i) as nat)) % 256 == octets[i],
    decreases octets.len(),
{
    let value = be_value(octets) as int;
    let rest = be_value(octets.drop_last()) as int;
    reveal(pow);
    if i < octets.len() - 1 {
        let p = pow(256, (octets.len() - 2 - i) as nat);
        lemma_be_value_digit(octets.drop_last(), i);
        vstd::arithmetic::power::lemma_pow_positive(256, (octets.len() - 2 - i) as nat);
        assert(value / 256 == rest);
        vstd::arithmetic::div_mod::lemma_div_denominator(value, 256, p);
        assert(pow(256, (octets.len() - 1 - i) as nat) == 256 * p);
    } else {
        assert(pow(256, 0) == 1);
    }
}

/// The number of an IPv6 address has its octets, from the first to the last, for its base 256
/// digits, from the highest to the lowest.
pub proof fn law_v6_numbers(v6: [u8; 16])
    ensures
        be_value(IpAddr::V6(v6).v6_octets()) == be_value(v6@),
        forall|i: int|
            0 <= i < 16 ==> (be_value(IpAddr::V6(v6).v6_octets()) as int / pow(
                256,
                (15 - i) as nat,
            )) % 256 == #[trigger] v6@[i],
{
    assert forall|i: int| 0 <= i < 16 implies (be_value(IpAddr::V6(v6).v6_octets()) as int / pow(
        256,
        (15 - i) as nat,
    )) % 256 == #[trigger] v6@[i] by {
        lemma_be_value_digit(v6@, i);
    }
}

/// The number of an IPv4 address has its octets, from the first to the last, for its four lowest
/// base 256 digits.
pub proof fn law_v4_digits(v4: [u8; 4])
    ensures
        forall|i: int|
            0 <= i < 4 ==> ((be_value(IpAddr::V4(v4).v6_octets()) - 0xffff_0000_0000) / pow(
                256,
                (3 - i) as nat,
            )) % 256 == #[trigger] v4@[i],
{
    law_v4_numbers(v4);
    assert forall|i: int| 0 <= i < 4 implies ((be_value(IpAddr::V4(v4).v6_octets())
        - 0xffff_0000_0000) / pow(256, (3 - i) as nat)) % 256 == #[trigger] v4@[i] by {
        lemma_be_value_digit(v4@, i);
    }
}

/// Different IPv6 addresses have different numbers, and so do different IPv4 addresses.
pub proof fn law_different_addresses_differ(
    left6: [u8; 16],
    right6: [u8; 16],
    left4: [u8; 4],
    right4: [u8; 4],
)
    ensures
        left6@ != right6@ ==> be_value(IpAddr::V6(left6).v6_octets()) != be_value(
            IpAddr::V6(right6).v6_octets(),
        ),
        left4@ != right4@ ==> be_value(IpAddr::V4(left4).v6_octets()) != be_value(
            IpAddr::V4(right4).v6_octets(),
        ),
{
    law_v6_numbers(left6);
    law_v6_numbers(right6);
    law_v4_numbers(left4);
    law_v4_numbers(right4);
    if be_value(left6@) == be_value(right6@) {
        lemma_be_value_injective(left6@, right6@);
    }
    if be_value(left4@) == be_value(right4@) {
        lemma_be_value_injective(left4@, right4@);
    }
}

} // verus!
