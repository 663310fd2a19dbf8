//! Numbers and byte strings as sequences of bits, least significant bit first.
use vstd::prelude::*;

verus! {

/// The `n` lowest bits of `v`, least significant first.
pub open spec fn bits_of(v: nat, n: nat) -> Seq<bool>
    decreases n,
{
    if n == 0 {
        Seq::empty()
    } else {
        seq![v % 2 == 1] + bits_of(v / 2, (n - 1) as nat)
    }
}

/// The number that a sequence of bits, least significant first, stands for.
pub open spec fn bits_value(bits: Seq<bool>) -> nat
    decreases bits.len(),
{
    if bits.len() == 0 {
        0
    } else {
        (if bits[0] { 1nat } else { 0nat }) + 2 * bits_value(bits.drop_first())
    }
}

/// The bits of a byte string: byte after byte, each least significant bit first.
pub open spec fn le_bits(bytes: Seq<u8>) -> Seq<bool>
    decreases bytes.len(),
{
    if bytes.len() == 0 {
        Seq::empty()
    } else {
        bits_of(bytes[0] as nat, 8) + le_bits(bytes.drop_first())
    }
}

/// A run of `n` zero bits.
pub open spec fn zero_bits(n: nat) -> Seq<bool> {
    Seq::new(n, |i: int| false)
}

/// The number of binary digits of `n`; zero has none.
pub open spec fn bit_len(n: nat) -> nat
    decreases n,
{
    if n == 0 {
        0
    } else {
        1 + bit_len(n / 2)
    }
}

/// The bits of `values`, each written with `width` bits, one after the other.
pub open spec fn packed_bits(values: Seq<u64>, width: nat) -> Seq<bool>
    decreases values.len(),
{
    if values.len() == 0 {
        Seq::empty()
    } else {
        packed_bits(values.drop_last(), width) + bits_of(values.last() as nat, width)
    }
}

pub proof fn lemma_bits_of_len(v: nat, n: nat)
    ensures
        bits_of(v, n).len() == n,
    decreases n,
{
    if n > 0 {
        lemma_bits_of_len(v / 2, (n - 1) as nat);
    }
}

/// A number that fits in `n` bits is given back by its `n` lowest bits.
pub proof fn lemma_bits_value_of(v: nat, n: nat)
    requires
        bit_len(v) <= n,
    ensures
        bits_value(bits_of(v, n)) == v,
    decreases n,
{
    if n > 0 {
        if v == 0 {
            assert(bit_len(v / 2) == 0);
        }
        lemma_bits_value_of(v / 2, (n - 1) as nat);
        assert(bits_of(v, n).drop_first() =~= bits_of(v / 2, (n - 1) as nat));
    }
}

pub proof fn lemma_le_bits_len(bytes: Seq<u8>)
    ensures
        le_bits(bytes).len() == 8 * bytes.len(),
    decreases bytes.len(),
{
    if bytes.len() > 0 {
        lemma_bits_of_len(bytes[0] as nat, 8);
        lemma_le_bits_len(bytes.drop_first());
    }
}

pub proof fn lemma_le_bits_concat(a: Seq<u8>, b: Seq<u8>)
    ensures
        le_bits(a + b) == le_bits(a) + le_bits(b),
    decreases a.len(),
{
    if a.len() == 0 {
        assert(a + b =~= b);
        assert(le_bits(a) + le_bits(b) =~= le_bits(b));
    } else {
        lemma_le_bits_concat(a.drop_first(), b);
        assert((a + b).drop_first() =~= a.drop_first() + b);
        assert(le_bits(a + b) =~= le_bits(a) + le_bits(b));
    }
}

/// The bits of a slice of a byte string.
pub proof fn lemma_le_bits_subrange(bytes: Seq<u8>, from: int, to: int)
    requires
        0 <= from <= to <= bytes.len(),
    ensures
        le_bits(bytes.subrange(from, to)) == le_bits(bytes).subrange(8 * from, 8 * to),
{
    let a = bytes.take(from);
    let b = bytes.subrange(from, to);
    let c = bytes.skip(to);
    assert(bytes =~= a + (b + c));
    lemma_le_bits_concat(a, b + c);
    lemma_le_bits_concat(b, c);
    lemma_le_bits_len(a);
    lemma_le_bits_len(b);
    lemma_le_bits_len(c);
    assert(le_bits(bytes).subrange(8 * from, 8 * to) =~= le_bits(b));
}

proof fn lemma_byte_bit_len(b: u8)
    ensures
        bit_len(b as nat) <= 8,
{
    lemma_bit_len_bound(b as nat, 8);
    assert(vstd::arithmetic::power2::pow2(8) == 256) by {
        vstd::arithmetic::power2::lemma2_to64();
    }
}

/// `n` fits in `k` bits exactly when it is below two to the power `k`.
pub proof fn lemma_bit_len_bound(n: nat, k: nat)
    ensures
        bit_len(n) <= k <==> n < vstd::arithmetic::power2::pow2(k),
    decreases k,
{
    if k == 0 {
        vstd::arithmetic::power2::lemma2_to64();
    } else {
        vstd::arithmetic::power2::lemma_pow2_unfold(k);
        lemma_bit_len_bound(n / 2, (k - 1) as nat);
        if n == 0 {
            vstd::arithmetic::power2::lemma_pow2_pos(k);
        }
    }
}

pub proof fn lemma_bit_len_monotone(m: nat, n: nat)
    requires
        m <= n,
    ensures
        bit_len(m) <= bit_len(n),
    decreases n,
{
    if m > 0 {
        lemma_bit_len_monotone(m / 2, n / 2);
    }
}

/// Byte strings with the same bits are the same.
pub proof fn lemma_le_bits_injective(a: Seq<u8>, b: Seq<u8>)
    requires
        le_bits(a) == le_bits(b),
    ensures
        a == b,
    decreases a.len(),
{
    lemma_le_bits_len(a);
    lemma_le_bits_len(b);
    if a.len() > 0 {
        let x = a[0] as nat;
        let y = b[0] as nat;
        lemma_bits_of_len(x, 8);
        lemma_bits_of_len(y, 8);
        assert(bits_of(x, 8) =~= le_bits(a).take(8));
        assert(bits_of(y, 8) =~= le_bits(b).take(8));
        assert(le_bits(a.drop_first()) =~= le_bits(a).skip(8));
        assert(le_bits(b.drop_first()) =~= le_bits(b).skip(8));
        lemma_byte_bit_len(a[0]);
        lemma_byte_bit_len(b[0]);
        lemma_bits_value_of(x, 8);
        lemma_bits_value_of(y, 8);
        lemma_le_bits_injective(a.drop_first(), b.drop_first());
        assert(a =~= seq![a[0]] + a.drop_first());
        assert(b =~= seq![b[0]] + b.drop_first());
    } else {
        assert(a =~= b);
    }
}

/// A byte string whose bits begin with those of `a` begins with `a`.
pub proof fn lemma_le_bits_prefix(bytes: Seq<u8>, a: Seq<u8>)
    requires
        a.len() <= bytes.len(),
        le_bits(a) == le_bits(bytes).take(8 * a.len() as int),
    ensures
        bytes.take(a.len() as int) == a,
        le_bits(bytes.skip(a.len() as int)) == le_bits(bytes).skip(8 * a.len() as int),
{
    let n = a.len() as int;
    lemma_le_bits_len(bytes);
    lemma_le_bits_subrange(bytes, 0, n);
    lemma_le_bits_subrange(bytes, n, bytes.len() as int);
    assert(le_bits(bytes).subrange(0, 8 * n) =~= le_bits(bytes).take(8 * n));
    assert(le_bits(bytes).subrange(8 * n, 8 * bytes.len() as int) =~= le_bits(bytes).skip(8 * n));
    assert(bytes.subrange(0, n) =~= bytes.take(n));
    assert(bytes.subrange(n, bytes.len() as int) =~= bytes.skip(n));
    lemma_le_bits_injective(bytes.take(n), a);
}

pub proof fn lemma_packed_bits_len(values: Seq<u64>, width: nat)
    ensures
        packed_bits(values, width).len() == values.len() * width,
    decreases values.len(),
{
    if values.len() > 0 {
        lemma_packed_bits_len(values.drop_last(), width);
        lemma_bits_of_len(values.last() as nat, width);
        assert(values.len() * width == (values.len() - 1) * width + width) by (nonlinear_arith);
    }
}

/// The bits at the place of the `i`th value are the bits of that value.
pub proof fn lemma_packed_bits_at(values: Seq<u64>, width: nat, i: int)
    requires
        0 <= i < values.len(),
    ensures
        i * width + width <= packed_bits(values, width).len(),
        packed_bits(values, width).subrange(i * width, i * width + width) == bits_of(
            values[i] as nat,
            width,
        ),
    decreases values.len(),
{
    let all = packed_bits(values, width);
    lemma_packed_bits_len(values, width);
    lemma_packed_bits_len(values.drop_last(), width);
    lemma_bits_of_len(values.last() as nat, width);
    assert(0 <= i * width) by (nonlinear_arith)
        requires
            0 <= i,
    ;
    if i == values.len() - 1 {
        assert(i * width == (values.len() - 1) * width);
        assert(all.subrange(i * width, i * width + width) =~= bits_of(values[i] as nat, width));
    } else {
        lemma_packed_bits_at(values.drop_last(), width, i);
        assert(values.drop_last()[i] == values[i]);
        assert(all.subrange(i * width, i * width + width) =~= packed_bits(
            values.drop_last(),
            width,
        ).subrange(i * width, i * width + width));
    }
}

} // verus!
