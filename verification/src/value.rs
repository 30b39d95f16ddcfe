//! Values exchanged with a circuit, and the conversion between unsigned
//! integers and most-significant-bit-first bit arrays.

use vstd::prelude::*;
use vstd::arithmetic::power2::*;

verus! {

/// A value fed to or read from a circuit.
#[derive(Debug, PartialEq, Eq)]
pub enum Value {
    Bit(bool),
    U8(u8),
    U16(u16),
    U32(u32),
    U64(u64),
    U128(u128),
    Array(Vec<Value>),
}

/// Bit `j` (counting from the least significant bit) of `v`.
pub open spec fn bit_of(v: nat, j: nat) -> bool {
    (v / pow2(j)) % 2 == 1
}

/// The lowest `width` bits of `value`, most significant first.
pub open spec fn bits_msb_first(value: nat, width: nat) -> Seq<bool> {
    Seq::new(width, |k: int| bit_of(value, (width - 1 - k) as nat))
}

/// The number whose binary digits, most significant first, are `bits`.
pub open spec fn bits_value(bits: Seq<bool>) -> nat
    decreases bits.len(),
{
    if bits.len() == 0 {
        0
    } else {
        2 * bits_value(bits.drop_last()) + if bits.last() { 1nat } else { 0nat }
    }
}

/// The boolean carried by a `Bit` value (false for any other value).
pub open spec fn bit_value(v: Value) -> bool {
    match v {
        Value::Bit(b) => b,
        _ => false,
    }
}

/// `v` is an array whose every element is a single bit.
pub open spec fn is_bit_array(v: Value) -> bool {
    match v {
        Value::Array(items) => forall|i: int| 0 <= i < items@.len() ==> (#[trigger] items@[i]) is Bit,
        _ => false,
    }
}

/// The bits of a bit array, in array order.
pub open spec fn array_bits(v: Value) -> Seq<bool> {
    match v {
        Value::Array(items) => items@.map_values(|x: Value| bit_value(x)),
        _ => Seq::empty(),
    }
}

/// A bit array holding exactly `bits`.
pub open spec fn is_bit_array_of(v: Value, bits: Seq<bool>) -> bool {
    match v {
        Value::Array(items) => {
            &&& items@.len() == bits.len()
            &&& forall|i: int| 0 <= i < bits.len() ==> #[trigger] items@[i] == Value::Bit(bits[i])
        },
        _ => false,
    }
}

proof fn lemma_pow2_usize_bits()
    ensures
        pow2(usize::BITS as nat) == usize::MAX + 1,
{
    lemma2_to64();
}

/// A bit array is never worth more than two to the power of its length.
pub proof fn lemma_bits_value_bound(bits: Seq<bool>)
    ensures
        bits_value(bits) < pow2(bits.len()),
    decreases bits.len(),
{
    if bits.len() > 0 {
        lemma_bits_value_bound(bits.drop_last());
        lemma_pow2_unfold(bits.len());
    } else {
        lemma_pow2_pos(0);
        lemma2_to64();
    }
}

/// Encodes the lowest `width` bits of `value` as an array of bits, most
/// significant bit first.
pub fn usize_to_mpz_bit_array(value: usize, width: usize) -> (res: Value)
    requires
        width <= usize::BITS,
    ensures
        is_bit_array_of(res, bits_msb_first(value as nat, width as nat)),
{
    let mut items: Vec<Value> = Vec::new();
    let mut k: usize = 0;
    while k < width
        invariant
            k <= width <= usize::BITS,
            items@.len() == k,
            forall|i: int| 0 <= i < k ==> #[trigger] items@[i] == Value::Bit(bit_of(value as nat, (width - 1 - i) as nat)),
        decreases width - k,
    {
        let j: usize = width - 1 - k;
        let shifted: usize = value >> j;
        proof {
            vstd::bits::lemma_usize_shr_is_div(value, j);
            assert(shifted & 1 == shifted % 2) by (bit_vector);
        }
        let b: bool = shifted & 1 == 1;
        items.push(Value::Bit(b));
        k = k + 1;
    }
    let res = Value::Array(items);
    assert(is_bit_array_of(res, bits_msb_first(value as nat, width as nat)));
    res
}

/// Reads an array of bits, most significant bit first, as an unsigned integer.
pub fn mpz_bit_array_to_usize(value: &Value) -> (res: usize)
    requires
        is_bit_array(*value),
        array_bits(*value).len() <= usize::BITS,
    ensures
        res == bits_value(array_bits(*value)),
{
    match value {
        Value::Array(items) => {
            let ghost bits = array_bits(*value);
            let n = items.len();
            let mut res: usize = 0;
            let mut k: usize = 0;
            while k < n
                invariant
                    n == items@.len() == bits.len() <= usize::BITS,
                    k <= n,
                    bits == items@.map_values(|x: Value| bit_value(x)),
                    forall|i: int| 0 <= i < items@.len() ==> (#[trigger] items@[i]) is Bit,
                    res == bits_value(bits.take(k as int)),
                decreases n - k,
            {
                proof {
                    lemma_bits_value_bound(bits.take(k as int));
                    lemma_pow2_unfold((k + 1) as nat);
                    if k + 1 < usize::BITS {
                        lemma_pow2_strictly_increases((k + 1) as nat, usize::BITS as nat);
                    }
                    lemma_pow2_usize_bits();
                    assert(bits.take(k + 1).drop_last() =~= bits.take(k as int));
                }
                let b: usize = match &items[k] {
                    Value::Bit(true) => 1,
                    _ => 0,
                };
                res = res * 2 + b;
                k = k + 1;
            }
            assert(bits.take(n as int) =~= bits);
            res
        },
        _ => 0,
    }
}

/// Whether `value` can be read back with [`mpz_bit_array_to_usize`]: an array
/// of bits no longer than a machine word.
pub fn is_decodable_bit_array(value: &Value) -> (res: bool)
    ensures
        res == (is_bit_array(*value) && array_bits(*value).len() <= usize::BITS),
{
    match value {
        Value::Array(items) => {
            if items.len() > usize::BITS as usize {
                return false;
            }
            let mut k: usize = 0;
            while k < items.len()
                invariant
                    k <= items@.len() <= usize::BITS,
                    *value == Value::Array(*items),
                    forall|i: int| 0 <= i < k ==> (#[trigger] items@[i]) is Bit,
                decreases items@.len() - k,
            {
                match &items[k] {
                    Value::Bit(_) => {},
                    _ => {
                        assert(!(items@[k as int] is Bit));
                        return false;
                    },
                }
                k = k + 1;
            }
            true
        },
        _ => false,
    }
}

proof fn lemma_bit_of_half(v: nat, j: nat)
    ensures
        bit_of(v, j + 1) == bit_of(v / 2, j),
        bit_of(v, 0) == (v % 2 == 1),
{
    lemma_pow2_unfold(j + 1);
    lemma_pow2_pos(j);
    vstd::arithmetic::div_mod::lemma_div_denominator(v as int, 2, pow2(j) as int);
    lemma2_to64();
}

/// Encoding the lowest `width` bits of a number and reading them back gives
/// the number modulo two to the power of `width`.
pub proof fn lemma_bit_array_round_trip(value: nat, width: nat)
    ensures
        bits_value(bits_msb_first(value, width)) == value % pow2(width),
    decreases width,
{
    let s = bits_msb_first(value, width);
    if width == 0 {
        lemma2_to64();
        assert(s.len() == 0);
    } else {
        let w = (width - 1) as nat;
        lemma_bit_array_round_trip(value / 2, w);
        assert forall|k: int| 0 <= k < w implies #[trigger] s.drop_last()[k] == bits_msb_first(value / 2, w)[k] by {
            lemma_bit_of_half(value, (w - 1 - k) as nat);
        }
        assert(s.drop_last() =~= bits_msb_first(value / 2, w));
        lemma_bit_of_half(value, 0);
        lemma_pow2_pos(w);
        lemma_pow2_unfold(width);
        vstd::arithmetic::div_mod::lemma_breakdown(value as int, 2, pow2(w) as int);
        lemma2_to64();
    }
}

/// Reading a bit array as a number and encoding that number back with the
/// array's length gives the same bits.
pub proof fn lemma_bits_round_trip(bits: Seq<bool>)
    ensures
        bits_msb_first(bits_value(bits), bits.len()) == bits,
    decreases bits.len(),
{
    if bits.len() > 0 {
        let d = bits.drop_last();
        let m = bits_value(d);
        let n = bits_value(bits);
        lemma_bits_round_trip(d);
        assert(n / 2 == m && n % 2 == (if bits.last() { 1nat } else { 0nat }));
        assert forall|k: int| 0 <= k < bits.len() implies #[trigger] bits_msb_first(n, bits.len())[k] == bits[k] by {
            if k < bits.len() - 1 {
                lemma_bit_of_half(n, (bits.len() - 2 - k) as nat);
                assert(bits_msb_first(m, d.len())[k] == d[k]);
            } else {
                lemma_bit_of_half(n, 0);
            }
        }
        assert(bits_msb_first(n, bits.len()) =~= bits);
    } else {
        assert(bits_msb_first(bits_value(bits), 0) =~= bits);
    }
}

/// What [`usize_to_mpz_bit_array`] produces, [`mpz_bit_array_to_usize`]
/// accepts (for widths up to a machine word) and reads back as the encoded
/// number modulo two to the power of the width.
pub proof fn lemma_encode_then_decode(encoded: Value, value: nat, width: nat)
    requires
        is_bit_array_of(encoded, bits_msb_first(value, width)),
    ensures
        is_bit_array(encoded),
        array_bits(encoded) == bits_msb_first(value, width),
        bits_value(array_bits(encoded)) == value % pow2(width),
{
    match encoded {
        Value::Array(items) => {
            assert(array_bits(encoded) =~= bits_msb_first(value, width));
        },
        _ => {},
    }
    lemma_bit_array_round_trip(value, width);
}

/// A value that reads as an unsigned integer: a single 32-bit word, or an
/// array of bits no longer than a machine word.
pub open spec fn is_number_value(v: Value) -> bool {
    v is U32 || (is_bit_array(v) && array_bits(v).len() <= usize::BITS)
}

/// The unsigned integer a word or a bit array stands for.
pub open spec fn number_of(v: Value) -> nat {
    match v {
        Value::U32(x) => x as nat,
        _ => bits_value(array_bits(v)),
    }
}

/// Whether [`value_to_usize`] can read `value`.
pub fn is_number(value: &Value) -> (res: bool)
    ensures
        res == is_number_value(*value),
{
    match value {
        Value::U32(_) => true,
        _ => is_decodable_bit_array(value),
    }
}

/// Reads a word, or an array of bits (most significant first), as an
/// unsigned integer.
pub fn value_to_usize(value: &Value) -> (res: usize)
    requires
        is_number_value(*value),
    ensures
        res == number_of(*value),
{
    match value {
        Value::U32(x) => *x as usize,
        _ => mpz_bit_array_to_usize(value),
    }
}

/// Encodes an unsigned integer as the value of an input of `width` words:
/// its lowest `width` bits as a bit array on a bit circuit; its lowest 32
/// bits as a single word on a word circuit with a one-word input. A word
/// input of another width has no such encoding.
pub fn encode_input(word: crate::circuit::WordKind, width: usize, value: usize) -> (res: Option<Value>)
    requires
        word == crate::circuit::WordKind::Bit ==> width <= usize::BITS,
    ensures
        match word {
            crate::circuit::WordKind::Bit => res matches Some(v) && is_bit_array_of(v, bits_msb_first(value as nat, width as nat)),
            crate::circuit::WordKind::U32 => if width == 1 {
                res == Some(Value::U32(value as u32))
            } else {
                res is None
            },
        },
{
    match word {
        crate::circuit::WordKind::Bit => Some(usize_to_mpz_bit_array(value, width)),
        crate::circuit::WordKind::U32 => if width == 1 {
            Some(Value::U32(value as u32))
        } else {
            None
        },
    }
}

/// Only the lowest `width` bits of a number matter to its encoding on
/// `width` bits.
pub proof fn lemma_only_low_bits_matter(value: nat, width: nat)
    ensures
        bits_msb_first(value, width) == bits_msb_first(value % pow2(width), width),
{
    lemma_bit_array_round_trip(value, width);
    lemma_bits_round_trip(bits_msb_first(value, width));
}

} // verus!
