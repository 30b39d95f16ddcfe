//! The computing parts of a session: choosing a party's role, sizing the OT
//! setup, deciding how each input enters the garbled circuit, and reading
//! the outputs back as named integers.

use vstd::prelude::*;
use crate::bristol::entries_view;
use crate::setup_garble::Role;
use crate::circuit::WordKind;
use crate::value::{Value, bits_msb_first, encode_input, is_bit_array_of, is_number_value, number_of, value_to_usize};

verus! {

/// The leader plays Alice, the other party Bob.
pub fn role_for(is_leader: bool) -> (role: Role)
    ensures
        role == if is_leader { Role::Alice } else { Role::Bob },
{
    if is_leader {
        Role::Alice
    } else {
        Role::Bob
    }
}

/// How many oblivious transfers to set up for a circuit with this many
/// inputs: 32 per input.
pub fn ot_count(input_count: usize) -> (count: usize)
    requires
        32 * input_count <= usize::MAX,
    ensures
        count == 32 * input_count,
{
    32 * input_count
}

/// How one input enters the garbled circuit.
#[derive(Debug, PartialEq, Eq)]
pub enum GarbleInput {
    /// The other party supplies it.
    Blind { width: usize },
    /// This party supplies it, with this value.
    Private { width: usize, value: Value },
}

/// An input whose value this party does not have is blind; one it has is
/// private and is assigned its encoding (see [`encode_input`]): on a bit
/// circuit the value's lowest `width` bits. `None` where the input has no
/// encoding (a word input wider than one word).
pub fn garble_input(word: WordKind, width: usize, value: Option<usize>) -> (res: Option<GarbleInput>)
    requires
        value is Some && word == WordKind::Bit ==> width <= usize::BITS,
    ensures
        match value {
            None => res == Some(GarbleInput::Blind { width }),
            Some(v) => match word {
                WordKind::Bit => res matches Some(GarbleInput::Private { width: w, value: bits }) && w == width
                    && is_bit_array_of(bits, bits_msb_first(v as nat, width as nat)),
                WordKind::U32 => if width == 1 {
                    res == Some(GarbleInput::Private { width, value: Value::U32(v as u32) })
                } else {
                    res is None
                },
            },
        },
{
    match value {
        None => Some(GarbleInput::Blind { width }),
        Some(v) => match encode_input(word, width, v) {
            Some(encoded) => Some(GarbleInput::Private { width, value: encoded }),
            None => None,
        },
    }
}

/// Every value that [`decode_outputs`] reads is a word or a bit array no
/// longer than a machine word.
pub open spec fn decodable(values: Seq<Value>, n: int) -> bool {
    forall|i: int| 0 <= i < n ==> is_number_value(#[trigger] values[i])
}

/// Pairs each output's name with the integer its value stands for (a word, or
/// bits most significant first), as far as both lists go.
pub fn decode_outputs(outputs: &Vec<(String, usize)>, values: &Vec<Value>) -> (res: Vec<(String, usize)>)
    requires
        decodable(values@, if outputs@.len() < values@.len() { outputs@.len() as int } else { values@.len() as int }),
    ensures
        res@.len() == if outputs@.len() < values@.len() { outputs@.len() } else { values@.len() },
        forall|i: int| 0 <= i < res@.len() ==> (#[trigger] entries_view(res@)[i]).0 == entries_view(outputs@)[i].0 && entries_view(res@)[i].1 == number_of(values@[i]),
{
    let n = if outputs.len() < values.len() { outputs.len() } else { values.len() };
    let mut res: Vec<(String, usize)> = Vec::new();
    let mut i: usize = 0;
    while i < n
        invariant
            i <= n,
            n <= outputs@.len(),
            n <= values@.len(),
            decodable(values@, n as int),
            res@.len() == i,
            forall|k: int| 0 <= k < i ==> (#[trigger] entries_view(res@)[k]).0 == entries_view(outputs@)[k].0 && entries_view(res@)[k].1 == number_of(values@[k]),
        decreases n - i,
    {
        let decoded = value_to_usize(&values[i]);
        let ghost before = res@;
        res.push((outputs[i].0.clone(), decoded));
        proof {
            assert forall|k: int| 0 <= k < i + 1 implies (#[trigger] entries_view(res@)[k]).0 == entries_view(outputs@)[k].0 && entries_view(res@)[k].1 == number_of(values@[k]) by {
                if k < i {
                    assert(res@[k] == before[k]);
                    assert(entries_view(res@)[k] == entries_view(before)[k]);
                } else {
                    assert(entries_view(res@)[k] == (res@[k].0@, res@[k].1));
                    assert(entries_view(outputs@)[k] == (outputs@[k].0@, outputs@[k].1));
                }
            }
        }
        i = i + 1;
    }
    res
}

/// Why evaluated outputs could not be read back.
#[derive(Clone, Copy, PartialEq, Eq, Structural, Debug)]
pub enum EvalError {
    /// The circuit produced a different number of values than it has outputs.
    OutputCountMismatch,
}

/// Reads the values an evaluation produced as named integers; the values
/// must be exactly one per output.
pub fn read_eval_outputs(outputs: &Vec<(String, usize)>, values: &Vec<Value>) -> (res: Result<Vec<(String, usize)>, EvalError>)
    requires
        outputs@.len() == values@.len() ==> decodable(values@, values@.len() as int),
    ensures
        match res {
            Err(e) => e == EvalError::OutputCountMismatch && outputs@.len() != values@.len(),
            Ok(named) => {
                &&& outputs@.len() == values@.len() == named@.len()
                &&& forall|i: int| 0 <= i < named@.len() ==> (#[trigger] entries_view(named@)[i]).0 == entries_view(outputs@)[i].0 && entries_view(named@)[i].1 == number_of(values@[i])
            },
        },
{
    if outputs.len() != values.len() {
        return Err(EvalError::OutputCountMismatch);
    }
    Ok(decode_outputs(outputs, values))
}

/// An input value as the host hands it over.
#[derive(Debug, PartialEq, Eq)]
pub enum JsInput {
    Undefined,
    Null,
    Bool(bool),
    /// A string, as its UTF-8 bytes.
    Text(Vec<u8>),
    /// A number, already truncated to an unsigned integer by the host.
    Number(usize),
    /// Any other kind of value.
    Other,
}

/// Why an input value could not be read as an unsigned integer.
#[derive(Clone, Copy, PartialEq, Eq, Structural, Debug)]
pub enum InputError {
    Undefined,
    Null,
    UnparsableString,
    Invalid,
}

/// The ASCII decimal digits.
pub open spec fn is_digit(b: u8) -> bool {
    48 <= b <= 57
}

/// The number written by decimal digits, most significant first.
pub open spec fn digits_value(d: Seq<u8>) -> nat
    decreases d.len(),
{
    if d.len() == 0 {
        0
    } else {
        10 * digits_value(d.drop_last()) + (d.last() - 48) as nat
    }
}

/// Every byte is a decimal digit.
pub open spec fn all_digits(d: Seq<u8>) -> bool {
    forall|i: int| 0 <= i < d.len() ==> is_digit(#[trigger] d[i])
}

/// The unsigned integer a string spells in decimal: an optional `+`, then
/// one or more digits, the value fitting in `usize`.
pub open spec fn parse_decimal(text: Seq<u8>) -> Option<usize> {
    let d = if text.len() > 0 && text[0] == 43 { text.drop_first() } else { text };
    if d.len() > 0 && all_digits(d) && digits_value(d) <= usize::MAX {
        Some(digits_value(d) as usize)
    } else {
        None
    }
}

proof fn lemma_digits_value_grows(d: Seq<u8>, k: int)
    requires
        all_digits(d),
        0 <= k <= d.len(),
    ensures
        digits_value(d.take(k)) <= digits_value(d),
    decreases d.len() - k,
{
    if k < d.len() {
        lemma_digits_value_grows(d, k + 1);
        assert(d.take(k + 1).drop_last() =~= d.take(k));
        assert(is_digit(d[k]));
    } else {
        assert(d.take(k) =~= d);
    }
}

/// Reads a decimal unsigned integer: an optional `+` followed by one or more
/// ASCII digits, whose value fits in `usize`.
pub fn parse_usize(text: &Vec<u8>) -> (res: Option<usize>)
    ensures
        res == parse_decimal(text@),
{
    let n = text.len();
    let start: usize = if n > 0 && text[0] == 43 { 1 } else { 0 };
    let ghost d = if text@.len() > 0 && text@[0] == 43 { text@.drop_first() } else { text@ };
    assert(d =~= text@.skip(start as int));
    if start == n {
        return None;
    }
    let mut value: usize = 0;
    let mut i: usize = start;
    while i < n
        invariant
            start <= i <= n == text@.len(),
            start < n,
            d == text@.skip(start as int),
            d == if text@.len() > 0 && text@[0] == 43 { text@.drop_first() } else { text@ },
            forall|k: int| 0 <= k < i - start ==> is_digit(#[trigger] d[k]),
            value == digits_value(d.take(i - start)),
        decreases n - i,
    {
        let b = text[i];
        let ghost k = i - start;
        assert(d[k] == b);
        if b < 48 || b > 57 {
            assert(!all_digits(d));
            return None;
        }
        assert(d.take(k + 1).drop_last() =~= d.take(k));
        let digit = (b - 48) as usize;
        if value > (usize::MAX - digit) / 10 {
            proof {
                if all_digits(d) {
                    lemma_digits_value_grows(d, k + 1);
                }
                assert(digits_value(d.take(k + 1)) == 10 * value + digit);
                let m = usize::MAX as int;
                assert(10 * value + digit > m) by (nonlinear_arith)
                    requires
                        value > (m - digit) / 10,
                        0 <= digit <= 9,
                        m > 9;
            }
            return None;
        }
        value = value * 10 + digit;
        i = i + 1;
    }
    assert(d.take(n - start) =~= d);
    Some(value)
}

/// Reads an input value as an unsigned integer: `false` and `true` are 0 and
/// 1, a string must spell a decimal number, a number is taken as the host
/// truncated it; undefined, null and other values are refused.
pub fn as_uint(input: &JsInput) -> (res: Result<usize, InputError>)
    ensures
        res == match input {
            JsInput::Undefined => Err(InputError::Undefined),
            JsInput::Null => Err(InputError::Null),
            JsInput::Bool(b) => Ok::<usize, InputError>(if *b { 1 } else { 0 }),
            JsInput::Text(t) => match parse_decimal(t@) {
                Some(v) => Ok(v),
                None => Err(InputError::UnparsableString),
            },
            JsInput::Number(v) => Ok(*v),
            JsInput::Other => Err(InputError::Invalid),
        },
{
    match input {
        JsInput::Undefined => Err(InputError::Undefined),
        JsInput::Null => Err(InputError::Null),
        JsInput::Bool(b) => Ok(if *b { 1 } else { 0 }),
        JsInput::Text(t) => match parse_usize(t) {
            Some(v) => Ok(v),
            None => Err(InputError::UnparsableString),
        },
        JsInput::Number(v) => Ok(*v),
        JsInput::Other => Err(InputError::Invalid),
    }
}

} // verus!
