use mpz_ts::value::{is_decodable_bit_array, mpz_bit_array_to_usize, usize_to_mpz_bit_array, Value};

fn bits(b: &[bool]) -> Value {
    Value::Array(b.iter().map(|x| Value::Bit(*x)).collect())
}

#[test]
fn encodes_most_significant_bit_first() {
    assert_eq!(usize_to_mpz_bit_array(5, 4), bits(&[false, true, false, true]));
    assert_eq!(usize_to_mpz_bit_array(6, 2), bits(&[true, false]));
    assert_eq!(usize_to_mpz_bit_array(7, 0), bits(&[]));
}

#[test]
fn decodes_most_significant_bit_first() {
    assert_eq!(mpz_bit_array_to_usize(&bits(&[true, false, true, true])), 11);
    assert_eq!(mpz_bit_array_to_usize(&bits(&[])), 0);
}

#[test]
fn round_trip_keeps_the_low_bits() {
    for v in [0usize, 1, 2, 3, 8, 255, 256, 1000, usize::MAX] {
        for w in [0usize, 1, 3, 8, 16] {
            let back = mpz_bit_array_to_usize(&usize_to_mpz_bit_array(v, w));
            assert_eq!(back, v % (1usize << w));
        }
        let full = usize::BITS as usize;
        assert_eq!(mpz_bit_array_to_usize(&usize_to_mpz_bit_array(v, full)), v);
    }
}

#[test]
fn decodability() {
    assert!(is_decodable_bit_array(&bits(&[true, false])));
    assert!(!is_decodable_bit_array(&Value::U8(3)));
    assert!(!is_decodable_bit_array(&Value::Array(vec![Value::Bit(true), Value::U32(1)])));
    let too_long = vec![false; usize::BITS as usize + 1];
    assert!(!is_decodable_bit_array(&bits(&too_long)));
}
