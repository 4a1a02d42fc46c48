use bitwise_challenge_bddap::cheeky_encoding::{decode, encode, pop, push, too_big};

fn check<const N: usize>(data_vs_cardinalities: &[(u64, u64); N]) {
    let just_data = data_vs_cardinalities.map(|(data, _)| data);
    let just_possibilities = data_vs_cardinalities.map(|(_, possibilities)| possibilities);

    let state = encode(&just_data, &just_possibilities);
    let decoded = decode(state, &just_possibilities);
    assert_eq!(decoded, just_data);
}

#[test]
fn store_no_data() {
    let mut state = 0;

    let unit = 0;
    let cardinality = 1; // 1 possible state constitutes no data

    push(&mut state, unit, cardinality);
    assert_eq!(pop(&mut state, cardinality), unit);
}

#[test]
fn store_one_bit() {
    let cardinality = 2;

    for bit in [0, 1] {
        let mut state = 0;
        push(&mut state, bit, cardinality);
        assert_eq!(pop(&mut state, cardinality), bit);
    }
}

#[test]
fn store_more_than_one_but_less_than_two_bits() {
    let cardinality = 3; // {0, 1, 2}

    for value in [0, 1, 2] {
        let mut state = 0;
        push(&mut state, value, cardinality);
        assert_eq!(pop(&mut state, cardinality), value);
    }
}

#[test]
fn store_one_bit_twice() {
    let cardinality = 2;

    for (a, b) in [(0, 0), (0, 1), (1, 0), (1, 1)] {
        let mut state = 0;
        push(&mut state, a, cardinality);
        push(&mut state, b, cardinality);
        assert_eq!(pop(&mut state, cardinality), b);
        assert_eq!(pop(&mut state, cardinality), a);
    }
}

#[test]
fn store_list() {
    check(&[
        (0, 1), // nothing, zero bits of data being stored
        (0, 2), // one bit
        (1, 2),
        (0, 3), // log2(3) ~= 1.585 bits
        (1, 3),
        (2, 3),
        (0, 4), // log2(4) = 2 bits
        (1, 4),
        (2, 4),
        (3, 4),
        (0, 5), // log2(5) ~= 2.321 bits
        (1, 5),
        (2, 5),
        (3, 5),
        (4, 5),
    ]);
    check(&[(1, 2); 32]);
    check(&[(2, 3); 40]); // 64 / 1.585 ~= 40.4
    check(&[(4, 5); 27]); // 64 / 2.321 ~= 27.5
    check(&[(u64::MAX - 1, u64::MAX)]);
    check(&[(u8::MAX.into(), Into::<u64>::into(u8::MAX) + 1); 8]);
    check(&[(u16::MAX.into(), Into::<u64>::into(u16::MAX) + 1); 4]);
    check(&[(u32::MAX.into(), Into::<u64>::into(u32::MAX) + 1); 2]);
}

#[test]
fn push_multiplies_then_adds() {
    let mut state = 5;
    push(&mut state, 2, 3);
    assert_eq!(state, 17);
    assert_eq!(pop(&mut state, 3), 2);
    assert_eq!(state, 5);
}

#[test]
fn pop_takes_remainder_and_leaves_quotient() {
    let mut state = 100;
    assert_eq!(pop(&mut state, 7), 2);
    assert_eq!(state, 14);
}

#[test]
fn end_to_end_scenario() {
    let cardinalities = [8, 8, 4, 64, 8, 8];
    let data = [4, 4, 0, 0, 5, 3];
    let state = encode(&data, &cardinalities);
    assert_eq!(state, 589867);
    assert_eq!(decode(state, &cardinalities), data);
}

#[test]
fn first_digit_is_most_significant() {
    assert_eq!(encode(&[1, 0, 0], &[2, 3, 4]), 12);
    assert_eq!(encode(&[0, 0, 1], &[2, 3, 4]), 1);
    assert_eq!(encode(&[1, 2, 3], &[2, 3, 4]), 23);
    assert_eq!(decode(23, &[2, 3, 4]), [1, 2, 3]);
}

#[test]
fn empty_tuple_packs_to_zero() {
    assert_eq!(encode(&[], &[]), 0);
    assert_eq!(decode(12345, &[]), [0u64; 0]);
}

#[test]
fn unit_digit_decodes_to_zero() {
    for state in [0, 1, 7, 1234567, u64::MAX] {
        let decoded = decode(state, &[3, 1, 5, 1]);
        assert_eq!(decoded[1], 0);
        assert_eq!(decoded[3], 0);
    }
    let state = encode(&[2, 0, 4], &[3, 1, 5]);
    assert_eq!(state, 14);
    assert_eq!(decode(state, &[3, 1, 5]), [2, 0, 4]);
}

#[test]
fn single_bit_digits_in_company() {
    for bit in [0, 1] {
        assert_eq!(decode(encode(&[bit], &[2]), &[2]), [bit]);
        let data = [4, bit, 2];
        assert_eq!(decode(encode(&data, &[7, 2, 3]), &[7, 2, 3]), data);
    }
}

#[test]
fn order_is_part_of_the_format() {
    let ab = encode(&[1, 0], &[2, 3]);
    let ba = encode(&[0, 1], &[3, 2]);
    assert_eq!(ab, 3);
    assert_eq!(ba, 1);
    assert_ne!(ab, ba);
    assert_eq!(decode(ab, &[2, 3]), [1, 0]);
    assert_eq!(decode(ba, &[3, 2]), [0, 1]);
    // a * (cb - 1) == b * (ca - 1): the two orders happen to agree
    assert_eq!(encode(&[1, 2], &[3, 5]), 7);
    assert_eq!(encode(&[2, 1], &[5, 3]), 7);
}

#[test]
fn saturating_shape_packs_max_tuple_to_u64_max() {
    assert_eq!(encode(&[65535; 4], &[65536; 4]), u64::MAX);
    assert_eq!(encode(&[255; 8], &[256; 8]), u64::MAX);
    assert_eq!(encode(&[1; 64], &[2; 64]), u64::MAX);
    assert_eq!(decode(u64::MAX, &[65536; 4]), [65535; 4]);
}

#[test]
fn unsaturated_shape_max_tuple_is_product_minus_one() {
    assert_eq!(encode(&[1, 2, 3, 4], &[2, 3, 4, 5]), 119);
}

#[test]
fn thirty_two_bits_round_trip() {
    let cardinalities = [2u64; 32];
    let zeros = [0u64; 32];
    let ones = [1u64; 32];
    let alternating: [u64; 32] = std::array::from_fn(|i| (i % 2) as u64);
    let inverted: [u64; 32] = std::array::from_fn(|i| ((i + 1) % 2) as u64);
    assert_eq!(encode(&zeros, &cardinalities), 0);
    assert_eq!(encode(&ones, &cardinalities), 0xFFFF_FFFF);
    assert_eq!(encode(&alternating, &cardinalities), 0x5555_5555);
    assert_eq!(encode(&inverted, &cardinalities), 0xAAAA_AAAA);
    for data in [zeros, ones, alternating, inverted] {
        assert_eq!(decode(encode(&data, &cardinalities), &cardinalities), data);
    }
}

#[test]
fn too_big_detects_oversized_shapes() {
    assert!(!too_big(&[]));
    assert!(!too_big(&[2, 3, 4, 5]));
    assert!(!too_big(&[1 << 32, 1 << 32]));
    assert!(too_big(&[1 << 32, 1 << 32, 2]));
    assert!(too_big(&[(1 << 32) + 1, 1 << 32]));
    assert!(too_big(&[u64::MAX, 2]));
    assert!(too_big(&[u64::MAX; 3]));
    assert!(!too_big(&[1, 1 << 32, 1, 1 << 32, 1]));
    // the product is kept saturated, so a later zero brings it back to zero
    assert!(!too_big(&[u64::MAX, u64::MAX, u64::MAX, 0]));
}
