use hamt_rs::bits::{fanout, slot_index, to_int};

#[test]
fn to_int_test() {
    let array = [false, false, true, true];
    assert_eq!(to_int(&array), 3);
    let array = [false, false, false, false, true, true, false, false, false, true];
    assert_eq!(to_int(&array), 49)
}

#[test]
fn to_int_of_nothing_is_zero() {
    assert_eq!(to_int(&[]), 0);
}

#[test]
fn fanout_is_a_power_of_two() {
    assert_eq!(fanout(1), 2);
    assert_eq!(fanout(5), 32);
    assert_eq!(fanout(8), 256);
}

#[test]
fn slot_index_reads_most_significant_bit_first() {
    let digest = [0b1010_0110u8, 0b1100_0000u8];
    assert_eq!(slot_index(&digest, 0, 5), 0b10100);
    assert_eq!(slot_index(&digest, 1, 5), 0b11011);
    assert_eq!(slot_index(&digest, 0, 8), 0b1010_0110);
    assert_eq!(slot_index(&digest, 1, 8), 0b1100_0000);
    assert_eq!(slot_index(&digest, 3, 1), 0);
    assert_eq!(slot_index(&digest, 2, 1), 1);
}
