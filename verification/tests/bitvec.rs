use customasm::bitvec::BitVec;

#[test]
fn test_from_str_sized() {
    let pass = |bit_size: usize, radix: usize, value_str: &str, expected_bits: Vec<bool>| {
        assert_eq!(BitVec::new_from_str_sized(bit_size, radix, value_str).unwrap().get_vec(), &expected_bits)
    };

    let fail = |bit_size: usize, radix: usize, value_str: &str| {
        assert!(BitVec::new_from_str_sized(bit_size, radix, value_str).is_err())
    };

    pass(0, 10, "0", vec![]);

    pass(1, 10, "0", vec![false]);
    pass(1, 10, "1", vec![true]);
    fail(1, 10, "2");

    pass(1, 16, "0", vec![false]);
    pass(1, 16, "00", vec![false]);
    pass(1, 16, "00000000", vec![false]);
    pass(1, 16, "1", vec![true]);
    pass(1, 16, "01", vec![true]);
    pass(1, 16, "00000001", vec![true]);
    fail(1, 16, "2");
    fail(1, 16, "02");

    pass(1, 2, "0", vec![false]);
    pass(1, 2, "00", vec![false]);
    pass(1, 2, "00000000", vec![false]);
    pass(1, 2, "1", vec![true]);
    pass(1, 2, "01", vec![true]);
    pass(1, 2, "00000001", vec![true]);
    fail(1, 2, "10");

    pass(2, 16, "0", vec![false; 2]);
    pass(3, 16, "0", vec![false; 3]);
    pass(4, 16, "0", vec![false; 4]);
    pass(5, 16, "0", vec![false; 5]);
    pass(6, 16, "0", vec![false; 6]);
    pass(7, 16, "0", vec![false; 7]);
    pass(8, 16, "0", vec![false; 8]);
    pass(16, 16, "0", vec![false; 16]);
    pass(32, 16, "0", vec![false; 32]);
    pass(64, 16, "0", vec![false; 64]);
    pass(128, 16, "0", vec![false; 128]);

    pass(2, 16, "03", vec![true; 2]);
    pass(3, 16, "07", vec![true; 3]);
    pass(4, 16, "0f", vec![true; 4]);
    pass(5, 16, "1f", vec![true; 5]);
    pass(6, 16, "3f", vec![true; 6]);
    pass(7, 16, "7f", vec![true; 7]);
    pass(8, 16, "ff", vec![true; 8]);
    pass(8, 16, "FF", vec![true; 8]);
    pass(16, 16, "ffff", vec![true; 16]);
    pass(32, 16, "ffffffff", vec![true; 32]);
    pass(64, 16, "ffffffffffffffff", vec![true; 64]);
    pass(128, 16, "ffffffffffffffffffffffffffffffff", vec![true; 128]);
}

fn bits(s: &str) -> Vec<bool> {
    s.chars().map(|c| c == '1').collect()
}

#[test]
fn new_from_usize_spells_the_value() {
    assert_eq!(BitVec::new_from_usize(0).get_vec(), &Vec::<bool>::new());
    assert_eq!(BitVec::new_from_usize(1).get_vec(), &bits("1"));
    assert_eq!(BitVec::new_from_usize(10).get_vec(), &bits("1010"));
    assert_eq!(BitVec::new_from_usize(255).get_vec(), &bits("11111111"));
}

#[test]
fn new_from_str_decimal_and_errors() {
    assert_eq!(BitVec::new_from_str(10, "5").unwrap().get_vec(), &bits("101"));
    assert_eq!(BitVec::new_from_str(10, "0").unwrap().get_vec(), &Vec::<bool>::new());
    assert_eq!(BitVec::new_from_str(16, "0a").unwrap().get_vec(), &bits("1010"));
    assert_eq!(BitVec::new_from_str(2, "0011").unwrap().get_vec(), &bits("11"));
    assert_eq!(
        BitVec::new_from_str(10, "18446744073709551616").err().unwrap(),
        "decimal value `18446744073709551616` is too large"
    );
    assert_eq!(
        BitVec::new_from_str_sized(3, 10, "9").err().unwrap(),
        "value `9` does not fit given size of `3`"
    );
}

#[test]
fn trim_and_zero_extend_keep_the_value() {
    let mut v = BitVec::new_from_vec(bits("000101"));
    v.trim();
    assert_eq!(v.get_vec(), &bits("101"));
    v.trim();
    assert_eq!(v.get_vec(), &bits("101"));
    let mut z = BitVec::new_from_vec(bits("0000"));
    z.trim();
    assert_eq!(z.get_vec(), &bits("0"));
    v.zero_extend(6);
    assert_eq!(v.get_vec(), &bits("000101"));
    v.zero_extend(2);
    assert_eq!(v.get_vec(), &bits("000101"));
}

#[test]
fn set_bit_grows_and_get_bit_reads_back() {
    let mut v = BitVec::new();
    v.set_bit(3, true);
    assert_eq!(v.get_vec(), &bits("0001"));
    assert!(v.get_bit(3));
    assert!(!v.get_bit(2));
    assert!(!v.get_bit(100));
    v.set_bit(0, true);
    assert_eq!(v.get_vec(), &bits("1001"));
}

#[test]
fn insert_remove_push() {
    let mut v = BitVec::new_from_vec(bits("101"));
    v.insert_bit(1, true);
    assert_eq!(v.get_vec(), &bits("1101"));
    v.remove_bit(0);
    assert_eq!(v.get_vec(), &bits("101"));
    v.push_bit(false);
    assert_eq!(v.get_vec(), &bits("1010"));
    let other = BitVec::new_from_vec(bits("11"));
    v.push(&other);
    assert_eq!(v.get_vec(), &bits("101011"));
    assert_eq!(v.len(), 6);
}

#[test]
fn extract_reads_zeros_past_the_end_in_either_order() {
    let v = BitVec::new_from_vec(bits("1011"));
    assert_eq!(v.extract(1, 3).get_vec(), &bits("01"));
    assert_eq!(v.extract(3, 1).get_vec(), &bits("01"));
    assert_eq!(v.extract(2, 6).get_vec(), &bits("1100"));
    let mut a = BitVec::new_from_vec(bits("10"));
    let o = BitVec::new_from_vec(bits("011"));
    a.push(&o);
    assert_eq!(a.extract(2, 5).get_vec(), o.get_vec());
}

#[test]
fn set_writes_a_range() {
    let mut v = BitVec::new_from_vec(bits("0000"));
    v.set(1, &BitVec::new_from_vec(bits("11")));
    assert_eq!(v.get_vec(), &bits("0110"));
    v.set(3, &BitVec::new_from_vec(bits("101")));
    assert_eq!(v.get_vec(), &bits("011101"));
}

#[test]
fn bytes_and_hex_dump() {
    let v = BitVec::new_from_vec(bits("1010101111"));
    assert_eq!(v.get_byte(0), 0xab);
    assert_eq!(v.get_byte(1), 0xc0);
    assert_eq!(v.get_byte(5), 0);
    assert_eq!(v.get_bytes(), vec![0xab, 0xc0]);
    let w = BitVec::new_from_vec(bits("11111111"));
    assert_eq!(w.get_bytes(), vec![0xff, 0x00]);
    assert_eq!(w.get_hex_dump(), "0x0000: 0xff 0x00 ");
}

#[test]
fn min_bit_length() {
    assert_eq!(BitVec::get_min_bit_length(10, "0").unwrap(), 0);
    assert_eq!(BitVec::get_min_bit_length(10, "5").unwrap(), 3);
    assert_eq!(BitVec::get_min_bit_length(16, "0f").unwrap(), 8);
    assert_eq!(BitVec::get_min_bit_length(2, "0101").unwrap(), 4);
    assert_eq!(
        BitVec::get_min_bit_length(10, "99999999999999999999").err().unwrap(),
        "decimal value `99999999999999999999` is too large"
    );
}
