use pastry_dht::util::get_distance_between_unsigned;
use pastry_dht::util::get_first_digits_in_u64_hex;
use pastry_dht::util::get_nth_digit_in_u64_hex;
use pastry_dht::util::get_num_matched_digits;

#[test]
fn test_get_nth_digit_in_u64_hex() {
    assert_eq!(get_nth_digit_in_u64_hex(0xFEDCBA9876543210, 0).unwrap(), 0xF);
    assert_eq!(get_nth_digit_in_u64_hex(0xFEDCBA9876543210, 9).unwrap(), 0x6);
    assert_eq!(get_nth_digit_in_u64_hex(0xFEDCBA9876543210, 15).unwrap(), 0x0);
    assert_eq!(get_nth_digit_in_u64_hex(0xEDCBA9876543210, 0).unwrap(), 0x0);
    assert_eq!(get_nth_digit_in_u64_hex(0xDCBA9876543210, 0).unwrap(), 0x0);
    assert_eq!(get_nth_digit_in_u64_hex(0xDCBA9876543210, 1).unwrap(), 0x0);
    assert_eq!(get_nth_digit_in_u64_hex(0xDCBA9876543210, 2).unwrap(), 0xD);
}

#[test]
fn test_get_first_n_digits_in_u64_hex() {
    assert_eq!(get_first_digits_in_u64_hex(0xFEDCBA9876543210, 1).unwrap(), 0xF);
    assert_eq!(get_first_digits_in_u64_hex(0xFEDCBA9876543210, 2).unwrap(), 0xFE);
    assert_eq!(get_first_digits_in_u64_hex(0xFEDCBA9876543210, 3).unwrap(), 0xFED);
    assert_eq!(
        get_first_digits_in_u64_hex(0xFEDCBA9876543210, 16).unwrap(),
        0xFEDCBA9876543210
    );
}

#[test]
fn test_digit_helpers_reject_out_of_range() {
    assert!(get_nth_digit_in_u64_hex(1, 16).is_err());
    assert!(get_first_digits_in_u64_hex(1, 0).is_err());
    assert!(get_first_digits_in_u64_hex(1, 17).is_err());
}

#[test]
fn test_num_matched_digits() {
    // equal ids share all 16 digits
    assert_eq!(get_num_matched_digits(0xFEDCBA9876543210, 0xFEDCBA9876543210).unwrap(), 16);
    assert_eq!(get_num_matched_digits(0xFEDCBA9876543210, 0xFEDCBA0000000000).unwrap(), 6);
    assert_eq!(get_num_matched_digits(0x0, 0xF000000000000000).unwrap(), 0);
    assert_eq!(get_num_matched_digits(0x0, 0x1).unwrap(), 15);
}

#[test]
fn test_distance_between_unsigned() {
    assert_eq!(get_distance_between_unsigned(7, 3), 4);
    assert_eq!(get_distance_between_unsigned(3, 7), 4);
    assert_eq!(get_distance_between_unsigned(5, 5), 0);
}
