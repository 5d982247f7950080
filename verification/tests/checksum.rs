use interceptor::packet_utils::{checksum, checksum_2_par, checksum_by2, checksum_par};

#[test]
fn checksum_calculation_valid_for_even_number_of_bytes() {
    let bytes: &[u8] = &[
        0x45, 0x00, 0x00, 0x3c, 0x1c, 0x46, 0x40, 0x00, 0x40, 0x06, 0x00, 0x00, 0xac, 0x10,
        0x0a, 0x63, 0xac, 0x10, 0x0a, 0x0c,
    ];
    assert_eq!(checksum(bytes), 0xB1E6);
}

#[test]
fn checksum_calculation_valid_for_even_number_of_bytes_2() {
    let bytes: &[u8] = &[
        0x45, 0x00, 0x00, 0x3c, 0x1c, 0x46, 0x40, 0x00, 0x40, 0x06, 0x00, 0x00, 0xac, 0x10,
        0x0a, 0x63, 0xac, 0x10, 0x0a, 0x0c,
    ];
    assert_eq!(checksum_by2(bytes), 0xB1E6);
}

#[test]
fn checksum_calculation_valid_for_even_number_of_bytes_par() {
    let bytes: &[u8] = &[
        0x45, 0x00, 0x00, 0x3c, 0x1c, 0x46, 0x40, 0x00, 0x40, 0x06, 0x00, 0x00, 0xac, 0x10,
        0x0a, 0x63, 0xac, 0x10, 0x0a, 0x0c,
    ];
    assert_eq!(checksum_par(bytes), 0xB1E6);
}

#[test]
fn checksum_calculation_valid_for_odd_number_of_bytes() {
    let bytes: &[u8] = &[
        0x45, 0x00, 0x00, 0x3c, 0x1c, 0x46, 0x40, 0x00, 0x40, 0x06, 0x00, 0x00, 0xac, 0x10,
        0x0a, 0x63, 0xac, 0x10, 0x0a, 0x0c, 0x34,
    ];
    assert_eq!(checksum(bytes), 0x7DE6);
}

#[test]
fn checksum_calculation_valid_for_odd_number_of_bytes_by_2() {
    let bytes: &[u8] = &[
        0x45, 0x00, 0x00, 0x3c, 0x1c, 0x46, 0x40, 0x00, 0x40, 0x06, 0x00, 0x00, 0xac, 0x10,
        0x0a, 0x63, 0xac, 0x10, 0x0a, 0x0c, 0x34,
    ];
    assert_eq!(checksum_by2(bytes), 0x7DE6);
}

#[test]
fn checksum_calculation_valid_for_odd_number_of_bytes_par() {
    let bytes: &[u8] = &[
        0x45, 0x00, 0x00, 0x3c, 0x1c, 0x46, 0x40, 0x00, 0x40, 0x06, 0x00, 0x00, 0xac, 0x10,
        0x0a, 0x63, 0xac, 0x10, 0x0a, 0x0c, 0x34,
    ];
    assert_eq!(checksum_par(bytes), 0x7DE6);
}

#[test]
fn rfc_checksum_calculation_valid_for_even_number_of_bytes() {
    let bytes: &[u8] = &[0x00, 0x01, 0xf2, 0x03, 0xf4, 0xf5, 0xf6, 0xf7];
    assert_eq!(!checksum(bytes), 0xddf2);
}

#[test]
fn rfc_vector_checksum() {
    let bytes: &[u8] = &[0x00, 0x01, 0xf2, 0x03, 0xf4, 0xf5, 0xf6, 0xf7];
    assert_eq!(checksum(bytes), 0x220d);
}

#[test]
fn checksum_round_trip_is_zero() {
    let bytes: &[u8] = &[
        0x45, 0x00, 0x00, 0x3c, 0x1c, 0x46, 0x40, 0x00, 0x40, 0x06, 0x00, 0x00, 0xac, 0x10,
        0x0a, 0x63, 0xac, 0x10, 0x0a, 0x0c,
    ];
    let c = checksum(bytes);
    let mut extended = bytes.to_vec();
    extended.push((c >> 8) as u8);
    extended.push((c & 0xff) as u8);
    assert_eq!(checksum(&extended), 0x0000);
}

#[test]
fn checksum_empty_and_single_byte() {
    assert_eq!(checksum(&[]), 0xffff);
    assert_eq!(checksum_by2(&[]), 0xffff);
    assert_eq!(checksum(&[0x34]), !0x3400u16);
    assert_eq!(checksum_by2(&[0x34]), !0x3400u16);
    assert_eq!(checksum_2_par(&[0x34]), !0x3400u16);
}

#[test]
fn all_variants_agree() {
    let bytes: &[u8] = &[1, 2, 3, 4, 5, 6, 7, 8, 9, 10, 11];
    let c = checksum(bytes);
    assert_eq!(checksum_by2(bytes), c);
    assert_eq!(checksum_par(bytes), c);
    assert_eq!(checksum_2_par(bytes), c);
}
