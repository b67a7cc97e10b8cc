use chip_game::bits::{byte_from_bits, AsBits};

#[test]
fn test_as_bits() {
    let test: u8 = 0b10100101;
    assert_eq!(
        test.as_bits(),
        [true, false, true, false, false, true, false, true]
    );
}

#[test]
fn bits_roundtrip_for_every_byte() {
    for v in 0..=255u8 {
        assert_eq!(byte_from_bits(&v.as_bits()), v);
    }
}

#[test]
fn sixteen_bit_values_are_split_lsb_first() {
    let bits = 0x8001u16.as_bits();
    assert!(bits[0]);
    assert!(bits[15]);
    assert!(bits[1..15].iter().all(|b| !b));
}
