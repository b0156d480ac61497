use lc3sim::numeral::{parse_register_without_comma, parse_signed_hex_or_decimal_literal};
use lc3sim::util::{bits, last_n_bits, sext, unsext};

#[test]
fn bits_extracts_ranges() {
    assert_eq!(bits(0b0001_000_001_0_00_010, 15, 12), 0b0001);
    assert_eq!(bits(0b0001_000_001_0_00_010, 8, 6), 0b001);
    assert_eq!(bits(-1, 15, 0), 0xffff);
    assert_eq!(bits(-1, 0, 0), 1);
    assert_eq!(bits(i16::MIN, 15, 15), 1);
}

#[test]
fn sext_boundaries() {
    assert_eq!(sext(0b11111, 5), -1);
    assert_eq!(sext(0b10000, 5), -16);
    assert_eq!(sext(0b01111, 5), 15);
    assert_eq!(sext(0, 9), 0);
    assert_eq!(sext(1, 1), -1);
    assert_eq!(sext(0x8000, 16), i16::MIN);
    assert_eq!(sext(0x7fff, 16), i16::MAX);
}

#[test]
fn sign_extension_round_trips_through_bits() {
    for w in 1u16..=16 {
        let limit: u32 = 1 << w;
        let step = if limit > 4096 { 97 } else { 1 };
        let mut v: u32 = 0;
        while v < limit {
            let x = sext(v as u16, w);
            assert_eq!(bits(x, w - 1, 0) as u32, v);
            v += step;
        }
    }
}

#[test]
fn unsext_round_trips() {
    assert_eq!(unsext(-1), 0xffff);
    assert_eq!(unsext(5), 5);
    assert_eq!(unsext(i16::MIN), 0x8000);
    for x in [i16::MIN, -300, -1, 0, 1, 300, i16::MAX] {
        assert_eq!(sext(unsext(x), 16), x);
    }
}

#[test]
fn last_n_bits_masks() {
    assert_eq!(last_n_bits(-1, 5), 0b11111);
    assert_eq!(last_n_bits(-16, 5), 0b10000);
    assert_eq!(last_n_bits(5, 9), 5);
    assert_eq!(last_n_bits(-256, 9), 0b100000000);
    assert_eq!(last_n_bits(-1, 0), 0);
    assert_eq!(last_n_bits(-1, 16), 0xffff);
}

#[test]
fn literal_parsing() {
    let chars = |s: &str| s.chars().collect::<Vec<char>>();
    assert_eq!(parse_signed_hex_or_decimal_literal(&chars("x1F")), Some(31));
    assert_eq!(parse_signed_hex_or_decimal_literal(&chars("xffff")), Some(-1));
    assert_eq!(parse_signed_hex_or_decimal_literal(&chars("-32768")), Some(i16::MIN));
    assert_eq!(parse_signed_hex_or_decimal_literal(&chars("32768")), Some(i16::MIN));
    assert_eq!(parse_signed_hex_or_decimal_literal(&chars("65535")), Some(-1));
    assert_eq!(parse_signed_hex_or_decimal_literal(&chars("65536")), None);
    assert_eq!(parse_signed_hex_or_decimal_literal(&chars("-32769")), None);
    assert_eq!(parse_signed_hex_or_decimal_literal(&chars("x10000")), None);
    assert_eq!(parse_signed_hex_or_decimal_literal(&chars("12ab")), None);
    assert_eq!(parse_register_without_comma(&chars("r7")), Some(7));
    assert_eq!(parse_register_without_comma(&chars("r8")), None);
    assert_eq!(parse_register_without_comma(&chars("x7")), None);
}
