use rustcuts::fields::{
    ip_to_bitstring, parse_hex, port_to_bitstring, proto_to_bitstring,
};
use rustcuts::bits::{masked_bits, prefix_bits, test_bit};
use rustcuts::error::FormatError;

#[test]
fn ip_with_prefix_24() {
    assert_eq!(
        ip_to_bitstring("10.0.0.1/24"),
        Ok("000010100000000000000000________".to_string())
    );
}

#[test]
fn ip_with_prefix_0_is_all_wildcard() {
    assert_eq!(
        ip_to_bitstring("192.168.1.7/0"),
        Ok("________________________________".to_string())
    );
}

#[test]
fn ip_with_prefix_32_has_no_wildcard() {
    let field = ip_to_bitstring("192.168.1.7/32").unwrap();
    assert_eq!(field, "11000000101010000000000100000111");
    assert!(!field.contains('_'));
    assert_eq!(u32::from_str_radix(&field, 2), Ok(0xC0A8_0107));
}

#[test]
fn ip_prefix_decodes_to_leading_bits() {
    let address: u32 = (172 << 24) | (16 << 16) | (254 << 8) | 3;
    for keep in 0..=32u32 {
        let field = ip_to_bitstring(&format!("172.16.254.3/{}", keep)).unwrap();
        assert_eq!(field.len(), 32);
        let (head, tail) = field.split_at(keep as usize);
        assert!(tail.chars().all(|c| c == '_'));
        assert!(head.chars().all(|c| c == '0' || c == '1'));
        let leading = if keep == 0 { 0 } else { address >> (32 - keep) };
        let decoded = if keep == 0 { 0 } else { u32::from_str_radix(head, 2).unwrap() };
        assert_eq!(decoded, leading);
    }
}

#[test]
fn ip_first_octet_is_most_significant() {
    assert_eq!(
        ip_to_bitstring("128.0.0.1/32"),
        Ok("10000000000000000000000000000001".to_string())
    );
}

#[test]
fn ip_white_space_round_the_parts_is_dropped() {
    assert_eq!(
        ip_to_bitstring("  10.0.0.1 / 8 "),
        Ok("00001010________________________".to_string())
    );
}

#[test]
fn ip_without_prefix_length_is_rejected() {
    assert_eq!(ip_to_bitstring("10.0.0.1"), Err(FormatError::IpField));
    assert_eq!(ip_to_bitstring(""), Err(FormatError::IpField));
}

#[test]
fn ip_with_bad_prefix_length_is_rejected() {
    assert_eq!(ip_to_bitstring("10.0.0.1/33"), Err(FormatError::MaskValue));
    assert_eq!(ip_to_bitstring("10.0.0.1/-1"), Err(FormatError::MaskValue));
    assert_eq!(ip_to_bitstring("10.0.0.1/x"), Err(FormatError::MaskValue));
    assert_eq!(ip_to_bitstring("10.0.0.1/"), Err(FormatError::MaskValue));
    assert_eq!(
        ip_to_bitstring("10.0.0.1/99999999999999999999999"),
        Err(FormatError::MaskValue)
    );
}

#[test]
fn ip_missing_octet_is_rejected() {
    assert_eq!(ip_to_bitstring("10.0.0/24"), Err(FormatError::IpValue));
}

#[test]
fn ip_with_bad_address_is_rejected() {
    assert_eq!(ip_to_bitstring("10.0.0.1.2/24"), Err(FormatError::IpValue));
    assert_eq!(ip_to_bitstring("10.0.a.1/24"), Err(FormatError::IpValue));
    assert_eq!(ip_to_bitstring("10.0..1/24"), Err(FormatError::IpValue));
    assert_eq!(ip_to_bitstring("10.0.0.256/24"), Err(FormatError::IpValue));
    assert_eq!(ip_to_bitstring("10.0.0.-1/24"), Err(FormatError::IpValue));
    assert_eq!(ip_to_bitstring("10. 0.0.1/24"), Err(FormatError::IpValue));
    assert_eq!(ip_to_bitstring("/24"), Err(FormatError::IpValue));
}

#[test]
fn ip_reads_nothing_behind_a_second_slash() {
    assert_eq!(
        ip_to_bitstring("10.0.0.1/8/zz"),
        Ok("00001010________________________".to_string())
    );
}

#[test]
fn ip_octet_may_carry_a_plus_sign() {
    assert_eq!(
        ip_to_bitstring("+10.0.0.1/+8"),
        Ok("00001010________________________".to_string())
    );
}

#[test]
fn port_full_range_is_wildcard() {
    assert_eq!(port_to_bitstring("0 : 65535"), Ok("________________".to_string()));
    assert_eq!(port_to_bitstring("0:65535"), Ok("________________".to_string()));
}

#[test]
fn port_other_range_is_lower_bound() {
    assert_eq!(port_to_bitstring("1024 : 65535"), Ok("0000010000000000".to_string()));
    assert_eq!(port_to_bitstring("80 : 80"), Ok("0000000001010000".to_string()));
    assert_eq!(port_to_bitstring("0 : 1023"), Ok("0000000000000000".to_string()));
    assert_eq!(port_to_bitstring("65535 : 65535"), Ok("1111111111111111".to_string()));
    assert_eq!(port_to_bitstring("0 : 65536"), Ok("0000000000000000".to_string()));
}

#[test]
fn port_fields_have_16_characters_without_wildcard() {
    for begin in [0i64, 1, 2, 255, 256, 1024, 40000, 65535] {
        for end in [0i64, 1, 65534, 65535, 70000] {
            let field = port_to_bitstring(&format!("{}:{}", begin, end)).unwrap();
            assert_eq!(field.len(), 16);
            if begin == 0 && end == 65535 {
                assert_eq!(field, "________________");
            } else {
                assert!(!field.contains('_'));
                assert_eq!(i64::from_str_radix(&field, 2), Ok(begin));
            }
        }
    }
}

#[test]
fn port_without_upper_bound_is_rejected() {
    assert_eq!(port_to_bitstring("80"), Err(FormatError::PortField));
    assert_eq!(port_to_bitstring(""), Err(FormatError::PortField));
}

#[test]
fn port_with_bad_bound_is_rejected() {
    assert_eq!(port_to_bitstring("a : 80"), Err(FormatError::PortValue));
    assert_eq!(port_to_bitstring("80 : b"), Err(FormatError::PortValue));
    assert_eq!(port_to_bitstring("80 : "), Err(FormatError::PortValue));
    assert_eq!(port_to_bitstring(" : 80"), Err(FormatError::PortValue));
    assert_eq!(port_to_bitstring("8 0 : 80"), Err(FormatError::PortValue));
    assert_eq!(
        port_to_bitstring("80 : 99999999999999999999"),
        Err(FormatError::PortValue)
    );
}

#[test]
fn port_lower_bound_outside_16_bits_is_rejected() {
    assert_eq!(port_to_bitstring("65536 : 65535"), Err(FormatError::PortValue));
    assert_eq!(port_to_bitstring("70000 : 80000"), Err(FormatError::PortValue));
    assert_eq!(port_to_bitstring("-1 : 80"), Err(FormatError::PortValue));
}

#[test]
fn port_upper_bound_is_otherwise_not_read() {
    assert_eq!(port_to_bitstring("5 : -7"), Ok("0000000000000101".to_string()));
    assert_eq!(port_to_bitstring("5 : 3"), Ok("0000000000000101".to_string()));
}

#[test]
fn protocol_with_full_mask() {
    assert_eq!(proto_to_bitstring("0x06/0xFF"), Ok("00000110".to_string()));
    assert_eq!(proto_to_bitstring("0x11/0xff"), Ok("00010001".to_string()));
}

#[test]
fn protocol_with_full_mask_round_trips() {
    for protocol in 0..=255u32 {
        let field = proto_to_bitstring(&format!("0x{:02X}/0xFF", protocol)).unwrap();
        assert_eq!(field.len(), 8);
        assert!(!field.contains('_'));
        assert_eq!(u32::from_str_radix(&field, 2), Ok(protocol));
    }
}

#[test]
fn protocol_with_zero_mask_is_all_wildcard() {
    assert_eq!(proto_to_bitstring("0x00/0x00"), Ok("________".to_string()));
    assert_eq!(proto_to_bitstring("0x06/0x00"), Ok("________".to_string()));
}

#[test]
fn protocol_with_partial_mask() {
    assert_eq!(proto_to_bitstring("0xA5/0xF0"), Ok("1010____".to_string()));
    assert_eq!(proto_to_bitstring("0xA5/0x0F"), Ok("____0101".to_string()));
    assert_eq!(proto_to_bitstring("0xFF/0x81"), Ok("1______1".to_string()));
}

#[test]
fn protocol_without_mask_is_rejected() {
    assert_eq!(proto_to_bitstring("0x06"), Err(FormatError::ProtocolField));
}

#[test]
fn protocol_with_bad_hex_is_rejected() {
    assert_eq!(proto_to_bitstring("06/0xFF"), Err(FormatError::HexValue));
    assert_eq!(proto_to_bitstring("0x06/FF"), Err(FormatError::HexValue));
    assert_eq!(proto_to_bitstring("0xG6/0xFF"), Err(FormatError::HexValue));
    assert_eq!(proto_to_bitstring("0x/0xFF"), Err(FormatError::HexValue));
    assert_eq!(proto_to_bitstring("0x100/0xFF"), Err(FormatError::HexValue));
    assert_eq!(proto_to_bitstring("0X06/0xFF"), Err(FormatError::HexValue));
    assert_eq!(proto_to_bitstring("x/0xFF"), Err(FormatError::HexValue));
}

#[test]
fn parse_hex_reads_eight_bits() {
    assert_eq!(parse_hex("0x00"), Some(0));
    assert_eq!(parse_hex(" 0x1f "), Some(0x1F));
    assert_eq!(parse_hex("0xFF"), Some(0xFF));
    assert_eq!(parse_hex("0x+A"), Some(10));
    assert_eq!(parse_hex("0x-1"), None);
    assert_eq!(parse_hex("0x100"), None);
    assert_eq!(parse_hex("ff"), None);
    assert_eq!(parse_hex(""), None);
}

#[test]
fn bits_are_counted_from_the_most_significant() {
    assert!(test_bit(0x8000_0000, 32, 0));
    assert!(!test_bit(0x8000_0000, 32, 1));
    assert!(test_bit(1, 32, 31));
    assert!(test_bit(0b100, 3, 0));
    assert!(!test_bit(0b100, 3, 2));
}

#[test]
fn prefix_bits_keep_the_leading_bits() {
    assert_eq!(prefix_bits(0b1011, 4, 4), "1011");
    assert_eq!(prefix_bits(0b1011, 4, 2), "10__");
    assert_eq!(prefix_bits(0b1011, 4, 0), "____");
    assert_eq!(prefix_bits(5, 0, 0), "");
}

#[test]
fn masked_bits_show_where_the_mask_is_set() {
    assert_eq!(masked_bits(0b1011, 0b0110, 4), "_01_");
    assert_eq!(masked_bits(0b1011, 0b1111, 4), "1011");
    assert_eq!(masked_bits(0b1011, 0, 4), "____");
}

#[test]
fn messages_name_what_is_wrong() {
    assert_eq!(FormatError::IpField.message(), "Malformed IP field");
    assert_eq!(FormatError::MaskValue.message(), "Malformed mask value");
    assert_eq!(FormatError::IpValue.message(), "Malformed IP value");
    assert_eq!(FormatError::PortField.message(), "Malformed port field");
    assert_eq!(FormatError::PortValue.message(), "Malformed port value");
    assert_eq!(FormatError::ProtocolField.message(), "Malformed protocol field");
    assert_eq!(FormatError::HexValue.message(), "Malformed hex value");
    assert_eq!(
        FormatError::NotEnoughFields.message(),
        "Malformed input: not enough fields"
    );
}
