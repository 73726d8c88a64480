use scanner::records::{
    decode_text, hex_str_to_binary, intel_hex_to_binary, parse_hex_data, parse_srec_data, srec_to_binary,
    try_decode_image, try_hex_str_to_binary, Encoding,
};
use scanner::text::IntErrorKind;

#[test]
fn intel_data_record_gives_its_bytes() {
    assert_eq!(parse_hex_data(":0300300002337A1E").unwrap(), vec![0x02, 0x33, 0x7A]);
}

#[test]
fn intel_non_data_record_gives_nothing() {
    assert_eq!(parse_hex_data(":00000001FF").unwrap(), Vec::<u8>::new());
    assert_eq!(parse_hex_data(":020000040800F2").unwrap(), Vec::<u8>::new());
}

#[test]
fn intel_bad_digit_is_an_error() {
    let e = parse_hex_data(":03003000G2337A1E").unwrap_err();
    assert_eq!(e.kind, IntErrorKind::InvalidDigit);
}

#[test]
fn intel_plus_sign_is_read_like_std() {
    // std's from_str_radix accepts a leading '+'
    assert_eq!(parse_hex_data(":01000000+AFF").unwrap(), vec![0x0A]);
}

#[test]
fn intel_image_decodes_data_records_in_order() {
    let image = b":0300300002337A1E\r\n:02000000ABCD84\n:00000001FF\n";
    assert_eq!(intel_hex_to_binary(image).unwrap(), vec![0x02, 0x33, 0x7A, 0xAB, 0xCD]);
}

#[test]
fn intel_image_ignores_other_lines() {
    let image = b"hello\n\n:0100000055AA\n";
    assert_eq!(intel_hex_to_binary(image).unwrap(), vec![0x55]);
}

#[test]
fn intel_image_first_bad_record_fails() {
    let image = b":01000000ZZAA\n:0100000055AA\n";
    assert!(intel_hex_to_binary(image).is_err());
}

#[test]
fn intel_short_record_would_panic() {
    // slicing past the end of a line panics
    assert!(try_decode_image(Encoding::IntelHex, b":01000000\n").is_none());
    assert!(try_decode_image(Encoding::IntelHex, b":0").is_none());
}

#[test]
fn intel_slice_inside_a_character_would_panic() {
    let image = ":0\u{e9}000000\n".as_bytes();
    assert!(try_decode_image(Encoding::IntelHex, image).is_none());
    let text = ":\u{e9}00000000\n".as_bytes();
    let r = try_decode_image(Encoding::IntelHex, text).unwrap();
    assert_eq!(r.unwrap_err().kind, IntErrorKind::InvalidDigit);
}

#[test]
fn invalid_utf8_is_read_lossily() {
    // 0xFF becomes U+FFFD (three bytes) before the line is sliced
    let image = [b':', b'0', b'1', 0xFF];
    assert!(try_decode_image(Encoding::IntelHex, &image).is_none());
}

#[test]
fn srec_data_records() {
    assert_eq!(parse_srec_data("S1130000285F245F2212226A000424290008237C2A").unwrap().len(), 16);
    assert_eq!(parse_srec_data("S107000102030405E4").unwrap(), vec![0x02, 0x03, 0x04, 0x05]);
    assert_eq!(parse_srec_data("S2080100000102030488").unwrap(), vec![0x01, 0x02, 0x03, 0x04]);
    assert_eq!(parse_srec_data("S3090000000001020304EC").unwrap(), vec![0x01, 0x02, 0x03, 0x04]);
}

#[test]
fn srec_other_types_give_nothing() {
    assert_eq!(parse_srec_data("S00F000068656C6C6F202020202000003C").unwrap(), Vec::<u8>::new());
    assert_eq!(parse_srec_data("S9030000FC").unwrap(), Vec::<u8>::new());
}

#[test]
fn srec_image_decodes_in_order() {
    let image = b"S00600004844521B\nS107000102030405E4\nS1050004AABB94\nS9030000FC\n";
    assert_eq!(srec_to_binary(image).unwrap(), vec![0x02, 0x03, 0x04, 0x05, 0xAA, 0xBB]);
}

#[test]
fn srec_bad_count_is_an_error() {
    assert_eq!(parse_srec_data("S1XX0001").unwrap_err().kind, IntErrorKind::InvalidDigit);
}

#[test]
fn decode_text_matches_image_decoding_on_ascii() {
    let image = b":0100000055AA\n";
    let a = decode_text(Encoding::IntelHex, image).unwrap().unwrap();
    let b = try_decode_image(Encoding::IntelHex, image).unwrap().unwrap();
    assert_eq!(a, b);
    assert_eq!(a, vec![0x55]);
}

#[test]
fn hex_string_to_bytes() {
    assert_eq!(hex_str_to_binary("0x1F2e3").unwrap(), vec![0x01, 0xF2, 0xE3]);
    assert_eq!(hex_str_to_binary("ABCD").unwrap(), vec![0xAB, 0xCD]);
    assert_eq!(hex_str_to_binary("").unwrap(), Vec::<u8>::new());
}

#[test]
fn hex_string_strips_every_leading_0x() {
    assert_eq!(hex_str_to_binary("0x0x12").unwrap(), vec![0x12]);
    assert_eq!(hex_str_to_binary("0x12").unwrap(), hex_str_to_binary("12").unwrap());
}

#[test]
fn hex_string_bad_digit() {
    assert_eq!(hex_str_to_binary("zz").unwrap_err().kind, IntErrorKind::InvalidDigit);
}

#[test]
fn hex_string_inside_a_character_would_panic() {
    assert!(try_hex_str_to_binary("\u{e9}0").is_none());
    assert!(try_hex_str_to_binary("a\u{e9}").unwrap().is_err());
}

#[test]
fn lower_case_hex_strings_read_back() {
    assert_eq!(hex_str_to_binary("abcdef").unwrap(), vec![0xAB, 0xCD, 0xEF]);
    assert_eq!(hex_str_to_binary("0x00ff10").unwrap(), vec![0x00, 0xFF, 0x10]);
    let data = vec![0x00u8, 0x7f, 0x80, 0xfe];
    let lower: String = data.iter().map(|b| format!("{:02x}", b)).collect();
    let upper: String = data.iter().map(|b| format!("{:02X}", b)).collect();
    assert_eq!(hex_str_to_binary(&lower).unwrap(), data);
    assert_eq!(hex_str_to_binary(&upper).unwrap(), data);
    assert_eq!(hex_str_to_binary(&format!("0x{}", lower)).unwrap(), data);
}
