use scanner::matching::{match_signature, verify_file, Notice};
use scanner::signature::{signatures_from_lines, Field, FieldType, Signature};
use scanner::text::IntErrorKind;

fn lines(text: &str) -> Vec<String> {
    text.split('\n').map(|l| l.to_string()).collect()
}

fn pairs(v: &[(&str, &str)]) -> Vec<(String, String)> {
    v.iter().map(|(a, b)| (a.to_string(), b.to_string())).collect()
}

#[test]
fn default_field() {
    let f = Field::default();
    assert_eq!(f.position, 0);
    assert_eq!(f.value_type, FieldType::Default);
    assert_eq!(f.constraint, "Unknown");
    assert_eq!(f.description, "Unknown");
}

#[test]
fn definitions_are_read_into_signatures() {
    let defs = lines("# vendor A\n0\tstring\tABCD\tMagic,\n>4\tbyte\tx\tVersion,\n>5   short  x  Header size,\n\n# vendor B\n2 long x Entry point,\n\n");
    let sigs = signatures_from_lines(&defs).unwrap();
    assert_eq!(sigs.len(), 2);
    let f = sigs[0].fields();
    assert_eq!(f.len(), 3);
    assert_eq!(f[0].position, 0);
    assert_eq!(f[0].value_type, FieldType::Str);
    assert_eq!(f[0].constraint, "ABCD");
    assert_eq!(f[0].description, "Magic,");
    assert_eq!(f[1].position, 4);
    assert_eq!(f[1].value_type, FieldType::Byte);
    assert_eq!(f[2].position, 5);
    assert_eq!(f[2].value_type, FieldType::Short);
    assert_eq!(f[2].description, "Header size,");
    let g = sigs[1].fields();
    assert_eq!(g[0].value_type, FieldType::Long);
    assert_eq!(g[0].description, "Entry point,");
}

#[test]
fn last_signature_without_blank_line_is_kept() {
    let sigs = signatures_from_lines(&lines("0 string AB Magic,\n\n4 byte x V,")).unwrap();
    assert_eq!(sigs.len(), 2);
    assert_eq!(sigs[1].fields()[0].position, 4);
    let sigs = signatures_from_lines(&vec!["0 byte 41 Magic,".to_string()]).unwrap();
    assert_eq!(sigs.len(), 1);
    let f = sigs[0].fields();
    assert_eq!(f.len(), 1);
    assert_eq!(f[0].position, 0);
    assert_eq!(f[0].value_type, FieldType::Byte);
    assert_eq!(f[0].constraint, "41");
    assert_eq!(f[0].description, "Magic,");
}

#[test]
fn short_definition_lines_keep_defaults() {
    let sigs = signatures_from_lines(&lines("3 byte\n\n")).unwrap();
    let f = sigs[0].fields();
    assert_eq!(f[0].position, 3);
    assert_eq!(f[0].value_type, FieldType::Byte);
    assert_eq!(f[0].constraint, "Unknown");
    assert_eq!(f[0].description, "Unknown");
    let sigs = signatures_from_lines(&lines(">  string x\n  long 1\n\n")).unwrap();
    let f = sigs[0].fields();
    assert_eq!(f[0].position, 0);
    assert_eq!(f[1].position, 0);
    assert_eq!(f[1].value_type, FieldType::Long);
    assert_eq!(f[1].constraint, "1");
}

#[test]
fn bad_position_stops_the_reading() {
    assert!(signatures_from_lines(&lines("abc string x D\n\n")).is_none());
}

fn sample() -> Vec<Signature> {
    signatures_from_lines(&lines("0 string ABCD Magic,\n>4 byte x Version,\n>5 short x Header size,\n\n")).unwrap()
}

#[test]
fn header_matching_extracts_values() {
    let header = b"ABCD\x07\x40\x00\x00\x00\x00";
    let v = verify_file(&None, header, &sample()).unwrap();
    assert_eq!(v.matches, vec![pairs(&[("Magic,", "ABCD"), ("Version,", "7"), ("Header size,", "64 bytes")])]);
    assert!(v.notices.is_empty());
}

#[test]
fn header_mismatch_gives_no_match() {
    let header = b"ABCE\x07\x40\x00\x00\x00\x00";
    let v = verify_file(&None, header, &sample()).unwrap();
    assert!(v.matches.is_empty());
}

#[test]
fn constraint_past_the_end_is_reported() {
    let v = verify_file(&None, b"ABC", &sample()).unwrap();
    assert!(v.matches.is_empty());
    assert_eq!(v.notices, vec![(0, Notice::ConstraintPastEnd)]);
}

#[test]
fn reading_past_the_header_would_panic() {
    assert!(verify_file(&None, b"ABCD\x07", &sample()).is_none());
}

#[test]
fn file_size_is_checked_against_the_disk() {
    let sigs = signatures_from_lines(&lines("0 long x File size,\n\n")).unwrap();
    let header = [9u8, 0, 0, 0, 0xAA];
    let disk = Some(b"123456789".to_vec());
    let m = match_signature(&disk, &sigs[0], &header).unwrap();
    assert_eq!(m.matched, Some(pairs(&[("File size,", "9 bytes")])));
    assert_eq!(m.notices, vec![Notice::Checksum(0x906E)]);
    let m = match_signature(&Some(b"12345678".to_vec()), &sigs[0], &header).unwrap();
    assert_eq!(m.matched, None);
    assert_eq!(m.notices, vec![Notice::SizeMismatch]);
    let m = match_signature(&None, &sigs[0], &header).unwrap();
    assert_eq!(m.matched, None);
    assert!(m.notices.is_empty());
}

#[test]
fn code_size_counts_the_header() {
    let sigs = signatures_from_lines(&lines("0 long x Code size,\n\n")).unwrap();
    let disk = Some(vec![0u8; 70]);
    let m = match_signature(&disk, &sigs[0], &[6, 0, 0, 0]).unwrap();
    assert_eq!(m.matched, Some(pairs(&[("Code size,", "70 bytes")])));
}

#[test]
fn long_values_are_shown() {
    let sigs = signatures_from_lines(&lines("0 long x Header size,\n0 long x Entry,\n0 short x Length,\n0 short x Flags,\n\n")).unwrap();
    let m = match_signature(&None, &sigs[0], &[0x00, 0x00, 0x01, 0x20, 0xFF]).unwrap();
    assert_eq!(
        m.matched,
        Some(pairs(&[("Header size,", "288 bytes"), ("Entry,", "00 00 01 20"), ("Length,", "0 bytes"), ("Flags,", "00 00")]))
    );
}

#[test]
fn long_constraint_must_be_there() {
    let sigs = signatures_from_lines(&lines("1 long 41424344 Magic,\n\n")).unwrap();
    let m = match_signature(&None, &sigs[0], b"xABCD").unwrap();
    assert_eq!(m.matched, Some(pairs(&[("Magic,", "ABCD")])));
    let m = match_signature(&None, &sigs[0], b"xABCE").unwrap();
    assert_eq!(m.matched, None);
}

#[test]
fn bad_long_constraint_drops_the_signature() {
    let sigs = signatures_from_lines(&lines("0 byte x First,\n1 long 41ZZ Magic,\n\n")).unwrap();
    let m = match_signature(&None, &sigs[0], b"xABCD").unwrap();
    assert_eq!(m.matched, None);
    assert_eq!(m.notices, vec![Notice::BadHexConstraint { field: 1, offset: 2, kind: IntErrorKind::InvalidDigit }]);
}

#[test]
fn bad_byte_constraint_is_reported() {
    let sigs = signatures_from_lines(&lines("0 byte 1G V,\n\n")).unwrap();
    let m = match_signature(&None, &sigs[0], b"xx").unwrap();
    assert_eq!(m.matched, None);
    assert_eq!(m.notices, vec![Notice::BadByteConstraint(IntErrorKind::InvalidDigit)]);
}

#[test]
fn byte_constraint_is_hex() {
    let sigs = signatures_from_lines(&lines("1 byte 2A Kind,\n\n")).unwrap();
    let m = match_signature(&None, &sigs[0], b"x*").unwrap();
    assert_eq!(m.matched, Some(pairs(&[("Kind,", "42")])));
}

#[test]
fn string_with_length_from_description() {
    let sigs = signatures_from_lines(&lines("2 string x Name {strlen:3}\n0 string x OTA header string,\n\n")).unwrap();
    let mut header = b"..abcdef".to_vec();
    header.resize(40, b'z');
    let m = match_signature(&None, &sigs[0], &header).unwrap();
    let ota: String = String::from_utf8(header[0..32].to_vec()).unwrap();
    assert_eq!(m.matched, Some(vec![("Name {strlen:3}".to_string(), "abc".to_string()), ("OTA header string,".to_string(), ota)]));
}

#[test]
fn empty_signature_matches_anything() {
    let v = verify_file(&None, b"", &vec![Signature::new(Vec::new())]).unwrap();
    assert_eq!(v.matches, vec![Vec::<(String, String)>::new()]);
}

#[test]
fn fields_after_a_mismatch_are_not_read() {
    let sigs = signatures_from_lines(&lines("0 string ABCD Magic,\n>100 byte x Far,\n\n")).unwrap();
    let v = verify_file(&None, b"XXXXXXXX", &sigs).unwrap();
    assert!(v.matches.is_empty());
    assert!(v.notices.is_empty());
    assert!(verify_file(&None, b"ABCDXXXX", &sigs).is_none());
}

#[test]
fn string_constraint_may_end_at_the_last_byte() {
    let sigs = signatures_from_lines(&lines("0 string AB Magic,\n\n")).unwrap();
    let m = match_signature(&None, &sigs[0], b"AB").unwrap();
    assert_eq!(m.matched, Some(pairs(&[("Magic,", "AB")])));
    let m = match_signature(&None, &sigs[0], b"A").unwrap();
    assert_eq!(m.matched, None);
    assert_eq!(m.notices, vec![Notice::ConstraintPastEnd]);
}

#[test]
fn short_constraint_is_checked() {
    let sigs = signatures_from_lines(&lines("0 short 4142 Magic,\n\n")).unwrap();
    let m = match_signature(&None, &sigs[0], &[0, 0, 0]).unwrap();
    assert_eq!(m.matched, None);
    let m = match_signature(&None, &sigs[0], b"ABC").unwrap();
    assert_eq!(m.matched, Some(pairs(&[("Magic,", "AB")])));
    let sigs = signatures_from_lines(&lines("0 short 41G2 Magic,\n\n")).unwrap();
    let m = match_signature(&None, &sigs[0], b"ABC").unwrap();
    assert_eq!(m.matched, None);
    assert_eq!(m.notices, vec![Notice::BadHexConstraint { field: 0, offset: 2, kind: IntErrorKind::InvalidDigit }]);
}

#[test]
fn description_is_the_rest_of_the_line() {
    let sigs = signatures_from_lines(&lines("12\tlong\t\tDEADBEEF   Magic  number,\n")).unwrap();
    let f = sigs[0].fields();
    assert_eq!(f[0].position, 12);
    assert_eq!(f[0].value_type, FieldType::Long);
    assert_eq!(f[0].constraint, "DEADBEEF");
    assert_eq!(f[0].description, "Magic  number,");
}

#[test]
fn short_constraint_never_stops_the_scan() {
    let sigs = signatures_from_lines(&lines("0 short 1 Magic,\n\n")).unwrap();
    let m = match_signature(&None, &sigs[0], &[0, 0, 0, 0]).unwrap();
    assert_eq!(m.matched, None);
    assert_eq!(m.notices, vec![Notice::UnpairedConstraint { field: 0 }]);
    let sigs = signatures_from_lines(&lines("3 short 4142 Magic,\n\n")).unwrap();
    let m = match_signature(&None, &sigs[0], &[0, 0, 0, 0]).unwrap();
    assert_eq!(m.matched, None);
    assert!(m.notices.is_empty());
    let v = verify_file(&None, &[0, 0, 0, 0], &sigs).unwrap();
    assert!(v.matches.is_empty());
}
