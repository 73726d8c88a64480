use scanner::matching::{checked_size, verify_size};

fn fw_bin() -> Option<Vec<u8>> {
    Some(vec![97, 97, 97, 97])
}

#[test]
fn test_verify_size_no_file() {
    let result = verify_size(&None, 4);
    assert_eq!(result.is_err(), true);
}

#[test]
fn test_verify_size() {
    let result = verify_size(&fw_bin(), 4);
    assert_eq!(result.unwrap(), true);
}

#[test]
fn test_verify_size_false() {
    let result = verify_size(&fw_bin(), 154);
    assert_eq!(result.unwrap(), false);
}

#[test]
fn matching_size_gives_the_checksum() {
    let file = Some(b"123456789".to_vec());
    assert_eq!(checked_size(&file, 9), Ok(Some(0x906E)));
    assert_eq!(checked_size(&file, 8), Ok(None));
    assert!(checked_size(&None, 9).is_err());
}
