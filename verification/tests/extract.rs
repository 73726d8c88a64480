use scanner::extract::{decode_input, detect_format, extract_zip, trim_path_quotes, InputFormat, InputSession, Prompt, HEADER_LEN};
use scanner::format::is_binary_blob;
use std::io::Write;

#[test]
fn binary_blob_markers() {
    assert!(!is_binary_blob(b":10000000"));
    assert!(!is_binary_blob(b"S1130000"));
    assert!(!is_binary_blob(b"S2"));
    assert!(!is_binary_blob(b"S3"));
    assert!(!is_binary_blob(&[0x1F, 0x8B, 0x08]));
    assert!(!is_binary_blob(b"PK\x03\x04"));
    assert!(is_binary_blob(b"S0"));
    assert!(is_binary_blob(b"S"));
    assert!(is_binary_blob(b""));
    assert!(is_binary_blob(&[0x7F, 0x45, 0x4C, 0x46]));
}

#[test]
fn formats_by_first_byte_then_path() {
    assert_eq!(detect_format("fw.gz", b":00000001FF"), InputFormat::IntelHex);
    assert_eq!(detect_format("fw.zip", b"S9030000FC"), InputFormat::SRecord);
    assert_eq!(detect_format("fw.gz", b"\x1f\x8b"), InputFormat::Gzip);
    assert_eq!(detect_format("fw.zip", b"PK"), InputFormat::Zip);
    assert_eq!(detect_format("fw.bin", b"PK"), InputFormat::Binary);
    assert_eq!(detect_format("gz", b"x"), InputFormat::Binary);
}

#[test]
fn binary_input_is_cut_to_the_header() {
    let contents: Vec<u8> = (0..600u32).map(|i| (i % 251) as u8).collect();
    let out = decode_input("fw.bin", &contents).unwrap();
    assert_eq!(out.len(), HEADER_LEN);
    assert_eq!(&out[..], &contents[..256]);
    assert_eq!(decode_input("fw.bin", b"abc").unwrap(), b"abc".to_vec());
    assert_eq!(decode_input("fw.bin", b"").unwrap(), Vec::<u8>::new());
}

#[test]
fn intel_input_is_decoded() {
    let out = decode_input("fw.hex", b":0300300002337A1E\n:00000001FF\n").unwrap();
    assert_eq!(out, vec![0x02, 0x33, 0x7A]);
}

#[test]
fn bad_intel_input_gives_nothing() {
    assert_eq!(decode_input("fw.hex", b":03003000ZZ337A1E\n").unwrap(), Vec::<u8>::new());
}

#[test]
fn srec_input_is_decoded() {
    assert_eq!(decode_input("fw.s19", b"S107000102030405E4\n").unwrap(), vec![2, 3, 4, 5]);
}

#[test]
fn gzip_input_is_decompressed() {
    let data: Vec<u8> = (0..300u32).map(|i| (i * 7 % 256) as u8).collect();
    let mut enc = flate2::write::GzEncoder::new(Vec::new(), flate2::Compression::default());
    enc.write_all(&data).unwrap();
    let gz = enc.finish().unwrap();
    let out = decode_input("firmware.gz", &gz).unwrap();
    assert_eq!(&out[..], &data[..256]);
}

#[test]
fn broken_gzip_gives_nothing() {
    assert_eq!(decode_input("firmware.gz", &[0x1f, 0x8b, 0x00]).unwrap(), Vec::<u8>::new());
}

fn zip_of(entries: &[(&str, &[u8])]) -> Vec<u8> {
    let mut w = zip::ZipWriter::new(std::io::Cursor::new(Vec::new()));
    for (name, body) in entries {
        w.start_file(*name, zip::write::SimpleFileOptions::default()).unwrap();
        w.write_all(body).unwrap();
    }
    w.finish().unwrap().into_inner()
}

#[test]
fn zip_entries_are_joined_in_order() {
    let z = zip_of(&[("a.bin", b"first"), ("b.bin", b"-second")]);
    assert_eq!(extract_zip(&z).unwrap(), b"first-second".to_vec());
    assert_eq!(decode_input("update.zip", &z).unwrap(), b"first-second".to_vec());
}

#[test]
fn broken_zip_gives_nothing() {
    assert!(extract_zip(b"PK not really").is_none());
    assert_eq!(decode_input("update.zip", b"PK not really").unwrap(), Vec::<u8>::new());
}

#[test]
fn three_empty_reads_give_up() {
    let mut s = InputSession::new();
    assert!(s.may_prompt());
    assert_eq!(s.after_read(true, false), Prompt::Retry);
    assert_eq!(s.after_read(true, false), Prompt::Retry);
    assert_eq!(s.after_read(true, false), Prompt::GiveUp);
    assert!(!s.may_prompt());
}

#[test]
fn encrypted_reads_are_asked_again_without_counting() {
    let mut s = InputSession::new();
    assert_eq!(s.after_read(false, true), Prompt::Retry);
    assert_eq!(s.after_read(false, true), Prompt::Retry);
    assert_eq!(s.after_read(false, true), Prompt::Retry);
    assert!(s.may_prompt());
    assert_eq!(s.after_read(false, false), Prompt::Accept);
}

#[test]
fn quotes_are_removed_from_paths() {
    assert_eq!(trim_path_quotes("\"/tmp/fw.bin\""), "/tmp/fw.bin");
    assert_eq!(trim_path_quotes("'/tmp/fw.bin'"), "/tmp/fw.bin");
    assert_eq!(trim_path_quotes("\"'a'\""), "a");
    assert_eq!(trim_path_quotes("'\"a\"'"), "\"a\"");
    assert_eq!(trim_path_quotes("plain"), "plain");
}

#[test]
fn long_intel_input_is_cut_to_the_header() {
    let mut image = String::new();
    let mut data = Vec::new();
    for r in 0..20u32 {
        let bytes: Vec<u8> = (0..16u32).map(|k| ((r * 16 + k) * 3 % 256) as u8).collect();
        image.push_str(&format!(":10{:04X}00", r * 16));
        for b in &bytes {
            image.push_str(&format!("{:02X}", b));
        }
        image.push_str("00\n");
        data.extend(bytes);
    }
    image.push_str(":00000001FF\n");
    let out = decode_input("any/path.bin", image.as_bytes()).unwrap();
    assert_eq!(out.len(), HEADER_LEN);
    assert_eq!(&out[..], &data[..HEADER_LEN]);
}

#[test]
fn srec_input_of_every_record_kind() {
    let image = b"S107000102030405E4\nS2080100000A0B0C0D88\nS309000000000E0F1011EC\nS9030000FC\n";
    assert_eq!(decode_input("fw.srec", image).unwrap(), vec![2, 3, 4, 5, 0x0A, 0x0B, 0x0C, 0x0D, 0x0E, 0x0F, 0x10, 0x11]);
}
