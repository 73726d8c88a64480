//! Decoding of text-encoded firmware images (Intel HEX and Motorola S-record)
//! and of bare hex strings into raw bytes.
use vstd::prelude::*;
use vstd::string::StringSliceAdditionalSpecFns;
use crate::text::{ascii, check_slice, hex_field, hex_pairs, pairs_view, read_hex_pairs, read_unsigned, slice_ok, IntErrorKind, ParseIntError};
use crate::unicode::{lemma_lossy_text_ascii, lossy_text, utf8_lossy_string};

verus! {

/// The two line-oriented encodings of a firmware image.
#[derive(Debug, Clone, Copy, PartialEq, Eq, Structural)]
pub enum Encoding {
    IntelHex,
    SRecord,
}

/// The byte that starts a record line of the encoding (`:` or `S`).
pub open spec fn record_lead(enc: Encoding) -> u8 {
    match enc {
        Encoding::IntelHex => 0x3a,
        Encoding::SRecord => 0x53,
    }
}

/// Forgets where in a line a pair failed.
pub open spec fn drop_offset(r: Option<Result<Seq<u8>, (int, IntErrorKind)>>) -> Option<Result<Seq<u8>, IntErrorKind>> {
    match r {
        None => None,
        Some(Ok(b)) => Some(Ok(b)),
        Some(Err((_, e))) => Some(Err(e)),
    }
}

/// The data of one Intel HEX record line `:LLAAAATT DD..DD CC`: the `LL` data bytes when
/// the record type `TT` is 00, nothing for any other type. `None` where a slice of the
/// line panics; the first field that is not hex decides the error.
#[verifier::opaque]
pub open spec fn intel_record(l: Seq<u8>) -> Option<Result<Seq<u8>, IntErrorKind>> {
    match hex_field(l, 1, 3, 255) {
        None => None,
        Some(Err(e)) => Some(Err(e)),
        Some(Ok(count)) => match hex_field(l, 3, 7, 65535) {
            None => None,
            Some(Err(e)) => Some(Err(e)),
            Some(Ok(_address)) => match hex_field(l, 7, 9, 255) {
                None => None,
                Some(Err(e)) => Some(Err(e)),
                Some(Ok(kind)) => if kind == 0 {
                    drop_offset(hex_pairs(l, 9, count))
                } else {
                    Some(Ok(Seq::empty()))
                },
            },
        },
    }
}

/// Length in characters of the address field of an S1, S2 or S3 record.
pub open spec fn srec_address_len(t: u8) -> int {
    if t == 0x31 {
        4
    } else if t == 0x32 {
        6
    } else {
        8
    }
}

/// Number of data bytes read from an S1/S2/S3 record of type `t` whose count field is
/// `count`: every byte between the address and the checksum.
pub open spec fn srec_data_len(t: u8, count: nat) -> nat {
    let start = 4 + srec_address_len(t);
    let end = 2 + 2 * count;
    if end > start {
        ((end - start) / 2) as nat
    } else {
        0
    }
}

/// The data of one S-record line `STCC AAAA.. DD..DD CC`: for types 1, 2 and 3 the bytes
/// after the address up to the checksum, nothing for other types.
pub open spec fn srec_record(l: Seq<u8>) -> Option<Result<Seq<u8>, IntErrorKind>> {
    if !slice_ok(l, 1, 2) {
        None
    } else {
        match hex_field(l, 2, 4, 255) {
            None => None,
            Some(Err(e)) => Some(Err(e)),
            Some(Ok(count)) => {
                let t = l[1];
                if t == 0x31 || t == 0x32 || t == 0x33 {
                    drop_offset(hex_pairs(l, 4 + srec_address_len(t), srec_data_len(t, count)))
                } else {
                    Some(Ok(Seq::empty()))
                }
            },
        }
    }
}

/// The record of a line of the given encoding.
pub open spec fn record(enc: Encoding, l: Seq<u8>) -> Option<Result<Seq<u8>, IntErrorKind>> {
    match enc {
        Encoding::IntelHex => intel_record(l),
        Encoding::SRecord => srec_record(l),
    }
}

/// Offset of the first line feed at or after `from`, or the length of `s` if none.
pub open spec fn next_newline(s: Seq<u8>, from: int) -> int
    decreases s.len() - from,
{
    if from < 0 || from >= s.len() {
        s.len() as int
    } else if s[from] == 10 {
        from
    } else {
        next_newline(s, from + 1)
    }
}

/// The line of `s` that starts at `from` (`str::lines`): up to the next line feed, without
/// it and without a carriage return just before it.
pub open spec fn line_at(s: Seq<u8>, from: int) -> Seq<u8> {
    let j = next_newline(s, from);
    let piece = s.subrange(from, j);
    if j < s.len() && piece.len() > 0 && piece.last() == 13 {
        piece.drop_last()
    } else {
        piece
    }
}

/// Appends the bytes `b` in front of a decoding outcome.
pub open spec fn prepend(b: Seq<u8>, r: Option<Result<Seq<u8>, IntErrorKind>>) -> Option<Result<Seq<u8>, IntErrorKind>> {
    match r {
        None => None,
        Some(Err(e)) => Some(Err(e)),
        Some(Ok(rest)) => Some(Ok(b + rest)),
    }
}

/// What a single line gives: its record's data if it starts with the record byte of
/// the encoding, nothing otherwise.
pub open spec fn line_record(enc: Encoding, l: Seq<u8>) -> Option<Result<Seq<u8>, IntErrorKind>> {
    if l.len() > 0 && l[0] == record_lead(enc) {
        record(enc, l)
    } else {
        Some(Ok(Seq::empty()))
    }
}

/// Decoding the text `s` from offset `from` on, line by line: lines that start with the
/// record byte of the encoding give their records' data, all others nothing, and the
/// first line that panics or fails decides the outcome.
#[verifier::opaque]
pub open spec fn decode_lines(enc: Encoding, s: Seq<u8>, from: int) -> Option<Result<Seq<u8>, IntErrorKind>>
    decreases s.len() - from via decode_lines_decreases
{
    if from < 0 || from >= s.len() {
        Some(Ok(Seq::empty()))
    } else {
        match line_record(enc, line_at(s, from)) {
            None => None,
            Some(Err(e)) => Some(Err(e)),
            Some(Ok(b)) => if next_newline(s, from) < s.len() {
                prepend(b, decode_lines(enc, s, next_newline(s, from) + 1))
            } else {
                Some(Ok(b))
            },
        }
    }
}

#[via_fn]
proof fn decode_lines_decreases(enc: Encoding, s: Seq<u8>, from: int) {
    if 0 <= from < s.len() {
        lemma_next_newline(s, from);
    }
}

/// One step of `decode_lines`.
pub proof fn lemma_decode_lines_unfold(enc: Encoding, s: Seq<u8>, from: int)
    ensures
        decode_lines(enc, s, from) == (if from < 0 || from >= s.len() {
            Some(Ok(Seq::empty()))
        } else {
            match line_record(enc, line_at(s, from)) {
                None => None,
                Some(Err(e)) => Some(Err(e)),
                Some(Ok(b)) => if next_newline(s, from) < s.len() {
                    prepend(b, decode_lines(enc, s, next_newline(s, from) + 1))
                } else {
                    Some(Ok(b))
                },
            }
        }),
{
    reveal(decode_lines);
}

/// `next_newline` finds the first line feed at or after `from`.
pub proof fn lemma_next_newline(s: Seq<u8>, from: int)
    requires
        0 <= from <= s.len(),
    ensures
        from <= next_newline(s, from) <= s.len(),
        next_newline(s, from) < s.len() ==> s[next_newline(s, from)] == 10,
        forall|k: int| from <= k < next_newline(s, from) ==> s[k] != 10,
    decreases s.len() - from,
{
    if from < s.len() && s[from] != 10 {
        lemma_next_newline(s, from + 1);
    }
}

/// The spec view of an exec decoding outcome.
pub open spec fn decoded_view(r: Option<Result<Vec<u8>, ParseIntError>>) -> Option<Result<Seq<u8>, IntErrorKind>> {
    match r {
        None => None,
        Some(Ok(v)) => Some(Ok(v@)),
        Some(Err(e)) => Some(Err(e.kind)),
    }
}

/// The spec view of an exec decoding result.
pub open spec fn result_view(r: Result<Vec<u8>, ParseIntError>) -> Result<Seq<u8>, IntErrorKind> {
    match r {
        Ok(v) => Ok(v@),
        Err(e) => Err(e.kind),
    }
}

fn pairs_without_offset(r: Option<Result<Vec<u8>, (usize, IntErrorKind)>>) -> (out: Option<Result<Vec<u8>, ParseIntError>>)
    ensures
        decoded_view(out) == drop_offset(pairs_view(r)),
{
    match r {
        None => None,
        Some(Ok(b)) => Some(Ok(b)),
        Some(Err((_, e))) => Some(Err(ParseIntError { kind: e })),
    }
}

/// Reads the Intel HEX record in the line `l`; `None` where a slice of the line would panic.
fn read_intel_record(l: &[u8]) -> (r: Option<Result<Vec<u8>, ParseIntError>>)
    ensures
        decoded_view(r) == intel_record(l@),
{
    reveal(intel_record);
    if !check_slice(l, 1, 3) {
        return None;
    }
    let count = match read_unsigned(l, 1, 3, 16, 255) {
        Err(e) => return Some(Err(ParseIntError { kind: e })),
        Ok(v) => v,
    };
    if !check_slice(l, 3, 7) {
        return None;
    }
    match read_unsigned(l, 3, 7, 16, 65535) {
        Err(e) => return Some(Err(ParseIntError { kind: e })),
        Ok(_) => {},
    }
    if !check_slice(l, 7, 9) {
        return None;
    }
    let kind = match read_unsigned(l, 7, 9, 16, 255) {
        Err(e) => return Some(Err(ParseIntError { kind: e })),
        Ok(v) => v,
    };
    if kind == 0 {
        pairs_without_offset(read_hex_pairs(l, 9, count as usize))
    } else {
        Some(Ok(Vec::new()))
    }
}

/// Reads the S-record in the line `l`; `None` where a slice of the line would panic.
fn read_srec_record(l: &[u8]) -> (r: Option<Result<Vec<u8>, ParseIntError>>)
    ensures
        decoded_view(r) == srec_record(l@),
{
    if !check_slice(l, 1, 2) {
        return None;
    }
    let t = l[1];
    if !check_slice(l, 2, 4) {
        return None;
    }
    let count = match read_unsigned(l, 2, 4, 16, 255) {
        Err(e) => return Some(Err(ParseIntError { kind: e })),
        Ok(v) => v,
    };
    if t == 0x31 || t == 0x32 || t == 0x33 {
        let address_len: u64 = if t == 0x31 {
            4
        } else if t == 0x32 {
            6
        } else {
            8
        };
        let start: u64 = 4 + address_len;
        let end: u64 = 2 + 2 * count;
        let n: u64 = if end > start {
            (end - start) / 2
        } else {
            0
        };
        pairs_without_offset(read_hex_pairs(l, start as usize, n as usize))
    } else {
        Some(Ok(Vec::new()))
    }
}

fn read_record(enc: Encoding, l: &[u8]) -> (r: Option<Result<Vec<u8>, ParseIntError>>)
    ensures
        decoded_view(r) == record(enc, l@),
{
    match enc {
        Encoding::IntelHex => read_intel_record(l),
        Encoding::SRecord => read_srec_record(l),
    }
}

/// Decodes the text `s` line by line as `decode_lines` says; `None` where a slice of a line
/// would panic.
pub fn decode_text(enc: Encoding, s: &[u8]) -> (r: Option<Result<Vec<u8>, ParseIntError>>)
    ensures
        decoded_view(r) == decode_lines(enc, s@, 0),
{
    let mut out: Vec<u8> = Vec::new();
    let mut pos: usize = 0;
    let n = s.len();
    assert(out@ + Seq::<u8>::empty() =~= out@);
    proof { lemma_decode_lines_unfold(enc, s@, 0); }
    while pos < n
        invariant
            n == s@.len(),
            pos <= n,
            decode_lines(enc, s@, 0) == prepend(out@, decode_lines(enc, s@, pos as int)),
        decreases n - pos,
    {
        let (j, end) = find_line(s, pos);
        proof { lemma_decode_lines_unfold(enc, s@, pos as int); }
        let line = &s[pos..end];
        assert(line@ =~= line_at(s@, pos as int));
        let r = if line.len() > 0 && line[0] == lead_byte(enc) {
            read_record(enc, line)
        } else {
            Some(Ok(Vec::new()))
        };
        match r {
            None => {
                return None;
            },
            Some(Err(e)) => {
                return Some(Err(e));
            },
            Some(Ok(b)) => {
                let ghost before = out@;
                let ghost bv = b@;
                let mut b = b;
                out.append(&mut b);
                proof {
                    if j < n {
                        let rest = decode_lines(enc, s@, j + 1);
                        match rest {
                            Some(Ok(x)) => {
                                assert(before + (bv + x) =~= out@ + x);
                            },
                            _ => {},
                        }
                    } else {
                        lemma_decode_lines_unfold(enc, s@, n as int);
                        assert(out@ + Seq::<u8>::empty() =~= out@);
                    }
                }
            },
        }
        if j >= n {
            pos = n;
        } else {
            pos = j + 1;
        }
    }
    proof { lemma_decode_lines_unfold(enc, s@, pos as int); }
    assert(out@ + Seq::<u8>::empty() =~= out@);
    Some(Ok(out))
}

/// Finds the line that starts at `pos`: `j` is the offset of its line feed (or the end of
/// the text) and `s[pos..end]` its contents.
fn find_line(s: &[u8], pos: usize) -> (r: (usize, usize))
    requires
        pos < s@.len(),
    ensures
        r.0 == next_newline(s@, pos as int),
        pos <= r.1 <= r.0 <= s@.len(),
        s@.subrange(pos as int, r.1 as int) == line_at(s@, pos as int),
{
    let n = s.len();
    let mut j = pos;
    while j < n && s[j] != 10
        invariant
            pos <= j <= n,
            n == s@.len(),
            next_newline(s@, pos as int) == next_newline(s@, j as int),
        decreases n - j,
    {
        j = j + 1;
    }
    proof { lemma_next_newline(s@, pos as int); }
    let end = if j < n && j > pos && s[j - 1] == 13 {
        j - 1
    } else {
        j
    };
    assert(s@.subrange(pos as int, end as int) =~= line_at(s@, pos as int));
    (j, end)
}

fn lead_byte(enc: Encoding) -> (b: u8)
    ensures
        b == record_lead(enc),
{
    match enc {
        Encoding::IntelHex => 0x3a,
        Encoding::SRecord => 0x53,
    }
}

/// Text of an image: the bytes of the UTF-8 string that lossy conversion makes of it.
/// ASCII (and any valid UTF-8) is its own text (`lemma_lossy_text_ascii`).
pub open spec fn image_text(data: Seq<u8>) -> Seq<u8> {
    vstd::utf8::encode_utf8(lossy_text(data))
}

/// Decoding the image `data` as text in the given encoding; `None` where a slice of a line
/// would panic.
pub open spec fn decode_image(enc: Encoding, data: Seq<u8>) -> Option<Result<Seq<u8>, IntErrorKind>> {
    decode_lines(enc, image_text(data), 0)
}

/// An ASCII image is decoded as it is.
pub proof fn lemma_decode_ascii_image(enc: Encoding, data: Seq<u8>)
    requires
        ascii(data),
    ensures
        decode_image(enc, data) == decode_lines(enc, data, 0),
{
    lemma_lossy_text_ascii(data);
}

/// Decodes an Intel HEX image to the binary data of its data records, in order. Each line
/// that starts with `:` is a record; the first record that is not hex gives the error.
pub fn intel_hex_to_binary(data: &[u8]) -> (r: Result<Vec<u8>, ParseIntError>)
    requires
        decode_image(Encoding::IntelHex, data@) is Some,
    ensures
        Some(result_view(r)) == decode_image(Encoding::IntelHex, data@),
        ascii(data@) ==> Some(result_view(r)) == decode_lines(Encoding::IntelHex, data@, 0),
{
    proof {
        if ascii(data@) {
            lemma_decode_ascii_image(Encoding::IntelHex, data@);
        }
    }
    match try_decode_image(Encoding::IntelHex, data) {
        Some(r) => r,
        None => Ok(Vec::new()),
    }
}

/// Decodes a Motorola S-record image to the binary data of its S1, S2 and S3 records,
/// in order. Each line that starts with `S` is a record.
pub fn srec_to_binary(data: &[u8]) -> (r: Result<Vec<u8>, ParseIntError>)
    requires
        decode_image(Encoding::SRecord, data@) is Some,
    ensures
        Some(result_view(r)) == decode_image(Encoding::SRecord, data@),
        ascii(data@) ==> Some(result_view(r)) == decode_lines(Encoding::SRecord, data@, 0),
{
    proof {
        if ascii(data@) {
            lemma_decode_ascii_image(Encoding::SRecord, data@);
        }
    }
    match try_decode_image(Encoding::SRecord, data) {
        Some(r) => r,
        None => Ok(Vec::new()),
    }
}

/// Decodes the image `data` in the given encoding, or says `None` where a slice of a line
/// would panic.
pub fn try_decode_image(enc: Encoding, data: &[u8]) -> (r: Option<Result<Vec<u8>, ParseIntError>>)
    ensures
        decoded_view(r) == decode_image(enc, data@),
        ascii(data@) ==> decoded_view(r) == decode_lines(enc, data@, 0),
{
    let text = utf8_lossy_string(data);
    let bytes = text.as_str().as_bytes();
    proof {
        if ascii(data@) {
            lemma_decode_ascii_image(enc, data@);
        }
    }
    decode_text(enc, bytes)
}

/// The data of one Intel HEX line (which starts with `:`).
pub fn parse_hex_data(datahex: &str) -> (r: Result<Vec<u8>, ParseIntError>)
    requires
        intel_record(datahex.spec_bytes()) is Some,
    ensures
        Some(result_view(r)) == intel_record(datahex.spec_bytes()),
{
    match read_intel_record(datahex.as_bytes()) {
        Some(r) => r,
        None => Ok(Vec::new()),
    }
}

/// The data of one S-record line (which starts with `S`).
pub fn parse_srec_data(datasrec: &str) -> (r: Result<Vec<u8>, ParseIntError>)
    requires
        srec_record(datasrec.spec_bytes()) is Some,
    ensures
        Some(result_view(r)) == srec_record(datasrec.spec_bytes()),
{
    match read_srec_record(datasrec.as_bytes()) {
        Some(r) => r,
        None => Ok(Vec::new()),
    }
}

/// `s` with every leading `0x` removed (`trim_start_matches("0x")`).
pub open spec fn strip_0x(s: Seq<u8>) -> Seq<u8>
    decreases s.len(),
{
    if s.len() >= 2 && s[0] == 0x30 && s[1] == 0x78 {
        strip_0x(s.subrange(2, s.len() as int))
    } else {
        s
    }
}

/// The digits of a hex string as read: without leading `0x`s, and with a `0` in front
/// when their number is odd.
pub open spec fn hex_digits(s: Seq<u8>) -> Seq<u8> {
    let t = strip_0x(s);
    if t.len() % 2 == 1 {
        seq![0x30u8] + t
    } else {
        t
    }
}

/// Reading a hex string as bytes, two digits each; `None` where a slice panics.
pub open spec fn hex_string(s: Seq<u8>) -> Option<Result<Seq<u8>, IntErrorKind>> {
    let d = hex_digits(s);
    drop_offset(hex_pairs(d, 0, d.len() / 2))
}

fn strip_0x_from(s: &[u8]) -> (start: usize)
    ensures
        start <= s@.len(),
        strip_0x(s@) == s@.subrange(start as int, s@.len() as int),
{
    let mut i: usize = 0;
    let n = s.len();
    assert(s@.subrange(0, n as int) =~= s@);
    while n - i >= 2 && s[i] == 0x30 && s[i + 1] == 0x78
        invariant
            i <= n,
            n == s@.len(),
            strip_0x(s@) == strip_0x(s@.subrange(i as int, n as int)),
        decreases n - i,
    {
        assert(s@.subrange(i as int, n as int).subrange(2, (n - i) as int) =~= s@.subrange(i + 2, n as int));
        i = i + 2;
    }
    i
}

/// Converts a hex string such as `0x1F2e3` into bytes (`[0x01, 0xF2, 0xE3]`).
pub fn hex_str_to_binary(hex: &str) -> (r: Result<Vec<u8>, ParseIntError>)
    requires
        hex_string(hex.spec_bytes()) is Some,
    ensures
        Some(result_view(r)) == hex_string(hex.spec_bytes()),
{
    match try_hex_str_to_binary(hex) {
        Some(r) => r,
        None => Ok(Vec::new()),
    }
}

/// Reads a hex string as `hex_str_to_binary` does, or says `None` where that would panic.
pub fn try_hex_str_to_binary(hex: &str) -> (r: Option<Result<Vec<u8>, ParseIntError>>)
    ensures
        decoded_view(r) == hex_string(hex.spec_bytes()),
{
    let s = hex.as_bytes();
    let start = strip_0x_from(s);
    let n = s.len() - start;
    let mut digits: Vec<u8> = Vec::new();
    if n % 2 == 1 {
        digits.push(0x30);
    }
    let mut i = start;
    while i < s.len()
        invariant
            start <= i <= s@.len(),
            n == s@.len() - start,
            digits@ == (if n % 2 == 1 { seq![0x30u8] } else { Seq::<u8>::empty() }) + s@.subrange(start as int, i as int),
        decreases s@.len() - i,
    {
        digits.push(s[i]);
        i = i + 1;
    }
    assert(digits@ =~= hex_digits(s@));
    let len = digits.len();
    pairs_without_offset(read_hex_pairs(digits.as_slice(), 0, len / 2))
}

} // verus!
