//! Properties of the decoders and the scanner that hold for all inputs.
use vstd::prelude::*;
use crate::unicode::lemma_lossy_text_ascii;
use crate::extract::{firmware_bytes, firmware_from, header_part, input_format, InputFormat, HEADER_LEN};
use crate::format::has_encoding_marker;
use crate::matching::{
    crc16_ibm_sdlc, le32, long_step, size_step, take, field_step, lemma_run_stops, run_fields, scan, signature_outcome, str_step, tagged, Effect, MatchView, Notice,
    RunState, ScanView, Step,
};
use crate::signature::{
    decimal_usize, default_field, field_of_line, fold_items, next_white, position_spec, read_lines, signatures_of, skip_white, split_white,
    type_named, FieldType, FieldView, ReadState,
};
use crate::strings::{decimal, digit_char, is_white_space, trim_end_ws, trim_start_ws, trim_ws};
use vstd::utf8::{encode_utf8, is_ascii_chars, is_ascii_chars_encode_utf8};
use crate::records::{decode_lines, hex_digits, hex_string, strip_0x, intel_record, lemma_decode_lines_unfold, lemma_next_newline, line_at, line_record, next_newline, prepend, srec_address_len, srec_data_len, srec_record, Encoding};
use crate::text::{ascii, digit_value, digits_value, hex_field, hex_pairs, parse_unsigned, slice_ok, IntErrorKind};

verus! {

/// The upper-case hex digit of `d` (< 16), as a byte.
pub open spec fn hex_char(d: nat) -> u8 {
    if d < 10 {
        (48 + d) as u8
    } else {
        (55 + d) as u8
    }
}

/// A number below 256 as two hex digits.
pub open spec fn hex2(b: nat) -> Seq<u8> {
    seq![hex_char(b / 16), hex_char(b % 16)]
}

/// The hex digit of `d` (< 16) as a byte, in upper or lower case.
pub open spec fn hex_char_in(d: nat, upper: bool) -> u8 {
    if upper {
        hex_char(d)
    } else if d < 10 {
        (48 + d) as u8
    } else {
        (87 + d) as u8
    }
}

/// A number below 256 as two hex digits in the given case.
pub open spec fn hex2_in(b: nat, upper: bool) -> Seq<u8> {
    seq![hex_char_in(b / 16, upper), hex_char_in(b % 16, upper)]
}

/// Bytes as hex digits in the given case (`format!("{:02X}")` or `format!("{:02x}")` of
/// each byte), two per byte, most significant digit first.
pub open spec fn hex_text(data: Seq<u8>, upper: bool) -> Seq<u8> {
    Seq::new(
        2 * data.len(),
        |i: int|
            if i % 2 == 0 {
                hex_char_in((data[i / 2] / 16) as nat, upper)
            } else {
                hex_char_in((data[i / 2] % 16) as nat, upper)
            },
    )
}

/// Bytes as upper-case hex digits, two per byte, most significant digit first.
pub open spec fn hex_bytes(data: Seq<u8>) -> Seq<u8> {
    Seq::new(
        2 * data.len(),
        |i: int|
            if i % 2 == 0 {
                hex_char((data[i / 2] / 16) as nat)
            } else {
                hex_char((data[i / 2] % 16) as nat)
            },
    )
}

/// The upper-case rendering is the one `hex_text` gives in upper case.
proof fn lemma_hex_bytes_upper(data: Seq<u8>)
    ensures
        hex_bytes(data) == hex_text(data, true),
{
    assert(hex_bytes(data) =~= hex_text(data, true));
}

proof fn lemma_hex_char_in(d: nat, upper: bool)
    requires
        d < 16,
    ensures
        digit_value(hex_char_in(d, upper), 16) == Some(d),
        48 <= hex_char_in(d, upper) < 0x78,
{
}

/// Two hex digits of either case read back as the byte they render.
proof fn lemma_hex2_in_value(b: nat, upper: bool)
    requires
        b < 256,
    ensures
        parse_unsigned(hex2_in(b, upper), 16, 255) == Ok::<nat, IntErrorKind>(b),
{
    lemma_hex_char_in(b / 16, upper);
    lemma_digits_two_more(Seq::empty(), 0, b / 16, b % 16, 255, IntErrorKind::PosOverflow, upper);
    assert(Seq::<u8>::empty() + seq![hex_char_in(b / 16, upper), hex_char_in(b % 16, upper)] =~= hex2_in(b, upper));
}

/// An Intel HEX data record (type 00) for `data` at `address`, with any checksum byte.
pub open spec fn intel_data_line(address: nat, data: Seq<u8>, checksum: u8) -> Seq<u8> {
    seq![0x3au8] + hex2(data.len()) + hex2(address / 256) + hex2(address % 256) + hex2(0) + hex_bytes(data)
        + hex2(checksum as nat)
}

proof fn lemma_hex_char(d: nat)
    requires
        d < 16,
    ensures
        digit_value(hex_char(d), 16) == Some(d),
        48 <= hex_char(d) < 0x80,
{
}

/// Two more hex digits extend the value read so far by one byte.
proof fn lemma_digits_two_more(d: Seq<u8>, v: nat, x: nat, y: nat, max: nat, ov: IntErrorKind, upper: bool)
    requires
        x < 16,
        y < 16,
        digits_value(d, 16, max, ov) == Ok::<nat, IntErrorKind>(v),
        v * 256 + x * 16 + y <= max,
    ensures
        digits_value(d + seq![hex_char_in(x, upper), hex_char_in(y, upper)], 16, max, ov) == Ok::<nat, IntErrorKind>(
            v * 256 + x * 16 + y,
        ),
{
    lemma_hex_char_in(x, upper);
    lemma_hex_char_in(y, upper);
    let e = d + seq![hex_char_in(x, upper)];
    let f = d + seq![hex_char_in(x, upper), hex_char_in(y, upper)];
    assert(e.drop_last() =~= d);
    assert(f.drop_last() =~= e);
    assert(v * 16 + x <= max) by (nonlinear_arith)
        requires
            v * 256 + x * 16 + y <= max,
            y >= 0,
            v >= 0,
            x >= 0,
    ;
    assert(digits_value(e, 16, max, ov) == Ok::<nat, IntErrorKind>(v * 16 + x));
    assert((v * 16 + x) * 16 + y == v * 256 + x * 16 + y) by (nonlinear_arith);
}

/// Two hex digits read back as the byte they render.
proof fn lemma_hex2_value(b: nat, max: nat)
    requires
        b < 256,
        255 <= max,
    ensures
        parse_unsigned(hex2(b), 16, max) == Ok::<nat, IntErrorKind>(b),
{
    lemma_hex_char(b / 16);
    lemma_digits_two_more(Seq::empty(), 0, b / 16, b % 16, max, IntErrorKind::PosOverflow, true);
    assert(Seq::<u8>::empty() + seq![hex_char_in(b / 16, true), hex_char_in(b % 16, true)] =~= hex2(b));
}

/// Four hex digits read back as the 16-bit number they render.
proof fn lemma_hex4_value(a: nat)
    requires
        a < 65536,
    ensures
        parse_unsigned(hex2(a / 256) + hex2(a % 256), 16, 65535) == Ok::<nat, IntErrorKind>(a),
{
    let hi = a / 256;
    let lo = a % 256;
    lemma_hex_char(hi / 16);
    lemma_digits_two_more(Seq::empty(), 0, hi / 16, hi % 16, 65535, IntErrorKind::PosOverflow, true);
    assert(Seq::<u8>::empty() + seq![hex_char_in(hi / 16, true), hex_char_in(hi % 16, true)] =~= hex2(hi));
    lemma_digits_two_more(hex2(hi), hi, lo / 16, lo % 16, 65535, IntErrorKind::PosOverflow, true);
    assert(hex2(hi) + seq![hex_char_in(lo / 16, true), hex_char_in(lo % 16, true)] =~= hex2(hi) + hex2(lo));
}

/// In ASCII text every offset up to the end is a character boundary.
proof fn lemma_ascii_boundaries(s: Seq<u8>, a: int, b: int)
    requires
        ascii(s),
        0 <= a <= b <= s.len(),
    ensures
        slice_ok(s, a, b),
{
}

/// The first `k` pairs of a run of hex digits that renders `data` read back as the
/// first `k` bytes of `data`.
proof fn lemma_hex_pairs_prefix(l: Seq<u8>, start: int, data: Seq<u8>, k: nat, upper: bool)
    requires
        ascii(l),
        0 <= start,
        k <= data.len(),
        start + 2 * data.len() <= l.len(),
        l.subrange(start, start + 2 * data.len()) == hex_text(data, upper),
    ensures
        hex_pairs(l, start, k) == Some(Ok::<Seq<u8>, (int, IntErrorKind)>(data.subrange(0, k as int))),
    decreases k,
{
    if k == 0 {
        assert(data.subrange(0, 0) =~= Seq::<u8>::empty());
    } else {
        let j: int = k - 1;
        lemma_hex_pairs_prefix(l, start, data, (k - 1) as nat, upper);
        let at = start + 2 * j;
        let b = data[j];
        assert(l.subrange(at, at + 2) =~= hex2_in(b as nat, upper)) by {
            assert(l[at] == hex_text(data, upper)[2 * j]);
            assert(l[at + 1] == hex_text(data, upper)[2 * j + 1]);
            assert((2 * j) / 2 == j);
            assert((2 * j + 1) / 2 == j);
            assert((2 * j) % 2 == 0);
            assert((2 * j + 1) % 2 == 1);
        }
        lemma_ascii_boundaries(l, at, at + 2);
        lemma_hex2_in_value(b as nat, upper);
        assert(hex_field(l, at, at + 2, 255) == Some(Ok::<nat, IntErrorKind>(b as nat)));
        assert(data.subrange(0, j).push(b) =~= data.subrange(0, k as int));
    }
}

/// A run of hex digits that renders `data` reads back as `data`.
proof fn lemma_hex_pairs_read(l: Seq<u8>, start: int, data: Seq<u8>, upper: bool)
    requires
        ascii(l),
        0 <= start,
        start + 2 * data.len() <= l.len(),
        l.subrange(start, start + 2 * data.len()) == hex_text(data, upper),
    ensures
        hex_pairs(l, start, data.len()) == Some(Ok::<Seq<u8>, (int, IntErrorKind)>(data)),
{
    lemma_hex_pairs_prefix(l, start, data, data.len(), upper);
    assert(data.subrange(0, data.len() as int) =~= data);
}

proof fn lemma_hex_text_ascii(data: Seq<u8>, upper: bool)
    ensures
        ascii(hex_text(data, upper)),
{
    assert forall|i: int| 0 <= i < hex_text(data, upper).len() implies hex_text(data, upper)[i] < 0x80 by {
        lemma_hex_char_in((data[i / 2] / 16) as nat, upper);
        lemma_hex_char_in((data[i / 2] % 16) as nat, upper);
    }
}

proof fn lemma_hex_bytes_ascii(data: Seq<u8>)
    ensures
        ascii(hex_bytes(data)),
{
    assert forall|i: int| 0 <= i < hex_bytes(data).len() implies hex_bytes(data)[i] < 0x80 by {
        lemma_hex_char((data[i / 2] / 16) as nat);
        lemma_hex_char((data[i / 2] % 16) as nat);
    }
}

proof fn lemma_hex2_ascii(b: nat)
    requires
        b < 256,
    ensures
        ascii(hex2(b)),
        hex2(b).len() == 2,
{
    lemma_hex_char(b / 16);
    lemma_hex_char(b % 16);
}

/// Decoding an Intel HEX data record gives back exactly the data it was written with,
/// whatever its address and checksum.
pub proof fn law_intel_data_record(address: nat, data: Seq<u8>, checksum: u8)
    requires
        address < 65536,
        data.len() <= 255,
    ensures
        intel_record(intel_data_line(address, data, checksum)) == Some(Ok::<Seq<u8>, IntErrorKind>(data)),
{
    reveal(intel_record);
    let n = data.len();
    let l = intel_data_line(address, data, checksum);
    lemma_hex2_ascii(n);
    lemma_hex2_ascii(address / 256);
    lemma_hex2_ascii(address % 256);
    lemma_hex2_ascii(0);
    lemma_hex2_ascii(checksum as nat);
    lemma_hex_bytes_ascii(data);
    assert(ascii(l));
    assert(l.len() == 11 + 2 * n);
    assert(l.subrange(1, 3) =~= hex2(n));
    assert(l.subrange(3, 7) =~= hex2(address / 256) + hex2(address % 256));
    assert(l.subrange(7, 9) =~= hex2(0));
    assert(l.subrange(9, 9 + 2 * n as int) =~= hex_bytes(data));
    lemma_hex2_value(n, 255);
    lemma_hex4_value(address);
    lemma_hex2_value(0, 255);
    lemma_ascii_boundaries(l, 1, 3);
    lemma_ascii_boundaries(l, 3, 7);
    lemma_ascii_boundaries(l, 7, 9);
    lemma_hex_bytes_upper(data);
    lemma_hex_pairs_read(l, 9, data, true);
}

/// An S1, S2 or S3 record (type digit `t`) for `data` at the address whose bytes are
/// `address`, with any checksum byte.
pub open spec fn srec_data_line(t: u8, address: Seq<u8>, data: Seq<u8>, checksum: u8) -> Seq<u8> {
    seq![0x53u8, t] + hex2(address.len() + data.len() + 1) + hex_bytes(address) + hex_bytes(data) + hex2(
        checksum as nat,
    )
}

/// Decoding an S1, S2 or S3 record gives back exactly the data it was written with,
/// whatever its address and checksum.
pub proof fn law_srec_data_record(t: u8, address: Seq<u8>, data: Seq<u8>, checksum: u8)
    requires
        t == 0x31 || t == 0x32 || t == 0x33,
        2 * address.len() == srec_address_len(t),
        address.len() + data.len() + 1 <= 255,
    ensures
        srec_record(srec_data_line(t, address, data, checksum)) == Some(Ok::<Seq<u8>, IntErrorKind>(data)),
{
    let n = data.len();
    let m = address.len();
    let count = m + n + 1;
    let l = srec_data_line(t, address, data, checksum);
    lemma_hex2_ascii(count);
    lemma_hex2_ascii(checksum as nat);
    lemma_hex_bytes_ascii(address);
    lemma_hex_bytes_ascii(data);
    assert(ascii(l));
    assert(l.len() == 6 + 2 * m + 2 * n);
    assert(l.subrange(2, 4) =~= hex2(count));
    let start: int = 4 + 2 * m as int;
    assert(l.subrange(start, start + 2 * n as int) =~= hex_bytes(data));
    lemma_hex2_value(count, 255);
    lemma_ascii_boundaries(l, 1, 2);
    lemma_ascii_boundaries(l, 2, 4);
    assert(l[1] == t);
    assert(srec_data_len(t, count) == n);
    lemma_hex_bytes_upper(data);
    lemma_hex_pairs_read(l, start, data, true);
}

/// Lines, each followed by a line feed.
pub open spec fn join_lines(lines: Seq<Seq<u8>>) -> Seq<u8>
    decreases lines.len(),
{
    if lines.len() == 0 {
        Seq::empty()
    } else {
        lines[0] + seq![10u8] + join_lines(lines.drop_first())
    }
}

/// Decoding the given lines one after another; the first line that panics or fails
/// decides the outcome.
pub open spec fn decode_each(enc: Encoding, lines: Seq<Seq<u8>>) -> Option<Result<Seq<u8>, IntErrorKind>>
    decreases lines.len(),
{
    if lines.len() == 0 {
        Some(Ok(Seq::empty()))
    } else {
        match line_record(enc, lines[0]) {
            None => None,
            Some(Err(e)) => Some(Err(e)),
            Some(Ok(b)) => prepend(b, decode_each(enc, lines.drop_first())),
        }
    }
}

/// Where the next line feed is depends only on the text from the offset on.
proof fn lemma_next_newline_shift(s: Seq<u8>, from: int, t: Seq<u8>, from2: int)
    requires
        0 <= from <= s.len(),
        0 <= from2 <= t.len(),
        s.subrange(from, s.len() as int) == t.subrange(from2, t.len() as int),
    ensures
        next_newline(s, from) - from == next_newline(t, from2) - from2,
    decreases s.len() - from,
{
    assert(s.subrange(from, s.len() as int).len() == s.len() - from);
    assert(t.subrange(from2, t.len() as int).len() == t.len() - from2);
    if from < s.len() {
        assert(s[from] == s.subrange(from, s.len() as int)[0]);
        assert(t[from2] == t.subrange(from2, t.len() as int)[0]);
        if s[from] != 10 {
            assert(s.subrange(from + 1, s.len() as int) =~= s.subrange(from, s.len() as int).drop_first());
            assert(t.subrange(from2 + 1, t.len() as int) =~= t.subrange(from2, t.len() as int).drop_first());
            lemma_next_newline_shift(s, from + 1, t, from2 + 1);
        }
    }
}

/// Decoding from an offset depends only on the text from that offset on.
proof fn lemma_decode_shift(enc: Encoding, s: Seq<u8>, from: int, t: Seq<u8>, from2: int)
    requires
        0 <= from <= s.len(),
        0 <= from2 <= t.len(),
        s.subrange(from, s.len() as int) == t.subrange(from2, t.len() as int),
    ensures
        decode_lines(enc, s, from) == decode_lines(enc, t, from2),
    decreases s.len() - from,
{
    let rs = s.subrange(from, s.len() as int);
    let rt = t.subrange(from2, t.len() as int);
    assert(rs.len() == rt.len());
    lemma_decode_lines_unfold(enc, s, from);
    lemma_decode_lines_unfold(enc, t, from2);
    if from < s.len() {
        lemma_next_newline(s, from);
        lemma_next_newline(t, from2);
        lemma_next_newline_shift(s, from, t, from2);
        let j = next_newline(s, from);
        let j2 = next_newline(t, from2);
        assert forall|k: int| 0 <= k < s.len() - from implies #[trigger] rs[k] == s[from + k] && rs[k] == t[from2 + k] by {
            assert(rs[k] == rt[k]);
        }
        assert(s.subrange(from, j) =~= t.subrange(from2, j2));
        assert(line_at(s, from) == line_at(t, from2)) by {
            if j > from {
                assert(s.subrange(from, j).last() == t.subrange(from2, j2).last());
            }
        }
        if j < s.len() {
            assert forall|k: int| 0 <= k < s.len() - (j + 1) implies #[trigger] s.subrange(j + 1, s.len() as int)[k] == t.subrange(j2 + 1, t.len() as int)[k] by {
                assert(rs[j + 1 - from + k] == s[j + 1 + k]);
                assert(rt[j + 1 - from + k] == t[j2 + 1 + k]);
            }
            assert(s.subrange(j + 1, s.len() as int) =~= t.subrange(j2 + 1, t.len() as int));
            lemma_decode_shift(enc, s, j + 1, t, j2 + 1);
        }
    }
}

/// Decoding an image made of whole lines decodes its lines one after another: lines
/// that start with the record byte give their records, all other lines nothing.
pub proof fn law_decode_joined_lines(enc: Encoding, lines: Seq<Seq<u8>>)
    requires
        forall|i: int, k: int| 0 <= i < lines.len() && 0 <= k < lines[i].len() ==> lines[i][k] != 10,
        forall|i: int| 0 <= i < lines.len() && lines[i].len() > 0 ==> lines[i].last() != 13,
    ensures
        decode_lines(enc, join_lines(lines), 0) == decode_each(enc, lines),
    decreases lines.len(),
{
    let s = join_lines(lines);
    lemma_decode_lines_unfold(enc, s, 0);
    if lines.len() > 0 {
        let l0 = lines[0];
        let rest = lines.drop_first();
        let n = l0.len() as int;
        assert(s == l0 + seq![10u8] + join_lines(rest));
        assert(s[n] == 10);
        lemma_next_newline(s, 0);
        assert forall|k: int| 0 <= k < n implies s[k] != 10 by {
            assert(s[k] == l0[k]);
        }
        assert(next_newline(s, 0) == n);
        assert(s.subrange(0, n) =~= l0);
        assert(line_at(s, 0) == l0);
        assert forall|i: int, k: int| 0 <= i < rest.len() && 0 <= k < rest[i].len() implies rest[i][k] != 10 by {
            assert(rest[i] == lines[i + 1]);
        }
        assert forall|i: int| 0 <= i < rest.len() && rest[i].len() > 0 implies rest[i].last() != 13 by {
            assert(rest[i] == lines[i + 1]);
        }
        law_decode_joined_lines(enc, rest);
        let tail = join_lines(rest);
        assert(s.subrange(n + 1, s.len() as int) =~= tail.subrange(0, tail.len() as int));
        lemma_decode_shift(enc, s, n + 1, tail, 0);
    }
}

/// Leading `0x`s do not change how a hex string reads.
pub proof fn law_hex_string_ignores_0x(s: Seq<u8>)
    ensures
        hex_string(seq![0x30u8, 0x78u8] + s) == hex_string(s),
{
    let t = seq![0x30u8, 0x78u8] + s;
    assert(t.subrange(2, t.len() as int) =~= s);
    assert(strip_0x(t) == strip_0x(s));
}

/// A hex string that renders some bytes, in upper- or lower-case digits, with or without
/// a leading `0x`, reads back as those bytes.
pub proof fn law_hex_string_roundtrip(data: Seq<u8>, upper: bool)
    ensures
        hex_string(hex_text(data, upper)) == Some(Ok::<Seq<u8>, IntErrorKind>(data)),
        hex_string(seq![0x30u8, 0x78u8] + hex_text(data, upper)) == Some(Ok::<Seq<u8>, IntErrorKind>(data)),
{
    let h = hex_text(data, upper);
    lemma_hex_text_ascii(data, upper);
    if h.len() >= 2 {
        lemma_hex_char_in((data[0] % 16) as nat, upper);
        assert(h[1] != 0x78);
    }
    assert(strip_0x(h) == h);
    assert(h.len() % 2 == 0);
    assert(hex_digits(h) == h);
    assert(h.subrange(0, 2 * data.len() as int) =~= h);
    lemma_hex_pairs_read(h, 0, data, upper);
    assert(h.len() / 2 == data.len());
    law_hex_string_ignores_0x(h);
}

/// What is scanned of an input is never more than its first `HEADER_LEN` bytes of
/// decoded data, and of a raw binary input it is exactly its first bytes.
pub proof fn law_header_bounded(path: Seq<u8>, contents: Seq<u8>, text: Seq<u8>)
    ensures
        firmware_from(path, contents, text) matches Some(b) ==> b.len() <= HEADER_LEN,
        contents.len() > 0 && input_format(path, contents) == InputFormat::Binary ==> firmware_from(path, contents, text)
            == Some(header_part(contents)),
        header_part(contents) == contents.subrange(0, if contents.len() > HEADER_LEN { HEADER_LEN as int } else { contents.len() as int }),
{
    assert(contents.subrange(0, contents.len() as int) =~= contents);
}

/// Contents that the format detection reads as Intel HEX are never taken for a raw
/// binary blob, and neither are S1, S2 and S3 images.
pub proof fn law_text_images_are_not_blobs(path: Seq<u8>, contents: Seq<u8>)
    ensures
        input_format(path, contents) == InputFormat::IntelHex ==> has_encoding_marker(contents),
        contents.len() >= 2 && contents[0] == 0x53 && (contents[1] == 0x31 || contents[1] == 0x32 || contents[1]
            == 0x33) ==> input_format(path, contents) == InputFormat::SRecord && has_encoding_marker(contents),
{
}

/// A signature without fields matches every header, extracting nothing.
pub proof fn law_empty_signature_matches(disk: Option<Seq<u8>>, c: Seq<u8>)
    ensures
        signature_outcome(disk, Seq::empty(), c) == Some(
            MatchView { matched: Some(Seq::empty()), notices: Seq::empty() },
        ),
{
}

/// A string field whose constraint is spelled at its position, within the header,
/// matches and shows the constraint under its description.
pub proof fn law_string_field_match(disk: Option<Seq<u8>>, f: FieldView, c: Seq<u8>)
    requires
        f.value_type == FieldType::Str,
        c.len() <= usize::MAX,
        trim_ws(f.constraint) != seq!['x'],
        f.position + encode_utf8(f.constraint).len() <= c.len(),
        c.subrange(f.position as int, (f.position + encode_utf8(f.constraint).len()) as int) == encode_utf8(f.constraint),
    ensures
        signature_outcome(disk, seq![f], c) == Some(
            MatchView { matched: Some(seq![(f.description, f.constraint)]), notices: Seq::empty() },
        ),
{
    assert(seq![f][0] == f);
    assert(str_step(f, c) == Some(Step { notices: Seq::empty(), effect: Effect::Push(f.description, f.constraint) }));
    assert(field_step(disk, f, c, 0) == str_step(f, c));
    assert(run_fields(disk, seq![f], c, 0) is Some);
    assert(Seq::<(Seq<char>, Seq<char>)>::empty().push((f.description, f.constraint)) =~= seq![(f.description, f.constraint)]);
    assert(Seq::<crate::matching::Notice>::empty() + Seq::<crate::matching::Notice>::empty() =~= Seq::<crate::matching::Notice>::empty());
}

/// Reading the first `k` lines does not look at the lines after them.
proof fn lemma_read_lines_prefix(a: Seq<Seq<char>>, b: Seq<Seq<char>>, k: nat)
    requires
        k <= a.len(),
    ensures
        read_lines(a + b, k) == read_lines(a, k),
    decreases k,
{
    if k > 0 {
        lemma_read_lines_prefix(a, b, (k - 1) as nat);
        assert((a + b)[k - 1] == a[k - 1]);
    }
}

/// A comment line (one that starts with `#`) changes nothing in the signatures read.
pub proof fn law_comment_line_ignored(lines: Seq<Seq<char>>, comment: Seq<char>)
    requires
        comment.len() > 0,
        comment[0] == '#',
    ensures
        signatures_of(lines.push(comment)) == signatures_of(lines),
{
    lemma_read_lines_prefix(lines, seq![comment], lines.len());
    assert(lines + seq![comment] =~= lines.push(comment));
    assert(lines.push(comment)[lines.len() as int] == comment);
}

/// An empty line closes the signature in progress: it is added to those read, if it has
/// any fields.
pub proof fn law_blank_line_closes_signature(lines: Seq<Seq<char>>, st: ReadState)
    requires
        read_lines(lines, lines.len()) == Some(st),
    ensures
        signatures_of(lines.push(Seq::empty())) == Some(
            if st.pending.len() > 0 {
                st.done.push(st.pending)
            } else {
                st.done
            },
        ),
{
    lemma_read_lines_prefix(lines, seq![Seq::<char>::empty()], lines.len());
    assert(lines + seq![Seq::<char>::empty()] =~= lines.push(Seq::empty()));
    assert(lines.push(Seq::empty())[lines.len() as int] == Seq::<char>::empty());
}

/// An empty line at the end of a definition file changes nothing: the last signature is
/// read whether or not an empty line follows it.
pub proof fn law_final_blank_line_changes_nothing(lines: Seq<Seq<char>>)
    ensures
        signatures_of(lines.push(Seq::empty())) == signatures_of(lines),
{
    lemma_read_lines_prefix(lines, seq![Seq::<char>::empty()], lines.len());
    assert(lines + seq![Seq::<char>::empty()] =~= lines.push(Seq::empty()));
    assert(lines.push(Seq::empty())[lines.len() as int] == Seq::<char>::empty());
}

/// A record of an Intel HEX image: its address, data and checksum byte.
pub struct IntelData {
    pub address: nat,
    pub data: Seq<u8>,
    pub checksum: u8,
}

/// The end-of-file record `:00000001FF`.
pub open spec fn intel_eof_line() -> Seq<u8> {
    seq![0x3au8] + hex2(0) + hex2(0) + hex2(0) + hex2(1) + hex2(0xff)
}

/// The data record lines of an image.
pub open spec fn intel_lines(recs: Seq<IntelData>) -> Seq<Seq<u8>> {
    recs.map_values(|r: IntelData| intel_data_line(r.address, r.data, r.checksum))
}

/// The data of the records, one after the other.
pub open spec fn concat_data(recs: Seq<IntelData>) -> Seq<u8>
    decreases recs.len(),
{
    if recs.len() == 0 {
        Seq::empty()
    } else {
        recs[0].data + concat_data(recs.drop_first())
    }
}

/// No byte of the text is a control character (all are at least `0`).
spec fn printable(s: Seq<u8>) -> bool {
    forall|i: int| 0 <= i < s.len() ==> s[i] >= 48
}

proof fn lemma_hex2_printable(b: nat)
    requires
        b < 256,
    ensures
        printable(hex2(b)),
{
    lemma_hex_char(b / 16);
    lemma_hex_char(b % 16);
}

proof fn lemma_intel_line_printable(address: nat, data: Seq<u8>, checksum: u8)
    requires
        address < 65536,
        data.len() <= 255,
    ensures
        printable(intel_data_line(address, data, checksum)),
{
    lemma_hex2_printable(data.len());
    lemma_hex2_printable(address / 256);
    lemma_hex2_printable(address % 256);
    lemma_hex2_printable(0);
    lemma_hex2_printable(checksum as nat);
    assert forall|i: int| 0 <= i < hex_bytes(data).len() implies hex_bytes(data)[i] >= 48 by {
        lemma_hex_char((data[i / 2] / 16) as nat);
        lemma_hex_char((data[i / 2] % 16) as nat);
    }
}

/// The end-of-file record gives no data.
proof fn lemma_intel_eof()
    ensures
        intel_record(intel_eof_line()) == Some(Ok::<Seq<u8>, IntErrorKind>(Seq::empty())),
        printable(intel_eof_line()),
{
    reveal(intel_record);
    let l = intel_eof_line();
    lemma_hex2_ascii(0);
    lemma_hex2_ascii(1);
    lemma_hex2_ascii(0xff);
    lemma_hex2_printable(0);
    lemma_hex2_printable(1);
    lemma_hex2_printable(0xff);
    assert(ascii(l));
    assert(l.subrange(1, 3) =~= hex2(0));
    assert(l.subrange(3, 7) =~= hex2(0nat / 256) + hex2(0nat % 256));
    assert(l.subrange(7, 9) =~= hex2(1));
    lemma_hex2_value(0, 255);
    lemma_hex4_value(0);
    lemma_hex2_value(1, 255);
    lemma_ascii_boundaries(l, 1, 3);
    lemma_ascii_boundaries(l, 3, 7);
    lemma_ascii_boundaries(l, 7, 9);
}

proof fn lemma_data_line_record(address: nat, data: Seq<u8>, checksum: u8)
    requires
        address < 65536,
        data.len() <= 255,
    ensures
        line_record(Encoding::IntelHex, intel_data_line(address, data, checksum)) == Some(Ok::<Seq<u8>, IntErrorKind>(data)),
{
    law_intel_data_record(address, data, checksum);
    assert(intel_data_line(address, data, checksum)[0] == 0x3a);
}

proof fn lemma_eof_line_record()
    ensures
        line_record(Encoding::IntelHex, intel_eof_line()) == Some(Ok::<Seq<u8>, IntErrorKind>(Seq::empty())),
{
    lemma_intel_eof();
    assert(intel_eof_line()[0] == 0x3a);
}

proof fn lemma_intel_lines_drop_first(recs: Seq<IntelData>)
    requires
        recs.len() > 0,
    ensures
        intel_lines(recs).push(intel_eof_line()).drop_first() == intel_lines(recs.drop_first()).push(intel_eof_line()),
{
    let a = intel_lines(recs).push(intel_eof_line()).drop_first();
    let b = intel_lines(recs.drop_first()).push(intel_eof_line());
    assert forall|i: int| 0 <= i < a.len() implies a[i] == b[i] by {
        if i + 1 < recs.len() {
            assert(recs.drop_first()[i] == recs[i + 1]);
        }
    }
    assert(a =~= b);
}

#[verifier::spinoff_prover]
proof fn lemma_decode_each_intel(recs: Seq<IntelData>)
    requires
        forall|i: int| 0 <= i < recs.len() ==> recs[i].address < 65536 && recs[i].data.len() <= 255,
    ensures
        decode_each(Encoding::IntelHex, intel_lines(recs).push(intel_eof_line())) == Some(
            Ok::<Seq<u8>, IntErrorKind>(concat_data(recs)),
        ),
    decreases recs.len(),
{
    let lines = intel_lines(recs).push(intel_eof_line());
    if recs.len() == 0 {
        lemma_eof_line_record();
        assert(lines.drop_first() =~= Seq::<Seq<u8>>::empty());
        assert(lines[0] == intel_eof_line());
        assert(decode_each(Encoding::IntelHex, lines.drop_first()) == Some(Ok::<Seq<u8>, IntErrorKind>(Seq::empty())));
        assert(Seq::<u8>::empty() + Seq::<u8>::empty() =~= Seq::<u8>::empty());
    } else {
        let r = recs[0];
        let rest = recs.drop_first();
        assert forall|i: int| 0 <= i < rest.len() implies rest[i].address < 65536 && rest[i].data.len() <= 255 by {
            assert(rest[i] == recs[i + 1]);
        }
        lemma_decode_each_intel(rest);
        lemma_intel_lines_drop_first(recs);
        let l0 = lines[0];
        assert(l0 == intel_data_line(r.address, r.data, r.checksum));
        lemma_data_line_record(r.address, r.data, r.checksum);
        assert(concat_data(recs) == r.data + concat_data(rest));
    }
}

/// The Intel HEX image of the records: one line per record, then the end-of-file record.
pub open spec fn intel_image(recs: Seq<IntelData>) -> Seq<u8> {
    join_lines(intel_lines(recs).push(intel_eof_line()))
}

/// An Intel HEX image made of data records and the end-of-file record, one per line,
/// decodes to the data of its records in order.
pub proof fn law_intel_image(recs: Seq<IntelData>)
    requires
        forall|i: int| 0 <= i < recs.len() ==> recs[i].address < 65536 && recs[i].data.len() <= 255,
    ensures
        decode_lines(Encoding::IntelHex, intel_image(recs), 0) == Some(
            Ok::<Seq<u8>, IntErrorKind>(concat_data(recs)),
        ),
{
    let lines = intel_lines(recs).push(intel_eof_line());
    lemma_intel_eof();
    assert forall|i: int| 0 <= i < lines.len() implies #[trigger] printable(lines[i]) by {
        if i < recs.len() {
            lemma_intel_line_printable(recs[i].address, recs[i].data, recs[i].checksum);
        }
    }
    assert forall|i: int, k: int| 0 <= i < lines.len() && 0 <= k < lines[i].len() implies lines[i][k] != 10 by {
        assert(printable(lines[i]));
    }
    assert forall|i: int| 0 <= i < lines.len() && lines[i].len() > 0 implies lines[i].last() != 13 by {
        assert(printable(lines[i]));
    }
    law_decode_joined_lines(Encoding::IntelHex, lines);
    lemma_decode_each_intel(recs);
}

/// Decoding the lines one after another gives the concatenation of what each gives.
proof fn lemma_decode_each_flatten(enc: Encoding, lines: Seq<Seq<u8>>, datas: Seq<Seq<u8>>)
    requires
        lines.len() == datas.len(),
        forall|i: int| 0 <= i < lines.len() ==> line_record(enc, lines[i]) == Some(Ok::<Seq<u8>, IntErrorKind>(datas[i])),
    ensures
        decode_each(enc, lines) == Some(Ok::<Seq<u8>, IntErrorKind>(datas.flatten())),
    decreases lines.len(),
{
    if lines.len() > 0 {
        let rl = lines.drop_first();
        let rd = datas.drop_first();
        assert forall|i: int| 0 <= i < rl.len() implies line_record(enc, rl[i]) == Some(Ok::<Seq<u8>, IntErrorKind>(rd[i])) by {
            assert(rl[i] == lines[i + 1]);
            assert(rd[i] == datas[i + 1]);
        }
        lemma_decode_each_flatten(enc, rl, rd);
        assert(line_record(enc, lines[0]) == Some(Ok::<Seq<u8>, IntErrorKind>(datas[0])));
    }
}

/// An image made of whole lines, each of whose records gives its bytes, decodes to those
/// bytes one after the other.
pub proof fn law_decode_records(enc: Encoding, lines: Seq<Seq<u8>>, datas: Seq<Seq<u8>>)
    requires
        lines.len() == datas.len(),
        forall|i: int, k: int| 0 <= i < lines.len() && 0 <= k < lines[i].len() ==> lines[i][k] != 10,
        forall|i: int| 0 <= i < lines.len() && lines[i].len() > 0 ==> lines[i].last() != 13,
        forall|i: int| 0 <= i < lines.len() ==> line_record(enc, lines[i]) == Some(Ok::<Seq<u8>, IntErrorKind>(datas[i])),
    ensures
        decode_lines(enc, join_lines(lines), 0) == Some(Ok::<Seq<u8>, IntErrorKind>(datas.flatten())),
{
    law_decode_joined_lines(enc, lines);
    lemma_decode_each_flatten(enc, lines, datas);
}

/// A data record of an S-record image: its type digit, address bytes, data and checksum.
pub struct SrecData {
    pub kind: u8,
    pub address: Seq<u8>,
    pub data: Seq<u8>,
    pub checksum: u8,
}

/// An S1, S2 or S3 record whose address has the length its type asks for and whose
/// count fits in a byte.
pub open spec fn srec_valid(r: SrecData) -> bool {
    &&& r.kind == 0x31 || r.kind == 0x32 || r.kind == 0x33
    &&& 2 * r.address.len() == srec_address_len(r.kind)
    &&& r.address.len() + r.data.len() + 1 <= 255
}

/// The termination record `S9030000FC`.
pub open spec fn srec_end_line() -> Seq<u8> {
    seq![0x53u8, 0x39u8] + hex2(3) + hex2(0) + hex2(0) + hex2(0xfc)
}

/// The S-record image of the records: one line per record, then the termination record.
pub open spec fn srec_image(recs: Seq<SrecData>) -> Seq<u8> {
    join_lines(srec_lines(recs))
}

/// The data of the records, one after the other.
pub open spec fn srec_data(recs: Seq<SrecData>) -> Seq<u8> {
    recs.map_values(|r: SrecData| r.data).flatten()
}

proof fn lemma_srec_line(r: SrecData)
    requires
        srec_valid(r),
    ensures
        line_record(Encoding::SRecord, srec_data_line(r.kind, r.address, r.data, r.checksum)) == Some(
            Ok::<Seq<u8>, IntErrorKind>(r.data),
        ),
        printable(srec_data_line(r.kind, r.address, r.data, r.checksum)),
{
    let l = srec_data_line(r.kind, r.address, r.data, r.checksum);
    law_srec_data_record(r.kind, r.address, r.data, r.checksum);
    assert(l[0] == 0x53);
    lemma_hex2_printable(r.address.len() + r.data.len() + 1);
    lemma_hex2_printable(r.checksum as nat);
    lemma_hex_bytes_printable(r.address);
    lemma_hex_bytes_printable(r.data);
    assert(printable(l));
}

proof fn lemma_hex_bytes_printable(data: Seq<u8>)
    ensures
        printable(hex_bytes(data)),
{
    assert forall|i: int| 0 <= i < hex_bytes(data).len() implies hex_bytes(data)[i] >= 48 by {
        lemma_hex_char((data[i / 2] / 16) as nat);
        lemma_hex_char((data[i / 2] % 16) as nat);
    }
}

proof fn lemma_srec_end()
    ensures
        line_record(Encoding::SRecord, srec_end_line()) == Some(Ok::<Seq<u8>, IntErrorKind>(Seq::empty())),
        printable(srec_end_line()),
{
    let l = srec_end_line();
    lemma_hex2_ascii(3);
    lemma_hex2_ascii(0);
    lemma_hex2_ascii(0xfc);
    lemma_hex2_printable(3);
    lemma_hex2_printable(0);
    lemma_hex2_printable(0xfc);
    assert(ascii(l));
    assert(printable(l));
    assert(l.subrange(2, 4) =~= hex2(3));
    lemma_hex2_value(3, 255);
    lemma_ascii_boundaries(l, 1, 2);
    lemma_ascii_boundaries(l, 2, 4);
    assert(l[0] == 0x53 && l[1] == 0x39);
}

/// The record lines of an S-record image, then its termination record.
pub open spec fn srec_lines(recs: Seq<SrecData>) -> Seq<Seq<u8>> {
    recs.map_values(|r: SrecData| srec_data_line(r.kind, r.address, r.data, r.checksum)).push(srec_end_line())
}

#[verifier::spinoff_prover]
proof fn lemma_srec_lines(recs: Seq<SrecData>)
    requires
        forall|i: int| 0 <= i < recs.len() ==> srec_valid(#[trigger] recs[i]),
    ensures
        srec_lines(recs).len() == recs.len() + 1,
        forall|i: int| 0 <= i < srec_lines(recs).len() ==> #[trigger] line_record(Encoding::SRecord, srec_lines(recs)[i])
            == Some(Ok::<Seq<u8>, IntErrorKind>(recs.map_values(|r: SrecData| r.data).push(Seq::<u8>::empty())[i])),
        forall|i: int| 0 <= i < srec_lines(recs).len() ==> printable(#[trigger] srec_lines(recs)[i]),
{
    let lines = srec_lines(recs);
    let all = recs.map_values(|r: SrecData| r.data).push(Seq::<u8>::empty());
    lemma_srec_end();
    assert forall|i: int| 0 <= i < lines.len() implies #[trigger] line_record(Encoding::SRecord, lines[i])
        == Some(Ok::<Seq<u8>, IntErrorKind>(all[i])) && printable(lines[i]) by {
        if i < recs.len() {
            lemma_srec_line(recs[i]);
        }
    }
}

/// An S-record image made of S1, S2 and S3 records and the termination record, one per
/// line, decodes to the data of its records in order.
pub proof fn law_srec_image(recs: Seq<SrecData>)
    requires
        forall|i: int| 0 <= i < recs.len() ==> srec_valid(#[trigger] recs[i]),
    ensures
        decode_lines(Encoding::SRecord, srec_image(recs), 0) == Some(Ok::<Seq<u8>, IntErrorKind>(srec_data(recs))),
{
    let lines = srec_lines(recs);
    let datas = recs.map_values(|r: SrecData| r.data);
    let all = datas.push(Seq::<u8>::empty());
    lemma_srec_lines(recs);
    assert forall|i: int, k: int| 0 <= i < lines.len() && 0 <= k < lines[i].len() implies lines[i][k] != 10 by {
        assert(printable(lines[i]));
    }
    assert forall|i: int| 0 <= i < lines.len() && lines[i].len() > 0 implies lines[i].last() != 13 by {
        assert(printable(lines[i]));
    }
    assert forall|i: int| 0 <= i < lines.len() implies line_record(Encoding::SRecord, lines[i]) == Some(
        Ok::<Seq<u8>, IntErrorKind>(all[i]),
    ) by {}
    law_decode_records(Encoding::SRecord, lines, all);
    datas.lemma_flatten_push(Seq::<u8>::empty());
    assert(datas.flatten() + Seq::<u8>::empty() =~= datas.flatten());
}

/// Lines with only ASCII bytes make an ASCII text.
proof fn lemma_join_lines_ascii(lines: Seq<Seq<u8>>)
    requires
        forall|i: int| 0 <= i < lines.len() ==> ascii(#[trigger] lines[i]),
    ensures
        ascii(join_lines(lines)),
    decreases lines.len(),
{
    if lines.len() > 0 {
        let rest = lines.drop_first();
        assert forall|i: int| 0 <= i < rest.len() implies ascii(#[trigger] rest[i]) by {
            assert(rest[i] == lines[i + 1]);
        }
        lemma_join_lines_ascii(rest);
        assert(ascii(lines[0]));
        let j = join_lines(lines);
        assert(j == lines[0] + seq![10u8] + join_lines(rest));
        assert forall|k: int| 0 <= k < j.len() implies j[k] < 0x80 by {
            if k < lines[0].len() {
                assert(j[k] == lines[0][k]);
            } else if k > lines[0].len() {
                assert(j[k] == join_lines(rest)[k - lines[0].len() - 1]);
            }
        }
    }
}

proof fn lemma_intel_line_ascii(address: nat, data: Seq<u8>, checksum: u8)
    requires
        address < 65536,
        data.len() <= 255,
    ensures
        ascii(intel_data_line(address, data, checksum)),
{
    lemma_hex2_ascii(data.len());
    lemma_hex2_ascii(address / 256);
    lemma_hex2_ascii(address % 256);
    lemma_hex2_ascii(0);
    lemma_hex2_ascii(checksum as nat);
    lemma_hex_bytes_ascii(data);
}

/// An Intel HEX input made of data records and the end-of-file record is ASCII text, and
/// what is scanned of it (`firmware_bytes`, which `decode_input` gives) is the first
/// `HEADER_LEN` bytes of its records' data, whatever its path.
pub proof fn law_intel_input(path: Seq<u8>, recs: Seq<IntelData>)
    requires
        forall|i: int| 0 <= i < recs.len() ==> recs[i].address < 65536 && recs[i].data.len() <= 255,
    ensures
        ascii(intel_image(recs)),
        firmware_from(path, intel_image(recs), intel_image(recs)) == Some(header_part(concat_data(recs))),
        firmware_bytes(path, intel_image(recs)) == Some(header_part(concat_data(recs))),
{
    let lines = intel_lines(recs).push(intel_eof_line());
    let img = intel_image(recs);
    lemma_intel_eof();
    lemma_hex2_ascii(0);
    lemma_hex2_ascii(1);
    lemma_hex2_ascii(0xff);
    assert forall|i: int| 0 <= i < lines.len() implies ascii(#[trigger] lines[i]) by {
        if i < recs.len() {
            lemma_intel_line_ascii(recs[i].address, recs[i].data, recs[i].checksum);
        } else {
            assert(lines[i] == intel_eof_line());
        }
    }
    lemma_join_lines_ascii(lines);
    law_intel_image(recs);
    assert(lines[0][0] == 0x3a) by {
        if recs.len() > 0 {
            assert(lines[0] == intel_data_line(recs[0].address, recs[0].data, recs[0].checksum));
        } else {
            assert(lines[0] == intel_eof_line());
        }
    }
    assert(img == lines[0] + seq![10u8] + join_lines(lines.drop_first()));
    assert(img[0] == 0x3a);
    assert(input_format(path, img) == InputFormat::IntelHex);
    lemma_lossy_text_ascii(img);
}

/// Matching the first `k` fields looks at no field after them.
proof fn lemma_run_fields_prefix(disk: Option<Seq<u8>>, a: Seq<FieldView>, b: Seq<FieldView>, c: Seq<u8>, k: nat)
    requires
        k <= a.len(),
        k <= b.len(),
        a.subrange(0, k as int) == b.subrange(0, k as int),
    ensures
        run_fields(disk, a, c, k) == run_fields(disk, b, c, k),
    decreases k,
{
    if k > 0 {
        assert(a.subrange(0, k - 1) =~= a.subrange(0, k as int).subrange(0, k - 1));
        assert(b.subrange(0, k - 1) =~= b.subrange(0, k as int).subrange(0, k - 1));
        lemma_run_fields_prefix(disk, a, b, c, (k - 1) as nat);
        assert(a[k - 1] == a.subrange(0, k as int)[k - 1]);
        assert(b[k - 1] == b.subrange(0, k as int)[k - 1]);
    }
}

/// A field that does not match (or abandons the signature) ends the match: the signature
/// is not matched, the notices are those given so far, and the fields after it are never
/// read, whatever they are.
pub proof fn law_failed_field_ends_match(
    disk: Option<Seq<u8>>,
    fields: Seq<FieldView>,
    more: Seq<FieldView>,
    c: Seq<u8>,
    k: nat,
    st: RunState,
)
    requires
        k <= fields.len(),
        run_fields(disk, fields, c, k) == Some(st),
        !st.valid || st.abandoned,
    ensures
        signature_outcome(disk, fields, c) == Some(MatchView { matched: None, notices: st.notices }),
        signature_outcome(disk, fields.subrange(0, k as int) + more, c) == signature_outcome(disk, fields, c),
{
    let other = fields.subrange(0, k as int) + more;
    assert(other.subrange(0, k as int) =~= fields.subrange(0, k as int));
    lemma_run_fields_prefix(disk, fields, other, c, k);
    lemma_run_stops(disk, fields, c, k, fields.len());
    lemma_run_stops(disk, other, c, k, other.len());
}

/// A word: some characters, none of them white space.
pub open spec fn is_word(w: Seq<char>) -> bool {
    w.len() > 0 && forall|k: int| 0 <= k < w.len() ==> !is_white_space(w[k])
}

/// A separator: a run of white space.
pub open spec fn is_separator(s: Seq<char>) -> bool {
    s.len() > 0 && forall|k: int| 0 <= k < s.len() ==> is_white_space(s[k])
}

proof fn lemma_next_white_at(t: Seq<char>, from: int, to: int)
    requires
        0 <= from <= to <= t.len(),
        forall|k: int| from <= k < to ==> !is_white_space(t[k]),
        to < t.len() ==> is_white_space(t[to]),
    ensures
        next_white(t, from) == to,
    decreases to - from,
{
    if from < to {
        lemma_next_white_at(t, from + 1, to);
    }
}

proof fn lemma_skip_white_at(t: Seq<char>, from: int, to: int)
    requires
        0 <= from <= to <= t.len(),
        forall|k: int| from <= k < to ==> is_white_space(t[k]),
        to < t.len() ==> !is_white_space(t[to]),
    ensures
        skip_white(t, from) == to,
    decreases to - from,
{
    if from < to {
        lemma_skip_white_at(t, from + 1, to);
    }
}

/// Splitting a text that starts with a word and a separator gives the word, then the
/// split of the rest.
proof fn lemma_split_word(w: Seq<char>, sep: Seq<char>, rest: Seq<char>, limit: nat)
    requires
        is_word(w),
        is_separator(sep),
        rest.len() == 0 || !is_white_space(rest[0]),
        limit >= 2,
    ensures
        split_white(w + sep + rest, limit) == seq![w] + split_white(rest, (limit - 1) as nat),
{
    let t = w + sep + rest;
    let n = w.len() as int;
    let m = sep.len() as int;
    assert forall|k: int| 0 <= k < n implies !is_white_space(t[k]) by {
        assert(t[k] == w[k]);
    }
    assert(t[n] == sep[0]);
    lemma_next_white_at(t, 0, n);
    assert forall|k: int| n <= k < n + m implies is_white_space(t[k]) by {
        assert(t[k] == sep[k - n]);
    }
    if n + m < t.len() {
        assert(t[n + m] == rest[0]);
    }
    lemma_skip_white_at(t, n, n + m);
    assert(t.subrange(0, n) =~= w);
    assert(t.subrange(n + m, t.len() as int) =~= rest);
}

/// A definition line made of a position, a type name and a constraint, each a word, and a
/// description, separated by white space, describes the field with that position, type,
/// constraint and description: the description is the rest of the line, white space
/// inside it included.
pub proof fn law_definition_line(
    position: Seq<char>,
    kind_word: Seq<char>,
    constraint: Seq<char>,
    description: Seq<char>,
    s1: Seq<char>,
    s2: Seq<char>,
    s3: Seq<char>,
)
    requires
        is_word(position),
        is_word(kind_word),
        is_word(constraint),
        description.len() == 0 || !is_white_space(description[0]),
        is_separator(s1),
        is_separator(s2),
        is_separator(s3),
    ensures
        field_of_line(position + s1 + kind_word + s2 + constraint + s3 + description) == (match position_spec(position) {
            None => None,
            Some(p) => Some(
                FieldView { position: p, value_type: type_named(kind_word), constraint, description },
            ),
        }),
{
    let r3 = constraint + s3 + description;
    let r2 = kind_word + s2 + r3;
    let line = position + s1 + r2;
    assert(line =~= position + s1 + kind_word + s2 + constraint + s3 + description);
    assert(r2[0] == kind_word[0]);
    assert(r3[0] == constraint[0]);
    lemma_split_word(constraint, s3, description, 2);
    lemma_split_word(kind_word, s2, r3, 3);
    lemma_split_word(position, s1, r2, 4);
    let items = split_white(line, 4);
    assert(split_white(description, 1) == seq![description]);
    assert(items =~= seq![position, kind_word, constraint, description]);
    assert(fold_items(items, 0) == Some(default_field()));
    assert(items[0] == position && items[1] == kind_word && items[2] == constraint && items[3] == description);
    match position_spec(position) {
        None => {
            assert(fold_items(items, 1) is None);
            assert(fold_items(items, 2) is None);
            assert(fold_items(items, 3) is None);
            assert(fold_items(items, 4) is None);
        },
        Some(p) => {
            let d = default_field();
            assert(fold_items(items, 1) == Some(FieldView { position: p, value_type: d.value_type, constraint: d.constraint, description: d.description }));
            assert(fold_items(items, 2) == Some(FieldView { position: p, value_type: type_named(kind_word), constraint: d.constraint, description: d.description }));
            assert(fold_items(items, 3) == Some(FieldView { position: p, value_type: type_named(kind_word), constraint, description: d.description }));
            assert(fold_items(items, 4) == Some(FieldView { position: p, value_type: type_named(kind_word), constraint, description }));
        },
    }
}

/// A short field whose constraint is not `x` never stops the scan, whatever the
/// constraint and the header: it matches or makes the signature not match.
pub proof fn law_short_constraint_never_stops(disk: Option<Seq<u8>>, f: FieldView, c: Seq<u8>, index: nat)
    requires
        f.value_type == FieldType::Short,
        f.constraint != seq!['x'],
    ensures
        field_step(disk, f, c, index) is Some,
        field_step(disk, f, c, index)->0.effect is Push || field_step(disk, f, c, index)->0.effect is Invalid,
{
}

/// Scanning against the first `k` signatures looks at no signature after them.
proof fn lemma_scan_prefix(disk: Option<Seq<u8>>, a: Seq<Seq<FieldView>>, b: Seq<Seq<FieldView>>, c: Seq<u8>, k: nat)
    requires
        k <= a.len(),
        k <= b.len(),
        a.subrange(0, k as int) == b.subrange(0, k as int),
    ensures
        scan(disk, a, c, k) == scan(disk, b, c, k),
    decreases k,
{
    if k > 0 {
        assert(a.subrange(0, k - 1) =~= a.subrange(0, k as int).subrange(0, k - 1));
        assert(b.subrange(0, k - 1) =~= b.subrange(0, k as int).subrange(0, k - 1));
        lemma_scan_prefix(disk, a, b, c, (k - 1) as nat);
        assert(a[k - 1] == a.subrange(0, k as int)[k - 1]);
        assert(b[k - 1] == b.subrange(0, k as int)[k - 1]);
    }
}

/// Adding a signature to the list adds its outcome to the scan, whatever the earlier
/// signatures gave: its pairs are reported when it matches on its own (after the pairs of
/// the earlier ones), and its notices follow theirs.
pub proof fn law_scan_tries_every_signature(
    disk: Option<Seq<u8>>,
    sigs: Seq<Seq<FieldView>>,
    s: Seq<FieldView>,
    c: Seq<u8>,
    sv: ScanView,
    m: MatchView,
)
    requires
        scan(disk, sigs, c, sigs.len()) == Some(sv),
        signature_outcome(disk, s, c) == Some(m),
    ensures
        scan(disk, sigs.push(s), c, sigs.len() + 1) == Some(
            ScanView {
                matches: match m.matched {
                    Some(p) => sv.matches.push(p),
                    None => sv.matches,
                },
                notices: sv.notices + tagged(sigs.len() as usize, m.notices),
            },
        ),
{
    assert(sigs.push(s).subrange(0, sigs.len() as int) =~= sigs.subrange(0, sigs.len() as int));
    lemma_scan_prefix(disk, sigs, sigs.push(s), c, sigs.len());
    assert(sigs.push(s)[sigs.len() as int] == s);
}

proof fn lemma_scan_reports(disk: Option<Seq<u8>>, sigs: Seq<Seq<FieldView>>, c: Seq<u8>, n: nat, k: int, m: MatchView, p: Seq<(Seq<char>, Seq<char>)>)
    requires
        0 <= k < n <= sigs.len(),
        scan(disk, sigs, c, n) is Some,
        signature_outcome(disk, sigs[k], c) == Some(m),
        m.matched == Some(p),
    ensures
        scan(disk, sigs, c, n)->0.matches.contains(p),
    decreases n,
{
    let prev = scan(disk, sigs, c, (n - 1) as nat);
    assert(prev is Some);
    if k == n - 1 {
        let sv = prev->0;
        assert(scan(disk, sigs, c, n)->0.matches == sv.matches.push(p));
        assert(sv.matches.push(p)[sv.matches.len() as int] == p);
    } else {
        lemma_scan_reports(disk, sigs, c, (n - 1) as nat, k, m, p);
        let sv = prev->0;
        let q = choose|i: int| 0 <= i < sv.matches.len() && sv.matches[i] == p;
        let now = scan(disk, sigs, c, n)->0.matches;
        assert(now[q] == p);
    }
}

/// Every signature that matches the header on its own is reported by the scan, whatever
/// the signatures before and after it give: the scan tries them all.
pub proof fn law_matching_signature_is_reported(
    disk: Option<Seq<u8>>,
    sigs: Seq<Seq<FieldView>>,
    c: Seq<u8>,
    sv: ScanView,
    k: int,
    m: MatchView,
    p: Seq<(Seq<char>, Seq<char>)>,
)
    requires
        scan(disk, sigs, c, sigs.len()) == Some(sv),
        0 <= k < sigs.len(),
        signature_outcome(disk, sigs[k], c) == Some(m),
        m.matched == Some(p),
    ensures
        sv.matches.contains(p),
{
    lemma_scan_reports(disk, sigs, c, sigs.len(), k, m, p);
}

/// The little-endian value of the four header bytes at `pos`.
pub open spec fn four_bytes_le(c: Seq<u8>, pos: int) -> nat {
    (c[pos] + 256 * c[pos as int + 1] + 65536 * c[pos as int + 2] + 16777216 * c[pos as int + 3]) as nat
}

/// A long `File size,` field compares the file on disk with the little-endian value `n`
/// of all four header bytes at its position: a file of `n` bytes matches, shown as
/// "`n` bytes", with its checksum reported; a file of any other length does not.
pub proof fn law_file_size_field(file: Seq<u8>, pos: nat, desc: Seq<char>, c: Seq<u8>)
    requires
        trim_ws(desc) == "File size,"@,
        pos + 4 <= c.len(),
    ensures
        ({
            let n = c[pos as int] + 256 * c[pos as int + 1] + 65536 * c[pos as int + 2] + 16777216 * c[pos as int + 3];
            let f = FieldView { position: pos, value_type: FieldType::Long, constraint: seq!['x'], description: desc };
            signature_outcome(Some(file), seq![f], c) == Some(
                if file.len() == n {
                    MatchView {
                        matched: Some(seq![(desc, decimal(n as nat) + " bytes"@)]),
                        notices: seq![Notice::Checksum(crc16_ibm_sdlc(file))],
                    }
                } else {
                    MatchView { matched: None, notices: seq![Notice::SizeMismatch] }
                },
            )
        }),
{
    let f = FieldView { position: pos, value_type: FieldType::Long, constraint: seq!['x'], description: desc };
    let b = c.subrange(pos as int, pos as int + 4);
    assert(b[0] == c[pos as int] && b[1] == c[pos as int + 1] && b[2] == c[pos as int + 2] && b[3] == c[pos as int + 3]);
    assert(seq![f][0] == f);
    let n = four_bytes_le(c, pos as int);
    assert(take(c, pos, 4) == Some(b));
    assert(le32(b) == n);
    assert(long_step(Some(file), f, c, 0) == Some(size_step(Some(file), n, desc)));
    assert(field_step(Some(file), f, c, 0) == Some(size_step(Some(file), n, desc)));
    assert(Seq::<Notice>::empty() + seq![Notice::SizeMismatch] =~= seq![Notice::SizeMismatch]);
    assert(Seq::<Notice>::empty() + seq![Notice::Checksum(crc16_ibm_sdlc(file))] =~= seq![Notice::Checksum(crc16_ibm_sdlc(file))]);
    assert(Seq::<(Seq<char>, Seq<char>)>::empty().push((desc, decimal(n) + " bytes"@)) =~= seq![(desc, decimal(n) + " bytes"@)]);
    assert(run_fields(Some(file), seq![f], c, 0) is Some);
}

/// A long `Code size,` field compares the file on disk with the little-endian value `n`
/// of all four header bytes at its position plus the 64-byte header: a file of `n + 64`
/// bytes matches, shown as "`n + 64` bytes", with its checksum; any other length does not.
pub proof fn law_code_size_field(file: Seq<u8>, pos: nat, desc: Seq<char>, c: Seq<u8>)
    requires
        trim_ws(desc) == "Code size,"@,
        pos + 4 <= c.len(),
        c[pos as int] + 256 * c[pos as int + 1] + 65536 * c[pos as int + 2] + 16777216 * c[pos as int + 3] + 64 <= u32::MAX,
    ensures
        ({
            let n = c[pos as int] + 256 * c[pos as int + 1] + 65536 * c[pos as int + 2] + 16777216 * c[pos as int + 3] + 64;
            let f = FieldView { position: pos, value_type: FieldType::Long, constraint: seq!['x'], description: desc };
            signature_outcome(Some(file), seq![f], c) == Some(
                if file.len() == n {
                    MatchView {
                        matched: Some(seq![(desc, decimal(n as nat) + " bytes"@)]),
                        notices: seq![Notice::Checksum(crc16_ibm_sdlc(file))],
                    }
                } else {
                    MatchView { matched: None, notices: seq![Notice::SizeMismatch] }
                },
            )
        }),
{
    reveal_strlit("File size,");
    reveal_strlit("Code size,");
    let f = FieldView { position: pos, value_type: FieldType::Long, constraint: seq!['x'], description: desc };
    let b = c.subrange(pos as int, pos as int + 4);
    assert(b[0] == c[pos as int] && b[1] == c[pos as int + 1] && b[2] == c[pos as int + 2] && b[3] == c[pos as int + 3]);
    assert("Code size,"@ != "File size,"@) by {
        assert("Code size,"@[0] != "File size,"@[0]);
    }
    assert(seq![f][0] == f);
    let n = (four_bytes_le(c, pos as int) + 64) as nat;
    assert(take(c, pos, 4) == Some(b));
    assert(le32(b) + 64 == n);
    assert(long_step(Some(file), f, c, 0) == Some(size_step(Some(file), n, desc)));
    assert(field_step(Some(file), f, c, 0) == Some(size_step(Some(file), n, desc)));
    assert(run_fields(Some(file), seq![f], c, 0) is Some);
    assert(Seq::<Notice>::empty() + seq![Notice::SizeMismatch] =~= seq![Notice::SizeMismatch]);
    assert(Seq::<Notice>::empty() + seq![Notice::Checksum(crc16_ibm_sdlc(file))] =~= seq![Notice::Checksum(crc16_ibm_sdlc(file))]);
    assert(Seq::<(Seq<char>, Seq<char>)>::empty().push((desc, decimal(n) + " bytes"@)) =~= seq![(desc, decimal(n) + " bytes"@)]);
}

/// An Intel HEX record line of any type: `:`, the data length, the address, the record
/// type, the data and a checksum byte, all in upper-case hex.
pub open spec fn intel_line(kind: u8, address: nat, data: Seq<u8>, checksum: u8) -> Seq<u8> {
    seq![0x3au8] + hex2(data.len()) + hex2(address / 256) + hex2(address % 256) + hex2(kind as nat) + hex_bytes(data)
        + hex2(checksum as nat)
}

/// The bytes a record of the given type contributes: its data for a data record (type
/// 00), nothing for every other type.
pub open spec fn record_bytes(kind: u8, data: Seq<u8>) -> Seq<u8> {
    if kind == 0 {
        data
    } else {
        Seq::empty()
    }
}

/// Only data records give bytes: an Intel HEX record of type 00 gives its data, a record
/// of any other type (end of file, extended or start address, ...) gives none, whatever
/// its address, data and checksum.
pub proof fn law_intel_record_types(kind: u8, address: nat, data: Seq<u8>, checksum: u8)
    requires
        address < 65536,
        data.len() <= 255,
    ensures
        intel_record(intel_line(kind, address, data, checksum)) == Some(Ok::<Seq<u8>, IntErrorKind>(record_bytes(kind, data))),
        kind != 0 ==> intel_record(intel_line(kind, address, data, checksum)) == Some(Ok::<Seq<u8>, IntErrorKind>(Seq::empty())),
{
    reveal(intel_record);
    let n = data.len();
    let l = intel_line(kind, address, data, checksum);
    lemma_hex2_ascii(n);
    lemma_hex2_ascii(address / 256);
    lemma_hex2_ascii(address % 256);
    lemma_hex2_ascii(kind as nat);
    lemma_hex2_ascii(checksum as nat);
    lemma_hex_bytes_ascii(data);
    assert(ascii(l));
    assert(l.len() == 11 + 2 * n);
    assert(l.subrange(1, 3) =~= hex2(n));
    assert(l.subrange(3, 7) =~= hex2(address / 256) + hex2(address % 256));
    assert(l.subrange(7, 9) =~= hex2(kind as nat));
    assert(l.subrange(9, 9 + 2 * n as int) =~= hex_bytes(data));
    lemma_hex2_value(n, 255);
    lemma_hex4_value(address);
    lemma_hex2_value(kind as nat, 255);
    lemma_ascii_boundaries(l, 1, 3);
    lemma_ascii_boundaries(l, 3, 7);
    lemma_ascii_boundaries(l, 7, 9);
    lemma_hex_bytes_upper(data);
    lemma_hex_pairs_read(l, 9, data, true);
}

/// A record of an Intel HEX image of any type.
pub struct IntelRecord {
    pub kind: u8,
    pub address: nat,
    pub data: Seq<u8>,
    pub checksum: u8,
}

/// The lines of the records.
pub open spec fn intel_record_lines(recs: Seq<IntelRecord>) -> Seq<Seq<u8>> {
    recs.map_values(|r: IntelRecord| intel_line(r.kind, r.address, r.data, r.checksum))
}

/// What the records give, one after the other.
pub open spec fn intel_record_bytes(recs: Seq<IntelRecord>) -> Seq<Seq<u8>> {
    recs.map_values(|r: IntelRecord| record_bytes(r.kind, r.data))
}

#[verifier::spinoff_prover]
proof fn lemma_intel_record_lines(recs: Seq<IntelRecord>)
    requires
        forall|i: int| 0 <= i < recs.len() ==> (#[trigger] recs[i]).address < 65536 && recs[i].data.len() <= 255,
    ensures
        forall|i: int| 0 <= i < recs.len() ==> #[trigger] line_record(Encoding::IntelHex, intel_record_lines(recs)[i])
            == Some(Ok::<Seq<u8>, IntErrorKind>(intel_record_bytes(recs)[i])),
        forall|i: int| 0 <= i < recs.len() ==> printable(#[trigger] intel_record_lines(recs)[i]),
{
    let lines = intel_record_lines(recs);
    assert forall|i: int| 0 <= i < recs.len() implies #[trigger] line_record(Encoding::IntelHex, lines[i])
        == Some(Ok::<Seq<u8>, IntErrorKind>(intel_record_bytes(recs)[i])) && printable(lines[i]) by {
        let r = recs[i];
        law_intel_record_types(r.kind, r.address, r.data, r.checksum);
        assert(lines[i][0] == 0x3a);
        lemma_hex2_printable(r.data.len());
        lemma_hex2_printable(r.address / 256);
        lemma_hex2_printable(r.address % 256);
        lemma_hex2_printable(r.kind as nat);
        lemma_hex2_printable(r.checksum as nat);
        lemma_hex_bytes_printable(r.data);
    }
}

/// An Intel HEX image of records of any types, one per line, decodes to the data of its
/// data records in order; the records of other types add nothing.
pub proof fn law_intel_records_image(recs: Seq<IntelRecord>)
    requires
        forall|i: int| 0 <= i < recs.len() ==> (#[trigger] recs[i]).address < 65536 && recs[i].data.len() <= 255,
    ensures
        decode_lines(Encoding::IntelHex, join_lines(intel_record_lines(recs)), 0) == Some(
            Ok::<Seq<u8>, IntErrorKind>(intel_record_bytes(recs).flatten()),
        ),
{
    let lines = intel_record_lines(recs);
    lemma_intel_record_lines(recs);
    assert forall|i: int, k: int| 0 <= i < lines.len() && 0 <= k < lines[i].len() implies lines[i][k] != 10 by {
        assert(printable(lines[i]));
    }
    assert forall|i: int| 0 <= i < lines.len() && lines[i].len() > 0 implies lines[i].last() != 13 by {
        assert(printable(lines[i]));
    }
    assert forall|i: int| 0 <= i < lines.len() implies line_record(Encoding::IntelHex, lines[i]) == Some(
        Ok::<Seq<u8>, IntErrorKind>(intel_record_bytes(recs)[i]),
    ) by {}
    law_decode_records(Encoding::IntelHex, lines, intel_record_bytes(recs));
}

/// Every non-empty input whose first byte is `S` is read as an S-record image, whatever
/// follows (`S0` header records included), and whatever its path.
pub proof fn law_s_first_byte_is_srecord(path: Seq<u8>, contents: Seq<u8>)
    requires
        contents.len() > 0,
        contents[0] == 0x53,
    ensures
        input_format(path, contents) == InputFormat::SRecord,
{
}

/// The S0 header record of an S-record image: `S0`, the count, address 0000, the header
/// bytes and a checksum byte.
pub open spec fn srec_header_line(header: Seq<u8>, checksum: u8) -> Seq<u8> {
    seq![0x53u8, 0x30u8] + hex2(header.len() + 3) + hex2(0) + hex2(0) + hex_bytes(header) + hex2(checksum as nat)
}

/// An S-record image that starts with an S0 header record, then its S1, S2 and S3 records
/// and the termination record, one per line.
pub open spec fn srec_image_with_header(header: Seq<u8>, checksum: u8, recs: Seq<SrecData>) -> Seq<u8> {
    join_lines(seq![srec_header_line(header, checksum)] + srec_lines(recs))
}

proof fn lemma_srec_header_line(header: Seq<u8>, checksum: u8)
    requires
        header.len() <= 252,
    ensures
        line_record(Encoding::SRecord, srec_header_line(header, checksum)) == Some(Ok::<Seq<u8>, IntErrorKind>(Seq::empty())),
        printable(srec_header_line(header, checksum)),
        ascii(srec_header_line(header, checksum)),
{
    let l = srec_header_line(header, checksum);
    lemma_hex2_ascii(header.len() + 3);
    lemma_hex2_ascii(0);
    lemma_hex2_ascii(checksum as nat);
    lemma_hex_bytes_ascii(header);
    lemma_hex2_printable(header.len() + 3);
    lemma_hex2_printable(0);
    lemma_hex2_printable(checksum as nat);
    lemma_hex_bytes_printable(header);
    assert(ascii(l));
    assert(printable(l));
    assert(l.subrange(2, 4) =~= hex2(header.len() + 3));
    lemma_hex2_value(header.len() + 3, 255);
    lemma_ascii_boundaries(l, 1, 2);
    lemma_ascii_boundaries(l, 2, 4);
    assert(l[0] == 0x53 && l[1] == 0x30);
}

proof fn lemma_srec_lines_ascii(recs: Seq<SrecData>)
    requires
        forall|i: int| 0 <= i < recs.len() ==> srec_valid(#[trigger] recs[i]),
    ensures
        forall|i: int| 0 <= i < srec_lines(recs).len() ==> ascii(#[trigger] srec_lines(recs)[i]),
{
    let lines = srec_lines(recs);
    lemma_hex2_ascii(3);
    lemma_hex2_ascii(0);
    lemma_hex2_ascii(0xfc);
    assert forall|i: int| 0 <= i < lines.len() implies ascii(#[trigger] lines[i]) by {
        if i < recs.len() {
            let r = recs[i];
            lemma_hex2_ascii(r.address.len() + r.data.len() + 1);
            lemma_hex2_ascii(r.checksum as nat);
            lemma_hex_bytes_ascii(r.address);
            lemma_hex_bytes_ascii(r.data);
            assert(lines[i] == srec_data_line(r.kind, r.address, r.data, r.checksum));
        } else {
            assert(lines[i] == srec_end_line());
        }
    }
}

/// An S-record input that starts with an S0 header record is decoded, not taken for raw
/// bytes: it is ASCII, read as S-record, decodes to the data of its S1, S2 and S3 records
/// in order (the header gives none), and what is scanned of it is the first `HEADER_LEN`
/// bytes of that data, whatever its path.
pub proof fn law_srec_input_with_header(path: Seq<u8>, header: Seq<u8>, checksum: u8, recs: Seq<SrecData>)
    requires
        header.len() <= 252,
        forall|i: int| 0 <= i < recs.len() ==> srec_valid(#[trigger] recs[i]),
    ensures
        ascii(srec_image_with_header(header, checksum, recs)),
        input_format(path, srec_image_with_header(header, checksum, recs)) == InputFormat::SRecord,
        decode_lines(Encoding::SRecord, srec_image_with_header(header, checksum, recs), 0) == Some(
            Ok::<Seq<u8>, IntErrorKind>(srec_data(recs)),
        ),
        firmware_bytes(path, srec_image_with_header(header, checksum, recs)) == Some(header_part(srec_data(recs))),
{
    let h = srec_header_line(header, checksum);
    let rest = srec_lines(recs);
    let lines = seq![h] + rest;
    let img = srec_image_with_header(header, checksum, recs);
    let datas = recs.map_values(|r: SrecData| r.data);
    let all = datas.push(Seq::<u8>::empty());
    let full = seq![Seq::<u8>::empty()] + all;
    lemma_srec_header_line(header, checksum);
    lemma_srec_lines(recs);
    lemma_srec_lines_ascii(recs);
    assert forall|i: int| 0 <= i < lines.len() implies #[trigger] printable(lines[i]) && ascii(lines[i])
        && line_record(Encoding::SRecord, lines[i]) == Some(Ok::<Seq<u8>, IntErrorKind>(full[i])) by {
        if i > 0 {
            assert(lines[i] == rest[i - 1]);
            assert(full[i] == all[i - 1]);
        }
    }
    assert forall|i: int, k: int| 0 <= i < lines.len() && 0 <= k < lines[i].len() implies lines[i][k] != 10 by {
        assert(printable(lines[i]));
    }
    assert forall|i: int| 0 <= i < lines.len() && lines[i].len() > 0 implies lines[i].last() != 13 by {
        assert(printable(lines[i]));
    }
    law_decode_records(Encoding::SRecord, lines, full);
    assert(full.drop_first() =~= all);
    datas.lemma_flatten_push(Seq::<u8>::empty());
    assert(datas.flatten() + Seq::<u8>::empty() =~= datas.flatten());
    assert(Seq::<u8>::empty() + all.flatten() =~= all.flatten());
    assert(full.flatten() == srec_data(recs));
    lemma_join_lines_ascii(lines);
    assert(img == h + seq![10u8] + join_lines(lines.drop_first()));
    assert(img[0] == 0x53);
    lemma_lossy_text_ascii(img);
}

proof fn lemma_digit_char(d: nat)
    requires
        d < 10,
    ensures
        digit_char(d) as u32 == 48 + d,
        '0' <= digit_char(d) <= '9',
        !is_white_space(digit_char(d)),
{
}

/// The decimal rendering of a number is ASCII digits.
proof fn lemma_decimal_digits(n: nat)
    ensures
        decimal(n).len() > 0,
        forall|k: int| 0 <= k < decimal(n).len() ==> '0' <= #[trigger] decimal(n)[k] <= '9',
        is_ascii_chars(decimal(n)),
    decreases n,
{
    lemma_digit_char(n % 10);
    if n >= 10 {
        lemma_decimal_digits(n / 10);
        let p = decimal(n / 10);
        assert forall|k: int| 0 <= k < decimal(n).len() implies '0' <= #[trigger] decimal(n)[k] <= '9' by {
            if k < p.len() {
                assert(decimal(n)[k] == p[k]);
            }
        }
    } else {
        lemma_digit_char(n);
    }
}

/// The decimal rendering of a number reads back as that number.
proof fn lemma_decimal_value(n: nat, max: nat, ov: IntErrorKind)
    requires
        n <= max,
    ensures
        digits_value(encode_utf8(decimal(n)), 10, max, ov) == Ok::<nat, IntErrorKind>(n),
        encode_utf8(decimal(n)).len() > 0,
        48 <= encode_utf8(decimal(n))[0] <= 57,
    decreases n,
{
    let t = decimal(n);
    let e = encode_utf8(t);
    lemma_decimal_digits(n);
    is_ascii_chars_encode_utf8(t);
    lemma_digit_char(n % 10);
    assert(e.last() == t.last() as u8);
    assert(t.last() == digit_char(n % 10));
    assert(e.last() == 48 + n % 10);
    assert(t[0] as u8 == e[0]);
    assert(digit_value(e.last(), 10) == Some((n % 10) as nat));
    if n < 10 {
        assert(e.drop_last() =~= Seq::<u8>::empty());
        assert(digits_value(e.drop_last(), 10, max, ov) == Ok::<nat, IntErrorKind>(0));
        assert(n % 10 == n);
    } else {
        let p = decimal(n / 10);
        lemma_decimal_digits(n / 10);
        is_ascii_chars_encode_utf8(p);
        lemma_decimal_value(n / 10, max, ov);
        assert forall|k: int| 0 <= k < p.len() implies e.drop_last()[k] == encode_utf8(p)[k] by {
            assert(t[k] == p[k]);
        }
        assert(e.drop_last() =~= encode_utf8(p));
        assert((n / 10) * 10 + n % 10 == n);
        assert(digits_value(e.drop_last(), 10, max, ov) == Ok::<nat, IntErrorKind>(n / 10));
    }
}

/// A position item that is the decimal digits of `n` gives position `n`, and so does `>`,
/// then any white space, then those digits: the digits after `>` are read in base 10.
pub proof fn law_position_items(n: nat, w: Seq<char>)
    requires
        n <= usize::MAX,
        forall|k: int| 0 <= k < w.len() ==> is_white_space(#[trigger] w[k]),
    ensures
        position_spec(decimal(n)) == Some(n),
        position_spec(seq!['>'] + w + decimal(n)) == Some(n),
{
    let t = decimal(n);
    lemma_decimal_digits(n);
    lemma_decimal_value(n, usize::MAX as nat, IntErrorKind::PosOverflow);
    lemma_digit_char(n % 10);
    assert(!is_white_space(t[0]));
    assert(!is_white_space(t.last()));
    assert(trim_start_ws(t) == t);
    assert(trim_end_ws(t) == t);
    assert(trim_ws(t) == t);
    let e = encode_utf8(t);
    assert(!(e[0] == 43 || e[0] == 45));
    assert(decimal_usize(t) == Some(n));
    let h = seq!['>'] + w + t;
    let j = 1 + w.len() as int;
    assert forall|k: int| 1 <= k < j implies is_white_space(h[k]) by {
        assert(h[k] == w[k - 1]);
    }
    assert(h[j] == t[0]);
    lemma_skip_white_at(h, 1, j);
    assert(h.subrange(j, h.len() as int) =~= t);
    assert(h.last() == t.last());
    assert(trim_start_ws(h) == h);
    assert(trim_end_ws(h) == h);
    assert(trim_ws(h) == h);
    assert(h[0] == '>');
}

} // verus!
