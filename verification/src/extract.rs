//! Turning an input file into the raw firmware bytes that are scanned: recognising its
//! encoding, decoding or decompressing it, and keeping the header part.
use vstd::prelude::*;
use vstd::string::{StrSliceExecFns, StringSliceAdditionalSpecFns};
use crate::records::{decode_lines, image_text, intel_hex_to_binary, srec_to_binary, try_decode_image, Encoding};
use crate::text::ascii;
use crate::unicode::lemma_lossy_text_ascii;
use crate::text::ParseIntError;

verus! {

/// How many bytes of an image are scanned.
pub const HEADER_LEN: usize = 256;

/// How many times the user is asked for a file that can be read.
pub const MAX_ATTEMPTS: u32 = 3;

/// The encodings an input file may come in.
#[derive(Debug, Clone, Copy, PartialEq, Eq, Structural)]
pub enum InputFormat {
    IntelHex,
    SRecord,
    Gzip,
    Zip,
    Binary,
}

/// `s` ends with the bytes of `p`.
pub open spec fn ends_with(s: Seq<u8>, p: Seq<u8>) -> bool {
    p.len() <= s.len() && s.subrange(s.len() - p.len(), s.len() as int) == p
}

/// The format of an input: a first byte `:` means Intel HEX and `S` an S-record image;
/// otherwise a path ending in `.gz` means gzip and one ending in `.zip` a zip archive;
/// anything else is raw binary.
pub open spec fn input_format(path: Seq<u8>, contents: Seq<u8>) -> InputFormat {
    if contents.len() > 0 && contents[0] == 0x3a {
        InputFormat::IntelHex
    } else if contents.len() > 0 && contents[0] == 0x53 {
        InputFormat::SRecord
    } else if ends_with(path, seq![0x2eu8, 0x67u8, 0x7au8]) {
        InputFormat::Gzip
    } else if ends_with(path, seq![0x2eu8, 0x7au8, 0x69u8, 0x70u8]) {
        InputFormat::Zip
    } else {
        InputFormat::Binary
    }
}

/// The spec view of an optional byte vector.
pub open spec fn opt_bytes(r: Option<Vec<u8>>) -> Option<Seq<u8>> {
    match r {
        Some(v) => Some(v@),
        None => None,
    }
}

/// What flate2's `GzDecoder` reads from the gzip data `data`, if it reads it to the end.
pub uninterp spec fn gunzip(data: Seq<u8>) -> Option<Seq<u8>>;

/// Number of entries of the zip archive `data`, if zip's `ZipArchive` opens it.
pub uninterp spec fn zip_entry_count(data: Seq<u8>) -> Option<nat>;

/// What zip's `ZipArchive` reads from entry `index` of the archive `data`, if it can.
pub uninterp spec fn zip_entry(data: Seq<u8>, index: int) -> Option<Seq<u8>>;

/// flate2's `GzDecoder` over `data`, read to its end with `Read::read_to_end`. The
/// contract names the outcome (`gunzip`); what it decompresses to is left to flate2.
#[verifier::external_body]
fn decompress_gz(data: &[u8]) -> (r: Option<Vec<u8>>)
    ensures
        opt_bytes(r) == gunzip(data@),
{
    let mut decoder = flate2::read::GzDecoder::new(data);
    let mut out = Vec::new();
    match std::io::Read::read_to_end(&mut decoder, &mut out) {
        Ok(_) => Some(out),
        Err(_) => None,
    }
}

/// zip's `ZipArchive::new` over `data`, then `ZipArchive::len`. The contract names the
/// outcome (`zip_entry_count`).
#[verifier::external_body]
fn zip_len(data: &[u8]) -> (r: Option<usize>)
    ensures
        match r {
            Some(n) => zip_entry_count(data@) == Some(n as nat),
            None => zip_entry_count(data@) is None,
        },
{
    match zip::ZipArchive::new(std::io::Cursor::new(data)) {
        Ok(archive) => Some(archive.len()),
        Err(_) => None,
    }
}

/// zip's `ZipArchive::new` over `data`, `ZipArchive::by_index(index)`, and the entry read
/// to its end with `Read::read_to_end`. The contract names the outcome (`zip_entry`).
#[verifier::external_body]
fn zip_read_entry(data: &[u8], index: usize) -> (r: Option<Vec<u8>>)
    ensures
        opt_bytes(r) == zip_entry(data@, index as int),
{
    let mut archive = match zip::ZipArchive::new(std::io::Cursor::new(data)) {
        Ok(a) => a,
        Err(_) => return None,
    };
    let mut entry = match archive.by_index(index) {
        Ok(e) => e,
        Err(_) => return None,
    };
    let mut out = Vec::new();
    match std::io::Read::read_to_end(&mut entry, &mut out) {
        Ok(_) => Some(out),
        Err(_) => None,
    }
}

/// The contents of the first `k` entries of the archive, one after the other, or `None`
/// if one of them cannot be read.
pub open spec fn zip_entries(data: Seq<u8>, k: nat) -> Option<Seq<u8>>
    decreases k,
{
    if k == 0 {
        Some(Seq::empty())
    } else {
        match zip_entries(data, (k - 1) as nat) {
            None => None,
            Some(prefix) => match zip_entry(data, k - 1) {
                None => None,
                Some(e) => Some(prefix + e),
            },
        }
    }
}

/// The contents of all entries of the zip archive `data`, in order.
pub open spec fn unzip(data: Seq<u8>) -> Option<Seq<u8>> {
    match zip_entry_count(data) {
        None => None,
        Some(n) => zip_entries(data, n),
    }
}

/// Reads every entry of a zip archive, in order, into one byte vector; `None` when the
/// archive or one of its entries cannot be read.
pub fn extract_zip(data: &[u8]) -> (r: Option<Vec<u8>>)
    ensures
        opt_bytes(r) == unzip(data@),
{
    let n = match zip_len(data) {
        None => return None,
        Some(n) => n,
    };
    let mut out: Vec<u8> = Vec::new();
    let mut i: usize = 0;
    while i < n
        invariant
            i <= n,
            zip_entry_count(data@) == Some(n as nat),
            zip_entries(data@, i as nat) == Some(out@),
        decreases n - i,
    {
        match zip_read_entry(data, i) {
            None => {
                proof { lemma_zip_entries_stop(data@, (i + 1) as nat, n as nat); }
                return None;
            },
            Some(e) => {
                let mut e = e;
                out.append(&mut e);
            },
        }
        i = i + 1;
    }
    Some(out)
}

/// Once an entry cannot be read, reading more entries fails too.
proof fn lemma_zip_entries_stop(data: Seq<u8>, k: nat, n: nat)
    requires
        k <= n,
        zip_entries(data, k) is None,
    ensures
        zip_entries(data, n) is None,
    decreases n - k,
{
    if n > k {
        lemma_zip_entries_stop(data, k, (n - 1) as nat);
    }
}

/// Keeps at most the first `HEADER_LEN` bytes.
pub open spec fn header_part(b: Seq<u8>) -> Seq<u8> {
    if b.len() > HEADER_LEN {
        b.subrange(0, HEADER_LEN as int)
    } else {
        b
    }
}

/// The bytes a decoder produced, or nothing when it failed.
pub open spec fn or_empty<E>(r: Result<Seq<u8>, E>) -> Seq<u8> {
    match r {
        Ok(b) => b,
        Err(_) => Seq::empty(),
    }
}

/// The bytes a decoder produced, or nothing when it failed.
pub open spec fn some_or_empty(r: Option<Seq<u8>>) -> Seq<u8> {
    match r {
        Some(b) => b,
        None => Seq::empty(),
    }
}

/// Decoding the text of a text image; `None` where the decoder panics, no bytes where it
/// fails.
pub open spec fn decoded_text(enc: Encoding, text: Seq<u8>) -> Option<Seq<u8>> {
    match decode_lines(enc, text, 0) {
        None => None,
        Some(r) => Some(or_empty(r)),
    }
}

/// The firmware bytes that are scanned for an input with the given path and contents,
/// where `text` is what the contents read as text: nothing for empty contents; otherwise
/// the contents decoded as `input_format` says (no bytes when decoding fails), cut to
/// their first `HEADER_LEN` bytes. `None` where decoding breaks off.
pub open spec fn firmware_from(path: Seq<u8>, contents: Seq<u8>, text: Seq<u8>) -> Option<Seq<u8>> {
    if contents.len() == 0 {
        Some(Seq::empty())
    } else {
        let decoded = match input_format(path, contents) {
            InputFormat::IntelHex => decoded_text(Encoding::IntelHex, text),
            InputFormat::SRecord => decoded_text(Encoding::SRecord, text),
            InputFormat::Gzip => Some(some_or_empty(gunzip(contents))),
            InputFormat::Zip => Some(some_or_empty(unzip(contents))),
            InputFormat::Binary => Some(contents),
        };
        match decoded {
            None => None,
            Some(b) => Some(header_part(b)),
        }
    }
}

/// The firmware bytes that are scanned for an input with the given path and contents,
/// the contents read as text by lossy UTF-8 conversion.
pub open spec fn firmware_bytes(path: Seq<u8>, contents: Seq<u8>) -> Option<Seq<u8>> {
    firmware_from(path, contents, image_text(contents))
}

/// Tells the format of an input from its path and contents.
pub fn detect_format(path: &str, contents: &[u8]) -> (f: InputFormat)
    ensures
        f == input_format(path.spec_bytes(), contents@),
{
    if contents.len() > 0 && contents[0] == 0x3a {
        return InputFormat::IntelHex;
    }
    if contents.len() > 0 && contents[0] == 0x53 {
        return InputFormat::SRecord;
    }
    let p = path.as_bytes();
    let n = p.len();
    if n >= 3 && p[n - 3] == 0x2e && p[n - 2] == 0x67 && p[n - 1] == 0x7a {
        assert(p@.subrange(n - 3, n as int) =~= seq![0x2eu8, 0x67u8, 0x7au8]);
        return InputFormat::Gzip;
    }
    assert(!ends_with(p@, seq![0x2eu8, 0x67u8, 0x7au8])) by {
        if n >= 3 {
            assert(p@.subrange(n - 3, n as int)[0] == p@[n - 3]);
            assert(p@.subrange(n - 3, n as int)[1] == p@[n - 2]);
            assert(p@.subrange(n - 3, n as int)[2] == p@[n - 1]);
        }
    }
    if n >= 4 && p[n - 4] == 0x2e && p[n - 3] == 0x7a && p[n - 2] == 0x69 && p[n - 1] == 0x70 {
        assert(p@.subrange(n - 4, n as int) =~= seq![0x2eu8, 0x7au8, 0x69u8, 0x70u8]);
        return InputFormat::Zip;
    }
    assert(!ends_with(p@, seq![0x2eu8, 0x7au8, 0x69u8, 0x70u8])) by {
        if n >= 4 {
            assert(p@.subrange(n - 4, n as int)[0] == p@[n - 4]);
            assert(p@.subrange(n - 4, n as int)[1] == p@[n - 3]);
            assert(p@.subrange(n - 4, n as int)[2] == p@[n - 2]);
            assert(p@.subrange(n - 4, n as int)[3] == p@[n - 1]);
        }
    }
    InputFormat::Binary
}

fn bytes_or_empty(r: Result<Vec<u8>, ParseIntError>) -> (b: Vec<u8>)
    ensures
        b@ == or_empty(crate::records::result_view(r)),
{
    match r {
        Ok(b) => b,
        Err(_) => Vec::new(),
    }
}

/// Decodes the contents of an input file into the firmware bytes to scan, as
/// `firmware_bytes` says; `None` where decoding breaks off.
pub fn decode_input(path: &str, contents: &[u8]) -> (r: Option<Vec<u8>>)
    ensures
        opt_bytes(r) == firmware_bytes(path.spec_bytes(), contents@),
        ascii(contents@) ==> opt_bytes(r) == firmware_from(path.spec_bytes(), contents@, contents@),
{
    if contents.len() == 0 {
        return Some(Vec::new());
    }
    proof {
        if ascii(contents@) {
            lemma_lossy_text_ascii(contents@);
        }
    }
    let mut decoded = match detect_format(path, contents) {
        // `try_decode_image` tells whether decoding would break off; only where it does
        // not are the decoders called.
        InputFormat::IntelHex => match try_decode_image(Encoding::IntelHex, contents) {
            None => return None,
            Some(_) => bytes_or_empty(intel_hex_to_binary(contents)),
        },
        InputFormat::SRecord => match try_decode_image(Encoding::SRecord, contents) {
            None => return None,
            Some(_) => bytes_or_empty(srec_to_binary(contents)),
        },
        InputFormat::Gzip => match decompress_gz(contents) {
            Some(b) => b,
            None => Vec::new(),
        },
        InputFormat::Zip => match extract_zip(contents) {
            Some(b) => b,
            None => Vec::new(),
        },
        InputFormat::Binary => vstd::slice::slice_to_vec(contents),
    };
    let ghost whole = decoded@;
    decoded.truncate(HEADER_LEN);
    assert(decoded@ =~= header_part(whole));
    Some(decoded)
}

/// What to do after the user named a file and it was read.
#[derive(Debug, Clone, Copy, PartialEq, Eq, Structural)]
pub enum Prompt {
    /// The file is used.
    Accept,
    /// The user is asked again.
    Retry,
    /// The attempts are used up.
    GiveUp,
}

/// The interactive search for an input file: counts the reads that gave nothing.
pub struct InputSession {
    failures: u32,
}

impl InputSession {
    /// Number of reads so far that gave no contents.
    pub closed spec fn failures(self) -> nat {
        self.failures as nat
    }

    #[verifier::type_invariant]
    closed spec fn well_formed(self) -> bool {
        self.failures <= MAX_ATTEMPTS
    }

    /// A session before the first read.
    pub fn new() -> (s: Self)
        ensures
            s.failures() == 0,
    {
        InputSession { failures: 0 }
    }

    /// Whether the user may be asked (again): fewer than `MAX_ATTEMPTS` reads failed.
    pub fn may_prompt(&self) -> (r: bool)
        ensures
            r == (self.failures() < MAX_ATTEMPTS),
    {
        self.failures < MAX_ATTEMPTS
    }

    /// The decision after a read: empty contents count as a failure, and the last
    /// allowed failure ends the search; contents that look encrypted are asked for
    /// again without counting; any other contents are used.
    pub fn after_read(&mut self, empty: bool, encrypted: bool) -> (r: Prompt)
        requires
            old(self).failures() < MAX_ATTEMPTS,
        ensures
            empty ==> final(self).failures() == old(self).failures() + 1,
            empty ==> r == (if final(self).failures() >= MAX_ATTEMPTS { Prompt::GiveUp } else { Prompt::Retry }),
            !empty ==> final(self).failures() == old(self).failures(),
            !empty ==> r == (if encrypted { Prompt::Retry } else { Prompt::Accept }),
            final(self).failures() <= MAX_ATTEMPTS,
    {
        if empty {
            self.failures = self.failures + 1;
            if self.failures >= MAX_ATTEMPTS {
                Prompt::GiveUp
            } else {
                Prompt::Retry
            }
        } else if encrypted {
            Prompt::Retry
        } else {
            Prompt::Accept
        }
    }
}

/// `s` without the characters `c` at its start.
pub open spec fn strip_front(s: Seq<char>, c: char) -> Seq<char>
    decreases s.len(),
{
    if s.len() > 0 && s[0] == c {
        strip_front(s.drop_first(), c)
    } else {
        s
    }
}

/// `s` without the characters `c` at its end.
pub open spec fn strip_back(s: Seq<char>, c: char) -> Seq<char>
    decreases s.len(),
{
    if s.len() > 0 && s.last() == c {
        strip_back(s.drop_last(), c)
    } else {
        s
    }
}

/// `str::trim_matches` with one character.
pub open spec fn trim_matches(s: Seq<char>, c: char) -> Seq<char> {
    strip_back(strip_front(s, c), c)
}

fn trim_char<'a>(s: &'a str, c: char) -> (r: &'a str)
    ensures
        r@ == trim_matches(s@, c),
{
    let n = s.unicode_len();
    let mut i: usize = 0;
    assert(s@.subrange(0, n as int) =~= s@);
    while i < n && s.get_char(i) == c
        invariant
            i <= n,
            n == s@.len(),
            strip_front(s@, c) == strip_front(s@.subrange(i as int, n as int), c),
        decreases n - i,
    {
        assert(s@.subrange(i as int, n as int).drop_first() =~= s@.subrange(i + 1, n as int));
        i = i + 1;
    }
    let mut j: usize = n;
    while j > i && s.get_char(j - 1) == c
        invariant
            i <= j <= n,
            n == s@.len(),
            strip_front(s@, c) == s@.subrange(i as int, n as int),
            strip_back(s@.subrange(i as int, n as int), c) == strip_back(s@.subrange(i as int, j as int), c),
        decreases j,
    {
        assert(s@.subrange(i as int, j as int).drop_last() =~= s@.subrange(i as int, j - 1));
        j = j - 1;
    }
    s.substring_char(i, j)
}

/// A path as typed or piped: without surrounding double quotes, then without surrounding
/// single quotes.
pub open spec fn unquoted_path(path: Seq<char>) -> Seq<char> {
    trim_matches(trim_matches(path, '"'), '\'')
}

/// Removes the quotes that a shell or a drag-and-drop leaves around a path.
pub fn trim_path_quotes(path: &str) -> (r: String)
    ensures
        r@ == unquoted_path(path@),
{
    let once = trim_char(path, '"');
    let twice = trim_char(once, '\'');
    twice.to_owned()
}

} // verus!
