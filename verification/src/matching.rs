//! Matching the header of an image against vendor signatures, and extracting the
//! information the matched fields describe.
use vstd::prelude::*;
use vstd::utf8::encode_utf8;
use crate::extract::opt_bytes;
use crate::signature::{capture_group, regex_capture, Field, FieldType, FieldView, Signature, fields_view};
use crate::strings::{contains, contains_text, decimal, hex_join, is_single, push_decimal, push_hex_join, push_text, same_text, trim, trim_ws};
use crate::text::{hex_pairs, parse_i32_spec, parse_unsigned, read_hex_pairs, read_i32, read_unsigned, IntErrorKind};
use crate::unicode::{lossy_text, utf8_lossy_string};

verus! {

/// The length a description asks for with `{strlen:N}` (0 when it has no `strlen:`, or
/// no such group). `None` where the digits do not make an `i32`, which stops the scan.
pub open spec fn description_length(desc: Seq<char>) -> Option<int> {
    if contains_text(desc, "strlen:"@) {
        match regex_capture("\\{strlen:(\\d+)\\}"@, desc, 1) {
            None => Some(0),
            Some(d) => match parse_i32_spec(encode_utf8(d)) {
                Ok(v) => Some(v),
                Err(_) => None,
            },
        }
    } else {
        Some(0)
    }
}

fn description_length_of(description: &str) -> (r: Option<i32>)
    ensures
        match r {
            Some(v) => description_length(description@) == Some(v as int),
            None => description_length(description@) is None,
        },
{
    if contains(description, "strlen:") {
        match capture_group("\\{strlen:(\\d+)\\}", description, 1) {
            None => Some(0),
            Some(d) => match read_i32(d.as_str().as_bytes()) {
                Ok(v) => Some(v),
                Err(_) => None,
            },
        }
    } else {
        Some(0)
    }
}

/// The number `N` of a `{strlen:N}` in a field description, or 0.
pub fn parse_description_str(description: &str) -> (r: i32)
    requires
        description_length(description@) is Some,
    ensures
        description_length(description@) == Some(r as int),
{
    match description_length_of(description) {
        Some(v) => v,
        None => 0,
    }
}

/// Reads a description as `parse_description_str` does, or says `None` where that would
/// panic.
pub fn try_parse_description_str(description: &str) -> (r: Option<i32>)
    ensures
        match r {
            Some(v) => description_length(description@) == Some(v as int),
            None => description_length(description@) is None,
        },
{
    match description_length_of(description) {
        Some(_) => Some(parse_description_str(description)),
        None => None,
    }
}

/// One step of the CRC-16 register, bit-reflected: shift right, and fold in the
/// polynomial 0x1021 (0x8408 reflected) when a one bit leaves.
pub open spec fn crc_shift(r: u16) -> u16 {
    if r & 1 == 1 {
        (r >> 1u16) ^ 0x8408u16
    } else {
        r >> 1u16
    }
}

/// `n` steps of the register.
pub open spec fn crc_shifts(r: u16, n: nat) -> u16
    decreases n,
{
    if n == 0 {
        r
    } else {
        crc_shifts(crc_shift(r), (n - 1) as nat)
    }
}

/// The register after the bytes of `data`, least significant bit of each byte first,
/// starting from 0xFFFF.
pub open spec fn crc_register(data: Seq<u8>) -> u16
    decreases data.len(),
{
    if data.len() == 0 {
        0xffffu16
    } else {
        crc_shifts(crc_register(data.drop_last()) ^ (data.last() as u16), 8)
    }
}

/// The CRC-16/IBM-SDLC (X-25) checksum of `data`: width 16, polynomial 0x1021, initial
/// value 0xFFFF, input and output reflected, final XOR 0xFFFF (check value 0x906E).
pub open spec fn crc16_ibm_sdlc(data: Seq<u8>) -> u16 {
    crc_register(data) ^ 0xffffu16
}

/// crc: `Crc::<u16>::new(&CRC_16_IBM_SDLC).checksum(contents)`, the CRC-16/IBM-SDLC of
/// the bytes, whose parameters the crc catalog lists and `crc16_ibm_sdlc` states.
#[verifier::external_body]
pub(crate) fn calculate_crc(contents: &[u8]) -> (r: u16)
    ensures
        r == crc16_ibm_sdlc(contents@),
{
    crc::Crc::<u16>::new(&crc::CRC_16_IBM_SDLC).checksum(contents)
}

/// The image file could not be read from disk.
#[derive(Debug, Clone, Copy, PartialEq, Eq, Structural)]
pub struct FileUnreadable;

/// Checks the size of the image file as read from disk (`None` when it could not be
/// read) against the size a header states: the file's checksum when the sizes agree,
/// `None` when they do not.
pub fn checked_size(file: &Option<Vec<u8>>, expected_size: usize) -> (r: Result<Option<u16>, FileUnreadable>)
    ensures
        match *file {
            None => r is Err,
            Some(f) => r == Ok::<Option<u16>, FileUnreadable>(
                if f@.len() == expected_size {
                    Some(crc16_ibm_sdlc(f@))
                } else {
                    None
                },
            ),
        },
{
    match file {
        None => Err(FileUnreadable),
        Some(f) => if f.len() == expected_size {
            Ok(Some(calculate_crc(f.as_slice())))
        } else {
            Ok(None)
        },
    }
}

/// Compares the size of the image file as read from disk (`None` when it could not be
/// read) with the size a header states; `checked_size` also gives the checksum.
pub fn verify_size(file: &Option<Vec<u8>>, expected_size: usize) -> (r: Result<bool, FileUnreadable>)
    ensures
        match *file {
            None => r is Err,
            Some(f) => r == Ok::<bool, FileUnreadable>(f@.len() == expected_size),
        },
{
    match checked_size(file, expected_size) {
        Err(e) => Err(e),
        Ok(sum) => Ok(sum.is_some()),
    }
}

/// What the scan reports while it matches, in order.
#[derive(Debug, Clone, Copy, PartialEq, Eq, Structural)]
pub enum Notice {
    /// A string constraint reaches past the end of the header.
    ConstraintPastEnd,
    /// A byte constraint is not a hex number.
    BadByteConstraint(IntErrorKind),
    /// The file size differs from the size the header states.
    SizeMismatch,
    /// The file has the stated size; its checksum.
    Checksum(u16),
    /// Field `field` has a short or long constraint whose hex pair at byte `offset` is
    /// not hex.
    BadHexConstraint { field: usize, offset: usize, kind: IntErrorKind },
    /// Field `field` has a short constraint that does not split into pairs of characters
    /// (its length is odd, or a pair would cut a character).
    UnpairedConstraint { field: usize },
}

/// What a field does to the match.
pub enum Effect {
    /// Adds the pair (description, value) to the extracted information.
    Push(Seq<char>, Seq<char>),
    /// Leaves the match as it is.
    Nothing,
    /// The header does not match; no further field is read.
    Invalid,
    /// The signature is dropped at once, matched or not.
    Abandon,
}

/// The notices and the effect of one field.
pub struct Step {
    pub notices: Seq<Notice>,
    pub effect: Effect,
}

/// A step without notices.
pub open spec fn quiet(e: Effect) -> Step {
    Step { notices: Seq::empty(), effect: e }
}

/// `n` bytes of the header from `pos` on, if they are there.
pub open spec fn take(c: Seq<u8>, pos: nat, n: nat) -> Option<Seq<u8>> {
    if pos + n <= c.len() {
        Some(c.subrange(pos as int, (pos + n) as int))
    } else {
        None
    }
}

/// A number of bytes, as shown.
pub open spec fn bytes_text(n: nat) -> Seq<char> {
    decimal(n) + " bytes"@
}

/// Little-endian value of two bytes.
pub open spec fn le16(b: Seq<u8>) -> nat {
    (b[0] + 256 * b[1]) as nat
}

/// Little-endian value of four bytes.
pub open spec fn le32(b: Seq<u8>) -> nat {
    (b[0] + 256 * b[1] + 65536 * b[2] + 16777216 * b[3]) as nat
}

/// Big-endian value of four bytes.
pub open spec fn be32(b: Seq<u8>) -> nat {
    (b[3] + 256 * b[2] + 65536 * b[1] + 16777216 * b[0]) as nat
}

/// A string field. With constraint `x` it shows `N` bytes from its position as text,
/// where `N` is 32 for an OTA header string and the description's `{strlen:N}` else.
/// With any other constraint the bytes at its position must spell the constraint, and
/// it must lie within the header.
pub open spec fn str_step(f: FieldView, c: Seq<u8>) -> Option<Step> {
    let desc = f.description;
    if trim_ws(f.constraint) == seq!['x'] {
        match description_length(desc) {
            None => None,
            Some(n) => {
                let len: nat = if trim_ws(desc) == "OTA header string,"@ {
                    32
                } else {
                    (n as usize) as nat
                };
                match take(c, f.position, len) {
                    None => None,
                    Some(b) => Some(quiet(Effect::Push(desc, lossy_text(b)))),
                }
            },
        }
    } else {
        let v = encode_utf8(f.constraint);
        if f.position + v.len() > usize::MAX {
            None
        } else if f.position + v.len() <= c.len() {
            if c.subrange(f.position as int, (f.position + v.len()) as int) == v {
                Some(quiet(Effect::Push(desc, f.constraint)))
            } else {
                Some(quiet(Effect::Invalid))
            }
        } else {
            Some(Step { notices: seq![Notice::ConstraintPastEnd], effect: Effect::Invalid })
        }
    }
}

/// A byte field: with constraint `x` it shows the byte at its position in decimal;
/// otherwise the constraint is a hex byte that must be there.
pub open spec fn byte_step(f: FieldView, c: Seq<u8>) -> Option<Step> {
    let desc = f.description;
    let pos = f.position;
    if trim_ws(f.constraint) == seq!['x'] {
        if pos < c.len() {
            Some(quiet(Effect::Push(desc, decimal(c[pos as int] as nat))))
        } else {
            None
        }
    } else {
        match parse_unsigned(encode_utf8(f.constraint), 16, 255) {
            Err(e) => Some(Step { notices: seq![Notice::BadByteConstraint(e)], effect: Effect::Invalid }),
            Ok(b) => if pos >= c.len() {
                None
            } else if c[pos as int] == b {
                Some(quiet(Effect::Push(desc, decimal(b))))
            } else {
                Some(quiet(Effect::Invalid))
            },
        }
    }
}

/// A field whose constraint is hex for the `width` bytes that must be at its position
/// (a long field's); they are shown as text when they are there. A pair of the constraint
/// that is not hex drops the signature; a constraint that does not split into pairs, or
/// bytes past the header, stop the scan.
pub open spec fn hex_constraint_step(f: FieldView, c: Seq<u8>, index: nat, width: nat) -> Option<Step> {
    let v = encode_utf8(f.constraint);
    match hex_pairs(v, 0, ((v.len() + 1) / 2) as nat) {
        None => None,
        Some(Err((off, k))) => Some(
            Step {
                notices: seq![Notice::BadHexConstraint { field: index as usize, offset: off as usize, kind: k }],
                effect: Effect::Abandon,
            },
        ),
        Some(Ok(bytes)) => match take(c, f.position, width) {
            None => None,
            Some(b) => if b == bytes {
                Some(quiet(Effect::Push(f.description, lossy_text(bytes))))
            } else {
                Some(quiet(Effect::Invalid))
            },
        },
    }
}

/// A short field whose constraint is not `x`: the constraint is hex for the two bytes that
/// must be at its position, shown as text when they are there. The field never stops the
/// scan: bytes past the end of the header do not match, and a constraint that is not
/// pairs of hex digits makes the signature not match, with a notice.
pub open spec fn short_constraint_step(f: FieldView, c: Seq<u8>, index: nat) -> Step {
    let v = encode_utf8(f.constraint);
    match hex_pairs(v, 0, ((v.len() + 1) / 2) as nat) {
        None => Step { notices: seq![Notice::UnpairedConstraint { field: index as usize }], effect: Effect::Invalid },
        Some(Err((off, k))) => Step {
            notices: seq![Notice::BadHexConstraint { field: index as usize, offset: off as usize, kind: k }],
            effect: Effect::Invalid,
        },
        Some(Ok(bytes)) => match take(c, f.position, 2) {
            None => quiet(Effect::Invalid),
            Some(b) => if b == bytes {
                quiet(Effect::Push(f.description, lossy_text(bytes)))
            } else {
                quiet(Effect::Invalid)
            },
        },
    }
}

/// A short field. With constraint exactly `x` it is shown: a header size in bytes, a
/// length in 32-bit words shown in bytes, or else the two bytes in hex. Otherwise it is
/// checked as `short_constraint_step` says.
pub open spec fn short_step(f: FieldView, c: Seq<u8>, index: nat) -> Option<Step> {
    let desc = f.description;
    if f.constraint == seq!['x'] {
        match take(c, f.position, 2) {
            None => None,
            Some(b) => {
                let d = trim_ws(desc);
                let v = if d == "Header size,"@ {
                    bytes_text(le16(b))
                } else if d == "Length,"@ {
                    bytes_text(le16(b) * 4)
                } else {
                    hex_join(b)
                };
                Some(quiet(Effect::Push(desc, v)))
            },
        }
    } else {
        Some(short_constraint_step(f, c, index))
    }
}

/// Checking a stated file size against the file on disk.
pub open spec fn size_step(disk: Option<Seq<u8>>, size: nat, desc: Seq<char>) -> Step {
    match disk {
        None => quiet(Effect::Invalid),
        Some(f) => if f.len() != size {
            Step { notices: seq![Notice::SizeMismatch], effect: Effect::Invalid }
        } else {
            Step { notices: seq![Notice::Checksum(crc16_ibm_sdlc(f))], effect: Effect::Push(desc, bytes_text(size)) }
        },
    }
}

/// A long field. With constraint exactly `x`: a file size or a code size (plus the
/// 64-byte header) that the file on disk must have, a big-endian header size, or else the
/// four bytes in hex. Otherwise the constraint is hex for bytes that must be there.
pub open spec fn long_step(disk: Option<Seq<u8>>, f: FieldView, c: Seq<u8>, index: nat) -> Option<Step> {
    let desc = f.description;
    if f.constraint == seq!['x'] {
        match take(c, f.position, 4) {
            None => None,
            Some(b) => {
                let d = trim_ws(desc);
                if d == "File size,"@ {
                    Some(size_step(disk, le32(b), desc))
                } else if d == "Code size,"@ {
                    if le32(b) + 64 > u32::MAX {
                        None
                    } else {
                        Some(size_step(disk, le32(b) + 64, desc))
                    }
                } else if d == "Header size,"@ {
                    Some(quiet(Effect::Push(desc, bytes_text(be32(b)))))
                } else {
                    Some(quiet(Effect::Push(desc, hex_join(b))))
                }
            },
        }
    } else {
        hex_constraint_step(f, c, index, 4)
    }
}

/// What field number `index` of a signature does against the header `c`; `None` where the
/// scan breaks off (a field read past the header, or a size that does not fit).
pub open spec fn field_step(disk: Option<Seq<u8>>, f: FieldView, c: Seq<u8>, index: nat) -> Option<Step> {
    match f.value_type {
        FieldType::Str => str_step(f, c),
        FieldType::Byte => byte_step(f, c),
        FieldType::Short => short_step(f, c, index),
        FieldType::Long => long_step(disk, f, c, index),
        _ => Some(quiet(Effect::Nothing)),
    }
}

/// The state of matching one signature.
pub struct RunState {
    pub valid: bool,
    pub abandoned: bool,
    pub pairs: Seq<(Seq<char>, Seq<char>)>,
    pub notices: Seq<Notice>,
}

/// The state after a field.
pub open spec fn apply_step(st: RunState, s: Step) -> RunState {
    let notices = st.notices + s.notices;
    match s.effect {
        Effect::Push(d, v) => RunState { valid: st.valid, abandoned: st.abandoned, pairs: st.pairs.push((d, v)), notices },
        Effect::Nothing => RunState { valid: st.valid, abandoned: st.abandoned, pairs: st.pairs, notices },
        Effect::Invalid => RunState { valid: false, abandoned: st.abandoned, pairs: st.pairs, notices },
        Effect::Abandon => RunState { valid: st.valid, abandoned: true, pairs: st.pairs, notices },
    }
}

/// The state after the first `k` fields; fields after one that invalidated or abandoned
/// the match are not read.
pub open spec fn run_fields(disk: Option<Seq<u8>>, fields: Seq<FieldView>, c: Seq<u8>, k: nat) -> Option<RunState>
    decreases k,
{
    if k == 0 {
        Some(RunState { valid: true, abandoned: false, pairs: Seq::empty(), notices: Seq::empty() })
    } else {
        match run_fields(disk, fields, c, (k - 1) as nat) {
            None => None,
            Some(st) => if !st.valid || st.abandoned {
                Some(st)
            } else {
                match field_step(disk, fields[k - 1], c, (k - 1) as nat) {
                    None => None,
                    Some(s) => Some(apply_step(st, s)),
                }
            },
        }
    }
}

/// The outcome of matching one signature: the extracted pairs if every field it read
/// matched and it was not abandoned, and what was reported on the way.
pub struct MatchView {
    pub matched: Option<Seq<(Seq<char>, Seq<char>)>>,
    pub notices: Seq<Notice>,
}

/// Matching the signature with these fields against the header `c`; `None` where the
/// scan breaks off (a field read past the header, or a size that does not fit).
pub open spec fn signature_outcome(disk: Option<Seq<u8>>, fields: Seq<FieldView>, c: Seq<u8>) -> Option<MatchView> {
    match run_fields(disk, fields, c, fields.len()) {
        None => None,
        Some(st) => Some(
            MatchView {
                matched: if st.valid && !st.abandoned {
                    Some(st.pairs)
                } else {
                    None
                },
                notices: st.notices,
            },
        ),
    }
}

/// The outcome of a field.
pub enum FieldEffect {
    Push(String, String),
    Nothing,
    Invalid,
    Abandon,
}

/// The outcome of a field, with the notices it gave.
pub struct FieldOutcome {
    pub notices: Vec<Notice>,
    pub effect: FieldEffect,
}

/// The spec view of a field outcome.
pub open spec fn outcome_view(r: Option<FieldOutcome>) -> Option<Step> {
    match r {
        None => None,
        Some(o) => Some(
            Step {
                notices: o.notices@,
                effect: match o.effect {
                    FieldEffect::Push(d, v) => Effect::Push(d@, v@),
                    FieldEffect::Nothing => Effect::Nothing,
                    FieldEffect::Invalid => Effect::Invalid,
                    FieldEffect::Abandon => Effect::Abandon,
                },
            },
        ),
    }
}

fn quietly(e: FieldEffect) -> (o: FieldOutcome)
    ensures
        o.notices@ == Seq::<Notice>::empty(),
        o.effect == e,
{
    FieldOutcome { notices: Vec::new(), effect: e }
}

fn noting(n: Notice, e: FieldEffect) -> (o: FieldOutcome)
    ensures
        o.notices@ == seq![n],
        o.effect == e,
{
    let mut notices = Vec::new();
    notices.push(n);
    FieldOutcome { notices, effect: e }
}

fn take_bytes<'a>(c: &'a [u8], pos: usize, n: usize) -> (r: Option<&'a [u8]>)
    ensures
        match r {
            Some(b) => take(c@, pos as nat, n as nat) == Some(b@),
            None => take(c@, pos as nat, n as nat) is None,
        },
{
    if pos <= c.len() && n <= c.len() - pos {
        Some(&c[pos..pos + n])
    } else {
        None
    }
}

fn bytes_string(n: u64) -> (s: String)
    ensures
        s@ == bytes_text(n as nat),
{
    let mut s = String::new();
    push_decimal(&mut s, n);
    push_text(&mut s, " bytes");
    s
}

fn decimal_string(n: u64) -> (s: String)
    ensures
        s@ == decimal(n as nat),
{
    let mut s = String::new();
    push_decimal(&mut s, n);
    assert(s@ =~= decimal(n as nat));
    s
}

fn hex_string(b: &[u8]) -> (s: String)
    ensures
        s@ == hex_join(b@),
{
    let mut s = String::new();
    push_hex_join(&mut s, b);
    assert(s@ =~= hex_join(b@));
    s
}

fn str_field(f: &Field, c: &[u8]) -> (r: Option<FieldOutcome>)
    ensures
        outcome_view(r) == str_step(f@, c@),
{
    let desc = f.description.as_str();
    let cons = f.constraint.as_str();
    if is_single(trim(cons), 'x') {
        let n = match description_length_of(desc) {
            None => return None,
            Some(n) => n,
        };
        let len: usize = if same_text(trim(desc), "OTA header string,") {
            32
        } else {
            n as usize
        };
        match take_bytes(c, f.position, len) {
            None => None,
            Some(b) => Some(quietly(FieldEffect::Push(f.description.clone(), utf8_lossy_string(b)))),
        }
    } else {
        let v = cons.as_bytes();
        let pos = f.position;
        if pos > usize::MAX - v.len() {
            return None;
        }
        let end = v.len() + pos;
        if end <= c.len() {
            let mut same = true;
            let mut i: usize = 0;
            while i < v.len()
                invariant
                    i <= v@.len(),
                    end == pos + v@.len(),
                    end <= c@.len(),
                    same == (forall|k: int| 0 <= k < i ==> c@[pos + k] == v@[k]),
                decreases v@.len() - i,
            {
                if c[pos + i] != v[i] {
                    same = false;
                }
                i = i + 1;
            }
            proof {
                let w = c@.subrange(pos as int, end as int);
                if same {
                    assert(w =~= v@);
                } else {
                    if w == v@ {
                        assert forall|k: int| 0 <= k < v@.len() implies c@[pos + k] == v@[k] by {
                            assert(w[k] == c@[pos + k]);
                        }
                    }
                }
            }
            if same {
                Some(quietly(FieldEffect::Push(f.description.clone(), f.constraint.clone())))
            } else {
                Some(quietly(FieldEffect::Invalid))
            }
        } else {
            Some(noting(Notice::ConstraintPastEnd, FieldEffect::Invalid))
        }
    }
}

fn byte_field(f: &Field, c: &[u8]) -> (r: Option<FieldOutcome>)
    ensures
        outcome_view(r) == byte_step(f@, c@),
{
    let cons = f.constraint.as_str();
    let pos = f.position;
    if is_single(trim(cons), 'x') {
        if pos < c.len() {
            Some(quietly(FieldEffect::Push(f.description.clone(), decimal_string(c[pos] as u64))))
        } else {
            None
        }
    } else {
        let v = cons.as_bytes();
        assert(v@.subrange(0, v@.len() as int) =~= v@);
        match read_unsigned(v, 0, v.len(), 16, 255) {
            Err(e) => Some(noting(Notice::BadByteConstraint(e), FieldEffect::Invalid)),
            Ok(b) => if pos >= c.len() {
                None
            } else if c[pos] as u64 == b {
                Some(quietly(FieldEffect::Push(f.description.clone(), decimal_string(b))))
            } else {
                Some(quietly(FieldEffect::Invalid))
            },
        }
    }
}

fn short_field(f: &Field, c: &[u8], index: usize) -> (r: Option<FieldOutcome>)
    ensures
        outcome_view(r) == short_step(f@, c@, index as nat),
{
    if is_single(f.constraint.as_str(), 'x') {
        let b = match take_bytes(c, f.position, 2) {
            None => return None,
            Some(b) => b,
        };
        let d = trim(f.description.as_str());
        let size: u64 = b[0] as u64 + 256 * b[1] as u64;
        let v = if same_text(d, "Header size,") {
            bytes_string(size)
        } else if same_text(d, "Length,") {
            bytes_string(size * 4)
        } else {
            hex_string(b)
        };
        Some(quietly(FieldEffect::Push(f.description.clone(), v)))
    } else {
        Some(short_constraint_field(f, c, index))
    }
}

/// Whether two byte slices hold the same bytes.
fn same_bytes(a: &[u8], b: &[u8]) -> (r: bool)
    ensures
        r == (a@ == b@),
{
    if a.len() != b.len() {
        return false;
    }
    let mut i: usize = 0;
    while i < a.len()
        invariant
            i <= a@.len(),
            a@.len() == b@.len(),
            forall|k: int| 0 <= k < i ==> a@[k] == b@[k],
        decreases a@.len() - i,
    {
        if a[i] != b[i] {
            return false;
        }
        i = i + 1;
    }
    assert(a@ =~= b@);
    true
}

fn short_constraint_field(f: &Field, c: &[u8], index: usize) -> (o: FieldOutcome)
    ensures
        outcome_view(Some(o)) == Some(short_constraint_step(f@, c@, index as nat)),
{
    let v = f.constraint.as_str().as_bytes();
    let pairs = (v.len() - v.len() / 2) as usize;
    assert(pairs == (v@.len() + 1) / 2);
    match read_hex_pairs(v, 0, pairs) {
        None => noting(Notice::UnpairedConstraint { field: index }, FieldEffect::Invalid),
        Some(Err((off, k))) => noting(Notice::BadHexConstraint { field: index, offset: off, kind: k }, FieldEffect::Invalid),
        Some(Ok(bytes)) => match take_bytes(c, f.position, 2) {
            None => quietly(FieldEffect::Invalid),
            Some(b) => {
                if same_bytes(b, bytes.as_slice()) {
                    quietly(FieldEffect::Push(f.description.clone(), utf8_lossy_string(bytes.as_slice())))
                } else {
                    quietly(FieldEffect::Invalid)
                }
            },
        },
    }
}

fn hex_constraint_field(f: &Field, c: &[u8], index: usize, width: usize) -> (r: Option<FieldOutcome>)
    ensures
        outcome_view(r) == hex_constraint_step(f@, c@, index as nat, width as nat),
{
    let v = f.constraint.as_str().as_bytes();
    let pairs = (v.len() - v.len() / 2) as usize;
    assert(pairs == (v@.len() + 1) / 2);
    match read_hex_pairs(v, 0, pairs) {
        None => None,
        Some(Err((off, k))) => Some(noting(Notice::BadHexConstraint { field: index, offset: off, kind: k }, FieldEffect::Abandon)),
        Some(Ok(bytes)) => match take_bytes(c, f.position, width) {
            None => None,
            Some(b) => {
                if same_bytes(b, bytes.as_slice()) {
                    Some(quietly(FieldEffect::Push(f.description.clone(), utf8_lossy_string(bytes.as_slice()))))
                } else {
                    Some(quietly(FieldEffect::Invalid))
                }
            },
        },
    }
}

fn size_field(disk: &Option<Vec<u8>>, size: u64, f: &Field) -> (o: FieldOutcome)
    requires
        size <= u32::MAX,
    ensures
        outcome_view(Some(o)) == Some(size_step(opt_bytes(*disk), size as nat, f@.description)),
{
    match checked_size(disk, size as usize) {
        Ok(Some(sum)) => noting(Notice::Checksum(sum), FieldEffect::Push(f.description.clone(), bytes_string(size))),
        Ok(None) => noting(Notice::SizeMismatch, FieldEffect::Invalid),
        Err(_) => quietly(FieldEffect::Invalid),
    }
}

fn long_field(disk: &Option<Vec<u8>>, f: &Field, c: &[u8], index: usize) -> (r: Option<FieldOutcome>)
    ensures
        outcome_view(r) == long_step(opt_bytes(*disk), f@, c@, index as nat),
{
    let cons = f.constraint.as_str();
    if is_single(cons, 'x') {
        let b = match take_bytes(c, f.position, 4) {
            None => return None,
            Some(b) => b,
        };
        let d = trim(f.description.as_str());
        let little: u64 = b[0] as u64 + 256 * b[1] as u64 + 65536 * b[2] as u64 + 16777216 * b[3] as u64;
        if same_text(d, "File size,") {
            Some(size_field(disk, little, f))
        } else if same_text(d, "Code size,") {
            if little + 64 > u32::MAX as u64 {
                None
            } else {
                Some(size_field(disk, little + 64, f))
            }
        } else if same_text(d, "Header size,") {
            let big: u64 = b[3] as u64 + 256 * b[2] as u64 + 65536 * b[1] as u64 + 16777216 * b[0] as u64;
            Some(quietly(FieldEffect::Push(f.description.clone(), bytes_string(big))))
        } else {
            Some(quietly(FieldEffect::Push(f.description.clone(), hex_string(b))))
        }
    } else {
        hex_constraint_field(f, c, index, 4)
    }
}

fn field_outcome(disk: &Option<Vec<u8>>, f: &Field, c: &[u8], index: usize) -> (r: Option<FieldOutcome>)
    ensures
        outcome_view(r) == field_step(opt_bytes(*disk), f@, c@, index as nat),
{
    match f.value_type {
        FieldType::Str => str_field(f, c),
        FieldType::Byte => byte_field(f, c),
        FieldType::Short => short_field(f, c, index),
        FieldType::Long => long_field(disk, f, c, index),
        _ => Some(quietly(FieldEffect::Nothing)),
    }
}

/// The spec view of extracted (description, value) pairs.
pub open spec fn pairs_of(v: Seq<(String, String)>) -> Seq<(Seq<char>, Seq<char>)> {
    v.map_values(|p: (String, String)| (p.0@, p.1@))
}

/// The outcome of matching one signature: the extracted (description, value) pairs when
/// it matched, and the notices given on the way.
pub struct SignatureMatch {
    pub matched: Option<Vec<(String, String)>>,
    pub notices: Vec<Notice>,
}

/// The spec view of a signature match.
pub open spec fn match_view(r: Option<SignatureMatch>) -> Option<MatchView> {
    match r {
        None => None,
        Some(m) => Some(
            MatchView {
                matched: match m.matched {
                    None => None,
                    Some(p) => Some(pairs_of(p@)),
                },
                notices: m.notices@,
            },
        ),
    }
}

/// Once a field invalidated or abandoned the match, the fields after it change nothing.
pub proof fn lemma_run_stops(disk: Option<Seq<u8>>, fields: Seq<FieldView>, c: Seq<u8>, k: nat, n: nat)
    requires
        k <= n,
        run_fields(disk, fields, c, k) matches Some(st) ==> (!st.valid || st.abandoned),
    ensures
        run_fields(disk, fields, c, n) == run_fields(disk, fields, c, k),
    decreases n - k,
{
    if n > k {
        lemma_run_stops(disk, fields, c, k, (n - 1) as nat);
    }
}

/// Matches the header `content` against one signature, field by field, as
/// `signature_outcome` says. `disk` is the image file as read from disk (for size
/// checks). `None` where the scan breaks off.
pub fn match_signature(disk: &Option<Vec<u8>>, entry: &Signature, content: &[u8]) -> (r: Option<SignatureMatch>)
    ensures
        match_view(r) == signature_outcome(opt_bytes(*disk), entry@, content@),
{
    let fields = entry.fields();
    let ghost fv = fields_view(fields@);
    let ghost d = opt_bytes(*disk);
    let mut valid = true;
    let mut abandoned = false;
    let mut pairs: Vec<(String, String)> = Vec::new();
    let mut notices: Vec<Notice> = Vec::new();
    let mut i: usize = 0;
    assert(pairs_of(pairs@) =~= Seq::<(Seq<char>, Seq<char>)>::empty());
    assert(notices@ =~= Seq::<Notice>::empty());
    while i < fields.len() && valid && !abandoned
        invariant
            i <= fields@.len(),
            fv == fields_view(fields@),
            fv == entry@,
            d == opt_bytes(*disk),
            run_fields(d, fv, content@, i as nat) == Some(
                RunState { valid, abandoned, pairs: pairs_of(pairs@), notices: notices@ },
            ),
        decreases fields@.len() - i,
    {
        assert(fv[i as int] == fields@[i as int]@);
        match field_outcome(disk, &fields[i], content, i) {
            None => {
                proof { lemma_run_stops(d, fv, content@, (i + 1) as nat, fv.len()); }
                return None;
            },
            Some(out) => {
                let FieldOutcome { notices: more, effect } = out;
                let mut more = more;
                let ghost before = notices@;
                let ghost added = more@;
                notices.append(&mut more);
                match effect {
                    FieldEffect::Push(desc, value) => {
                        let ghost pb = pairs@;
                        pairs.push((desc, value));
                        assert(pairs_of(pairs@) =~= pairs_of(pb).push((desc@, value@)));
                    },
                    FieldEffect::Nothing => {},
                    FieldEffect::Invalid => {
                        valid = false;
                    },
                    FieldEffect::Abandon => {
                        abandoned = true;
                    },
                }
                assert(notices@ == before + added);
            },
        }
        i = i + 1;
    }
    proof {
        if i < fv.len() {
            lemma_run_stops(d, fv, content@, i as nat, fv.len());
        }
    }
    if valid && !abandoned {
        Some(SignatureMatch { matched: Some(pairs), notices })
    } else {
        Some(SignatureMatch { matched: None, notices })
    }
}

/// Notices, each with the index of the signature that gave it.
pub open spec fn tagged(k: usize, n: Seq<Notice>) -> Seq<(usize, Notice)> {
    n.map_values(|x: Notice| (k, x))
}

/// What a scan against several signatures gives.
pub struct ScanView {
    pub matches: Seq<Seq<(Seq<char>, Seq<char>)>>,
    pub notices: Seq<(usize, Notice)>,
}

/// Scanning against the first `k` signatures, in order: the pairs of each one that
/// matched, and the notices of all of them. `None` where the scan breaks off.
pub open spec fn scan(disk: Option<Seq<u8>>, sigs: Seq<Seq<FieldView>>, c: Seq<u8>, k: nat) -> Option<ScanView>
    decreases k,
{
    if k == 0 {
        Some(ScanView { matches: Seq::empty(), notices: Seq::empty() })
    } else {
        match scan(disk, sigs, c, (k - 1) as nat) {
            None => None,
            Some(sv) => match signature_outcome(disk, sigs[k - 1], c) {
                None => None,
                Some(m) => Some(
                    ScanView {
                        matches: match m.matched {
                            Some(p) => sv.matches.push(p),
                            None => sv.matches,
                        },
                        notices: sv.notices + tagged((k - 1) as usize, m.notices),
                    },
                ),
            },
        }
    }
}

/// The result of checking an image against all signatures.
pub struct ScanReport {
    /// For every signature that matched, in order, its (description, value) pairs.
    pub matches: Vec<Vec<(String, String)>>,
    /// What was reported on the way, each with the index of its signature.
    pub notices: Vec<(usize, Notice)>,
}

/// The spec view of a verification.
pub open spec fn report_view(r: Option<ScanReport>) -> Option<ScanView> {
    match r {
        None => None,
        Some(v) => Some(
            ScanView {
                matches: v.matches@.map_values(|m: Vec<(String, String)>| pairs_of(m@)),
                notices: v.notices@,
            },
        ),
    }
}

proof fn lemma_scan_stops(disk: Option<Seq<u8>>, sigs: Seq<Seq<FieldView>>, c: Seq<u8>, k: nat, n: nat)
    requires
        k <= n,
        scan(disk, sigs, c, k) is None,
    ensures
        scan(disk, sigs, c, n) is None,
    decreases n - k,
{
    if n > k {
        lemma_scan_stops(disk, sigs, c, k, (n - 1) as nat);
    }
}

/// Checks the image header `contents` against every signature, in order, as `scan`
/// says; `disk` is the image file as read from disk. `None` where the scan breaks off.
pub fn verify_file(disk: &Option<Vec<u8>>, contents: &[u8], signatures: &Vec<Signature>) -> (r: Option<ScanReport>)
    ensures
        report_view(r) == scan(opt_bytes(*disk), signatures@.map_values(|s: Signature| s@), contents@, signatures@.len() as nat),
{
    let ghost sv = signatures@.map_values(|s: Signature| s@);
    let ghost d = opt_bytes(*disk);
    let mut matches: Vec<Vec<(String, String)>> = Vec::new();
    let mut notices: Vec<(usize, Notice)> = Vec::new();
    let mut i: usize = 0;
    assert(matches@.map_values(|m: Vec<(String, String)>| pairs_of(m@)) =~= Seq::<Seq<(Seq<char>, Seq<char>)>>::empty());
    assert(notices@ =~= Seq::<(usize, Notice)>::empty());
    while i < signatures.len()
        invariant
            i <= signatures@.len(),
            sv == signatures@.map_values(|s: Signature| s@),
            d == opt_bytes(*disk),
            scan(d, sv, contents@, i as nat) == Some(
                ScanView { matches: matches@.map_values(|m: Vec<(String, String)>| pairs_of(m@)), notices: notices@ },
            ),
        decreases signatures@.len() - i,
    {
        assert(sv[i as int] == signatures@[i as int]@);
        match match_signature(disk, &signatures[i], contents) {
            None => {
                proof { lemma_scan_stops(d, sv, contents@, (i + 1) as nat, sv.len()); }
                return None;
            },
            Some(m) => {
                let SignatureMatch { matched, notices: found } = m;
                let ghost nb = notices@;
                let mut j: usize = 0;
                while j < found.len()
                    invariant
                        j <= found@.len(),
                        notices@ == nb + tagged(i, found@.subrange(0, j as int)),
                    decreases found@.len() - j,
                {
                    notices.push((i, found[j]));
                    assert(tagged(i, found@.subrange(0, j + 1)) =~= tagged(i, found@.subrange(0, j as int)).push((i, found@[j as int])));
                    j = j + 1;
                }
                assert(found@.subrange(0, found@.len() as int) =~= found@);
                match matched {
                    Some(p) => {
                        let ghost mb = matches@;
                        matches.push(p);
                        assert(matches@.map_values(|m: Vec<(String, String)>| pairs_of(m@)) =~= mb.map_values(|m: Vec<(String, String)>| pairs_of(m@)).push(pairs_of(p@)));
                    },
                    None => {},
                }
            },
        }
        i = i + 1;
    }
    Some(ScanReport { matches, notices })
}

} // verus!
