//! Recognising inputs that are not a raw binary blob.
use vstd::prelude::*;

verus! {

/// The contents begin with the marker of a known container or text encoding:
/// Intel HEX (`:`), Motorola S-record (`S1`, `S2`, `S3`), gzip (`1F 8B`) or zip (`PK`).
pub open spec fn has_encoding_marker(c: Seq<u8>) -> bool {
    ||| c.len() >= 1 && c[0] == 0x3a
    ||| c.len() >= 2 && c[0] == 0x53 && (c[1] == 0x31 || c[1] == 0x32 || c[1] == 0x33)
    ||| c.len() >= 2 && c[0] == 0x1f && c[1] == 0x8b
    ||| c.len() >= 2 && c[0] == 0x50 && c[1] == 0x4b
}

/// Whether the contents are taken to be a raw binary blob: true exactly when they carry
/// none of the markers of `has_encoding_marker`.
pub fn is_binary_blob(contents: &[u8]) -> (r: bool)
    ensures
        r == !has_encoding_marker(contents@),
{
    let n = contents.len();
    if n >= 1 && contents[0] == 0x3a {
        return false;
    }
    if n >= 2 && contents[0] == 0x53 && (contents[1] == 0x31 || contents[1] == 0x32 || contents[1] == 0x33) {
        return false;
    }
    if n >= 2 && contents[0] == 0x1f && contents[1] == 0x8b {
        return false;
    }
    if n >= 2 && contents[0] == 0x50 && contents[1] == 0x4b {
        return false;
    }
    true
}

} // verus!
