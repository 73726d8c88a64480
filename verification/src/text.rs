//! Byte-level reading of text: integer fields in the manner of std's
//! `from_str_radix`, character boundaries, and runs of two-digit hex pairs.
use vstd::prelude::*;
use vstd::utf8::is_continuation_byte;

verus! {

/// Why a digit string did not give a number (the kinds std's integer parsing reports).
#[derive(Debug, Clone, Copy, PartialEq, Eq, Structural)]
pub enum IntErrorKind {
    Empty,
    InvalidDigit,
    PosOverflow,
    NegOverflow,
}

/// The error of a failed integer read.
#[derive(Debug, Clone, Copy, PartialEq, Eq, Structural)]
pub struct ParseIntError {
    pub kind: IntErrorKind,
}

/// Value of byte `b` as a digit in base `radix` (`char::to_digit`), if it is one.
pub open spec fn digit_value(b: u8, radix: nat) -> Option<nat> {
    let v: int = if 48 <= b <= 57 {
        b - 48
    } else if 97 <= b <= 122 {
        b - 97 + 10
    } else if 65 <= b <= 90 {
        b - 65 + 10
    } else {
        radix as int
    };
    if v < radix {
        Some(v as nat)
    } else {
        None
    }
}

/// Reads the digits of `d` left to right; the first position that holds no digit, or at
/// which the value passes `max`, decides the error (a bad digit is reported first).
pub open spec fn digits_value(d: Seq<u8>, radix: nat, max: nat, overflow: IntErrorKind) -> Result<
    nat,
    IntErrorKind,
>
    decreases d.len(),
{
    if d.len() == 0 {
        Ok(0)
    } else {
        match digits_value(d.drop_last(), radix, max, overflow) {
            Err(e) => Err(e),
            Ok(v) => match digit_value(d.last(), radix) {
                None => Err(IntErrorKind::InvalidDigit),
                Some(x) => if v * radix + x > max {
                    Err(overflow)
                } else {
                    Ok(v * radix + x)
                },
            },
        }
    }
}

/// `from_str_radix` for an unsigned type whose largest value is `max`:
/// an optional `+`, then at least one digit.
pub open spec fn parse_unsigned(s: Seq<u8>, radix: nat, max: nat) -> Result<nat, IntErrorKind> {
    if s.len() == 0 {
        Err(IntErrorKind::Empty)
    } else if (s[0] == 43 || s[0] == 45) && s.len() == 1 {
        Err(IntErrorKind::InvalidDigit)
    } else if s[0] == 43 {
        digits_value(s.drop_first(), radix, max, IntErrorKind::PosOverflow)
    } else {
        digits_value(s, radix, max, IntErrorKind::PosOverflow)
    }
}

/// `str::parse::<i32>`: an optional sign, then at least one decimal digit.
pub open spec fn parse_i32_spec(s: Seq<u8>) -> Result<int, IntErrorKind> {
    if s.len() == 0 {
        Err(IntErrorKind::Empty)
    } else if (s[0] == 43 || s[0] == 45) && s.len() == 1 {
        Err(IntErrorKind::InvalidDigit)
    } else if s[0] == 43 {
        match digits_value(s.drop_first(), 10, 0x7fff_ffff, IntErrorKind::PosOverflow) {
            Ok(v) => Ok(v as int),
            Err(e) => Err(e),
        }
    } else if s[0] == 45 {
        match digits_value(s.drop_first(), 10, 0x8000_0000, IntErrorKind::NegOverflow) {
            Ok(v) => Ok(-v),
            Err(e) => Err(e),
        }
    } else {
        match digits_value(s, 10, 0x7fff_ffff, IntErrorKind::PosOverflow) {
            Ok(v) => Ok(v as int),
            Err(e) => Err(e),
        }
    }
}

/// All bytes are ASCII.
pub open spec fn ascii(s: Seq<u8>) -> bool {
    forall|i: int| 0 <= i < s.len() ==> s[i] < 0x80
}

/// Widens a machine result to the mathematical one.
pub open spec fn nat_result(r: Result<u64, IntErrorKind>) -> Result<nat, IntErrorKind> {
    match r {
        Ok(v) => Ok(v as nat),
        Err(e) => Err(e),
    }
}

/// A byte slice of text may start or end at `i`: inside the text, and not inside the
/// encoding of a character. On valid UTF-8 this is `str::is_char_boundary`.
pub open spec fn at_boundary(s: Seq<u8>, i: int) -> bool {
    0 <= i <= s.len() && (i == s.len() || !is_continuation_byte(s[i]))
}

/// Taking `s[a..b]` of a `str` does not panic.
pub open spec fn slice_ok(s: Seq<u8>, a: int, b: int) -> bool {
    a <= b && at_boundary(s, a) && at_boundary(s, b)
}

/// Reading `s[a..b]` as a hex number no larger than `max`; `None` where the slice panics.
pub open spec fn hex_field(s: Seq<u8>, a: int, b: int, max: nat) -> Option<Result<nat, IntErrorKind>> {
    if slice_ok(s, a, b) {
        Some(parse_unsigned(s.subrange(a, b), 16, max))
    } else {
        None
    }
}

/// Reading `n` bytes written as two hex digits each, from offset `start` on, in order.
/// `None` where a slice panics; on failure the error carries the offset of the pair.
pub open spec fn hex_pairs(s: Seq<u8>, start: int, n: nat) -> Option<Result<Seq<u8>, (int, IntErrorKind)>>
    decreases n,
{
    if n == 0 {
        Some(Ok(Seq::empty()))
    } else {
        match hex_pairs(s, start, (n - 1) as nat) {
            Some(Ok(prefix)) => {
                let at = start + 2 * (n - 1);
                match hex_field(s, at, at + 2, 255) {
                    None => None,
                    Some(Err(e)) => Some(Err((at, e))),
                    Some(Ok(b)) => Some(Ok(prefix.push(b as u8))),
                }
            },
            other => other,
        }
    }
}

/// The spec view of an exec pair-reading result.
pub open spec fn pairs_view(r: Option<Result<Vec<u8>, (usize, IntErrorKind)>>) -> Option<
    Result<Seq<u8>, (int, IntErrorKind)>,
> {
    match r {
        None => None,
        Some(Ok(v)) => Some(Ok(v@)),
        Some(Err((i, k))) => Some(Err((i as int, k))),
    }
}

/// `char::to_digit` on a byte.
pub fn digit_of(b: u8, radix: u32) -> (r: Option<u32>)
    requires
        2 <= radix <= 36,
    ensures
        match r {
            Some(x) => digit_value(b, radix as nat) == Some(x as nat),
            None => digit_value(b, radix as nat).is_none(),
        },
{
    let v: u32 = if 48 <= b && b <= 57 {
        (b - 48) as u32
    } else if 97 <= b && b <= 122 {
        (b - 97 + 10) as u32
    } else if 65 <= b && b <= 90 {
        (b - 65 + 10) as u32
    } else {
        radix
    };
    if v < radix {
        Some(v)
    } else {
        None
    }
}

/// Reads the digits `s[start..end]` (no sign) as `digits_value` does.
pub fn read_digits(s: &[u8], start: usize, end: usize, radix: u32, max: u64, overflow: IntErrorKind) -> (r: Result<u64, IntErrorKind>)
    requires
        start <= end <= s@.len(),
        2 <= radix <= 36,
    ensures
        nat_result(r) == digits_value(s@.subrange(start as int, end as int), radix as nat, max as nat, overflow),
        r matches Ok(v) ==> v <= max,
{
    let mut v: u64 = 0;
    let mut i = start;
    assert(s@.subrange(start as int, start as int) =~= Seq::<u8>::empty());
    while i < end
        invariant
            start <= i <= end <= s@.len(),
            2 <= radix <= 36,
            v <= max,
            digits_value(s@.subrange(start as int, i as int), radix as nat, max as nat, overflow) == Ok::<nat, IntErrorKind>(v as nat),
        decreases end - i,
    {
        let ghost d = s@.subrange(start as int, i + 1);
        assert(d.drop_last() =~= s@.subrange(start as int, i as int));
        assert(d.last() == s@[i as int]);
        match digit_of(s[i], radix) {
            None => {
                proof { lemma_digits_error_extends(s@, start as int, i + 1, end as int, radix as nat, max as nat, overflow); }
                return Err(IntErrorKind::InvalidDigit);
            },
            Some(x) => {
                assert(v as int * radix as int <= 0xffff_ffff_ffff_ffff * 36) by (nonlinear_arith)
                    requires v <= 0xffff_ffff_ffff_ffffu64, radix <= 36;
                let w: u128 = v as u128 * radix as u128 + x as u128;
                if w > max as u128 {
                    proof { lemma_digits_error_extends(s@, start as int, i + 1, end as int, radix as nat, max as nat, overflow); }
                    return Err(overflow);
                }
                v = w as u64;
            },
        }
        i = i + 1;
    }
    (Ok(v))
}

/// A failure on a prefix of a digit string is the failure of the whole string.
pub proof fn lemma_digits_error_extends(s: Seq<u8>, start: int, mid: int, end: int, radix: nat, max: nat, overflow: IntErrorKind)
    requires
        0 <= start <= mid <= end <= s.len(),
        digits_value(s.subrange(start, mid), radix, max, overflow) is Err,
    ensures
        digits_value(s.subrange(start, end), radix, max, overflow) == digits_value(s.subrange(start, mid), radix, max, overflow),
    decreases end - mid,
{
    if end > mid {
        lemma_digits_error_extends(s, start, mid, end - 1, radix, max, overflow);
        assert(s.subrange(start, end).drop_last() =~= s.subrange(start, end - 1));
    }
}

/// `from_str_radix` for an unsigned type whose largest value is `max`, on `s[start..end]`.
pub fn read_unsigned(s: &[u8], start: usize, end: usize, radix: u32, max: u64) -> (r: Result<u64, IntErrorKind>)
    requires
        start <= end <= s@.len(),
        2 <= radix <= 36,
    ensures
        nat_result(r) == parse_unsigned(s@.subrange(start as int, end as int), radix as nat, max as nat),
        r matches Ok(v) ==> v <= max,
{
    let ghost t = s@.subrange(start as int, end as int);
    if start == end {
        return Err(IntErrorKind::Empty);
    }
    let first = s[start];
    if (first == 43 || first == 45) && end - start == 1 {
        return Err(IntErrorKind::InvalidDigit);
    }
    if first == 43 {
        assert(t.drop_first() =~= s@.subrange(start + 1, end as int));
        read_digits(s, start + 1, end, radix, max, IntErrorKind::PosOverflow)
    } else {
        read_digits(s, start, end, radix, max, IntErrorKind::PosOverflow)
    }
}

/// `str::parse::<i32>` on the bytes `s`.
pub fn read_i32(s: &[u8]) -> (r: Result<i32, IntErrorKind>)
    ensures
        match r {
            Ok(v) => parse_i32_spec(s@) == Ok::<int, IntErrorKind>(v as int),
            Err(e) => parse_i32_spec(s@) == Err::<int, IntErrorKind>(e),
        },
{
    let n = s.len();
    if n == 0 {
        return Err(IntErrorKind::Empty);
    }
    let first = s[0];
    if (first == 43 || first == 45) && n == 1 {
        return Err(IntErrorKind::InvalidDigit);
    }
    assert(s@.drop_first() =~= s@.subrange(1, n as int));
    assert(s@ =~= s@.subrange(0, n as int));
    if first == 43 {
        match read_digits(s, 1, n, 10, 0x7fff_ffff, IntErrorKind::PosOverflow) {
            Ok(v) => Ok(v as i32),
            Err(e) => Err(e),
        }
    } else if first == 45 {
        match read_digits(s, 1, n, 10, 0x8000_0000, IntErrorKind::NegOverflow) {
            Ok(v) => {
                let w: i64 = 0i64 - (v as i64);
                Ok(w as i32)
            },
            Err(e) => Err(e),
        }
    } else {
        match read_digits(s, 0, n, 10, 0x7fff_ffff, IntErrorKind::PosOverflow) {
            Ok(v) => Ok(v as i32),
            Err(e) => Err(e),
        }
    }
}

/// Whether `s[a..b]` could be taken from a `str` without a panic.
pub fn check_slice(s: &[u8], a: usize, b: usize) -> (r: bool)
    ensures
        r == slice_ok(s@, a as int, b as int),
{
    if a > b || b > s.len() {
        return false;
    }
    let a_ok = a == s.len() || !(0x80 <= s[a] && s[a] <= 0xbf);
    let b_ok = b == s.len() || !(0x80 <= s[b] && s[b] <= 0xbf);
    a_ok && b_ok
}

/// Reads `n` two-digit hex bytes from `start` on, as `hex_pairs` says.
pub fn read_hex_pairs(s: &[u8], start: usize, n: usize) -> (r: Option<Result<Vec<u8>, (usize, IntErrorKind)>>)
    ensures
        pairs_view(r) == hex_pairs(s@, start as int, n as nat),
{
    let mut out: Vec<u8> = Vec::new();
    let mut k: usize = 0;
    let mut pos: usize = start;
    while k < n
        invariant
            k <= n,
            pos == start + 2 * k,
            hex_pairs(s@, start as int, k as nat) == Some(Ok::<Seq<u8>, (int, IntErrorKind)>(out@)),
            k > 0 ==> pos <= s@.len(),
        decreases n - k,
    {
        if pos > s.len() || s.len() - pos < 2 {
            // the slice `s[pos..pos + 2]` ends past the text
            proof { lemma_pairs_stop(s@, start as int, (k + 1) as nat, n as nat); }
            return None;
        }
        let end = pos + 2;
        if !check_slice(s, pos, end) {
            proof { lemma_pairs_stop(s@, start as int, (k + 1) as nat, n as nat); }
            return None;
        }
        match read_unsigned(s, pos, end, 16, 255) {
            Err(e) => {
                proof { lemma_pairs_stop(s@, start as int, (k + 1) as nat, n as nat); }
                return Some(Err((pos, e)));
            },
            Ok(b) => {
                out.push(b as u8);
            },
        }
        k = k + 1;
        pos = end;
    }
    Some(Ok(out))
}

/// Once reading pairs stops with a panic or an error, reading more pairs stops the same way.
pub proof fn lemma_pairs_stop(s: Seq<u8>, start: int, k: nat, n: nat)
    requires
        k <= n,
        !(hex_pairs(s, start, k) is Some && hex_pairs(s, start, k)->0 is Ok),
    ensures
        hex_pairs(s, start, n) == hex_pairs(s, start, k),
    decreases n - k,
{
    if n > k {
        lemma_pairs_stop(s, start, k, (n - 1) as nat);
    }
}

} // verus!
