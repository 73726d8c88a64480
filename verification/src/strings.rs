//! Character-level text helpers: whitespace trimming, comparison, search, and the
//! decimal and hex renderings of numbers.
use vstd::prelude::*;
use vstd::string::{StrSliceExecFns, StringSliceAdditionalSpecFns};
use vstd::utf8::{encode_utf8, encode_utf8_decode_utf8};
use crate::unicode::push_char;

verus! {

/// `char::is_whitespace`: the characters with the Unicode White_Space property.
pub open spec fn is_white_space(c: char) -> bool {
    let u = c as u32;
    ||| 0x09 <= u <= 0x0d
    ||| u == 0x20
    ||| u == 0x85
    ||| u == 0xa0
    ||| u == 0x1680
    ||| 0x2000 <= u <= 0x200a
    ||| u == 0x2028
    ||| u == 0x2029
    ||| u == 0x202f
    ||| u == 0x205f
    ||| u == 0x3000
}

/// `s` without leading white space.
pub open spec fn trim_start_ws(s: Seq<char>) -> Seq<char>
    decreases s.len(),
{
    if s.len() > 0 && is_white_space(s[0]) {
        trim_start_ws(s.drop_first())
    } else {
        s
    }
}

/// `s` without trailing white space.
pub open spec fn trim_end_ws(s: Seq<char>) -> Seq<char>
    decreases s.len(),
{
    if s.len() > 0 && is_white_space(s.last()) {
        trim_end_ws(s.drop_last())
    } else {
        s
    }
}

/// `str::trim`.
pub open spec fn trim_ws(s: Seq<char>) -> Seq<char> {
    trim_end_ws(trim_start_ws(s))
}

/// `p` occurs in `s` at offset `i`.
pub open spec fn occurs_at(s: Seq<char>, p: Seq<char>, i: int) -> bool {
    0 <= i && i + p.len() <= s.len() && s.subrange(i, i + p.len()) == p
}

/// `str::contains` with a text pattern.
pub open spec fn contains_text(s: Seq<char>, p: Seq<char>) -> bool {
    exists|i: int| occurs_at(s, p, i)
}

/// The character of decimal digit `d`.
pub open spec fn digit_char(d: nat) -> char {
    (48 + d) as char
}

/// The decimal rendering of `n` (`format!("{}", n)`).
pub open spec fn decimal(n: nat) -> Seq<char>
    decreases n,
{
    if n < 10 {
        seq![digit_char(n)]
    } else {
        decimal(n / 10).push(digit_char(n % 10))
    }
}

/// The character of hex digit `d` in upper case.
pub open spec fn hex_digit_char(d: nat) -> char {
    if d < 10 {
        (48 + d) as char
    } else {
        (55 + d) as char
    }
}

/// A byte as two upper-case hex digits (`format!("{:02X}", b)`).
pub open spec fn hex_byte(b: u8) -> Seq<char> {
    seq![hex_digit_char((b / 16) as nat), hex_digit_char((b % 16) as nat)]
}

/// Bytes as two-digit upper-case hex, separated by single spaces.
pub open spec fn hex_join(bs: Seq<u8>) -> Seq<char>
    decreases bs.len(),
{
    if bs.len() == 0 {
        Seq::empty()
    } else if bs.len() == 1 {
        hex_byte(bs[0])
    } else {
        hex_join(bs.drop_last()) + seq![' '] + hex_byte(bs.last())
    }
}

/// Whether `c` is white space.
pub fn white_space(c: char) -> (r: bool)
    ensures
        r == is_white_space(c),
{
    let u = c as u32;
    (0x09 <= u && u <= 0x0d) || u == 0x20 || u == 0x85 || u == 0xa0 || u == 0x1680 || (0x2000 <= u
        && u <= 0x200a) || u == 0x2028 || u == 0x2029 || u == 0x202f || u == 0x205f || u == 0x3000
}

/// `str::trim`: the text without leading and trailing white space.
pub fn trim<'a>(s: &'a str) -> (r: &'a str)
    ensures
        r@ == trim_ws(s@),
{
    let n = s.unicode_len();
    let mut i: usize = 0;
    assert(s@.subrange(0, n as int) =~= s@);
    while i < n && white_space(s.get_char(i))
        invariant
            i <= n,
            n == s@.len(),
            trim_start_ws(s@) == trim_start_ws(s@.subrange(i as int, n as int)),
        decreases n - i,
    {
        assert(s@.subrange(i as int, n as int).drop_first() =~= s@.subrange(i + 1, n as int));
        i = i + 1;
    }
    let mut j: usize = n;
    while j > i && white_space(s.get_char(j - 1))
        invariant
            i <= j <= n,
            n == s@.len(),
            trim_start_ws(s@) == s@.subrange(i as int, n as int),
            trim_end_ws(s@.subrange(i as int, n as int)) == trim_end_ws(s@.subrange(i as int, j as int)),
        decreases j,
    {
        assert(s@.subrange(i as int, j as int).drop_last() =~= s@.subrange(i as int, j - 1));
        j = j - 1;
    }
    s.substring_char(i, j)
}

/// Text equality, comparing the UTF-8 bytes as `str`'s `==` does.
pub fn same_text(a: &str, b: &str) -> (r: bool)
    ensures
        r == (a@ == b@),
{
    let x = a.as_bytes();
    let y = b.as_bytes();
    assert(x@ == a.spec_bytes());
    assert(y@ == b.spec_bytes());
    assert(x@ == encode_utf8(a@));
    assert(y@ == encode_utf8(b@));
    proof {
        encode_utf8_decode_utf8(a@);
        encode_utf8_decode_utf8(b@);
    }
    if x.len() != y.len() {
        return false;
    }
    let mut i: usize = 0;
    while i < x.len()
        invariant
            i <= x@.len(),
            x@.len() == y@.len(),
            x@ == encode_utf8(a@),
            y@ == encode_utf8(b@),
            forall|k: int| 0 <= k < i ==> x@[k] == y@[k],
        decreases x@.len() - i,
    {
        if x[i] != y[i] {
            assert(x@ != y@);
            assert(a@ != b@) by {
                if a@ == b@ {
                    assert(encode_utf8(a@) == encode_utf8(b@));
                }
            }
            return false;
        }
        i = i + 1;
    }
    assert(x@ =~= y@);
    true
}

/// Whether the text is exactly the one character `c`.
pub fn is_single(s: &str, c: char) -> (r: bool)
    ensures
        r == (s@ == seq![c]),
{
    let n = s.unicode_len();
    if n != 1 {
        return false;
    }
    let r = s.get_char(0) == c;
    assert(r ==> s@ =~= seq![c]);
    r
}

/// `str::contains` with a text pattern.
pub fn contains(s: &str, p: &str) -> (r: bool)
    ensures
        r == contains_text(s@, p@),
{
    let n = s.unicode_len();
    let m = p.unicode_len();
    if m > n {
        assert forall|i: int| !occurs_at(s@, p@, i) by {}
        return false;
    }
    let mut i: usize = 0;
    while i <= n - m
        invariant
            m <= n,
            n == s@.len(),
            m == p@.len(),
            i <= n - m + 1,
            forall|k: int| 0 <= k < i ==> !occurs_at(s@, p@, k),
        decreases n - m + 1 - i,
    {
        let mut k: usize = 0;
        while k < m && s.get_char(i + k) == p.get_char(k)
            invariant
                k <= m,
                i + m <= n,
                n == s@.len(),
                m == p@.len(),
                forall|t: int| 0 <= t < k ==> s@[i + t] == p@[t],
            decreases m - k,
        {
            k = k + 1;
        }
        if k == m {
            assert(s@.subrange(i as int, i + m) =~= p@);
            assert(occurs_at(s@, p@, i as int));
            return true;
        }
        assert(!occurs_at(s@, p@, i as int)) by {
            if s@.subrange(i as int, i + m) == p@ {
                assert(s@.subrange(i as int, i + m)[k as int] == s@[i + k]);
            }
        }
        i = i + 1;
    }
    assert forall|t: int| !occurs_at(s@, p@, t) by {
        if 0 <= t && t + m <= n {
            assert(t < i);
        }
    }
    false
}

fn digit(d: u64) -> (c: char)
    requires
        d < 10,
    ensures
        c == digit_char(d as nat),
{
    let c: u8 = 48 + d as u8;
    c as char
}

/// Appends the decimal rendering of `n`.
pub fn push_decimal(s: &mut String, n: u64)
    ensures
        final(s)@ == old(s)@ + decimal(n as nat),
    decreases n,
{
    if n >= 10 {
        push_decimal(s, n / 10);
        push_char(s, digit(n % 10));
        assert(final(s)@ =~= old(s)@ + decimal(n as nat));
    } else {
        push_char(s, digit(n));
        assert(final(s)@ =~= old(s)@ + decimal(n as nat));
    }
}

fn hex_digit(d: u8) -> (c: char)
    requires
        d < 16,
    ensures
        c == hex_digit_char(d as nat),
{
    let c: u8 = if d < 10 {
        48 + d
    } else {
        55 + d
    };
    c as char
}

/// Appends the bytes as space-separated upper-case hex pairs.
pub fn push_hex_join(s: &mut String, bs: &[u8])
    ensures
        final(s)@ == old(s)@ + hex_join(bs@),
{
    let mut i: usize = 0;
    assert(bs@.subrange(0, 0) =~= Seq::<u8>::empty());
    assert(s@ =~= old(s)@ + hex_join(Seq::<u8>::empty()));
    while i < bs.len()
        invariant
            i <= bs@.len(),
            s@ == old(s)@ + hex_join(bs@.subrange(0, i as int)),
        decreases bs@.len() - i,
    {
        let ghost before = s@;
        if i > 0 {
            push_char(s, ' ');
        }
        let b = bs[i];
        push_char(s, hex_digit(b / 16));
        push_char(s, hex_digit(b % 16));
        proof {
            let t = bs@.subrange(0, i + 1);
            assert(t.drop_last() =~= bs@.subrange(0, i as int));
            assert(t.last() == b);
            if i == 0 {
                assert(t =~= seq![b]);
            }
            assert(s@ =~= old(s)@ + hex_join(t));
        }
        i = i + 1;
    }
    assert(bs@.subrange(0, bs@.len() as int) =~= bs@);
}

/// Appends a text.
pub fn push_text(s: &mut String, t: &str)
    ensures
        final(s)@ == old(s)@ + t@,
{
    let n = t.unicode_len();
    let mut i: usize = 0;
    while i < n
        invariant
            i <= n,
            n == t@.len(),
            s@ == old(s)@ + t@.subrange(0, i as int),
        decreases n - i,
    {
        push_char(s, t.get_char(i));
        assert(t@.subrange(0, i + 1) =~= t@.subrange(0, i as int).push(t@[i as int]));
        i = i + 1;
    }
    assert(t@.subrange(0, n as int) =~= t@);
}

} // verus!
