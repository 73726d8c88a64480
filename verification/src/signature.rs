//! Vendor header signatures: their fields, and reading them from the lines of a
//! signature definition file.
use vstd::prelude::*;
use vstd::string::StrSliceExecFns;
use vstd::utf8::encode_utf8;
use crate::strings::{is_white_space, same_text, trim, trim_ws};
use crate::text::{parse_unsigned, read_unsigned};

verus! {

/// How a field of a signature is read from the image.
#[derive(Debug, Clone, Copy, PartialEq, Eq, Structural)]
pub enum FieldType {
    Str,
    Date,
    Regex,
    Byte,
    Short,
    Long,
    Default,
}

/// One field of a signature: where it is (`position`), how it is read (`value_type`),
/// what it must hold (`constraint`, `x` for "any value, just show it") and how it is
/// shown (`description`).
#[derive(Debug, Clone)]
pub struct Field {
    pub position: usize,
    pub value_type: FieldType,
    pub constraint: String,
    pub description: String,
}

/// The mathematical value of a field.
pub struct FieldView {
    pub position: nat,
    pub value_type: FieldType,
    pub constraint: Seq<char>,
    pub description: Seq<char>,
}

impl View for Field {
    type V = FieldView;

    open spec fn view(&self) -> FieldView {
        FieldView {
            position: self.position as nat,
            value_type: self.value_type,
            constraint: self.constraint@,
            description: self.description@,
        }
    }
}

/// The field that a definition line starts from: position 0, no type, and `Unknown`
/// as constraint and description.
pub open spec fn default_field() -> FieldView {
    FieldView {
        position: 0,
        value_type: FieldType::Default,
        constraint: "Unknown"@,
        description: "Unknown"@,
    }
}

impl Default for Field {
    fn default() -> (f: Self)
        ensures
            f@ == default_field(),
    {
        Field {
            position: 0,
            value_type: FieldType::Default,
            constraint: "Unknown".to_owned(),
            description: "Unknown".to_owned(),
        }
    }
}

/// The views of a sequence of fields.
pub open spec fn fields_view(fields: Seq<Field>) -> Seq<FieldView> {
    fields.map_values(|f: Field| f@)
}

/// A vendor header signature: fields that an image header must match, in order.
#[derive(Debug)]
pub struct Signature {
    fields: Vec<Field>,
}

impl View for Signature {
    type V = Seq<FieldView>;

    closed spec fn view(&self) -> Seq<FieldView> {
        fields_view(self.fields@)
    }
}

impl Signature {
    /// A signature with the given fields.
    pub fn new(fields: Vec<Field>) -> (s: Self)
        ensures
            s@ == fields_view(fields@),
    {
        Signature { fields }
    }

    /// The fields, in order.
    pub fn fields(&self) -> (f: &Vec<Field>)
        ensures
            fields_view(f@) == self@,
    {
        &self.fields
    }
}

/// The views of a sequence of signatures.
pub open spec fn signatures_view(s: Seq<Signature>) -> Seq<Seq<FieldView>> {
    s.map_values(|g: Signature| g@)
}

/// The views of a sequence of strings.
pub open spec fn strings_view(s: Seq<String>) -> Seq<Seq<char>> {
    s.map_values(|t: String| t@)
}

/// What regex's `Regex::new(pattern)` and `captures(haystack)` give as capture group
/// `group` (`None` when the pattern does not compile, does not match, or the group
/// took no part in the match).
pub uninterp spec fn regex_capture(pattern: Seq<char>, haystack: Seq<char>, group: int) -> Option<Seq<char>>;

/// What regex's `Regex::new(pattern)` and `splitn(text, limit)` give (nothing when the
/// pattern does not compile).
pub uninterp spec fn regex_split(pattern: Seq<char>, text: Seq<char>, limit: int) -> Seq<Seq<char>>;

/// Some characters, all ASCII decimal digits.
pub open spec fn ascii_digits(s: Seq<char>) -> bool {
    s.len() > 0 && forall|k: int| 0 <= k < s.len() ==> '0' <= #[trigger] s[k] <= '9'
}

/// The text is `>`, then white space (maybe none), then ASCII decimal digits to its end.
pub open spec fn gt_digits_shape(h: Seq<char>) -> bool {
    h.len() > 0 && h[0] == '>' && ascii_digits(h.subrange(skip_white(h, 1), h.len() as int))
}

/// What the pattern `>\s*(\d+)` captures as group 1 in `h`: on a text of the shape
/// `gt_digits_shape` the digits after the `>` and the white space; on any other text, what
/// regex finds (`regex_capture`).
pub open spec fn position_capture(h: Seq<char>) -> Option<Seq<char>> {
    if gt_digits_shape(h) {
        Some(h.subrange(skip_white(h, 1), h.len() as int))
    } else {
        regex_capture(">\\s*(\\d+)"@, h, 1)
    }
}

/// regex: `Regex::new(pattern)`, `captures(haystack)` and `get(group)`, as text. The
/// contract names the result (`regex_capture`); which text matches is left to regex,
/// except that for the pattern `>\s*(\d+)` on a text of the shape `gt_digits_shape` group 1
/// is the digits: the one match starts at the `>` (no other character is one), `\s*`
/// takes the white space and the greedy `\d+` all the digits to the end.
#[verifier::external_body]
pub(crate) fn capture_group(pattern: &str, haystack: &str, group: usize) -> (r: Option<String>)
    ensures
        match r {
            Some(t) => regex_capture(pattern@, haystack@, group as int) == Some(t@),
            None => regex_capture(pattern@, haystack@, group as int) is None,
        },
        pattern@ == ">\\s*(\\d+)"@ && group == 1 ==> match r {
            Some(t) => position_capture(haystack@) == Some(t@),
            None => position_capture(haystack@) is None,
        },
{
    match regex::Regex::new(pattern) {
        Ok(re) => re.captures(haystack).and_then(|c| c.get(group)).map(|m| m.as_str().to_string()),
        Err(_) => None,
    }
}

/// Offset of the first white-space character of `t` at or after `from`, or the length.
pub open spec fn next_white(t: Seq<char>, from: int) -> int
    decreases t.len() - from,
{
    if from < 0 || from >= t.len() {
        t.len() as int
    } else if is_white_space(t[from]) {
        from
    } else {
        next_white(t, from + 1)
    }
}

/// Offset of the first character of `t` at or after `from` that is not white space, or
/// the length.
pub open spec fn skip_white(t: Seq<char>, from: int) -> int
    decreases t.len() - from,
{
    if from < 0 || from >= t.len() {
        t.len() as int
    } else if !is_white_space(t[from]) {
        from
    } else {
        skip_white(t, from + 1)
    }
}

/// `t` split at runs of white space into at most `limit` pieces, the last of which is the
/// rest of the text (what regex's `splitn` gives for the pattern `\s+`, whose `\s` is the
/// Unicode White_Space set).
pub open spec fn split_white(t: Seq<char>, limit: nat) -> Seq<Seq<char>>
    decreases limit,
{
    if limit == 0 {
        Seq::empty()
    } else if limit == 1 {
        seq![t]
    } else {
        let i = next_white(t, 0);
        if i >= t.len() {
            seq![t]
        } else {
            seq![t.subrange(0, i)] + split_white(t.subrange(skip_white(t, i), t.len() as int), (limit - 1) as nat)
        }
    }
}

/// regex: `Regex::new(pattern)` and `splitn(text, limit)`, as texts. The contract names
/// the result (`regex_split`), and for the pattern `\s+` states it: the text split at
/// runs of Unicode white space into at most `limit` pieces (`split_white`).
#[verifier::external_body]
fn split_by(pattern: &str, text: &str, limit: usize) -> (r: Vec<String>)
    ensures
        strings_view(r@) == regex_split(pattern@, text@, limit as int),
        pattern@ == "\\s+"@ ==> strings_view(r@) == split_white(text@, limit as nat),
{
    match regex::Regex::new(pattern) {
        Ok(re) => re.splitn(text, limit).map(|s| s.to_string()).collect(),
        Err(_) => Vec::new(),
    }
}

/// A number read from decimal text (`str::parse::<usize>`), if it is one.
pub open spec fn decimal_usize(t: Seq<char>) -> Option<nat> {
    match parse_unsigned(encode_utf8(t), 10, usize::MAX as nat) {
        Ok(v) => Some(v),
        Err(_) => None,
    }
}

/// The position a definition line gives in its first item: after `>` the number that
/// follows it (0 when none does), 0 for an empty item, else the item as a number.
/// `None` where a position is not a valid number.
pub open spec fn position_spec(item: Seq<char>) -> Option<nat> {
    if item.len() > 0 && item[0] == '>' {
        match position_capture(trim_ws(item)) {
            None => Some(0),
            Some(num) => decimal_usize(trim_ws(num)),
        }
    } else if item.len() == 0 {
        Some(0)
    } else {
        decimal_usize(trim_ws(item))
    }
}

/// The field type a definition line names in its second item.
pub open spec fn type_named(item: Seq<char>) -> FieldType {
    if item == "byte"@ {
        FieldType::Byte
    } else if item == "short"@ {
        FieldType::Short
    } else if item == "long"@ {
        FieldType::Long
    } else if item == "string"@ {
        FieldType::Str
    } else if item == "Date"@ {
        FieldType::Date
    } else if item == "Regex"@ {
        FieldType::Regex
    } else {
        FieldType::Default
    }
}

/// The field after item number `index` of its definition line was read into it.
pub open spec fn apply_item(f: FieldView, index: nat, item: Seq<char>) -> Option<FieldView> {
    if index == 0 {
        match position_spec(item) {
            None => None,
            Some(p) => Some(FieldView { position: p, value_type: f.value_type, constraint: f.constraint, description: f.description }),
        }
    } else if index == 1 {
        Some(FieldView { position: f.position, value_type: type_named(item), constraint: f.constraint, description: f.description })
    } else if index == 2 {
        Some(FieldView { position: f.position, value_type: f.value_type, constraint: item, description: f.description })
    } else {
        Some(FieldView { position: f.position, value_type: f.value_type, constraint: f.constraint, description: item })
    }
}

/// The field after the first `k` items were read into the default field.
pub open spec fn fold_items(items: Seq<Seq<char>>, k: nat) -> Option<FieldView>
    decreases k,
{
    if k == 0 {
        Some(default_field())
    } else {
        match fold_items(items, (k - 1) as nat) {
            None => None,
            Some(f) => apply_item(f, (k - 1) as nat, items[k - 1]),
        }
    }
}

/// The field a definition line describes: its items are the pieces of the line split at
/// white space into at most four (position, type, constraint, description).
pub open spec fn field_of_line(line: Seq<char>) -> Option<FieldView> {
    let items = split_white(line, 4);
    fold_items(items, items.len())
}

/// What has been read from the first lines of a definition file: the finished
/// signatures and the fields of the one in progress.
pub struct ReadState {
    pub done: Seq<Seq<FieldView>>,
    pub pending: Seq<FieldView>,
}

/// Reading the first `k` lines: an empty line closes the signature in progress (if it
/// has fields), a line that starts with `#` is a comment, and any other line adds a field.
/// `None` where a position is not a valid number.
pub open spec fn read_lines(lines: Seq<Seq<char>>, k: nat) -> Option<ReadState>
    decreases k,
{
    if k == 0 {
        Some(ReadState { done: Seq::empty(), pending: Seq::empty() })
    } else {
        match read_lines(lines, (k - 1) as nat) {
            None => None,
            Some(st) => {
                let line = lines[k - 1];
                if line.len() == 0 {
                    if st.pending.len() > 0 {
                        Some(ReadState { done: st.done.push(st.pending), pending: Seq::empty() })
                    } else {
                        Some(st)
                    }
                } else if line[0] == '#' {
                    Some(st)
                } else {
                    match field_of_line(line) {
                        None => None,
                        Some(f) => Some(ReadState { done: st.done, pending: st.pending.push(f) }),
                    }
                }
            },
        }
    }
}

/// The signatures a definition file with these lines describes: the groups of field
/// lines that empty lines separate, the last one included.
pub open spec fn signatures_of(lines: Seq<Seq<char>>) -> Option<Seq<Seq<FieldView>>> {
    match read_lines(lines, lines.len()) {
        None => None,
        Some(st) => Some(
            if st.pending.len() > 0 {
                st.done.push(st.pending)
            } else {
                st.done
            },
        ),
    }
}

/// The spec view of an optional list of signatures.
pub open spec fn opt_signatures_view(r: Option<Vec<Signature>>) -> Option<Seq<Seq<FieldView>>> {
    match r {
        None => None,
        Some(v) => Some(signatures_view(v@)),
    }
}

/// The spec view of an optional field.
pub open spec fn opt_field_view(r: Option<Field>) -> Option<FieldView> {
    match r {
        None => None,
        Some(f) => Some(f@),
    }
}

fn read_decimal_usize(t: &str) -> (r: Option<usize>)
    ensures
        match r {
            Some(v) => decimal_usize(t@) == Some(v as nat),
            None => decimal_usize(t@) is None,
        },
{
    let b = t.as_bytes();
    assert(b@.subrange(0, b@.len() as int) =~= b@);
    match read_unsigned(b, 0, b.len(), 10, usize::MAX as u64) {
        Ok(v) => Some(v as usize),
        Err(_) => None,
    }
}

fn position_of_item(item: &str) -> (r: Option<usize>)
    ensures
        match r {
            Some(v) => position_spec(item@) == Some(v as nat),
            None => position_spec(item@) is None,
        },
{
    let n = item.unicode_len();
    if n > 0 && item.get_char(0) == '>' {
        let t = trim(item);
        match capture_group(">\\s*(\\d+)", t, 1) {
            None => Some(0),
            Some(num) => read_decimal_usize(trim(num.as_str())),
        }
    } else if n == 0 {
        Some(0)
    } else {
        read_decimal_usize(trim(item))
    }
}

fn type_of_item(item: &str) -> (t: FieldType)
    ensures
        t == type_named(item@),
{
    if same_text(item, "byte") {
        FieldType::Byte
    } else if same_text(item, "short") {
        FieldType::Short
    } else if same_text(item, "long") {
        FieldType::Long
    } else if same_text(item, "string") {
        FieldType::Str
    } else if same_text(item, "Date") {
        FieldType::Date
    } else if same_text(item, "Regex") {
        FieldType::Regex
    } else {
        FieldType::Default
    }
}

/// Reads one field definition line.
fn field_from_line(line: &str) -> (r: Option<Field>)
    ensures
        opt_field_view(r) == field_of_line(line@),
{
    let items = split_by("\\s+", line, 4);
    let ghost iv = strings_view(items@);
    let mut field = Field::default();
    let mut i: usize = 0;
    while i < items.len()
        invariant
            i <= items@.len(),
            iv == strings_view(items@),
            iv == split_white(line@, 4),
            iv.len() == items@.len(),
            fold_items(iv, i as nat) == Some(field@),
        decreases items@.len() - i,
    {
        assert(iv[i as int] == items@[i as int]@);
        let item = items[i].as_str();
        if i == 0 {
            match position_of_item(item) {
                None => {
                    proof {
                        assert(fold_items(iv, (i + 1) as nat) is None);
                        lemma_fold_items_stop(iv, (i + 1) as nat, iv.len());
                        assert(iv == split_white(line@, 4));
                    }
                    return None;
                },
                Some(p) => {
                    field.position = p;
                },
            }
        } else if i == 1 {
            field.value_type = type_of_item(item);
        } else if i == 2 {
            field.constraint = items[i].clone();
        } else {
            field.description = items[i].clone();
        }
        i = i + 1;
    }
    Some(field)
}

proof fn lemma_fold_items_stop(items: Seq<Seq<char>>, k: nat, n: nat)
    requires
        k <= n,
        fold_items(items, k) is None,
    ensures
        fold_items(items, n) is None,
    decreases n - k,
{
    if n > k {
        lemma_fold_items_stop(items, k, (n - 1) as nat);
    }
}

proof fn lemma_read_lines_stop(lines: Seq<Seq<char>>, k: nat, n: nat)
    requires
        k <= n,
        read_lines(lines, k) is None,
    ensures
        read_lines(lines, n) is None,
    decreases n - k,
{
    if n > k {
        lemma_read_lines_stop(lines, k, (n - 1) as nat);
    }
}

/// Reads the signatures of a definition file from its lines, as `signatures_of` says;
/// `None` where a position is not a valid number.
pub fn signatures_from_lines(lines: &Vec<String>) -> (r: Option<Vec<Signature>>)
    ensures
        opt_signatures_view(r) == signatures_of(strings_view(lines@)),
{
    let ghost lv = strings_view(lines@);
    let mut results: Vec<Signature> = Vec::new();
    let mut pending: Vec<Field> = Vec::new();
    let mut i: usize = 0;
    assert(signatures_view(results@) =~= Seq::<Seq<FieldView>>::empty());
    assert(fields_view(pending@) =~= Seq::<FieldView>::empty());
    while i < lines.len()
        invariant
            i <= lines@.len(),
            lv == strings_view(lines@),
            lv.len() == lines@.len(),
            read_lines(lv, i as nat) == Some(ReadState { done: signatures_view(results@), pending: fields_view(pending@) }),
        decreases lines@.len() - i,
    {
        assert(lv[i as int] == lines@[i as int]@);
        let line = lines[i].as_str();
        let n = line.unicode_len();
        if n == 0 {
            if pending.len() > 0 {
                let mut finished: Vec<Field> = Vec::new();
                std::mem::swap(&mut finished, &mut pending);
                let ghost before = results@;
                results.push(Signature { fields: finished });
                assert(signatures_view(results@) =~= signatures_view(before).push(fields_view(finished@)));
                assert(fields_view(pending@) =~= Seq::<FieldView>::empty());
            }
        } else if line.get_char(0) == '#' {
        } else {
            match field_from_line(line) {
                None => {
                    proof { lemma_read_lines_stop(lv, (i + 1) as nat, lv.len()); }
                    return None;
                },
                Some(f) => {
                    let ghost before = pending@;
                    pending.push(f);
                    assert(fields_view(pending@) =~= fields_view(before).push(f@));
                },
            }
        }
        i = i + 1;
    }
    if pending.len() > 0 {
        let ghost before = results@;
        results.push(Signature { fields: pending });
        assert(signatures_view(results@) =~= signatures_view(before).push(fields_view(pending@)));
    }
    Some(results)
}

} // verus!
