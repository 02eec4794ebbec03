//! The volume group metadata text: a nested list of `key = value`
//! assignments and `name { ... }` sections, with `#` comments.
//!
//! The parser flattens the nesting: every assignment and every section
//! header becomes one [`MetadataEntry`] that records the names of the
//! sections enclosing it.
use vstd::prelude::*;
use vstd::utf8::*;

use crate::support::owned_utf8;

verus! {

/// A scalar value: a quoted string or a non-negative decimal number.
#[derive(Clone, Debug)]
pub enum MetadataScalar {
    Str(String),
    Num(u64),
}

pub enum SpecScalar {
    Str(Seq<char>),
    Num(u64),
}

impl View for MetadataScalar {
    type V = SpecScalar;

    open spec fn view(&self) -> SpecScalar {
        match self {
            MetadataScalar::Str(s) => SpecScalar::Str(s@),
            MetadataScalar::Num(n) => SpecScalar::Num(*n),
        }
    }
}

/// The right-hand side of an assignment: a scalar or a bracketed list of scalars.
#[derive(Clone, Debug)]
pub enum MetadataValue {
    Scalar(MetadataScalar),
    List(Vec<MetadataScalar>),
}

pub enum SpecValue {
    Scalar(SpecScalar),
    List(Seq<SpecScalar>),
}

impl View for MetadataValue {
    type V = SpecValue;

    open spec fn view(&self) -> SpecValue {
        match self {
            MetadataValue::Scalar(s) => SpecValue::Scalar(s@),
            MetadataValue::List(v) => SpecValue::List(v@.map_values(|x: MetadataScalar| x@)),
        }
    }
}

/// One assignment (`value` is `Some`) or one section header (`value` is
/// `None`), with the names of the sections that enclose it, outermost first.
#[derive(Clone, Debug)]
pub struct MetadataEntry {
    pub path: Vec<String>,
    pub key: String,
    pub value: Option<MetadataValue>,
}

pub struct SpecEntry {
    pub path: Seq<Seq<char>>,
    pub key: Seq<char>,
    pub value: Option<SpecValue>,
}

pub open spec fn names_view(v: Seq<String>) -> Seq<Seq<char>> {
    v.map_values(|s: String| s@)
}

impl View for MetadataEntry {
    type V = SpecEntry;

    open spec fn view(&self) -> SpecEntry {
        SpecEntry {
            path: names_view(self.path@),
            key: self.key@,
            value: match self.value {
                Some(v) => Some(v@),
                None => None,
            },
        }
    }
}

/// The parsed metadata text, in document order.
#[derive(Clone, Debug)]
pub struct MetadataElements {
    pub entries: Vec<MetadataEntry>,
}

pub open spec fn entries_view(v: Seq<MetadataEntry>) -> Seq<SpecEntry> {
    v.map_values(|e: MetadataEntry| e@)
}

impl View for MetadataElements {
    type V = Seq<SpecEntry>;

    open spec fn view(&self) -> Seq<SpecEntry> {
        entries_view(self.entries@)
    }
}

// ---------------------------------------------------------------------------
// Lexical level

pub open spec fn is_space(c: u8) -> bool {
    c == 0x20 || c == 0x09 || c == 0x0a || c == 0x0d
}

pub open spec fn is_digit(c: u8) -> bool {
    0x30 <= c <= 0x39
}

/// Characters of section and key names: letters, digits and `_ . + -`.
pub open spec fn is_name_char(c: u8) -> bool {
    ||| 0x41 <= c <= 0x5a
    ||| 0x61 <= c <= 0x7a
    ||| is_digit(c)
    ||| c == 0x5f
    ||| c == 0x2e
    ||| c == 0x2b
    ||| c == 0x2d
}

/// The first position at or after `i` that is neither white space nor part
/// of a comment; `in_comment` tells whether `i` lies inside a comment.
pub open spec fn skip_blank(s: Seq<u8>, i: int, in_comment: bool) -> int
    decreases s.len() - i,
{
    if i < 0 || i >= s.len() {
        i
    } else if in_comment {
        skip_blank(s, i + 1, s[i] != 0x0a)
    } else if is_space(s[i]) {
        skip_blank(s, i + 1, false)
    } else if s[i] == 0x23 {
        skip_blank(s, i + 1, true)
    } else {
        i
    }
}

pub open spec fn skip_ws(s: Seq<u8>, i: int) -> int {
    skip_blank(s, i, false)
}

pub proof fn lemma_skip_blank_bounds(s: Seq<u8>, i: int, c: bool)
    requires
        0 <= i <= s.len(),
    ensures
        i <= skip_blank(s, i, c) <= s.len(),
    decreases s.len() - i,
{
    if i < s.len() {
        if c || is_space(s[i]) || s[i] == 0x23 {
            lemma_skip_blank_bounds(s, i + 1, if c { s[i] != 0x0a } else { s[i] == 0x23 });
        }
    }
}

/// The end of the run of characters satisfying `p` that starts at `i`.
pub open spec fn name_end(s: Seq<u8>, i: int) -> int
    decreases s.len() - i,
{
    if 0 <= i < s.len() && is_name_char(s[i]) {
        name_end(s, i + 1)
    } else {
        i
    }
}

pub open spec fn digits_end(s: Seq<u8>, i: int) -> int
    decreases s.len() - i,
{
    if 0 <= i < s.len() && is_digit(s[i]) {
        digits_end(s, i + 1)
    } else {
        i
    }
}

pub proof fn lemma_name_end_bounds(s: Seq<u8>, i: int)
    requires
        0 <= i <= s.len(),
    ensures
        i <= name_end(s, i) <= s.len(),
    decreases s.len() - i,
{
    if i < s.len() && is_name_char(s[i]) {
        lemma_name_end_bounds(s, i + 1);
    }
}

pub proof fn lemma_digits_end_bounds(s: Seq<u8>, i: int)
    requires
        0 <= i <= s.len(),
    ensures
        i <= digits_end(s, i) <= s.len(),
    decreases s.len() - i,
{
    if i < s.len() && is_digit(s[i]) {
        lemma_digits_end_bounds(s, i + 1);
    }
}

/// The number written by the decimal digits `s[i..j]`.
pub open spec fn decimal_value(s: Seq<u8>, i: int, j: int) -> int
    decreases j - i,
{
    if j <= i {
        0
    } else {
        10 * decimal_value(s, i, j - 1) + (s[j - 1] - 0x30)
    }
}

/// A name (of a key or a section) starting at `i`: the position after it and its characters.
pub open spec fn parse_name(s: Seq<u8>, i: int) -> Option<(int, Seq<char>)> {
    let j = name_end(s, i);
    if j <= i || !valid_utf8(s.subrange(i, j)) {
        None
    } else {
        Some((j, decode_utf8(s.subrange(i, j))))
    }
}

/// The bytes of a quoted string from position `i`, just after the opening
/// quote: a backslash makes the next byte literal, a quote ends the string.
/// Returns the position after the closing quote and the unescaped bytes.
pub open spec fn string_body(s: Seq<u8>, i: int) -> Option<(int, Seq<u8>)>
    decreases s.len() - i,
{
    if i < 0 || i >= s.len() {
        None
    } else if s[i] == 0x22 {
        Some((i + 1, Seq::empty()))
    } else if s[i] == 0x5c {
        if i + 1 >= s.len() {
            None
        } else {
            match string_body(s, i + 2) {
                Some((j, rest)) => Some((j, seq![s[i + 1]] + rest)),
                None => None,
            }
        }
    } else {
        match string_body(s, i + 1) {
            Some((j, rest)) => Some((j, seq![s[i]] + rest)),
            None => None,
        }
    }
}

/// A scalar starting at `i`.
pub open spec fn parse_scalar(s: Seq<u8>, i: int) -> Option<(int, SpecScalar)> {
    if 0 <= i < s.len() && s[i] == 0x22 {
        match string_body(s, i + 1) {
            Some((j, b)) => if valid_utf8(b) {
                Some((j, SpecScalar::Str(decode_utf8(b))))
            } else {
                None
            },
            None => None,
        }
    } else if 0 <= i < s.len() && is_digit(s[i]) {
        let j = digits_end(s, i);
        if decimal_value(s, i, j) <= u64::MAX {
            Some((j, SpecScalar::Num(decimal_value(s, i, j) as u64)))
        } else {
            None
        }
    } else {
        None
    }
}

/// The rest of a list from position `i`, which follows an item and the
/// blanks after it: either the closing bracket, or a comma and more items.
pub open spec fn list_rest(s: Seq<u8>, i: int) -> Option<(int, Seq<SpecScalar>)>
    decreases s.len() - i,
{
    if i < 0 || i >= s.len() {
        None
    } else if s[i] == 0x5d {
        Some((i + 1, Seq::empty()))
    } else if s[i] == 0x2c {
        let j = skip_ws(s, i + 1);
        match parse_scalar(s, j) {
            Some((k, x)) => {
                let m = skip_ws(s, k);
                if i < m <= s.len() {
                    match list_rest(s, m) {
                        Some((e, rest)) => Some((e, seq![x] + rest)),
                        None => None,
                    }
                } else {
                    None
                }
            },
            None => None,
        }
    } else {
        None
    }
}

/// A value starting at `i`: a scalar, or a list `[ a, b, ... ]` of scalars.
pub open spec fn parse_value(s: Seq<u8>, i: int) -> Option<(int, SpecValue)> {
    if 0 <= i < s.len() && s[i] == 0x5b {
        let j = skip_ws(s, i + 1);
        if j < s.len() && s[j] == 0x5d {
            Some((j + 1, SpecValue::List(Seq::empty())))
        } else {
            match parse_scalar(s, j) {
                Some((k, x)) => match list_rest(s, skip_ws(s, k)) {
                    Some((e, rest)) => Some((e, SpecValue::List(seq![x] + rest))),
                    None => None,
                },
                None => None,
            }
        }
    } else {
        match parse_scalar(s, i) {
            Some((j, x)) => Some((j, SpecValue::Scalar(x))),
            None => None,
        }
    }
}

// ---------------------------------------------------------------------------
// Entries and sections

pub open spec fn prepend_entries(
    es: Seq<SpecEntry>,
    r: Option<(int, Seq<SpecEntry>)>,
) -> Option<(int, Seq<SpecEntry>)> {
    match r {
        Some((j, rest)) => Some((j, es + rest)),
        None => None,
    }
}

/// One entry starting at `i`, inside the sections `path`: either
/// `name = value`, or `name { entries }` (which yields the section header
/// followed by the entries of the section).
pub open spec fn parse_entry(s: Seq<u8>, i: int, path: Seq<Seq<char>>) -> Option<
    (int, Seq<SpecEntry>),
>
    decreases s.len() - i, 0int,
{
    if i < 0 || i > s.len() {
        None
    } else {
        match parse_name(s, i) {
            None => None,
            Some((j, name)) => {
                proof {
                    lemma_name_end_bounds(s, i);
                }
                let k = skip_ws(s, j);
                proof {
                    lemma_skip_blank_bounds(s, j, false);
                }
                if k < s.len() && s[k] == 0x3d {
                    match parse_value(s, skip_ws(s, k + 1)) {
                        Some((m, v)) => Some(
                            (m, seq![SpecEntry { path: path, key: name, value: Some(v) }]),
                        ),
                        None => None,
                    }
                } else if k < s.len() && s[k] == 0x7b {
                    match parse_body(s, k + 1, path.push(name)) {
                        Some((m, es)) => if m < s.len() && s[m] == 0x7d {
                            Some(
                                (
                                    m + 1,
                                    seq![SpecEntry { path: path, key: name, value: None }] + es,
                                ),
                            )
                        } else {
                            None
                        },
                        None => None,
                    }
                } else {
                    None
                }
            },
        }
    }
}

/// The entries of a section body from position `i` up to (not including)
/// the closing brace.
pub open spec fn parse_body(s: Seq<u8>, i: int, path: Seq<Seq<char>>) -> Option<
    (int, Seq<SpecEntry>),
>
    decreases s.len() - i, 1int,
{
    if i < 0 || i > s.len() {
        None
    } else {
        let k = skip_ws(s, i);
        proof {
            lemma_skip_blank_bounds(s, i, false);
        }
        if k < s.len() && s[k] == 0x7d {
            Some((k, Seq::empty()))
        } else {
            match parse_entry(s, k, path) {
                Some((m, es)) => if k < m <= s.len() {
                    prepend_entries(es, parse_body(s, m, path))
                } else {
                    None
                },
                None => None,
            }
        }
    }
}

/// The top level of the text from position `i`: as many entries as parse,
/// and the position where the first entry that does not parse begins.
pub open spec fn parse_top(s: Seq<u8>, i: int) -> (int, Seq<SpecEntry>)
    decreases s.len() - i,
{
    if i < 0 || i > s.len() {
        (i, Seq::empty())
    } else {
        let k = skip_ws(s, i);
        proof {
            lemma_skip_blank_bounds(s, i, false);
        }
        match parse_entry(s, k, Seq::empty()) {
            Some((m, es)) => if k < m <= s.len() {
                let (e, rest) = parse_top(s, m);
                (e, es + rest)
            } else {
                (k, Seq::empty())
            },
            None => (k, Seq::empty()),
        }
    }
}

/// The entries of the whole text.
pub open spec fn spec_parse_metadata(s: Seq<u8>) -> Seq<SpecEntry> {
    parse_top(s, 0).1
}


// ---------------------------------------------------------------------------
// Laws of names

/// The bytes LVM2 allows in the names of volume groups, volumes and keys:
/// ASCII letters and digits, and `_`, `.`, `+`, `-`.
pub open spec fn lvm_name_byte(c: u8) -> bool {
    (0x41 <= c && c <= 0x5a) || (0x61 <= c && c <= 0x7a) || (0x30 <= c && c <= 0x39) || c == 0x2d
        || c == 0x2b || c == 0x2e || c == 0x5f
}

proof fn lemma_name_run(s: Seq<u8>, i: int, j: int)
    requires
        0 <= i <= j <= s.len(),
        forall|k: int| i <= k < j ==> lvm_name_byte(#[trigger] s[k]),
        j == s.len() || !lvm_name_byte(s[j]),
    ensures
        name_end(s, i) == j,
    decreases j - i,
{
    if i < j {
        lemma_name_run(s, i + 1, j);
    }
}

proof fn lemma_ascii_valid(t: Seq<u8>)
    requires
        forall|k: int| 0 <= k < t.len() ==> #[trigger] t[k] < 0x80,
    ensures
        valid_utf8(t),
{
    assert(t.subrange(0, 0) =~= Seq::<u8>::empty());
    assert(partial_valid_utf8(t, 0));
    assert forall|k: int| 0 <= 0 <= k < t.len() <= t.len() implies #[trigger] is_leading_byte_width_1(t[k]) by {}
    partial_valid_utf8_extend_ascii_block(t, 0, t.len() as int);
    assert(t.subrange(0, t.len() as int) =~= t);
}

/// A maximal run of the bytes LVM2 allows in names is read whole as one
/// name, spelled by exactly those bytes.
pub proof fn law_name_read_whole(s: Seq<u8>, i: int, j: int)
    requires
        0 <= i < j <= s.len(),
        forall|k: int| i <= k < j ==> lvm_name_byte(#[trigger] s[k]),
        j == s.len() || !lvm_name_byte(s[j]),
    ensures
        parse_name(s, i) matches Some((e, n)) && e == j && encode_utf8(n) == s.subrange(i, j),
{
    lemma_name_run(s, i, j);
    let t = s.subrange(i, j);
    assert forall|k: int| 0 <= k < t.len() implies #[trigger] t[k] < 0x80 by {
        assert(t[k] == s[i + k]);
        assert(lvm_name_byte(s[i + k]));
    }
    lemma_ascii_valid(t);
    decode_utf8_encode_utf8(t);
}

/// A text that is just a name LVM2 allows followed by ` { }` is one empty
/// section of that name.
pub proof fn law_empty_section_read_whole(n: Seq<u8>)
    requires
        n.len() > 0,
        forall|k: int| 0 <= k < n.len() ==> lvm_name_byte(#[trigger] n[k]),
    ensures
        ({
            let s = n + seq![0x20u8, 0x7b, 0x20, 0x7d];
            &&& spec_parse_metadata(s).len() == 1
            &&& spec_parse_metadata(s)[0].path == Seq::<Seq<char>>::empty()
            &&& encode_utf8(spec_parse_metadata(s)[0].key) == n
            &&& spec_parse_metadata(s)[0].value is None
        }),
{
    let s = n + seq![0x20u8, 0x7b, 0x20, 0x7d];
    let j = n.len() as int;
    assert forall|k: int| 0 <= k < j implies lvm_name_byte(#[trigger] s[k]) by {
        assert(s[k] == n[k]);
    }
    assert(s[j] == 0x20 && s[j + 1] == 0x7b && s[j + 2] == 0x20 && s[j + 3] == 0x7d);
    law_name_read_whole(s, 0, j);
    let name = parse_name(s, 0)->Some_0.1;
    assert(skip_ws(s, 0) == 0);
    assert(skip_blank(s, j + 1, false) == j + 1);
    assert(skip_ws(s, j) == j + 1);
    assert(skip_blank(s, j + 3, false) == j + 3);
    assert(skip_ws(s, j + 2) == j + 3);
    assert(parse_body(s, j + 2, Seq::<Seq<char>>::empty().push(name)) == Some((j + 3, Seq::<SpecEntry>::empty())));
    let hdr = SpecEntry { path: Seq::<Seq<char>>::empty(), key: name, value: None };
    assert(parse_entry(s, 0, Seq::empty()) == Some((j + 4, seq![hdr] + Seq::<SpecEntry>::empty())));
    assert(name_end(s, j + 4) == j + 4);
    assert(parse_top(s, j + 4) == (j + 4, Seq::<SpecEntry>::empty()));
    assert(parse_top(s, 0).1 =~= seq![hdr]);
}

// ---------------------------------------------------------------------------
// Executable parser

fn is_space_exec(c: u8) -> (r: bool)
    ensures
        r == is_space(c),
{
    c == 0x20 || c == 0x09 || c == 0x0a || c == 0x0d
}

fn is_digit_exec(c: u8) -> (r: bool)
    ensures
        r == is_digit(c),
{
    0x30 <= c && c <= 0x39
}

fn is_name_char_exec(c: u8) -> (r: bool)
    ensures
        r == is_name_char(c),
{
    (0x41 <= c && c <= 0x5a) || (0x61 <= c && c <= 0x7a) || is_digit_exec(c) || c == 0x5f || c
        == 0x2e || c == 0x2b || c == 0x2d
}

fn skip_ws_exec(s: &[u8], i: usize) -> (r: usize)
    requires
        i <= s.len(),
    ensures
        r == skip_ws(s@, i as int),
        i <= r <= s.len(),
{
    let mut k = i;
    let mut c = false;
    loop
        invariant
            i <= k <= s.len(),
            skip_blank(s@, i as int, false) == skip_blank(s@, k as int, c),
        decreases s.len() - k,
    {
        if k >= s.len() {
            return k;
        }
        let b = s[k];
        if c {
            c = b != 0x0a;
        } else if is_space_exec(b) {
        } else if b == 0x23 {
            c = true;
        } else {
            return k;
        }
        k = k + 1;
    }
}

fn name_end_exec(s: &[u8], i: usize) -> (r: usize)
    requires
        i <= s.len(),
    ensures
        r == name_end(s@, i as int),
        i <= r <= s.len(),
{
    let mut k = i;
    while k < s.len() && is_name_char_exec(s[k])
        invariant
            i <= k <= s.len(),
            name_end(s@, i as int) == name_end(s@, k as int),
        decreases s.len() - k,
    {
        k = k + 1;
    }
    k
}

fn digits_end_exec(s: &[u8], i: usize) -> (r: usize)
    requires
        i <= s.len(),
    ensures
        r == digits_end(s@, i as int),
        i <= r <= s.len(),
{
    let mut k = i;
    while k < s.len() && is_digit_exec(s[k])
        invariant
            i <= k <= s.len(),
            digits_end(s@, i as int) == digits_end(s@, k as int),
        decreases s.len() - k,
    {
        k = k + 1;
    }
    k
}

pub proof fn lemma_digits_end_all_digits(s: Seq<u8>, i: int, k: int)
    requires
        0 <= i <= k < digits_end(s, i),
        digits_end(s, i) <= s.len(),
    ensures
        is_digit(s[k]),
    decreases k - i,
{
    if i < s.len() && is_digit(s[i]) {
        if k > i {
            lemma_digits_end_all_digits(s, i + 1, k);
        }
    }
}

pub proof fn lemma_decimal_monotone(s: Seq<u8>, i: int, k: int, j: int)
    requires
        i <= k <= j,
        forall|t: int| i <= t < j ==> is_digit(#[trigger] s[t]),
    ensures
        decimal_value(s, i, k) <= decimal_value(s, i, j),
        decimal_value(s, i, k) >= 0,
    decreases j - i,
{
    if j > k {
        lemma_decimal_monotone(s, i, k, j - 1);
        assert(is_digit(s[j - 1]));
    } else if k > i {
        lemma_decimal_monotone(s, i, k - 1, k - 1);
        assert(is_digit(s[k - 1]));
    }
}

fn parse_name_exec(s: &[u8], i: usize) -> (r: Option<(usize, String)>)
    requires
        i <= s.len(),
    ensures
        match (r, parse_name(s@, i as int)) {
            (Some((j, n)), Some((sj, sn))) => j == sj && n@ == sn,
            (None, None) => true,
            _ => false,
        },
        r matches Some((j, _)) ==> i < j <= s.len(),
{
    let j = name_end_exec(s, i);
    if j <= i {
        return None;
    }
    match owned_utf8(vstd::slice::slice_subrange(s, i, j)) {
        Some(n) => Some((j, n)),
        None => None,
    }
}

pub open spec fn prepend_bytes(acc: Seq<u8>, r: Option<(int, Seq<u8>)>) -> Option<(int, Seq<u8>)> {
    match r {
        Some((j, rest)) => Some((j, acc + rest)),
        None => None,
    }
}

fn string_body_exec(s: &[u8], i: usize) -> (r: Option<(usize, Vec<u8>)>)
    requires
        i <= s.len(),
    ensures
        match (r, string_body(s@, i as int)) {
            (Some((j, b)), Some((sj, sb))) => j == sj && b@ == sb,
            (None, None) => true,
            _ => false,
        },
        r matches Some((j, _)) ==> i < j <= s.len(),
{
    let mut acc: Vec<u8> = Vec::new();
    let mut k = i;
    loop
        invariant
            i <= k <= s.len(),
            string_body(s@, i as int) == prepend_bytes(acc@, string_body(s@, k as int)),
        decreases s.len() - k,
    {
        if k >= s.len() {
            return None;
        }
        let c = s[k];
        if c == 0x22 {
            assert(acc@ + Seq::<u8>::empty() =~= acc@);
            return Some((k + 1, acc));
        }
        if c == 0x5c {
            if k + 1 >= s.len() {
                return None;
            }
            let d = s[k + 1];
            proof {
                if let Some((j, rest)) = string_body(s@, k + 2) {
                    assert(acc@ + (seq![d] + rest) =~= acc@.push(d) + rest);
                }
            }
            acc.push(d);
            k = k + 2;
        } else {
            proof {
                if let Some((j, rest)) = string_body(s@, k + 1) {
                    assert(acc@ + (seq![c] + rest) =~= acc@.push(c) + rest);
                }
            }
            acc.push(c);
            k = k + 1;
        }
    }
}

fn parse_scalar_exec(s: &[u8], i: usize) -> (r: Option<(usize, MetadataScalar)>)
    requires
        i <= s.len(),
    ensures
        match (r, parse_scalar(s@, i as int)) {
            (Some((j, x)), Some((sj, sx))) => j == sj && x@ == sx,
            (None, None) => true,
            _ => false,
        },
        r matches Some((j, _)) ==> i < j <= s.len(),
{
    if i < s.len() && s[i] == 0x22 {
        match string_body_exec(s, i + 1) {
            Some((j, b)) => match owned_utf8(b.as_slice()) {
                Some(t) => Some((j, MetadataScalar::Str(t))),
                None => None,
            },
            None => None,
        }
    } else if i < s.len() && is_digit_exec(s[i]) {
        let j = digits_end_exec(s, i);
        let mut v: u64 = 0;
        let mut k = i;
        proof {
            lemma_digits_end_bounds(s@, i + 1);
            assert forall|t: int| i <= t < j implies #[trigger] is_digit(s@[t]) by {
                lemma_digits_end_all_digits(s@, i as int, t);
            }
        }
        while k < j
            invariant
                i <= k <= j <= s.len(),
                j == digits_end(s@, i as int),
                forall|t: int| i <= t < j ==> #[trigger] is_digit(s@[t]),
                v == decimal_value(s@, i as int, k as int),
            decreases j - k,
        {
            assert(is_digit(s@[k as int]));
            let d: u64 = (s[k] - 0x30) as u64;
            match v.checked_mul(10) {
                Some(v10) => match v10.checked_add(d) {
                    Some(nv) => {
                        v = nv;
                    },
                    None => {
                        proof {
                            lemma_decimal_monotone(s@, i as int, k + 1, j as int);
                        }
                        return None;
                    },
                },
                None => {
                    proof {
                        lemma_decimal_monotone(s@, i as int, k as int, k as int);
                        lemma_decimal_monotone(s@, i as int, k + 1, j as int);
                    }
                    return None;
                },
            }
            k = k + 1;
        }
        Some((j, MetadataScalar::Num(v)))
    } else {
        None
    }
}

pub open spec fn prepend_scalars(acc: Seq<SpecScalar>, r: Option<(int, Seq<SpecScalar>)>) -> Option<
    (int, Seq<SpecScalar>),
> {
    match r {
        Some((j, rest)) => Some((j, acc + rest)),
        None => None,
    }
}

pub open spec fn scalars_view(v: Seq<MetadataScalar>) -> Seq<SpecScalar> {
    v.map_values(|x: MetadataScalar| x@)
}

fn list_rest_exec(s: &[u8], i: usize) -> (r: Option<(usize, Vec<MetadataScalar>)>)
    requires
        i <= s.len(),
    ensures
        match (r, list_rest(s@, i as int)) {
            (Some((j, v)), Some((sj, sv))) => j == sj && scalars_view(v@) == sv,
            (None, None) => true,
            _ => false,
        },
        r matches Some((j, _)) ==> i < j <= s.len(),
{
    let mut acc: Vec<MetadataScalar> = Vec::new();
    let mut k = i;
    loop
        invariant
            i <= k <= s.len(),
            list_rest(s@, i as int) == prepend_scalars(
                scalars_view(acc@),
                list_rest(s@, k as int),
            ),
        decreases s.len() - k,
    {
        if k >= s.len() {
            return None;
        }
        if s[k] == 0x5d {
            assert(scalars_view(acc@) + Seq::<SpecScalar>::empty() =~= scalars_view(acc@));
            return Some((k + 1, acc));
        }
        if s[k] != 0x2c {
            return None;
        }
        let j = skip_ws_exec(s, k + 1);
        let (e, x) = match parse_scalar_exec(s, j) {
            Some(p) => p,
            None => return None,
        };
        let m = skip_ws_exec(s, e);
        proof {
            if let Some((f, rest)) = list_rest(s@, m as int) {
                assert(scalars_view(acc@) + (seq![x@] + rest) =~= scalars_view(acc@.push(x))
                    + rest);
            }
        }
        acc.push(x);
        k = m;
    }
}

fn parse_value_exec(s: &[u8], i: usize) -> (r: Option<(usize, MetadataValue)>)
    requires
        i <= s.len(),
    ensures
        match (r, parse_value(s@, i as int)) {
            (Some((j, v)), Some((sj, sv))) => j == sj && v@ == sv,
            (None, None) => true,
            _ => false,
        },
        r matches Some((j, _)) ==> i < j <= s.len(),
{
    if i < s.len() && s[i] == 0x5b {
        let j = skip_ws_exec(s, i + 1);
        if j < s.len() && s[j] == 0x5d {
            let v: Vec<MetadataScalar> = Vec::new();
            assert(scalars_view(v@) =~= Seq::<SpecScalar>::empty());
            return Some((j + 1, MetadataValue::List(v)));
        }
        let (k, x) = match parse_scalar_exec(s, j) {
            Some(p) => p,
            None => return None,
        };
        let m = skip_ws_exec(s, k);
        match list_rest_exec(s, m) {
            Some((e, rest)) => {
                let mut v: Vec<MetadataScalar> = Vec::new();
                v.push(x);
                let mut rest = rest;
                let ghost rv = rest@;
                v.append(&mut rest);
                assert(scalars_view(v@) =~= seq![x@] + scalars_view(rv));
                Some((e, MetadataValue::List(v)))
            },
            None => None,
        }
    } else {
        match parse_scalar_exec(s, i) {
            Some((j, x)) => Some((j, MetadataValue::Scalar(x))),
            None => None,
        }
    }
}

pub(crate) fn clone_names(v: &Vec<String>) -> (r: Vec<String>)
    ensures
        r@ == v@,
{
    let mut r: Vec<String> = Vec::new();
    let mut k: usize = 0;
    while k < v.len()
        invariant
            k <= v@.len(),
            r@ == v@.subrange(0, k as int),
        decreases v@.len() - k,
    {
        r.push(v[k].clone());
        k = k + 1;
        assert(r@ =~= v@.subrange(0, k as int));
    }
    assert(v@.subrange(0, v@.len() as int) =~= v@);
    r
}

fn parse_entry_exec(s: &[u8], i: usize, path: &Vec<String>) -> (r: Option<(usize, Vec<MetadataEntry>)>)
    requires
        i <= s.len(),
    ensures
        match (r, parse_entry(s@, i as int, names_view(path@))) {
            (Some((j, v)), Some((sj, sv))) => j == sj && entries_view(v@) == sv,
            (None, None) => true,
            _ => false,
        },
    decreases s@.len() - i, 0int,
{
    let (j, name) = match parse_name_exec(s, i) {
        Some(p) => p,
        None => return None,
    };
    let k = skip_ws_exec(s, j);
    if k < s.len() && s[k] == 0x3d {
        let start = skip_ws_exec(s, k + 1);
        match parse_value_exec(s, start) {
            Some((m, v)) => {
                let e = MetadataEntry { path: clone_names(path), key: name, value: Some(v) };
                let mut out: Vec<MetadataEntry> = Vec::new();
                out.push(e);
                assert(entries_view(out@) =~= seq![e@]);
                Some((m, out))
            },
            None => None,
        }
    } else if k < s.len() && s[k] == 0x7b {
        let mut inner = clone_names(path);
        inner.push(name.clone());
        assert(names_view(inner@) =~= names_view(path@).push(name@));
        match parse_body_exec(s, k + 1, &inner) {
            Some((m, es)) => {
                if m < s.len() && s[m] == 0x7d {
                    let header = MetadataEntry { path: clone_names(path), key: name, value: None };
                    let mut out: Vec<MetadataEntry> = Vec::new();
                    out.push(header);
                    let mut es = es;
                    let ghost ev = es@;
                    out.append(&mut es);
                    assert(entries_view(out@) =~= seq![header@] + entries_view(ev));
                    Some((m + 1, out))
                } else {
                    None
                }
            },
            None => None,
        }
    } else {
        None
    }
}

fn parse_body_exec(s: &[u8], i: usize, path: &Vec<String>) -> (r: Option<(usize, Vec<MetadataEntry>)>)
    requires
        i <= s.len(),
    ensures
        match (r, parse_body(s@, i as int, names_view(path@))) {
            (Some((j, v)), Some((sj, sv))) => j == sj && entries_view(v@) == sv,
            (None, None) => true,
            _ => false,
        },
        r matches Some((j, _)) ==> i <= j <= s.len(),
    decreases s@.len() - i, 1int,
{
    let ghost p = names_view(path@);
    let mut acc: Vec<MetadataEntry> = Vec::new();
    let mut cur = i;
    loop
        invariant
            i <= cur <= s.len(),
            p == names_view(path@),
            parse_body(s@, i as int, p) == prepend_entries(
                entries_view(acc@),
                parse_body(s@, cur as int, p),
            ),
        decreases s@.len() - cur,
    {
        let k = skip_ws_exec(s, cur);
        if k < s.len() && s[k] == 0x7d {
            assert(entries_view(acc@) + Seq::<SpecEntry>::empty() =~= entries_view(acc@));
            return Some((k, acc));
        }
        let (m, es) = match parse_entry_exec(s, k, path) {
            Some(x) => x,
            None => return None,
        };
        if !(k < m && m <= s.len()) {
            return None;
        }
        let ghost ev = es@;
        let ghost av = acc@;
        let mut es = es;
        acc.append(&mut es);
        proof {
            assert(entries_view(acc@) =~= entries_view(av) + entries_view(ev));
            if let Some((f, rest)) = parse_body(s@, m as int, p) {
                assert(entries_view(av) + (entries_view(ev) + rest) =~= entries_view(acc@)
                    + rest);
            }
        }
        cur = m;
    }
}

impl MetadataElements {
    /// Parses metadata text given as its UTF-8 bytes. Parsing stops at the
    /// first top-level entry that does not parse; returns the position where
    /// that unparsed rest begins, and the entries before it.
    pub fn parse(s: &[u8]) -> (r: (usize, MetadataElements))
        ensures
            r.0 == parse_top(s@, 0).0,
            r.1@ == spec_parse_metadata(s@),
    {
        let mut acc: Vec<MetadataEntry> = Vec::new();
        let mut cur: usize = 0;
        let top: Vec<String> = Vec::new();
        assert(names_view(top@) =~= Seq::<Seq<char>>::empty());
        loop
            invariant
                cur <= s.len(),
                names_view(top@) == Seq::<Seq<char>>::empty(),
                parse_top(s@, 0) == ({
                    let (e, rest) = parse_top(s@, cur as int);
                    (e, entries_view(acc@) + rest)
                }),
            decreases s@.len() - cur,
        {
            let k = skip_ws_exec(s, cur);
            let (m, es) = match parse_entry_exec(s, k, &top) {
                Some(x) => x,
                None => {
                    assert(entries_view(acc@) + Seq::<SpecEntry>::empty() =~= entries_view(acc@));
                    return (k, MetadataElements { entries: acc });
                },
            };
            if !(k < m && m <= s.len()) {
                assert(entries_view(acc@) + Seq::<SpecEntry>::empty() =~= entries_view(acc@));
                return (k, MetadataElements { entries: acc });
            }
            let ghost ev = es@;
            let ghost av = acc@;
            let mut es = es;
            acc.append(&mut es);
            proof {
                assert(entries_view(acc@) =~= entries_view(av) + entries_view(ev));
                let (e, rest) = parse_top(s@, m as int);
                assert(entries_view(av) + (entries_view(ev) + rest) =~= entries_view(acc@) + rest);
            }
            cur = m;
        }
    }
}

} // verus!
