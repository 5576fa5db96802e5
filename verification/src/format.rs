//! The dictionary document format.
//!
//! A dictionary is stored as a textual document: a sequence at the root,
//! whose elements are records with the textual fields `WORD` and
//! `DEFINITION`, both required and non-empty. Additional fields on a record
//! are ignored; whitespace outside string content is insignificant; field
//! names are case-sensitive. The grammar is specified here over byte
//! sequences, the parser is proved equal to that specification, and
//! [`lemma_serialize_then_load`] shows that serialising entries to the
//! canonical form and loading them back returns the same entries.

use vstd::prelude::*;

use crate::text::is_space;
use crate::text::is_space_exec;

verus! {

/// Why a document was rejected by the loader.
#[derive(Clone, Copy, PartialEq, Eq, Structural, Debug)]
pub enum FormatError {
    /// The document root is not a sequence.
    NotASequence,
    /// A record lacks a non-empty `WORD` or `DEFINITION` field, or an
    /// element of the sequence is not a record.
    MissingField,
    /// The document is not well-formed.
    Malformed,
}

impl FormatError {
    /// A short human-readable reason, never used for control flow.
    pub fn detail(&self) -> (r: &'static str)
        ensures
            match self {
                FormatError::NotASequence => r@ == "root not a sequence"@,
                FormatError::MissingField => r@ == "missing word or definition"@,
                FormatError::Malformed => r@ == "malformed document"@,
            },
    {
        match self {
            FormatError::NotASequence => "root not a sequence",
            FormatError::MissingField => "missing word or definition",
            FormatError::Malformed => "malformed document",
        }
    }
}

/// One word/definition pair as raw text bytes, exactly as written in the
/// document after escape processing.
#[derive(Debug)]
pub struct RawEntry {
    pub word: Vec<u8>,
    pub definition: Vec<u8>,
}

/// The mathematical model of a [`RawEntry`].
pub struct EntryModel {
    pub word: Seq<u8>,
    pub definition: Seq<u8>,
}

impl View for RawEntry {
    type V = EntryModel;

    open spec fn view(&self) -> EntryModel {
        EntryModel { word: self.word@, definition: self.definition@ }
    }
}

/// The models of a sequence of raw entries.
pub open spec fn entries_view(s: Seq<RawEntry>) -> Seq<EntryModel> {
    s.map_values(|e: RawEntry| e@)
}

/// The bytes of the field name `WORD`.
pub open spec fn word_key() -> Seq<u8> {
    seq![0x57u8, 0x4fu8, 0x52u8, 0x44u8]
}

/// The bytes of the field name `DEFINITION`.
pub open spec fn definition_key() -> Seq<u8> {
    seq![0x44u8, 0x45u8, 0x46u8, 0x49u8, 0x4eu8, 0x49u8, 0x54u8, 0x49u8, 0x4fu8, 0x4eu8]
}

/// A decimal digit byte.
pub open spec fn is_digit(b: u8) -> bool {
    0x30 <= b && b <= 0x39
}

/// The byte that an escape character after a backslash stands for, if the
/// escape is recognised.
pub open spec fn unescape(c: u8) -> Option<u8> {
    if c == 0x22 {
        Some(0x22u8)
    } else if c == 0x5c {
        Some(0x5cu8)
    } else if c == 0x2f {
        Some(0x2fu8)
    } else if c == 0x62 {
        Some(0x08u8)
    } else if c == 0x66 {
        Some(0x0cu8)
    } else if c == 0x6e {
        Some(0x0au8)
    } else if c == 0x72 {
        Some(0x0du8)
    } else if c == 0x74 {
        Some(0x09u8)
    } else {
        None
    }
}

/// The first position at or after `i` that does not hold whitespace.
pub open spec fn spec_ws(b: Seq<u8>, i: int) -> int
    decreases b.len() - i,
    when 0 <= i <= b.len()
{
    if i < b.len() && is_space(b[i]) {
        spec_ws(b, i + 1)
    } else {
        i
    }
}

/// The end of the run of decimal digits starting at `i`.
pub open spec fn spec_digits(b: Seq<u8>, i: int) -> int
    decreases b.len() - i,
    when 0 <= i <= b.len()
{
    if i < b.len() && is_digit(b[i]) {
        spec_digits(b, i + 1)
    } else {
        i
    }
}

/// The content and end position of a string whose opening quote stands just
/// before `i`, or `None` if the string is not well-formed.
pub open spec fn spec_str_body(b: Seq<u8>, i: int) -> Option<(Seq<u8>, int)>
    decreases b.len() - i,
    when 0 <= i <= b.len()
{
    if i >= b.len() {
        None
    } else if b[i] == 0x22 {
        Some((Seq::empty(), i + 1))
    } else if b[i] == 0x5c {
        if i + 1 < b.len() {
            match unescape(b[i + 1]) {
                Some(u) => match spec_str_body(b, i + 2) {
                    Some((s, j)) => Some((seq![u] + s, j)),
                    None => None,
                },
                None => None,
            }
        } else {
            None
        }
    } else if b[i] >= 0x20 {
        match spec_str_body(b, i + 1) {
            Some((s, j)) => Some((seq![b[i]] + s, j)),
            None => None,
        }
    } else {
        None
    }
}

/// The content and end position of a string starting with its opening quote
/// at `i`.
pub open spec fn spec_string(b: Seq<u8>, i: int) -> Option<(Seq<u8>, int)> {
    if 0 <= i && i < b.len() && b[i] == 0x22 {
        spec_str_body(b, i + 1)
    } else {
        None
    }
}

/// The end position of a number starting at `i`, or `None`.
pub open spec fn spec_number(b: Seq<u8>, i: int) -> Option<int> {
    let j = if 0 <= i && i < b.len() && b[i] == 0x2d {
        i + 1
    } else {
        i
    };
    if 0 <= j && j < b.len() && is_digit(b[j]) {
        let k = spec_digits(b, j);
        if b[j] == 0x30 && k != j + 1 {
            None
        } else {
            let kf = if k < b.len() && b[k] == 0x2e {
                if k + 1 < b.len() && is_digit(b[k + 1]) {
                    spec_digits(b, k + 1)
                } else {
                    -1
                }
            } else {
                k
            };
            if kf < 0 {
                None
            } else {
                let ke = if kf < b.len() && (b[kf] == 0x65 || b[kf] == 0x45) {
                    let s = if kf + 1 < b.len() && (b[kf + 1] == 0x2b || b[kf + 1] == 0x2d) {
                        kf + 2
                    } else {
                        kf + 1
                    };
                    if s < b.len() && is_digit(b[s]) {
                        spec_digits(b, s)
                    } else {
                        -1
                    }
                } else {
                    kf
                };
                if ke < 0 {
                    None
                } else {
                    Some(ke)
                }
            }
        }
    } else {
        None
    }
}

/// The bytes of the literal `true`.
pub open spec fn true_lit() -> Seq<u8> {
    seq![0x74u8, 0x72u8, 0x75u8, 0x65u8]
}

/// The bytes of the literal `false`.
pub open spec fn false_lit() -> Seq<u8> {
    seq![0x66u8, 0x61u8, 0x6cu8, 0x73u8, 0x65u8]
}

/// The bytes of the literal `null`.
pub open spec fn null_lit() -> Seq<u8> {
    seq![0x6eu8, 0x75u8, 0x6cu8, 0x6cu8]
}

/// The end position of the value starting at `i`, or `None` if no
/// well-formed value starts there.
pub open spec fn spec_value(b: Seq<u8>, i: int) -> Option<int>
    decreases b.len() - i, 0int,
    when 0 <= i <= b.len()
{
    if i >= b.len() {
        None
    } else if b[i] == 0x22 {
        match spec_str_body(b, i + 1) {
            Some((_s, j)) => Some(j),
            None => None,
        }
    } else if b[i] == 0x5b {
        spec_array_body(b, i + 1)
    } else if b[i] == 0x7b {
        spec_object_body(b, i + 1)
    } else if b[i] == 0x74 {
        if i + 4 <= b.len() && b.subrange(i, i + 4) == true_lit() {
            Some(i + 4)
        } else {
            None
        }
    } else if b[i] == 0x66 {
        if i + 5 <= b.len() && b.subrange(i, i + 5) == false_lit() {
            Some(i + 5)
        } else {
            None
        }
    } else if b[i] == 0x6e {
        if i + 4 <= b.len() && b.subrange(i, i + 4) == null_lit() {
            Some(i + 4)
        } else {
            None
        }
    } else if b[i] == 0x2d || is_digit(b[i]) {
        spec_number(b, i)
    } else {
        None
    }
}

/// The end position of an array whose opening bracket stands just before
/// `i`.
pub open spec fn spec_array_body(b: Seq<u8>, i: int) -> Option<int>
    decreases b.len() - i, 2int,
    when 0 <= i <= b.len()
{
    let j = spec_ws(b, i);
    if j < i || j > b.len() {
        None
    } else if j < b.len() && b[j] == 0x5d {
        Some(j + 1)
    } else {
        spec_array_elems(b, j)
    }
}

/// The end position of the remaining elements of an array, starting at an
/// element.
pub open spec fn spec_array_elems(b: Seq<u8>, i: int) -> Option<int>
    decreases b.len() - i, 1int,
    when 0 <= i <= b.len()
{
    match spec_value(b, i) {
        Some(k) => if k <= i || k > b.len() {
            None
        } else {
            let m = spec_ws(b, k);
            if m < k || m > b.len() {
                None
            } else if m < b.len() && b[m] == 0x2c {
                let n = spec_ws(b, m + 1);
                if n <= i || n > b.len() {
                    None
                } else {
                    spec_array_elems(b, n)
                }
            } else if m < b.len() && b[m] == 0x5d {
                Some(m + 1)
            } else {
                None
            }
        },
        None => None,
    }
}

/// The end position of an object whose opening brace stands just before
/// `i`.
pub open spec fn spec_object_body(b: Seq<u8>, i: int) -> Option<int>
    decreases b.len() - i, 2int,
    when 0 <= i <= b.len()
{
    let j = spec_ws(b, i);
    if j < i || j > b.len() {
        None
    } else if j < b.len() && b[j] == 0x7d {
        Some(j + 1)
    } else {
        spec_object_members(b, j)
    }
}

/// The end position of the remaining members of an object, starting at a
/// key.
pub open spec fn spec_object_members(b: Seq<u8>, i: int) -> Option<int>
    decreases b.len() - i, 1int,
    when 0 <= i <= b.len()
{
    match spec_string(b, i) {
        Some((_key, p)) => if p <= i || p > b.len() {
            None
        } else {
            let p2 = spec_ws(b, p);
            if p2 < p || p2 > b.len() {
                None
            } else if p2 < b.len() && b[p2] == 0x3a {
                let p3 = spec_ws(b, p2 + 1);
                if p3 <= i || p3 > b.len() {
                    None
                } else {
                    match spec_value(b, p3) {
                        Some(k) => if k <= p3 || k > b.len() {
                            None
                        } else {
                            let m = spec_ws(b, k);
                            if m < k || m > b.len() {
                                None
                            } else if m < b.len() && b[m] == 0x2c {
                                let n = spec_ws(b, m + 1);
                                if n <= i || n > b.len() {
                                    None
                                } else {
                                    spec_object_members(b, n)
                                }
                            } else if m < b.len() && b[m] == 0x7d {
                                Some(m + 1)
                            } else {
                                None
                            }
                        },
                        None => None,
                    }
                }
            } else {
                None
            }
        },
        None => None,
    }
}

/// What one member contributes to a record: the fields captured so far,
/// after the member's key and string value have been read.
pub open spec fn capture_field(
    key: Seq<u8>,
    value: Option<Seq<u8>>,
    w: Option<Seq<u8>>,
    d: Option<Seq<u8>>,
) -> (Option<Seq<u8>>, Option<Seq<u8>>) {
    if key == word_key() {
        (value, d)
    } else if key == definition_key() {
        (w, value)
    } else {
        (w, d)
    }
}

/// The captured `WORD` and `DEFINITION` fields and end position of the
/// remaining members of a record, starting at a key. A field counts as
/// captured only when its value is a string; a later member under the same
/// key replaces an earlier one.
pub open spec fn spec_entry_members(
    b: Seq<u8>,
    i: int,
    w: Option<Seq<u8>>,
    d: Option<Seq<u8>>,
) -> Option<(Option<Seq<u8>>, Option<Seq<u8>>, int)>
    decreases b.len() - i,
    when 0 <= i <= b.len()
{
    match spec_string(b, i) {
        Some((key, p)) => if p <= i || p > b.len() {
            None
        } else {
            let p2 = spec_ws(b, p);
            if p2 < p || p2 > b.len() {
                None
            } else if p2 < b.len() && b[p2] == 0x3a {
                let p3 = spec_ws(b, p2 + 1);
                if p3 <= i || p3 > b.len() {
                    None
                } else {
                    let parsed: Option<(Option<Seq<u8>>, int)> = if p3 < b.len() && b[p3] == 0x22 {
                        match spec_str_body(b, p3 + 1) {
                            Some((s, k)) => Some((Some(s), k)),
                            None => None,
                        }
                    } else {
                        match spec_value(b, p3) {
                            Some(k) => Some((None, k)),
                            None => None,
                        }
                    };
                    match parsed {
                        Some((captured, k)) => if k <= p3 || k > b.len() {
                            None
                        } else {
                            let fields = capture_field(key, captured, w, d);
                            let m = spec_ws(b, k);
                            if m < k || m > b.len() {
                                None
                            } else if m < b.len() && b[m] == 0x2c {
                                let n = spec_ws(b, m + 1);
                                if n <= i || n > b.len() {
                                    None
                                } else {
                                    spec_entry_members(b, n, fields.0, fields.1)
                                }
                            } else if m < b.len() && b[m] == 0x7d {
                                Some((fields.0, fields.1, m + 1))
                            } else {
                                None
                            }
                        },
                        None => None,
                    }
                }
            } else {
                None
            }
        },
        None => None,
    }
}

/// The captured fields and end position of a record starting at `i`, or
/// `None` if no well-formed record starts there.
pub open spec fn spec_entry(b: Seq<u8>, i: int) -> Option<(Option<Seq<u8>>, Option<Seq<u8>>, int)> {
    if 0 <= i && i < b.len() && b[i] == 0x7b {
        let j = spec_ws(b, i + 1);
        if j <= i || j > b.len() {
            None
        } else if j < b.len() && b[j] == 0x7d {
            Some((None, None, j + 1))
        } else {
            spec_entry_members(b, j, None, None)
        }
    } else {
        None
    }
}

/// The entries of the remaining elements of the root sequence, starting at
/// an element, appended to `acc`; or the error that the first offending
/// element causes.
pub open spec fn spec_entries(b: Seq<u8>, i: int, acc: Seq<EntryModel>) -> Result<
    Seq<EntryModel>,
    FormatError,
>
    decreases b.len() - i,
    when 0 <= i <= b.len()
{
    match spec_entry(b, i) {
        Some((wo, dopt, end)) => if end <= i || end > b.len() {
            Err(FormatError::Malformed)
        } else {
            match (wo, dopt) {
                (Some(w), Some(d)) => if w.len() == 0 || d.len() == 0 {
                    Err(FormatError::MissingField)
                } else {
                    let acc2 = acc.push(EntryModel { word: w, definition: d });
                    let m = spec_ws(b, end);
                    if m < end || m > b.len() {
                        Err(FormatError::Malformed)
                    } else if m < b.len() && b[m] == 0x2c {
                        let n = spec_ws(b, m + 1);
                        if n <= i || n > b.len() {
                            Err(FormatError::Malformed)
                        } else {
                            spec_entries(b, n, acc2)
                        }
                    } else if m < b.len() && b[m] == 0x5d {
                        if spec_ws(b, m + 1) == b.len() {
                            Ok(acc2)
                        } else {
                            Err(FormatError::Malformed)
                        }
                    } else {
                        Err(FormatError::Malformed)
                    }
                },
                _ => Err(FormatError::MissingField),
            }
        },
        None => if 0 <= i && i < b.len() && b[i] == 0x7b {
            Err(FormatError::Malformed)
        } else {
            match spec_value(b, i) {
                Some(_) => Err(FormatError::MissingField),
                None => Err(FormatError::Malformed),
            }
        },
    }
}

/// What loading a document yields: its entries in order, or the error for
/// the first offence against the format.
pub open spec fn spec_load(b: Seq<u8>) -> Result<Seq<EntryModel>, FormatError> {
    let i = spec_ws(b, 0);
    if !(0 <= i && i < b.len() && b[i] == 0x5b) {
        match spec_value(b, i) {
            Some(_) => Err(FormatError::NotASequence),
            None => Err(FormatError::Malformed),
        }
    } else {
        let j = spec_ws(b, i + 1);
        if j <= i || j > b.len() {
            Err(FormatError::Malformed)
        } else if j < b.len() && b[j] == 0x5d {
            if spec_ws(b, j + 1) == b.len() {
                Ok(Seq::empty())
            } else {
                Err(FormatError::Malformed)
            }
        } else {
            spec_entries(b, j, Seq::empty())
        }
    }
}

/// The model of an optional byte buffer.
pub open spec fn opt_bytes_view(o: Option<Vec<u8>>) -> Option<Seq<u8>> {
    match o {
        Some(v) => Some(v@),
        None => None,
    }
}

/// Skips whitespace starting at `i`.
pub fn skip_ws(b: &[u8], i: usize) -> (r: usize)
    requires
        i <= b@.len(),
    ensures
        r == spec_ws(b@, i as int),
        i <= r,
        r <= b@.len(),
{
    let mut p: usize = i;
    while p < b.len() && is_space_exec(b[p])
        invariant
            i <= p <= b@.len(),
            spec_ws(b@, i as int) == spec_ws(b@, p as int),
        decreases b@.len() - p,
    {
        p = p + 1;
    }
    p
}

/// Executable test for a decimal digit byte.
fn is_digit_exec(b: u8) -> (r: bool)
    ensures
        r == is_digit(b),
{
    0x30 <= b && b <= 0x39
}

/// Skips the run of decimal digits starting at `i`.
fn skip_digits(b: &[u8], i: usize) -> (r: usize)
    requires
        i <= b@.len(),
    ensures
        r == spec_digits(b@, i as int),
        i <= r,
        r <= b@.len(),
        (i < b@.len() && is_digit(b@[i as int])) ==> i < r,
{
    let mut p: usize = i;
    while p < b.len() && is_digit_exec(b[p])
        invariant
            i <= p <= b@.len(),
            spec_digits(b@, i as int) == spec_digits(b@, p as int),
            (i < b@.len() && is_digit(b@[i as int])) ==> i < p || (p < b@.len() && is_digit(
                b@[p as int],
            )),
        decreases b@.len() - p,
    {
        p = p + 1;
    }
    p
}

/// The byte an escape stands for, if recognised.
fn unescape_exec(c: u8) -> (r: Option<u8>)
    ensures
        r == unescape(c),
{
    if c == 0x22 {
        Some(0x22u8)
    } else if c == 0x5c {
        Some(0x5cu8)
    } else if c == 0x2f {
        Some(0x2fu8)
    } else if c == 0x62 {
        Some(0x08u8)
    } else if c == 0x66 {
        Some(0x0cu8)
    } else if c == 0x6e {
        Some(0x0au8)
    } else if c == 0x72 {
        Some(0x0du8)
    } else if c == 0x74 {
        Some(0x09u8)
    } else {
        None
    }
}

/// Reads the body of a string whose opening quote stands just before `i`,
/// returning its content bytes and end position.
fn parse_str_body(b: &[u8], i: usize) -> (r: Option<(Vec<u8>, usize)>)
    requires
        i <= b@.len(),
    ensures
        (match r {
            Some((s, j)) => spec_str_body(b@, i as int) == Some((s@, j as int)) && i < j && j
                <= b@.len(),
            None => spec_str_body(b@, i as int) is None,
        }),
{
    let mut acc: Vec<u8> = Vec::new();
    let mut p: usize = i;
    loop
        invariant
            i <= p <= b@.len(),
            spec_str_body(b@, i as int) == (match spec_str_body(b@, p as int) {
                Some((s, j)) => Some((acc@ + s, j)),
                None => None::<(Seq<u8>, int)>,
            }),
        decreases b@.len() - p,
    {
        if p >= b.len() {
            return None;
        }
        let c = b[p];
        if c == 0x22 {
            proof {
                assert(spec_str_body(b@, p as int) == Some((Seq::<u8>::empty(), p + 1)));
                assert(acc@ + Seq::<u8>::empty() =~= acc@);
            }
            return Some((acc, p + 1));
        } else if c == 0x5c {
            if p + 1 >= b.len() {
                return None;
            }
            match unescape_exec(b[p + 1]) {
                Some(u) => {
                    proof {
                        let ghost rest = spec_str_body(b@, p + 2);
                        assert(spec_str_body(b@, p as int) == (match rest {
                            Some((s, j)) => Some((seq![u] + s, j)),
                            None => None::<(Seq<u8>, int)>,
                        }));
                        if rest is Some {
                            let (s, _j) = rest->0;
                            assert(acc@.push(u) + s =~= acc@ + (seq![u] + s));
                        }
                    }
                    acc.push(u);
                    p = p + 2;
                },
                None => {
                    return None;
                },
            }
        } else if c >= 0x20 {
            proof {
                let ghost rest = spec_str_body(b@, p + 1);
                assert(spec_str_body(b@, p as int) == (match rest {
                    Some((s, j)) => Some((seq![c] + s, j)),
                    None => None::<(Seq<u8>, int)>,
                }));
                if rest is Some {
                    let (s, _j) = rest->0;
                    assert(acc@.push(c) + s =~= acc@ + (seq![c] + s));
                }
            }
            acc.push(c);
            p = p + 1;
        } else {
            return None;
        }
    }
}

/// Reads a string whose opening quote stands at `i`.
fn parse_string(b: &[u8], i: usize) -> (r: Option<(Vec<u8>, usize)>)
    requires
        i <= b@.len(),
    ensures
        (match r {
            Some((s, j)) => spec_string(b@, i as int) == Some((s@, j as int)) && i < j && j
                <= b@.len(),
            None => spec_string(b@, i as int) is None,
        }),
{
    if i < b.len() && b[i] == 0x22 {
        parse_str_body(b, i + 1)
    } else {
        None
    }
}

/// Skips a number starting at `i`.
fn skip_number(b: &[u8], i: usize) -> (r: Option<usize>)
    requires
        i <= b@.len(),
    ensures
        (match r {
            Some(j) => spec_number(b@, i as int) == Some(j as int) && i < j && j <= b@.len(),
            None => spec_number(b@, i as int) is None,
        }),
{
    let j: usize = if i < b.len() && b[i] == 0x2d {
        i + 1
    } else {
        i
    };
    if j < b.len() && is_digit_exec(b[j]) {
        let k = skip_digits(b, j);
        if b[j] == 0x30 && k != j + 1 {
            return None;
        }
        let kf: usize;
        if k < b.len() && b[k] == 0x2e {
            if k + 1 < b.len() && is_digit_exec(b[k + 1]) {
                kf = skip_digits(b, k + 1);
            } else {
                return None;
            }
        } else {
            kf = k;
        }
        let ke: usize;
        if kf < b.len() && (b[kf] == 0x65 || b[kf] == 0x45) {
            let s: usize = if kf + 1 < b.len() && (b[kf + 1] == 0x2b || b[kf + 1] == 0x2d) {
                kf + 2
            } else {
                kf + 1
            };
            if s < b.len() && is_digit_exec(b[s]) {
                ke = skip_digits(b, s);
            } else {
                return None;
            }
        } else {
            ke = kf;
        }
        Some(ke)
    } else {
        None
    }
}

/// Skips the value starting at `i`.
fn skip_value(b: &[u8], i: usize) -> (r: Option<usize>)
    requires
        i <= b@.len(),
    ensures
        (match r {
            Some(j) => spec_value(b@, i as int) == Some(j as int) && i < j && j <= b@.len(),
            None => spec_value(b@, i as int) is None,
        }),
    decreases b@.len() - i, 0int,
{
    if i >= b.len() {
        return None;
    }
    let c = b[i];
    if c == 0x22 {
        match parse_str_body(b, i + 1) {
            Some((_s, j)) => Some(j),
            None => None,
        }
    } else if c == 0x5b {
        skip_array_body(b, i + 1)
    } else if c == 0x7b {
        skip_object_body(b, i + 1)
    } else if c == 0x74 {
        if b.len() - i >= 4 && b[i + 1] == 0x72 && b[i + 2] == 0x75 && b[i + 3] == 0x65 {
            proof {
                assert(b@.subrange(i as int, i + 4) =~= true_lit());
            }
            Some(i + 4)
        } else {
            proof {
                if i + 4 <= b@.len() && b@.subrange(i as int, i + 4) == true_lit() {
                    assert(b@[i + 1] == true_lit()[1] && b@[i + 2] == true_lit()[2] && b@[i + 3]
                        == true_lit()[3]);
                }
            }
            None
        }
    } else if c == 0x66 {
        if b.len() - i >= 5 && b[i + 1] == 0x61 && b[i + 2] == 0x6c && b[i + 3] == 0x73 && b[i + 4]
            == 0x65 {
            proof {
                assert(b@.subrange(i as int, i + 5) =~= false_lit());
            }
            Some(i + 5)
        } else {
            proof {
                if i + 5 <= b@.len() && b@.subrange(i as int, i + 5) == false_lit() {
                    assert(b@[i + 1] == false_lit()[1] && b@[i + 2] == false_lit()[2] && b@[i + 3]
                        == false_lit()[3] && b@[i + 4] == false_lit()[4]);
                }
            }
            None
        }
    } else if c == 0x6e {
        if b.len() - i >= 4 && b[i + 1] == 0x75 && b[i + 2] == 0x6c && b[i + 3] == 0x6c {
            proof {
                assert(b@.subrange(i as int, i + 4) =~= null_lit());
            }
            Some(i + 4)
        } else {
            proof {
                if i + 4 <= b@.len() && b@.subrange(i as int, i + 4) == null_lit() {
                    assert(b@[i + 1] == null_lit()[1] && b@[i + 2] == null_lit()[2] && b@[i + 3]
                        == null_lit()[3]);
                }
            }
            None
        }
    } else if c == 0x2d || is_digit_exec(c) {
        skip_number(b, i)
    } else {
        None
    }
}

/// Skips the rest of an array whose opening bracket stands just before `i`.
fn skip_array_body(b: &[u8], i: usize) -> (r: Option<usize>)
    requires
        i <= b@.len(),
    ensures
        (match r {
            Some(j) => spec_array_body(b@, i as int) == Some(j as int) && i <= j && j <= b@.len(),
            None => spec_array_body(b@, i as int) is None,
        }),
    decreases b@.len() - i, 2int,
{
    let j = skip_ws(b, i);
    if j < b.len() && b[j] == 0x5d {
        Some(j + 1)
    } else {
        skip_array_elems(b, j)
    }
}

/// Skips the remaining elements of an array, starting at an element.
fn skip_array_elems(b: &[u8], i: usize) -> (r: Option<usize>)
    requires
        i <= b@.len(),
    ensures
        (match r {
            Some(j) => spec_array_elems(b@, i as int) == Some(j as int) && i < j && j <= b@.len(),
            None => spec_array_elems(b@, i as int) is None,
        }),
    decreases b@.len() - i, 1int,
{
    match skip_value(b, i) {
        Some(k) => {
            let m = skip_ws(b, k);
            if m < b.len() && b[m] == 0x2c {
                let n = skip_ws(b, m + 1);
                skip_array_elems(b, n)
            } else if m < b.len() && b[m] == 0x5d {
                Some(m + 1)
            } else {
                None
            }
        },
        None => None,
    }
}

/// Skips the rest of an object whose opening brace stands just before `i`.
fn skip_object_body(b: &[u8], i: usize) -> (r: Option<usize>)
    requires
        i <= b@.len(),
    ensures
        (match r {
            Some(j) => spec_object_body(b@, i as int) == Some(j as int) && i <= j && j <= b@.len(),
            None => spec_object_body(b@, i as int) is None,
        }),
    decreases b@.len() - i, 2int,
{
    let j = skip_ws(b, i);
    if j < b.len() && b[j] == 0x7d {
        Some(j + 1)
    } else {
        skip_object_members(b, j)
    }
}

/// Skips the remaining members of an object, starting at a key.
fn skip_object_members(b: &[u8], i: usize) -> (r: Option<usize>)
    requires
        i <= b@.len(),
    ensures
        (match r {
            Some(j) => spec_object_members(b@, i as int) == Some(j as int) && i < j && j
                <= b@.len(),
            None => spec_object_members(b@, i as int) is None,
        }),
    decreases b@.len() - i, 1int,
{
    match parse_string(b, i) {
        Some((_key, p)) => {
            let p2 = skip_ws(b, p);
            if p2 < b.len() && b[p2] == 0x3a {
                let p3 = skip_ws(b, p2 + 1);
                match skip_value(b, p3) {
                    Some(k) => {
                        let m = skip_ws(b, k);
                        if m < b.len() && b[m] == 0x2c {
                            let n = skip_ws(b, m + 1);
                            skip_object_members(b, n)
                        } else if m < b.len() && b[m] == 0x7d {
                            Some(m + 1)
                        } else {
                            None
                        }
                    },
                    None => None,
                }
            } else {
                None
            }
        },
        None => None,
    }
}

/// Whether `k` holds exactly the field name `WORD`.
fn is_word_key(k: &Vec<u8>) -> (r: bool)
    ensures
        r == (k@ == word_key()),
{
    if k.len() == 4 && k[0] == 0x57 && k[1] == 0x4f && k[2] == 0x52 && k[3] == 0x44 {
        proof {
            assert(k@ =~= word_key());
        }
        true
    } else {
        proof {
            if k@ == word_key() {
                assert(k@.len() == 4);
                assert(k@[0] == 0x57 && k@[1] == 0x4f && k@[2] == 0x52 && k@[3] == 0x44);
            }
        }
        false
    }
}

/// Whether `k` holds exactly the field name `DEFINITION`.
fn is_definition_key(k: &Vec<u8>) -> (r: bool)
    ensures
        r == (k@ == definition_key()),
{
    if k.len() == 10 && k[0] == 0x44 && k[1] == 0x45 && k[2] == 0x46 && k[3] == 0x49 && k[4] == 0x4e
        && k[5] == 0x49 && k[6] == 0x54 && k[7] == 0x49 && k[8] == 0x4f && k[9] == 0x4e {
        proof {
            assert(k@ =~= definition_key());
        }
        true
    } else {
        proof {
            if k@ == definition_key() {
                assert(k@.len() == 10);
                assert(k@[0] == 0x44 && k@[1] == 0x45 && k@[2] == 0x46 && k@[3] == 0x49 && k@[4]
                    == 0x4e && k@[5] == 0x49 && k@[6] == 0x54 && k@[7] == 0x49 && k@[8] == 0x4f
                    && k@[9] == 0x4e);
            }
        }
        false
    }
}

/// Reads the remaining members of a record, starting at a key, keeping the
/// last string values written under `WORD` and `DEFINITION`.
fn parse_entry_members(b: &[u8], i: usize, w: Option<Vec<u8>>, d: Option<Vec<u8>>) -> (r: Option<
    (Option<Vec<u8>>, Option<Vec<u8>>, usize),
>)
    requires
        i <= b@.len(),
    ensures
        (match r {
            Some((wo, dopt, j)) => spec_entry_members(
                b@,
                i as int,
                opt_bytes_view(w),
                opt_bytes_view(d),
            ) == Some((opt_bytes_view(wo), opt_bytes_view(dopt), j as int)) && i < j && j
                <= b@.len(),
            None => spec_entry_members(b@, i as int, opt_bytes_view(w), opt_bytes_view(d)) is None,
        }),
    decreases b@.len() - i,
{
    match parse_string(b, i) {
        Some((key, p)) => {
            let p2 = skip_ws(b, p);
            if p2 < b.len() && b[p2] == 0x3a {
                let p3 = skip_ws(b, p2 + 1);
                let parsed: Option<(Option<Vec<u8>>, usize)> = if p3 < b.len() && b[p3] == 0x22 {
                    match parse_str_body(b, p3 + 1) {
                        Some((s, k)) => Some((Some(s), k)),
                        None => None,
                    }
                } else {
                    match skip_value(b, p3) {
                        Some(k) => Some((None, k)),
                        None => None,
                    }
                };
                match parsed {
                    Some((captured, k)) => {
                        let w2: Option<Vec<u8>>;
                        let d2: Option<Vec<u8>>;
                        if is_word_key(&key) {
                            w2 = captured;
                            d2 = d;
                        } else if is_definition_key(&key) {
                            w2 = w;
                            d2 = captured;
                        } else {
                            w2 = w;
                            d2 = d;
                        }
                        let m = skip_ws(b, k);
                        if m < b.len() && b[m] == 0x2c {
                            let n = skip_ws(b, m + 1);
                            parse_entry_members(b, n, w2, d2)
                        } else if m < b.len() && b[m] == 0x7d {
                            Some((w2, d2, m + 1))
                        } else {
                            None
                        }
                    },
                    None => None,
                }
            } else {
                None
            }
        },
        None => None,
    }
}

/// Reads a record starting at `i`.
fn parse_entry(b: &[u8], i: usize) -> (r: Option<(Option<Vec<u8>>, Option<Vec<u8>>, usize)>)
    requires
        i <= b@.len(),
    ensures
        (match r {
            Some((wo, dopt, j)) => spec_entry(b@, i as int) == Some(
                (opt_bytes_view(wo), opt_bytes_view(dopt), j as int),
            ) && i < j && j <= b@.len(),
            None => spec_entry(b@, i as int) is None,
        }),
{
    if i < b.len() && b[i] == 0x7b {
        let j = skip_ws(b, i + 1);
        if j < b.len() && b[j] == 0x7d {
            Some((None, None, j + 1))
        } else {
            parse_entry_members(b, j, None, None)
        }
    } else {
        None
    }
}

/// Reads the remaining elements of the root sequence, starting at an
/// element, and appends their entries to `acc`.
fn parse_entries(b: &[u8], i: usize, acc: Vec<RawEntry>) -> (r: Result<Vec<RawEntry>, FormatError>)
    requires
        i <= b@.len(),
    ensures
        (match r {
            Ok(v) => spec_entries(b@, i as int, entries_view(acc@)) == Ok::<Seq<EntryModel>, FormatError>(entries_view(v@)),
            Err(e) => spec_entries(b@, i as int, entries_view(acc@)) == Err::<Seq<EntryModel>, FormatError>(e),
        }),
    decreases b@.len() - i,
{
    match parse_entry(b, i) {
        Some((wo, dopt, end)) => {
            match (wo, dopt) {
                (Some(w), Some(d)) => {
                    if w.len() == 0 || d.len() == 0 {
                        Err(FormatError::MissingField)
                    } else {
                        let entry = RawEntry { word: w, definition: d };
                        let ghost model = entry@;
                        let mut acc2 = acc;
                        acc2.push(entry);
                        proof {
                            assert(entries_view(acc2@) =~= entries_view(acc@).push(model));
                        }
                        let m = skip_ws(b, end);
                        if m < b.len() && b[m] == 0x2c {
                            let n = skip_ws(b, m + 1);
                            parse_entries(b, n, acc2)
                        } else if m < b.len() && b[m] == 0x5d {
                            let t = skip_ws(b, m + 1);
                            if t == b.len() {
                                Ok(acc2)
                            } else {
                                Err(FormatError::Malformed)
                            }
                        } else {
                            Err(FormatError::Malformed)
                        }
                    }
                },
                _ => Err(FormatError::MissingField),
            }
        },
        None => {
            if i < b.len() && b[i] == 0x7b {
                Err(FormatError::Malformed)
            } else {
                match skip_value(b, i) {
                    Some(_) => Err(FormatError::MissingField),
                    None => Err(FormatError::Malformed),
                }
            }
        },
    }
}

/// Loads a dictionary document: the entries of its root sequence, in order,
/// or the error for the first offence against the format.
pub fn parse_dictionary(b: &[u8]) -> (r: Result<Vec<RawEntry>, FormatError>)
    ensures
        (match r {
            Ok(v) => spec_load(b@) == Ok::<Seq<EntryModel>, FormatError>(entries_view(v@)),
            Err(e) => spec_load(b@) == Err::<Seq<EntryModel>, FormatError>(e),
        }),
{
    let i = skip_ws(b, 0);
    if !(i < b.len() && b[i] == 0x5b) {
        match skip_value(b, i) {
            Some(_) => Err(FormatError::NotASequence),
            None => Err(FormatError::Malformed),
        }
    } else {
        let j = skip_ws(b, i + 1);
        if j < b.len() && b[j] == 0x5d {
            let t = skip_ws(b, j + 1);
            if t == b.len() {
                proof {
                    assert(entries_view(Seq::<RawEntry>::empty()) =~= Seq::<EntryModel>::empty());
                }
                Ok(Vec::new())
            } else {
                Err(FormatError::Malformed)
            }
        } else {
            let ghost empty_acc = Seq::<RawEntry>::empty();
            proof {
                assert(entries_view(empty_acc) =~= Seq::<EntryModel>::empty());
            }
            parse_entries(b, j, Vec::new())
        }
    }
}

/// The byte an escaped content byte is written as: quotes and backslashes
/// get a backslash escape, every other byte stands for itself.
pub open spec fn esc_byte(c: u8) -> Seq<u8> {
    if c == 0x22 || c == 0x5c {
        seq![0x5cu8, c]
    } else {
        seq![c]
    }
}

/// String content in its canonical written form.
pub open spec fn spec_escape(s: Seq<u8>) -> Seq<u8>
    decreases s.len(),
{
    if s.len() == 0 {
        Seq::empty()
    } else {
        esc_byte(s[0]) + spec_escape(s.drop_first())
    }
}

/// The opening of a canonical record, through the quote that starts the
/// word's value.
pub open spec fn entry_head() -> Seq<u8> {
    seq![0x7bu8, 0x22u8, 0x57u8, 0x4fu8, 0x52u8, 0x44u8, 0x22u8, 0x3au8, 0x22u8]
}

/// The middle of a canonical record, from the quote that closes the word's
/// value through the quote that opens the definition's.
pub open spec fn entry_mid() -> Seq<u8> {
    seq![
        0x22u8,
        0x2cu8,
        0x22u8,
        0x44u8,
        0x45u8,
        0x46u8,
        0x49u8,
        0x4eu8,
        0x49u8,
        0x54u8,
        0x49u8,
        0x4fu8,
        0x4eu8,
        0x22u8,
        0x3au8,
        0x22u8,
    ]
}

/// The close of a canonical record.
pub open spec fn entry_tail() -> Seq<u8> {
    seq![0x22u8, 0x7du8]
}

/// One entry in the canonical document form.
pub open spec fn spec_ser_entry(e: EntryModel) -> Seq<u8> {
    entry_head() + spec_escape(e.word) + entry_mid() + spec_escape(e.definition) + entry_tail()
}

/// The elements after the first in the canonical form: a comma before each.
pub open spec fn spec_ser_rest(es: Seq<EntryModel>) -> Seq<u8>
    decreases es.len(),
{
    if es.len() == 0 {
        Seq::empty()
    } else {
        seq![0x2cu8] + spec_ser_entry(es[0]) + spec_ser_rest(es.drop_first())
    }
}

/// The elements of the root sequence in the canonical form.
pub open spec fn spec_ser_items(es: Seq<EntryModel>) -> Seq<u8> {
    if es.len() == 0 {
        Seq::empty()
    } else {
        spec_ser_entry(es[0]) + spec_ser_rest(es.drop_first())
    }
}

/// The canonical document form of a sequence of entries.
pub open spec fn spec_serialize(es: Seq<EntryModel>) -> Seq<u8> {
    seq![0x5bu8] + spec_ser_items(es) + seq![0x5du8]
}

/// Text that the canonical form carries faithfully: non-empty, with no
/// control bytes (quotes and backslashes are escaped; a control byte would
/// need an escape the format does not write).
pub open spec fn serializable_text(s: Seq<u8>) -> bool {
    s.len() > 0 && forall|i: int| 0 <= i < s.len() ==> s[i] >= 0x20
}

/// An entry the canonical form carries faithfully.
pub open spec fn serializable_entry(e: EntryModel) -> bool {
    serializable_text(e.word) && serializable_text(e.definition)
}

proof fn lemma_escape_snoc(t: Seq<u8>, c: u8)
    ensures
        spec_escape(t.push(c)) == spec_escape(t) + esc_byte(c),
    decreases t.len(),
{
    let u = t.push(c);
    assert(u.len() == t.len() + 1);
    if t.len() == 0 {
        assert(u[0] == c);
        assert(u.drop_first() =~= Seq::<u8>::empty());
        assert(spec_escape(u) == esc_byte(u[0]) + spec_escape(u.drop_first()));
        assert(spec_escape(u.drop_first()) == Seq::<u8>::empty());
        assert(esc_byte(c) + Seq::<u8>::empty() =~= esc_byte(c));
        assert(spec_escape(t) == Seq::<u8>::empty());
        assert(Seq::<u8>::empty() + esc_byte(c) =~= esc_byte(c));
    } else {
        assert(u[0] == t[0]);
        assert(u.drop_first() =~= t.drop_first().push(c));
        lemma_escape_snoc(t.drop_first(), c);
        assert(spec_escape(u) == esc_byte(t[0]) + (spec_escape(t.drop_first()) + esc_byte(c)));
        assert(spec_escape(t) == esc_byte(t[0]) + spec_escape(t.drop_first()));
        assert(esc_byte(t[0]) + (spec_escape(t.drop_first()) + esc_byte(c)) =~= (esc_byte(t[0])
            + spec_escape(t.drop_first())) + esc_byte(c));
    }
}

proof fn lemma_ser_rest_snoc(es: Seq<EntryModel>, x: EntryModel)
    ensures
        spec_ser_rest(es.push(x)) == spec_ser_rest(es) + seq![0x2cu8] + spec_ser_entry(x),
    decreases es.len(),
{
    let u = es.push(x);
    assert(u.len() == es.len() + 1);
    if es.len() == 0 {
        assert(u[0] == x);
        assert(u.drop_first() =~= Seq::<EntryModel>::empty());
        assert(spec_ser_rest(u) == seq![0x2cu8] + spec_ser_entry(x) + spec_ser_rest(
            u.drop_first(),
        ));
        assert(spec_ser_rest(u.drop_first()) == Seq::<u8>::empty());
        assert(spec_ser_rest(es) == Seq::<u8>::empty());
        assert(seq![0x2cu8] + spec_ser_entry(x) + Seq::<u8>::empty() =~= (Seq::<u8>::empty()
            + seq![0x2cu8]) + spec_ser_entry(x));
        assert(spec_ser_rest(es) + seq![0x2cu8] + spec_ser_entry(x) == (Seq::<u8>::empty()
            + seq![0x2cu8]) + spec_ser_entry(x));
    } else {
        assert(u[0] == es[0]);
        assert(u.drop_first() =~= es.drop_first().push(x));
        lemma_ser_rest_snoc(es.drop_first(), x);
        assert(spec_ser_rest(u) == seq![0x2cu8] + spec_ser_entry(es[0]) + (spec_ser_rest(
            es.drop_first(),
        ) + seq![0x2cu8] + spec_ser_entry(x)));
        assert(spec_ser_rest(es) == seq![0x2cu8] + spec_ser_entry(es[0]) + spec_ser_rest(
            es.drop_first(),
        ));
        assert(seq![0x2cu8] + spec_ser_entry(es[0]) + (spec_ser_rest(es.drop_first())
            + seq![0x2cu8] + spec_ser_entry(x)) =~= (seq![0x2cu8] + spec_ser_entry(es[0])
            + spec_ser_rest(es.drop_first())) + seq![0x2cu8] + spec_ser_entry(x));
    }
}

proof fn lemma_ser_items_snoc(es: Seq<EntryModel>, x: EntryModel)
    ensures
        es.len() == 0 ==> spec_ser_items(es.push(x)) == spec_ser_entry(x),
        es.len() > 0 ==> spec_ser_items(es.push(x)) == spec_ser_items(es) + seq![0x2cu8]
            + spec_ser_entry(x),
{
    if es.len() == 0 {
        assert(es.push(x).drop_first() =~= Seq::<EntryModel>::empty());
        assert(spec_ser_items(es.push(x)) =~= spec_ser_entry(x));
    } else {
        assert(es.push(x).drop_first() =~= es.drop_first().push(x));
        lemma_ser_rest_snoc(es.drop_first(), x);
        assert(spec_ser_items(es.push(x)) =~= spec_ser_items(es) + seq![0x2cu8] + spec_ser_entry(
            x,
        ));
    }
}

/// Appends the canonical written form of `s` to `out`.
fn push_escaped(out: &mut Vec<u8>, s: &Vec<u8>)
    ensures
        final(out)@ == old(out)@ + spec_escape(s@),
{
    let mut i: usize = 0;
    while i < s.len()
        invariant
            0 <= i <= s@.len(),
            out@ == old(out)@ + spec_escape(s@.take(i as int)),
        decreases s@.len() - i,
    {
        let c = s[i];
        proof {
            assert(s@.take(i + 1).drop_last() =~= s@.take(i as int));
            assert(s@.take(i + 1) =~= s@.take(i as int).push(c));
            lemma_escape_snoc(s@.take(i as int), c);
        }
        if c == 0x22 || c == 0x5c {
            out.push(0x5c);
            out.push(c);
            proof {
                assert(out@ =~= old(out)@ + spec_escape(s@.take(i + 1)));
            }
        } else {
            out.push(c);
            proof {
                assert(out@ =~= old(out)@ + spec_escape(s@.take(i + 1)));
            }
        }
        i = i + 1;
    }
    proof {
        assert(s@.take(s@.len() as int) =~= s@);
    }
}

/// Appends the canonical form of one entry to `out`.
fn push_entry(out: &mut Vec<u8>, e: &RawEntry)
    ensures
        final(out)@ == old(out)@ + spec_ser_entry(e@),
{
    out.push(0x7b);
    out.push(0x22);
    out.push(0x57);
    out.push(0x4f);
    out.push(0x52);
    out.push(0x44);
    out.push(0x22);
    out.push(0x3a);
    out.push(0x22);
    proof {
        assert(out@ =~= old(out)@ + entry_head());
    }
    push_escaped(out, &e.word);
    let ghost mark1 = out@;
    out.push(0x22);
    out.push(0x2c);
    out.push(0x22);
    out.push(0x44);
    out.push(0x45);
    out.push(0x46);
    out.push(0x49);
    out.push(0x4e);
    out.push(0x49);
    out.push(0x54);
    out.push(0x49);
    out.push(0x4f);
    out.push(0x4e);
    out.push(0x22);
    out.push(0x3a);
    out.push(0x22);
    proof {
        assert(out@ =~= mark1 + entry_mid());
    }
    push_escaped(out, &e.definition);
    out.push(0x22);
    out.push(0x7d);
    proof {
        assert(out@ =~= old(out)@ + spec_ser_entry(e@));
    }
}

/// Writes entries in the canonical document form: a sequence at the root,
/// each entry a record with its `WORD` and `DEFINITION` fields, quotes and
/// backslashes escaped, and no insignificant whitespace.
pub fn serialize_dictionary(entries: &Vec<RawEntry>) -> (r: Vec<u8>)
    ensures
        r@ == spec_serialize(entries_view(entries@)),
{
    let ghost es = entries_view(entries@);
    let mut out: Vec<u8> = Vec::new();
    out.push(0x5b);
    let mut i: usize = 0;
    while i < entries.len()
        invariant
            0 <= i <= entries@.len(),
            es == entries_view(entries@),
            es.len() == entries@.len(),
            out@ == seq![0x5bu8] + spec_ser_items(es.take(i as int)),
        decreases entries@.len() - i,
    {
        proof {
            assert(es.take(i + 1).drop_last() =~= es.take(i as int));
            assert(es.take(i + 1) =~= es.take(i as int).push(es[i as int]));
            lemma_ser_items_snoc(es.take(i as int), es[i as int]);
            assert(entries@[i as int]@ == es[i as int]);
        }
        if i > 0 {
            out.push(0x2c);
        }
        push_entry(&mut out, &entries[i]);
        proof {
            assert(out@ =~= seq![0x5bu8] + spec_ser_items(es.take(i + 1)));
        }
        i = i + 1;
    }
    out.push(0x5d);
    proof {
        assert(es.take(es.len() as int) =~= es);
        assert(out@ =~= spec_serialize(es));
    }
    out
}

proof fn lemma_escape_plain(s: Seq<u8>)
    requires
        forall|k: int| 0 <= k < s.len() ==> s[k] != 0x22 && s[k] != 0x5c,
    ensures
        spec_escape(s) == s,
    decreases s.len(),
{
    if s.len() == 0 {
        assert(spec_escape(s) =~= s);
    } else {
        lemma_escape_plain(s.drop_first());
        assert(esc_byte(s[0]) =~= seq![s[0]]);
        assert(seq![s[0]] + s.drop_first() =~= s);
    }
}

proof fn lemma_str_body_ser(b: Seq<u8>, i: int, s: Seq<u8>)
    requires
        forall|k: int| 0 <= k < s.len() ==> s[k] >= 0x20,
        0 <= i,
        i + spec_escape(s).len() + 1 <= b.len(),
        b.subrange(i, i + spec_escape(s).len() + 1) == spec_escape(s) + seq![0x22u8],
    ensures
        spec_str_body(b, i) == Some((s, i + spec_escape(s).len() + 1)),
    decreases s.len(),
{
    let es = spec_escape(s);
    let l = es.len();
    assert forall|o: int| 0 <= o < l + 1 implies b[i + o] == (es + seq![0x22u8])[o] by {
        assert(b.subrange(i, i + l + 1)[o] == b[i + o]);
    }
    if s.len() == 0 {
        assert(b[i + 0] == (es + seq![0x22u8])[0]);
        assert(b[i] == 0x22);
    } else {
        let c = s[0];
        let rest = s.drop_first();
        let er = spec_escape(rest);
        assert(es == esc_byte(c) + er);
        assert(c >= 0x20);
        if c == 0x22 || c == 0x5c {
            assert(esc_byte(c) =~= seq![0x5cu8, c]);
            assert(b[i + 0] == (es + seq![0x22u8])[0]);
            assert(b[i + 1] == (es + seq![0x22u8])[1]);
            assert(b[i] == es[0] == 0x5c);
            assert(b[i + 1] == es[1] == c);
            assert(unescape(c) == Some(c));
            assert(b.subrange(i + 2, i + 2 + er.len() + 1) =~= er + seq![0x22u8]) by {
                assert forall|t: int| 0 <= t < er.len() + 1 implies b[i + 2 + t] == (er
                    + seq![0x22u8])[t] by {
                    assert(b[i + 2 + t] == (es + seq![0x22u8])[2 + t]);
                }
            }
            lemma_str_body_ser(b, i + 2, rest);
            assert(seq![c] + rest =~= s);
            assert(spec_str_body(b, i) == Some((s, i + l + 1)));
        } else {
            assert(esc_byte(c) =~= seq![c]);
            assert(b[i + 0] == (es + seq![0x22u8])[0]);
            assert(b[i] == es[0] == c);
            assert(b.subrange(i + 1, i + 1 + er.len() + 1) =~= er + seq![0x22u8]) by {
                assert forall|t: int| 0 <= t < er.len() + 1 implies b[i + 1 + t] == (er
                    + seq![0x22u8])[t] by {
                    assert(b[i + 1 + t] == (es + seq![0x22u8])[1 + t]);
                }
            }
            lemma_str_body_ser(b, i + 1, rest);
            assert(seq![c] + rest =~= s);
            assert(spec_str_body(b, i) == Some((s, i + l + 1)));
        }
    }
}

proof fn lemma_key_bytes()
    ensures
        spec_escape(word_key()) == word_key(),
        spec_escape(definition_key()) == definition_key(),
        forall|k: int| 0 <= k < word_key().len() ==> word_key()[k] >= 0x20,
        forall|k: int| 0 <= k < definition_key().len() ==> definition_key()[k] >= 0x20,
        word_key().len() == 4,
        definition_key().len() == 10,
{
    assert forall|k: int| 0 <= k < word_key().len() implies word_key()[k] != 0x22 && word_key()[k]
        != 0x5c && word_key()[k] >= 0x20 by {
        if k == 0 {
        } else if k == 1 {
        } else if k == 2 {
        } else {
            assert(k == 3);
        }
    }
    assert forall|k: int| 0 <= k < definition_key().len() implies definition_key()[k] != 0x22
        && definition_key()[k] != 0x5c && definition_key()[k] >= 0x20 by {
        assert(0 <= k < 10);
    }
    lemma_escape_plain(word_key());
    lemma_escape_plain(definition_key());
}

#[verifier::rlimit(100)]
proof fn lemma_entry_ser(b: Seq<u8>, i: int, e: EntryModel)
    requires
        serializable_entry(e),
        0 <= i,
        i + spec_ser_entry(e).len() <= b.len(),
        b.subrange(i, i + spec_ser_entry(e).len()) == spec_ser_entry(e),
    ensures
        spec_entry(b, i) == Some(
            (Some(e.word), Some(e.definition), i + spec_ser_entry(e).len()),
        ),
{
    let se = spec_ser_entry(e);
    let lw = spec_escape(e.word).len() as int;
    let ld = spec_escape(e.definition).len() as int;
    let l = se.len() as int;
    lemma_key_bytes();
    assert(entry_head().len() == 9);
    assert(entry_mid().len() == 16);
    assert(entry_tail().len() == 2);
    assert(l == 27 + lw + ld);
    assert forall|o: int| i <= o < i + l implies b[o] == se[o - i] by {
        assert(b.subrange(i, i + l)[o - i] == b[o]);
    }
    // The brace, the key "WORD", and the colon and quote after it.
    assert(se[0] == 0x7b && se[1] == 0x22 && se[2] == 0x57 && se[3] == 0x4f && se[4] == 0x52
        && se[5] == 0x44 && se[6] == 0x22 && se[7] == 0x3a && se[8] == 0x22);
    assert(b[i] == 0x7b);
    assert(b[i + 1] == 0x22);
    assert(!is_space(b[i + 1]));
    assert(spec_ws(b, i + 1) == i + 1);
    // The key string parses as the four raw bytes of WORD.
    assert(b.subrange(i + 2, i + 2 + 4 + 1) =~= spec_escape(word_key()) + seq![0x22u8]) by {
        assert(b[i + 2] == se[2] && b[i + 3] == se[3] && b[i + 4] == se[4] && b[i + 5] == se[5]
            && b[i + 6] == se[6]);
    }
    lemma_str_body_ser(b, i + 2, word_key());
    assert(spec_string(b, i + 1) == Some((word_key(), i + 7)));
    assert(b[i + 7] == 0x3a && !is_space(b[i + 7]));
    assert(spec_ws(b, i + 7) == i + 7);
    assert(b[i + 8] == 0x22 && !is_space(b[i + 8]));
    assert(spec_ws(b, i + 8) == i + 8);
    // The word's value: the escaped word, closed by the first quote of the
    // middle run.
    assert(b.subrange(i + 9, i + 9 + lw + 1) =~= spec_escape(e.word) + seq![0x22u8]) by {
        assert forall|t: int| 0 <= t < lw + 1 implies b[i + 9 + t] == (spec_escape(e.word)
            + seq![0x22u8])[t] by {
            assert(b[i + 9 + t] == se[9 + t]);
            if t < lw {
                assert(se[9 + t] == spec_escape(e.word)[t]);
            } else {
                assert(se[9 + lw] == entry_mid()[0]);
            }
        }
    }
    lemma_str_body_ser(b, i + 9, e.word);
    let k = i + 10 + lw;
    assert(spec_str_body(b, i + 9) == Some((e.word, k)));
    // The comma, the quote of the key "DEFINITION", its ten bytes, and the
    // colon and quote after it.
    assert(entry_mid()[1] == 0x2c && entry_mid()[2] == 0x22 && entry_mid()[3] == 0x44
        && entry_mid()[4] == 0x45 && entry_mid()[5] == 0x46 && entry_mid()[6] == 0x49
        && entry_mid()[7] == 0x4e && entry_mid()[8] == 0x49 && entry_mid()[9] == 0x54
        && entry_mid()[10] == 0x49 && entry_mid()[11] == 0x4f && entry_mid()[12] == 0x4e
        && entry_mid()[13] == 0x22 && entry_mid()[14] == 0x3a && entry_mid()[15] == 0x22);
    assert forall|t: int| 0 <= t < 16 implies se[9 + lw + t] == entry_mid()[t] by {
    }
    assert(b[k] == se[10 + lw] && se[10 + lw] == entry_mid()[1]);
    assert(!is_space(b[k]));
    assert(spec_ws(b, k) == k);
    assert(b[k + 1] == se[11 + lw] && se[11 + lw] == entry_mid()[2]);
    assert(!is_space(b[k + 1]));
    assert(spec_ws(b, k + 1) == k + 1);
    assert(b.subrange(k + 2, k + 2 + 10 + 1) =~= spec_escape(definition_key()) + seq![0x22u8]) by {
        assert forall|t: int| 0 <= t < 11 implies b[k + 2 + t] == (spec_escape(definition_key())
            + seq![0x22u8])[t] by {
            assert(b[k + 2 + t] == se[12 + lw + t]);
            assert(se[12 + lw + t] == entry_mid()[3 + t]);
            if t < 10 {
                assert(entry_mid()[3 + t] == definition_key()[t]);
            }
        }
    }
    lemma_str_body_ser(b, k + 2, definition_key());
    assert(spec_string(b, k + 1) == Some((definition_key(), k + 13)));
    assert(b[k + 13] == se[23 + lw] && se[23 + lw] == entry_mid()[14]);
    assert(!is_space(b[k + 13]));
    assert(spec_ws(b, k + 13) == k + 13);
    assert(b[k + 14] == se[24 + lw] && se[24 + lw] == entry_mid()[15]);
    assert(!is_space(b[k + 14]));
    assert(spec_ws(b, k + 14) == k + 14);
    // The definition's value, closed by the quote of the tail.
    assert(entry_tail()[0] == 0x22 && entry_tail()[1] == 0x7d);
    assert(b.subrange(k + 15, k + 15 + ld + 1) =~= spec_escape(e.definition) + seq![0x22u8]) by {
        assert forall|t: int| 0 <= t < ld + 1 implies b[k + 15 + t] == (spec_escape(e.definition)
            + seq![0x22u8])[t] by {
            assert(b[k + 15 + t] == se[25 + lw + t]);
            if t < ld {
                assert(se[25 + lw + t] == spec_escape(e.definition)[t]);
            } else {
                assert(se[25 + lw + ld] == entry_tail()[0]);
            }
        }
    }
    lemma_str_body_ser(b, k + 15, e.definition);
    let kd = k + 16 + ld;
    assert(spec_str_body(b, k + 15) == Some((e.definition, kd)));
    assert(b[kd] == se[26 + lw + ld] && se[26 + lw + ld] == entry_tail()[1]);
    assert(!is_space(b[kd]));
    assert(spec_ws(b, kd) == kd);
    // The members unfold: WORD captured first, DEFINITION second, then the
    // closing brace.
    assert(word_key() != definition_key());
    assert(capture_field(word_key(), Some(e.word), None, None) == (Some(e.word), None::<Seq<u8>>));
    assert(capture_field(definition_key(), Some(e.definition), Some(e.word), None) == (
        Some(e.word),
        Some(e.definition),
    ));
    assert(spec_entry_members(b, k + 1, Some(e.word), None) == Some(
        (Some(e.word), Some(e.definition), kd + 1),
    ));
    assert(spec_entry_members(b, i + 1, None, None) == Some(
        (Some(e.word), Some(e.definition), kd + 1),
    ));
    assert(kd + 1 == i + l);
    assert(spec_entry(b, i) == Some((Some(e.word), Some(e.definition), i + l)));
}

#[verifier::rlimit(100)]
proof fn lemma_entries_ser_head(b: Seq<u8>, i: int, es: Seq<EntryModel>)
    requires
        forall|j: int| 0 <= j < es.len() ==> serializable_entry(#[trigger] es[j]),
        es.len() > 0,
        0 <= i,
        b.len() == i + spec_ser_items(es).len() + 1,
        b.subrange(i, b.len() as int) == spec_ser_items(es) + seq![0x5du8],
    ensures
        spec_entry(b, i) == Some(
            (
                Some(es[0].word),
                Some(es[0].definition),
                i + spec_ser_entry(es[0]).len(),
            ),
        ),
        es.len() == 1 ==> b[i + spec_ser_entry(es[0]).len()] == 0x5d && b.len() == i
            + spec_ser_entry(es[0]).len() + 1,
        es.len() > 1 ==> {
            let end = i + spec_ser_entry(es[0]).len() as int;
            &&& b[end] == 0x2c
            &&& b[end + 1] == 0x7b
            &&& b.len() == end + 1 + spec_ser_items(es.drop_first()).len() + 1
            &&& b.subrange(end + 1, b.len() as int) == spec_ser_items(es.drop_first())
                + seq![0x5du8]
        },
{
    let items = spec_ser_items(es);
    let e0 = es[0];
    assert(serializable_entry(e0));
    let se0 = spec_ser_entry(e0);
    let l0 = se0.len() as int;
    let rest = spec_ser_rest(es.drop_first());
    assert(items == se0 + rest);
    assert forall|o: int| i <= o < b.len() implies b[o] == (items + seq![0x5du8])[o - i] by {
        assert(b.subrange(i, b.len() as int)[o - i] == b[o]);
    }
    assert(b.subrange(i, i + l0) =~= se0) by {
        assert forall|t: int| 0 <= t < l0 implies b[i + t] == se0[t] by {
            assert(b[i + t] == (items + seq![0x5du8])[t]);
        }
    }
    lemma_entry_ser(b, i, e0);
    let end = i + l0;
    if es.len() == 1 {
        assert(es.drop_first().len() == 0);
        assert(rest == Seq::<u8>::empty());
        assert(b.len() == end + 1);
        assert(b[end] == (items + seq![0x5du8])[l0]);
        assert(b[end] == 0x5d);
    } else {
        let es2 = es.drop_first();
        assert(es2.len() > 0);
        assert(rest == seq![0x2cu8] + spec_ser_entry(es2[0]) + spec_ser_rest(es2.drop_first()));
        assert(spec_ser_items(es2) == spec_ser_entry(es2[0]) + spec_ser_rest(es2.drop_first()));
        assert(b[end] == (items + seq![0x5du8])[l0]);
        assert((items + seq![0x5du8])[l0] == rest[0]);
        assert(rest[0] == 0x2c);
        assert(b[end + 1] == (items + seq![0x5du8])[l0 + 1]);
        assert((items + seq![0x5du8])[l0 + 1] == rest[1]);
        assert(rest[1] == spec_ser_entry(es2[0])[0]);
        assert(spec_ser_entry(es2[0])[0] == entry_head()[0]);
        assert(entry_head()[0] == 0x7b);
        assert(b.subrange(end + 1, b.len() as int) =~= spec_ser_items(es2) + seq![0x5du8]) by {
            assert forall|t: int| 0 <= t < spec_ser_items(es2).len() + 1 implies b[end + 1 + t]
                == (spec_ser_items(es2) + seq![0x5du8])[t] by {
                assert(b[end + 1 + t] == (items + seq![0x5du8])[l0 + 1 + t]);
            }
        }
        assert(b.len() == end + 1 + spec_ser_items(es2).len() + 1);
    }
}

#[verifier::rlimit(60)]
proof fn lemma_entries_ser(b: Seq<u8>, i: int, es: Seq<EntryModel>, acc: Seq<EntryModel>)
    requires
        forall|j: int| 0 <= j < es.len() ==> serializable_entry(#[trigger] es[j]),
        es.len() > 0,
        0 <= i,
        b.len() == i + spec_ser_items(es).len() + 1,
        b.subrange(i, b.len() as int) == spec_ser_items(es) + seq![0x5du8],
    ensures
        spec_entries(b, i, acc) == Ok::<Seq<EntryModel>, FormatError>(acc + es),
    decreases es.len(),
{
    lemma_entries_ser_head(b, i, es);
    let e0 = es[0];
    let end = i + spec_ser_entry(e0).len() as int;
    assert(e0.word.len() > 0 && e0.definition.len() > 0);
    let acc2 = acc.push(EntryModel { word: e0.word, definition: e0.definition });
    assert(EntryModel { word: e0.word, definition: e0.definition } == e0);
    if es.len() == 1 {
        assert(!is_space(b[end]));
        assert(spec_ws(b, end) == end);
        assert(spec_ws(b, end + 1) == b.len());
        assert(acc2 =~= acc + es);
        assert(spec_entries(b, i, acc) == Ok::<Seq<EntryModel>, FormatError>(acc2));
    } else {
        let es2 = es.drop_first();
        assert(!is_space(b[end]));
        assert(spec_ws(b, end) == end);
        assert(!is_space(b[end + 1]));
        assert(spec_ws(b, end + 1) == end + 1);
        assert forall|j: int| 0 <= j < es2.len() implies serializable_entry(#[trigger] es2[j]) by {
            assert(es2[j] == es[j + 1]);
        }
        lemma_entries_ser(b, end + 1, es2, acc2);
        assert(acc2 + es2 =~= acc + es);
        assert(spec_entries(b, i, acc) == spec_entries(b, end + 1, acc2));
    }
}

/// Whether every entry has a non-empty word and a non-empty definition.
pub open spec fn entries_nonempty(es: Seq<EntryModel>) -> bool {
    forall|j: int|
        0 <= j < es.len() ==> (#[trigger] es[j]).word.len() > 0 && es[j].definition.len() > 0
}

#[verifier::rlimit(100)]
proof fn lemma_entries_nonempty(b: Seq<u8>, i: int, acc: Seq<EntryModel>)
    requires
        0 <= i <= b.len(),
        entries_nonempty(acc),
    ensures
        (match spec_entries(b, i, acc) {
            Ok(es) => entries_nonempty(es),
            Err(_) => true,
        }),
    decreases b.len() - i,
{
    match spec_entry(b, i) {
        Some((wo, dopt, end)) => {
            if end <= i || end > b.len() {
            } else {
                match (wo, dopt) {
                    (Some(w), Some(d)) => {
                        if w.len() == 0 || d.len() == 0 {
                        } else {
                            let acc2 = acc.push(EntryModel { word: w, definition: d });
                            assert(entries_nonempty(acc2)) by {
                                assert forall|j: int| 0 <= j < acc2.len() implies (
                                #[trigger] acc2[j]).word.len() > 0 && acc2[j].definition.len()
                                    > 0 by {
                                    if j < acc.len() {
                                        assert(acc2[j] == acc[j]);
                                    }
                                }
                            }
                            let m = spec_ws(b, end);
                            if m < end || m > b.len() {
                            } else if m < b.len() && b[m] == 0x2c {
                                let n = spec_ws(b, m + 1);
                                if n <= i || n > b.len() {
                                } else {
                                    lemma_entries_nonempty(b, n, acc2);
                                }
                            } else {
                            }
                        }
                    },
                    _ => {},
                }
            }
        },
        None => {},
    }
}

/// Every entry a successfully loaded document yields has a non-empty word
/// and a non-empty definition: the loader owes success only to records
/// that carry both fields with text in them.
pub proof fn lemma_loaded_entries_nonempty(b: Seq<u8>)
    ensures
        (match spec_load(b) {
            Ok(es) => entries_nonempty(es),
            Err(_) => true,
        }),
{
    let i = spec_ws(b, 0);
    if 0 <= i && i < b.len() && b[i] == 0x5b {
        let j = spec_ws(b, i + 1);
        if j <= i || j > b.len() {
        } else if j < b.len() && b[j] == 0x5d {
        } else {
            lemma_entries_nonempty(b, j, Seq::empty());
        }
    }
}

/// Loading the canonical serialisation of entries yields exactly those
/// entries: for every sequence of entries whose words and definitions are
/// non-empty and free of control bytes, [`spec_load`] inverts
/// [`spec_serialize`].
pub proof fn lemma_serialize_then_load(es: Seq<EntryModel>)
    requires
        forall|j: int| 0 <= j < es.len() ==> serializable_entry(#[trigger] es[j]),
    ensures
        spec_load(spec_serialize(es)) == Ok::<Seq<EntryModel>, FormatError>(es),
{
    let b = spec_serialize(es);
    let items = spec_ser_items(es);
    assert(b == seq![0x5bu8] + items + seq![0x5du8]);
    assert(b.len() == items.len() + 2);
    assert(b[0] == 0x5b);
    assert(!is_space(b[0]));
    assert(spec_ws(b, 0) == 0);
    if es.len() == 0 {
        assert(items == Seq::<u8>::empty());
        assert(b.len() == 2);
        assert(b[1] == 0x5d);
        assert(!is_space(b[1]));
        assert(spec_ws(b, 1) == 1);
        assert(spec_ws(b, 2) == 2);
        assert(Seq::<EntryModel>::empty() =~= es);
    } else {
        assert(items == spec_ser_entry(es[0]) + spec_ser_rest(es.drop_first()));
        assert(b[1] == items[0]);
        assert(items[0] == spec_ser_entry(es[0])[0]);
        assert(spec_ser_entry(es[0])[0] == entry_head()[0]);
        assert(entry_head()[0] == 0x7b);
        assert(!is_space(b[1]));
        assert(spec_ws(b, 1) == 1);
        assert(b.subrange(1, b.len() as int) =~= items + seq![0x5du8]) by {
            assert forall|t: int| 0 <= t < items.len() + 1 implies b[1 + t] == (items
                + seq![0x5du8])[t] by {
                assert(b[1 + t] == (seq![0x5bu8] + items + seq![0x5du8])[1 + t]);
            }
        }
        lemma_entries_ser(b, 1, es, Seq::empty());
        assert(Seq::<EntryModel>::empty() + es =~= es);
    }
}

} // verus!
