//! Normalisation of guesses and words.
//!
//! A guess and the active word are compared after trimming surrounding ASCII
//! whitespace and folding ASCII letters to lower case; all other bytes are
//! compared exactly, so non-ASCII text is matched byte for byte.

use vstd::prelude::*;

verus! {

/// The ASCII whitespace bytes that are trimmed from both ends of a guess.
pub open spec fn is_space(b: u8) -> bool {
    b == 0x20 || b == 0x09 || b == 0x0a || b == 0x0d
}

/// One byte folded to ASCII lower case; bytes outside `A`..`Z` are unchanged.
pub open spec fn fold_byte(b: u8) -> u8 {
    if 0x41 <= b && b <= 0x5a {
        (b + 0x20) as u8
    } else {
        b
    }
}

/// A byte sequence folded to ASCII lower case.
pub open spec fn fold_bytes(s: Seq<u8>) -> Seq<u8> {
    s.map_values(|b: u8| fold_byte(b))
}

/// `s` without its leading ASCII whitespace.
pub open spec fn trim_start(s: Seq<u8>) -> Seq<u8>
    decreases s.len(),
{
    if s.len() > 0 && is_space(s[0]) {
        trim_start(s.drop_first())
    } else {
        s
    }
}

/// `s` without its trailing ASCII whitespace.
pub open spec fn trim_end(s: Seq<u8>) -> Seq<u8>
    decreases s.len(),
{
    if s.len() > 0 && is_space(s.last()) {
        trim_end(s.drop_last())
    } else {
        s
    }
}

/// `s` without surrounding ASCII whitespace.
pub open spec fn trimmed(s: Seq<u8>) -> Seq<u8> {
    trim_end(trim_start(s))
}

/// The normal form under which guesses are compared to words.
pub open spec fn normal_form(s: Seq<u8>) -> Seq<u8> {
    fold_bytes(trimmed(s))
}

/// Whether a guess matches a word: equality of normal forms.
pub open spec fn guess_matches(guess: Seq<u8>, word: Seq<u8>) -> bool {
    normal_form(guess) == normal_form(word)
}

proof fn lemma_trim_start_at(s: Seq<u8>, i: int)
    requires
        0 <= i <= s.len(),
        forall|j: int| 0 <= j < i ==> is_space(s[j]),
        i == s.len() || !is_space(s[i]),
    ensures
        trim_start(s) == s.subrange(i, s.len() as int),
    decreases i,
{
    if i == 0 {
        if s.len() > 0 && is_space(s[0]) {
            assert(false);
        }
        assert(trim_start(s) == s);
        assert(s.subrange(0, s.len() as int) =~= s);
    } else {
        assert(is_space(s[0]));
        let t = s.drop_first();
        assert(t =~= s.subrange(1, s.len() as int));
        lemma_trim_start_at(t, i - 1);
        assert(t.subrange(i - 1, t.len() as int) =~= s.subrange(i, s.len() as int));
    }
}

proof fn lemma_trim_end_at(s: Seq<u8>, i: int)
    requires
        0 <= i <= s.len(),
        forall|j: int| i <= j < s.len() ==> is_space(s[j]),
        i == 0 || !is_space(s[i - 1]),
    ensures
        trim_end(s) == s.subrange(0, i),
    decreases s.len() - i,
{
    if i == s.len() {
        if s.len() > 0 && is_space(s.last()) {
            assert(false);
        }
        assert(trim_end(s) == s);
        assert(s.subrange(0, s.len() as int) =~= s);
    } else {
        assert(is_space(s.last()));
        let t = s.drop_last();
        assert(t =~= s.subrange(0, s.len() - 1));
        lemma_trim_end_at(t, i);
        assert(t.subrange(0, i) =~= s.subrange(0, i));
    }
}

/// The executable normalisation: trim surrounding ASCII whitespace, then fold
/// ASCII letters to lower case.
pub fn normalize(v: &[u8]) -> (r: Vec<u8>)
    ensures
        r@ == normal_form(v@),
{
    let n: usize = v.len();
    let mut lo: usize = 0;
    while lo < n && is_space_exec(v[lo])
        invariant
            0 <= lo <= n,
            n == v@.len(),
            forall|j: int| 0 <= j < lo ==> is_space(v@[j]),
        decreases n - lo,
    {
        lo = lo + 1;
    }
    proof {
        lemma_trim_start_at(v@, lo as int);
    }
    let ghost t1 = trim_start(v@);
    if lo == n {
        proof {
            assert(t1 =~= Seq::<u8>::empty());
            assert(trim_end(t1) == t1);
            assert(fold_bytes(t1) =~= Seq::<u8>::empty());
        }
        return Vec::new();
    }
    let mut hi: usize = n;
    while lo < hi && is_space_exec(v[hi - 1])
        invariant
            lo <= hi <= n,
            n == v@.len(),
            forall|j: int| hi <= j < n ==> is_space(v@[j]),
        decreases hi,
    {
        hi = hi - 1;
    }
    proof {
        assert(!is_space(v@[lo as int]));
        if hi == lo {
            assert(is_space(v@[lo as int]));
        }
        assert(lo < hi);
        lemma_trim_end_at(t1, hi - lo);
        assert(trimmed(v@) =~= v@.subrange(lo as int, hi as int));
    }
    let mut r: Vec<u8> = Vec::new();
    let mut i: usize = lo;
    while i < hi
        invariant
            lo <= i <= hi <= n,
            n == v@.len(),
            r@ =~= fold_bytes(v@.subrange(lo as int, i as int)),
        decreases hi - i,
    {
        r.push(fold_byte_exec(v[i]));
        proof {
            assert(v@.subrange(lo as int, i + 1).drop_last() =~= v@.subrange(
                lo as int,
                i as int,
            ));
            assert(fold_bytes(v@.subrange(lo as int, i + 1)) =~= fold_bytes(
                v@.subrange(lo as int, i as int),
            ).push(fold_byte(v@[i as int])));
        }
        i = i + 1;
    }
    proof {
        assert(r@ =~= fold_bytes(trimmed(v@)));
    }
    r
}

/// Executable test for an ASCII whitespace byte.
pub fn is_space_exec(b: u8) -> (r: bool)
    ensures
        r == is_space(b),
{
    b == 0x20 || b == 0x09 || b == 0x0a || b == 0x0d
}

/// Executable ASCII lower-case fold of one byte.
pub fn fold_byte_exec(b: u8) -> (r: u8)
    ensures
        r == fold_byte(b),
{
    if 0x41 <= b && b <= 0x5a {
        b + 0x20
    } else {
        b
    }
}

/// Whether an executable guess matches an executable word.
pub fn matches(guess: &[u8], word: &[u8]) -> (r: bool)
    ensures
        r == guess_matches(guess@, word@),
{
    let g = normalize(guess);
    let w = normalize(word);
    slices_equal(g.as_slice(), w.as_slice())
}

/// Byte-for-byte equality of two slices.
pub fn slices_equal(a: &[u8], b: &[u8]) -> (r: bool)
    ensures
        r == (a@ == b@),
{
    if a.len() != b.len() {
        proof {
            assert(a@.len() != b@.len());
        }
        return false;
    }
    let mut i: usize = 0;
    while i < a.len()
        invariant
            0 <= i <= a@.len(),
            a@.len() == b@.len(),
            forall|j: int| 0 <= j < i ==> a@[j] == b@[j],
        decreases a@.len() - i,
    {
        if a[i] != b[i] {
            return false;
        }
        i = i + 1;
    }
    proof {
        assert(a@ =~= b@);
    }
    true
}

/// The number of Unicode scalars a UTF-8 byte sequence spells: the count
/// of its bytes that do not continue an earlier scalar's encoding.
pub open spec fn leading_count(b: Seq<u8>) -> int
    decreases b.len(),
{
    if b.len() == 0 {
        0
    } else {
        (if vstd::utf8::is_continuation_byte(b[0]) {
            0int
        } else {
            1int
        }) + leading_count(b.drop_first())
    }
}

proof fn lemma_leading_count_concat(a: Seq<u8>, b: Seq<u8>)
    ensures
        leading_count(a + b) == leading_count(a) + leading_count(b),
    decreases a.len(),
{
    if a.len() == 0 {
        assert(a + b =~= b);
    } else {
        assert((a + b).drop_first() =~= a.drop_first() + b);
        assert((a + b)[0] == a[0]);
        lemma_leading_count_concat(a.drop_first(), b);
    }
}

proof fn lemma_scalar_leading_count(scalar: u32)
    ensures
        leading_count(vstd::utf8::encode_scalar(scalar)) == 1,
{
    let e = vstd::utf8::encode_scalar(scalar);
    assert(leading_count(Seq::<u8>::empty()) == 0);
    if vstd::utf8::has_width_1_encoding(scalar) {
        let b0 = vstd::utf8::leading_byte_width_1(scalar);
        assert(scalar & 0x7F <= 0x7F) by (bit_vector);
        assert(!vstd::utf8::is_continuation_byte(b0));
        assert(e =~= seq![b0]);
        assert(seq![b0].drop_first() =~= Seq::<u8>::empty());
        assert(leading_count(seq![b0]) == 1);
    } else {
        let last = vstd::utf8::last_continuation_byte(scalar);
        assert(0x80 <= (0x80u8 | ((scalar & 0x3F) as u8)) <= 0xbf) by (bit_vector);
        assert(vstd::utf8::is_continuation_byte(last));
        assert(seq![last].drop_first() =~= Seq::<u8>::empty());
        assert(leading_count(seq![last]) == 0);
        if vstd::utf8::has_width_2_encoding(scalar) {
            let b0 = vstd::utf8::leading_byte_width_2(scalar);
            assert(0xc0 <= (0xC0u8 | (((scalar >> 6) & 0x1F) as u8))) by (bit_vector);
            assert(!vstd::utf8::is_continuation_byte(b0));
            assert(e =~= seq![b0, last]);
            assert(seq![b0, last].drop_first() =~= seq![last]);
            assert(leading_count(seq![b0, last]) == 1);
        } else {
            let snd = vstd::utf8::second_last_continuation_byte(scalar);
            assert(0x80 <= (0x80u8 | (((scalar >> 6) & 0x3F) as u8)) <= 0xbf) by (bit_vector);
            assert(vstd::utf8::is_continuation_byte(snd));
            assert(seq![snd, last].drop_first() =~= seq![last]);
            assert(leading_count(seq![snd, last]) == 0);
            if vstd::utf8::has_width_3_encoding(scalar) {
                let b0 = vstd::utf8::leading_byte_width_3(scalar);
                assert(0xe0 <= (0xE0u8 | (((scalar >> 12) & 0x0F) as u8))) by (bit_vector);
                assert(!vstd::utf8::is_continuation_byte(b0));
                assert(e =~= seq![b0, snd, last]);
                assert(seq![b0, snd, last].drop_first() =~= seq![snd, last]);
                assert(leading_count(seq![b0, snd, last]) == 1);
            } else {
                let b0 = vstd::utf8::leading_byte_width_4(scalar);
                let trd = vstd::utf8::third_last_continuation_byte(scalar);
                assert(0xf0 <= (0xF0u8 | (((scalar >> 18) & 0x7) as u8))) by (bit_vector);
                assert(0x80 <= (0x80u8 | (((scalar >> 12) & 0x3F) as u8)) <= 0xbf) by (
                bit_vector);
                assert(!vstd::utf8::is_continuation_byte(b0));
                assert(vstd::utf8::is_continuation_byte(trd));
                assert(e =~= seq![b0, trd, snd, last]);
                assert(seq![trd, snd, last].drop_first() =~= seq![snd, last]);
                assert(leading_count(seq![trd, snd, last]) == 0);
                assert(seq![b0, trd, snd, last].drop_first() =~= seq![trd, snd, last]);
                assert(leading_count(seq![b0, trd, snd, last]) == 1);
            }
        }
    }
}

/// The UTF-8 encoding of a text spells exactly one leading byte per
/// character, so counting leading bytes counts letters.
pub proof fn lemma_utf8_leading_count(chars: Seq<char>)
    ensures
        leading_count(vstd::utf8::encode_utf8(chars)) == chars.len(),
    decreases chars.len(),
{
    if chars.len() == 0 {
    } else {
        lemma_scalar_leading_count(chars[0] as u32);
        lemma_leading_count_concat(
            vstd::utf8::encode_scalar(chars[0] as u32),
            vstd::utf8::encode_utf8(chars.drop_first()),
        );
        lemma_utf8_leading_count(chars.drop_first());
    }
}

/// Counts the Unicode scalars a UTF-8 byte sequence spells.
pub fn char_count(b: &[u8]) -> (r: usize)
    ensures
        r == leading_count(b@),
{
    let mut n: usize = 0;
    let mut i: usize = 0;
    while i < b.len()
        invariant
            0 <= i <= b@.len(),
            n <= i,
            n == leading_count(b@.take(i as int)),
        decreases b@.len() - i,
    {
        let c = b[i];
        proof {
            assert(b@.take(i + 1) =~= b@.take(i as int) + seq![c]);
            lemma_leading_count_concat(b@.take(i as int), seq![c]);
            assert(seq![c].drop_first() =~= Seq::<u8>::empty());
            assert(leading_count(Seq::<u8>::empty()) == 0);
            assert(leading_count(seq![c]) == (if vstd::utf8::is_continuation_byte(c) {
                0int
            } else {
                1int
            }));
        }
        if !(0x80 <= c && c <= 0xbf) {
            n = n + 1;
        }
        i = i + 1;
    }
    proof {
        assert(b@.take(b@.len() as int) =~= b@);
    }
    n
}

/// Relies on String::from_utf8: it succeeds exactly on the byte buffers
/// that are valid UTF-8, and the returned string holds exactly the given
/// bytes.
#[verifier::external_body]
pub fn bytes_to_string(v: Vec<u8>) -> (r: Option<String>)
    ensures
        r is Some <==> vstd::utf8::valid_utf8(v@),
        (match r {
            Some(s) => vstd::utf8::encode_utf8(s@) == v@,
            None => true,
        }),
{
    match String::from_utf8(v) {
        Ok(s) => Some(s),
        Err(_) => None,
    }
}

} // verus!
