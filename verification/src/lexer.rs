//! The lexical layer: classes of bytes, runs of them, fixed tags, searches
//! for a terminator, the body of a quoted string, and texts read from bytes.
use vstd::prelude::*;
use vstd::utf8::*;
use vstd::string::*;
use crate::outcome::Outcome;

verus! {

/// An ASCII letter.
#[verifier::allow_in_spec]
pub fn is_alpha_byte(b: u8) -> bool
    returns
        (0x41 <= b <= 0x5a) || (0x61 <= b <= 0x7a),
{
    (0x41 <= b && b <= 0x5a) || (0x61 <= b && b <= 0x7a)
}

/// An ASCII decimal digit.
#[verifier::allow_in_spec]
pub fn is_digit_byte(b: u8) -> bool
    returns
        0x30 <= b <= 0x39,
{
    0x30 <= b && b <= 0x39
}

/// A space, a tab, a carriage return or a line feed.
#[verifier::allow_in_spec]
pub fn is_space_byte(b: u8) -> bool
    returns
        b == 0x20 || b == 0x09 || b == 0x0d || b == 0x0a,
{
    b == 0x20 || b == 0x09 || b == 0x0d || b == 0x0a
}

/// A byte above ASCII that, read as the character with the same number
/// (ISO 8859-1), is alphabetic: ª, µ, º and the letters from À to ÿ but
/// × and ÷.
#[verifier::allow_in_spec]
pub fn is_latin1_letter_byte(b: u8) -> bool
    returns
        b == 0xaa || b == 0xb5 || b == 0xba || (0xc0 <= b && b != 0xd7 && b != 0xf7),
{
    b == 0xaa || b == 0xb5 || b == 0xba || (0xc0 <= b && b != 0xd7 && b != 0xf7)
}

/// A byte that may stand in a symbol: a letter or digit (each byte read as
/// the character with the same number), `-`, `_` or `.`.
#[verifier::allow_in_spec]
pub fn is_identifier_byte(b: u8) -> bool
    returns
        is_alpha_byte(b) || is_digit_byte(b) || is_latin1_letter_byte(b) || b == 0x2d || b
            == 0x5f || b == 0x2e,
{
    is_alpha_byte(b) || is_digit_byte(b) || is_latin1_letter_byte(b) || b == 0x2d || b == 0x5f
        || b == 0x2e
}

/// A class of bytes of which a token is a run.
pub enum ByteClass {
    Alpha,
    Space,
    Identifier,
}

#[verifier::allow_in_spec]
pub fn in_class(c: &ByteClass, b: u8) -> bool
    returns
        match c {
            ByteClass::Alpha => is_alpha_byte(b),
            ByteClass::Space => is_space_byte(b),
            ByteClass::Identifier => is_identifier_byte(b),
        },
{
    match c {
        ByteClass::Alpha => is_alpha_byte(b),
        ByteClass::Space => is_space_byte(b),
        ByteClass::Identifier => is_identifier_byte(b),
    }
}

/// The end of the run of bytes of class `c` that starts at `i`.
pub open spec fn run_end(s: Seq<u8>, c: ByteClass, i: int) -> int
    decreases s.len() - i,
{
    if 0 <= i < s.len() && in_class(&c, s[i]) {
        run_end(s, c, i + 1)
    } else {
        i
    }
}

/// A run ends at the first byte not of its class, or at the end.
pub proof fn lemma_run_end(s: Seq<u8>, c: ByteClass, i: int)
    requires
        0 <= i <= s.len(),
    ensures
        i <= run_end(s, c, i) <= s.len(),
        forall|j: int| i <= j < run_end(s, c, i) ==> in_class(&c, #[trigger] s[j]),
        run_end(s, c, i) < s.len() ==> !in_class(&c, s[run_end(s, c, i)]),
    decreases s.len() - i,
{
    if i < s.len() && in_class(&c, s[i]) {
        lemma_run_end(s, c, i + 1);
    }
}

/// The end of the run of bytes of class `c` that starts at `i`.
pub fn scan_run(s: &[u8], c: &ByteClass, i: usize) -> (e: usize)
    requires
        i <= s@.len(),
    ensures
        e == run_end(s@, *c, i as int),
        i <= e <= s@.len(),
{
    proof {
        lemma_run_end(s@, *c, i as int);
    }
    let mut j = i;
    while j < s.len() && in_class(c, s[j])
        invariant
            i <= j <= s@.len(),
            run_end(s@, *c, j as int) == run_end(s@, *c, i as int),
        decreases s@.len() - j,
    {
        j = j + 1;
    }
    j
}

/// The outcome of matching the fixed bytes `t` at position `i` of `s`: a
/// mismatch within the bytes present is an error, a match cut short by the
/// end of `s` is incomplete; `Done` carries the position after the match.
pub open spec fn spec_tag(s: Seq<u8>, i: int, t: Seq<u8>) -> Outcome<()> {
    if i < 0 || i > s.len() {
        Outcome::Incomplete
    } else {
        let m = if s.len() - i < t.len() { s.len() - i } else { t.len() as int };
        if s.subrange(i, i + m) != t.take(m) {
            Outcome::Error
        } else if m < t.len() {
            Outcome::Incomplete
        } else {
            Outcome::Done((i + t.len()) as nat, ())
        }
    }
}

/// A position reached, or why none was.
pub enum Scan {
    Done(usize),
    Error,
    Incomplete,
}

/// `r` gives back the position of the outcome `o`.
pub open spec fn scan_agrees<T>(r: Scan, o: Outcome<T>) -> bool {
    match r {
        Scan::Done(n) => o matches Outcome::Done(m, _) && m == n,
        Scan::Error => o is Error,
        Scan::Incomplete => o is Incomplete,
    }
}

/// Matches the fixed bytes `t` at `s[i..]`.
pub fn tag(s: &[u8], i: usize, t: &[u8]) -> (r: Scan)
    requires
        i <= s@.len(),
    ensures
        scan_agrees(r, spec_tag(s@, i as int, t@)),
        r matches Scan::Done(e) ==> e == i + t@.len() && e <= s@.len(),
{
    let avail = s.len() - i;
    let m = if avail < t.len() { avail } else { t.len() };
    let mut k: usize = 0;
    while k < m
        invariant
            k <= m,
            i <= s@.len() <= usize::MAX,
            m <= avail,
            m <= t@.len(),
            avail == s@.len() - i,
            forall|j: int| 0 <= j < k ==> s@[i + j] == t@[j],
        decreases m - k,
    {
        if s[i + k] != t[k] {
            assert(s@.subrange(i as int, i + m)[k as int] != t@.take(m as int)[k as int]);
            return Scan::Error;
        }
        k = k + 1;
    }
    assert(s@.subrange(i as int, i + m) =~= t@.take(m as int));
    if m < t.len() {
        Scan::Incomplete
    } else {
        Scan::Done(i + t.len())
    }
}

/// The first position at or after `i` where `t` occurs in `s`; an empty `t`
/// occurs nowhere.
pub open spec fn first_match(s: Seq<u8>, t: Seq<u8>, i: int) -> Option<int>
    decreases s.len() - i,
{
    if t.len() == 0 || i < 0 || i + t.len() > s.len() {
        None
    } else if s.subrange(i, i + t.len()) == t {
        Some(i)
    } else {
        first_match(s, t, i + 1)
    }
}

/// The outcome of reading from `i` up to the first occurrence of `t`: an
/// input shorter than `t` is incomplete, one without `t` is an error;
/// `Done` carries the position where `t` starts.
pub open spec fn spec_take_until(s: Seq<u8>, i: int, t: Seq<u8>) -> Outcome<()> {
    if i < 0 || i > s.len() || t.len() > s.len() - i {
        Outcome::Incomplete
    } else {
        match first_match(s, t, i) {
            Some(k) => Outcome::Done(k as nat, ()),
            None => Outcome::Error,
        }
    }
}

pub proof fn lemma_first_match_bound(s: Seq<u8>, t: Seq<u8>, i: int)
    ensures
        first_match(s, t, i) matches Some(k) ==> i <= k && k + t.len() <= s.len() && s.subrange(
            k,
            k + t.len(),
        ) == t,
    decreases s.len() - i,
{
    if !(t.len() == 0 || i < 0 || i + t.len() > s.len()) && s.subrange(i, i + t.len()) != t {
        lemma_first_match_bound(s, t, i + 1);
    }
}

/// Whether `t` occurs in `s` at `i`.
fn occurs_at(s: &[u8], i: usize, t: &[u8]) -> (b: bool)
    requires
        i + t@.len() <= s@.len(),
    ensures
        b == (s@.subrange(i as int, i + t@.len()) == t@),
{
    let _ = s.len();
    let mut k: usize = 0;
    while k < t.len()
        invariant
            k <= t@.len(),
            s@.len() <= usize::MAX,
            i + t@.len() <= s@.len(),
            forall|j: int| 0 <= j < k ==> s@[i + j] == t@[j],
        decreases t@.len() - k,
    {
        if s[i + k] != t[k] {
            assert(s@.subrange(i as int, i + t@.len())[k as int] != t@[k as int]);
            return false;
        }
        k = k + 1;
    }
    assert(s@.subrange(i as int, i + t@.len()) =~= t@);
    true
}

/// Reads `s[i..]` up to the first occurrence of `t`.
pub fn take_until(s: &[u8], i: usize, t: &[u8]) -> (r: Scan)
    requires
        i <= s@.len(),
    ensures
        scan_agrees(r, spec_take_until(s@, i as int, t@)),
        r matches Scan::Done(k) ==> i <= k && k + t@.len() <= s@.len() && s@.subrange(
            k as int,
            k + t@.len(),
        ) == t@,
{
    if t.len() > s.len() - i {
        return Scan::Incomplete;
    }
    if t.len() == 0 {
        return Scan::Error;
    }
    let mut k: usize = i;
    while k <= s.len() - t.len()
        invariant
            i <= k,
            s@.len() <= usize::MAX,
            0 < t@.len() <= s@.len(),
            k <= s@.len() - t@.len() + 1,
            first_match(s@, t@, k as int) == first_match(s@, t@, i as int),
        decreases s@.len() - k,
    {
        if occurs_at(s, k, t) {
            return Scan::Done(k);
        }
        k = k + 1;
    }
    Scan::Error
}

/// A byte that may follow a backslash in a quoted string.
#[verifier::allow_in_spec]
pub fn is_escapable_byte(b: u8) -> bool
    returns
        b == 0x22 || b == 0x6e || b == 0x5c,
{
    b == 0x22 || b == 0x6e || b == 0x5c
}

/// The end of the body of a quoted string in `t`, scanning from `i`: the
/// body stops at an unescaped `"` or at the end of `t`; a backslash must be
/// followed by `"`, `n` or another backslash.
pub open spec fn scan_quoted(t: Seq<u8>, i: int) -> Outcome<()>
    decreases t.len() - i,
{
    if i < 0 || i >= t.len() {
        Outcome::Done(t.len(), ())
    } else if t[i] == 0x22 {
        Outcome::Done(i as nat, ())
    } else if t[i] == 0x5c {
        if i + 1 >= t.len() {
            Outcome::Incomplete
        } else if is_escapable_byte(t[i + 1]) {
            scan_quoted(t, i + 2)
        } else {
            Outcome::Error
        }
    } else {
        scan_quoted(t, i + 1)
    }
}

pub proof fn lemma_scan_quoted_bound(t: Seq<u8>, i: int)
    requires
        0 <= i <= t.len(),
    ensures
        scan_quoted(t, i) matches Outcome::Done(k, _) ==> i <= k <= t.len() && (k < t.len()
            ==> t[k as int] == 0x22),
    decreases t.len() - i,
{
    if i < t.len() && t[i] != 0x22 {
        if t[i] == 0x5c {
            if i + 1 < t.len() && is_escapable_byte(t[i + 1]) {
                lemma_scan_quoted_bound(t, i + 2);
            }
        } else {
            lemma_scan_quoted_bound(t, i + 1);
        }
    }
}

/// Scans the body of a quoted string that starts at `i`.
pub fn quoted_body(s: &[u8], i: usize) -> (r: Scan)
    requires
        i <= s@.len(),
    ensures
        scan_agrees(r, scan_quoted(s@, i as int)),
        r matches Scan::Done(k) ==> i <= k <= s@.len() && (k < s@.len() ==> s@[k as int] == 0x22),
{
    proof {
        lemma_scan_quoted_bound(s@, i as int);
    }
    let n = s.len();
    let mut k: usize = i;
    while k < n
        invariant
            i <= k <= n,
            n == s@.len(),
            scan_quoted(s@, k as int) == scan_quoted(s@, i as int),
        decreases n - k,
    {
        let b = s[k];
        if b == 0x22 {
            return Scan::Done(k);
        } else if b == 0x5c {
            if k + 1 >= n {
                return Scan::Incomplete;
            }
            if is_escapable_byte(s[k + 1]) {
                k = k + 2;
            } else {
                return Scan::Error;
            }
        } else {
            k = k + 1;
        }
    }
    Scan::Done(n)
}

/// The text that `s[a..b]` encodes, found in a construct that ends at
/// `end`; `Invalid` where those bytes are not UTF-8.
pub open spec fn text_outcome(s: Seq<u8>, a: int, b: int, end: int) -> Outcome<Seq<char>> {
    if valid_utf8(s.subrange(a, b)) {
        Outcome::Done(end as nat, decode_utf8(s.subrange(a, b)))
    } else {
        Outcome::Invalid
    }
}

/// Calls `std::str::from_utf8`: it succeeds exactly on valid UTF-8, and then
/// the text holds the very bytes it was given.
#[verifier::external_body]
fn utf8_str<'a>(bytes: &'a [u8]) -> (r: Option<&'a str>)
    ensures
        r is Some <==> valid_utf8(bytes@),
        r matches Some(t) ==> t.spec_bytes() == bytes@,
{
    std::str::from_utf8(bytes).ok()
}

/// The text in `s[i..j]`, where those bytes are UTF-8.
pub fn text<'a>(s: &'a [u8], i: usize, j: usize) -> (t: Option<&'a str>)
    requires
        i <= j <= s@.len(),
    ensures
        t is Some <==> valid_utf8(s@.subrange(i as int, j as int)),
        t matches Some(x) ==> x@ == decode_utf8(s@.subrange(i as int, j as int))
            && x.spec_bytes() == s@.subrange(i as int, j as int),
{
    let bytes = vstd::slice::slice_subrange(s, i, j);
    let t = utf8_str(bytes);
    if let Some(x) = t {
        proof {
            encode_utf8_decode_utf8(x@);
        }
    }
    t
}

} // verus!
