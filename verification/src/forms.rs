//! What well-formed texts are read as, and how the attributes of an
//! assertion are written: properties stated over whole classes of inputs.
use vstd::prelude::*;
use crate::ast::{AssertionModel, ValueModel};
use crate::clips::{
    assertion_clips, assertion_head, assertion_tail, attrs_clips, lit, multi_clips, value_clips,
};
use crate::grammar::{
    one, spec_assertion_value, spec_assignment_value, spec_multi_value,
    spec_multiline_string_value, spec_muted_value, spec_ref_value, spec_standard_string,
    spec_symbol_value, spec_value, triple_quote,
};
use crate::lexer::{first_match, is_escapable_byte, scan_quoted, spec_tag};
use crate::outcome::Outcome;
use vstd::utf8::{
    encode_utf8, encode_utf8_decode_utf8, encode_utf8_valid_utf8, is_ascii_chars,
    is_ascii_chars_encode_utf8,
};

verus! {

/// A text that may stand between the quotes of a quoted string: every
/// backslash is followed by `"`, `n` or a backslash, and no `"` stands
/// without a backslash before it.
pub open spec fn well_escaped(t: Seq<char>) -> bool
    decreases t.len(),
{
    if t.len() == 0 {
        true
    } else if t[0] == '\\' {
        &&& t.len() >= 2
        &&& (t[1] == '"' || t[1] == 'n' || t[1] == '\\')
        &&& well_escaped(t.skip(2))
    } else {
        t[0] != '"' && well_escaped(t.skip(1))
    }
}

/// One attribute as written: ` (name value)`.
pub open spec fn attr_group(x: (Seq<char>, ValueModel)) -> Seq<u8> {
    lit(" (") + encode_utf8(x.0) + lit(" ") + value_clips(x.1) + lit(")")
}

proof fn lemma_ascii_skip(t: Seq<char>, k: int)
    requires
        is_ascii_chars(t),
        0 <= k <= t.len(),
    ensures
        is_ascii_chars(t.skip(k)),
{
    assert forall|j| 0 <= j < t.skip(k).len() implies '\0' <= #[trigger] t.skip(k)[j] <= '\u{7f}' by {
        assert(t.skip(k)[j] == t[j + k]);
    }
}

/// An ASCII character is written as the byte with its number.
proof fn lemma_ascii_byte(c: char)
    requires
        '\0' <= c <= '\u{7f}',
    ensures
        (c as u8 == 0x22u8) <==> (c == '"'),
        (c as u8 == 0x5cu8) <==> (c == '\\'),
        (c as u8 == 0x6eu8) <==> (c == 'n'),
{
    let x = c as u32;
    assert(x < 128);
    assert((x as u8) as u32 == x) by (bit_vector)
        requires
            x < 128,
    ;
}

/// Scanning a quoted body passes over the bytes of a well-escaped text.
proof fn lemma_scan_well_escaped(t: Seq<char>, w: Seq<u8>, j: int)
    requires
        is_ascii_chars(t),
        well_escaped(t),
        0 <= j,
        j + t.len() <= w.len(),
        forall|k: int| 0 <= k < t.len() ==> w[j + k] == #[trigger] t[k] as u8,
    ensures
        scan_quoted(w, j) == scan_quoted(w, j + t.len()),
    decreases t.len(),
{
    if t.len() > 0 {
        assert(w[j] == t[0] as u8);
        lemma_ascii_byte(t[0]);
        if t[0] == '\\' {
            assert(w[j + 1] == t[1] as u8);
            lemma_ascii_byte(t[1]);
            assert(is_escapable_byte(w[j + 1]));
            let r = t.skip(2);
            lemma_ascii_skip(t, 2);
            assert forall|k: int| 0 <= k < r.len() implies w[j + 2 + k] == #[trigger] r[k] as u8 by {
                assert(r[k] == t[k + 2]);
                assert(w[j + (k + 2)] == t[k + 2] as u8);
            }
            lemma_scan_well_escaped(r, w, j + 2);
        } else {
            let r = t.skip(1);
            lemma_ascii_skip(t, 1);
            assert forall|k: int| 0 <= k < r.len() implies w[j + 1 + k] == #[trigger] r[k] as u8 by {
                assert(r[k] == t[k + 1]);
                assert(w[j + (k + 1)] == t[k + 1] as u8);
            }
            lemma_scan_well_escaped(r, w, j + 1);
        }
    }
}

/// A quoted string whose body is a well-escaped ASCII text is read in full,
/// whatever follows it, and its text is the body as written.
pub proof fn law_quoted_string_reads_body(t: Seq<char>, x: Seq<u8>)
    requires
        is_ascii_chars(t),
        well_escaped(t),
    ensures
        spec_standard_string(seq![0x22u8] + encode_utf8(t) + seq![0x22u8] + x, 0)
            == Outcome::Done((t.len() + 2) as nat, t),
{
    let b = encode_utf8(t);
    let w = seq![0x22u8] + b + seq![0x22u8] + x;
    is_ascii_chars_encode_utf8(t);
    encode_utf8_valid_utf8(t);
    encode_utf8_decode_utf8(t);
    let n = t.len() as int;
    assert(b.len() == n);
    assert forall|k: int| 0 <= k < t.len() implies w[1 + k] == #[trigger] t[k] as u8 by {
        assert(w[1 + k] == b[k]);
    }
    lemma_scan_well_escaped(t, w, 1);
    assert(w[1 + n] == 0x22);
    assert(scan_quoted(w, 1 + n) == Outcome::Done::<()>((1 + n) as nat, ()));
    assert(w.subrange(1, 1 + n) =~= b);
}

/// A tag whose first byte differs from the byte at `i` is an error there.
proof fn lemma_tag_mismatch(s: Seq<u8>, i: int, t: Seq<u8>)
    requires
        0 <= i < s.len(),
        t.len() >= 1,
        s[i] != t[0],
    ensures
        spec_tag(s, i, t) is Error,
{
    let m = if s.len() - i < t.len() { s.len() - i } else { t.len() as int };
    assert(s.subrange(i, i + m)[0] != t.take(m)[0]);
}

/// `"""` is found first at `e` when no quote stands between `j` and `e`.
proof fn lemma_triple_quote_first(s: Seq<u8>, j: int, e: int)
    requires
        0 <= j <= e,
        e + 3 <= s.len(),
        s.subrange(e, e + 3) == triple_quote(),
        forall|k: int| j <= k < e ==> #[trigger] s[k] != 0x22,
    ensures
        first_match(s, triple_quote(), j) == Some(e),
    decreases e - j,
{
    if j < e {
        assert(s.subrange(j, j + 3)[0] != triple_quote()[0]);
        lemma_triple_quote_first(s, j + 1, e);
    }
}

/// A value that starts with `"` is none of the values that start with
/// another byte.
proof fn lemma_quote_starts_no_other_value(s: Seq<u8>)
    requires
        s.len() > 0,
        s[0] == 0x22,
    ensures
        spec_multi_value(s, 0) is Error,
        spec_muted_value(s, 0) is Error,
        spec_assignment_value(s, 0) is Error,
        spec_ref_value(s, 0) is Error,
        spec_assertion_value(s, 0) is Error,
        spec_symbol_value(s, 0) is Error,
{
    reveal(spec_ref_value);
    reveal(spec_symbol_value);
    assert(crate::lexer::run_end(s, crate::lexer::ByteClass::Space, 0) == 0);
    lemma_tag_mismatch(s, 0, one(0x5b));
    lemma_tag_mismatch(s, 0, one(0x7c));
    lemma_tag_mismatch(s, 0, one(0x3d));
    lemma_tag_mismatch(s, 0, one(0x40));
    lemma_tag_mismatch(s, 0, one(0x2b));
    lemma_tag_mismatch(s, 0, one(0x27));
    assert(!crate::lexer::is_alpha_byte(s[0]));
}

/// A multiline string is read as one: for every ASCII text without `"`,
/// whatever follows it, the value at `"""text"""` is the multiline string
/// with that text, and it ends right after the closing `"""`.
pub proof fn law_multiline_value_reads_text(t: Seq<char>, x: Seq<u8>)
    requires
        is_ascii_chars(t),
        !t.contains('"'),
    ensures
        spec_value(triple_quote() + encode_utf8(t) + triple_quote() + x, 0) == Outcome::Done(
            (t.len() + 6) as nat,
            ValueModel::MultilineString(t),
        ),
{
    let b = encode_utf8(t);
    let s = triple_quote() + b + triple_quote() + x;
    let n = t.len() as int;
    is_ascii_chars_encode_utf8(t);
    encode_utf8_valid_utf8(t);
    encode_utf8_decode_utf8(t);
    assert(b.len() == n);
    assert(s[0] == 0x22);
    assert forall|k: int| 3 <= k < 3 + n implies #[trigger] s[k] != 0x22 by {
        assert(s[k] == b[k - 3]);
        assert(t[k - 3] as u8 == b[k - 3]);
        lemma_ascii_byte(t[k - 3]);
        assert(t[k - 3] != '"');
    }
    assert(s.subrange(3 + n, 6 + n) =~= triple_quote());
    assert(s.subrange(0, 3) =~= triple_quote());
    assert(triple_quote().take(3) =~= triple_quote());
    lemma_triple_quote_first(s, 3, 3 + n);
    assert(spec_tag(s, 0, triple_quote()) == Outcome::Done::<()>(3, ()));
    assert(spec_tag(s, 3 + n, triple_quote()) == Outcome::Done::<()>((6 + n) as nat, ()));
    assert(s.subrange(3, 3 + n) =~= b);
    reveal(spec_multiline_string_value);
    assert(spec_multiline_string_value(s, 0) == Outcome::Done(
        (t.len() + 6) as nat,
        ValueModel::MultilineString(t),
    ));
    lemma_quote_starts_no_other_value(s);
}

/// The attributes are written one group after another: writing a list that
/// is two lists joined writes the first list, then the second.
pub proof fn law_attrs_written_in_order(
    a: Seq<(Seq<char>, ValueModel)>,
    b: Seq<(Seq<char>, ValueModel)>,
)
    ensures
        attrs_clips(a + b) == attrs_clips(a) + attrs_clips(b),
    decreases b.len(),
{
    if b.len() == 0 {
        assert(a + b =~= a);
        assert(attrs_clips(b) =~= Seq::<u8>::empty());
        assert(attrs_clips(a) + attrs_clips(b) =~= attrs_clips(a));
    } else {
        let bi = b.subrange(0, b.len() - 1);
        let ab = a + b;
        assert(ab.subrange(0, ab.len() - 1) =~= a + bi);
        assert(ab[ab.len() - 1] == b[b.len() - 1]);
        law_attrs_written_in_order(a, bi);
        let g = attr_group(b[b.len() - 1]);
        assert(attrs_clips(ab) =~= attrs_clips(a + bi) + g);
        assert(attrs_clips(b) =~= attrs_clips(bi) + g);
        assert(attrs_clips(ab) =~= attrs_clips(a) + attrs_clips(b));
    }
}

/// One attribute is written as ` (name value)`, so a list of attributes is
/// written as one such group per attribute, in order.
pub proof fn law_attr_written_as_group(x: (Seq<char>, ValueModel))
    ensures
        attrs_clips(seq![x]) == attr_group(x),
{
    assert(seq![x].subrange(0, 0) =~= Seq::<(Seq<char>, ValueModel)>::empty());
    assert(attrs_clips(Seq::<(Seq<char>, ValueModel)>::empty()) =~= Seq::<u8>::empty());
    assert(attrs_clips(seq![x]) =~= attr_group(x));
}

/// An assertion with one more attribute is written as the same assertion
/// with that attribute's group added after the others, before the closing
/// brackets.
pub proof fn law_assertion_attr_added(a: AssertionModel, x: (Seq<char>, ValueModel))
    ensures
        assertion_clips(AssertionModel { attrs: a.attrs.push(x), ..a }) == assertion_head(a.mode)
            + encode_utf8(a.class) + attrs_clips(a.attrs) + attr_group(x) + assertion_tail(a.mode),
{
    let pushed = a.attrs.push(x);
    assert(pushed =~= a.attrs + seq![x]);
    law_attrs_written_in_order(a.attrs, seq![x]);
    law_attr_written_as_group(x);
    assert(assertion_clips(AssertionModel { attrs: pushed, ..a }) =~= assertion_head(a.mode)
        + encode_utf8(a.class) + attrs_clips(a.attrs) + attr_group(x) + assertion_tail(a.mode));
}

/// A backslash followed by anything but `"`, `n` or a backslash makes a
/// quoted string an error, after any well-escaped start.
pub proof fn law_quoted_string_bad_escape(t: Seq<char>, c: char, x: Seq<u8>)
    requires
        is_ascii_chars(t),
        well_escaped(t),
        '\0' <= c <= '\u{7f}',
        c != '"' && c != 'n' && c != '\\',
    ensures
        spec_standard_string(seq![0x22u8] + encode_utf8(t) + seq![0x5cu8, c as u8] + x, 0) is Error,
{
    let b = encode_utf8(t);
    let w = seq![0x22u8] + b + seq![0x5cu8, c as u8] + x;
    is_ascii_chars_encode_utf8(t);
    let n = t.len() as int;
    assert(b.len() == n);
    assert forall|k: int| 0 <= k < t.len() implies w[1 + k] == #[trigger] t[k] as u8 by {
        assert(w[1 + k] == b[k]);
    }
    lemma_scan_well_escaped(t, w, 1);
    lemma_ascii_byte(c);
    assert(w[1 + n] == 0x5c);
    assert(w[2 + n] == c as u8);
    assert(!is_escapable_byte(w[2 + n]));
    assert(scan_quoted(w, 1 + n) is Error);
}

/// A quoted string that is not closed before the input ends is incomplete.
pub proof fn law_quoted_string_unclosed(t: Seq<char>)
    requires
        is_ascii_chars(t),
        well_escaped(t),
    ensures
        spec_standard_string(seq![0x22u8] + encode_utf8(t), 0) is Incomplete,
{
    let b = encode_utf8(t);
    let w = seq![0x22u8] + b;
    is_ascii_chars_encode_utf8(t);
    let n = t.len() as int;
    assert(b.len() == n);
    assert forall|k: int| 0 <= k < t.len() implies w[1 + k] == #[trigger] t[k] as u8 by {
        assert(w[1 + k] == b[k]);
    }
    lemma_scan_well_escaped(t, w, 1);
    assert(scan_quoted(w, 1 + n) == Outcome::Done::<()>(w.len(), ()));
}

/// One value of a list as written: a space, the value and a newline.
pub open spec fn list_item(v: ValueModel) -> Seq<u8> {
    lit(" ") + value_clips(v) + lit("\n")
}

/// The values of a list are written one after another: writing two lists
/// joined writes the first list, then the second.
pub proof fn law_list_written_in_order(a: Seq<ValueModel>, b: Seq<ValueModel>)
    ensures
        multi_clips(a + b) == multi_clips(a) + multi_clips(b),
    decreases b.len(),
{
    if b.len() == 0 {
        assert(a + b =~= a);
        assert(multi_clips(b) =~= Seq::<u8>::empty());
        assert(multi_clips(a) + multi_clips(b) =~= multi_clips(a));
    } else {
        let bi = b.subrange(0, b.len() - 1);
        let ab = a + b;
        assert(ab.subrange(0, ab.len() - 1) =~= a + bi);
        assert(ab[ab.len() - 1] == b[b.len() - 1]);
        law_list_written_in_order(a, bi);
        let g = list_item(b[b.len() - 1]);
        assert(multi_clips(ab) =~= multi_clips(a + bi) + g);
        assert(multi_clips(b) =~= multi_clips(bi) + g);
        assert(multi_clips(ab) =~= multi_clips(a) + multi_clips(b));
    }
}

/// One value of a list is written as a space, the value and a newline.
pub proof fn law_list_item_written(v: ValueModel)
    ensures
        multi_clips(seq![v]) == list_item(v),
{
    assert(seq![v].subrange(0, 0) =~= Seq::<ValueModel>::empty());
    assert(multi_clips(Seq::<ValueModel>::empty()) =~= Seq::<u8>::empty());
    assert(multi_clips(seq![v]) =~= list_item(v));
}

} // verus!
