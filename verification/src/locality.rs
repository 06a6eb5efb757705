//! What a rule reads at a position depends only on the input from there on.
use vstd::prelude::*;
use crate::grammar::{
    alt, arrow, complete, is_name, lemma_primitive_bounds, spec_assertion, spec_assertion_value,
    spec_assignment_value, spec_attr_items, spec_attribute, spec_duplication, spec_is_shortcut,
    spec_multi_value, spec_muted_value, spec_value, spec_value_items, one, raw_close, raw_open, spec_binding, spec_multiline_string,
    spec_multiline_string_value, spec_multispace, spec_opt_space, spec_raw_string, spec_ref_name,
    spec_ref_value, spec_sp, spec_standard_string, spec_string_value, spec_symbol,
    spec_symbol_value, triple_quote,
};
use crate::lexer::{
    ByteClass, first_match, in_class, lemma_run_end, run_end, scan_quoted, spec_tag,
    spec_take_until, text_outcome,
};
use crate::ast::{AssertionModel, ModeModel, ValueModel};
use crate::outcome::Outcome;
use vstd::utf8::{
    encode_utf8, encode_utf8_decode_utf8, encode_utf8_valid_utf8, is_ascii_chars,
    is_ascii_chars_encode_utf8, decode_utf8, valid_utf8,
};

verus! {

/// `o1` is `o2` with its end position moved by `d`.
pub open spec fn moved<T>(o1: Outcome<T>, o2: Outcome<T>, d: int) -> bool {
    match (o1, o2) {
        (Outcome::Done(e1, v1), Outcome::Done(e2, v2)) => e1 == e2 + d && v1 == v2,
        (Outcome::Incomplete, Outcome::Incomplete) => true,
        (Outcome::Error, Outcome::Error) => true,
        (Outcome::Invalid, Outcome::Invalid) => true,
        _ => false,
    }
}

/// `s1` from `i1` on and `s2` from `i2` on are the same bytes.
pub open spec fn same_rest(s1: Seq<u8>, i1: int, s2: Seq<u8>, i2: int) -> bool {
    &&& 0 <= i1 <= s1.len()
    &&& 0 <= i2 <= s2.len()
    &&& s1.skip(i1) == s2.skip(i2)
}

/// Two inputs that agree from a pair of positions agree from any later pair
/// at the same distance.
pub proof fn lemma_same_rest_later(s1: Seq<u8>, i1: int, s2: Seq<u8>, i2: int, k: int)
    requires
        same_rest(s1, i1, s2, i2),
        0 <= k <= s1.len() - i1,
    ensures
        same_rest(s1, i1 + k, s2, i2 + k),
        s1.len() - i1 == s2.len() - i2,
        forall|j: int| i1 <= j < s1.len() ==> #[trigger] s1[j] == s2[j - i1 + i2],
{
    assert(s1.skip(i1).len() == s2.skip(i2).len());
    assert forall|j: int| i1 <= j < s1.len() implies #[trigger] s1[j] == s2[j - i1 + i2] by {
        assert(s1.skip(i1)[j - i1] == s2.skip(i2)[j - i1]);
    }
    assert(s1.skip(i1 + k) =~= s2.skip(i2 + k));
}

/// Two inputs that agree from a pair of positions agree from any later pair
/// at the same distance, and have as much left from there.
pub proof fn lemma_shift(s1: Seq<u8>, i1: int, s2: Seq<u8>, i2: int, k: int)
    requires
        same_rest(s1, i1, s2, i2),
        0 <= k <= s1.len() - i1,
    ensures
        same_rest(s1, i1 + k, s2, i2 + k),
        s1.len() - i1 == s2.len() - i2,
{
    lemma_same_rest_later(s1, i1, s2, i2, k);
}

/// Runs of a class end at the same distance.
pub proof fn lemma_run_end_local(s1: Seq<u8>, i1: int, s2: Seq<u8>, i2: int, c: ByteClass)
    requires
        same_rest(s1, i1, s2, i2),
    ensures
        run_end(s1, c, i1) - i1 == run_end(s2, c, i2) - i2,
    decreases s1.len() - i1,
{
    lemma_same_rest_later(s1, i1, s2, i2, 0);
    if i1 < s1.len() {
        assert(s1[i1] == s2[i2]);
        if in_class(&c, s1[i1]) {
            lemma_same_rest_later(s1, i1, s2, i2, 1);
            lemma_run_end_local(s1, i1 + 1, s2, i2 + 1, c);
        }
    }
}

/// Matching fixed bytes gives the same outcome, moved.
pub proof fn lemma_tag_local(s1: Seq<u8>, i1: int, s2: Seq<u8>, i2: int, t: Seq<u8>)
    requires
        same_rest(s1, i1, s2, i2),
    ensures
        moved(spec_tag(s1, i1, t), spec_tag(s2, i2, t), i1 - i2),
{
    lemma_same_rest_later(s1, i1, s2, i2, 0);
    let m = if s1.len() - i1 < t.len() { s1.len() - i1 } else { t.len() as int };
    assert(s1.subrange(i1, i1 + m) =~= s2.subrange(i2, i2 + m));
}

/// The first occurrence of `t` is found at the same distance.
pub proof fn lemma_first_match_local(s1: Seq<u8>, i1: int, s2: Seq<u8>, i2: int, t: Seq<u8>)
    requires
        same_rest(s1, i1, s2, i2),
    ensures
        first_match(s1, t, i1) matches Some(k1) ==> first_match(s2, t, i2) == Some(k1 - i1 + i2),
        first_match(s1, t, i1) is None ==> first_match(s2, t, i2) is None,
    decreases s1.len() - i1,
{
    lemma_same_rest_later(s1, i1, s2, i2, 0);
    if !(t.len() == 0 || i1 + t.len() > s1.len()) {
        assert(s1.subrange(i1, i1 + t.len()) =~= s2.subrange(i2, i2 + t.len()));
        if s1.subrange(i1, i1 + t.len()) != t {
            lemma_same_rest_later(s1, i1, s2, i2, 1);
            lemma_first_match_local(s1, i1 + 1, s2, i2 + 1, t);
        }
    }
}

/// Reading up to a terminator gives the same outcome, moved.
pub proof fn lemma_take_until_local(s1: Seq<u8>, i1: int, s2: Seq<u8>, i2: int, t: Seq<u8>)
    requires
        same_rest(s1, i1, s2, i2),
    ensures
        moved(spec_take_until(s1, i1, t), spec_take_until(s2, i2, t), i1 - i2),
{
    lemma_same_rest_later(s1, i1, s2, i2, 0);
    lemma_first_match_local(s1, i1, s2, i2, t);
    crate::lexer::lemma_first_match_bound(s2, t, i2);
}

/// Scanning a quoted body gives the same outcome, moved.
pub proof fn lemma_scan_quoted_local(s1: Seq<u8>, i1: int, s2: Seq<u8>, i2: int)
    requires
        same_rest(s1, i1, s2, i2),
    ensures
        moved(scan_quoted(s1, i1), scan_quoted(s2, i2), i1 - i2),
    decreases s1.len() - i1,
{
    lemma_same_rest_later(s1, i1, s2, i2, 0);
    if i1 < s1.len() {
        assert(s1[i1] == s2[i2]);
        if s1[i1] != 0x22 {
            if s1[i1] == 0x5c {
                if i1 + 1 < s1.len() {
                    assert(s1[i1 + 1] == s2[i2 + 1]);
                    if crate::lexer::is_escapable_byte(s1[i1 + 1]) {
                        lemma_same_rest_later(s1, i1, s2, i2, 2);
                        lemma_scan_quoted_local(s1, i1 + 2, s2, i2 + 2);
                    }
                }
            } else {
                lemma_same_rest_later(s1, i1, s2, i2, 1);
                lemma_scan_quoted_local(s1, i1 + 1, s2, i2 + 1);
            }
        }
    }
}

/// A text between positions at the same distances is the same text.
pub proof fn lemma_text_local(
    s1: Seq<u8>,
    i1: int,
    s2: Seq<u8>,
    i2: int,
    a: int,
    b: int,
    e: int,
)
    requires
        same_rest(s1, i1, s2, i2),
        0 <= a <= b <= s1.len() - i1,
        0 <= e,
    ensures
        moved(text_outcome(s1, i1 + a, i1 + b, i1 + e), text_outcome(s2, i2 + a, i2 + b, i2 + e), i1 - i2),
{
    lemma_same_rest_later(s1, i1, s2, i2, 0);
    assert(s1.subrange(i1 + a, i1 + b) =~= s2.subrange(i2 + a, i2 + b));
}

/// The primitive rules give the same outcomes, moved.
pub proof fn lemma_primitives_local(s1: Seq<u8>, i1: int, s2: Seq<u8>, i2: int)
    requires
        same_rest(s1, i1, s2, i2),
    ensures
        spec_sp(s1, i1) - i1 == spec_sp(s2, i2) - i2,
        moved(spec_multispace(s1, i1), spec_multispace(s2, i2), i1 - i2),
        moved(spec_opt_space(s1, i1), spec_opt_space(s2, i2), i1 - i2),
        moved(spec_symbol(s1, i1), spec_symbol(s2, i2), i1 - i2),
{
    lemma_same_rest_later(s1, i1, s2, i2, 0);
    lemma_run_end_local(s1, i1, s2, i2, ByteClass::Space);
    lemma_run_end_local(s1, i1, s2, i2, ByteClass::Identifier);
    lemma_run_end(s1, ByteClass::Space, i1);
    lemma_run_end(s2, ByteClass::Space, i2);
    lemma_run_end(s1, ByteClass::Identifier, i1);
    lemma_run_end(s2, ByteClass::Identifier, i2);
    if i1 < s1.len() {
        assert(s1[i1] == s2[i2]);
        let e1 = run_end(s1, ByteClass::Identifier, i1);
        lemma_text_local(s1, i1, s2, i2, 0, e1 - i1, e1 - i1);
    }
}


/// The string rules and the rules that read a name give the same outcomes,
/// moved.
#[verifier::rlimit(100)]
pub proof fn lemma_leaves_local(s1: Seq<u8>, i1: int, s2: Seq<u8>, i2: int)
    requires
        same_rest(s1, i1, s2, i2),
    ensures
        moved(spec_standard_string(s1, i1), spec_standard_string(s2, i2), i1 - i2),
        moved(spec_raw_string(s1, i1), spec_raw_string(s2, i2), i1 - i2),
        moved(spec_multiline_string(s1, i1), spec_multiline_string(s2, i2), i1 - i2),
        moved(spec_multiline_string_value(s1, i1), spec_multiline_string_value(s2, i2), i1 - i2),
        moved(spec_string_value(s1, i1), spec_string_value(s2, i2), i1 - i2),
        moved(spec_symbol_value(s1, i1), spec_symbol_value(s2, i2), i1 - i2),
        moved(spec_ref_name(s1, i1), spec_ref_name(s2, i2), i1 - i2),
        moved(spec_ref_value(s1, i1), spec_ref_value(s2, i2), i1 - i2),
        moved(spec_binding(s1, i1), spec_binding(s2, i2), i1 - i2),
{
    reveal(spec_multiline_string_value);
    reveal(spec_string_value);
    reveal(spec_symbol_value);
    reveal(spec_ref_value);
    lemma_standard_string_local(s1, i1, s2, i2);
    lemma_delimited_local(s1, i1, s2, i2, raw_open(), raw_close());
    lemma_delimited_local(s1, i1, s2, i2, triple_quote(), triple_quote());
    lemma_named_local(s1, i1, s2, i2);
}

proof fn lemma_standard_string_local(s1: Seq<u8>, i1: int, s2: Seq<u8>, i2: int)
    requires
        same_rest(s1, i1, s2, i2),
    ensures
        moved(spec_standard_string(s1, i1), spec_standard_string(s2, i2), i1 - i2),
{
    lemma_same_rest_later(s1, i1, s2, i2, 0);
    if i1 < s1.len() {
        assert(s1[i1] == s2[i2]);
        if s1[i1] == 0x22 {
            lemma_same_rest_later(s1, i1, s2, i2, 1);
            lemma_scan_quoted_local(s1, i1 + 1, s2, i2 + 1);
            crate::lexer::lemma_scan_quoted_bound(s1, i1 + 1);
            crate::lexer::lemma_scan_quoted_bound(s2, i2 + 1);
            if let Outcome::Done(k, _) = scan_quoted(s1, i1 + 1) {
                let k2 = k - i1 + i2;
                assert(scan_quoted(s2, i2 + 1) == Outcome::Done(k2 as nat, ()));
                if k < s1.len() {
                    assert(s1[k as int] == s2[k2]);
                    lemma_text_local(s1, i1, s2, i2, 1, k - i1, k - i1 + 1);
                    assert(moved(text_outcome(s1, i1 + 1, k as int, k + 1int), text_outcome(s2, i2 + 1, k2, k2 + 1), i1 - i2));
                }
            }
        }
    }
}

/// A text between fixed delimiters is read the same, moved.
proof fn lemma_delimited_local(
    s1: Seq<u8>,
    i1: int,
    s2: Seq<u8>,
    i2: int,
    open: Seq<u8>,
    close: Seq<u8>,
)
    requires
        same_rest(s1, i1, s2, i2),
    ensures
        ({
            let r1 = match spec_tag(s1, i1, open) {
                Outcome::Done(a, _) => match spec_take_until(s1, a as int, close) {
                    Outcome::Done(k, _) => match spec_tag(s1, k as int, close) {
                        Outcome::Done(e, _) => text_outcome(s1, a as int, k as int, e as int),
                        o => crate::grammar::fail(o),
                    },
                    o => crate::grammar::fail(o),
                },
                o => crate::grammar::fail(o),
            };
            let r2 = match spec_tag(s2, i2, open) {
                Outcome::Done(a, _) => match spec_take_until(s2, a as int, close) {
                    Outcome::Done(k, _) => match spec_tag(s2, k as int, close) {
                        Outcome::Done(e, _) => text_outcome(s2, a as int, k as int, e as int),
                        o => crate::grammar::fail(o),
                    },
                    o => crate::grammar::fail(o),
                },
                o => crate::grammar::fail(o),
            };
            moved(r1, r2, i1 - i2)
        }),
{
    lemma_same_rest_later(s1, i1, s2, i2, 0);
    lemma_tag_local(s1, i1, s2, i2, open);
    lemma_primitive_bounds(s1, i1);
    if let Outcome::Done(a, _) = spec_tag(s1, i1, open) {
        let d = a - i1;
        let a2 = i2 + d;
        assert(spec_tag(s2, i2, open) == Outcome::Done(a2 as nat, ()));
        lemma_same_rest_later(s1, i1, s2, i2, d);
        lemma_take_until_local(s1, a as int, s2, a2, close);
        crate::lexer::lemma_first_match_bound(s1, close, a as int);
        crate::lexer::lemma_first_match_bound(s2, close, a2);
        if let Outcome::Done(k, _) = spec_take_until(s1, a as int, close) {
            let k2 = k - i1 + i2;
            assert(spec_take_until(s2, a2, close) == Outcome::Done(k2 as nat, ()));
            lemma_same_rest_later(s1, i1, s2, i2, k - i1);
            lemma_tag_local(s1, k as int, s2, k2, close);
            lemma_primitive_bounds(s1, k as int);
            if let Outcome::Done(e, _) = spec_tag(s1, k as int, close) {
                let e2 = e - i1 + i2;
                assert(spec_tag(s2, k2, close) == Outcome::Done(e2 as nat, ()));
                lemma_text_local(s1, i1, s2, i2, d, k - i1, e - i1);
                assert(moved(text_outcome(s1, a as int, k as int, e as int), text_outcome(s2, a2, k2, e2), i1 - i2));
            }
        }
    }
}

/// After a one-byte tag `b`, optional spaces and a symbol are read the same, moved.
proof fn lemma_tagged_name_local(s1: Seq<u8>, i1: int, s2: Seq<u8>, i2: int, b: u8)
    requires
        same_rest(s1, i1, s2, i2),
    ensures
        ({
            let r1 = match spec_tag(s1, i1, one(b)) {
                Outcome::Done(a, _) => match spec_opt_space(s1, a as int) {
                    Outcome::Done(c, _) => spec_symbol(s1, c as int),
                    o => crate::grammar::fail(o),
                },
                o => crate::grammar::fail(o),
            };
            let r2 = match spec_tag(s2, i2, one(b)) {
                Outcome::Done(a, _) => match spec_opt_space(s2, a as int) {
                    Outcome::Done(c, _) => spec_symbol(s2, c as int),
                    o => crate::grammar::fail(o),
                },
                o => crate::grammar::fail(o),
            };
            moved(r1, r2, i1 - i2)
        }),
{
    lemma_same_rest_later(s1, i1, s2, i2, 0);
    lemma_primitive_bounds(s1, i1);
    lemma_primitive_bounds(s2, i2);
    lemma_tag_local(s1, i1, s2, i2, one(b));
    if let Outcome::Done(a, _) = spec_tag(s1, i1, one(b)) {
        assert(spec_tag(s2, i2, one(b)) == Outcome::Done((i2 + 1) as nat, ()));
        lemma_same_rest_later(s1, i1, s2, i2, 1);
        lemma_primitives_local(s1, i1 + 1, s2, i2 + 1);
        lemma_primitive_bounds(s1, i1 + 1);
        lemma_primitive_bounds(s2, i2 + 1);
        if let Outcome::Done(c, _) = spec_opt_space(s1, i1 + 1) {
            let c2 = c - i1 + i2;
            assert(spec_opt_space(s2, i2 + 1) == Outcome::Done(c2 as nat, ()));
            lemma_same_rest_later(s1, i1, s2, i2, c - i1);
            lemma_primitives_local(s1, c as int, s2, c2);
        }
    }
}

/// The rules that read a name give the same outcomes, moved.
proof fn lemma_named_local(s1: Seq<u8>, i1: int, s2: Seq<u8>, i2: int)
    requires
        same_rest(s1, i1, s2, i2),
    ensures
        moved(spec_symbol_value(s1, i1), spec_symbol_value(s2, i2), i1 - i2),
        moved(spec_ref_name(s1, i1), spec_ref_name(s2, i2), i1 - i2),
        moved(spec_ref_value(s1, i1), spec_ref_value(s2, i2), i1 - i2),
        moved(spec_binding(s1, i1), spec_binding(s2, i2), i1 - i2),
{
    reveal(spec_symbol_value);
    reveal(spec_ref_value);
    lemma_symbol_value_local(s1, i1, s2, i2);
    lemma_tagged_name_local(s1, i1, s2, i2, 0x40);
    lemma_binding_local(s1, i1, s2, i2);
}

proof fn lemma_symbol_value_local(s1: Seq<u8>, i1: int, s2: Seq<u8>, i2: int)
    requires
        same_rest(s1, i1, s2, i2),
    ensures
        moved(spec_symbol_value(s1, i1), spec_symbol_value(s2, i2), i1 - i2),
{
    reveal(spec_symbol_value);
    lemma_same_rest_later(s1, i1, s2, i2, 0);
    lemma_primitive_bounds(s1, i1);
    lemma_primitive_bounds(s2, i2);
    lemma_tag_local(s1, i1, s2, i2, one(0x27));
    if let Outcome::Done(a, _) = spec_tag(s1, i1, one(0x27)) {
        assert(spec_tag(s2, i2, one(0x27)) == Outcome::Done((i2 + 1) as nat, ()));
        lemma_same_rest_later(s1, i1, s2, i2, 1);
        lemma_primitives_local(s1, i1 + 1, s2, i2 + 1);
    }
}

proof fn lemma_binding_local(s1: Seq<u8>, i1: int, s2: Seq<u8>, i2: int)
    requires
        same_rest(s1, i1, s2, i2),
    ensures
        moved(spec_binding(s1, i1), spec_binding(s2, i2), i1 - i2),
{
    lemma_same_rest_later(s1, i1, s2, i2, 0);
    lemma_primitive_bounds(s1, i1);
    lemma_primitive_bounds(s2, i2);
    lemma_tag_local(s1, i1, s2, i2, one(0x3d));
    if let Outcome::Done(a, _) = spec_tag(s1, i1, one(0x3d)) {
        assert(spec_tag(s2, i2, one(0x3d)) == Outcome::Done((i2 + 1) as nat, ()));
        lemma_same_rest_later(s1, i1, s2, i2, 1);
        lemma_primitives_local(s1, i1 + 1, s2, i2 + 1);
        lemma_primitive_bounds(s1, i1 + 1);
        lemma_primitive_bounds(s2, i2 + 1);
        if let Outcome::Done(c, _) = spec_opt_space(s1, i1 + 1) {
            let c2 = c - i1 + i2;
            assert(spec_opt_space(s2, i2 + 1) == Outcome::Done(c2 as nat, ()));
            lemma_same_rest_later(s1, i1, s2, i2, c - i1);
            lemma_primitives_local(s1, c as int, s2, c2);
            lemma_primitive_bounds(s1, c as int);
            lemma_primitive_bounds(s2, c2);
            if let Outcome::Done(n, name) = spec_symbol(s1, c as int) {
                let n2 = n - i1 + i2;
                assert(spec_symbol(s2, c2) == Outcome::Done(n2 as nat, name));
                lemma_same_rest_later(s1, i1, s2, i2, n - i1);
                lemma_primitives_local(s1, n as int, s2, n2);
                lemma_primitive_bounds(s1, n as int);
                lemma_primitive_bounds(s2, n2);
                if let Outcome::Done(e, _) = spec_multispace(s1, n as int) {
                    let e2 = e - i1 + i2;
                    assert(spec_multispace(s2, n2) == Outcome::Done(e2 as nat, ()));
                    assert(spec_binding(s2, i2) == Outcome::Done(e2 as nat, name));
                } else {
                    assert(spec_multispace(s2, n2) == spec_multispace(s1, n as int));
                }
            } else {
                assert(spec_symbol(s2, c2) == spec_symbol(s1, c as int));
            }
        } else {
            assert(spec_opt_space(s2, i2 + 1) == spec_opt_space(s1, i1 + 1));
        }
    } else {
        assert(spec_tag(s2, i2, one(0x3d)) == spec_tag(s1, i1, one(0x3d)));
    }
}


/// A value is read the same wherever the same bytes follow: the outcome at
/// `i1` in `s1` is the outcome at `i2` in `s2`, moved by `i1 - i2`.
pub proof fn lemma_value_local(s1: Seq<u8>, i1: int, s2: Seq<u8>, i2: int)
    requires
        same_rest(s1, i1, s2, i2),
    ensures
        moved(spec_value(s1, i1), spec_value(s2, i2), i1 - i2),
    decreases s1.len() - i1, 11int,
{
    lemma_multi_value_local(s1, i1, s2, i2);
    lemma_muted_value_local(s1, i1, s2, i2);
    lemma_assignment_value_local(s1, i1, s2, i2);
    lemma_assertion_value_local(s1, i1, s2, i2);
    lemma_leaves_local(s1, i1, s2, i2);
}

#[verifier::rlimit(100)]
proof fn lemma_multi_value_local(s1: Seq<u8>, i1: int, s2: Seq<u8>, i2: int)
    requires
        same_rest(s1, i1, s2, i2),
    ensures
        moved(spec_multi_value(s1, i1), spec_multi_value(s2, i2), i1 - i2),
    decreases s1.len() - i1, 9int,
{
    let d = i1 - i2;
    lemma_shift(s1, i1, s2, i2, 0);
    lemma_primitives_local(s1, i1, s2, i2);
    lemma_primitive_bounds(s1, i1);
    let a = spec_sp(s1, i1);
    let a2 = a - d;
    lemma_shift(s1, i1, s2, i2, a - i1);
    lemma_tag_local(s1, a, s2, a2, one(0x5b));
    lemma_primitive_bounds(s1, a);
    if let Outcome::Done(b, _) = spec_tag(s1, a, one(0x5b)) {
        let b2 = b - d;
        assert(spec_tag(s2, a2, one(0x5b)) == Outcome::Done(b2 as nat, ()));
        lemma_shift(s1, i1, s2, i2, b - i1);
        lemma_primitives_local(s1, b as int, s2, b2);
        lemma_primitive_bounds(s1, b as int);
        let c = spec_sp(s1, b as int);
        let c2 = c - d;
        lemma_shift(s1, i1, s2, i2, c - i1);
        lemma_value_items_local(s1, c, s2, c2);
        crate::laws::lemma_value_items_bounds(s1, c);
        if let Outcome::Done(k, vals) = spec_value_items(s1, c) {
            let k2 = k - d;
            assert(spec_value_items(s2, c2) == Outcome::Done(k2 as nat, vals));
            lemma_shift(s1, i1, s2, i2, k - i1);
            lemma_primitives_local(s1, k as int, s2, k2);
            lemma_primitive_bounds(s1, k as int);
            let g = spec_sp(s1, k as int);
            let g2 = g - d;
            lemma_shift(s1, i1, s2, i2, g - i1);
            lemma_tag_local(s1, g, s2, g2, one(0x5d));
            lemma_primitive_bounds(s1, g);
            if let Outcome::Done(e, _) = spec_tag(s1, g, one(0x5d)) {
                let e2 = e - d;
                assert(spec_tag(s2, g2, one(0x5d)) == Outcome::Done(e2 as nat, ()));
                lemma_shift(s1, i1, s2, i2, e - i1);
                lemma_primitives_local(s1, e as int, s2, e2);
                lemma_primitive_bounds(s1, e as int);
            } else {
                assert(spec_tag(s2, g2, one(0x5d)) == spec_tag(s1, g, one(0x5d)));
            }
        } else {
            assert(spec_value_items(s2, c2) == spec_value_items(s1, c));
        }
    } else {
        assert(spec_tag(s2, a2, one(0x5b)) == spec_tag(s1, a, one(0x5b)));
    }
}

proof fn lemma_value_items_local(s1: Seq<u8>, i1: int, s2: Seq<u8>, i2: int)
    requires
        same_rest(s1, i1, s2, i2),
    ensures
        moved(spec_value_items(s1, i1), spec_value_items(s2, i2), i1 - i2),
    decreases s1.len() - i1, 12int,
{
    let d = i1 - i2;
    lemma_shift(s1, i1, s2, i2, 0);
    if i1 < s1.len() {
        lemma_primitives_local(s1, i1, s2, i2);
        lemma_primitive_bounds(s1, i1);
        let a = spec_sp(s1, i1);
        let a2 = a - d;
        lemma_shift(s1, i1, s2, i2, a - i1);
        lemma_value_local(s1, a, s2, a2);
        crate::laws::lemma_value_bounds(s1, a);
        if let Outcome::Done(n, v) = spec_value(s1, a) {
            let n2 = n - d;
            assert(spec_value(s2, a2) == Outcome::Done(n2 as nat, v));
            lemma_shift(s1, i1, s2, i2, n - i1);
            lemma_primitives_local(s1, n as int, s2, n2);
            lemma_primitive_bounds(s1, n as int);
            let c = spec_sp(s1, n as int);
            let c2 = c - d;
            if i1 < c <= s1.len() {
                lemma_shift(s1, i1, s2, i2, c - i1);
                lemma_value_items_local(s1, c, s2, c2);
                crate::laws::lemma_value_items_bounds(s1, c);
                if let Outcome::Done(e, rest) = spec_value_items(s1, c) {
                    assert(spec_value_items(s2, c2) == Outcome::Done((e - d) as nat, rest));
                } else {
                    assert(spec_value_items(s2, c2) == spec_value_items(s1, c));
                }
            }
        } else {
            assert(spec_value(s2, a2) == spec_value(s1, a));
        }
    }
}

proof fn lemma_muted_value_local(s1: Seq<u8>, i1: int, s2: Seq<u8>, i2: int)
    requires
        same_rest(s1, i1, s2, i2),
    ensures
        moved(spec_muted_value(s1, i1), spec_muted_value(s2, i2), i1 - i2),
    decreases s1.len() - i1, 9int,
{
    let d = i1 - i2;
    lemma_shift(s1, i1, s2, i2, 0);
    lemma_primitive_bounds(s1, i1);
    lemma_tag_local(s1, i1, s2, i2, one(0x7c));
    if let Outcome::Done(a, _) = spec_tag(s1, i1, one(0x7c)) {
        assert(spec_tag(s2, i2, one(0x7c)) == Outcome::Done((i2 + 1) as nat, ()));
        lemma_shift(s1, i1, s2, i2, 1);
        lemma_primitives_local(s1, i1 + 1, s2, i2 + 1);
        lemma_primitive_bounds(s1, i1 + 1);
        if let Outcome::Done(b, _) = spec_opt_space(s1, i1 + 1) {
            let b2 = b - d;
            assert(spec_opt_space(s2, i2 + 1) == Outcome::Done(b2 as nat, ()));
            lemma_shift(s1, i1, s2, i2, b - i1);
            lemma_value_local(s1, b as int, s2, b2);
            crate::laws::lemma_value_bounds(s1, b as int);
            if let Outcome::Done(e, v) = spec_value(s1, b as int) {
                assert(spec_value(s2, b2) == Outcome::Done((e - d) as nat, v));
            } else {
                assert(spec_value(s2, b2) == spec_value(s1, b as int));
            }
        } else {
            assert(spec_opt_space(s2, i2 + 1) == spec_opt_space(s1, i1 + 1));
        }
    } else {
        assert(spec_tag(s2, i2, one(0x7c)) == spec_tag(s1, i1, one(0x7c)));
    }
}


#[verifier::rlimit(100)]
proof fn lemma_assignment_value_local(s1: Seq<u8>, i1: int, s2: Seq<u8>, i2: int)
    requires
        same_rest(s1, i1, s2, i2),
    ensures
        moved(spec_assignment_value(s1, i1), spec_assignment_value(s2, i2), i1 - i2),
    decreases s1.len() - i1, 9int,
{
    let d = i1 - i2;
    lemma_shift(s1, i1, s2, i2, 0);
    lemma_primitive_bounds(s1, i1);
    lemma_tag_local(s1, i1, s2, i2, one(0x3d));
    if let Outcome::Done(a, _) = spec_tag(s1, i1, one(0x3d)) {
        assert(spec_tag(s2, i2, one(0x3d)) == Outcome::Done((i2 + 1) as nat, ()));
        lemma_shift(s1, i1, s2, i2, 1);
        lemma_primitives_local(s1, i1 + 1, s2, i2 + 1);
        lemma_primitive_bounds(s1, i1 + 1);
        if let Outcome::Done(b, _) = spec_opt_space(s1, i1 + 1) {
            let b2 = b - d;
            assert(spec_opt_space(s2, i2 + 1) == Outcome::Done(b2 as nat, ()));
            lemma_shift(s1, i1, s2, i2, b - i1);
            lemma_primitives_local(s1, b as int, s2, b2);
            lemma_primitive_bounds(s1, b as int);
            if let Outcome::Done(n, name) = spec_symbol(s1, b as int) {
                let n2 = n - d;
                assert(spec_symbol(s2, b2) == Outcome::Done(n2 as nat, name));
                lemma_shift(s1, i1, s2, i2, n - i1);
                lemma_primitives_local(s1, n as int, s2, n2);
                lemma_primitive_bounds(s1, n as int);
                if let Outcome::Done(m, _) = spec_multispace(s1, n as int) {
                    let m2 = m - d;
                    assert(spec_multispace(s2, n2) == Outcome::Done(m2 as nat, ()));
                    lemma_shift(s1, i1, s2, i2, m - i1);
                    lemma_value_local(s1, m as int, s2, m2);
                    crate::laws::lemma_value_bounds(s1, m as int);
                    if let Outcome::Done(p, bound) = spec_value(s1, m as int) {
                        let p2 = p - d;
                        assert(spec_value(s2, m2) == Outcome::Done(p2 as nat, bound));
                        lemma_shift(s1, i1, s2, i2, p - i1);
                        lemma_value_local(s1, p as int, s2, p2);
                        crate::laws::lemma_value_bounds(s1, p as int);
                        if let Outcome::Done(e, scope) = spec_value(s1, p as int) {
                            assert(spec_value(s2, p2) == Outcome::Done((e - d) as nat, scope));
                        } else {
                            assert(spec_value(s2, p2) == spec_value(s1, p as int));
                        }
                    } else {
                        assert(spec_value(s2, m2) == spec_value(s1, m as int));
                    }
                } else {
                    assert(spec_multispace(s2, n2) == spec_multispace(s1, n as int));
                }
            } else {
                assert(spec_symbol(s2, b2) == spec_symbol(s1, b as int));
            }
        } else {
            assert(spec_opt_space(s2, i2 + 1) == spec_opt_space(s1, i1 + 1));
        }
    } else {
        assert(spec_tag(s2, i2, one(0x3d)) == spec_tag(s1, i1, one(0x3d)));
    }
}

proof fn lemma_assertion_value_local(s1: Seq<u8>, i1: int, s2: Seq<u8>, i2: int)
    requires
        same_rest(s1, i1, s2, i2),
    ensures
        moved(spec_assertion_value(s1, i1), spec_assertion_value(s2, i2), i1 - i2),
    decreases s1.len() - i1, 10int,
{
    lemma_assertion_local(s1, i1, s2, i2);
    lemma_duplication_local(s1, i1, s2, i2);
}

/// What an assertion reads after its optional binding.
pub open spec fn assertion_rest(s: Seq<u8>, a: int, bind: Option<Seq<char>>) -> Outcome<AssertionModel> {
    match spec_symbol(s, a) {
        Outcome::Done(n, class) => match spec_multispace(s, n as int) {
            Outcome::Done(m, _) => match spec_attr_items(s, m as int) {
                Outcome::Done(e, attrs) => Outcome::Done(
                    e,
                    AssertionModel { mode: ModeModel::Assert(bind), class, attrs },
                ),
                o => crate::grammar::fail(o),
            },
            o => crate::grammar::fail(o),
        },
        o => crate::grammar::fail(o),
    }
}

/// An assertion is read the same wherever the same bytes follow.
pub proof fn lemma_assertion_local(s1: Seq<u8>, i1: int, s2: Seq<u8>, i2: int)
    requires
        same_rest(s1, i1, s2, i2),
    ensures
        moved(spec_assertion(s1, i1), spec_assertion(s2, i2), i1 - i2),
    decreases s1.len() - i1, 9int,
{
    let d = i1 - i2;
    lemma_shift(s1, i1, s2, i2, 0);
    lemma_primitive_bounds(s1, i1);
    lemma_named_local(s1, i1, s2, i2);
    if let Outcome::Done(a, bind) = crate::grammar::opt(spec_binding(s1, i1), i1) {
        let a2 = a - d;
        assert(crate::grammar::opt(spec_binding(s2, i2), i2) == Outcome::Done(a2 as nat, bind));
        lemma_shift(s1, i1, s2, i2, a - i1);
        lemma_assertion_rest_local(s1, a as int, s2, a2, bind);
        assert(spec_assertion(s1, i1) == assertion_rest(s1, a as int, bind));
        assert(spec_assertion(s2, i2) == assertion_rest(s2, a2, bind));
    } else {
        assert(crate::grammar::opt(spec_binding(s2, i2), i2) == crate::grammar::opt(spec_binding(s1, i1), i1));
    }
}

proof fn lemma_assertion_rest_local(s1: Seq<u8>, i1: int, s2: Seq<u8>, i2: int, bind: Option<Seq<char>>)
    requires
        same_rest(s1, i1, s2, i2),
    ensures
        moved(assertion_rest(s1, i1, bind), assertion_rest(s2, i2, bind), i1 - i2),
    decreases s1.len() - i1, 8int,
{
    let d = i1 - i2;
    lemma_shift(s1, i1, s2, i2, 0);
    lemma_primitives_local(s1, i1, s2, i2);
    lemma_primitive_bounds(s1, i1);
    if let Outcome::Done(n, class) = spec_symbol(s1, i1) {
        let n2 = n - d;
        assert(spec_symbol(s2, i2) == Outcome::Done(n2 as nat, class));
        lemma_shift(s1, i1, s2, i2, n - i1);
        lemma_primitives_local(s1, n as int, s2, n2);
        lemma_primitive_bounds(s1, n as int);
        if let Outcome::Done(m, _) = spec_multispace(s1, n as int) {
            let m2 = m - d;
            assert(spec_multispace(s2, n2) == Outcome::Done(m2 as nat, ()));
            lemma_shift(s1, i1, s2, i2, m - i1);
            lemma_attr_items_local(s1, m as int, s2, m2);
            crate::laws::lemma_attr_items_bounds(s1, m as int);
            if let Outcome::Done(e, attrs) = spec_attr_items(s1, m as int) {
                assert(spec_attr_items(s2, m2) == Outcome::Done((e - d) as nat, attrs));
            } else {
                assert(spec_attr_items(s2, m2) == spec_attr_items(s1, m as int));
            }
        } else {
            assert(spec_multispace(s2, n2) == spec_multispace(s1, n as int));
        }
    } else {
        assert(spec_symbol(s2, i2) == spec_symbol(s1, i1));
    }
}

/// A duplication is read the same wherever the same bytes follow.
#[verifier::rlimit(100)]
pub proof fn lemma_duplication_local(s1: Seq<u8>, i1: int, s2: Seq<u8>, i2: int)
    requires
        same_rest(s1, i1, s2, i2),
    ensures
        moved(spec_duplication(s1, i1), spec_duplication(s2, i2), i1 - i2),
    decreases s1.len() - i1, 9int,
{
    let d = i1 - i2;
    lemma_shift(s1, i1, s2, i2, 0);
    lemma_primitive_bounds(s1, i1);
    lemma_tag_local(s1, i1, s2, i2, one(0x2b));
    if let Outcome::Done(a, _) = spec_tag(s1, i1, one(0x2b)) {
        assert(spec_tag(s2, i2, one(0x2b)) == Outcome::Done((i2 + 1) as nat, ()));
        lemma_shift(s1, i1, s2, i2, 1);
        lemma_primitives_local(s1, i1 + 1, s2, i2 + 1);
        lemma_primitive_bounds(s1, i1 + 1);
        if let Outcome::Done(b, _) = spec_opt_space(s1, i1 + 1) {
            let b2 = b - d;
            assert(spec_opt_space(s2, i2 + 1) == Outcome::Done(b2 as nat, ()));
            lemma_shift(s1, i1, s2, i2, b - i1);
            lemma_named_local(s1, b as int, s2, b2);
            lemma_primitive_bounds(s1, b as int);
            let c = match spec_ref_name(s1, b as int) {
                Outcome::Done(e, _) => e as int,
                _ => b as int,
            };
            let c2 = c - d;
            if !(spec_ref_name(s1, b as int) is Incomplete) && !(spec_ref_name(s1, b as int) is Invalid) {
                lemma_shift(s1, i1, s2, i2, c - i1);
                lemma_attr_items_local(s1, c, s2, c2);
                crate::laws::lemma_attr_items_bounds(s1, c);
                if let Outcome::Done(e, attrs) = spec_attr_items(s1, c) {
                    assert(spec_attr_items(s2, c2) == Outcome::Done((e - d) as nat, attrs));
                } else {
                    assert(spec_attr_items(s2, c2) == spec_attr_items(s1, c));
                }
            }
        } else {
            assert(spec_opt_space(s2, i2 + 1) == spec_opt_space(s1, i1 + 1));
        }
    } else {
        assert(spec_tag(s2, i2, one(0x2b)) == spec_tag(s1, i1, one(0x2b)));
    }
}

/// The choice between an attribute and an `=>` shortcut at `i`.
#[verifier::opaque]
pub open spec fn attr_choice(s: Seq<u8>, i: int) -> Outcome<(Seq<char>, ValueModel)> {
    alt(complete(spec_attribute(s, i)), complete(spec_is_shortcut(s, i)))
}

/// The choice between an attribute and an `=>` shortcut is read the same,
/// moved, and ends within the input.
proof fn lemma_attr_choice_local(s1: Seq<u8>, i1: int, s2: Seq<u8>, i2: int)
    requires
        same_rest(s1, i1, s2, i2),
    ensures
        moved(attr_choice(s1, i1), attr_choice(s2, i2), i1 - i2),
        attr_choice(s1, i1) matches Outcome::Done(n, _) ==> i1 <= n <= s1.len(),
    decreases s1.len() - i1, 7int,
{
    reveal(attr_choice);
    lemma_attribute_local(s1, i1, s2, i2);
    lemma_is_shortcut_local(s1, i1, s2, i2);
    crate::laws::lemma_attribute_bounds(s1, i1);
    crate::laws::lemma_is_shortcut_bounds(s1, i1);
}

/// The attributes at `i` are the first choice and what follows it.
proof fn lemma_attr_items_unfold(s: Seq<u8>, i: int)
    requires
        0 <= i < s.len(),
    ensures
        spec_attr_items(s, i) == attr_items_rest(s, i, attr_choice(s, spec_sp(s, i))),
{
    reveal(attr_choice);
}

/// What the attributes of an assertion read after the first choice `f`
/// was made at `i`.
pub open spec fn attr_items_rest(
    s: Seq<u8>,
    i: int,
    f: Outcome<(Seq<char>, ValueModel)>,
) -> Outcome<Seq<(Seq<char>, ValueModel)>> {
    match f {
        Outcome::Done(n, kv) => {
            let c = spec_sp(s, n as int);
            if !(i < c <= s.len()) {
                Outcome::Error
            } else {
                match spec_attr_items(s, c) {
                    Outcome::Done(e, rest) => Outcome::Done(e, seq![kv] + rest),
                    o => crate::grammar::fail(o),
                }
            }
        },
        Outcome::Error => Outcome::Done(i as nat, Seq::empty()),
        o => crate::grammar::fail(o),
    }
}

proof fn lemma_attr_items_local(s1: Seq<u8>, i1: int, s2: Seq<u8>, i2: int)
    requires
        same_rest(s1, i1, s2, i2),
    ensures
        moved(spec_attr_items(s1, i1), spec_attr_items(s2, i2), i1 - i2),
    decreases s1.len() - i1, 8int,
{
    let d = i1 - i2;
    lemma_shift(s1, i1, s2, i2, 0);
    if i1 < s1.len() {
        lemma_primitives_local(s1, i1, s2, i2);
        lemma_primitive_bounds(s1, i1);
        let a = spec_sp(s1, i1);
        let a2 = a - d;
        lemma_shift(s1, i1, s2, i2, a - i1);
        lemma_attr_choice_local(s1, a, s2, a2);
        lemma_attr_items_unfold(s1, i1);
        lemma_attr_items_unfold(s2, i2);
        let f1 = attr_choice(s1, a);
        let f2 = attr_choice(s2, a2);
        lemma_attr_items_rest_local(s1, i1, s2, i2, f1, f2);
    }
}

proof fn lemma_attr_items_rest_local(
    s1: Seq<u8>,
    i1: int,
    s2: Seq<u8>,
    i2: int,
    f1: Outcome<(Seq<char>, ValueModel)>,
    f2: Outcome<(Seq<char>, ValueModel)>,
)
    requires
        same_rest(s1, i1, s2, i2),
        moved(f1, f2, i1 - i2),
        f1 matches Outcome::Done(n, _) ==> i1 <= n <= s1.len(),
    ensures
        moved(attr_items_rest(s1, i1, f1), attr_items_rest(s2, i2, f2), i1 - i2),
    decreases s1.len() - i1, 7int,
{
    let d = i1 - i2;
    lemma_shift(s1, i1, s2, i2, 0);
    if let Outcome::Done(n, kv) = f1 {
        let n2 = n - d;
        lemma_shift(s1, i1, s2, i2, n - i1);
        lemma_primitives_local(s1, n as int, s2, n2);
        lemma_primitive_bounds(s1, n as int);
        let c = spec_sp(s1, n as int);
        let c2 = c - d;
        if i1 < c <= s1.len() {
            lemma_shift(s1, i1, s2, i2, c - i1);
            lemma_attr_items_local(s1, c, s2, c2);
            if let Outcome::Done(e, rest) = spec_attr_items(s1, c) {
                assert(spec_attr_items(s2, c2) == Outcome::Done((e - d) as nat, rest));
            } else {
                assert(spec_attr_items(s2, c2) == spec_attr_items(s1, c));
            }
        }
    }
}

#[verifier::rlimit(100)]
proof fn lemma_attribute_local(s1: Seq<u8>, i1: int, s2: Seq<u8>, i2: int)
    requires
        same_rest(s1, i1, s2, i2),
    ensures
        moved(spec_attribute(s1, i1), spec_attribute(s2, i2), i1 - i2),
    decreases s1.len() - i1, 6int,
{
    let d = i1 - i2;
    lemma_shift(s1, i1, s2, i2, 0);
    lemma_primitives_local(s1, i1, s2, i2);
    lemma_primitive_bounds(s1, i1);
    if let Outcome::Done(n, name) = spec_symbol(s1, i1) {
        let n2 = n - d;
        assert(spec_symbol(s2, i2) == Outcome::Done(n2 as nat, name));
        lemma_shift(s1, i1, s2, i2, n - i1);
        lemma_tag_local(s1, n as int, s2, n2, one(0x3a));
        lemma_primitive_bounds(s1, n as int);
        if let Outcome::Done(a, _) = spec_tag(s1, n as int, one(0x3a)) {
            let a2 = a - d;
            assert(spec_tag(s2, n2, one(0x3a)) == Outcome::Done::<()>(a2 as nat, ()));
            lemma_shift(s1, i1, s2, i2, a - i1);
            lemma_named_value_rest_local(s1, a as int, s2, a2, name);
            lemma_attribute_unfold(s1, i1);
            lemma_attribute_unfold(s2, i2);
        } else {
            assert(spec_tag(s2, n2, one(0x3a)) == spec_tag(s1, n as int, one(0x3a)));
        }
    } else {
        assert(spec_symbol(s2, i2) == spec_symbol(s1, i1));
    }
}

proof fn lemma_is_shortcut_local(s1: Seq<u8>, i1: int, s2: Seq<u8>, i2: int)
    requires
        same_rest(s1, i1, s2, i2),
    ensures
        moved(spec_is_shortcut(s1, i1), spec_is_shortcut(s2, i2), i1 - i2),
    decreases s1.len() - i1, 6int,
{
    let d = i1 - i2;
    lemma_shift(s1, i1, s2, i2, 0);
    lemma_primitive_bounds(s1, i1);
    lemma_tag_local(s1, i1, s2, i2, arrow());
    if let Outcome::Done(a, _) = spec_tag(s1, i1, arrow()) {
        let a2 = a - d;
        assert(spec_tag(s2, i2, arrow()) == Outcome::Done::<()>(a2 as nat, ()));
        lemma_shift(s1, i1, s2, i2, a - i1);
        lemma_named_value_rest_local(s1, a as int, s2, a2, is_name());
        lemma_is_shortcut_unfold(s1, i1);
        lemma_is_shortcut_unfold(s2, i2);
    } else {
        assert(spec_tag(s2, i2, arrow()) == spec_tag(s1, i1, arrow()));
    }
}

/// The bytes of the attribute name that `=>` stands for, then `:`.
pub open spec fn is_colon() -> Seq<u8> {
    encode_utf8(is_name()) + one(0x3a)
}

/// What an attribute or an `=>` shortcut reads after its name: optional
/// spaces and a value, paired with `name`.
#[verifier::opaque]
pub open spec fn named_value_rest(s: Seq<u8>, a: int, name: Seq<char>) -> Outcome<(Seq<char>, ValueModel)> {
    match spec_opt_space(s, a) {
        Outcome::Done(b, _) => match spec_value(s, b as int) {
            Outcome::Done(e, v) => Outcome::Done(e, (name, v)),
            o => crate::grammar::fail(o),
        },
        o => crate::grammar::fail(o),
    }
}

proof fn lemma_named_value_rest_local(s1: Seq<u8>, i1: int, s2: Seq<u8>, i2: int, name: Seq<char>)
    requires
        same_rest(s1, i1, s2, i2),
    ensures
        moved(named_value_rest(s1, i1, name), named_value_rest(s2, i2, name), i1 - i2),
    decreases s1.len() - i1 + 1, 0int,
{
    reveal(named_value_rest);
    let d = i1 - i2;
    lemma_shift(s1, i1, s2, i2, 0);
    lemma_primitives_local(s1, i1, s2, i2);
    lemma_primitive_bounds(s1, i1);
    if let Outcome::Done(b, _) = spec_opt_space(s1, i1) {
        let b2 = b - d;
        assert(spec_opt_space(s2, i2) == Outcome::Done::<()>(b2 as nat, ()));
        lemma_shift(s1, i1, s2, i2, b - i1);
        lemma_value_local(s1, b as int, s2, b2);
        if let Outcome::Done(e, v) = spec_value(s1, b as int) {
            assert(spec_value(s2, b2) == Outcome::Done((e - d) as nat, v));
        } else {
            assert(spec_value(s2, b2) == spec_value(s1, b as int));
        }
    } else {
        assert(spec_opt_space(s2, i2) == spec_opt_space(s1, i1));
    }
}

/// An attribute is its name, `:` and what follows them.
proof fn lemma_attribute_unfold(s: Seq<u8>, i: int)
    ensures
        spec_symbol(s, i) matches Outcome::Done(n, name) ==> (spec_tag(s, n as int, one(0x3a))
            matches Outcome::Done(a, _) ==> spec_attribute(s, i) == named_value_rest(
            s,
            a as int,
            name,
        )),
{
    reveal(named_value_rest);
}

/// An `=>` shortcut is `=>` and what follows it.
proof fn lemma_is_shortcut_unfold(s: Seq<u8>, i: int)
    ensures
        spec_tag(s, i, arrow()) matches Outcome::Done(a, _) ==> spec_is_shortcut(s, i)
            == named_value_rest(s, a as int, is_name()),
{
    reveal(named_value_rest);
}

/// After `=>`, the shortcut reads the rest as an `is` attribute does.
proof fn lemma_arrow_prefix(x: Seq<u8>)
    ensures
        spec_is_shortcut(arrow() + x, 0) == named_value_rest(arrow() + x, 2, is_name()),
        same_rest(arrow() + x, 2, is_colon() + x, 3),
{
    let s1 = arrow() + x;
    let s2 = is_colon() + x;
    lemma_is_colon_bytes();
    assert(s1.subrange(0, 2) =~= arrow());
    assert(arrow().take(2) =~= arrow());
    assert(spec_tag(s1, 0, arrow()) == Outcome::Done::<()>(2, ()));
    lemma_is_shortcut_unfold(s1, 0);
    assert(s1.skip(2) =~= x);
    assert(s2.skip(3) =~= x);
}

/// The name `is` and `:` are read from the front of `is:`.
proof fn lemma_is_colon_prefix(x: Seq<u8>)
    ensures
        spec_attribute(is_colon() + x, 0) == named_value_rest(is_colon() + x, 3, is_name()),
{
    let s2 = is_colon() + x;
    lemma_is_colon_bytes();
    assert(s2[0] == 0x69 && s2[1] == 0x73 && s2[2] == 0x3a);
    assert(run_end(s2, ByteClass::Identifier, 2) == 2);
    assert(run_end(s2, ByteClass::Identifier, 1) == 2);
    assert(run_end(s2, ByteClass::Identifier, 0) == 2);
    assert(s2.subrange(0, 2) =~= encode_utf8(is_name()));
    assert(spec_symbol(s2, 0) == Outcome::Done(2, is_name()));
    assert(s2.subrange(2, 3) =~= one(0x3a));
    assert(one(0x3a).take(1) =~= one(0x3a));
    assert(spec_tag(s2, 2, one(0x3a)) == Outcome::Done::<()>(3, ()));
    lemma_attribute_unfold(s2, 0);
}

/// `is:` is the bytes `i`, `s`, `:`, and `is` is valid UTF-8 that decodes
/// to the name.
proof fn lemma_is_colon_bytes()
    ensures
        is_colon() == seq![0x69u8, 0x73u8, 0x3au8],
        encode_utf8(is_name()) == seq![0x69u8, 0x73u8],
        valid_utf8(encode_utf8(is_name())),
        decode_utf8(encode_utf8(is_name())) == is_name(),
{
    reveal_strlit("is");
    assert(is_name() =~= seq!['i', 's']);
    assert(is_ascii_chars(is_name()));
    is_ascii_chars_encode_utf8(is_name());
    encode_utf8_valid_utf8(is_name());
    encode_utf8_decode_utf8(is_name());
    assert(encode_utf8(is_name()) =~= seq![0x69u8, 0x73u8]);
    assert(is_colon() =~= seq![0x69u8, 0x73u8, 0x3au8]);
}

/// `=> v` is read as the attribute `is: v`: whatever bytes `x` follow, the
/// shortcut gives the same outcome, name and value as `is:` followed by `x`,
/// ending one byte earlier.
pub proof fn law_arrow_reads_as_is_attribute(x: Seq<u8>)
    ensures
        moved(spec_is_shortcut(arrow() + x, 0), spec_attribute(is_colon() + x, 0), -1),
{
    lemma_arrow_prefix(x);
    lemma_is_colon_prefix(x);
    lemma_named_value_rest_local(arrow() + x, 2, is_colon() + x, 3, is_name());
}

} // verus!
