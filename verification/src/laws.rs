//! Properties of the grammar and the writer that hold for every input.
use vstd::prelude::*;
use crate::grammar::{
    lemma_primitive_bounds, spec_assertion, spec_assertion_value, spec_assignment_value,
    spec_attr_items, spec_attribute, spec_duplication, spec_is_shortcut, spec_multi_value, spec_multiline_string, spec_multiline_string_value, spec_muted_value,
    spec_raw_string, spec_ref_value, spec_sp, spec_standard_string, spec_string_value,
    spec_symbol_value, spec_value, spec_value_items, triple_quote, raw_open, raw_close,
};
use crate::lexer::{lemma_first_match_bound, lemma_scan_quoted_bound};
use crate::outcome::Outcome;
use crate::clips::{escaped, low_byte, string_clips, value_clips};
use crate::lexer::{is_escapable_byte, scan_quoted};
use crate::grammar::spec_symbol;
use vstd::utf8::{
    decode_utf8_encode_utf8, encode_utf8, encode_utf8_decode_utf8, encode_utf8_valid_utf8,
    is_ascii_chars, is_ascii_chars_encode_utf8,
};

verus! {

/// Whether an outcome that read something ended between `i` and the end of `s`.
pub open spec fn within<T>(o: Outcome<T>, s: Seq<u8>, i: int) -> bool {
    o matches Outcome::Done(e, _) ==> i <= e <= s.len()
}

/// The strings and the other values without parts that are values end within
/// the input, after where they start.
pub proof fn lemma_leaf_bounds(s: Seq<u8>, i: int)
    requires
        0 <= i <= s.len(),
    ensures
        within(spec_standard_string(s, i), s, i),
        within(spec_raw_string(s, i), s, i),
        within(spec_multiline_string(s, i), s, i),
        within(spec_multiline_string_value(s, i), s, i),
        within(spec_string_value(s, i), s, i),
        within(spec_symbol_value(s, i), s, i),
        within(spec_ref_value(s, i), s, i),
{
    reveal(spec_multiline_string_value);
    reveal(spec_string_value);
    reveal(spec_symbol_value);
    reveal(spec_ref_value);
    reveal(spec_multiline_string_value);
    reveal(spec_string_value);
    reveal(spec_symbol_value);
    reveal(spec_ref_value);
    lemma_primitive_bounds(s, i);
    if i < s.len() {
        lemma_scan_quoted_bound(s, i + 1);
        lemma_primitive_bounds(s, i + 1);
    }
    if i + 2 <= s.len() {
        lemma_first_match_bound(s, raw_close(), i + 2);
    }
    if i + 3 <= s.len() {
        lemma_first_match_bound(s, triple_quote(), i + 3);
    }
    assert(raw_open().len() == 2);
    assert(raw_close().len() == 2);
    assert(triple_quote().len() == 3);
}

/// A value read at `i` ends within the input, after `i`; choosing among the
/// kinds of values, a value is never incomplete, only absent.
pub proof fn lemma_value_bounds(s: Seq<u8>, i: int)
    requires
        0 <= i <= s.len(),
    ensures
        within(spec_value(s, i), s, i),
        !(spec_value(s, i) is Incomplete),
    decreases s.len() - i, 10int,
{
    lemma_multi_value_bounds(s, i);
    lemma_muted_value_bounds(s, i);
    lemma_assignment_value_bounds(s, i);
    lemma_assertion_value_bounds(s, i);
    lemma_leaf_bounds(s, i);
}

proof fn lemma_multi_value_bounds(s: Seq<u8>, i: int)
    requires
        0 <= i <= s.len(),
    ensures
        within(spec_multi_value(s, i), s, i),
    decreases s.len() - i, 9int,
{
    lemma_primitive_bounds(s, i);
    let a = spec_sp(s, i);
    lemma_primitive_bounds(s, a);
    if a + 1 <= s.len() {
        let b = a + 1;
        lemma_primitive_bounds(s, b);
        let c = spec_sp(s, b);
        lemma_value_items_bounds(s, c);
        if let Outcome::Done(k, _) = spec_value_items(s, c) {
            lemma_primitive_bounds(s, k as int);
            let d = spec_sp(s, k as int);
            lemma_primitive_bounds(s, d);
            if d + 1 <= s.len() {
                lemma_primitive_bounds(s, d + 1);
            }
        }
    }
}

pub proof fn lemma_value_items_bounds(s: Seq<u8>, i: int)
    requires
        0 <= i <= s.len(),
    ensures
        within(spec_value_items(s, i), s, i),
    decreases s.len() - i, 11int,
{
    if i < s.len() {
        lemma_primitive_bounds(s, i);
        let a = spec_sp(s, i);
        lemma_value_bounds(s, a);
        if let Outcome::Done(n, _) = spec_value(s, a) {
            lemma_primitive_bounds(s, n as int);
            let c = spec_sp(s, n as int);
            if i < c <= s.len() {
                lemma_value_items_bounds(s, c);
            }
        }
    }
}

proof fn lemma_muted_value_bounds(s: Seq<u8>, i: int)
    requires
        0 <= i <= s.len(),
    ensures
        within(spec_muted_value(s, i), s, i),
    decreases s.len() - i, 9int,
{
    lemma_primitive_bounds(s, i);
    if i + 1 <= s.len() {
        lemma_primitive_bounds(s, i + 1);
        if let Outcome::Done(b, _) = crate::grammar::spec_opt_space(s, i + 1) {
            lemma_value_bounds(s, b as int);
        }
    }
}

proof fn lemma_assignment_value_bounds(s: Seq<u8>, i: int)
    requires
        0 <= i <= s.len(),
    ensures
        within(spec_assignment_value(s, i), s, i),
    decreases s.len() - i, 9int,
{
    lemma_primitive_bounds(s, i);
    if i + 1 <= s.len() {
        lemma_primitive_bounds(s, i + 1);
        if let Outcome::Done(b, _) = crate::grammar::spec_opt_space(s, i + 1) {
            lemma_primitive_bounds(s, b as int);
            if let Outcome::Done(n, _) = crate::grammar::spec_symbol(s, b as int) {
                lemma_primitive_bounds(s, n as int);
                if let Outcome::Done(m, _) = crate::grammar::spec_multispace(s, n as int) {
                    lemma_value_bounds(s, m as int);
                    if let Outcome::Done(p, _) = spec_value(s, m as int) {
                        lemma_value_bounds(s, p as int);
                    }
                }
            }
        }
    }
}

proof fn lemma_assertion_value_bounds(s: Seq<u8>, i: int)
    requires
        0 <= i <= s.len(),
    ensures
        within(spec_assertion_value(s, i), s, i),
    decreases s.len() - i, 9int,
{
    lemma_assertion_bounds(s, i);
    lemma_duplication_bounds(s, i);
}

/// An assertion read at `i` ends within the input, after `i`.
pub proof fn lemma_assertion_bounds(s: Seq<u8>, i: int)
    requires
        0 <= i <= s.len(),
    ensures
        within(spec_assertion(s, i), s, i),
    decreases s.len() - i, 8int,
{
    lemma_primitive_bounds(s, i);
    let a = match crate::grammar::spec_binding(s, i) {
        Outcome::Done(e, _) => e as int,
        _ => i,
    };
    lemma_primitive_bounds(s, a);
    if let Outcome::Done(n, _) = crate::grammar::spec_symbol(s, a) {
        lemma_primitive_bounds(s, n as int);
        if let Outcome::Done(m, _) = crate::grammar::spec_multispace(s, n as int) {
            lemma_attr_items_bounds(s, m as int);
        }
    }
}

/// A duplication read at `i` ends within the input, after `i`.
pub proof fn lemma_duplication_bounds(s: Seq<u8>, i: int)
    requires
        0 <= i <= s.len(),
    ensures
        within(spec_duplication(s, i), s, i),
    decreases s.len() - i, 8int,
{
    lemma_primitive_bounds(s, i);
    if i + 1 <= s.len() {
        lemma_primitive_bounds(s, i + 1);
        if let Outcome::Done(b, _) = crate::grammar::spec_opt_space(s, i + 1) {
            lemma_primitive_bounds(s, b as int);
            let c = match crate::grammar::spec_ref_name(s, b as int) {
                Outcome::Done(e, _) => e as int,
                _ => b as int,
            };
            lemma_attr_items_bounds(s, c);
        }
    }
}

pub proof fn lemma_attr_items_bounds(s: Seq<u8>, i: int)
    requires
        0 <= i <= s.len(),
    ensures
        within(spec_attr_items(s, i), s, i),
        !(spec_attr_items(s, i) is Incomplete),
    decreases s.len() - i, 7int,
{
    if i < s.len() {
        lemma_primitive_bounds(s, i);
        let a = spec_sp(s, i);
        lemma_attribute_bounds(s, a);
        lemma_is_shortcut_bounds(s, a);
        let first = crate::grammar::alt(
            crate::grammar::complete(spec_attribute(s, a)),
            crate::grammar::complete(spec_is_shortcut(s, a)),
        );
        if let Outcome::Done(n, _) = first {
            lemma_primitive_bounds(s, n as int);
            let c = spec_sp(s, n as int);
            if i < c <= s.len() {
                lemma_attr_items_bounds(s, c);
            }
        }
    }
}

pub proof fn lemma_attribute_bounds(s: Seq<u8>, i: int)
    requires
        0 <= i <= s.len(),
    ensures
        within(spec_attribute(s, i), s, i),
    decreases s.len() - i, 6int,
{
    lemma_primitive_bounds(s, i);
    if let Outcome::Done(n, _) = crate::grammar::spec_symbol(s, i) {
        lemma_primitive_bounds(s, n as int);
        if n + 1 <= s.len() {
            lemma_primitive_bounds(s, n + 1int);
            if let Outcome::Done(b, _) = crate::grammar::spec_opt_space(s, n + 1int) {
                lemma_value_bounds(s, b as int);
            }
        }
    }
}

pub proof fn lemma_is_shortcut_bounds(s: Seq<u8>, i: int)
    requires
        0 <= i <= s.len(),
    ensures
        within(spec_is_shortcut(s, i), s, i),
    decreases s.len() - i, 6int,
{
    lemma_primitive_bounds(s, i);
    assert(crate::grammar::arrow().len() == 2);
    if let Outcome::Done(a, _) = crate::lexer::spec_tag(s, i, crate::grammar::arrow()) {
        assert(a == i + 2);
    }
    if i + 2 <= s.len() {
        lemma_primitive_bounds(s, i + 2);
        if let Outcome::Done(b, _) = crate::grammar::spec_opt_space(s, i + 2) {
            lemma_value_bounds(s, b as int);
        }
    }
}


/// A symbol is written back as exactly the bytes it was read from.
pub proof fn law_symbol_written_as_read(s: Seq<u8>, i: int)
    requires
        0 <= i <= s.len(),
    ensures
        spec_symbol(s, i) matches Outcome::Done(e, t) ==> encode_utf8(t) == s.subrange(i, e as int),
{
    lemma_primitive_bounds(s, i);
    if let Outcome::Done(e, t) = spec_symbol(s, i) {
        crate::lexer::lemma_run_end(s, crate::lexer::ByteClass::Identifier, i);
        let r = crate::lexer::run_end(s, crate::lexer::ByteClass::Identifier, i);
        assert(e == r);
        decode_utf8_encode_utf8(s.subrange(i, e as int));
    }
}

/// A quoted symbol `'name` read as a value is written as the name, byte for
/// byte as it stood after the quote.
pub proof fn law_symbol_value_written_as_read(s: Seq<u8>, i: int)
    requires
        0 <= i <= s.len(),
    ensures
        spec_symbol_value(s, i) matches Outcome::Done(e, v) ==> value_clips(v) == s.subrange(
            i + 1,
            e as int,
        ),
{
    reveal(spec_symbol_value);
    if let Outcome::Done(e, v) = spec_symbol_value(s, i) {
        lemma_primitive_bounds(s, i);
        law_symbol_written_as_read(s, i + 1);
    }
}

/// The characters of a string body as the writer escapes it: `"` becomes
/// `\"`.
pub open spec fn escaped_chars(t: Seq<char>) -> Seq<char>
    decreases t.len(),
{
    if t.len() == 0 {
        Seq::empty()
    } else {
        escaped_chars(t.subrange(0, t.len() - 1)) + if t[t.len() - 1] == '"' {
            seq!['\\', '"']
        } else {
            seq![t[t.len() - 1]]
        }
    }
}

proof fn lemma_escaped_ascii(t: Seq<char>)
    requires
        is_ascii_chars(t),
    ensures
        is_ascii_chars(escaped_chars(t)),
        escaped(t).len() == escaped_chars(t).len(),
        forall|k: int| 0 <= k < escaped(t).len() ==> #[trigger] escaped(t)[k] == escaped_chars(t)[k] as u8,
    decreases t.len(),
{
    if t.len() > 0 {
        let init = t.subrange(0, t.len() - 1);
        assert(is_ascii_chars(init)) by {
            assert forall|k| 0 <= k < init.len() implies '\0' <= #[trigger] init[k] <= '\u{7f}' by {
                assert(init[k] == t[k]);
            }
        }
        lemma_escaped_ascii(init);
        let c = t[t.len() - 1];
        assert('\0' <= c <= '\u{7f}');
        let x = c as u32;
        assert(x < 128);
        assert(low_byte(c) == c as u8) by {
            assert((x % 256) as u8 == x as u8) by (bit_vector)
                requires
                    x < 128,
            ;
        }
    }
}

/// For ASCII, the bytes the writer puts in a string body encode the escaped characters.
proof fn lemma_escaped_encodes(t: Seq<char>)
    requires
        is_ascii_chars(t),
    ensures
        escaped(t) == encode_utf8(escaped_chars(t)),
{
    lemma_escaped_ascii(t);
    is_ascii_chars_encode_utf8(escaped_chars(t));
    assert(escaped(t) =~= encode_utf8(escaped_chars(t)));
}

/// Scanning a quoted body passes over the escaped form of a text without a
/// backslash.
proof fn lemma_scan_escaped(t: Seq<char>, w: Seq<u8>, j: int)
    requires
        is_ascii_chars(t),
        !t.contains('\\'),
        0 <= j,
        j + escaped(t).len() <= w.len(),
        w.subrange(j, j + escaped(t).len()) == escaped(t),
    ensures
        scan_quoted(w, j) == scan_quoted(w, j + escaped(t).len()),
    decreases t.len(),
{
    if t.len() > 0 {
        let init = t.subrange(0, t.len() - 1);
        let c = t[t.len() - 1];
        assert(is_ascii_chars(init)) by {
            assert forall|k| 0 <= k < init.len() implies '\0' <= #[trigger] init[k] <= '\u{7f}' by {
                assert(init[k] == t[k]);
            }
        }
        assert(!init.contains('\\')) by {
            if init.contains('\\') {
                let k = choose|k: int| 0 <= k < init.len() && init[k] == '\\';
                assert(t[k] == '\\');
            }
        }
        assert(c != '\\') by {
            assert(t[t.len() - 1] == c);
        }
        let ei = escaped(init);
        assert(w.subrange(j, j + ei.len()) =~= ei) by {
            assert forall|k| 0 <= k < ei.len() implies w.subrange(j, j + ei.len())[k] == ei[k] by {
                assert(w.subrange(j, j + escaped(t).len())[k] == escaped(t)[k]);
            }
        }
        lemma_scan_escaped(init, w, j);
        let k = j + ei.len();
        let x = c as u32;
        assert(x < 128);
        if c == '"' {
            assert(w[k] == escaped(t)[ei.len() as int]);
            assert(w[k + 1] == escaped(t)[ei.len() + 1int]);
            assert(is_escapable_byte(w[k + 1]));
        } else {
            assert(w[k] == escaped(t)[ei.len() as int]);
            assert(x != 0x22 && x != 0x5c);
            assert(low_byte(c) != 0x22 && low_byte(c) != 0x5c) by {
                assert((x % 256) as u8 != 0x22u8 && (x % 256) as u8 != 0x5cu8) by (bit_vector)
                    requires
                        x < 128,
                        x != 0x22,
                        x != 0x5c,
                ;
            }
        }
    }
}

/// A string the writer emits is read back in full by the string parser, its
/// text being the body as written, quotes escaped: for any text of ASCII
/// characters without a backslash. A text without quotes is read back as
/// itself.
pub proof fn law_written_string_reads_back(t: Seq<char>)
    requires
        is_ascii_chars(t),
        !t.contains('\\'),
    ensures
        spec_standard_string(string_clips(t), 0) == Outcome::Done(
            string_clips(t).len(),
            escaped_chars(t),
        ),
        !t.contains('"') ==> escaped_chars(t) == t,
{
    let b = escaped(t);
    let n = b.len() as int;
    let w = string_clips(t);
    assert(w.len() == b.len() + 2);
    assert(w.subrange(1, 1 + n) =~= b);
    lemma_scan_escaped(t, w, 1);
    assert(w[1 + n] == 0x22);
    lemma_escaped_encodes(t);
    encode_utf8_valid_utf8(escaped_chars(t));
    encode_utf8_decode_utf8(escaped_chars(t));
    assert(scan_quoted(w, 1 + n) == Outcome::Done((1 + n) as nat, ()));
    if !t.contains('"') {
        lemma_escaped_chars_plain(t);
    }
}

proof fn lemma_escaped_chars_plain(t: Seq<char>)
    requires
        !t.contains('"'),
    ensures
        escaped_chars(t) == t,
    decreases t.len(),
{
    if t.len() > 0 {
        let init = t.subrange(0, t.len() - 1);
        assert(!init.contains('"')) by {
            if init.contains('"') {
                let k = choose|k: int| 0 <= k < init.len() && init[k] == '"';
                assert(t[k] == '"');
            }
        }
        lemma_escaped_chars_plain(init);
        assert(t[t.len() - 1] != '"');
        assert(init + seq![t[t.len() - 1]] =~= t);
    }
}

} // verus!
