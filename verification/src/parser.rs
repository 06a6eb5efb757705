//! The parsers of `ucon` documents, each verified against its rule in
//! [`crate::grammar`].
//!
//! A parser reads a byte slice and gives back a [`ParseResult`]: the rest of
//! the input and the value read, or why nothing was read. Each one requires
//! that its rule does not reach a text that is not UTF-8 (the outcome
//! `Invalid`), for which no value exists.
use vstd::prelude::*;
use crate::ast::{
    AssertMode, Assertion, AssertionModel, Symbol, Value, assertions_model, attrs_model, values_model,
};
use crate::grammar::{
    fail, lemma_primitive_bounds, one, raw_close, raw_open, spec_assertion, spec_assertion_value,
    spec_assignment_value, spec_attr_items, spec_attribute, spec_binding, spec_document,
    spec_document_items, spec_duplication, spec_identifier, spec_is_shortcut, spec_multi_value,
    spec_multiline_string_value, spec_multispace, spec_muted_value, spec_opt_space, spec_raw_string,
    spec_ref_name, spec_ref_value, spec_sp, spec_standard_string, spec_string_value, spec_symbol,
    spec_symbol_value, spec_value, spec_value_items, triple_quote,
};
use crate::lexer::{
    ByteClass, Scan, is_alpha_byte, quoted_body, scan_agrees, scan_run, spec_tag, spec_take_until,
    tag, take_until, text,
};
use crate::outcome::{Outcome, ParseResult, agrees};

verus! {

/// A position reached with the value read, or why nothing was read.
pub enum Step<O> {
    Done(usize, O),
    Error,
    Incomplete,
    Invalid,
}

/// `r` gives back the position and value of the outcome `o`.
pub open spec fn step_agrees<O: View>(r: Step<O>, o: Outcome<O::V>) -> bool {
    match r {
        Step::Done(e, v) => o == Outcome::Done(e as nat, v@),
        Step::Error => o is Error,
        Step::Incomplete => o is Incomplete,
        Step::Invalid => o is Invalid,
    }
}

/// `r` ends between `i` and the end of the input.
pub open spec fn ends_within<O>(r: Step<O>, i: int, len: int) -> bool {
    r matches Step::Done(e, _) ==> i <= e <= len
}

/// Hands out a step taken from the start of `s` as a parse result.
fn finish<'a, O: View>(s: &'a [u8], r: Step<O>, Ghost(o): Ghost<Outcome<O::V>>) -> (res: ParseResult<'a, O>)
    requires
        step_agrees(r, o),
        ends_within(r, 0, s@.len() as int),
        !(o is Invalid),
    ensures
        agrees(res, s@, o),
{
    match r {
        Step::Done(e, v) => {
            let rest = vstd::slice::slice_subrange(s, e, s.len());
            assert(rest@ =~= s@.skip(e as int));
            ParseResult::Done(rest, v)
        },
        Step::Error => ParseResult::Error,
        Step::Incomplete => ParseResult::Incomplete,
        Step::Invalid => {
            proof {
                assert(false);
            }
            unreached()
        },
    }
}

/// Skips the spaces at `i`.
fn sp(s: &[u8], i: usize) -> (e: usize)
    requires
        i <= s@.len(),
    ensures
        e == spec_sp(s@, i as int),
        i <= e <= s@.len(),
{
    scan_run(s, &ByteClass::Space, i)
}

/// One space or more at `i`.
fn multispace(s: &[u8], i: usize) -> (r: Scan)
    requires
        i <= s@.len(),
    ensures
        scan_agrees(r, spec_multispace(s@, i as int)),
        r matches Scan::Done(e) ==> i < e <= s@.len(),
{
    if i >= s.len() {
        return Scan::Incomplete;
    }
    let e = scan_run(s, &ByteClass::Space, i);
    if e == i {
        Scan::Error
    } else {
        Scan::Done(e)
    }
}

/// Optional spaces at `i`.
fn opt_space(s: &[u8], i: usize) -> (r: Scan)
    requires
        i <= s@.len(),
    ensures
        scan_agrees(r, spec_opt_space(s@, i as int)),
        r matches Scan::Done(e) ==> i <= e <= s@.len(),
{
    if i >= s.len() {
        return Scan::Incomplete;
    }
    Scan::Done(scan_run(s, &ByteClass::Space, i))
}

/// The byte `b` at `i`.
fn tag_one(s: &[u8], i: usize, b: u8) -> (r: Scan)
    requires
        i <= s@.len(),
    ensures
        scan_agrees(r, spec_tag(s@, i as int, one(b))),
        r matches Scan::Done(e) ==> e == i + 1 && e <= s@.len(),
{
    let t: [u8; 1] = [b];
    assert(t@ =~= one(b));
    tag(s, i, t.as_slice())
}

/// The bytes `b0 b1` at `i`.
fn tag_two(s: &[u8], i: usize, b0: u8, b1: u8) -> (r: Scan)
    requires
        i <= s@.len(),
    ensures
        scan_agrees(r, spec_tag(s@, i as int, seq![b0, b1])),
        r matches Scan::Done(e) ==> e == i + 2 && e <= s@.len(),
{
    let t: [u8; 2] = [b0, b1];
    assert(t@ =~= seq![b0, b1]);
    tag(s, i, t.as_slice())
}

/// The bytes `b b b` at `i`.
fn tag_three(s: &[u8], i: usize, b: u8) -> (r: Scan)
    requires
        i <= s@.len(),
    ensures
        scan_agrees(r, spec_tag(s@, i as int, seq![b, b, b])),
        r matches Scan::Done(e) ==> e == i + 3 && e <= s@.len(),
{
    let t: [u8; 3] = [b, b, b];
    assert(t@ =~= seq![b, b, b]);
    tag(s, i, t.as_slice())
}

/// Reads from `i` up to the first `b0 b1`.
fn until_two(s: &[u8], i: usize, b0: u8, b1: u8) -> (r: Scan)
    requires
        i <= s@.len(),
    ensures
        scan_agrees(r, spec_take_until(s@, i as int, seq![b0, b1])),
        r matches Scan::Done(k) ==> i <= k && k + 2 <= s@.len(),
{
    let t: [u8; 2] = [b0, b1];
    assert(t@ =~= seq![b0, b1]);
    take_until(s, i, t.as_slice())
}

/// Reads from `i` up to the first `b b b`.
fn until_three(s: &[u8], i: usize, b: u8) -> (r: Scan)
    requires
        i <= s@.len(),
    ensures
        scan_agrees(r, spec_take_until(s@, i as int, seq![b, b, b])),
        r matches Scan::Done(k) ==> i <= k && k + 3 <= s@.len(),
{
    let t: [u8; 3] = [b, b, b];
    assert(t@ =~= seq![b, b, b]);
    take_until(s, i, t.as_slice())
}

/// Reads the longest non-empty run of identifier bytes at the start of
/// `input`.
pub fn identifier<'a>(input: &'a [u8]) -> (r: ParseResult<'a, &'a [u8]>)
    ensures
        agrees(r, input@, spec_identifier(input@, 0)),
{
    if input.len() == 0 {
        return ParseResult::Incomplete;
    }
    let e = scan_run(input, &ByteClass::Identifier, 0);
    if e == 0 {
        return ParseResult::Error;
    }
    let word = vstd::slice::slice_subrange(input, 0, e);
    let rest = vstd::slice::slice_subrange(input, e, input.len());
    assert(rest@ =~= input@.skip(e as int));
    ParseResult::Done(rest, word)
}

fn symbol_at<'a>(s: &'a [u8], i: usize) -> (r: Step<Symbol<'a>>)
    requires
        i <= s@.len(),
    ensures
        step_agrees(r, spec_symbol(s@, i as int)),
        r matches Step::Done(e, _) ==> i < e <= s@.len(),
{
    if i >= s.len() {
        return Step::Incomplete;
    }
    if !is_alpha_byte(s[i]) {
        return Step::Error;
    }
    let e = scan_run(s, &ByteClass::Identifier, i);
    proof {
        lemma_primitive_bounds(s@, i as int);
    }
    match text(s, i, e) {
        Some(t) => Step::Done(e, Symbol(t)),
        None => Step::Invalid,
    }
}

/// Reads a symbol: an ASCII letter and the longest run of identifier bytes.
pub fn symbol<'a>(input: &'a [u8]) -> (r: ParseResult<'a, Symbol<'a>>)
    requires
        !(spec_symbol(input@, 0) is Invalid),
    ensures
        agrees(r, input@, spec_symbol(input@, 0)),
{
    finish(input, symbol_at(input, 0), Ghost(spec_symbol(input@, 0)))
}

fn standard_string_at<'a>(s: &'a [u8], i: usize) -> (r: Step<&'a str>)
    requires
        i <= s@.len(),
    ensures
        step_agrees(r, spec_standard_string(s@, i as int)),
        ends_within(r, i as int, s@.len() as int),
{
    if i >= s.len() {
        return Step::Incomplete;
    }
    if s[i] != 0x22 {
        return Step::Error;
    }
    match quoted_body(s, i + 1) {
        Scan::Done(k) => {
            if k >= s.len() {
                Step::Incomplete
            } else if s[k] != 0x22 {
                Step::Error
            } else {
                match text(s, i + 1, k) {
                    Some(t) => Step::Done(k + 1, t),
                    None => Step::Invalid,
                }
            }
        },
        Scan::Error => Step::Error,
        Scan::Incomplete => Step::Incomplete,
    }
}

/// Reads a string in double quotes; the text is its body as written.
pub fn standard_string<'a>(input: &'a [u8]) -> (r: ParseResult<'a, &'a str>)
    requires
        !(spec_standard_string(input@, 0) is Invalid),
    ensures
        agrees(r, input@, spec_standard_string(input@, 0)),
{
    finish(input, standard_string_at(input, 0), Ghost(spec_standard_string(input@, 0)))
}

fn raw_string_at<'a>(s: &'a [u8], i: usize) -> (r: Step<&'a str>)
    requires
        i <= s@.len(),
    ensures
        step_agrees(r, spec_raw_string(s@, i as int)),
        ends_within(r, i as int, s@.len() as int),
{
    assert(raw_open() == seq![0x3cu8, 0x27u8]);
    assert(raw_close() == seq![0x27u8, 0x3eu8]);
    match tag_two(s, i, 0x3c, 0x27) {
        Scan::Done(a) => match until_two(s, a, 0x27, 0x3e) {
            Scan::Done(k) => match tag_two(s, k, 0x27, 0x3e) {
                Scan::Done(e) => match text(s, a, k) {
                    Some(t) => Step::Done(e, t),
                    None => Step::Invalid,
                },
                Scan::Error => Step::Error,
                Scan::Incomplete => Step::Incomplete,
            },
            Scan::Error => Step::Error,
            Scan::Incomplete => Step::Incomplete,
        },
        Scan::Error => Step::Error,
        Scan::Incomplete => Step::Incomplete,
    }
}

/// Reads a raw string between `<'` and `'>`.
pub fn raw_string<'a>(input: &'a [u8]) -> (r: ParseResult<'a, &'a str>)
    requires
        !(spec_raw_string(input@, 0) is Invalid),
    ensures
        agrees(r, input@, spec_raw_string(input@, 0)),
{
    finish(input, raw_string_at(input, 0), Ghost(spec_raw_string(input@, 0)))
}

fn multiline_string_value_at<'a>(s: &'a [u8], i: usize) -> (r: Step<Value<'a>>)
    requires
        i <= s@.len(),
    ensures
        step_agrees(r, spec_multiline_string_value(s@, i as int)),
        ends_within(r, i as int, s@.len() as int),
{
    proof {
        reveal(spec_multiline_string_value);
    }
    assert(triple_quote() == seq![0x22u8, 0x22u8, 0x22u8]);
    match tag_three(s, i, 0x22) {
        Scan::Done(a) => match until_three(s, a, 0x22) {
            Scan::Done(k) => match tag_three(s, k, 0x22) {
                Scan::Done(e) => match text(s, a, k) {
                    Some(t) => Step::Done(e, Value::MultilineString(t)),
                    None => Step::Invalid,
                },
                Scan::Error => Step::Error,
                Scan::Incomplete => Step::Incomplete,
            },
            Scan::Error => Step::Error,
            Scan::Incomplete => Step::Incomplete,
        },
        Scan::Error => Step::Error,
        Scan::Incomplete => Step::Incomplete,
    }
}

/// Reads a multiline string between two `"""`.
pub fn multiline_string_value<'a>(input: &'a [u8]) -> (r: ParseResult<'a, Value<'a>>)
    requires
        !(spec_multiline_string_value(input@, 0) is Invalid),
    ensures
        agrees(r, input@, spec_multiline_string_value(input@, 0)),
{
    finish(input, multiline_string_value_at(input, 0), Ghost(spec_multiline_string_value(input@, 0)))
}

fn string_value_at<'a>(s: &'a [u8], i: usize) -> (r: Step<Value<'a>>)
    requires
        i <= s@.len(),
    ensures
        step_agrees(r, spec_string_value(s@, i as int)),
        ends_within(r, i as int, s@.len() as int),
{
    proof {
        reveal(spec_string_value);
    }
    match standard_string_at(s, i) {
        Step::Done(e, t) => Step::Done(e, Value::String(t)),
        Step::Incomplete => Step::Incomplete,
 Step::Invalid => Step::Invalid,
        Step::Error => match raw_string_at(s, i) {
            Step::Done(e, t) => Step::Done(e, Value::String(t)),
            Step::Incomplete => Step::Incomplete,
 Step::Invalid => Step::Invalid,
            Step::Error => Step::Error,
        },
    }
}

/// Reads a string, quoted or raw, as a value.
pub fn string_value<'a>(input: &'a [u8]) -> (r: ParseResult<'a, Value<'a>>)
    requires
        !(spec_string_value(input@, 0) is Invalid),
    ensures
        agrees(r, input@, spec_string_value(input@, 0)),
{
    finish(input, string_value_at(input, 0), Ghost(spec_string_value(input@, 0)))
}

fn symbol_value_at<'a>(s: &'a [u8], i: usize) -> (r: Step<Value<'a>>)
    requires
        i <= s@.len(),
    ensures
        step_agrees(r, spec_symbol_value(s@, i as int)),
        ends_within(r, i as int, s@.len() as int),
{
    proof {
        reveal(spec_symbol_value);
    }
    match tag_one(s, i, 0x27) {
        Scan::Done(a) => match symbol_at(s, a) {
            Step::Done(e, t) => Step::Done(e, Value::Symbol(t)),
            Step::Error => Step::Error,
            Step::Incomplete => Step::Incomplete,
 Step::Invalid => Step::Invalid,
        },
        Scan::Error => Step::Error,
        Scan::Incomplete => Step::Incomplete,
    }
}

/// Reads `'` and a symbol.
pub fn symbol_value<'a>(input: &'a [u8]) -> (r: ParseResult<'a, Value<'a>>)
    requires
        !(spec_symbol_value(input@, 0) is Invalid),
    ensures
        agrees(r, input@, spec_symbol_value(input@, 0)),
{
    finish(input, symbol_value_at(input, 0), Ghost(spec_symbol_value(input@, 0)))
}

fn ref_name_at<'a>(s: &'a [u8], i: usize) -> (r: Step<Symbol<'a>>)
    requires
        i <= s@.len(),
    ensures
        step_agrees(r, spec_ref_name(s@, i as int)),
        ends_within(r, i as int, s@.len() as int),
{
    match tag_one(s, i, 0x40) {
        Scan::Done(a) => match opt_space(s, a) {
            Scan::Done(b) => symbol_at(s, b),
            Scan::Error => Step::Error,
            Scan::Incomplete => Step::Incomplete,
        },
        Scan::Error => Step::Error,
        Scan::Incomplete => Step::Incomplete,
    }
}

fn ref_value_at<'a>(s: &'a [u8], i: usize) -> (r: Step<Value<'a>>)
    requires
        i <= s@.len(),
    ensures
        step_agrees(r, spec_ref_value(s@, i as int)),
        ends_within(r, i as int, s@.len() as int),
{
    proof {
        reveal(spec_ref_value);
    }
    match ref_name_at(s, i) {
        Step::Done(e, t) => Step::Done(e, Value::Ref(t)),
        Step::Error => Step::Error,
        Step::Incomplete => Step::Incomplete,
 Step::Invalid => Step::Invalid,
    }
}

/// Reads `@`, optional spaces and a symbol: a reference to a bound name.
pub fn ref_value<'a>(input: &'a [u8]) -> (r: ParseResult<'a, Value<'a>>)
    requires
        !(spec_ref_value(input@, 0) is Invalid),
    ensures
        agrees(r, input@, spec_ref_value(input@, 0)),
{
    finish(input, ref_value_at(input, 0), Ghost(spec_ref_value(input@, 0)))
}

fn binding_at<'a>(s: &'a [u8], i: usize) -> (r: Step<Symbol<'a>>)
    requires
        i <= s@.len(),
    ensures
        step_agrees(r, spec_binding(s@, i as int)),
        ends_within(r, i as int, s@.len() as int),
{
    match tag_one(s, i, 0x3d) {
        Scan::Done(a) => match opt_space(s, a) {
            Scan::Done(b) => match symbol_at(s, b) {
                Step::Done(n, name) => match multispace(s, n) {
                    Scan::Done(e) => Step::Done(e, name),
                    Scan::Error => Step::Error,
                    Scan::Incomplete => Step::Incomplete,
                },
                Step::Error => Step::Error,
                Step::Incomplete => Step::Incomplete,
 Step::Invalid => Step::Invalid,
            },
            Scan::Error => Step::Error,
            Scan::Incomplete => Step::Incomplete,
        },
        Scan::Error => Step::Error,
        Scan::Incomplete => Step::Incomplete,
    }
}


/// Whether a choice stops at `r`: a value was read, or a text was not UTF-8.
fn settled<O>(r: &Step<O>) -> (b: bool)
    ensures
        b == (*r is Done || *r is Invalid),
{
    match r {
        Step::Done(_, _) => true,
        Step::Invalid => true,
        _ => false,
    }
}

fn value_at<'a>(s: &'a [u8], i: usize) -> (r: Step<Value<'a>>)
    requires
        i <= s@.len(),
    ensures
        step_agrees(r, spec_value(s@, i as int)),
        ends_within(r, i as int, s@.len() as int),
    decreases s@.len() - i, 10int,
{
    let r = multi_value_at(s, i);
    if settled(&r) {
        return r;
    }
    let r = muted_value_at(s, i);
    if settled(&r) {
        return r;
    }
    let r = assignment_value_at(s, i);
    if settled(&r) {
        return r;
    }
    let r = ref_value_at(s, i);
    if settled(&r) {
        return r;
    }
    let r = assertion_value_at(s, i);
    if settled(&r) {
        return r;
    }
    let r = symbol_value_at(s, i);
    if settled(&r) {
        return r;
    }
    let r = multiline_string_value_at(s, i);
    if settled(&r) {
        return r;
    }
    let r = string_value_at(s, i);
    if settled(&r) {
        return r;
    }
    Step::Error
}

/// Reads a value: a list, a muted value, an assignment, a reference, an
/// assertion, a symbol, a multiline string or a string, whichever comes
/// first in that order.
pub fn value<'a>(input: &'a [u8]) -> (r: ParseResult<'a, Value<'a>>)
    requires
        !(spec_value(input@, 0) is Invalid),
    ensures
        agrees(r, input@, spec_value(input@, 0)),
{
    finish(input, value_at(input, 0), Ghost(spec_value(input@, 0)))
}

fn multi_value_at<'a>(s: &'a [u8], i: usize) -> (r: Step<Value<'a>>)
    requires
        i <= s@.len(),
    ensures
        step_agrees(r, spec_multi_value(s@, i as int)),
        ends_within(r, i as int, s@.len() as int),
    decreases s@.len() - i, 9int,
{
    let a = sp(s, i);
    match tag_one(s, a, 0x5b) {
        Scan::Done(b) => {
            let c = sp(s, b);
            match value_items_at(s, c) {
                Step::Done(k, vals) => {
                    let d = sp(s, k);
                    match tag_one(s, d, 0x5d) {
                        Scan::Done(e) => Step::Done(sp(s, e), Value::Multi(vals)),
                        Scan::Error => Step::Error,
                        Scan::Incomplete => Step::Incomplete,
                    }
                },
                Step::Error => Step::Error,
                Step::Incomplete => Step::Incomplete,
 Step::Invalid => Step::Invalid,
            }
        },
        Scan::Error => Step::Error,
        Scan::Incomplete => Step::Incomplete,
    }
}

/// Reads `[`, values and `]`, with spaces anywhere around them.
pub fn multi_value<'a>(input: &'a [u8]) -> (r: ParseResult<'a, Value<'a>>)
    requires
        !(spec_multi_value(input@, 0) is Invalid),
    ensures
        agrees(r, input@, spec_multi_value(input@, 0)),
{
    finish(input, multi_value_at(input, 0), Ghost(spec_multi_value(input@, 0)))
}

/// The outcome `o` of a list that follows the items `acc`.
pub open spec fn prepend<T>(acc: Seq<T>, o: Outcome<Seq<T>>) -> Outcome<Seq<T>> {
    match o {
        Outcome::Done(e, rest) => Outcome::Done(e, acc + rest),
        _ => o,
    }
}

fn value_items_at<'a>(s: &'a [u8], i: usize) -> (r: Step<Vec<Value<'a>>>)
    requires
        i <= s@.len(),
    ensures
        r matches Step::Done(e, vals) ==> spec_value_items(s@, i as int) == Outcome::Done(
            e as nat,
            values_model(vals@),
        ),
        r is Error ==> spec_value_items(s@, i as int) is Error,
        r is Incomplete ==> spec_value_items(s@, i as int) is Incomplete,
        r is Invalid ==> spec_value_items(s@, i as int) is Invalid,
        ends_within(r, i as int, s@.len() as int),
    decreases s@.len() - i, 11int,
{
    let mut pos = i;
    let mut vals: Vec<Value<'a>> = Vec::new();
    assert(spec_value_items(s@, i as int) =~= prepend(values_model(vals@), spec_value_items(s@, pos as int)));
    loop
        invariant
            i <= pos <= s@.len(),
            spec_value_items(s@, i as int) == prepend(values_model(vals@), spec_value_items(s@, pos as int)),
        decreases s@.len() - pos,
    {
        if pos >= s.len() {
            assert(values_model(vals@) + Seq::<crate::ast::ValueModel>::empty() =~= values_model(vals@));
            return Step::Done(pos, vals);
        }
        let a = sp(s, pos);
        match value_at(s, a) {
            Step::Done(n, v) => {
                let c = sp(s, n);
                if c == pos {
                    return Step::Error;
                }
                let ghost before = vals@;
                let ghost vm = v@;
                vals.push(v);
                proof {
                    assert(vals@.subrange(0, vals@.len() - 1) =~= before);
                    assert(values_model(vals@) == values_model(before).push(vm));
                    lemma_prepend_push(values_model(before), vm, spec_value_items(s@, c as int));
                }
                pos = c;
            },
            Step::Error => {
                assert(values_model(vals@) + Seq::<crate::ast::ValueModel>::empty() =~= values_model(vals@));
                return Step::Done(pos, vals);
            },
            Step::Incomplete => {
                return Step::Incomplete;
            },
            Step::Invalid => {
                return Step::Invalid;
            },
        }
    }
}


fn muted_value_at<'a>(s: &'a [u8], i: usize) -> (r: Step<Value<'a>>)
    requires
        i <= s@.len(),
    ensures
        step_agrees(r, spec_muted_value(s@, i as int)),
        ends_within(r, i as int, s@.len() as int),
    decreases s@.len() - i, 9int,
{
    match tag_one(s, i, 0x7c) {
        Scan::Done(a) => match opt_space(s, a) {
            Scan::Done(b) => match value_at(s, b) {
                Step::Done(e, v) => Step::Done(e, Value::Muted(Box::new(v))),
                Step::Error => Step::Error,
                Step::Incomplete => Step::Incomplete,
 Step::Invalid => Step::Invalid,
            },
            Scan::Error => Step::Error,
            Scan::Incomplete => Step::Incomplete,
        },
        Scan::Error => Step::Error,
        Scan::Incomplete => Step::Incomplete,
    }
}

/// Reads `|`, optional spaces and a value whose result is dropped.
pub fn muted_value<'a>(input: &'a [u8]) -> (r: ParseResult<'a, Value<'a>>)
    requires
        !(spec_muted_value(input@, 0) is Invalid),
    ensures
        agrees(r, input@, spec_muted_value(input@, 0)),
{
    finish(input, muted_value_at(input, 0), Ghost(spec_muted_value(input@, 0)))
}

fn assignment_value_at<'a>(s: &'a [u8], i: usize) -> (r: Step<Value<'a>>)
    requires
        i <= s@.len(),
    ensures
        step_agrees(r, spec_assignment_value(s@, i as int)),
        ends_within(r, i as int, s@.len() as int),
    decreases s@.len() - i, 9int,
{
    match tag_one(s, i, 0x3d) {
        Scan::Done(a) => match opt_space(s, a) {
            Scan::Done(b) => match symbol_at(s, b) {
                Step::Done(n, name) => match multispace(s, n) {
                    Scan::Done(m) => match value_at(s, m) {
                        Step::Done(p, bound) => match value_at(s, p) {
                            Step::Done(e, scope) => Step::Done(
                                e,
                                Value::Assignment(name, Box::new(bound), Box::new(scope)),
                            ),
                            Step::Error => Step::Error,
                            Step::Incomplete => Step::Incomplete,
 Step::Invalid => Step::Invalid,
                        },
                        Step::Error => Step::Error,
                        Step::Incomplete => Step::Incomplete,
 Step::Invalid => Step::Invalid,
                    },
                    Scan::Error => Step::Error,
                    Scan::Incomplete => Step::Incomplete,
                },
                Step::Error => Step::Error,
                Step::Incomplete => Step::Incomplete,
 Step::Invalid => Step::Invalid,
            },
            Scan::Error => Step::Error,
            Scan::Incomplete => Step::Incomplete,
        },
        Scan::Error => Step::Error,
        Scan::Incomplete => Step::Incomplete,
    }
}

/// Reads `=`, optional spaces, a name, spaces, the value bound to the name
/// and the value in whose scope the binding holds.
pub fn assignment_value<'a>(input: &'a [u8]) -> (r: ParseResult<'a, Value<'a>>)
    requires
        !(spec_assignment_value(input@, 0) is Invalid),
    ensures
        agrees(r, input@, spec_assignment_value(input@, 0)),
{
    finish(input, assignment_value_at(input, 0), Ghost(spec_assignment_value(input@, 0)))
}

fn assertion_value_at<'a>(s: &'a [u8], i: usize) -> (r: Step<Value<'a>>)
    requires
        i <= s@.len(),
    ensures
        step_agrees(r, spec_assertion_value(s@, i as int)),
        ends_within(r, i as int, s@.len() as int),
    decreases s@.len() - i, 9int,
{
    match assertion_at(s, i) {
        Step::Done(e, a) => Step::Done(e, Value::Assertion(Box::new(a))),
        Step::Incomplete => Step::Incomplete,
 Step::Invalid => Step::Invalid,
        Step::Error => match duplication_at(s, i) {
            Step::Done(e, a) => Step::Done(e, Value::Assertion(Box::new(a))),
            Step::Incomplete => Step::Incomplete,
 Step::Invalid => Step::Invalid,
            Step::Error => Step::Error,
        },
    }
}

/// Reads an assertion or a duplication as a value.
pub fn assertion_value<'a>(input: &'a [u8]) -> (r: ParseResult<'a, Value<'a>>)
    requires
        !(spec_assertion_value(input@, 0) is Invalid),
    ensures
        agrees(r, input@, spec_assertion_value(input@, 0)),
{
    finish(input, assertion_value_at(input, 0), Ghost(spec_assertion_value(input@, 0)))
}

fn assertion_at<'a>(s: &'a [u8], i: usize) -> (r: Step<Assertion<'a>>)
    requires
        i <= s@.len(),
    ensures
        step_agrees(r, spec_assertion(s@, i as int)),
        ends_within(r, i as int, s@.len() as int),
    decreases s@.len() - i, 8int,
{
    let (a, bind) = match binding_at(s, i) {
        Step::Done(e, name) => (e, Some(name)),
        Step::Error => (i, None),
        Step::Incomplete => {
            return Step::Incomplete;
        },
        Step::Invalid => {
            return Step::Invalid;
        },
    };
    match symbol_at(s, a) {
        Step::Done(n, class) => match multispace(s, n) {
            Scan::Done(m) => match attr_items_at(s, m) {
                Step::Done(e, attrs) => Step::Done(
                    e,
                    Assertion { mode: AssertMode::Assert(bind), class, attrs },
                ),
                Step::Error => Step::Error,
                Step::Incomplete => Step::Incomplete,
 Step::Invalid => Step::Invalid,
            },
            Scan::Error => Step::Error,
            Scan::Incomplete => Step::Incomplete,
        },
        Step::Error => Step::Error,
        Step::Incomplete => Step::Incomplete,
 Step::Invalid => Step::Invalid,
    }
}

/// Reads an assertion: an optional binding `=name`, the class, spaces and
/// the attributes.
pub fn assertion<'a>(input: &'a [u8]) -> (r: ParseResult<'a, Assertion<'a>>)
    requires
        !(spec_assertion(input@, 0) is Invalid),
    ensures
        agrees(r, input@, spec_assertion(input@, 0)),
{
    finish(input, assertion_at(input, 0), Ghost(spec_assertion(input@, 0)))
}

fn duplication_at<'a>(s: &'a [u8], i: usize) -> (r: Step<Assertion<'a>>)
    requires
        i <= s@.len(),
    ensures
        step_agrees(r, spec_duplication(s@, i as int)),
        ends_within(r, i as int, s@.len() as int),
    decreases s@.len() - i, 8int,
{
    match tag_one(s, i, 0x2b) {
        Scan::Done(a) => match opt_space(s, a) {
            Scan::Done(b) => {
                let (c, name) = match ref_name_at(s, b) {
                    Step::Done(e, name) => (e, Some(name)),
                    Step::Error => (b, None),
                    Step::Incomplete => {
                        return Step::Incomplete;
                    },
                    Step::Invalid => {
                        return Step::Invalid;
                    },
                };
                match attr_items_at(s, c) {
                    Step::Done(e, attrs) => {
                        let class = match name {
                            Some(t) => t,
                            None => Symbol("UCON___"),
                        };
                        Step::Done(e, Assertion { mode: AssertMode::Duplicate, class, attrs })
                    },
                    Step::Error => Step::Error,
                    Step::Incomplete => Step::Incomplete,
 Step::Invalid => Step::Invalid,
                }
            },
            Scan::Error => Step::Error,
            Scan::Incomplete => Step::Incomplete,
        },
        Scan::Error => Step::Error,
        Scan::Incomplete => Step::Incomplete,
    }
}

/// Reads a duplication: `+`, optional spaces, an optional `@name` for the
/// class, and the attributes.
pub fn duplication<'a>(input: &'a [u8]) -> (r: ParseResult<'a, Assertion<'a>>)
    requires
        !(spec_duplication(input@, 0) is Invalid),
    ensures
        agrees(r, input@, spec_duplication(input@, 0)),
{
    finish(input, duplication_at(input, 0), Ghost(spec_duplication(input@, 0)))
}

fn attr_items_at<'a>(s: &'a [u8], i: usize) -> (r: Step<Vec<(Symbol<'a>, Value<'a>)>>)
    requires
        i <= s@.len(),
    ensures
        r matches Step::Done(e, attrs) ==> spec_attr_items(s@, i as int) == Outcome::Done(
            e as nat,
            attrs_model(attrs@),
        ),
        r is Error ==> spec_attr_items(s@, i as int) is Error,
        r is Incomplete ==> spec_attr_items(s@, i as int) is Incomplete,
        r is Invalid ==> spec_attr_items(s@, i as int) is Invalid,
        ends_within(r, i as int, s@.len() as int),
    decreases s@.len() - i, 7int,
{
    let mut pos = i;
    let mut attrs: Vec<(Symbol<'a>, Value<'a>)> = Vec::new();
    assert(spec_attr_items(s@, i as int) =~= prepend(attrs_model(attrs@), spec_attr_items(s@, pos as int)));
    loop
        invariant
            i <= pos <= s@.len(),
            spec_attr_items(s@, i as int) == prepend(attrs_model(attrs@), spec_attr_items(s@, pos as int)),
        decreases s@.len() - pos,
    {
        if pos >= s.len() {
            assert(attrs_model(attrs@) + Seq::<(Seq<char>, crate::ast::ValueModel)>::empty() =~= attrs_model(attrs@));
            return Step::Done(pos, attrs);
        }
        let a = sp(s, pos);
        let first = match attribute_at(s, a) {
            Step::Done(n, kv) => Step::Done(n, kv),
            Step::Invalid => Step::Invalid,
            _ => is_shortcut_at(s, a),
        };
        match first {
            Step::Done(n, kv) => {
                let c = sp(s, n);
                if c == pos {
                    return Step::Error;
                }
                let ghost before = attrs@;
                let ghost km = (kv.0@, kv.1@);
                attrs.push(kv);
                proof {
                    assert(attrs@.subrange(0, attrs@.len() - 1) =~= before);
                    assert(attrs_model(attrs@) == attrs_model(before).push(km));
                    lemma_prepend_push(attrs_model(before), km, spec_attr_items(s@, c as int));
                }
                pos = c;
            },
            Step::Invalid => {
                return Step::Invalid;
            },
            _ => {
                assert(attrs_model(attrs@) + Seq::<(Seq<char>, crate::ast::ValueModel)>::empty() =~= attrs_model(attrs@));
                return Step::Done(pos, attrs);
            },
        }
    }
}

fn attribute_at<'a>(s: &'a [u8], i: usize) -> (r: Step<(Symbol<'a>, Value<'a>)>)
    requires
        i <= s@.len(),
    ensures
        step_agrees(r, spec_attribute(s@, i as int)),
        ends_within(r, i as int, s@.len() as int),
    decreases s@.len() - i, 6int,
{
    match symbol_at(s, i) {
        Step::Done(n, name) => match tag_one(s, n, 0x3a) {
            Scan::Done(a) => match opt_space(s, a) {
                Scan::Done(b) => match value_at(s, b) {
                    Step::Done(e, v) => Step::Done(e, (name, v)),
                    Step::Error => Step::Error,
                    Step::Incomplete => Step::Incomplete,
 Step::Invalid => Step::Invalid,
                },
                Scan::Error => Step::Error,
                Scan::Incomplete => Step::Incomplete,
            },
            Scan::Error => Step::Error,
            Scan::Incomplete => Step::Incomplete,
        },
        Step::Error => Step::Error,
        Step::Incomplete => Step::Incomplete,
 Step::Invalid => Step::Invalid,
    }
}

/// Reads an attribute: a name, `:`, optional spaces and a value.
pub fn attribute<'a>(input: &'a [u8]) -> (r: ParseResult<'a, (Symbol<'a>, Value<'a>)>)
    requires
        !(spec_attribute(input@, 0) is Invalid),
    ensures
        agrees(r, input@, spec_attribute(input@, 0)),
{
    finish(input, attribute_at(input, 0), Ghost(spec_attribute(input@, 0)))
}

fn is_shortcut_at<'a>(s: &'a [u8], i: usize) -> (r: Step<(Symbol<'a>, Value<'a>)>)
    requires
        i <= s@.len(),
    ensures
        step_agrees(r, spec_is_shortcut(s@, i as int)),
        ends_within(r, i as int, s@.len() as int),
    decreases s@.len() - i, 6int,
{
    match tag_two(s, i, 0x3d, 0x3e) {
        Scan::Done(a) => match opt_space(s, a) {
            Scan::Done(b) => match value_at(s, b) {
                Step::Done(e, v) => Step::Done(e, (Symbol("is"), v)),
                Step::Error => Step::Error,
                Step::Incomplete => Step::Incomplete,
 Step::Invalid => Step::Invalid,
            },
            Scan::Error => Step::Error,
            Scan::Incomplete => Step::Incomplete,
        },
        Scan::Error => Step::Error,
        Scan::Incomplete => Step::Incomplete,
    }
}

/// Reads `=>`, optional spaces and a value: an `is` attribute.
pub fn is_shortcut<'a>(input: &'a [u8]) -> (r: ParseResult<'a, (Symbol<'a>, Value<'a>)>)
    requires
        !(spec_is_shortcut(input@, 0) is Invalid),
    ensures
        agrees(r, input@, spec_is_shortcut(input@, 0)),
{
    finish(input, is_shortcut_at(input, 0), Ghost(spec_is_shortcut(input@, 0)))
}


/// `r` is what the document parser gives back for `input` when the grammar's
/// outcome is `o`.
pub open spec fn document_agrees<'a>(
    r: ParseResult<'a, Vec<Assertion<'a>>>,
    input: Seq<u8>,
    o: Outcome<Seq<AssertionModel>>,
) -> bool {
    match r {
        ParseResult::Done(rest, items) => {
            &&& o matches Outcome::Done(n, m)
            &&& n <= input.len()
            &&& rest@ == input.skip(n as int)
            &&& assertions_model(items@) == m
        },
        ParseResult::Error => o is Error,
        ParseResult::Incomplete => o is Incomplete,
    }
}

/// Reads the assertions and duplications of a document, each with the
/// spaces around it, up to the first place where none can be read.
pub fn document<'a>(input: &'a [u8]) -> (r: ParseResult<'a, Vec<Assertion<'a>>>)
    requires
        !(spec_document(input@) is Invalid),
    ensures
        document_agrees(r, input@, spec_document(input@)),
{
    match document_items_at(input, 0) {
        Step::Done(e, items) => {
            let rest = vstd::slice::slice_subrange(input, e, input.len());
            assert(rest@ =~= input@.skip(e as int));
            ParseResult::Done(rest, items)
        },
        Step::Error => ParseResult::Error,
        Step::Incomplete => ParseResult::Incomplete,
        Step::Invalid => {
            proof {
                assert(false);
            }
            unreached()
        },
    }
}

/// Reads a document as [`document`] does, or gives back `None` where a text
/// in it is not UTF-8.
pub fn document_checked<'a>(input: &'a [u8]) -> (r: Option<ParseResult<'a, Vec<Assertion<'a>>>>)
    ensures
        r is None <==> spec_document(input@) is Invalid,
        r matches Some(p) ==> document_agrees(p, input@, spec_document(input@)),
{
    match document_items_at(input, 0) {
        Step::Done(e, items) => {
            let rest = vstd::slice::slice_subrange(input, e, input.len());
            assert(rest@ =~= input@.skip(e as int));
            Some(ParseResult::Done(rest, items))
        },
        Step::Error => Some(ParseResult::Error),
        Step::Incomplete => Some(ParseResult::Incomplete),
        Step::Invalid => None,
    }
}

fn document_items_at<'a>(s: &'a [u8], i: usize) -> (r: Step<Vec<Assertion<'a>>>)
    requires
        i <= s@.len(),
    ensures
        r matches Step::Done(e, items) ==> spec_document_items(s@, i as int) == Outcome::Done(
            e as nat,
            assertions_model(items@),
        ),
        r is Error ==> spec_document_items(s@, i as int) is Error,
        r is Incomplete ==> spec_document_items(s@, i as int) is Incomplete,
        r is Invalid ==> spec_document_items(s@, i as int) is Invalid,
        ends_within(r, i as int, s@.len() as int),
{
    let mut pos = i;
    let mut items: Vec<Assertion<'a>> = Vec::new();
    assert(spec_document_items(s@, i as int) =~= prepend(assertions_model(items@), spec_document_items(s@, pos as int)));
    loop
        invariant
            i <= pos <= s@.len(),
            spec_document_items(s@, i as int) == prepend(assertions_model(items@), spec_document_items(s@, pos as int)),
        decreases s@.len() - pos,
    {
        if pos >= s.len() {
            assert(assertions_model(items@) + Seq::<AssertionModel>::empty() =~= assertions_model(items@));
            return Step::Done(pos, items);
        }
        let a = sp(s, pos);
        let found = match assertion_at(s, a) {
            Step::Error => duplication_at(s, a),
            other => other,
        };
        match found {
            Step::Done(n, x) => {
                let c = sp(s, n);
                if c == pos {
                    return Step::Error;
                }
                let ghost before = items@;
                let ghost xm = x@;
                items.push(x);
                proof {
                    assert(items@.subrange(0, items@.len() - 1) =~= before);
                    assert(assertions_model(items@) == assertions_model(before).push(xm));
                    lemma_prepend_push(assertions_model(before), xm, spec_document_items(s@, c as int));
                }
                pos = c;
            },
            Step::Error => {
                assert(assertions_model(items@) + Seq::<AssertionModel>::empty() =~= assertions_model(items@));
                return Step::Done(pos, items);
            },
            Step::Incomplete => {
                return Step::Incomplete;
            },
            Step::Invalid => {
                return Step::Invalid;
            },
        }
    }
}

/// Reading one more item `x` before the rest `o` of a list.
proof fn lemma_prepend_push<T>(acc: Seq<T>, x: T, o: Outcome<Seq<T>>)
    ensures
        prepend(
            acc,
            match o {
                Outcome::Done(e, rest) => Outcome::Done(e, seq![x] + rest),
                other => fail(other),
            },
        ) == prepend(acc.push(x), o),
{
    match o {
        Outcome::Done(e, rest) => {
            assert(acc + (seq![x] + rest) =~= acc.push(x) + rest);
        },
        _ => {},
    }
}

} // verus!
