//! Writing the CLIPS code that a `ucon` syntax tree stands for.
use vstd::prelude::*;
use vstd::utf8::encode_utf8;
use vstd::string::StringSliceAdditionalSpecFns;
use crate::ast::{
    AssertMode, Assertion, AssertionModel, ModeModel, Symbol, Value, ValueModel, attrs_model,
    assertions_model, lemma_assertions_model, lemma_attrs_model, lemma_values_model, value_model, values_model,
};

verus! {

/// The bytes of a literal of the output.
pub open spec fn lit(t: &str) -> Seq<u8> {
    t.spec_bytes()
}

/// The byte that a character is written as inside a string: the low eight
/// bits of its number.
pub open spec fn low_byte(c: char) -> u8 {
    ((c as u32) % 256) as u8
}

/// The body of a string as written: `"` becomes `\"`, any other character
/// its low byte.
pub open spec fn escaped(t: Seq<char>) -> Seq<u8>
    decreases t.len(),
{
    if t.len() == 0 {
        Seq::empty()
    } else {
        escaped(t.subrange(0, t.len() - 1)) + if t[t.len() - 1] == '"' {
            seq![0x5cu8, 0x22u8]
        } else {
            seq![low_byte(t[t.len() - 1])]
        }
    }
}

/// A string as written: its escaped body in double quotes.
pub open spec fn string_clips(t: Seq<char>) -> Seq<u8> {
    seq![0x22u8] + escaped(t) + seq![0x22u8]
}

/// A name for what `unindent::unindent` gives back for a text.
pub uninterp spec fn unindented(text: Seq<char>) -> Seq<char>;

/// What a value is written as.
pub open spec fn value_clips(v: ValueModel) -> Seq<u8>
    decreases v,
{
    match v {
        ValueModel::Symbol(t) => encode_utf8(t),
        ValueModel::String(t) => string_clips(t),
        ValueModel::MultilineString(t) => string_clips(unindented(t)),
        ValueModel::Assertion(a) => assertion_clips(*a),
        ValueModel::Multi(vs) => multi_clips(vs),
        ValueModel::Ref(t) => lit("?") + encode_utf8(t),
        ValueModel::Assignment(name, bound, scope) => lit("(bind ?") + encode_utf8(name) + lit(" ")
            + value_clips(*bound) + lit(") ") + value_clips(*scope),
        ValueModel::Muted(b) => lit("(progn ") + value_clips(*b) + lit(" nil)"),
    }
}

/// The values of a list as written: each after a space and before a newline.
pub open spec fn multi_clips(vs: Seq<ValueModel>) -> Seq<u8>
    decreases vs,
{
    if vs.len() == 0 {
        Seq::empty()
    } else {
        multi_clips(vs.subrange(0, vs.len() - 1)) + lit(" ") + value_clips(vs[vs.len() - 1])
            + lit("\n")
    }
}

/// The attributes of an assertion as written: ` (name value)` each.
pub open spec fn attrs_clips(attrs: Seq<(Seq<char>, ValueModel)>) -> Seq<u8>
    decreases attrs,
{
    if attrs.len() == 0 {
        Seq::empty()
    } else {
        attrs_clips(attrs.subrange(0, attrs.len() - 1)) + lit(" (") + encode_utf8(
            attrs[attrs.len() - 1].0,
        ) + lit(" ") + value_clips(attrs[attrs.len() - 1].1) + lit(")")
    }
}

/// What opens an assertion.
pub open spec fn assertion_head(m: ModeModel) -> Seq<u8> {
    match m {
        ModeModel::Assert(Some(name)) => lit("(bind ?") + encode_utf8(name) + lit(" ") + lit(
            "(bind ?UCON___ (assert (",
        ),
        ModeModel::Assert(None) => lit("(bind ?UCON___ (assert ("),
        ModeModel::Duplicate => lit("(bind ?UCON__ (duplicate ?"),
    }
}

/// What closes an assertion.
pub open spec fn assertion_tail(m: ModeModel) -> Seq<u8> {
    match m {
        ModeModel::Assert(Some(_)) => lit(")") + lit(")") + lit("))"),
        ModeModel::Assert(None) => lit(")") + lit("))"),
        ModeModel::Duplicate => lit("))"),
    }
}

/// What an assertion is written as.
pub open spec fn assertion_clips(a: AssertionModel) -> Seq<u8>
    decreases a,
{
    assertion_head(a.mode) + encode_utf8(a.class) + attrs_clips(a.attrs) + assertion_tail(a.mode)
}

/// A syntax tree that can be written as CLIPS code.
pub trait ClipsWriter {
    /// What the tree is written as.
    spec fn clips(&self) -> Seq<u8>;

    /// Appends what the tree is written as to `out`.
    fn write(&self, out: &mut Vec<u8>)
        ensures
            final(out)@ == old(out)@ + self.clips(),
    ;
}

/// Appends bytes to `out`.
fn append(out: &mut Vec<u8>, bytes: &[u8])
    ensures
        final(out)@ == old(out)@ + bytes@,
{
    let mut k: usize = 0;
    while k < bytes.len()
        invariant
            k <= bytes@.len(),
            out@ == old(out)@ + bytes@.take(k as int),
        decreases bytes@.len() - k,
    {
        let ghost prev = out@;
        out.push(bytes[k]);
        assert(bytes@.take(k + 1) =~= bytes@.take(k as int).push(bytes@[k as int]));
        k = k + 1;
    }
    assert(bytes@.take(bytes@.len() as int) =~= bytes@);
}

/// Appends the bytes of a literal to `out`.
fn append_str(out: &mut Vec<u8>, t: &str)
    ensures
        final(out)@ == old(out)@ + lit(t),
{
    append(out, t.as_bytes());
}

/// Writes a string: its body escaped, in double quotes.
pub fn write_string(t: &str, out: &mut Vec<u8>)
    ensures
        final(out)@ == old(out)@ + string_clips(t@),
{
    out.push(0x22);
    let ghost start = out@;
    let ghost chars = t@;
    for c in it: t.chars()
        invariant
            it.seq() == chars,
            out@ == start + escaped(chars.take(it.index() as int)),
    {
        let ghost k = it.index() as int;
        let ghost prev = out@;
        if c == '"' {
            out.push(0x5c);
            out.push(0x22);
        } else {
            let n = c as u32;
            out.push((n % 256) as u8);
        }
        assert(chars.take(k + 1).subrange(0, k) =~= chars.take(k));
    }
    assert(chars.take(chars.len() as int) =~= chars);
    out.push(0x22);
}

/// Calls `unindent::unindent`, which removes from every line after the first
/// the indentation that those lines share, drops a first line that is empty
/// and a last newline. Its result is a function of the text alone; that
/// function is only named here, not stated.
#[verifier::external_body]
fn unindent_text(text: &str) -> (r: String)
    ensures
        r@ == unindented(text@),
{
    unindent::unindent(text)
}


/// Writes a symbol: its bytes.
fn write_symbol(sym: &Symbol, out: &mut Vec<u8>)
    ensures
        final(out)@ == old(out)@ + encode_utf8(sym@),
{
    append(out, sym.0.as_bytes());
}

/// Writes a value.
fn write_value(v: &Value, out: &mut Vec<u8>)
    ensures
        final(out)@ == old(out)@ + value_clips(v@),
    decreases v,
{
    let ghost start = out@;
    match v {
        Value::Symbol(sym) => write_symbol(sym, out),
        Value::String(t) => write_string(t, out),
        Value::MultilineString(t) => {
            let u = unindent_text(t);
            write_string(u.as_str(), out);
        },
        Value::Assertion(a) => write_assertion(a, out),
        Value::Multi(vals) => {
            let mut k: usize = 0;
            assert(multi_clips(values_model(vals@.take(0))) =~= Seq::<u8>::empty());
            assert(start + Seq::<u8>::empty() =~= start);
            while k < vals.len()
                invariant
                    *v == Value::Multi(*vals),
                    k <= vals@.len(),
                    out@ == start + multi_clips(values_model(vals@.take(k as int))),
                decreases vals@.len() - k,
            {
                let ghost prev = out@;
                let ghost prevm = values_model(vals@.take(k as int));
                proof {
                    assert((*v)->Multi_0 == *vals);
                    assert(decreases_to!(*v => (*v)->Multi_0));
                    assert(decreases_to!(*vals => vals@));
                    assert(decreases_to!(vals@ => vals@[k as int]));
                }
                append_str(out, " ");
                write_value(&vals[k], out);
                append_str(out, "\n");
                proof {
                    let taken = vals@.take(k + 1);
                    assert(taken.subrange(0, k as int) =~= vals@.take(k as int));
                    lemma_values_model(taken);
                    lemma_values_model(vals@.take(k as int));
                    assert(values_model(taken).subrange(0, k as int) =~= prevm);
                    assert(out@ =~= start + (multi_clips(prevm) + lit(" ") + value_clips(
                        value_model(vals@[k as int]),
                    ) + lit("\n")));
                }
                k = k + 1;
            }
            assert(vals@.take(vals@.len() as int) =~= vals@);
        },
        Value::Ref(sym) => {
            append_str(out, "?");
            write_symbol(sym, out);
            assert(out@ =~= start + (lit("?") + encode_utf8(sym@)));
        },
        Value::Assignment(name, bound, scope) => {
            append_str(out, "(bind ?");
            write_symbol(name, out);
            append_str(out, " ");
            write_value(bound, out);
            append_str(out, ") ");
            write_value(scope, out);
            assert(out@ =~= start + (lit("(bind ?") + encode_utf8(name@) + lit(" ") + value_clips(
                bound@,
            ) + lit(") ") + value_clips(scope@)));
        },
        Value::Muted(b) => {
            append_str(out, "(progn ");
            write_value(b, out);
            append_str(out, " nil)");
            assert(out@ =~= start + (lit("(progn ") + value_clips(b@) + lit(" nil)")));
        },
    }
}

/// Writes what opens an assertion.
fn write_head(mode: &AssertMode, out: &mut Vec<u8>)
    ensures
        final(out)@ == old(out)@ + assertion_head(mode@),
{
    let ghost start = out@;
    match mode {
        AssertMode::Assert(Some(sym)) => {
            append_str(out, "(bind ?");
            write_symbol(sym, out);
            append_str(out, " ");
            append_str(out, "(bind ?UCON___ (assert (");
            assert(out@ =~= start + (lit("(bind ?") + encode_utf8(sym@) + lit(" ") + lit(
                "(bind ?UCON___ (assert (",
            )));
        },
        AssertMode::Assert(None) => {
            append_str(out, "(bind ?UCON___ (assert (");
        },
        AssertMode::Duplicate => {
            append_str(out, "(bind ?UCON__ (duplicate ?");
        },
    }
}

/// Writes what closes an assertion.
fn write_tail(mode: &AssertMode, out: &mut Vec<u8>)
    ensures
        final(out)@ == old(out)@ + assertion_tail(mode@),
{
    let ghost start = out@;
    match mode {
        AssertMode::Assert(Some(_)) => {
            append_str(out, ")");
            append_str(out, ")");
            append_str(out, "))");
            assert(out@ =~= start + (lit(")") + lit(")") + lit("))")));
        },
        AssertMode::Assert(None) => {
            append_str(out, ")");
            append_str(out, "))");
            assert(out@ =~= start + (lit(")") + lit("))")));
        },
        AssertMode::Duplicate => {
            append_str(out, "))");
        },
    }
}

/// Writes an assertion.
fn write_assertion(a: &Assertion, out: &mut Vec<u8>)
    ensures
        final(out)@ == old(out)@ + assertion_clips(a@),
    decreases a,
{
    let ghost start = out@;
    write_head(&a.mode, out);
    write_symbol(&a.class, out);
    let ghost mid = out@;
    let mut k: usize = 0;
    assert(attrs_clips(attrs_model(a.attrs@.take(0))) =~= Seq::<u8>::empty());
    assert(mid + Seq::<u8>::empty() =~= mid);
    while k < a.attrs.len()
        invariant
            k <= a.attrs@.len(),
            out@ == mid + attrs_clips(attrs_model(a.attrs@.take(k as int))),
        decreases a.attrs@.len() - k,
    {
        let ghost prev = out@;
        let ghost prevm = attrs_model(a.attrs@.take(k as int));
        let (name, v) = &a.attrs[k];
        proof {
            assert(decreases_to!(*a => a.attrs));
            assert(decreases_to!(a.attrs => a.attrs@));
            assert(decreases_to!(a.attrs@ => a.attrs@[k as int]));
            assert(decreases_to!(a.attrs@[k as int] => a.attrs@[k as int].1));
        }
        append_str(out, " (");
        write_symbol(name, out);
        append_str(out, " ");
        write_value(v, out);
        append_str(out, ")");
        proof {
            let taken = a.attrs@.take(k + 1);
            assert(taken.subrange(0, k as int) =~= a.attrs@.take(k as int));
            lemma_attrs_model(taken);
            lemma_attrs_model(a.attrs@.take(k as int));
            assert(attrs_model(taken).subrange(0, k as int) =~= prevm);
            assert(out@ =~= mid + (attrs_clips(prevm) + (lit(" (") + encode_utf8(name@) + lit(" ")
                + value_clips(value_model(*v)) + lit(")"))));
        }
        k = k + 1;
    }
    assert(a.attrs@.take(a.attrs@.len() as int) =~= a.attrs@);
    write_tail(&a.mode, out);
    assert(out@ =~= start + (assertion_head(a.mode@) + encode_utf8(a.class@) + attrs_clips(
        attrs_model(a.attrs@),
    ) + assertion_tail(a.mode@)));
}

impl<'a> ClipsWriter for Symbol<'a> {
    open spec fn clips(&self) -> Seq<u8> {
        encode_utf8(self@)
    }

    fn write(&self, out: &mut Vec<u8>) {
        write_symbol(self, out)
    }
}

impl<'a> ClipsWriter for Value<'a> {
    open spec fn clips(&self) -> Seq<u8> {
        value_clips(self@)
    }

    fn write(&self, out: &mut Vec<u8>) {
        write_value(self, out)
    }
}

impl<'a> ClipsWriter for Assertion<'a> {
    open spec fn clips(&self) -> Seq<u8> {
        assertion_clips(self@)
    }

    fn write(&self, out: &mut Vec<u8>) {
        write_assertion(self, out)
    }
}


/// Assertions as written, each followed by a newline.
pub open spec fn statements_clips(assertions: Seq<AssertionModel>) -> Seq<u8>
    decreases assertions.len(),
{
    if assertions.len() == 0 {
        Seq::empty()
    } else {
        statements_clips(assertions.subrange(0, assertions.len() - 1)) + assertion_clips(
            assertions[assertions.len() - 1],
        ) + lit("\n")
    }
}

/// The CLIPS program for a document: a header that resets the environment,
/// the assertions, and a closing newline.
pub open spec fn program_clips(assertions: Seq<AssertionModel>) -> Seq<u8> {
    lit(";; Generated by uconsyn\n(reset)\n") + statements_clips(assertions) + lit("\n")
}

/// Appends the CLIPS program for the assertions of a document to `out`.
pub fn write_program(assertions: &Vec<Assertion>, out: &mut Vec<u8>)
    ensures
        final(out)@ == old(out)@ + program_clips(assertions_model(assertions@)),
{
    let ghost start = out@;
    append_str(out, ";; Generated by uconsyn\n(reset)\n");
    let ghost mid = out@;
    let mut k: usize = 0;
    assert(statements_clips(assertions_model(assertions@.take(0))) =~= Seq::<u8>::empty());
    assert(mid + Seq::<u8>::empty() =~= mid);
    while k < assertions.len()
        invariant
            k <= assertions@.len(),
            out@ == mid + statements_clips(assertions_model(assertions@.take(k as int))),
        decreases assertions@.len() - k,
    {
        let ghost prevm = assertions_model(assertions@.take(k as int));
        write_assertion(&assertions[k], out);
        append_str(out, "\n");
        proof {
            let taken = assertions@.take(k + 1);
            assert(taken.subrange(0, k as int) =~= assertions@.take(k as int));
            lemma_assertions_model(taken);
            lemma_assertions_model(assertions@.take(k as int));
            assert(assertions_model(taken).subrange(0, k as int) =~= prevm);
            assert(out@ =~= mid + (statements_clips(prevm) + assertion_clips(assertions@[k as int]@)
                + lit("\n")));
        }
        k = k + 1;
    }
    assert(assertions@.take(assertions@.len() as int) =~= assertions@);
    append_str(out, "\n");
    assert(out@ =~= start + program_clips(assertions_model(assertions@)));
}

} // verus!
