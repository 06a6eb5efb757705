use uconsyn::ast::{AssertMode, Assertion, Symbol, Value};
use uconsyn::clips::{write_program, ClipsWriter};
use uconsyn::parser::{standard_string, symbol, value};

fn written<T: ClipsWriter>(t: &T) -> Vec<u8> {
    let mut out = Vec::new();
    t.write(&mut out);
    out
}

#[test]
fn writes_symbol_as_its_bytes() {
    assert_eq!(written(&Symbol("abc")), b"abc");
}

#[test]
fn writes_string_with_quotes_escaped() {
    assert_eq!(written(&Value::String("a\"b")), b"\"a\\\"b\"");
    assert_eq!(written(&Value::String("")), b"\"\"");
}

#[test]
fn writes_low_byte_of_wide_characters() {
    assert_eq!(written(&Value::String("\u{e9}")), b"\"\xe9\"");
    // U+0122 has the low byte of a quote, and is written unescaped.
    assert_eq!(written(&Value::String("\u{122}")), b"\"\"\"");
}

#[test]
fn writes_multiline_string_unindented() {
    assert_eq!(written(&Value::MultilineString("\n    a\n      b\n    ")), b"\"a\n  b\n\"");
    assert_eq!(written(&Value::MultilineString("x\n  y")), b"\"x\ny\"");
}

#[test]
fn writes_compound_values() {
    let v = Value::Multi(vec![Value::Symbol(Symbol("a")), Value::Ref(Symbol("b"))]);
    assert_eq!(written(&v), b" a\n ?b\n");
    let v = Value::Assignment(Symbol("x"), Box::new(Value::Symbol(Symbol("v"))), Box::new(Value::Ref(Symbol("x"))));
    assert_eq!(written(&v), b"(bind ?x v) ?x");
    let v = Value::Muted(Box::new(Value::String("s")));
    assert_eq!(written(&v), b"(progn \"s\" nil)");
}

#[test]
fn writes_assertions() {
    let plain = Assertion {
        mode: AssertMode::Assert(None),
        class: Symbol("c"),
        attrs: vec![(Symbol("k"), Value::Symbol(Symbol("v")))],
    };
    assert_eq!(written(&plain), b"(bind ?UCON___ (assert (c (k v))))");
    let bound = Assertion {
        mode: AssertMode::Assert(Some(Symbol("x"))),
        class: Symbol("c"),
        attrs: vec![],
    };
    assert_eq!(written(&bound), b"(bind ?x (bind ?UCON___ (assert (c))))");
    let dup = Assertion {
        mode: AssertMode::Duplicate,
        class: Symbol("c"),
        attrs: vec![(Symbol("k"), Value::String("v"))],
    };
    assert_eq!(written(&dup), b"(bind ?UCON__ (duplicate ?c (k \"v\")))");
    assert_eq!(written(&Value::Assertion(Box::new(dup))), b"(bind ?UCON__ (duplicate ?c (k \"v\")))");
}

#[test]
fn writes_program_with_header() {
    let a = Assertion { mode: AssertMode::Assert(None), class: Symbol("c"), attrs: vec![] };
    let mut out = Vec::new();
    write_program(&vec![a], &mut out);
    assert_eq!(out, b";; Generated by uconsyn\n(reset)\n(bind ?UCON___ (assert (c)))\n\n");
    let mut out = Vec::new();
    write_program(&vec![], &mut out);
    assert_eq!(out, b";; Generated by uconsyn\n(reset)\n\n");
}

#[test]
fn symbol_is_written_as_read() {
    let input = b"ab-c.d rest";
    let (rest, s) = symbol(input).unwrap();
    assert_eq!(written(&s), &input[..input.len() - rest.len()]);
    let (_, v) = value(b"'sym.1 x").unwrap();
    assert_eq!(written(&v), b"sym.1");
}

#[test]
fn written_string_reads_back() {
    let out = written(&Value::String("say \"hi\" now"));
    let (rest, t) = standard_string(&out).unwrap();
    assert_eq!(rest, b"");
    assert_eq!(t, "say \\\"hi\\\" now");
    let out = written(&Value::String("plain text"));
    let (rest, t) = standard_string(&out).unwrap();
    assert_eq!(rest, b"");
    assert_eq!(t, "plain text");
}
