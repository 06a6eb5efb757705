use uconsyn::ast::{AssertMode, Assertion, Symbol, Value};
use uconsyn::lexer::is_identifier_byte;
use uconsyn::outcome::ParseResult;
use uconsyn::parser::{
    assertion, attribute, document, document_checked, identifier, is_shortcut, multi_value,
    raw_string, standard_string, symbol, value,
};

#[test]
fn identifier_bytes_are_latin1_alphanumerics_and_marks() {
    for b in 0u16..256 {
        let b = b as u8;
        let c = b as char;
        let expected = c.is_alphabetic() || c.is_digit(10) || c == '-' || c == '_' || c == '.';
        assert_eq!(expected, is_identifier_byte(b), "byte {:#x}", b);
    }
}

#[test]
fn identifier_reads_longest_run() {
    let (rest, word) = identifier(b"ab-c.d_1 rest").unwrap();
    assert_eq!(word, b"ab-c.d_1");
    assert_eq!(rest, b" rest");
    assert!(identifier(b"").is_incomplete());
    assert!(identifier(b" x").is_err());
    let (rest, word) = identifier(b"_x").unwrap();
    assert_eq!(word, b"_x");
    assert_eq!(rest, b"");
}

#[test]
fn symbol_stops_at_first_foreign_byte() {
    let (rest, s) = symbol(b"ab-c d").unwrap();
    assert_eq!(s, Symbol("ab-c"));
    assert_eq!(rest, b" d");
    assert!(symbol(b"").is_incomplete());
}

#[test]
fn symbol_takes_latin1_letters_that_form_utf8() {
    // U+00AA is C2 AA, and both bytes read as Latin-1 letters.
    let input = "a\u{aa} x";
    let (rest, s) = symbol(input.as_bytes()).unwrap();
    assert_eq!(s, Symbol("a\u{aa}"));
    assert_eq!(rest, b" x");
}

#[test]
fn standard_string_incomplete_and_errors() {
    assert!(standard_string(b"\"abc").is_incomplete());
    assert!(standard_string(b"\"a\\").is_incomplete());
    assert!(standard_string(b"\"a\\x\"").is_err());
    assert!(standard_string(b"abc").is_err());
    assert!(standard_string(b"").is_incomplete());
    let (rest, t) = standard_string(b"\"a\\\"b\\n\" tail").unwrap();
    assert_eq!(t, "a\\\"b\\n");
    assert_eq!(rest, b" tail");
}

#[test]
fn raw_string_incomplete_and_errors() {
    assert!(raw_string(b"<").is_incomplete());
    assert!(raw_string(b"<'a").is_incomplete());
    assert!(raw_string(b"<'abc").is_err());
    assert!(raw_string(b"<x").is_err());
    let (rest, t) = raw_string(b"<''>!").unwrap();
    assert_eq!(t, "");
    assert_eq!(rest, b"!");
}

#[test]
fn value_is_never_incomplete() {
    assert!(value(b"'").is_err());
    assert!(value(b"").is_err());
    assert!(value(b"\"open").is_err());
}

#[test]
fn multi_value_eats_surrounding_spaces() {
    let (rest, v) = multi_value(b"  [ 'a  'b ]  x").unwrap();
    assert_eq!(v, Value::Multi(vec![Value::Symbol(Symbol("a")), Value::Symbol(Symbol("b"))]));
    assert_eq!(rest, b"x");
    assert!(multi_value(b"[ 'a").is_incomplete());
    assert!(multi_value(b"[ 'a x").is_err());
}

#[test]
fn assertion_needs_space_after_class() {
    assert!(assertion(b"construct").is_incomplete());
    assert!(assertion(b"construct:").is_err());
    let (rest, a) = assertion(b"c\n").unwrap();
    assert_eq!(a, Assertion { mode: AssertMode::Assert(None), class: Symbol("c"), attrs: vec![] });
    assert_eq!(rest, b"");
}

#[test]
fn nested_assertion_value() {
    let (_, v) = value(b"c k: + @d is: 'x").unwrap();
    let inner = Assertion {
        mode: AssertMode::Duplicate,
        class: Symbol("d"),
        attrs: vec![(Symbol("is"), Value::Symbol(Symbol("x")))],
    };
    let outer = Assertion {
        mode: AssertMode::Assert(None),
        class: Symbol("c"),
        attrs: vec![(Symbol("k"), Value::Assertion(Box::new(inner)))],
    };
    assert_eq!(v, Value::Assertion(Box::new(outer)));
}

#[test]
fn document_reads_assertions_and_duplications() {
    let input = b"construct a: 'b\n+ @construct c: \"d\"\n=x other e: <'f'>\n";
    let (rest, items) = document(input).unwrap();
    assert_eq!(rest, b"");
    assert_eq!(items.len(), 3);
    assert_eq!(items[0], Assertion {
        mode: AssertMode::Assert(None),
        class: Symbol("construct"),
        attrs: vec![(Symbol("a"), Value::Symbol(Symbol("b")))],
    });
    assert_eq!(items[1], Assertion {
        mode: AssertMode::Duplicate,
        class: Symbol("construct"),
        attrs: vec![(Symbol("c"), Value::String("d"))],
    });
    assert_eq!(items[2], Assertion {
        mode: AssertMode::Assert(Some(Symbol("x"))),
        class: Symbol("other"),
        attrs: vec![(Symbol("e"), Value::String("f"))],
    });
}

#[test]
fn document_edges() {
    let (rest, items) = document(b"").unwrap();
    assert!(items.is_empty());
    assert_eq!(rest, b"");
    assert!(document(b"x").is_incomplete());
    assert!(document(b" ").is_incomplete());
    let (rest, items) = document(b"a b: 'c ]").unwrap();
    assert_eq!(items.len(), 1);
    assert_eq!(rest, b"]");
}

#[test]
fn document_checked_flags_text_that_is_not_utf8() {
    assert!(document_checked(b"a\xc3 x").is_none());
    assert!(document_checked(b"c k: \"\xff\"\n").is_none());
    match document_checked(b"c k: 'v\n") {
        Some(ParseResult::Done(rest, items)) => {
            assert_eq!(rest, b"");
            assert_eq!(items.len(), 1);
        },
        _ => panic!("expected a document"),
    }
}

#[test]
fn clone_keeps_the_tree() {
    let (_, v) = value(b"=a [ 'x \"y\" ] | @a").unwrap();
    let c = v.clone();
    assert_eq!(c, v);
}

#[test]
fn arrow_reads_as_is_attribute() {
    let follows: [&[u8]; 4] = [b" 'good rest", b"[ \"a\" 'b ]", b"", b"  "];
    for x in follows.iter() {
        let mut s1: Vec<u8> = b"=>".to_vec();
        s1.extend_from_slice(x);
        let mut s2: Vec<u8> = b"is:".to_vec();
        s2.extend_from_slice(x);
        match (is_shortcut(&s1), attribute(&s2)) {
            (ParseResult::Done(r1, v1), ParseResult::Done(r2, v2)) => {
                assert_eq!(r1, r2);
                assert_eq!(v1, v2);
                assert_eq!(v1.0, Symbol("is"));
            }
            (ParseResult::Incomplete, ParseResult::Incomplete) => {}
            (ParseResult::Error, ParseResult::Error) => {}
            _ => panic!("the shortcut and the attribute disagree"),
        }
    }
    let (rest, (name, v)) = is_shortcut(b"=> 'good rest").unwrap();
    assert_eq!(rest, &b" rest"[..]);
    assert_eq!(name, Symbol("is"));
    assert_eq!(v, Value::Symbol(Symbol("good")));
}
