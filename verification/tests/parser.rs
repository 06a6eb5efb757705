use uconsyn::ast::{AssertMode, Assertion, Symbol, Value};
use uconsyn::parser::{
    assertion, attribute, duplication, is_shortcut, multi_value, multiline_string_value,
    raw_string, standard_string, string_value, symbol, symbol_value, value,
};

#[test]
fn valid_symbol() {
    let (_, result) = symbol(b"abc123.-_").unwrap();
    assert_eq!(Symbol("abc123.-_"), result);
}

#[test]
fn value_symbol() {
    let (_, result) = symbol_value(b"'abc123.-_").unwrap();
    assert_eq!(Value::Symbol(Symbol("abc123.-_")), result);
}

#[test]
fn invalid_symbol_leading_char() {
    assert!(symbol(b"0abc").is_err());
    assert!(symbol(b".abc").is_err());
    assert!(symbol(b"-abc").is_err());
    assert!(symbol(b"_abc").is_err());
}

#[test]
fn valid_string() {
    let (_, result) = standard_string(r#""test""#.as_bytes()).unwrap();
    assert_eq!("test", result);
}

#[test]
fn valid_raw_string() {
    let (_, result) = raw_string(r#"<'t"e"st'>"#.as_bytes()).unwrap();
    assert_eq!("t\"e\"st", result);
}

#[test]
fn valid_newline_string() {
    let (_, result) = standard_string(r#""test
world""#.as_bytes()).unwrap();
    assert_eq!("test\nworld", result);
}

#[test]
fn value_string() {
    let (_, result) = string_value(r#""test""#.as_bytes()).unwrap();
    assert_eq!(Value::String("test"), result);
}

#[test]
fn value_multiline_string() {
    let s = r#""""test
                      this
                   """"#;
    let (_, result) = multiline_string_value(s.as_bytes()).unwrap();
    assert_eq!(Value::MultilineString(&s.replace("\"", "")), result);
}

#[test]
fn valid_multi_value() {
    let (_, result) = multi_value(r#"[]"#.as_bytes()).unwrap();
    assert_eq!(Value::Multi(vec![]), result);
    let (_, result) = multi_value(r#"["test" "value" ]"#.as_bytes()).unwrap();
    assert_eq!(Value::Multi(vec![Value::String("test"), Value::String("value")]), result);
}

#[test]
fn valid_attribute() {
    let (_, result) = attribute(b"test: 'value").unwrap();
    assert_eq!((Symbol("test"), Value::Symbol(Symbol("value"))), result);
}

#[test]
fn valid_is_shortcut() {
    let (_, result) = is_shortcut(b"=> 'value").unwrap();
    assert_eq!((Symbol("is"), Value::Symbol(Symbol("value"))), result);
}

#[test]
fn valid_assertion_with_multi() {
    let (_, result) = assertion(b"construct test: [ 'test ] something: 'good").unwrap();
    assert_eq!(Assertion { mode: AssertMode::Assert(None), class: Symbol("construct"), attrs: vec![(Symbol("test"), Value::Multi(vec![Value::Symbol(Symbol("test"))])),
                                                                   (Symbol("something"), Value::Symbol(Symbol("good")))] }, result);
}

#[test]
fn valid_assertion_with_assignment() {
    let (_, result) = assertion(b"=test construct something: 'good").unwrap();
    assert_eq!(Assertion { mode: AssertMode::Assert(Some(Symbol("test"))), class: Symbol("construct"), attrs: vec![
                                                                   (Symbol("something"), Value::Symbol(Symbol("good")))] }, result);
}

#[test]
fn valid_assertion() {
    let (_, result) = assertion(b"construct test: 'value something: 'good").unwrap();
    assert_eq!(Assertion { mode: AssertMode::Assert(None), class: Symbol("construct"), attrs: vec![(Symbol("test"), Value::Symbol(Symbol("value"))), (Symbol("something"), Value::Symbol(Symbol("good")))] }, result);
}

#[test]
fn valid_assertion_with_is_shortcut() {
    let (_, result) = assertion(b"construct test: 'value => 'good").unwrap();
    assert_eq!(Assertion { mode: AssertMode::Assert(None), class: Symbol("construct"), attrs: vec![(Symbol("test"), Value::Symbol(Symbol("value"))), (Symbol("is"), Value::Symbol(Symbol("good")))] }, result);
}

#[test]
fn valid_duplication() {
    let (_, result) = duplication(b"+ test: 'value something: 'good").unwrap();
    assert_eq!(Assertion { mode: AssertMode::Duplicate, class: Symbol("UCON___"), attrs: vec![(Symbol("test"), Value::Symbol(Symbol("value"))), (Symbol("something"), Value::Symbol(Symbol("good")))] }, result);
}

#[test]
fn valid_ref_duplication() {
     let (_, result) = duplication(b"+ @test test: 'value something: 'good").unwrap();
    assert_eq!(Assertion { mode: AssertMode::Duplicate, class: Symbol("test"), attrs: vec![(Symbol("test"), Value::Symbol(Symbol("value"))), (Symbol("something"), Value::Symbol(Symbol("good")))] }, result);
}

#[test]
fn muted_value() {
    let (_, result) = value(b"|'a").unwrap();
    assert_eq!(Value::Muted(Box::new(Value::Symbol(Symbol("a")))), result);
}

#[test]
fn assignment_value() {
    let (_, result) = value(b"=a 'a [ @a ]").unwrap();
    assert_eq!(Value::Assignment(Symbol("a"), Box::new(Value::Symbol(Symbol("a"))), Box::new(Value::Multi(vec![Value::Ref(Symbol("a"))]))), result);
}

#[test]
fn ref_value() {
    let (_, result) = value(b"@a").unwrap();
    assert_eq!(Value::Ref(Symbol("a")), result);
}
