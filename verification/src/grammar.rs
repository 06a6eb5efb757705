//! The grammar of `ucon` documents, stated over byte sequences.
//!
//! Each rule reads the input `s` from position `i` and gives an [`Outcome`];
//! `Done(e, v)` carries the position `e` after what was read. The rules
//! are those of a streaming reader: an input that ends inside a construct is
//! `Incomplete`, optional parts and choices recover from `Error` only, and
//! `complete` turns `Incomplete` into `Error`.
use vstd::prelude::*;
use crate::ast::{AssertionModel, ModeModel, ValueModel};
use crate::lexer::{
    ByteClass, is_alpha_byte, lemma_run_end, run_end, scan_quoted, spec_tag, spec_take_until,
    text_outcome,
};
use crate::outcome::Outcome;

verus! {

/// `"<'"`, which opens a raw string.
pub open spec fn raw_open() -> Seq<u8> {
    seq![0x3cu8, 0x27u8]
}

/// `"'>"`, which closes a raw string.
pub open spec fn raw_close() -> Seq<u8> {
    seq![0x27u8, 0x3eu8]
}

/// `"""`, which opens and closes a multiline string.
pub open spec fn triple_quote() -> Seq<u8> {
    seq![0x22u8, 0x22u8, 0x22u8]
}

/// `"=>"`, the shortcut for an `is` attribute.
pub open spec fn arrow() -> Seq<u8> {
    seq![0x3du8, 0x3eu8]
}

/// A single byte as a tag.
pub open spec fn one(b: u8) -> Seq<u8> {
    seq![b]
}

/// The class that a duplication without a name refers to.
pub open spec fn default_class() -> Seq<char> {
    "UCON___"@
}

/// The attribute name that `=>` stands for.
pub open spec fn is_name() -> Seq<char> {
    "is"@
}

/// Any outcome but `Done`, carried over to another type.
pub open spec fn fail<T, U>(o: Outcome<T>) -> Outcome<U> {
    match o {
        Outcome::Incomplete => Outcome::Incomplete,
        Outcome::Invalid => Outcome::Invalid,
        _ => Outcome::Error,
    }
}

/// A choice: the second alternative is tried only where the first is an error.
pub open spec fn alt<T>(first: Outcome<T>, second: Outcome<T>) -> Outcome<T> {
    if first is Error {
        second
    } else {
        first
    }
}

/// An input that ends early is an error.
pub open spec fn complete<T>(o: Outcome<T>) -> Outcome<T> {
    if o is Incomplete {
        Outcome::Error
    } else {
        o
    }
}

/// An optional part: an error reads nothing and gives `None`.
pub open spec fn opt<T>(o: Outcome<T>, i: int) -> Outcome<Option<T>> {
    match o {
        Outcome::Done(e, v) => Outcome::Done(e, Some(v)),
        Outcome::Error => Outcome::Done(i as nat, None),
        Outcome::Incomplete => Outcome::Incomplete,
        Outcome::Invalid => Outcome::Invalid,
    }
}

/// The position after the spaces at `i` (none may be there).
pub open spec fn spec_sp(s: Seq<u8>, i: int) -> int {
    run_end(s, ByteClass::Space, i)
}

/// One space or more.
pub open spec fn spec_multispace(s: Seq<u8>, i: int) -> Outcome<()> {
    if i < 0 || i >= s.len() {
        Outcome::Incomplete
    } else if run_end(s, ByteClass::Space, i) == i {
        Outcome::Error
    } else {
        Outcome::Done(run_end(s, ByteClass::Space, i) as nat, ())
    }
}

/// Optional spaces; only an input that has ended is incomplete.
pub open spec fn spec_opt_space(s: Seq<u8>, i: int) -> Outcome<()> {
    if i < 0 || i >= s.len() {
        Outcome::Incomplete
    } else {
        Outcome::Done(run_end(s, ByteClass::Space, i) as nat, ())
    }
}

/// The longest non-empty run of identifier bytes.
pub open spec fn spec_identifier(s: Seq<u8>, i: int) -> Outcome<Seq<u8>> {
    if i < 0 || i >= s.len() {
        Outcome::Incomplete
    } else if run_end(s, ByteClass::Identifier, i) == i {
        Outcome::Error
    } else {
        Outcome::Done(
            run_end(s, ByteClass::Identifier, i) as nat,
            s.subrange(i, run_end(s, ByteClass::Identifier, i)),
        )
    }
}

/// A symbol: an ASCII letter, then the longest run of identifier bytes.
pub open spec fn spec_symbol(s: Seq<u8>, i: int) -> Outcome<Seq<char>> {
    if i < 0 || i >= s.len() {
        Outcome::Incomplete
    } else if !is_alpha_byte(s[i]) {
        Outcome::Error
    } else {
        let e = run_end(s, ByteClass::Identifier, i);
        text_outcome(s, i, e, e)
    }
}

/// A string in double quotes, where a backslash escapes `"`, `n` or a
/// backslash; the text is the body as written.
pub open spec fn spec_standard_string(s: Seq<u8>, i: int) -> Outcome<Seq<char>> {
    if i < 0 || i >= s.len() {
        Outcome::Incomplete
    } else if s[i] != 0x22 {
        Outcome::Error
    } else {
        match scan_quoted(s, i + 1) {
            Outcome::Done(k, _) => if k >= s.len() {
                Outcome::Incomplete
            } else if s[k as int] != 0x22 {
                Outcome::Error
            } else {
                text_outcome(s, i + 1, k as int, k + 1int)
            },
            o => fail(o),
        }
    }
}

/// A raw string between `<'` and `'>`.
pub open spec fn spec_raw_string(s: Seq<u8>, i: int) -> Outcome<Seq<char>> {
    match spec_tag(s, i, raw_open()) {
        Outcome::Done(a, _) => match spec_take_until(s, a as int, raw_close()) {
            Outcome::Done(k, _) => match spec_tag(s, k as int, raw_close()) {
                Outcome::Done(e, _) => text_outcome(s, a as int, k as int, e as int),
                o => fail(o),
            },
            o => fail(o),
        },
        o => fail(o),
    }
}

/// A multiline string between two `"""`.
pub open spec fn spec_multiline_string(s: Seq<u8>, i: int) -> Outcome<Seq<char>> {
    match spec_tag(s, i, triple_quote()) {
        Outcome::Done(a, _) => match spec_take_until(s, a as int, triple_quote()) {
            Outcome::Done(k, _) => match spec_tag(s, k as int, triple_quote()) {
                Outcome::Done(e, _) => text_outcome(s, a as int, k as int, e as int),
                o => fail(o),
            },
            o => fail(o),
        },
        o => fail(o),
    }
}

/// A multiline string as a value.
#[verifier::opaque]
pub open spec fn spec_multiline_string_value(s: Seq<u8>, i: int) -> Outcome<ValueModel> {
    match spec_multiline_string(s, i) {
        Outcome::Done(e, t) => Outcome::Done(e, ValueModel::MultilineString(t)),
        o => fail(o),
    }
}

/// A string (quoted, else raw) as a value.
#[verifier::opaque]
pub open spec fn spec_string_value(s: Seq<u8>, i: int) -> Outcome<ValueModel> {
    match alt(spec_standard_string(s, i), spec_raw_string(s, i)) {
        Outcome::Done(e, t) => Outcome::Done(e, ValueModel::String(t)),
        o => fail(o),
    }
}

/// `'` and a symbol.
#[verifier::opaque]
pub open spec fn spec_symbol_value(s: Seq<u8>, i: int) -> Outcome<ValueModel> {
    match spec_tag(s, i, one(0x27)) {
        Outcome::Done(a, _) => match spec_symbol(s, a as int) {
            Outcome::Done(e, t) => Outcome::Done(e, ValueModel::Symbol(t)),
            o => fail(o),
        },
        o => fail(o),
    }
}

/// `@`, optional spaces and a symbol: the symbol named.
pub open spec fn spec_ref_name(s: Seq<u8>, i: int) -> Outcome<Seq<char>> {
    match spec_tag(s, i, one(0x40)) {
        Outcome::Done(a, _) => match spec_opt_space(s, a as int) {
            Outcome::Done(b, _) => spec_symbol(s, b as int),
            o => fail(o),
        },
        o => fail(o),
    }
}

/// A reference to a bound name.
#[verifier::opaque]
pub open spec fn spec_ref_value(s: Seq<u8>, i: int) -> Outcome<ValueModel> {
    match spec_ref_name(s, i) {
        Outcome::Done(e, t) => Outcome::Done(e, ValueModel::Ref(t)),
        o => fail(o),
    }
}

/// `=`, optional spaces, a symbol and spaces: the name an assertion is bound to.
pub open spec fn spec_binding(s: Seq<u8>, i: int) -> Outcome<Seq<char>> {
    match spec_tag(s, i, one(0x3d)) {
        Outcome::Done(a, _) => match spec_opt_space(s, a as int) {
            Outcome::Done(b, _) => match spec_symbol(s, b as int) {
                Outcome::Done(n, name) => match spec_multispace(s, n as int) {
                    Outcome::Done(e, _) => Outcome::Done(e, name),
                    o => fail(o),
                },
                o => fail(o),
            },
            o => fail(o),
        },
        o => fail(o),
    }
}

/// Where the primitive rules end.
pub proof fn lemma_primitive_bounds(s: Seq<u8>, i: int)
    ensures
        i <= spec_sp(s, i),
        0 <= i <= s.len() ==> spec_sp(s, i) <= s.len(),
        spec_multispace(s, i) matches Outcome::Done(e, _) ==> i < e <= s.len(),
        spec_opt_space(s, i) matches Outcome::Done(e, _) ==> i <= e <= s.len(),
        spec_identifier(s, i) matches Outcome::Done(e, _) ==> i < e <= s.len(),
        spec_symbol(s, i) matches Outcome::Done(e, _) ==> i < e <= s.len(),
        spec_binding(s, i) matches Outcome::Done(e, _) ==> i < e <= s.len(),
        spec_ref_name(s, i) matches Outcome::Done(e, _) ==> i < e <= s.len(),
        forall|t: Seq<u8>| #[trigger]
            spec_tag(s, i, t) matches Outcome::Done(e, _) ==> e == i + t.len() <= s.len(),
{
    if i < 0 || i > s.len() {
        return;
    }
    lemma_run_end(s, ByteClass::Space, i);
    lemma_run_end(s, ByteClass::Identifier, i);
    if i < s.len() && is_alpha_byte(s[i]) {
        assert(crate::lexer::in_class(&ByteClass::Identifier, s[i]));
    }
    if spec_tag(s, i, one(0x3d)) is Done {
        lemma_run_end(s, ByteClass::Space, i + 1);
        let b = run_end(s, ByteClass::Space, i + 1);
        if i + 1 < s.len() {
            lemma_run_end(s, ByteClass::Identifier, b);
            if b < s.len() && is_alpha_byte(s[b]) {
                assert(crate::lexer::in_class(&ByteClass::Identifier, s[b]));
                let n = run_end(s, ByteClass::Identifier, b);
                lemma_run_end(s, ByteClass::Space, n);
            }
        }
    }
    if spec_tag(s, i, one(0x40)) is Done {
        lemma_run_end(s, ByteClass::Space, i + 1);
        let b = run_end(s, ByteClass::Space, i + 1);
        if i + 1 < s.len() {
            lemma_run_end(s, ByteClass::Identifier, b);
            if b < s.len() && is_alpha_byte(s[b]) {
                assert(crate::lexer::in_class(&ByteClass::Identifier, s[b]));
            }
        }
    }
}


/// A value: the first of the alternatives below that reads one.
pub open spec fn spec_value(s: Seq<u8>, i: int) -> Outcome<ValueModel>
    decreases s.len() - i, 10int,
{
    alt(
        complete(spec_multi_value(s, i)),
        alt(
            complete(spec_muted_value(s, i)),
            alt(
                complete(spec_assignment_value(s, i)),
                alt(
                    complete(spec_ref_value(s, i)),
                    alt(
                        complete(spec_assertion_value(s, i)),
                        alt(
                            complete(spec_symbol_value(s, i)),
                            alt(
                                complete(spec_multiline_string_value(s, i)),
                                complete(spec_string_value(s, i)),
                            ),
                        ),
                    ),
                ),
            ),
        ),
    )
}

/// `[`, the values of a list, `]`, with spaces anywhere around them.
pub open spec fn spec_multi_value(s: Seq<u8>, i: int) -> Outcome<ValueModel>
    decreases s.len() - i, 9int,
{
    let a = spec_sp(s, i);
    match spec_tag(s, a, one(0x5b)) {
        Outcome::Done(b, _) => {
            let c = spec_sp(s, b as int);
            proof {
                lemma_primitive_bounds(s, i);
                lemma_primitive_bounds(s, a);
                lemma_primitive_bounds(s, b as int);
            }
            match spec_value_items(s, c) {
                Outcome::Done(k, vals) => {
                    let d = spec_sp(s, k as int);
                    match spec_tag(s, d, one(0x5d)) {
                        Outcome::Done(e, _) => Outcome::Done(
                            spec_sp(s, e as int) as nat,
                            ValueModel::Multi(vals),
                        ),
                        o => fail(o),
                    }
                },
                o => fail(o),
            }
        },
        o => fail(o),
    }
}

/// The values of a list, each with the spaces around it; the list stops
/// before the first place where no value can be read.
pub open spec fn spec_value_items(s: Seq<u8>, i: int) -> Outcome<Seq<ValueModel>>
    decreases s.len() - i, 11int,
{
    if i >= s.len() {
        Outcome::Done(i as nat, Seq::empty())
    } else {
        let a = spec_sp(s, i);
        proof {
            lemma_primitive_bounds(s, i);
        }
        match spec_value(s, a) {
            Outcome::Done(n, v) => {
                let c = spec_sp(s, n as int);
                if !(i < c <= s.len()) {
                    Outcome::Error
                } else {
                    match spec_value_items(s, c) {
                        Outcome::Done(e, rest) => Outcome::Done(e, seq![v] + rest),
                        o => fail(o),
                    }
                }
            },
            Outcome::Error => Outcome::Done(i as nat, Seq::empty()),
            o => fail(o),
        }
    }
}

/// `|`, optional spaces and a value whose result is dropped.
pub open spec fn spec_muted_value(s: Seq<u8>, i: int) -> Outcome<ValueModel>
    decreases s.len() - i, 9int,
{
    match spec_tag(s, i, one(0x7c)) {
        Outcome::Done(a, _) => match spec_opt_space(s, a as int) {
            Outcome::Done(b, _) => {
                proof {
                    lemma_primitive_bounds(s, i);
                    lemma_primitive_bounds(s, a as int);
                }
                match spec_value(s, b as int) {
                    Outcome::Done(e, v) => Outcome::Done(e, ValueModel::Muted(Box::new(v))),
                    o => fail(o),
                }
            },
            o => fail(o),
        },
        o => fail(o),
    }
}

/// `=`, optional spaces, a name, spaces, a value bound to the name and the
/// value in whose scope the binding holds.
pub open spec fn spec_assignment_value(s: Seq<u8>, i: int) -> Outcome<ValueModel>
    decreases s.len() - i, 9int,
{
    match spec_tag(s, i, one(0x3d)) {
        Outcome::Done(a, _) => match spec_opt_space(s, a as int) {
            Outcome::Done(b, _) => match spec_symbol(s, b as int) {
                Outcome::Done(n, name) => match spec_multispace(s, n as int) {
                    Outcome::Done(m, _) => {
                        proof {
                            lemma_primitive_bounds(s, i);
                            lemma_primitive_bounds(s, a as int);
                            lemma_primitive_bounds(s, b as int);
                            lemma_primitive_bounds(s, n as int);
                        }
                        match spec_value(s, m as int) {
                            Outcome::Done(p, bound) => if !(m <= p <= s.len()) {
                                Outcome::Error
                            } else {
                                match spec_value(s, p as int) {
                                    Outcome::Done(e, scope) => Outcome::Done(
                                        e,
                                        ValueModel::Assignment(
                                            name,
                                            Box::new(bound),
                                            Box::new(scope),
                                        ),
                                    ),
                                    o => fail(o),
                                }
                            },
                            o => fail(o),
                        }
                    },
                    o => fail(o),
                },
                o => fail(o),
            },
            o => fail(o),
        },
        o => fail(o),
    }
}

/// An assertion or a duplication, as a value.
pub open spec fn spec_assertion_value(s: Seq<u8>, i: int) -> Outcome<ValueModel>
    decreases s.len() - i, 9int,
{
    match alt(spec_assertion(s, i), spec_duplication(s, i)) {
        Outcome::Done(e, a) => Outcome::Done(e, ValueModel::Assertion(Box::new(a))),
        o => fail(o),
    }
}

/// An assertion: an optional binding, the class, spaces and the attributes.
pub open spec fn spec_assertion(s: Seq<u8>, i: int) -> Outcome<AssertionModel>
    decreases s.len() - i, 8int,
{
    match opt(spec_binding(s, i), i) {
        Outcome::Done(a, bind) => match spec_symbol(s, a as int) {
            Outcome::Done(n, class) => match spec_multispace(s, n as int) {
                Outcome::Done(m, _) => {
                    proof {
                        lemma_primitive_bounds(s, i);
                        lemma_primitive_bounds(s, a as int);
                        lemma_primitive_bounds(s, n as int);
                    }
                    match spec_attr_items(s, m as int) {
                        Outcome::Done(e, attrs) => Outcome::Done(
                            e,
                            AssertionModel { mode: ModeModel::Assert(bind), class, attrs },
                        ),
                        o => fail(o),
                    }
                },
                o => fail(o),
            },
            o => fail(o),
        },
        o => fail(o),
    }
}

/// A duplication: `+`, optional spaces, an optional `@` and the class, and
/// the attributes.
pub open spec fn spec_duplication(s: Seq<u8>, i: int) -> Outcome<AssertionModel>
    decreases s.len() - i, 8int,
{
    match spec_tag(s, i, one(0x2b)) {
        Outcome::Done(a, _) => match spec_opt_space(s, a as int) {
            Outcome::Done(b, _) => match opt(spec_ref_name(s, b as int), b as int) {
                Outcome::Done(c, name) => {
                    proof {
                        lemma_primitive_bounds(s, i);
                        lemma_primitive_bounds(s, a as int);
                        lemma_primitive_bounds(s, b as int);
                    }
                    match spec_attr_items(s, c as int) {
                        Outcome::Done(e, attrs) => Outcome::Done(
                            e,
                            AssertionModel {
                                mode: ModeModel::Duplicate,
                                class: match name {
                                    Some(t) => t,
                                    None => default_class(),
                                },
                                attrs,
                            },
                        ),
                        o => fail(o),
                    }
                },
                o => fail(o),
            },
            o => fail(o),
        },
        o => fail(o),
    }
}

/// The attributes of an assertion, each with the spaces around it; they stop
/// before the first place where no attribute can be read.
pub open spec fn spec_attr_items(s: Seq<u8>, i: int) -> Outcome<Seq<(Seq<char>, ValueModel)>>
    decreases s.len() - i, 7int,
{
    if i >= s.len() {
        Outcome::Done(i as nat, Seq::empty())
    } else {
        let a = spec_sp(s, i);
        proof {
            lemma_primitive_bounds(s, i);
        }
        match alt(complete(spec_attribute(s, a)), complete(spec_is_shortcut(s, a))) {
            Outcome::Done(n, kv) => {
                let c = spec_sp(s, n as int);
                if !(i < c <= s.len()) {
                    Outcome::Error
                } else {
                    match spec_attr_items(s, c) {
                        Outcome::Done(e, rest) => Outcome::Done(e, seq![kv] + rest),
                        o => fail(o),
                    }
                }
            },
            Outcome::Error => Outcome::Done(i as nat, Seq::empty()),
            o => fail(o),
        }
    }
}

/// An attribute: a name, `:`, optional spaces and a value.
pub open spec fn spec_attribute(s: Seq<u8>, i: int) -> Outcome<(Seq<char>, ValueModel)>
    decreases s.len() - i, 6int,
{
    match spec_symbol(s, i) {
        Outcome::Done(n, name) => match spec_tag(s, n as int, one(0x3a)) {
            Outcome::Done(a, _) => match spec_opt_space(s, a as int) {
                Outcome::Done(b, _) => {
                    proof {
                        lemma_primitive_bounds(s, i);
                        lemma_primitive_bounds(s, n as int);
                        lemma_primitive_bounds(s, a as int);
                    }
                    match spec_value(s, b as int) {
                        Outcome::Done(e, v) => Outcome::Done(e, (name, v)),
                        o => fail(o),
                    }
                },
                o => fail(o),
            },
            o => fail(o),
        },
        o => fail(o),
    }
}

/// `=>`, optional spaces and a value: an `is` attribute.
pub open spec fn spec_is_shortcut(s: Seq<u8>, i: int) -> Outcome<(Seq<char>, ValueModel)>
    decreases s.len() - i, 6int,
{
    match spec_tag(s, i, arrow()) {
        Outcome::Done(a, _) => match spec_opt_space(s, a as int) {
            Outcome::Done(b, _) => {
                proof {
                    lemma_primitive_bounds(s, i);
                    lemma_primitive_bounds(s, a as int);
                }
                match spec_value(s, b as int) {
                    Outcome::Done(e, v) => Outcome::Done(e, (is_name(), v)),
                    o => fail(o),
                }
            },
            o => fail(o),
        },
        o => fail(o),
    }
}

/// The assertions and duplications of a document, each with the spaces
/// around it; they stop before the first place where none can be read.
pub open spec fn spec_document_items(s: Seq<u8>, i: int) -> Outcome<Seq<AssertionModel>>
    decreases s.len() - i,
{
    if i >= s.len() {
        Outcome::Done(i as nat, Seq::empty())
    } else {
        let a = spec_sp(s, i);
        match alt(spec_assertion(s, a), spec_duplication(s, a)) {
            Outcome::Done(n, x) => {
                let c = spec_sp(s, n as int);
                if !(i < c <= s.len()) {
                    Outcome::Error
                } else {
                    match spec_document_items(s, c) {
                        Outcome::Done(e, rest) => Outcome::Done(e, seq![x] + rest),
                        o => fail(o),
                    }
                }
            },
            Outcome::Error => Outcome::Done(i as nat, Seq::empty()),
            o => fail(o),
        }
    }
}

/// A whole document: its assertions, read from the start.
pub open spec fn spec_document(s: Seq<u8>) -> Outcome<Seq<AssertionModel>> {
    spec_document_items(s, 0)
}

} // verus!
