use teko::form::{serialize_forms, Form};
use teko::parser::parse_string;

fn cs(s: &str) -> Vec<char> {
    s.chars().collect()
}

fn atom(s: &str) -> Form {
    Form::Atom(s.chars().collect())
}

fn text(v: &[char]) -> String {
    v.iter().collect()
}

fn without_spaces(s: &str) -> String {
    let mut out = String::new();
    for c in s.chars() {
        if !c.is_whitespace() {
            out.push(c);
        }
    }
    out
}

#[test]
fn serialize_single_atom() {
    let out = serialize_forms(&vec![atom("x")]);
    assert_eq!(text(&out), "x ");
}

#[test]
fn serialize_nested_list() {
    let forms = vec![Form::List(vec![atom("a"), Form::List(vec![atom("b")]), atom("c")])];
    let out = serialize_forms(&forms);
    assert_eq!(text(&out), "(a (b ) c ) ");
}

#[test]
fn serialize_empty_list() {
    let out = serialize_forms(&vec![Form::List(Vec::new())]);
    assert_eq!(text(&out), "() ");
}

#[test]
fn round_trip_reproduces_tree() {
    let input = "(+ 1 (* 2 3)) (define x 4)";
    let forms = parse_string(&cs(input)).unwrap();
    let serialized = serialize_forms(&forms);
    let reparsed = parse_string(&serialized).unwrap();
    assert_eq!(forms, reparsed);
    assert_eq!(without_spaces(input), without_spaces(&text(&serialized)));
}

#[test]
fn round_trip_deeply_nested() {
    let input = "(a (b (c (d))))";
    let forms = parse_string(&cs(input)).unwrap();
    let serialized = serialize_forms(&forms);
    let reparsed = parse_string(&serialized).unwrap();
    assert_eq!(forms, reparsed);
}
