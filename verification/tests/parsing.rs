use teko::form::Form;
use teko::parser::{finish_parsing_characters, is_ready_to_finish, parse_character, parse_string};
use teko::position::Position;
use teko::state::{ParseError, ParseState, SourceTag};

fn cs(s: &str) -> Vec<char> {
    s.chars().collect()
}

fn atom(s: &str) -> Form {
    Form::Atom(s.chars().collect())
}

fn feed_all(state: &mut ParseState, s: &str) -> Result<(), ParseError> {
    let mut r = Ok(());
    for c in s.chars() {
        r = parse_character(c, state);
        if r.is_err() {
            return r;
        }
    }
    r
}

#[test]
fn ready_exactly_after_closing_delimiter() {
    let mut state = ParseState::new(SourceTag::Interactive);
    let text = "(+ 1 2)";
    let chars: Vec<char> = cs(text);
    for (i, c) in chars.iter().enumerate() {
        assert!(!is_ready_to_finish(&state));
        parse_character(*c, &mut state).unwrap();
        if i + 1 < chars.len() {
            assert!(!is_ready_to_finish(&state));
        }
    }
    assert!(is_ready_to_finish(&state));
    parse_character('\n', &mut state).unwrap();
    assert!(is_ready_to_finish(&state));
}

#[test]
fn atom_ready_only_after_terminator() {
    let mut state = ParseState::new(SourceTag::Interactive);
    for c in "abc".chars() {
        parse_character(c, &mut state).unwrap();
        assert!(!is_ready_to_finish(&state));
    }
    parse_character('\n', &mut state).unwrap();
    assert!(is_ready_to_finish(&state));
    let forms = finish_parsing_characters(state).unwrap();
    assert_eq!(forms, vec![atom("abc")]);
}

#[test]
fn excess_close_fails_at_its_own_column() {
    let mut state = ParseState::new(SourceTag::Interactive);
    feed_all(&mut state, "(a)").unwrap();
    let err = parse_character(')', &mut state).unwrap_err();
    match err {
        ParseError::UnmatchedClosingDelimiter(p) => {
            assert_eq!(p, Position { line: 1, column: 4 });
        }
        other => panic!("unexpected error {:?}", other),
    }
}

#[test]
fn excess_close_after_newline_counts_lines() {
    let r = parse_string(&cs("(\na))"));
    match r {
        Err(ParseError::UnmatchedClosingDelimiter(p)) => {
            assert_eq!(p, Position { line: 2, column: 3 });
        }
        other => panic!("unexpected result {:?}", other),
    }
}

#[test]
fn errored_state_is_terminal() {
    let mut state = ParseState::new(SourceTag::Interactive);
    let first = parse_character(')', &mut state).unwrap_err();
    let again = parse_character('a', &mut state).unwrap_err();
    assert_eq!(first, again);
}

#[test]
fn parse_string_single_form() {
    let forms = parse_string(&cs("(+ 1 2)")).unwrap();
    assert_eq!(forms, vec![Form::List(vec![atom("+"), atom("1"), atom("2")])]);
}

#[test]
fn parse_string_nested_and_multiple() {
    let forms = parse_string(&cs("(a) b (c (d e))")).unwrap();
    assert_eq!(
        forms,
        vec![
            Form::List(vec![atom("a")]),
            atom("b"),
            Form::List(vec![atom("c"), Form::List(vec![atom("d"), atom("e")])]),
        ]
    );
}

#[test]
fn parse_string_empty_input() {
    let forms = parse_string(&cs("")).unwrap();
    assert_eq!(forms, Vec::new());
}

#[test]
fn parse_string_unmatched_close() {
    let r = parse_string(&cs(")"));
    match r {
        Err(ParseError::UnmatchedClosingDelimiter(p)) => {
            assert_eq!(p, Position { line: 1, column: 1 });
        }
        other => panic!("unexpected result {:?}", other),
    }
}

#[test]
fn parse_string_unterminated_reports_every_open() {
    let r = parse_string(&cs("((a"));
    match r {
        Err(ParseError::UnterminatedOpenDelimiters(ps)) => {
            assert_eq!(
                ps,
                vec![Position { line: 1, column: 1 }, Position { line: 1, column: 2 }]
            );
        }
        other => panic!("unexpected result {:?}", other),
    }
}

#[test]
fn finish_hands_back_unfinished_state() {
    let mut state = ParseState::new(SourceTag::Interactive);
    feed_all(&mut state, "(a").unwrap();
    assert!(!is_ready_to_finish(&state));
    let state = finish_parsing_characters(state).unwrap_err();
    assert_eq!(state.stack.len(), 2);
    assert_eq!(state.unmatched_opens, vec![Position { line: 1, column: 1 }]);
}

#[test]
fn reset_leaves_no_residue() {
    let mut state = ParseState::new(SourceTag::Interactive);
    feed_all(&mut state, "(((junk \"").unwrap();
    state.reset();
    assert!(state.is_empty());
    feed_all(&mut state, "(x y)").unwrap();
    assert!(is_ready_to_finish(&state));
    let recovered = finish_parsing_characters(state).unwrap();
    let fresh = parse_string(&cs("(x y)")).unwrap();
    assert_eq!(recovered, fresh);
}

#[test]
fn whitespace_never_errors() {
    let mut state = ParseState::new(SourceTag::Interactive);
    feed_all(&mut state, " \t\r\n  \n").unwrap();
    assert!(state.is_empty());
    assert!(!is_ready_to_finish(&state));
}
