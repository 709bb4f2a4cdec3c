use teko::driver::{install_environment, new_session, primary_prompt, repl_step, ReplEvent, TurnOutcome};
use teko::form::Form;
use teko::position::Position;
use teko::state::ParseError;

fn cs(s: &str) -> Vec<char> {
    s.chars().collect()
}

fn atom(s: &str) -> Form {
    Form::Atom(s.chars().collect())
}

#[test]
fn one_line_one_evaluation() {
    let repl = new_session(0u32);
    let (repl, outs) = repl_step(repl, ReplEvent::Line(cs("(+ 1 2)")));
    assert_eq!(outs.len(), 1);
    match &outs[0] {
        TurnOutcome::Completed(forms) => {
            assert_eq!(forms, &vec![Form::List(vec![atom("+"), atom("1"), atom("2")])]);
        }
        other => panic!("unexpected outcome {:?}", other),
    }
    assert!(primary_prompt(&repl));
}

#[test]
fn two_line_form_completes_once() {
    let repl = new_session(0u32);
    let (repl, outs) = repl_step(repl, ReplEvent::Line(cs("(+ 1")));
    assert_eq!(outs.len(), 1);
    assert!(matches!(outs[0], TurnOutcome::Pending));
    assert!(!primary_prompt(&repl));
    let (repl, outs) = repl_step(repl, ReplEvent::Line(cs(" 2)")));
    assert_eq!(outs.len(), 1);
    match &outs[0] {
        TurnOutcome::Completed(forms) => {
            assert_eq!(forms, &vec![Form::List(vec![atom("+"), atom("1"), atom("2")])]);
        }
        other => panic!("unexpected outcome {:?}", other),
    }
    assert!(primary_prompt(&repl));
}

#[test]
fn lone_close_fails_and_session_recovers() {
    let repl = new_session(0u32);
    let (repl, outs) = repl_step(repl, ReplEvent::Line(cs(")")));
    assert_eq!(outs.len(), 1);
    match &outs[0] {
        TurnOutcome::Failed(ParseError::UnmatchedClosingDelimiter(p)) => {
            assert_eq!(*p, Position { line: 1, column: 1 });
        }
        other => panic!("unexpected outcome {:?}", other),
    }
    assert!(primary_prompt(&repl));
    let (_, outs) = repl_step(repl, ReplEvent::Line(cs("(a)")));
    assert_eq!(outs.len(), 1);
    assert!(matches!(outs[0], TurnOutcome::Completed(_)));
}

#[test]
fn interrupt_discards_read_and_keeps_environment() {
    let repl = new_session(41u32);
    let (repl, outs) = repl_step(repl, ReplEvent::Line(cs("(partial junk")));
    assert_eq!(outs.len(), 1);
    assert!(matches!(outs[0], TurnOutcome::Pending));
    let (repl, outs) = repl_step(repl, ReplEvent::Interrupted);
    assert!(outs.is_empty());
    assert_eq!(repl.env, 41);
    assert!(primary_prompt(&repl));
    let (repl, outs) = repl_step(repl, ReplEvent::Line(cs("(+ 1 2)")));
    assert_eq!(outs.len(), 1);
    match &outs[0] {
        TurnOutcome::Completed(forms) => {
            assert_eq!(forms, &vec![Form::List(vec![atom("+"), atom("1"), atom("2")])]);
        }
        other => panic!("unexpected outcome {:?}", other),
    }
    assert_eq!(repl.env, 41);
}

#[test]
fn evaluation_replaces_environment() {
    let repl = new_session(1u32);
    let repl = install_environment(repl, 2u32);
    assert_eq!(repl.env, 2);
    assert!(!repl.finished);
}

#[test]
fn end_of_input_finishes_session() {
    let repl = new_session(0u32);
    let (repl, outs) = repl_step(repl, ReplEvent::EndOfInput);
    assert!(outs.is_empty());
    assert!(repl.finished);
}

#[test]
fn several_forms_on_one_line() {
    let repl = new_session(0u32);
    let (_, outs) = repl_step(repl, ReplEvent::Line(cs("(a) (b)")));
    assert_eq!(outs.len(), 2);
    match (&outs[0], &outs[1]) {
        (TurnOutcome::Completed(a), TurnOutcome::Completed(b)) => {
            assert_eq!(a, &vec![Form::List(vec![atom("a")])]);
            assert_eq!(b, &vec![Form::List(vec![atom("b")])]);
        }
        other => panic!("unexpected outcomes {:?}", other),
    }
}

#[test]
fn error_discards_rest_of_line() {
    let repl = new_session(0u32);
    let (_, outs) = repl_step(repl, ReplEvent::Line(cs(") (a)")));
    assert_eq!(outs.len(), 1);
    assert!(matches!(outs[0], TurnOutcome::Failed(_)));
}

#[test]
fn positions_continue_across_lines() {
    let repl = new_session(0u32);
    let (repl, _) = repl_step(repl, ReplEvent::Line(cs("(+ 1")));
    let (repl, _) = repl_step(repl, ReplEvent::Line(cs(" 2)")));
    let (_, outs) = repl_step(repl, ReplEvent::Line(cs(")")));
    assert_eq!(outs.len(), 1);
    match &outs[0] {
        TurnOutcome::Failed(ParseError::UnmatchedClosingDelimiter(p)) => {
            assert_eq!(*p, Position { line: 3, column: 1 });
        }
        other => panic!("unexpected outcome {:?}", other),
    }
}

#[test]
fn empty_line_changes_nothing() {
    let repl = new_session(0u32);
    let (repl, outs) = repl_step(repl, ReplEvent::Line(cs("")));
    assert!(outs.is_empty());
    assert!(primary_prompt(&repl));
}
