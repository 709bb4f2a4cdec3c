use vstd::prelude::*;

use crate::form::{models, Form, FormModel};
use crate::parser::{
    finish_parsing_characters, is_ready_to_finish, parse_character, pstep, ready_model,
};
use crate::position::{sat_inc, Position};
use crate::state::{blank_model, fresh_model, ParseError, ParseState, SourceTag, StateModel};

verus! {

/// One observable outcome of feeding a line to the session: a completed
/// top-level batch ready for evaluation, a form still open awaiting more
/// input, or a syntax error that discarded the read.
#[derive(Debug)]
pub enum TurnOutcome {
    Completed(Vec<Form>),
    Pending,
    Failed(ParseError),
}

/// The mathematical value of a `TurnOutcome`. A failure carries the
/// position of the unmatched closing delimiter that provoked it.
pub enum OutcomeModel {
    Completed(Seq<FormModel>),
    Pending,
    Failed(Position),
}

pub open spec fn outcome_model(o: TurnOutcome) -> OutcomeModel {
    match o {
        TurnOutcome::Completed(forms) => OutcomeModel::Completed(models(forms@)),
        TurnOutcome::Pending => OutcomeModel::Pending,
        TurnOutcome::Failed(ParseError::UnmatchedClosingDelimiter(p)) => OutcomeModel::Failed(p),
        TurnOutcome::Failed(ParseError::UnterminatedOpenDelimiters(_)) => OutcomeModel::Failed(
            arbitrary(),
        ),
    }
}

pub open spec fn outcomes_model(v: Seq<TurnOutcome>) -> Seq<OutcomeModel> {
    Seq::new(v.len(), |i: int| outcome_model(v[i]))
}

/// Only the character-level error can ever sit inside a `Failed` outcome.
pub open spec fn wf_outcomes(v: Seq<TurnOutcome>) -> bool {
    forall|j: int|
        0 <= j < v.len() ==> !(#[trigger] v[j] matches TurnOutcome::Failed(
            ParseError::UnterminatedOpenDelimiters(_),
        ))
}

/// What one line does to the session, in order: every character is fed, a
/// completed form is handed out and the accumulator replaced by a fresh one
/// at the current position, a syntax error hands out a failure and discards
/// the rest of the line, and the synthetic terminating newline at the end
/// forces a trailing atom to flush. The final outcome, if any, says how the
/// turn ended: completed, failed, or pending with a form still open.
pub open spec fn line_model(m: StateModel, cs: Seq<char>) -> (StateModel, Seq<OutcomeModel>)
    decreases cs.len(),
{
    if cs.len() == 0 {
        let m1 = pstep(m, '\n');
        if ready_model(m1) {
            (fresh_model(m1.tag, m1.pos), seq![OutcomeModel::Completed(m1.stack[0])])
        } else if blank_model(m1) {
            (m1, Seq::empty())
        } else {
            (m1, seq![OutcomeModel::Pending])
        }
    } else {
        let m1 = pstep(m, cs.first());
        if m1.err is Some {
            (
                fresh_model(m1.tag, Position { line: sat_inc(m1.pos.line), column: 1 }),
                seq![OutcomeModel::Failed(m1.err->0)],
            )
        } else if ready_model(m1) {
            let r = line_model(fresh_model(m1.tag, m1.pos), cs.drop_first());
            (r.0, seq![OutcomeModel::Completed(m1.stack[0])] + r.1)
        } else {
            line_model(m1, cs.drop_first())
        }
    }
}

/// An interactive session: the accumulator for the read in progress, the
/// persistent evaluation environment threaded across turns (owned by the
/// external evaluator and opaque to this layer), and whether end-of-input
/// has been seen.
pub struct Repl<E> {
    pub parser: ParseState,
    pub env: E,
    pub finished: bool,
}

/// What the surroundings hand the session after each blocking line read.
#[derive(Debug)]
pub enum ReplEvent {
    /// One physical line, without its terminating newline.
    Line(Vec<char>),
    /// The user interrupted the read.
    Interrupted,
    /// End of input: the session is over.
    EndOfInput,
    /// The line reader failed for some other reason; treated as fatal.
    ReadFailed,
}

/// A session about to take its first turn.
pub fn new_session<E>(env: E) -> (r: Repl<E>)
    ensures
        r.parser@ == fresh_model(SourceTag::Interactive, Position::origin()),
        r.parser.wf(),
        r.env == env,
        !r.finished,
{
    Repl { parser: ParseState::new(SourceTag::Interactive), env, finished: false }
}

/// One turn of the interactive state machine. A line is fed through
/// `process_line`; an interrupt discards the read in progress wholesale and
/// touches nothing else, so prior bindings and results survive; end of input
/// or a failed read finishes the session. The environment is never changed
/// here: only `install_environment` replaces it, with whatever the external
/// evaluator returned.
pub fn repl_step<E>(repl: Repl<E>, event: ReplEvent) -> (r: (Repl<E>, Vec<TurnOutcome>))
    requires
        repl.parser.wf(),
    ensures
        r.0.parser.wf(),
        r.0.env == repl.env,
        wf_outcomes(r.1@),
        event matches ReplEvent::Line(cs) ==> r.0.finished == repl.finished && (
        r.0.parser@,
        outcomes_model(r.1@),
        ) == line_model(repl.parser@, cs@),
        event is Interrupted ==> r.0.finished == repl.finished && r.0.parser@ == fresh_model(
            repl.parser@.tag,
            repl.parser@.pos,
        ) && r.1@.len() == 0,
        event is EndOfInput || event is ReadFailed ==> r.0.finished && r.0.parser == repl.parser
            && r.1@.len() == 0,
{
    let Repl { parser, env, finished } = repl;
    match event {
        ReplEvent::Line(cs) => {
            let (parser, outs) = process_line(parser, &cs);
            (Repl { parser, env, finished }, outs)
        }
        ReplEvent::Interrupted => {
            let mut parser = parser;
            parser.reset();
            (Repl { parser, env, finished }, Vec::new())
        }
        ReplEvent::EndOfInput | ReplEvent::ReadFailed => {
            (Repl { parser, env, finished: true }, Vec::new())
        }
    }
}

/// Replace the session environment with the one the external evaluator
/// returned for the last completed batch. Nothing else changes.
pub fn install_environment<E>(repl: Repl<E>, env: E) -> (r: Repl<E>)
    ensures
        r.env == env,
        r.parser == repl.parser,
        r.finished == repl.finished,
{
    Repl { parser: repl.parser, env, finished: repl.finished }
}

/// Whether the session should show its primary prompt (a fresh read) rather
/// than the continuation prompt of a form still open mid multi-line input.
pub fn primary_prompt<E>(repl: &Repl<E>) -> (r: bool)
    requires
        repl.parser.wf(),
    ensures
        r == blank_model(repl.parser@),
{
    repl.parser.is_empty()
}

/// Feed one physical line to the accumulator, followed by one synthetic
/// terminating whitespace character, and hand back the new accumulator and
/// the outcomes of the turn, in order.
pub fn process_line(state: ParseState, line: &Vec<char>) -> (r: (ParseState, Vec<TurnOutcome>))
    requires
        state.wf(),
    ensures
        r.0.wf(),
        wf_outcomes(r.1@),
        (r.0@, outcomes_model(r.1@)) == line_model(state@, line@),
{
    let ghost target = line_model(state@, line@);
    let mut st = state;
    let mut outs: Vec<TurnOutcome> = Vec::new();
    let mut i: usize = 0;
    proof {
        assert(line@.skip(0) =~= line@);
        assert(outcomes_model(outs@) =~= Seq::<OutcomeModel>::empty());
        assert(outcomes_model(outs@) + target.1 =~= target.1);
    }
    while i < line.len()
        invariant
            i <= line.len(),
            st.wf(),
            wf_outcomes(outs@),
            target == line_model(state@, line@),
            ({
                let rest = line_model(st@, line@.skip(i as int));
                target == (rest.0, outcomes_model(outs@) + rest.1)
            }),
        decreases line.len() - i,
    {
        let ghost cs = line@.skip(i as int);
        proof {
            assert(cs.first() == line@[i as int]);
            assert(cs.drop_first() =~= line@.skip(i + 1));
        }
        match parse_character(line[i], &mut st) {
            Err(e) => {
                let ghost m1 = st@;
                let ghost prev = outs@;
                outs.push(TurnOutcome::Failed(e));
                let next = st.position.advance('\n');
                let fresh = ParseState::new_at(st.source_tag, next);
                proof {
                    let p = m1.err->0;
                    assert(outcomes_model(outs@) =~= outcomes_model(prev) + seq![
                        OutcomeModel::Failed(p),
                    ]);
                    assert((fresh@, outcomes_model(outs@)) == target);
                }
                return (fresh, outs);
            }
            Ok(()) => {
                if is_ready_to_finish(&st) {
                    let ghost m1 = st@;
                    let tag = st.source_tag;
                    let p = st.position;
                    let forms = match finish_parsing_characters(st) {
                        Ok(forms) => forms,
                        Err(_) => {
                            proof {
                                assert(false);
                            }
                            unreached()
                        }
                    };
                    let ghost prev = outs@;
                    outs.push(TurnOutcome::Completed(forms));
                    st = ParseState::new_at(tag, p);
                    proof {
                        assert(outcomes_model(outs@) =~= outcomes_model(prev) + seq![
                            OutcomeModel::Completed(m1.stack[0]),
                        ]);
                        let rest = line_model(st@, line@.skip(i + 1));
                        assert(outcomes_model(outs@) + rest.1 =~= outcomes_model(prev) + (
                        seq![OutcomeModel::Completed(m1.stack[0])] + rest.1));
                    }
                }
            }
        }
        i += 1;
    }
    let ghost mpre = st@;
    proof {
        assert(line@.skip(line.len() as int) =~= Seq::<char>::empty());
        assert(({
            let rest = line_model(mpre, Seq::<char>::empty());
            target == (rest.0, outcomes_model(outs@) + rest.1)
        }));
    }
    let _ = parse_character('\n', &mut st);
    let ghost m1 = st@;
    if is_ready_to_finish(&st) {
        let tag = st.source_tag;
        let p = st.position;
        let forms = match finish_parsing_characters(st) {
            Ok(forms) => forms,
            Err(_) => {
                proof {
                    assert(false);
                }
                unreached()
            }
        };
        let ghost prev = outs@;
        outs.push(TurnOutcome::Completed(forms));
        let fresh = ParseState::new_at(tag, p);
        proof {
            assert(outcomes_model(outs@) =~= outcomes_model(prev) + seq![
                OutcomeModel::Completed(m1.stack[0]),
            ]);
            assert((fresh@, outcomes_model(outs@)) == target);
        }
        return (fresh, outs);
    } else {
        if !st.is_empty() {
            let ghost prev = outs@;
            outs.push(TurnOutcome::Pending);
            proof {
                assert(outcomes_model(outs@) =~= outcomes_model(prev) + seq![
                    OutcomeModel::Pending,
                ]);
                assert((st@, outcomes_model(outs@)) == target);
            }
        } else {
            proof {
                assert(outcomes_model(outs@) + Seq::<OutcomeModel>::empty() =~= outcomes_model(
                    outs@,
                ));
                assert((st@, outcomes_model(outs@)) == target);
            }
        }
        (st, outs)
    }
}

} // verus!
