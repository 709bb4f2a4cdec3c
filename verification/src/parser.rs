use vstd::prelude::*;

use crate::form::{models, whitespace_char, Form, FormModel};
use crate::position::{advanced, Position};
use crate::state::{fresh_model, wf_model, ParseError, ParseState, SourceTag, StateModel};

verus! {

broadcast use crate::form::lemma_model_list;

/// `m` with any pending token flushed into the top frame as an atom.
pub open spec fn flushed(m: StateModel) -> StateModel {
    if m.token.len() == 0 {
        m
    } else {
        StateModel {
            stack: m.stack.update(
                m.stack.len() - 1,
                m.stack.last().push(FormModel::Atom(m.token)),
            ),
            token: Seq::empty(),
            ..m
        }
    }
}

/// `m` with its position advanced over the consumed character `c`.
pub open spec fn advance_model(m: StateModel, c: char) -> StateModel {
    StateModel { pos: advanced(m.pos, c), ..m }
}

/// One transition of the character machine. An errored state is terminal and
/// absorbs every further character unchanged.
pub open spec fn pstep(m: StateModel, c: char) -> StateModel {
    if m.err is Some {
        m
    } else if whitespace_char(c) {
        advance_model(flushed(m), c)
    } else if c == '(' {
        let f = flushed(m);
        advance_model(
            StateModel { stack: f.stack.push(Seq::empty()), opens: f.opens.push(m.pos), ..f },
            c,
        )
    } else if c == ')' {
        if m.stack.len() <= 1 {
            StateModel { err: Some(m.pos), ..m }
        } else {
            let f = flushed(m);
            let closed = f.stack[f.stack.len() - 2].push(FormModel::List(f.stack.last()));
            advance_model(
                StateModel {
                    stack: f.stack.take(f.stack.len() - 2).push(closed),
                    opens: f.opens.drop_last(),
                    ..f
                },
                c,
            )
        }
    } else {
        advance_model(StateModel { token: m.token.push(c), ..m }, c)
    }
}

/// The machine run over a whole character sequence.
pub open spec fn feed(m: StateModel, cs: Seq<char>) -> StateModel
    decreases cs.len(),
{
    if cs.len() == 0 {
        m
    } else {
        feed(pstep(m, cs.first()), cs.drop_first())
    }
}

/// A state is ready to finalize iff all delimiters are matched, the base
/// frame holds at least one completed form, and no atom is left un-flushed.
pub open spec fn ready_model(m: StateModel) -> bool {
    &&& m.err is None
    &&& m.stack.len() == 1
    &&& m.stack[0].len() >= 1
    &&& m.token.len() == 0
}

impl ParseState {
    /// Move the pending token, if any, into the top frame as an atom.
    fn flush_token(&mut self)
        requires
            old(self).wf(),
            old(self)@.err is None,
        ensures
            final(self).wf(),
            final(self)@ == flushed(old(self)@),
            final(self)@.err is None,
    {
        if self.token.len() > 0 {
            let mut tok: Vec<char> = Vec::new();
            core::mem::swap(&mut tok, &mut self.token);
            let mut top = self.stack.pop().unwrap();
            top.push(Form::Atom(tok));
            self.stack.push(top);
            proof {
                assert(self@ =~~= flushed(old(self)@));
            }
        }
    }
}

/// Consume one character: mutate the state, or mark it errored and report
/// the error. Whitespace flushes any pending token; an opening delimiter
/// opens a frame; a closing delimiter completes the innermost open list or,
/// with none open, errors at the delimiter's own position; anything else
/// extends the pending token.
pub fn parse_character(c: char, state: &mut ParseState) -> (r: Result<(), ParseError>)
    requires
        old(state).wf(),
    ensures
        final(state).wf(),
        final(state)@ == pstep(old(state)@, c),
        r is Ok <==> final(state)@.err is None,
        r matches Err(e) ==> e matches ParseError::UnmatchedClosingDelimiter(p)
            && final(state)@.err == Some(p),
{
    match &state.error {
        Some(ParseError::UnmatchedClosingDelimiter(p)) => {
            Err(ParseError::UnmatchedClosingDelimiter(*p))
        }
        Some(ParseError::UnterminatedOpenDelimiters(_)) => unreached(),
        None => {
            if c == ' ' || c == '\n' || c == '\t' || c == '\r' {
                state.flush_token();
                state.position = state.position.advance(c);
                proof {
                    assert(state@ =~~= pstep(old(state)@, c));
                }
                Ok(())
            } else if c == '(' {
                let p = state.position;
                state.flush_token();
                state.stack.push(Vec::new());
                state.unmatched_opens.push(p);
                state.position = state.position.advance(c);
                proof {
                    assert(state@ =~~= pstep(old(state)@, c));
                }
                Ok(())
            } else if c == ')' {
                if state.stack.len() == 1 {
                    let p = state.position;
                    state.error = Some(ParseError::UnmatchedClosingDelimiter(p));
                    proof {
                        assert(state@ =~~= pstep(old(state)@, c));
                    }
                    Err(ParseError::UnmatchedClosingDelimiter(p))
                } else {
                    state.flush_token();
                    let top = state.stack.pop().unwrap();
                    let mut parent = state.stack.pop().unwrap();
                    parent.push(Form::List(top));
                    state.stack.push(parent);
                    let _ = state.unmatched_opens.pop();
                    state.position = state.position.advance(c);
                    proof {
                        assert(state@ =~~= pstep(old(state)@, c));
                    }
                    Ok(())
                }
            } else {
                state.token.push(c);
                state.position = state.position.advance(c);
                proof {
                    assert(state@ =~~= pstep(old(state)@, c));
                }
                Ok(())
            }
        }
    }
}

/// The completion check: true exactly when `finish_parsing_characters` would
/// hand back at least one completed top-level form with nothing left open
/// and no atom still awaiting a boundary.
pub fn is_ready_to_finish(state: &ParseState) -> (r: bool)
    requires
        state.wf(),
    ensures
        r == ready_model(state@),
{
    state.error.is_none() && state.stack.len() == 1 && state.stack[0].len() > 0
        && state.token.len() == 0
}

/// Take exclusive ownership of a state and finalize it. Succeeds exactly
/// when the brackets are balanced and no error is set, returning the base
/// frame's forms; otherwise the same state comes back untouched for the
/// caller to report and discard.
pub fn finish_parsing_characters(state: ParseState) -> (r: Result<Vec<Form>, ParseState>)
    requires
        state.wf(),
    ensures
        state@.err is None && state@.stack.len() == 1 <==> r is Ok,
        r matches Ok(forms) ==> models(forms@) == state@.stack[0],
        r matches Err(s) ==> s == state,
{
    if state.error.is_none() && state.stack.len() == 1 {
        let mut st = state;
        let forms = st.stack.pop().unwrap();
        proof {
            assert(models(forms@) =~= state@.stack[0]);
        }
        Ok(forms)
    } else {
        Err(state)
    }
}

/// The batch run over a whole text: every character of `cs`, then one
/// synthetic terminating newline.
pub open spec fn batch_model(cs: Seq<char>) -> StateModel {
    feed(fresh_model(SourceTag::Expression, Position::origin()), cs.push('\n'))
}

/// `feed` over a sequence extended by one character steps once more at the
/// end.
pub proof fn lemma_feed_snoc(m: StateModel, cs: Seq<char>, c: char)
    ensures
        feed(m, cs.push(c)) == pstep(feed(m, cs), c),
    decreases cs.len(),
{
    if cs.len() == 0 {
        assert(cs.push(c).first() == c);
        assert(cs.push(c).drop_first() =~= Seq::<char>::empty());
        assert(feed(m, cs.push(c)) == feed(pstep(m, c), Seq::<char>::empty()));
    } else {
        assert(cs.push(c).first() == cs.first());
        assert(cs.push(c).drop_first() =~= cs.drop_first().push(c));
        lemma_feed_snoc(pstep(m, cs.first()), cs.drop_first(), c);
    }
}

/// Every transition preserves the structural invariant.
pub proof fn lemma_pstep_wf(m: StateModel, c: char)
    requires
        wf_model(m),
    ensures
        wf_model(pstep(m, c)),
{
}

/// Parse a whole literal text as a batch: feed every character followed by
/// one synthetic terminator, then finalize. Succeeds exactly when the text
/// plus terminator leaves the machine error-free and balanced; an unmatched
/// closing delimiter reports its position, unterminated input reports every
/// dangling opening delimiter's position.
pub fn parse_string(text: &Vec<char>) -> (r: Result<Vec<Form>, ParseError>)
    ensures
        ({
            let m = batch_model(text@);
            &&& (r is Ok <==> m.err is None && m.stack.len() == 1)
            &&& (r matches Ok(forms) ==> models(forms@) == m.stack[0])
            &&& (r matches Err(e) ==> match e {
                ParseError::UnmatchedClosingDelimiter(p) => m.err == Some(p),
                ParseError::UnterminatedOpenDelimiters(ps) => m.err is None && m.stack.len() > 1
                    && ps@ == m.opens,
            })
        }),
{
    let ghost m0 = fresh_model(SourceTag::Expression, Position::origin());
    let mut st = ParseState::new(SourceTag::Expression);
    let mut i: usize = 0;
    while i < text.len()
        invariant
            i <= text.len(),
            st.wf(),
            st@ == feed(m0, text@.take(i as int)),
        decreases text.len() - i,
    {
        let _ = parse_character(text[i], &mut st);
        proof {
            assert(text@.take(i as int).push(text@[i as int]) =~= text@.take(i + 1));
            lemma_feed_snoc(m0, text@.take(i as int), text@[i as int]);
        }
        i += 1;
    }
    let _ = parse_character('\n', &mut st);
    proof {
        assert(text@.take(text@.len() as int) =~= text@);
        lemma_feed_snoc(m0, text@, '\n');
        assert(st@ == batch_model(text@));
    }
    match finish_parsing_characters(st) {
        Ok(forms) => Ok(forms),
        Err(st2) => {
            match st2.error {
                Some(ParseError::UnmatchedClosingDelimiter(p)) => {
                    Err(ParseError::UnmatchedClosingDelimiter(p))
                }
                Some(ParseError::UnterminatedOpenDelimiters(_)) => unreached(),
                None => Err(ParseError::UnterminatedOpenDelimiters(st2.unmatched_opens)),
            }
        }
    }
}

} // verus!
