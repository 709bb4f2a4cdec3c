use vstd::prelude::*;

use crate::form::{models, Form, FormModel};
use crate::position::Position;

verus! {

/// Where a stream of characters came from; used only for diagnostics.
#[derive(Clone, Copy, Debug, PartialEq, Eq, Structural)]
pub enum SourceTag {
    /// Typed at the interactive session.
    Interactive,
    /// A literal program text handed in whole.
    Expression,
    /// The contents of a named file.
    File,
}

/// A syntax error, with enough position information for line/column
/// diagnostics.
#[derive(Debug, PartialEq)]
pub enum ParseError {
    /// A closing delimiter appeared while no list was open; carries the
    /// position of that delimiter.
    UnmatchedClosingDelimiter(Position),
    /// The input ended with lists still open; one position per unclosed
    /// opening delimiter, outermost first.
    UnterminatedOpenDelimiters(Vec<Position>),
}

/// The mathematical value of a `ParseState`: the same machine over `Seq`.
/// `err` holds the position of the unmatched closing delimiter, if one was
/// seen; that is the only error a single character can provoke.
#[verifier::ext_equal]
pub struct StateModel {
    pub tag: SourceTag,
    pub stack: Seq<Seq<FormModel>>,
    pub token: Seq<char>,
    pub pos: Position,
    pub err: Option<Position>,
    pub opens: Seq<Position>,
}

/// The mutable accumulator for one top-level read.
#[derive(Debug)]
pub struct ParseState {
    /// Input origin, for diagnostics only.
    pub source_tag: SourceTag,
    /// Open frames; the first entry is the base frame holding completed
    /// top-level forms, each later entry one open list, innermost last.
    pub stack: Vec<Vec<Form>>,
    /// Characters of the atom currently being accumulated.
    pub token: Vec<char>,
    /// Line and column of the next character to be consumed.
    pub position: Position,
    /// Once set, the state is terminal until it is discarded.
    pub error: Option<ParseError>,
    /// Positions of the currently open delimiters, outermost first.
    pub unmatched_opens: Vec<Position>,
}

/// The frame trees a stack of frames stands for.
pub open spec fn frame_models(stack: Seq<Vec<Form>>) -> Seq<Seq<FormModel>> {
    Seq::new(stack.len(), |i: int| models(stack[i]@))
}

impl View for ParseState {
    type V = StateModel;

    open spec fn view(&self) -> StateModel {
        StateModel {
            tag: self.source_tag,
            stack: frame_models(self.stack@),
            token: self.token@,
            pos: self.position,
            err: match self.error {
                Some(ParseError::UnmatchedClosingDelimiter(p)) => Some(p),
                _ => None,
            },
            opens: self.unmatched_opens@,
        }
    }
}

/// The structural invariant of the model: the base frame is always present,
/// and one opening position is recorded per open frame.
pub open spec fn wf_model(m: StateModel) -> bool {
    &&& m.stack.len() >= 1
    &&& m.opens.len() == m.stack.len() - 1
}

/// The value of a freshly constructed state: one empty base frame, no
/// pending token, no error, nothing open.
pub open spec fn fresh_model(tag: SourceTag, pos: Position) -> StateModel {
    StateModel {
        tag,
        stack: seq![Seq::<FormModel>::empty()],
        token: Seq::<char>::empty(),
        pos,
        err: None,
        opens: Seq::<Position>::empty(),
    }
}

/// Nothing consumed toward the next form: the completion prompt may start
/// over.
pub open spec fn blank_model(m: StateModel) -> bool {
    &&& m.stack.len() == 1
    &&& m.stack[0].len() == 0
    &&& m.token.len() == 0
    &&& m.err is None
}

impl ParseState {
    /// The invariant every reachable state satisfies: the model is
    /// structurally sound and only character-level errors are stored.
    pub open spec fn wf(&self) -> bool {
        &&& wf_model(self@)
        &&& !(self.error matches Some(ParseError::UnterminatedOpenDelimiters(_)))
    }

    /// A fresh accumulator reading from `tag`, positioned at `pos`.
    pub fn new_at(tag: SourceTag, pos: Position) -> (r: ParseState)
        ensures
            r@ == fresh_model(tag, pos),
            r.wf(),
    {
        let mut stack: Vec<Vec<Form>> = Vec::new();
        stack.push(Vec::new());
        let r = ParseState {
            source_tag: tag,
            stack,
            token: Vec::new(),
            position: pos,
            error: None,
            unmatched_opens: Vec::new(),
        };
        proof {
            assert(r@ =~~= fresh_model(tag, pos));
        }
        r
    }

    /// A fresh accumulator at the start of its input.
    pub fn new(tag: SourceTag) -> (r: ParseState)
        ensures
            r@ == fresh_model(tag, Position::origin()),
            r.wf(),
    {
        Self::new_at(tag, Position { line: 1, column: 1 })
    }

    /// Wholesale discard of everything accumulated mid-parse: back to the
    /// base frame with no pending token, no error and nothing open. Position
    /// and origin survive; nothing else does.
    pub fn reset(&mut self)
        ensures
            final(self)@ == fresh_model(old(self)@.tag, old(self)@.pos),
            final(self).wf(),
    {
        self.stack.clear();
        self.stack.push(Vec::new());
        self.token.clear();
        self.error = None;
        self.unmatched_opens.clear();
        proof {
            assert(self@ =~~= fresh_model(old(self)@.tag, old(self)@.pos));
        }
    }

    /// True when nothing has been consumed toward the next form, so an
    /// interactive session shows its primary prompt.
    pub fn is_empty(&self) -> (r: bool)
        requires
            self.wf(),
        ensures
            r == blank_model(self@),
    {
        self.error.is_none() && self.stack.len() == 1 && self.stack[0].len() == 0
            && self.token.len() == 0
    }
}

} // verus!
