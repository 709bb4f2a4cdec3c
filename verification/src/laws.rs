use vstd::prelude::*;

use crate::form::{atom_char, ser_form, ser_forms, wf_form, whitespace_char, FormModel};
use crate::parser::{batch_model, feed, flushed, pstep, ready_model};
use crate::position::{advanced, Position};
use crate::state::{blank_model, fresh_model, wf_model, SourceTag, StateModel};

verus! {

broadcast use vstd::seq::group_seq_axioms;

/// Running bracket depth of a text: one per opening delimiter still
/// unmatched, counted over the whole sequence.
pub open spec fn bdepth(cs: Seq<char>) -> int
    decreases cs.len(),
{
    if cs.len() == 0 {
        0
    } else {
        bdepth(cs.drop_last()) + if cs.last() == '(' {
            1int
        } else if cs.last() == ')' {
            -1int
        } else {
            0int
        }
    }
}

/// A manual line/column count over a text, independent of the parser: start
/// at `start` and advance over each character in turn.
pub open spec fn counted_position(start: Position, cs: Seq<char>) -> Position
    decreases cs.len(),
{
    if cs.len() == 0 {
        start
    } else {
        counted_position(advanced(start, cs.first()), cs.drop_first())
    }
}

/// One atom: a nonempty run of atom characters.
pub open spec fn atom_text(cs: Seq<char>) -> bool {
    cs.len() > 0 && forall|i: int| 0 <= i < cs.len() ==> atom_char(#[trigger] cs[i])
}

/// One balanced parenthesized list: opens at the first character, closes at
/// the last, and stays open strictly in between.
pub open spec fn list_text(cs: Seq<char>) -> bool {
    &&& cs.len() >= 2
    &&& cs[0] == '('
    &&& cs.last() == ')'
    &&& bdepth(cs) == 0
    &&& forall|i: int| 1 <= i < cs.len() ==> bdepth(#[trigger] cs.take(i)) >= 1
}

/// A single, validly bracketed top-level form.
pub open spec fn single_form_text(cs: Seq<char>) -> bool {
    atom_text(cs) || list_text(cs)
}

/// Feeding a concatenation is feeding the parts in order.
pub proof fn lemma_feed_concat(m: StateModel, a: Seq<char>, b: Seq<char>)
    ensures
        feed(m, a + b) == feed(feed(m, a), b),
    decreases a.len(),
{
    if a.len() == 0 {
        assert(a + b =~= b);
    } else {
        assert((a + b).first() == a.first());
        assert((a + b).drop_first() =~= a.drop_first() + b);
        lemma_feed_concat(pstep(m, a.first()), a.drop_first(), b);
    }
}

/// An errored state is terminal: every further character leaves it alone.
pub proof fn lemma_error_permanent(m: StateModel, cs: Seq<char>)
    requires
        m.err is Some,
    ensures
        feed(m, cs) == m,
    decreases cs.len(),
{
    if cs.len() > 0 {
        lemma_error_permanent(m, cs.drop_first());
    }
}

/// The manual count over one more character advances once more at the end.
proof fn lemma_counted_snoc(start: Position, cs: Seq<char>, c: char)
    ensures
        counted_position(start, cs.push(c)) == advanced(counted_position(start, cs), c),
    decreases cs.len(),
{
    reveal_with_fuel(counted_position, 2);
    if cs.len() == 0 {
        assert(cs.push(c).first() == c);
        assert(cs.push(c).drop_first() =~= Seq::<char>::empty());
    } else {
        assert(cs.push(c).first() == cs.first());
        assert(cs.push(c).drop_first() =~= cs.drop_first().push(c));
        lemma_counted_snoc(advanced(start, cs.first()), cs.drop_first(), c);
    }
}

/// As long as no excess closing delimiter has been met, a run from a fresh
/// state stays error-free, keeps exactly one frame per unmatched opening
/// delimiter, and tracks the manual position count.
proof fn lemma_clean_run(tag: SourceTag, start: Position, cs: Seq<char>, n: int)
    requires
        0 <= n <= cs.len(),
        forall|i: int| 0 <= i < n ==> !(cs[i] == ')' && bdepth(#[trigger] cs.take(i)) == 0),
    ensures
        ({
            let m = feed(fresh_model(tag, start), cs.take(n));
            &&& m.err is None
            &&& m.tag == tag
            &&& bdepth(cs.take(n)) >= 0
            &&& m.stack.len() == bdepth(cs.take(n)) + 1
            &&& m.opens.len() == bdepth(cs.take(n))
            &&& m.pos == counted_position(start, cs.take(n))
        }),
    decreases n,
{
    let m0 = fresh_model(tag, start);
    if n == 0 {
        assert(cs.take(0) =~= Seq::<char>::empty());
    } else {
        lemma_clean_run(tag, start, cs, n - 1);
        let pre = cs.take(n - 1);
        let c = cs[n - 1];
        assert(cs.take(n) =~= pre.push(c));
        crate::parser::lemma_feed_snoc(m0, pre, c);
        lemma_counted_snoc(start, pre, c);
        assert(cs.take(n).drop_last() =~= pre);
        assert(cs.take(n).last() == c);
        let mp = feed(m0, pre);
        if c == ')' {
            assert(bdepth(pre) != 0);
            assert(mp.stack.len() >= 2);
        }
    }
}

/// An excess closing delimiter fails the parse at exactly its own character
/// index: everything before it is error-free, and the error carries the
/// position a manual line/column count of the preceding text gives. The
/// error then survives to the end of the input.
pub proof fn lemma_excess_close(tag: SourceTag, start: Position, cs: Seq<char>, k: int)
    requires
        0 <= k < cs.len(),
        cs[k] == ')',
        bdepth(cs.take(k)) == 0,
        forall|i: int| 0 <= i < k ==> !(cs[i] == ')' && bdepth(#[trigger] cs.take(i)) == 0),
    ensures
        feed(fresh_model(tag, start), cs.take(k)).err is None,
        feed(fresh_model(tag, start), cs.take(k + 1)).err == Some(
            counted_position(start, cs.take(k)),
        ),
        feed(fresh_model(tag, start), cs).err == Some(counted_position(start, cs.take(k))),
{
    let m0 = fresh_model(tag, start);
    lemma_clean_run(tag, start, cs, k);
    let mp = feed(m0, cs.take(k));
    assert(cs.take(k + 1) =~= cs.take(k).push(cs[k]));
    crate::parser::lemma_feed_snoc(m0, cs.take(k), cs[k]);
    assert(mp.stack.len() == 1);
    let me = feed(m0, cs.take(k + 1));
    assert(me.err == Some(mp.pos));
    assert(cs =~= cs.take(k + 1) + cs.skip(k + 1));
    lemma_feed_concat(m0, cs.take(k + 1), cs.skip(k + 1));
    lemma_error_permanent(me, cs.skip(k + 1));
}

/// A run over atom characters only accumulates them in the token buffer and
/// advances the position; nothing else moves.
proof fn lemma_atom_run(m: StateModel, cs: Seq<char>)
    requires
        m.err is None,
        forall|i: int| 0 <= i < cs.len() ==> atom_char(#[trigger] cs[i]),
    ensures
        feed(m, cs) == (StateModel {
            token: m.token + cs,
            pos: counted_position(m.pos, cs),
            ..m
        }),
    decreases cs.len(),
{
    if cs.len() == 0 {
        assert(m.token + cs =~= m.token);
        assert(feed(m, cs) =~= StateModel {
            token: m.token + cs,
            pos: counted_position(m.pos, cs),
            ..m
        });
    } else {
        let c = cs.first();
        let m1 = pstep(m, c);
        assert(atom_char(cs[0]));
        assert(m1 == StateModel { token: m.token.push(c), pos: advanced(m.pos, c), ..m });
        lemma_atom_run(m1, cs.drop_first());
        assert(m.token.push(c) + cs.drop_first() =~= m.token + cs);
        assert(feed(m, cs) =~= StateModel {
            token: m.token + cs,
            pos: counted_position(m.pos, cs),
            ..m
        });
    }
}

/// A single complete top-level form, fed character by character and then one
/// trailing terminator, signals readiness at exactly one point: immediately
/// after its final character when that is a closing delimiter, otherwise
/// immediately after the terminator that flushes the final atom.
pub proof fn lemma_single_form_ready(tag: SourceTag, start: Position, cs: Seq<char>, i: int)
    requires
        single_form_text(cs),
        0 <= i <= cs.len(),
    ensures
        ({
            let m0 = fresh_model(tag, start);
            &&& (ready_model(feed(m0, cs.take(i))) <==> (i == cs.len() && list_text(cs)))
            &&& ready_model(pstep(feed(m0, cs), '\n'))
        }),
{
    let m0 = fresh_model(tag, start);
    if atom_text(cs) {
        assert(!list_text(cs)) by {
            assert(atom_char(cs[0]));
        }
        lemma_atom_run(m0, cs.take(i));
        assert(feed(m0, cs.take(i)).stack[0].len() == 0);
        lemma_atom_run(m0, cs);
        let mend = feed(m0, cs);
        assert(mend.token =~= cs);
        assert(mend.token.len() > 0);
        let mfin = pstep(mend, '\n');
        assert(mfin.stack == mend.stack.update(0, mend.stack[0].push(FormModel::Atom(cs))));
        assert(ready_model(mfin));
    } else {
        let n = cs.len() as int;
        assert(forall|j: int|
            0 <= j < n ==> !(cs[j] == ')' && bdepth(#[trigger] cs.take(j)) == 0)) by {
            assert(forall|j: int| 1 <= j < n ==> bdepth(#[trigger] cs.take(j)) >= 1);
            assert(cs[0] == '(');
        }
        if i < n {
            lemma_clean_run(tag, start, cs, i);
            if i == 0 {
                assert(cs.take(0) =~= Seq::<char>::empty());
                assert(!ready_model(feed(m0, cs.take(i))));
            } else {
                assert(bdepth(cs.take(i)) >= 1);
                assert(feed(m0, cs.take(i)).stack.len() >= 2);
            }
        }
        // The state right before the final closing delimiter has exactly one
        // open frame; the delimiter closes it and completes the form.
        lemma_clean_run(tag, start, cs, n - 1);
        let mp = feed(m0, cs.take(n - 1));
        assert(cs.take(n) =~= cs);
        assert(bdepth(cs) == bdepth(cs.take(n - 1)) + -1) by {
            assert(cs.drop_last() =~= cs.take(n - 1));
        }
        assert(mp.stack.len() == 2);
        crate::parser::lemma_feed_snoc(m0, cs.take(n - 1), cs.last());
        assert(cs.take(n - 1).push(cs.last()) =~= cs);
        let mend = feed(m0, cs);
        assert(mend == pstep(mp, ')'));
        let fp = flushed(mp);
        assert(mend.stack == fp.stack.take(0).push(
            fp.stack[0].push(FormModel::List(fp.stack[1])),
        ));
        assert(mend.stack.len() == 1);
        assert(mend.stack[0].len() >= 1);
        assert(ready_model(mend));
        let mfin = pstep(mend, '\n');
        assert(mfin.stack == mend.stack);
        assert(ready_model(mfin));
    }
}

/// Serializing one well-formed form and a terminating space, fed to any
/// error-free state with no pending token, appends exactly that form to the
/// innermost open frame and touches nothing else structural.
proof fn lemma_feed_ser_unit(m: StateModel, f: FormModel)
    requires
        m.stack.len() >= 1,
        m.err is None,
        m.token.len() == 0,
        wf_form(f),
    ensures
        ({
            let m2 = feed(m, ser_form(f) + seq![' ']);
            &&& m2.err is None
            &&& m2.token.len() == 0
            &&& m2.tag == m.tag
            &&& m2.stack == m.stack.update(m.stack.len() - 1, m.stack.last().push(f))
            &&& m2.opens == m.opens
        }),
    decreases f,
{
    reveal_with_fuel(feed, 2);
    match f {
        FormModel::Atom(t) => {
            lemma_feed_concat(m, t, seq![' ']);
            lemma_atom_run(m, t);
            let ma = feed(m, t);
            assert(ma.token =~= t);
            let m2 = feed(m, t + seq![' ']);
            assert(feed(ma, seq![' ']) == pstep(ma, ' ')) by {
                assert(seq![' '].drop_first() =~= Seq::<char>::empty());
            }
            assert(m2.stack =~= m.stack.update(m.stack.len() - 1, m.stack.last().push(f)));
        }
        FormModel::List(l) => {
            let text = ser_form(f) + seq![' '];
            assert(decreases_to!(f => f->List_0));
            assert(text =~= seq!['('] + (ser_forms(l) + (seq![')'] + seq![' '])));
            lemma_feed_concat(m, seq!['('], ser_forms(l) + (seq![')'] + seq![' ']));
            let m1 = feed(m, seq!['(']);
            assert(m1 == pstep(m, '(')) by {
                assert(seq!['('].drop_first() =~= Seq::<char>::empty());
            }
            assert(m1.stack == m.stack.push(Seq::<FormModel>::empty()));
            lemma_feed_concat(m1, ser_forms(l), seq![')'] + seq![' ']);
            lemma_feed_ser_list(m1, l);
            let ma = feed(m1, ser_forms(l));
            assert(ma.stack == m1.stack.update(m1.stack.len() - 1, m1.stack.last() + l));
            assert(ma.stack.len() == m.stack.len() + 1);
            assert(ma.stack.last() =~= l);
            lemma_feed_concat(ma, seq![')'], seq![' ']);
            let mb = feed(ma, seq![')']);
            assert(mb == pstep(ma, ')')) by {
                assert(seq![')'].drop_first() =~= Seq::<char>::empty());
            }
            let m2 = feed(ma, seq![')'] + seq![' ']);
            assert(m2 == pstep(mb, ' ')) by {
                assert((seq![' ']).drop_first() =~= Seq::<char>::empty());
            }
            assert(mb.stack =~= m.stack.update(m.stack.len() - 1, m.stack.last().push(f))) by {
                assert(ma.stack.take(ma.stack.len() - 2) =~= m.stack.take(m.stack.len() - 1));
                assert(ma.stack[ma.stack.len() - 2] =~= m.stack.last());
                assert(m.stack.take(m.stack.len() - 1).push(m.stack.last().push(f)) =~= m.stack
                    .update(m.stack.len() - 1, m.stack.last().push(f)));
            }
            assert(mb.opens =~= m.opens);
            assert(m2.stack == mb.stack);
        }
    }
}

/// Serializing a whole well-formed forest appends its forms, in order, to
/// the innermost open frame.
proof fn lemma_feed_ser_list(m: StateModel, l: Seq<FormModel>)
    requires
        m.stack.len() >= 1,
        m.err is None,
        m.token.len() == 0,
        forall|i: int| 0 <= i < l.len() ==> wf_form(#[trigger] l[i]),
    ensures
        ({
            let m2 = feed(m, ser_forms(l));
            &&& m2.err is None
            &&& m2.token.len() == 0
            &&& m2.tag == m.tag
            &&& m2.stack == m.stack.update(m.stack.len() - 1, m.stack.last() + l)
            &&& m2.opens == m.opens
        }),
    decreases l,
{
    if l.len() == 0 {
        assert(ser_forms(l) =~= Seq::<char>::empty());
        assert(m.stack.last() + l =~= m.stack.last());
        assert(m.stack.update(m.stack.len() - 1, m.stack.last()) =~= m.stack);
    } else {
        assert(decreases_to!(l => l[0]));
        assert(ser_forms(l) =~= (ser_form(l.first()) + seq![' ']) + ser_forms(l.drop_first()));
        lemma_feed_concat(m, ser_form(l.first()) + seq![' '], ser_forms(l.drop_first()));
        lemma_feed_ser_unit(m, l.first());
        let ma = feed(m, ser_form(l.first()) + seq![' ']);
        lemma_feed_ser_list(ma, l.drop_first());
        let m2 = feed(ma, ser_forms(l.drop_first()));
        assert(ma.stack.len() == m.stack.len());
        assert(ma.stack.last() =~= m.stack.last().push(l.first()));
        assert(m2.stack == ma.stack.update(ma.stack.len() - 1, ma.stack.last() + l.drop_first()));
        assert(ma.stack.last() + l.drop_first() =~= m.stack.last() + l);
        assert(m2.stack =~= m.stack.update(m.stack.len() - 1, m.stack.last() + l));
    }
}

/// Round trip: the serialized text of any well-formed forest, parsed back as
/// a batch, reproduces exactly that forest.
pub proof fn lemma_round_trip(fs: Seq<FormModel>)
    requires
        forall|i: int| 0 <= i < fs.len() ==> wf_form(#[trigger] fs[i]),
    ensures
        ({
            let m = batch_model(ser_forms(fs));
            &&& m.err is None
            &&& m.stack.len() == 1
            &&& m.stack[0] == fs
        }),
{
    let m0 = fresh_model(SourceTag::Expression, Position::origin());
    lemma_feed_ser_list(m0, fs);
    let ma = feed(m0, ser_forms(fs));
    crate::parser::lemma_feed_snoc(m0, ser_forms(fs), '\n');
    assert(ma.stack == m0.stack.update(0, m0.stack.last() + fs));
    assert(ma.stack[0] =~= fs);
    let m = pstep(ma, '\n');
    assert(m.stack == ma.stack);
}

/// States that agree on everything but positions: same frames, same pending
/// token, same number of open delimiters, an error in one iff in the other.
pub open spec fn similar(a: StateModel, b: StateModel) -> bool {
    &&& a.stack == b.stack
    &&& a.token == b.token
    &&& a.opens.len() == b.opens.len()
    &&& (a.err is Some <==> b.err is Some)
}

proof fn lemma_pstep_similar(a: StateModel, b: StateModel, c: char)
    requires
        wf_model(a),
        wf_model(b),
        similar(a, b),
    ensures
        similar(pstep(a, c), pstep(b, c)),
{
    let fa = flushed(a);
    let fb = flushed(b);
    assert(fa.stack == fb.stack && fa.token == fb.token);
    if a.err is None && !whitespace_char(c) && c == '(' {
        assert(pstep(a, c).opens == fa.opens.push(a.pos));
        assert(pstep(b, c).opens == fb.opens.push(b.pos));
        assert(pstep(a, c).opens.len() == pstep(b, c).opens.len());
    }
    if a.err is None && !whitespace_char(c) && c == ')' && a.stack.len() > 1 {
        assert(pstep(a, c).opens == fa.opens.drop_last());
        assert(pstep(b, c).opens == fb.opens.drop_last());
        assert(pstep(a, c).opens.len() == pstep(b, c).opens.len());
    }
}

proof fn lemma_feed_similar(a: StateModel, b: StateModel, cs: Seq<char>)
    requires
        wf_model(a),
        wf_model(b),
        similar(a, b),
    ensures
        similar(feed(a, cs), feed(b, cs)),
    decreases cs.len(),
{
    if cs.len() > 0 {
        lemma_pstep_similar(a, b, cs.first());
        crate::parser::lemma_pstep_wf(a, cs.first());
        crate::parser::lemma_pstep_wf(b, cs.first());
        lemma_feed_similar(pstep(a, cs.first()), pstep(b, cs.first()), cs.drop_first());
    }
}

/// No residue: a freshly constructed (or wholesale-reset) state parses any
/// sequence exactly as a brand-new session would — the same frames, the same
/// pending token, readiness at the same points and an error at the same
/// character — whatever happened before and wherever the input stands.
pub proof fn lemma_fresh_no_residue(
    tag1: SourceTag,
    pos1: Position,
    tag2: SourceTag,
    pos2: Position,
    cs: Seq<char>,
)
    ensures
        ({
            let ma = feed(fresh_model(tag1, pos1), cs);
            let mb = feed(fresh_model(tag2, pos2), cs);
            &&& ma.stack == mb.stack
            &&& ma.token == mb.token
            &&& (ma.err is Some <==> mb.err is Some)
            &&& (ready_model(ma) <==> ready_model(mb))
            &&& (blank_model(ma) <==> blank_model(mb))
        }),
{
    lemma_feed_similar(fresh_model(tag1, pos1), fresh_model(tag2, pos2), cs);
}

/// Interrupt safety, parser half: an interrupt discards the in-progress
/// state wholesale (`ParseState::reset`), and the resulting fresh state
/// parses any subsequent sequence exactly as a brand-new session would.
/// The environment half stands in `repl_step`: an `Interrupted` event leaves
/// `env` — and with it the last result — untouched.
pub proof fn lemma_interrupt_recovery(junk: StateModel, tag: SourceTag, pos: Position, cs: Seq<char>)
    ensures
        ({
            let ma = feed(fresh_model(junk.tag, junk.pos), cs);
            let mb = feed(fresh_model(tag, pos), cs);
            &&& ma.stack == mb.stack
            &&& ma.token == mb.token
            &&& (ma.err is Some <==> mb.err is Some)
            &&& (ready_model(ma) <==> ready_model(mb))
        }),
{
    lemma_fresh_no_residue(junk.tag, junk.pos, tag, pos, cs);
}

} // verus!
