use vstd::prelude::*;

verus! {

broadcast use vstd::seq::group_seq_axioms, vstd::std_specs::vec::group_vec_axioms;

/// A parsed syntactic unit: an atomic token or an ordered list of nested
/// forms. Forms are immutable once produced.
#[derive(Debug, PartialEq)]
pub enum Form {
    Atom(Vec<char>),
    List(Vec<Form>),
}

/// The mathematical shape of a `Form`: the same tree over `Seq`.
pub enum FormModel {
    Atom(Seq<char>),
    List(Seq<FormModel>),
}

impl Form {
    /// The tree a `Form` stands for.
    pub open spec fn model(self) -> FormModel
        decreases self,
    {
        match self {
            Form::Atom(t) => FormModel::Atom(t@),
            Form::List(v) => FormModel::List(models_from(v, 0)),
        }
    }
}

/// The trees of the elements of `v` from index `i` on, one recursive step per
/// element so that the recursion visibly descends the vector.
pub open spec fn models_from(v: Vec<Form>, i: int) -> Seq<FormModel>
    decreases v, v@.len() - i,
{
    if i < 0 || i >= v@.len() {
        Seq::empty()
    } else {
        seq![v[i].model()] + models_from(v, i + 1)
    }
}

/// The trees a sequence of `Form`s stands for.
pub open spec fn models(v: Seq<Form>) -> Seq<FormModel> {
    Seq::new(v.len(), |i: int| v[i].model())
}

proof fn lemma_models_from(v: Vec<Form>, i: int)
    requires
        0 <= i <= v@.len(),
    ensures
        models_from(v, i) == models(v@).skip(i),
    decreases v@.len() - i,
{
    if i == v@.len() {
        assert(models_from(v, i) =~= models(v@).skip(i));
    } else {
        lemma_models_from(v, i + 1);
        assert(models_from(v, i) =~= models(v@).skip(i));
    }
}

/// What a list form stands for, written over the trees of its elements.
pub broadcast proof fn lemma_model_list(v: Vec<Form>)
    ensures
        #[trigger] (Form::List(v)).model() == FormModel::List(models(v@)),
{
    lemma_models_from(v, 0);
    assert(models_from(v, 0) =~= models(v@));
}

/// Characters that may appear inside an atom: anything that is neither
/// whitespace nor a delimiter.
pub open spec fn atom_char(c: char) -> bool {
    !whitespace_char(c) && c != '(' && c != ')'
}

/// The whitespace characters the reader recognises as token boundaries.
pub open spec fn whitespace_char(c: char) -> bool {
    c == ' ' || c == '\n' || c == '\t' || c == '\r'
}

/// A tree that serialization can reproduce: every atom is a nonempty run of
/// atom characters, at every depth.
pub open spec fn wf_form(f: FormModel) -> bool
    decreases f,
{
    match f {
        FormModel::Atom(t) => t.len() > 0 && forall|i: int|
            0 <= i < t.len() ==> atom_char(#[trigger] t[i]),
        FormModel::List(l) => forall|i: int| 0 <= i < l.len() ==> wf_form(#[trigger] l[i]),
    }
}

/// The text of one form: an atom is its raw token text; a list is a
/// parenthesized group of its elements.
pub open spec fn ser_form(f: FormModel) -> Seq<char>
    decreases f,
{
    match f {
        FormModel::Atom(t) => t,
        FormModel::List(l) => seq!['('] + ser_forms(l) + seq![')'],
    }
}

/// The text of a sequence of forms, each followed by one terminating space
/// so that every atom ends at a clean token boundary.
pub open spec fn ser_forms(l: Seq<FormModel>) -> Seq<char>
    decreases l,
{
    if l.len() == 0 {
        Seq::empty()
    } else {
        ser_form(l.first()) + seq![' '] + ser_forms(l.drop_first())
    }
}

/// Serializing one more form extends the text at its end.
pub proof fn lemma_ser_forms_snoc(l: Seq<FormModel>, f: FormModel)
    ensures
        ser_forms(l.push(f)) == ser_forms(l) + ser_form(f) + seq![' '],
    decreases l,
{
    reveal_with_fuel(ser_forms, 3);
    if l.len() == 0 {
        assert(l.push(f).first() == f);
        assert(l.push(f).drop_first() =~= Seq::<FormModel>::empty());
        assert(ser_forms(l.push(f)) =~= ser_forms(l) + ser_form(f) + seq![' ']);
    } else {
        assert(l.push(f).first() == l.first());
        assert(l.push(f).drop_first() =~= l.drop_first().push(f));
        assert(ser_forms(l.push(f)) == ser_form(l.first()) + seq![' '] + ser_forms(
            l.drop_first().push(f),
        ));
        lemma_ser_forms_snoc(l.drop_first(), f);
        assert(ser_forms(l.push(f)) =~= ser_forms(l) + ser_form(f) + seq![' ']);
    }
}

/// Append the text of one form to `out`.
#[verifier::loop_isolation(false)]
fn write_form(f: &Form, out: &mut Vec<char>)
    ensures
        final(out)@ == old(out)@ + ser_form(f.model()),
    decreases f,
{
    match f {
        Form::Atom(t) => {
            let mut i: usize = 0;
            while i < t.len()
                invariant
                    i <= t.len(),
                    out@ == old(out)@ + t@.take(i as int),
                decreases t.len() - i,
            {
                let ghost prev = out@;
                out.push(t[i]);
                proof {
                    assert(prev.push(t@[i as int]) =~= old(out)@ + t@.take(i + 1));
                }
                i += 1;
            }
            proof {
                assert(t@.take(t@.len() as int) =~= t@);
            }
        }
        Form::List(v) => {
            let ghost l = models(v@);
            out.push('(');
            proof {
                assert(l.take(0) =~= Seq::<FormModel>::empty());
                assert(out@ =~= old(out)@ + seq!['('] + ser_forms(l.take(0)));
            }
            let mut i: usize = 0;
            while i < v.len()
                invariant
                    i <= v.len(),
                    l == models(v@),
                    out@ == old(out)@ + seq!['('] + ser_forms(l.take(i as int)),
                decreases v.len() - i,
            {
                proof {
                    assert(decreases_to!(*f => v@[i as int])) by {
                        assert(decreases_to!(*f => f->List_0));
                        assert(decreases_to!(*v => v@));
                        assert(decreases_to!(v@ => v@[i as int]));
                    }
                }
                write_form(&v[i], out);
                let ghost mid = out@;
                out.push(' ');
                proof {
                    assert(l.take(i as int).push(v@[i as int].model()) =~= l.take(i + 1));
                    lemma_ser_forms_snoc(l.take(i as int), v@[i as int].model());
                    assert(out@ =~= old(out)@ + seq!['('] + ser_forms(l.take(i + 1)));
                }
                i += 1;
            }
            out.push(')');
            proof {
                assert(l.take(v@.len() as int) =~= l);
                lemma_model_list(*v);
                assert(out@ =~= old(out)@ + ser_form(f.model()));
            }
        }
    }
}

/// The text of a sequence of top-level forms: each form's text followed by
/// one terminating space. Extracting forms back from this text yields the
/// same trees (see `lemma_round_trip`).
pub fn serialize_forms(forms: &Vec<Form>) -> (r: Vec<char>)
    ensures
        r@ == ser_forms(models(forms@)),
{
    let ghost l = models(forms@);
    let mut out: Vec<char> = Vec::new();
    let mut i: usize = 0;
    proof {
        assert(l.take(0) =~= Seq::<FormModel>::empty());
        assert(out@ =~= ser_forms(l.take(0)));
    }
    while i < forms.len()
        invariant
            i <= forms.len(),
            l == models(forms@),
            out@ == ser_forms(l.take(i as int)),
        decreases forms.len() - i,
    {
        write_form(&forms[i], &mut out);
        out.push(' ');
        proof {
            assert(l.take(i as int).push(forms@[i as int].model()) =~= l.take(i + 1));
            lemma_ser_forms_snoc(l.take(i as int), forms@[i as int].model());
            assert(out@ =~= ser_forms(l.take(i + 1)));
        }
        i += 1;
    }
    proof {
        assert(l.take(forms@.len() as int) =~= l);
    }
    out
}

} // verus!
