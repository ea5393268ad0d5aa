//! The tree that the reader builds, and its mathematical model.
use vstd::prelude::*;

verus! {

/// A parsed node. Payloads are the raw bytes of the source, without their
/// delimiters; no text decoding is done.
#[derive(Debug, PartialEq, Eq)]
pub enum Form {
    /// A `"..."` literal, quotes removed, bytes kept verbatim.
    Str(Vec<u8>),
    /// A bare token.
    Sym(Vec<u8>),
    /// A token written with a leading `:`, the colon removed.
    Keyword(Vec<u8>),
    /// A `(...)` sequence of forms, in source order.
    List(Vec<Form>),
}

/// The model of a [`Form`]: the same tree over sequences.
pub enum FormView {
    Str(Seq<u8>),
    Sym(Seq<u8>),
    Keyword(Seq<u8>),
    List(Seq<FormView>),
}

impl View for Form {
    type V = FormView;

    open spec fn view(&self) -> FormView {
        form_model(self)
    }
}

/// The model of a form, child by child.
pub open spec fn form_model(f: &Form) -> FormView
    decreases f, 1int,
{
    match f {
        Form::Str(b) => FormView::Str(b@),
        Form::Sym(b) => FormView::Sym(b@),
        Form::Keyword(b) => FormView::Keyword(b@),
        Form::List(v) => FormView::List(forms_model(v@)),
    }
}

/// The models of a sequence of forms, in order.
pub open spec fn forms_model(s: Seq<Form>) -> Seq<FormView>
    decreases s, 0int,
{
    if s.len() == 0 {
        seq![]
    } else {
        forms_model(s.subrange(0, s.len() - 1)).push(form_model(&s[s.len() - 1]))
    }
}

} // verus!
