//! The reader: a cursor over a byte buffer that reads one top-level form per
//! call.
use vstd::prelude::*;

use crate::form::{form_model, forms_model, Form, FormView};
use crate::grammar::{
    is_sep, lemma_read_form_bounds, quote_end, read_form, read_items, token_end, CLOSE, COLON,
    COMMA, NEWLINE, OPEN, QUOTE, SPACE,
};

verus! {

/// A cursor over borrowed input. The cursor only moves forward.
pub struct Parser<'a> {
    bytes: &'a [u8],
    pos: usize,
}

/// The model of an optional form.
pub open spec fn option_model(r: Option<Form>) -> Option<FormView> {
    match r {
        Some(f) => Some(form_model(&f)),
        None => None,
    }
}

impl<'a> Parser<'a> {
    /// The whole input.
    pub closed spec fn input(&self) -> Seq<u8> {
        self.bytes@
    }

    /// The byte offset of the cursor.
    pub closed spec fn cursor(&self) -> int {
        self.pos as int
    }

    /// The cursor stays within the input.
    pub open spec fn wf(&self) -> bool {
        0 <= self.cursor() <= self.input().len()
    }

    /// A reader at the start of `bytes`.
    pub fn from_bytes(bytes: &'a [u8]) -> (r: Self)
        ensures
            r.wf(),
            r.input() == bytes@,
            r.cursor() == 0,
    {
        Self { bytes, pos: 0 }
    }

    /// The byte at the cursor, if any is left.
    fn peek(&self) -> (r: Option<u8>)
        ensures
            r == (if self.pos < self.bytes@.len() {
                Some(self.bytes@[self.pos as int])
            } else {
                None
            }),
    {
        if self.pos < self.bytes.len() {
            Some(self.bytes[self.pos])
        } else {
            None
        }
    }

    fn bump(&mut self)
        requires
            old(self).pos < old(self).bytes.len(),
        ensures
            final(self).bytes == old(self).bytes,
            final(self).pos == old(self).pos + 1,
    {
        self.pos = self.pos + 1;
    }

    /// Whether the byte at the cursor is a separator.
    fn is_ws(&self) -> (r: bool)
        ensures
            r == (self.pos < self.bytes@.len() && is_sep(self.bytes@[self.pos as int])),
    {
        match self.peek() {
            Some(c) => c == SPACE || c == NEWLINE || c == COMMA,
            None => false,
        }
    }

    /// Reads a string whose opening quote is at the cursor.
    fn parse_string(&mut self) -> (r: Form)
        requires
            old(self).pos < old(self).bytes@.len(),
            old(self).bytes@[old(self).pos as int] == QUOTE,
        ensures
            final(self).bytes == old(self).bytes,
            read_form(old(self).bytes@, old(self).pos as int) == (
            Some(form_model(&r)), final(self).pos as int),
    {
        let ghost s = self.bytes@;
        let ghost start = self.pos as int;
        self.bump();
        let mut chars: Vec<u8> = Vec::new();
        while self.pos < self.bytes.len() && self.bytes[self.pos] != QUOTE
            invariant
                self.bytes@ == s,
                0 <= start < self.pos <= s.len(),
                chars@ == s.subrange(start + 1, self.pos as int),
                quote_end(s, start + 1) == quote_end(s, self.pos as int),
            decreases s.len() - self.pos,
        {
            chars.push(self.bytes[self.pos]);
            self.bump();
            assert(chars@ =~= s.subrange(start + 1, self.pos as int));
        }
        if self.pos < self.bytes.len() {
            self.bump();
        }
        Form::Str(chars)
    }

    /// Reads the bytes of a bare token at the cursor, up to a separator, `)`
    /// or the end of the input. The token may be empty.
    fn parse_sym(&mut self) -> (r: Vec<u8>)
        requires
            old(self).pos <= old(self).bytes@.len(),
        ensures
            final(self).bytes == old(self).bytes,
            final(self).pos == token_end(old(self).bytes@, old(self).pos as int),
            r@ == old(self).bytes@.subrange(old(self).pos as int, final(self).pos as int),
    {
        let ghost s = self.bytes@;
        let ghost start = self.pos as int;
        let mut chars: Vec<u8> = Vec::new();
        while self.pos < self.bytes.len() && !self.is_ws() && self.bytes[self.pos] != CLOSE
            invariant
                self.bytes@ == s,
                0 <= start <= self.pos <= s.len(),
                chars@ == s.subrange(start, self.pos as int),
                token_end(s, start) == token_end(s, self.pos as int),
            decreases s.len() - self.pos,
        {
            chars.push(self.bytes[self.pos]);
            self.bump();
            assert(chars@ =~= s.subrange(start, self.pos as int));
        }
        chars
    }

    /// Reads the next top-level form, after skipping separators. `None`
    /// means that nothing but separators was left; the cursor is then at the
    /// end of the input. Malformed input never fails: an unterminated string
    /// or list ends at the end of the input.
    pub fn parse_form(&mut self) -> (r: Option<Form>)
        requires
            old(self).wf(),
        ensures
            final(self).wf(),
            final(self).input() == old(self).input(),
            read_form(old(self).input(), old(self).cursor()) == (
            option_model(r), final(self).cursor()),
        decreases self.input().len() - self.cursor(), 1int,
    {
        let ghost s = self.bytes@;
        let ghost start = self.pos as int;
        while self.is_ws()
            invariant
                self.bytes@ == s,
                0 <= start <= self.pos <= s.len(),
                read_form(s, start) == read_form(s, self.pos as int),
            decreases s.len() - self.pos,
        {
            self.bump();
        }
        proof {
            lemma_read_form_bounds(s, self.pos as int);
        }
        match self.peek() {
            None => None,
            Some(c) => {
                if c == QUOTE {
                    Some(self.parse_string())
                } else if c == OPEN {
                    Some(self.parse_list())
                } else if c == COLON {
                    self.bump();
                    Some(Form::Keyword(self.parse_sym()))
                } else {
                    Some(Form::Sym(self.parse_sym()))
                }
            },
        }
    }

    /// Reads a list whose `(` is at the cursor: children until a `)` at the
    /// cursor, which is consumed, or until the input is exhausted.
    fn parse_list(&mut self) -> (r: Form)
        requires
            old(self).pos < old(self).bytes@.len(),
            old(self).bytes@[old(self).pos as int] == OPEN,
        ensures
            final(self).bytes == old(self).bytes,
            read_form(old(self).bytes@, old(self).pos as int) == (
            Some(form_model(&r)), final(self).pos as int),
        decreases self.bytes@.len() - self.pos, 0int,
    {
        let ghost s = self.bytes@;
        let ghost start = self.pos as int;
        self.bump();
        let mut forms: Vec<Form> = Vec::new();
        loop
            invariant_except_break
                self.bytes@ == s,
                s == old(self).bytes@,
                start == old(self).pos,
                0 <= start < self.pos <= s.len(),
                read_items(s, start + 1) == (
                forms_model(forms@) + read_items(s, self.pos as int).0,
                read_items(s, self.pos as int).1),
            ensures
                self.bytes@ == s,
                read_items(s, start + 1) == (forms_model(forms@), self.pos as int),
            decreases s.len() - self.pos,
        {
            let ghost here = self.pos as int;
            match self.peek() {
                None => {
                    assert(forms_model(forms@) + seq![] =~= forms_model(forms@));
                    break;
                },
                Some(c) => {
                    if c == CLOSE {
                        self.bump();
                        assert(forms_model(forms@) + seq![] =~= forms_model(forms@));
                        break;
                    }
                },
            }
            proof {
                lemma_read_form_bounds(s, here);
            }
            match self.parse_form() {
                Some(f) => {
                    let ghost before = forms@;
                    forms.push(f);
                    proof {
                        assert(forms@.subrange(0, forms@.len() - 1) =~= before);
                        assert(forms_model(before) + read_items(s, here).0 =~= forms_model(
                            forms@,
                        ) + read_items(s, self.pos as int).0);
                    }
                },
                None => {
                    assert(forms_model(forms@) + seq![] =~= forms_model(forms@));
                    break;
                },
            }
        }
        Form::List(forms)
    }
}

} // verus!
