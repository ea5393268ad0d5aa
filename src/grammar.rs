//! The grammar as spec functions over the input bytes: what reading one form
//! from a position yields, and where the cursor ends up.
use vstd::prelude::*;

use crate::form::FormView;

verus! {

pub const SPACE: u8 = 0x20;
pub const NEWLINE: u8 = 0x0a;
pub const COMMA: u8 = 0x2c;
/// `"`, which opens and closes a string.
pub const QUOTE: u8 = 0x22;
/// `(`, which opens a list.
pub const OPEN: u8 = 0x28;
/// `)`, which closes a list and ends a token.
pub const CLOSE: u8 = 0x29;
/// `:`, which introduces a keyword.
pub const COLON: u8 = 0x3a;

/// Space, newline and comma separate forms; nothing else does.
pub open spec fn is_sep(b: u8) -> bool {
    b == SPACE || b == NEWLINE || b == COMMA
}

/// Where a bare token that starts at `i` stops: the first separator, `)` or
/// the end of the input.
pub open spec fn token_end(s: Seq<u8>, i: int) -> int
    decreases s.len() - i,
{
    if 0 <= i < s.len() && !is_sep(s[i]) && s[i] != CLOSE {
        token_end(s, i + 1)
    } else {
        i
    }
}

/// The first `"` at or after `i`, or the end of the input.
pub open spec fn quote_end(s: Seq<u8>, i: int) -> int
    decreases s.len() - i,
{
    if 0 <= i < s.len() && s[i] != QUOTE {
        quote_end(s, i + 1)
    } else {
        i
    }
}

/// Reading one form at `i`: separators are skipped, then the next byte picks
/// the kind. `None` means that only separators were left. The second
/// component is where reading stopped.
pub open spec fn read_form(s: Seq<u8>, i: int) -> (Option<FormView>, int)
    decreases s.len() - i, 1int,
{
    if !(0 <= i < s.len()) {
        (None, i)
    } else if is_sep(s[i]) {
        read_form(s, i + 1)
    } else if s[i] == QUOTE {
        let e = quote_end(s, i + 1);
        (Some(FormView::Str(s.subrange(i + 1, e))), if e < s.len() { e + 1 } else { e })
    } else if s[i] == OPEN {
        let (items, e) = read_items(s, i + 1);
        (Some(FormView::List(items)), e)
    } else if s[i] == COLON {
        let e = token_end(s, i + 1);
        (Some(FormView::Keyword(s.subrange(i + 1, e))), e)
    } else {
        let e = token_end(s, i);
        (Some(FormView::Sym(s.subrange(i, e))), e)
    }
}

/// The children of a list whose contents start at `i`, and the position
/// after the closing `)` (or the end of the input, where it is missing).
/// Children are read until the byte at the cursor is `)` or nothing is left.
/// A child read where the byte is not `)` always moves the cursor forward
/// (`lemma_read_form_bounds`), so the last branch is never taken.
pub open spec fn read_items(s: Seq<u8>, i: int) -> (Seq<FormView>, int)
    decreases s.len() - i, 2int,
{
    if !(0 <= i < s.len()) {
        (seq![], i)
    } else if s[i] == CLOSE {
        (seq![], i + 1)
    } else {
        let (f, j) = read_form(s, i);
        match f {
            None => (seq![], j),
            Some(x) => if i < j <= s.len() {
                let (rest, e) = read_items(s, j);
                (seq![x] + rest, e)
            } else {
                (seq![x], j)
            },
        }
    }
}

pub proof fn lemma_token_end_bounds(s: Seq<u8>, i: int)
    requires
        0 <= i <= s.len(),
    ensures
        i <= token_end(s, i) <= s.len(),
    decreases s.len() - i,
{
    if i < s.len() && !is_sep(s[i]) && s[i] != CLOSE {
        lemma_token_end_bounds(s, i + 1);
    }
}

pub proof fn lemma_quote_end_bounds(s: Seq<u8>, i: int)
    requires
        0 <= i <= s.len(),
    ensures
        i <= quote_end(s, i) <= s.len(),
    decreases s.len() - i,
{
    if i < s.len() && s[i] != QUOTE {
        lemma_quote_end_bounds(s, i + 1);
    }
}

/// Reading a form never moves the cursor back nor past the end, and moves
/// it forward unless the input is exhausted or the byte at `i` is `)`.
pub proof fn lemma_read_form_bounds(s: Seq<u8>, i: int)
    requires
        0 <= i <= s.len(),
    ensures
        i <= read_form(s, i).1 <= s.len(),
        i < s.len() && s[i] != CLOSE ==> i < read_form(s, i).1,
    decreases s.len() - i, 1int,
{
    if i < s.len() {
        if is_sep(s[i]) {
            lemma_read_form_bounds(s, i + 1);
        } else if s[i] == QUOTE {
            lemma_quote_end_bounds(s, i + 1);
        } else if s[i] == OPEN {
            lemma_read_items_bounds(s, i + 1);
        } else if s[i] == COLON {
            lemma_token_end_bounds(s, i + 1);
        } else {
            lemma_token_end_bounds(s, i);
            if s[i] != CLOSE {
                lemma_token_end_bounds(s, i + 1);
            }
        }
    }
}

/// Reading the children of a list stays within the input.
pub proof fn lemma_read_items_bounds(s: Seq<u8>, i: int)
    requires
        0 <= i <= s.len(),
    ensures
        i <= read_items(s, i).1 <= s.len(),
    decreases s.len() - i, 2int,
{
    if i < s.len() && s[i] != CLOSE {
        lemma_read_form_bounds(s, i);
        let j = read_form(s, i).1;
        if read_form(s, i).0 is Some && i < j <= s.len() {
            lemma_read_items_bounds(s, j);
        }
    }
}

} // verus!
