//! What the grammar guarantees: each kind of form reads back as written,
//! and a tree printed in the plain way reads back as the same tree.
use vstd::prelude::*;

use crate::form::FormView;
use crate::grammar::{
    is_sep, lemma_read_form_bounds, quote_end, read_form, read_items, token_end, CLOSE, COLON,
    OPEN, QUOTE, SPACE,
};

verus! {

/// A byte that may stand inside a bare token or a keyword.
pub open spec fn is_token_byte(b: u8) -> bool {
    !is_sep(b) && b != CLOSE
}

/// Every byte of `b` may stand inside a bare token.
pub open spec fn all_token_bytes(b: Seq<u8>) -> bool {
    forall|k: int| 0 <= k < b.len() ==> is_token_byte(#[trigger] b[k])
}

/// `b` holds no `"`.
pub open spec fn no_quote(b: Seq<u8>) -> bool {
    forall|k: int| 0 <= k < b.len() ==> #[trigger] b[k] != QUOTE
}

/// A bare token that reads back as a symbol: not empty, made of token
/// bytes, and not starting with a byte that picks another kind of form.
pub open spec fn is_bare_token(b: Seq<u8>) -> bool {
    &&& b.len() > 0
    &&& all_token_bytes(b)
    &&& b[0] != QUOTE
    &&& b[0] != OPEN
    &&& b[0] != COLON
}

/// The trees that the plain printer can write so that they read back: no
/// `"` in a string, bare tokens for symbols, token bytes in keywords.
pub open spec fn printable(f: FormView) -> bool
    decreases f,
{
    match f {
        FormView::Str(b) => no_quote(b),
        FormView::Sym(b) => is_bare_token(b),
        FormView::Keyword(b) => all_token_bytes(b),
        FormView::List(items) => forall|k: int|
            0 <= k < items.len() ==> printable(#[trigger] items[k]),
    }
}

/// The plain printer: strings in quotes, keywords after a colon, list
/// children separated by one space.
pub open spec fn print_form(f: FormView) -> Seq<u8>
    decreases f,
{
    match f {
        FormView::Str(b) => seq![QUOTE] + b + seq![QUOTE],
        FormView::Sym(b) => b,
        FormView::Keyword(b) => seq![COLON] + b,
        FormView::List(items) => seq![OPEN] + print_items(items) + seq![CLOSE],
    }
}

/// The children of a list, separated by one space.
pub open spec fn print_items(items: Seq<FormView>) -> Seq<u8>
    decreases items,
{
    if items.len() == 0 {
        seq![]
    } else if items.len() == 1 {
        print_form(items[0])
    } else {
        print_form(items[0]) + seq![SPACE] + print_items(items.subrange(1, items.len() as int))
    }
}

/// `p` stands in `s` from position `i` on.
pub open spec fn occurs_at(s: Seq<u8>, i: int, p: Seq<u8>) -> bool {
    &&& 0 <= i
    &&& i + p.len() <= s.len()
    &&& s.subrange(i, i + p.len()) == p
}

/// A token that ends at `e` ends there: at the end of the input, a
/// separator or `)`.
pub open spec fn ends_token(s: Seq<u8>, e: int) -> bool {
    e == s.len() || (0 <= e < s.len() && !is_token_byte(s[e]))
}

proof fn lemma_occurs_split(s: Seq<u8>, i: int, a: Seq<u8>, b: Seq<u8>)
    requires
        occurs_at(s, i, a + b),
    ensures
        occurs_at(s, i, a),
        occurs_at(s, i + a.len(), b),
{
    assert(s.subrange(i, i + a.len()) =~= (a + b).subrange(0, a.len() as int));
    assert((a + b).subrange(0, a.len() as int) =~= a);
    assert(s.subrange(i + a.len(), i + a.len() + b.len()) =~= (a + b).subrange(
        a.len() as int,
        (a + b).len() as int,
    ));
    assert((a + b).subrange(a.len() as int, (a + b).len() as int) =~= b);
}

proof fn lemma_occurs_index(s: Seq<u8>, i: int, p: Seq<u8>, k: int)
    requires
        occurs_at(s, i, p),
        0 <= k < p.len(),
    ensures
        s[i + k] == p[k],
{
    assert(s.subrange(i, i + p.len())[k] == s[i + k]);
}

proof fn lemma_token_end_at(s: Seq<u8>, i: int, b: Seq<u8>)
    requires
        occurs_at(s, i, b),
        all_token_bytes(b),
        ends_token(s, i + b.len()),
    ensures
        token_end(s, i) == i + b.len(),
    decreases b.len(),
{
    if b.len() > 0 {
        lemma_occurs_index(s, i, b, 0);
        assert(seq![b[0]] + b.subrange(1, b.len() as int) =~= b);
        lemma_occurs_split(s, i, seq![b[0]], b.subrange(1, b.len() as int));
        lemma_token_end_at(s, i + 1, b.subrange(1, b.len() as int));
    }
}

proof fn lemma_quote_end_at(s: Seq<u8>, i: int, b: Seq<u8>)
    requires
        occurs_at(s, i, b),
        no_quote(b),
        i + b.len() < s.len(),
        s[i + b.len()] == QUOTE,
    ensures
        quote_end(s, i) == i + b.len(),
    decreases b.len(),
{
    if b.len() > 0 {
        lemma_occurs_index(s, i, b, 0);
        assert(seq![b[0]] + b.subrange(1, b.len() as int) =~= b);
        lemma_occurs_split(s, i, seq![b[0]], b.subrange(1, b.len() as int));
        lemma_quote_end_at(s, i + 1, b.subrange(1, b.len() as int));
    }
}

/// A printed form starts with a byte that is neither a separator nor `)`.
proof fn lemma_print_head(f: FormView)
    requires
        printable(f),
    ensures
        print_form(f).len() > 0,
        is_token_byte(print_form(f)[0]),
{
}

/// Printed children start as their first child does.
proof fn lemma_print_items_head(items: Seq<FormView>)
    requires
        items.len() > 0,
        printable(items[0]),
    ensures
        print_items(items).len() > 0,
        print_items(items)[0] == print_form(items[0])[0],
{
    lemma_print_head(items[0]);
}

/// A printable form written at `i` and followed by the end of a token
/// reads back as itself, and reading stops right after it.
proof fn lemma_read_printed(s: Seq<u8>, i: int, f: FormView)
    requires
        printable(f),
        occurs_at(s, i, print_form(f)),
        ends_token(s, i + print_form(f).len()),
    ensures
        read_form(s, i) == (Some(f), i + print_form(f).len()),
    decreases f, 1int,
{
    lemma_print_head(f);
    lemma_occurs_index(s, i, print_form(f), 0);
    let n = print_form(f).len();
    match f {
        FormView::Str(b) => {
            lemma_occurs_split(s, i, seq![QUOTE] + b, seq![QUOTE]);
            lemma_occurs_split(s, i, seq![QUOTE], b);
            lemma_occurs_index(s, i + 1 + b.len(), seq![QUOTE], 0);
            lemma_quote_end_at(s, i + 1, b);
        },
        FormView::Sym(b) => {
            lemma_token_end_at(s, i, b);
        },
        FormView::Keyword(b) => {
            lemma_occurs_split(s, i, seq![COLON], b);
            lemma_token_end_at(s, i + 1, b);
        },
        FormView::List(items) => {
            let body = print_items(items);
            lemma_occurs_split(s, i, seq![OPEN] + body, seq![CLOSE]);
            lemma_occurs_split(s, i, seq![OPEN], body);
            lemma_occurs_index(s, i + 1 + body.len(), seq![CLOSE], 0);
            if items.len() == 0 {
                assert(read_items(s, i + 1) == (Seq::<FormView>::empty(), i + 2));
            } else {
                lemma_read_printed_items(s, i + 1, items);
            }
            assert(read_items(s, i + 1) == (items, i + n));
            assert(read_form(s, i) == (Some(f), i + n));
        },
    }
}

/// The children of a non-empty list, printed at `i` and followed by `)`,
/// read back as themselves, and reading stops after the `)`.
proof fn lemma_read_printed_items(s: Seq<u8>, i: int, items: Seq<FormView>)
    requires
        items.len() > 0,
        forall|k: int| 0 <= k < items.len() ==> printable(#[trigger] items[k]),
        occurs_at(s, i, print_items(items)),
        i + print_items(items).len() < s.len(),
        s[i + print_items(items).len()] == CLOSE,
    ensures
        read_items(s, i) == (items, i + print_items(items).len() + 1),
    decreases items, 0int,
{
    let first = items[0];
    let p0 = print_form(first);
    let j = i + p0.len();
    lemma_print_head(first);
    if items.len() == 1 {
        lemma_read_printed(s, i, first);
        lemma_occurs_index(s, i, p0, 0);
        assert(read_items(s, j) == (Seq::<FormView>::empty(), j + 1));
        assert(seq![first] + Seq::<FormView>::empty() =~= items);
    } else {
        let rest = items.subrange(1, items.len() as int);
        let tail = print_items(rest);
        lemma_occurs_split(s, i, p0 + seq![SPACE], tail);
        lemma_occurs_split(s, i, p0, seq![SPACE]);
        lemma_occurs_index(s, j, seq![SPACE], 0);
        lemma_occurs_index(s, i, p0, 0);
        lemma_read_printed(s, i, first);
        assert(rest[0] == items[1]);
        lemma_print_items_head(rest);
        lemma_occurs_index(s, j + 1, tail, 0);
        lemma_read_printed_items(s, j + 1, rest);
        lemma_read_form_bounds(s, j + 1);
        assert(s[j] == SPACE);
        assert(read_form(s, j) == read_form(s, j + 1));
        assert(read_items(s, j) == read_items(s, j + 1));
        assert(seq![first] + rest =~= items);
    }
}

/// A quoted literal with no `"` inside reads as a string whose payload is
/// exactly the bytes between the quotes; no escapes are processed.
pub proof fn lemma_read_string(x: Seq<u8>)
    requires
        no_quote(x),
    ensures
        read_form(seq![QUOTE] + x + seq![QUOTE], 0) == (Some(FormView::Str(x)), x.len() + 2int),
{
    let s = seq![QUOTE] + x + seq![QUOTE];
    assert(s.subrange(0, s.len() as int) =~= s);
    lemma_read_printed(s, 0, FormView::Str(x));
}

/// A bare token followed by a separator or by the end of the input reads as
/// a symbol whose payload is the token, and reading stops right after it.
pub proof fn lemma_read_symbol(t: Seq<u8>, rest: Seq<u8>)
    requires
        is_bare_token(t),
        rest.len() == 0 || is_sep(rest[0]),
    ensures
        read_form(t + rest, 0) == (Some(FormView::Sym(t)), t.len() as int),
{
    let s = t + rest;
    assert(s.subrange(0, t.len() as int) =~= t);
    if rest.len() > 0 {
        assert(s[t.len() as int] == rest[0]);
    }
    lemma_read_printed(s, 0, FormView::Sym(t));
}

/// `:` followed by bytes with no separator and no `)` reads as a keyword
/// whose payload is those bytes, without the colon.
pub proof fn lemma_read_keyword(x: Seq<u8>)
    requires
        all_token_bytes(x),
    ensures
        read_form(seq![COLON] + x, 0) == (Some(FormView::Keyword(x)), x.len() + 1int),
{
    let s = seq![COLON] + x;
    assert(s.subrange(0, s.len() as int) =~= s);
    lemma_read_printed(s, 0, FormView::Keyword(x));
}

/// Printing a printable tree with the plain printer and reading the result
/// gives the same tree back, and consumes the whole text.
pub proof fn lemma_round_trip(f: FormView)
    requires
        printable(f),
    ensures
        read_form(print_form(f), 0) == (Some(f), print_form(f).len() as int),
{
    let s = print_form(f);
    assert(s.subrange(0, s.len() as int) =~= s);
    lemma_read_printed(s, 0, f);
}

} // verus!
