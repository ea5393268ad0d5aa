use violet_syntax::{Form, Parser};

fn sym(s: &str) -> Form {
    Form::Sym(s.as_bytes().to_vec())
}

fn kw(s: &str) -> Form {
    Form::Keyword(s.as_bytes().to_vec())
}

fn string(s: &str) -> Form {
    Form::Str(s.as_bytes().to_vec())
}

fn read_all(input: &str) -> Vec<Form> {
    let mut parser = Parser::from_bytes(input.as_bytes());
    let mut out = Vec::new();
    while let Some(f) = parser.parse_form() {
        out.push(f);
    }
    out
}

#[test]
fn parses_strings() {
    let input = r#""the quick brown fox""#;
    let mut parser = Parser::from_bytes(&input.as_bytes());
    assert_eq!(parser.parse_form(), Some(string("the quick brown fox")))
}

#[test]
fn parses_syms() {
    let input = r#"the "#;
    let mut parser = Parser::from_bytes(&input.as_bytes());
    assert_eq!(parser.parse_form(), Some(sym("the")))
}

#[test]
fn parses_keywords() {
    let input = r#":the"#;
    let mut parser = Parser::from_bytes(&input.as_bytes());
    assert_eq!(parser.parse_form(), Some(kw("the")))
}

#[test]
fn parses_lists() {
    let input = r#"(the quick brown "fox")"#;
    let mut parser = Parser::from_bytes(&input.as_bytes());
    assert_eq!(
        parser.parse_form(),
        Some(Form::List(vec![sym("the"), sym("quick"), sym("brown"), string("fox")]))
    )
}

#[test]
fn string_keeps_bytes_verbatim() {
    let mut parser = Parser::from_bytes(br#""a\nb c,d""#);
    assert_eq!(parser.parse_form(), Some(string(r"a\nb c,d")));
    assert_eq!(parser.parse_form(), None);
}

#[test]
fn symbol_ends_at_separator_or_close() {
    assert_eq!(read_all("abc,def\nghi"), vec![sym("abc"), sym("def"), sym("ghi")]);
    let mut parser = Parser::from_bytes(b"abc)");
    assert_eq!(parser.parse_form(), Some(sym("abc")));
}

#[test]
fn tab_and_carriage_return_are_not_separators() {
    assert_eq!(read_all("a\tb\rc"), vec![sym("a\tb\rc")]);
}

#[test]
fn keyword_drops_colon() {
    assert_eq!(read_all(":key rest"), vec![kw("key"), sym("rest")]);
}

#[test]
fn bare_colon_is_empty_keyword() {
    assert_eq!(read_all(":"), vec![kw("")]);
    assert_eq!(read_all(": x"), vec![kw(""), sym("x")]);
}

#[test]
fn nested_list_in_source_order() {
    let mut parser = Parser::from_bytes(br#"(a b "c")"#);
    assert_eq!(
        parser.parse_form(),
        Some(Form::List(vec![sym("a"), sym("b"), string("c")]))
    );
    assert_eq!(parser.parse_form(), None);
}

#[test]
fn deeply_nested_lists() {
    let mut parser = Parser::from_bytes(b"(a (b (:c \"d\")) ())");
    let inner = Form::List(vec![kw("c"), string("d")]);
    let middle = Form::List(vec![sym("b"), inner]);
    assert_eq!(
        parser.parse_form(),
        Some(Form::List(vec![sym("a"), middle, Form::List(vec![])]))
    );
}

#[test]
fn empty_list() {
    let mut parser = Parser::from_bytes(b"()");
    assert_eq!(parser.parse_form(), Some(Form::List(vec![])));
    assert_eq!(parser.parse_form(), None);
}

#[test]
fn unterminated_string_ends_at_end_of_input() {
    let mut parser = Parser::from_bytes(b"\"abc");
    assert_eq!(parser.parse_form(), Some(string("abc")));
    assert_eq!(parser.parse_form(), None);
}

#[test]
fn lone_quote_is_empty_string() {
    let mut parser = Parser::from_bytes(b"\"");
    assert_eq!(parser.parse_form(), Some(string("")));
    assert_eq!(parser.parse_form(), None);
}

#[test]
fn unterminated_list_keeps_children() {
    let mut parser = Parser::from_bytes(b"(a b");
    assert_eq!(parser.parse_form(), Some(Form::List(vec![sym("a"), sym("b")])));
    assert_eq!(parser.parse_form(), None);
    let mut parser = Parser::from_bytes(b"(a b  ");
    assert_eq!(parser.parse_form(), Some(Form::List(vec![sym("a"), sym("b")])));
}

#[test]
fn successive_reads_then_exhaustion() {
    let mut parser = Parser::from_bytes(b"a b");
    assert_eq!(parser.parse_form(), Some(sym("a")));
    assert_eq!(parser.parse_form(), Some(sym("b")));
    assert_eq!(parser.parse_form(), None);
}

#[test]
fn empty_and_separator_only_input() {
    assert_eq!(Parser::from_bytes(b"").parse_form(), None);
    assert_eq!(Parser::from_bytes(b" ,\n, ").parse_form(), None);
}

#[test]
fn separator_before_close_gives_empty_symbol() {
    assert_eq!(read_all("(a )"), vec![Form::List(vec![sym("a"), sym("")])]);
    assert_eq!(read_all("( )"), vec![Form::List(vec![sym("")])]);
}

#[test]
fn stray_close_is_empty_symbol_and_stays() {
    let mut parser = Parser::from_bytes(b")");
    assert_eq!(parser.parse_form(), Some(sym("")));
    assert_eq!(parser.parse_form(), Some(sym("")));
}

#[test]
fn plainly_printed_tree_reads_back() {
    let tree = Form::List(vec![
        sym("define"),
        kw("name"),
        string("two words"),
        Form::List(vec![sym("x"), Form::List(vec![])]),
    ]);
    let text = b"(define :name \"two words\" (x ()))";
    let mut parser = Parser::from_bytes(text);
    assert_eq!(parser.parse_form(), Some(tree));
    assert_eq!(parser.parse_form(), None);
}

#[test]
fn quoted_literals_read_as_successive_strings() {
    let mut parser = Parser::from_bytes(br#""a" "b""#);
    assert_eq!(parser.parse_form(), Some(string("a")));
    assert_eq!(parser.parse_form(), Some(string("b")));
    assert_eq!(parser.parse_form(), None);
}
