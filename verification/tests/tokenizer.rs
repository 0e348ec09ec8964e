use gcarena::tokenizer::{State, Tok, Tokenizer};

fn toks(input: &str) -> Vec<Tok> {
    let mut t = Tokenizer::new(input);
    let mut out = Vec::new();
    while let Some(tok) = t.next() {
        out.push(tok);
    }
    out
}

fn tsym(s: &str) -> Tok {
    Tok::Sym(s.to_string())
}

fn tstr(s: &str) -> Tok {
    Tok::Str(s.to_string())
}

#[test]
fn punctuation() {
    assert_eq!(toks("("), vec![Tok::Bra]);
    assert_eq!(toks(")"), vec![Tok::Ket]);
    assert_eq!(toks("'"), vec![Tok::Quot]);
    assert_eq!(toks("&"), vec![tsym("&")]);
}

#[test]
fn numbers() {
    assert_eq!(toks("1"), vec![Tok::Num(1)]);
    assert_eq!(toks("+1"), vec![Tok::Num(1)]);
    assert_eq!(toks("-23"), vec![Tok::Num(-23)]);
    assert_eq!(toks("1_000"), vec![Tok::Num(1000)]);
}

#[test]
fn symbols() {
    assert_eq!(toks("foo"), vec![tsym("foo")]);
    assert_eq!(toks("+"), vec![tsym("+")]);
    assert_eq!(toks("my-var-name"), vec![tsym("my-var-name")]);
    assert_eq!(toks("var-1"), vec![tsym("var-1")]);

    assert_eq!(
        toks("hello wor;; comment\nld"),
        vec![tsym("hello"), tsym("wor"), tsym("ld")]
    );

    assert_eq!(
        toks("foo(bar)baz"),
        vec![tsym("foo"), Tok::Bra, tsym("bar"), Tok::Ket, tsym("baz")]
    );

    assert_eq!(toks("foo'bar"), vec![tsym("foo"), Tok::Quot, tsym("bar")]);

    assert_eq!(toks("foo&bar"), vec![tsym("foo"), tsym("&"), tsym("bar")]);
}

#[test]
fn strings() {
    assert_eq!(toks("\"\""), vec![tstr("")]);
    assert_eq!(toks("\"foo\""), vec![tstr("foo")]);
    assert_eq!(toks("\"foo\\nbar\""), vec![tstr("foo\nbar")]);
    assert_eq!(toks("\"\\u000a\""), vec![tstr("\n")]);

    assert_eq!(toks("\"foo\\\"bar\""), vec![tstr("foo\"bar")]);

    assert_eq!(toks("\"foo\" \"bar\""), vec![tstr("foo"), tstr("bar")]);
}

#[test]
fn sequences() {
    assert_eq!(
        toks("(foo 1)"),
        vec![Tok::Bra, tsym("foo"), Tok::Num(1), Tok::Ket]
    );

    assert_eq!(
        toks("(1 foo)"),
        vec![Tok::Bra, Tok::Num(1), tsym("foo"), Tok::Ket]
    );

    assert_eq!(toks("foo bar"), vec![tsym("foo"), tsym("bar")]);
    assert_eq!(toks("foo\nbar"), vec![tsym("foo"), tsym("bar")]);
    assert_eq!(toks("foo,bar"), vec![tsym("foo"), tsym("bar")]);
}

#[test]
fn comments() {
    assert_eq!(toks("foo ;; comment\n bar"), vec![tsym("foo"), tsym("bar")]);
}

#[test]
fn unfinished_string_sets_the_state() {
    let mut t = Tokenizer::new("\"foo");
    assert_eq!(t.next(), None);
    assert_eq!(t.state(), State::UnfinishedStr);
    assert_eq!(t.next(), None);
    assert_eq!(
        t.state().describe(),
        "Expected an ending quote, but the token stream finished before one was received"
    );
}

#[test]
fn bad_escape_sets_the_state() {
    let mut t = Tokenizer::new("\"\\u_x\"");
    assert_eq!(t.next(), None);
    assert_eq!(t.state(), State::BadEscape);
    assert_eq!(t.state().describe(), "Invalid escape code in string.");
}

#[test]
fn escape_table() {
    assert_eq!(
        toks("\"\\0\\a\\b\\t\\n\\v\\f\\r\\'\\\\\\q\""),
        vec![tstr("\u{0}\u{7}\u{8}\t\n\u{b}\u{c}\r'\\q")]
    );
}

#[test]
fn hex_escape_with_separator() {
    assert_eq!(toks("\"\\u00_4a\""), vec![tstr("J")]);
}

#[test]
fn state_of_a_fresh_tokenizer_is_sound() {
    let t = Tokenizer::new("");
    assert_eq!(t.state(), State::Normal);
    assert_eq!(t.state().describe(), "Ok");
}
