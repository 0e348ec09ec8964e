//! A deterministic character scanner for a parenthesized expression
//! language: punctuation, signed decimal numbers with `_` separators,
//! symbols, double-quoted strings with escapes, and `;` line comments.

use vstd::prelude::*;
use vstd::string::StrSliceExecFns;

verus! {

/// One token of the input stream.
#[derive(Debug, PartialEq)]
pub enum Tok {
    Bra,
    Ket,
    Quot,
    Num(i64),
    Sym(String),
    Str(String),
}

/// Mathematical image of a token: text carried as a character sequence.
pub enum TokView {
    Bra,
    Ket,
    Quot,
    Num(i64),
    Sym(Seq<char>),
    Str(Seq<char>),
}

impl View for Tok {
    type V = TokView;

    closed spec fn view(&self) -> TokView {
        match self {
            Tok::Bra => TokView::Bra,
            Tok::Ket => TokView::Ket,
            Tok::Quot => TokView::Quot,
            Tok::Num(v) => TokView::Num(*v),
            Tok::Sym(s) => TokView::Sym(s@),
            Tok::Str(s) => TokView::Str(s@),
        }
    }
}

/// Scanner condition: sound, or stopped at one of the two string errors.
#[derive(Debug, Clone, Copy, PartialEq, Eq, Structural)]
pub enum State {
    Normal,
    BadEscape,
    UnfinishedStr,
}

impl State {
    /// A human-readable account of the condition.
    pub fn describe(&self) -> (r: &'static str)
        ensures
            *self == State::Normal ==> r@ == "Ok"@,
            *self == State::BadEscape ==> r@ == "Invalid escape code in string."@,
            *self == State::UnfinishedStr ==> r@
                == "Expected an ending quote, but the token stream finished before one was received"@,
    {
        match *self {
            State::Normal => "Ok",
            State::BadEscape => "Invalid escape code in string.",
            State::UnfinishedStr => "Expected an ending quote, but the token stream finished before one was received",
        }
    }
}

/// The characters skipped between tokens.
pub open spec fn is_ws(c: char) -> bool {
    c == ' ' || c == ',' || c == '\t' || c == '\n' || c == '\r'
}

/// The characters that end a symbol.
pub open spec fn is_delim(c: char) -> bool {
    c == ' ' || c == '\t' || c == '\n' || c == ',' || c == ';' || c == '(' || c == ')' || c == '\''
        || c == '&' || c == '"'
}

/// Value of `c` as a digit in the given radix, `None` if it is no digit.
pub open spec fn digit_of(c: char, radix: u32) -> Option<u32> {
    let v = c as u32;
    let d = if '0' as u32 <= v <= '9' as u32 {
        Some((v - '0' as u32) as u32)
    } else if 'a' as u32 <= v <= 'z' as u32 {
        Some((v - 'a' as u32 + 10) as u32)
    } else if 'A' as u32 <= v <= 'Z' as u32 {
        Some((v - 'A' as u32 + 10) as u32)
    } else {
        None
    };
    if d matches Some(x) && x < radix {
        d
    } else {
        None
    }
}

/// A Unicode scalar value: what a `char` can hold.
pub open spec fn is_scalar_value(v: u32) -> bool {
    v < 0xD800 || (0xE000 <= v <= 0x10FFFF)
}

/// The character with scalar value `v`.
pub open spec fn char_of(v: u32) -> char {
    choose|c: char| (#[trigger] (c as u32)) == v
}

/// Relies on char::from_u32: `Some` exactly for Unicode scalar values,
/// yielding the character with that value.
pub assume_specification[ char::from_u32 ](v: u32) -> (r: Option<char>)
    ensures
        r is Some <==> is_scalar_value(v),
        r matches Some(c) ==> c as u32 == v && c == char_of(v),
;

/// Position just before the line's terminating newline (or the end of
/// input): where a `;` comment stops.
pub open spec fn spec_eat_line(s: Seq<char>, i: int) -> int
    decreases s.len() - i,
    when 0 <= i <= s.len()
{
    if i >= s.len() {
        i
    } else if s[i] == '\n' {
        i
    } else {
        spec_eat_line(s, i + 1)
    }
}

pub proof fn lemma_eat_line_bounds(s: Seq<char>, i: int)
    requires
        0 <= i <= s.len(),
    ensures
        i <= spec_eat_line(s, i) <= s.len(),
    decreases s.len() - i,
{
    if i < s.len() && s[i] != '\n' {
        lemma_eat_line_bounds(s, i + 1);
    }
}

/// First position at or after `i` holding neither whitespace nor a
/// comment.
pub open spec fn spec_skip_ws(s: Seq<char>, i: int) -> int
    decreases s.len() - i,
    when 0 <= i <= s.len()
    via spec_skip_ws_dec
{
    if i >= s.len() {
        i
    } else if is_ws(s[i]) {
        spec_skip_ws(s, i + 1)
    } else if s[i] == ';' {
        spec_skip_ws(s, spec_eat_line(s, i + 1))
    } else {
        i
    }
}

#[via_fn]
proof fn spec_skip_ws_dec(s: Seq<char>, i: int) {
    if 0 <= i < s.len() && !is_ws(s[i]) && s[i] == ';' {
        lemma_eat_line_bounds(s, i + 1);
    }
}

pub proof fn lemma_skip_ws_bounds(s: Seq<char>, i: int)
    requires
        0 <= i <= s.len(),
    ensures
        i <= spec_skip_ws(s, i) <= s.len(),
        spec_skip_ws(s, i) < s.len() ==> !is_ws(s[spec_skip_ws(s, i)]) && s[spec_skip_ws(s, i)]
            != ';',
    decreases s.len() - i,
{
    if i < s.len() {
        if is_ws(s[i]) {
            lemma_skip_ws_bounds(s, i + 1);
        } else if s[i] == ';' {
            lemma_eat_line_bounds(s, i + 1);
            lemma_skip_ws_bounds(s, spec_eat_line(s, i + 1));
        }
    }
}

/// Accumulate digits (skipping `_`) from `i` in the given radix, with
/// wrapping 64-bit arithmetic, stopping at the first other character.
/// Yields the stop position and the value.
pub open spec fn spec_digits(s: Seq<char>, i: int, radix: u32, acc: i64) -> (int, i64)
    decreases s.len() - i,
    when 0 <= i <= s.len()
{
    if i >= s.len() {
        (i, acc)
    } else if s[i] == '_' {
        spec_digits(s, i + 1, radix, acc)
    } else if digit_of(s[i], radix) is Some {
        spec_digits(s, i + 1, radix, ((acc * radix + digit_of(s[i], radix)->Some_0) as i64))
    } else {
        (i, acc)
    }
}

pub proof fn lemma_digits_bounds(s: Seq<char>, i: int, radix: u32, acc: i64)
    requires
        0 <= i <= s.len(),
    ensures
        i <= spec_digits(s, i, radix, acc).0 <= s.len(),
    decreases s.len() - i,
{
    if i < s.len() {
        if s[i] == '_' {
            lemma_digits_bounds(s, i + 1, radix, acc);
        } else if digit_of(s[i], radix) is Some {
            lemma_digits_bounds(s, i + 1, radix, ((acc * radix + digit_of(s[i], radix)->Some_0) as i64));
        }
    }
}

/// Scan the digits of a number whose first character `init` was already
/// consumed at `i - 1`: `None` if `init` is no digit.
pub open spec fn spec_next_digits(s: Seq<char>, i: int, init: char, radix: u32) -> (
    int,
    Option<i64>,
) {
    if digit_of(init, radix) is Some {
        let r = spec_digits(s, i, radix, digit_of(init, radix)->Some_0 as i64);
        (r.0, Some(r.1))
    } else {
        (i, None)
    }
}

/// The characters of a symbol starting at `i`, and the stop position.
pub open spec fn spec_sym(s: Seq<char>, i: int) -> (int, Seq<char>)
    decreases s.len() - i,
    when 0 <= i <= s.len()
{
    if i >= s.len() || is_delim(s[i]) {
        (i, Seq::empty())
    } else {
        let r = spec_sym(s, i + 1);
        (r.0, seq![s[i]] + r.1)
    }
}

/// The translation of one escape character, for the single-character
/// escapes; any character not listed (and not `u`) stands for itself.
pub open spec fn escape_char(e: char) -> char {
    if e == '0' {
        '\0'
    } else if e == 'a' {
        '\u{0007}'
    } else if e == 'b' {
        '\u{0008}'
    } else if e == 't' {
        '\t'
    } else if e == 'n' {
        '\n'
    } else if e == 'v' {
        '\u{000b}'
    } else if e == 'f' {
        '\u{000c}'
    } else if e == 'r' {
        '\r'
    } else {
        e
    }
}

/// Scan a string literal body from `i` (the opening quote already
/// consumed), accumulating into `acc`: the scanner state afterwards, the
/// stop position, and the text on success.
pub open spec fn spec_str(s: Seq<char>, i: int, acc: Seq<char>) -> (State, int, Option<Seq<char>>)
    decreases s.len() - i, 1int,
    when 0 <= i <= s.len()
    via spec_str_dec
{
    if i >= s.len() {
        (State::UnfinishedStr, i, None)
    } else if s[i] == '"' {
        (State::Normal, i + 1, Some(acc))
    } else if s[i] == '\\' {
        spec_str_escape(s, i + 1, acc)
    } else {
        spec_str(s, i + 1, acc.push(s[i]))
    }
}

/// Scan the escape whose backslash was consumed at `i - 1`.
pub open spec fn spec_str_escape(s: Seq<char>, i: int, acc: Seq<char>) -> (
    State,
    int,
    Option<Seq<char>>,
)
    decreases s.len() - i, 0int,
    when 0 <= i <= s.len()
    via spec_str_escape_dec
{
    if i >= s.len() {
        (State::BadEscape, i, None)
    } else if s[i] == 'u' {
        if i + 1 >= s.len() {
            (State::BadEscape, i + 1, None)
        } else if digit_of(s[i + 1], 16) is Some {
            let r = spec_digits(s, i + 2, 16, digit_of(s[i + 1], 16)->Some_0 as i64);
            if is_scalar_value(r.1 as u32) {
                spec_str(s, r.0, acc.push(char_of(r.1 as u32)))
            } else {
                (State::BadEscape, r.0, None)
            }
        } else {
            (State::BadEscape, i + 2, None)
        }
    } else {
        spec_str(s, i + 1, acc.push(escape_char(s[i])))
    }
}

#[via_fn]
proof fn spec_str_dec(s: Seq<char>, i: int, acc: Seq<char>) {
}

#[via_fn]
proof fn spec_str_escape_dec(s: Seq<char>, i: int, acc: Seq<char>) {
    if 0 <= i < s.len() && s[i] == 'u' && i + 1 < s.len() {
        if digit_of(s[i + 1], 16) is Some {
            lemma_digits_bounds(s, i + 2, 16, digit_of(s[i + 1], 16)->Some_0 as i64);
        }
    }
}

/// One step of the scanner: from state and position to the state, the
/// position, and the token (if any) after one `next` call. In an error
/// state the scanner yields nothing and stays put; at the end of input it
/// yields nothing.
pub open spec fn spec_next(s: Seq<char>, i: int, st: State) -> (State, int, Option<TokView>) {
    if st != State::Normal {
        (st, i, None)
    } else {
        let j = spec_skip_ws(s, i);
        if j >= s.len() {
            (State::Normal, j, None)
        } else {
            let c = s[j];
            if c == '(' {
                (State::Normal, j + 1, Some(TokView::Bra))
            } else if c == ')' {
                (State::Normal, j + 1, Some(TokView::Ket))
            } else if c == '\'' {
                (State::Normal, j + 1, Some(TokView::Quot))
            } else if c == '&' {
                (State::Normal, j + 1, Some(TokView::Sym(seq!['&'])))
            } else if c == '"' {
                let r = spec_str(s, j + 1, Seq::empty());
                (r.0, r.1, if r.2 is Some {
                    Some(TokView::Str(r.2->Some_0))
                } else {
                    None
                })
            } else if digit_of(c, 10) is Some {
                let r = spec_next_digits(s, j + 1, c, 10);
                (State::Normal, r.0, Some(TokView::Num(r.1->Some_0)))
            } else if (c == '+' || c == '-') && j + 1 < s.len() && digit_of(s[j + 1], 10)
                is Some {
                let sign: i64 = if c == '+' {
                    1i64
                } else {
                    -1i64
                };
                let r = spec_next_digits(s, j + 2, s[j + 1], 10);
                (State::Normal, r.0, Some(TokView::Num(((sign * r.1->Some_0) as i64))))
            } else {
                let r = spec_sym(s, j + 1);
                (State::Normal, r.0, Some(TokView::Sym(seq![c] + r.1)))
            }
        }
    }
}

/// The scanner: an input, a position (in characters), and a condition.
pub struct Tokenizer<'a> {
    state: State,
    input: &'a str,
    pos: usize,
    len: usize,
}

impl<'a> Tokenizer<'a> {
    pub closed spec fn inp(&self) -> Seq<char> {
        self.input@
    }

    pub closed spec fn at(&self) -> int {
        self.pos as int
    }

    pub closed spec fn st(&self) -> State {
        self.state
    }

    pub closed spec fn wf(&self) -> bool {
        0 <= self.pos <= self.len && self.len as int == self.input@.len()
    }

    pub fn new(input: &'a str) -> (t: Tokenizer<'a>)
        ensures
            t.wf(),
            t.inp() == input@,
            t.at() == 0,
            t.st() == State::Normal,
    {
        let len = input.unicode_len();
        Tokenizer { state: State::Normal, input, pos: 0, len }
    }

    /// The scanner's condition after the tokens seen so far.
    pub fn state(&self) -> (st: State)
        ensures
            st == self.st(),
    {
        self.state
    }

    fn peek_char(&self) -> (c: Option<char>)
        requires
            self.wf(),
        ensures
            self.at() < self.inp().len() ==> c == Some(self.inp()[self.at()]),
            self.at() >= self.inp().len() ==> c is None,
    {
        if self.pos < self.len {
            Some(self.input.get_char(self.pos))
        } else {
            None
        }
    }

    fn next_char(&mut self) -> (c: Option<char>)
        requires
            old(self).wf(),
        ensures
            final(self).wf(),
            final(self).inp() == old(self).inp(),
            final(self).st() == old(self).st(),
            old(self).at() < old(self).inp().len() ==> c == Some(
                old(self).inp()[old(self).at()],
            ) && final(self).at() == old(self).at() + 1,
            old(self).at() >= old(self).inp().len() ==> c is None && final(self).at() == old(
                self,
            ).at(),
    {
        let c = self.peek_char();
        if c.is_some() {
            self.pos = self.pos + 1;
        }
        c
    }

    fn following<F: Fn(char) -> bool>(&self, f: F) -> (r: bool)
        requires
            self.wf(),
            forall|c: char| #[trigger] f.requires((c,)),
        ensures
            self.at() < self.inp().len() ==> f.ensures((self.inp()[self.at()],), r),
            self.at() >= self.inp().len() ==> r == false,
    {
        match self.peek_char() {
            Some(c) => f(c),
            None => false,
        }
    }

    fn eat_line(&mut self)
        requires
            old(self).wf(),
        ensures
            final(self).wf(),
            final(self).inp() == old(self).inp(),
            final(self).st() == old(self).st(),
            final(self).at() == spec_eat_line(old(self).inp(), old(self).at()),
        decreases old(self).inp().len() - old(self).at(),
    {
        match self.peek_char() {
            Some(c) => {
                if c != '\n' {
                    self.next_char();
                    self.eat_line();
                }
            },
            None => {},
        }
    }

    fn skip_ws(&mut self)
        requires
            old(self).wf(),
        ensures
            final(self).wf(),
            final(self).inp() == old(self).inp(),
            final(self).st() == old(self).st(),
            final(self).at() == spec_skip_ws(old(self).inp(), old(self).at()),
        decreases old(self).inp().len() - old(self).at(),
    {
        match self.peek_char() {
            Some(c) => {
                if c == ' ' || c == ',' || c == '\t' || c == '\n' || c == '\r' {
                    self.next_char();
                    self.skip_ws();
                } else if c == ';' {
                    proof {
                        lemma_eat_line_bounds(self.inp(), self.at() + 1);
                    }
                    self.next_char();
                    self.eat_line();
                    self.skip_ws();
                }
            },
            None => {},
        }
    }

    fn next_digits(&mut self, init: char, radix: u32) -> (r: Option<i64>)
        requires
            old(self).wf(),
            2 <= radix <= 36,
        ensures
            final(self).wf(),
            final(self).inp() == old(self).inp(),
            final(self).st() == old(self).st(),
            ({
                let sp = spec_next_digits(old(self).inp(), old(self).at(), init, radix);
                final(self).at() == sp.0 && r == sp.1
            }),
    {
        match digit_val(init, radix) {
            None => None,
            Some(d) => Some(self.digits_from(radix, d as i64)),
        }
    }

    fn digits_from(&mut self, radix: u32, acc: i64) -> (r: i64)
        requires
            old(self).wf(),
            2 <= radix <= 36,
        ensures
            final(self).wf(),
            final(self).inp() == old(self).inp(),
            final(self).st() == old(self).st(),
            ({
                let sp = spec_digits(old(self).inp(), old(self).at(), radix, acc);
                final(self).at() == sp.0 && r == sp.1
            }),
        decreases old(self).inp().len() - old(self).at(),
    {
        match self.peek_char() {
            None => acc,
            Some(c) => {
                if c == '_' {
                    self.next_char();
                    self.digits_from(radix, acc)
                } else {
                    match digit_val(c, radix) {
                        Some(d) => {
                            self.next_char();
                            proof {
                                let a = acc as int;
                                let rx = radix as int;
                                assert(-0x8000_0000_0000_0000 * 36 <= a * rx && a * rx
                                    <= 0x8000_0000_0000_0000 * 36) by (nonlinear_arith)
                                    requires
                                        -0x8000_0000_0000_0000 <= a,
                                        a < 0x8000_0000_0000_0000,
                                        2 <= rx,
                                        rx <= 36,
                                {
                                }
                            }
                            let wide: i128 = acc as i128 * radix as i128 + d as i128;
                            let acc2 = #[verifier::truncate] (wide as i64);
                            self.digits_from(radix, acc2)
                        },
                        None => acc,
                    }
                }
            },
        }
    }

    fn slice_str(&mut self) -> (r: Option<Tok>)
        requires
            old(self).wf(),
            old(self).st() == State::Normal,
        ensures
            final(self).wf(),
            final(self).inp() == old(self).inp(),
            ({
                let sp = spec_str(old(self).inp(), old(self).at(), Seq::empty());
                final(self).st() == sp.0 && final(self).at() == sp.1 && (match r {
                    Some(tok) => sp.2 matches Some(text) && tok@ == TokView::Str(text),
                    None => sp.2 is None,
                })
            }),
    {
        let acc = new_string();
        self.str_body(acc)
    }

    fn str_body(&mut self, acc: String) -> (r: Option<Tok>)
        requires
            old(self).wf(),
            old(self).st() == State::Normal,
        ensures
            final(self).wf(),
            final(self).inp() == old(self).inp(),
            ({
                let sp = spec_str(old(self).inp(), old(self).at(), acc@);
                final(self).st() == sp.0 && final(self).at() == sp.1 && (match r {
                    Some(tok) => sp.2 matches Some(text) && tok@ == TokView::Str(text),
                    None => sp.2 is None,
                })
            }),
        decreases old(self).inp().len() - old(self).at(), 1int,
    {
        match self.next_char() {
            None => {
                self.state = State::UnfinishedStr;
                None
            },
            Some(c) => {
                if c == '"' {
                    Some(Tok::Str(acc))
                } else if c == '\\' {
                    self.str_escape(acc)
                } else {
                    let mut acc2 = acc;
                    push_char(&mut acc2, c);
                    self.str_body(acc2)
                }
            },
        }
    }

    fn str_escape(&mut self, acc: String) -> (r: Option<Tok>)
        requires
            old(self).wf(),
            old(self).st() == State::Normal,
        ensures
            final(self).wf(),
            final(self).inp() == old(self).inp(),
            ({
                let sp = spec_str_escape(old(self).inp(), old(self).at(), acc@);
                final(self).st() == sp.0 && final(self).at() == sp.1 && (match r {
                    Some(tok) => sp.2 matches Some(text) && tok@ == TokView::Str(text),
                    None => sp.2 is None,
                })
            }),
        decreases old(self).inp().len() - old(self).at(), 0int,
    {
        match self.next_char() {
            None => {
                self.state = State::BadEscape;
                None
            },
            Some(e) => {
                if e == 'u' {
                    match self.next_char() {
                        None => {
                            self.state = State::BadEscape;
                            None
                        },
                        Some(init) => {
                            proof {
                                lemma_digits_bounds(
                                    self.inp(),
                                    self.at(),
                                    16,
                                    (digit_of(init, 16)->Some_0) as i64,
                                );
                            }
                            match self.next_digits(init, 16) {
                                None => {
                                    self.state = State::BadEscape;
                                    None
                                },
                                Some(code) => {
                                    let code32 = #[verifier::truncate] (code as u32);
                                    match char::from_u32(code32) {
                                        Some(ch) => {
                                            let mut acc2 = acc;
                                            push_char(&mut acc2, ch);
                                            self.str_body(acc2)
                                        },
                                        None => {
                                            self.state = State::BadEscape;
                                            None
                                        },
                                    }
                                },
                            }
                        },
                    }
                } else {
                    let ch = escape_val(e);
                    let mut acc2 = acc;
                    push_char(&mut acc2, ch);
                    self.str_body(acc2)
                }
            },
        }
    }

    fn slice_num(&mut self, init: char, sign: i64) -> (r: Option<Tok>)
        requires
            old(self).wf(),
            sign == 1i64 || sign == -1i64,
        ensures
            final(self).wf(),
            final(self).inp() == old(self).inp(),
            final(self).st() == old(self).st(),
            ({
                let sp = spec_next_digits(old(self).inp(), old(self).at(), init, 10);
                final(self).at() == sp.0 && (match r {
                    Some(tok) => sp.1 matches Some(v) && tok@ == TokView::Num(((sign * v) as i64)),
                    None => sp.1 is None,
                })
            }),
    {
        match self.next_digits(init, 10) {
            None => None,
            Some(v) => {
                let wide: i128 = sign as i128 * v as i128;
                let prod = #[verifier::truncate] (wide as i64);
                Some(Tok::Num(prod))
            },
        }
    }

    fn slice_sym(&mut self, init: char) -> (r: Option<Tok>)
        requires
            old(self).wf(),
        ensures
            final(self).wf(),
            final(self).inp() == old(self).inp(),
            final(self).st() == old(self).st(),
            ({
                let sp = spec_sym(old(self).inp(), old(self).at());
                final(self).at() == sp.0 && (match r {
                    Some(tok) => tok@ == TokView::Sym(seq![init] + sp.1),
                    None => false,
                })
            }),
    {
        let mut name = new_string();
        push_char(&mut name, init);
        self.sym_body(&mut name);
        proof {
            assert(name@ =~= seq![init] + spec_sym(old(self).inp(), old(self).at()).1);
        }
        Some(Tok::Sym(name))
    }

    fn sym_body(&mut self, name: &mut String)
        requires
            old(self).wf(),
        ensures
            final(self).wf(),
            final(self).inp() == old(self).inp(),
            final(self).st() == old(self).st(),
            ({
                let sp = spec_sym(old(self).inp(), old(self).at());
                final(self).at() == sp.0 && final(name)@ == old(name)@ + sp.1
            }),
        decreases old(self).inp().len() - old(self).at(),
    {
        let ghost pre = name@;
        match self.peek_char() {
            None => {
                proof {
                    assert(pre + Seq::<char>::empty() =~= pre);
                }
            },
            Some(c) => {
                if c == ' ' || c == '\t' || c == '\n' || c == ',' || c == ';' || c == '(' || c
                    == ')' || c == '\'' || c == '&' || c == '"' {
                    proof {
                        assert(pre + Seq::<char>::empty() =~= pre);
                    }
                } else {
                    self.next_char();
                    push_char(name, c);
                    self.sym_body(name);
                    proof {
                        let rest = spec_sym(old(self).inp(), old(self).at() + 1).1;
                        assert(name@ == pre.push(c) + rest);
                        assert(pre.push(c) + rest =~= pre + (seq![c] + rest));
                    }
                }
            },
        }
    }

    /// The next token, or `None` at the end of input or after an error;
    /// the scanner's condition tells which.
    pub fn next(&mut self) -> (t: Option<Tok>)
        requires
            old(self).wf(),
        ensures
            final(self).wf(),
            final(self).inp() == old(self).inp(),
            ({
                let sp = spec_next(old(self).inp(), old(self).at(), old(self).st());
                final(self).st() == sp.0 && final(self).at() == sp.1 && (match t {
                    Some(tok) => sp.2 matches Some(tv) && tok@ == tv,
                    None => sp.2 is None,
                })
            }),
    {
        if !matches!(self.state, State::Normal) {
            return None;
        }
        self.skip_ws();
        proof {
            lemma_skip_ws_bounds(old(self).inp(), old(self).at());
        }
        match self.next_char() {
            None => None,
            Some(c) => {
                if c == '(' {
                    Some(Tok::Bra)
                } else if c == ')' {
                    Some(Tok::Ket)
                } else if c == '\'' {
                    Some(Tok::Quot)
                } else if c == '&' {
                    let mut amp = new_string();
                    push_char(&mut amp, '&');
                    proof {
                        assert(amp@ =~= seq!['&']);
                    }
                    Some(Tok::Sym(amp))
                } else if c == '"' {
                    self.slice_str()
                } else if digit_val(c, 10).is_some() {
                    self.slice_num(c, 1)
                } else if (c == '+' || c == '-') && self.following(is_digit10) {
                    let init = self.next_char().unwrap();
                    self.slice_num(init, if c == '+' {
                        1
                    } else {
                        -1
                    })
                } else {
                    self.slice_sym(c)
                }
            },
        }
    }
}

/// `c` is a decimal digit; the shape a sign must be followed by to start
/// a number.
fn is_digit10(c: char) -> (b: bool)
    ensures
        b == (digit_of(c, 10) is Some),
{
    digit_val(c, 10).is_some()
}

/// Value of `c` as a digit in the given radix.
fn digit_val(c: char, radix: u32) -> (r: Option<u32>)
    requires
        2 <= radix <= 36,
    ensures
        r == digit_of(c, radix),
{
    let v = c as u32;
    let d: Option<u32> = if v >= '0' as u32 && v <= '9' as u32 {
        Some(v - '0' as u32)
    } else if v >= 'a' as u32 && v <= 'z' as u32 {
        Some(v - 'a' as u32 + 10)
    } else if v >= 'A' as u32 && v <= 'Z' as u32 {
        Some(v - 'A' as u32 + 10)
    } else {
        None
    };
    match d {
        Some(x) if x < radix => Some(x),
        _ => None,
    }
}

/// The single-character escape translations.
fn escape_val(e: char) -> (c: char)
    ensures
        c == escape_char(e),
{
    if e == '0' {
        '\0'
    } else if e == 'a' {
        '\u{0007}'
    } else if e == 'b' {
        '\u{0008}'
    } else if e == 't' {
        '\t'
    } else if e == 'n' {
        '\n'
    } else if e == 'v' {
        '\u{000b}'
    } else if e == 'f' {
        '\u{000c}'
    } else if e == 'r' {
        '\r'
    } else {
        e
    }
}

/// An empty string.
fn new_string() -> (s: String)
    ensures
        s@ =~= Seq::<char>::empty(),
{
    proof {
        reveal_strlit("");
    }
    String::from_str("")
}

/// Relies on String::push: appends exactly one character at the end.
#[verifier::external_body]
fn push_char(s: &mut String, c: char)
    ensures
        final(s)@ == old(s)@.push(c),
{
    s.push(c);
}


} // verus!
