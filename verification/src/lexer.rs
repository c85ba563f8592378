//! From text to tokens, and the cursor with which the parser reads them.

use vstd::prelude::*;
use vstd::string::*;
use crate::ruccerr::{RuccErr, RuccErrView};
use crate::text::{
    all_digits, char_is_digit, char_is_space, chars_of, decimal_value, is_digit, is_space,
    nat_text, int_text, parse_digits, push_int, push_nat, starts_with_at, str_eq,
    lemma_nat_text_reads_back,
};

verus! {

/// A place in the text: a line, and an index into the characters.
#[derive(Debug, Clone, Copy, PartialEq, Eq)]
pub struct Point {
    line: usize,
    pos: usize,
}

/// A place as a plain value.
pub struct Place {
    pub line: nat,
    pub pos: nat,
}

impl Place {
    /// A line that points at the place from below: a caret under the
    /// character at index `pos`, behind as many spaces.
    pub open spec fn marker(self) -> Seq<char> {
        Seq::new(self.pos, |i: int| ' ').push('^')
    }

    /// The place as text: `line: 1 pos: 4`.
    pub open spec fn text(self) -> Seq<char> {
        "line: "@ + nat_text(self.line) + " pos: "@ + nat_text(self.pos)
    }
}

impl View for Point {
    type V = Place;

    closed spec fn view(&self) -> Place {
        Place { line: self.line as nat, pos: self.pos as nat }
    }
}

impl Point {
    /// The index of the character, counted from 0.
    pub fn get_pos(&self) -> (pos: usize)
        ensures
            pos == self@.pos,
    {
        self.pos
    }

    /// The line, counted from 1.
    pub fn get_line(&self) -> (line: usize)
        ensures
            line == self@.line,
    {
        self.line
    }

    /// The line to print under the text, to show where the place is.
    pub fn marker(&self) -> (s: String)
        ensures
            s@ == self@.marker(),
    {
        let mut s = String::new();
        let mut i: usize = 0;
        proof {
            reveal_strlit(" ");
            reveal_strlit("^");
            assert(" "@ =~= seq![' ']);
            assert("^"@ =~= seq!['^']);
            assert(s@ =~= Seq::new(0, |k: int| ' '));
        }
        while i < self.pos
            invariant
                i <= self.pos,
                " "@ == seq![' '],
                s@ == Seq::new(i as nat, |k: int| ' '),
            decreases self.pos - i,
        {
            s.append(" ");
            i += 1;
            assert(s@ =~= Seq::new(i as nat, |k: int| ' '));
        }
        s.append("^");
        assert(s@ =~= self@.marker());
        s
    }

    /// Appends the place to `s`, as `line: 1 pos: 4`.
    pub fn push_text(&self, s: &mut String)
        ensures
            final(s)@ == old(s)@ + self@.text(),
    {
        s.append("line: ");
        push_nat(s, self.line as u64);
        s.append(" pos: ");
        push_nat(s, self.pos as u64);
        assert(s@ =~= old(s)@ + self@.text());
    }

    /// The place as text.
    pub fn to_string(&self) -> (s: String)
        ensures
            s@ == self@.text(),
    {
        let mut s = String::new();
        self.push_text(&mut s);
        assert(s@ =~= self@.text());
        s
    }
}

/// What a token is.
#[derive(Debug, Clone, Copy, PartialEq, Eq)]
pub enum TokenKind {
    /// An operator or a bracket.
    Reserved(&'static str),
    /// A number.
    Integer(i32),
    /// The end of the text.
    Eof,
}

/// The kind of a token as a plain value.
pub enum TokenKindView {
    Reserved(Seq<char>),
    Integer(i32),
    Eof,
}

impl TokenKindView {
    /// The kind as text: `symbole +`, `integer 12` or `end of file`.
    pub open spec fn text(self) -> Seq<char> {
        match self {
            TokenKindView::Reserved(s) => "symbole "@ + s,
            TokenKindView::Integer(v) => "integer "@ + int_text(v as int),
            TokenKindView::Eof => "end of file"@,
        }
    }
}

impl View for TokenKind {
    type V = TokenKindView;

    open spec fn view(&self) -> TokenKindView {
        match *self {
            TokenKind::Reserved(s) => TokenKindView::Reserved(s@),
            TokenKind::Integer(v) => TokenKindView::Integer(v),
            TokenKind::Eof => TokenKindView::Eof,
        }
    }
}

impl TokenKind {
    /// Appends the kind to `s`, as `symbole +`, `integer 12` or `end of file`.
    pub fn push_text(&self, s: &mut String)
        ensures
            final(s)@ == old(s)@ + self@.text(),
    {
        match *self {
            TokenKind::Reserved(sym) => {
                s.append("symbole ");
                s.append(sym);
            },
            TokenKind::Integer(v) => {
                s.append("integer ");
                push_int(s, v);
            },
            TokenKind::Eof => {
                s.append("end of file");
            },
        }
        assert(s@ =~= old(s)@ + self@.text());
    }

    /// The kind as text.
    pub fn to_string(&self) -> (s: String)
        ensures
            s@ == self@.text(),
    {
        let mut s = String::new();
        self.push_text(&mut s);
        assert(s@ =~= self@.text());
        s
    }
}

/// A token: what it is, and where in the text it begins.
#[derive(Debug, Clone, Copy, PartialEq, Eq)]
pub struct Token {
    kind: TokenKind,
    point: Point,
}

/// A token as a plain value.
pub struct TokenView {
    pub kind: TokenKindView,
    pub point: Place,
}

impl TokenView {
    /// The token as text: its kind, ` at `, its place.
    pub open spec fn text(self) -> Seq<char> {
        self.kind.text() + " at "@ + self.point.text()
    }
}

impl View for Token {
    type V = TokenView;

    closed spec fn view(&self) -> TokenView {
        TokenView { kind: self.kind@, point: self.point@ }
    }
}

impl Token {
    /// A token of the given kind that begins at index `pos` of line `line`.
    pub fn new(kind: TokenKind, line: usize, pos: usize) -> (t: Token)
        ensures
            t@ == (TokenView { kind: kind@, point: Place { line: line as nat, pos: pos as nat } }),
    {
        Token { kind, point: Point { line, pos } }
    }

    /// Where the token begins.
    pub fn get_point(&self) -> (p: &Point)
        ensures
            p@ == self@.point,
    {
        &self.point
    }

    /// What the token is.
    pub fn get_kind(&self) -> (k: TokenKind)
        ensures
            k@ == self@.kind,
    {
        self.kind
    }

    /// Appends the token to `s`: its kind, ` at `, its place.
    pub fn push_text(&self, s: &mut String)
        ensures
            final(s)@ == old(s)@ + self@.text(),
    {
        self.kind.push_text(s);
        s.append(" at ");
        self.point.push_text(s);
        assert(s@ =~= old(s)@ + self@.text());
    }

    /// The token as text.
    pub fn to_string(&self) -> (s: String)
        ensures
            s@ == self@.text(),
    {
        let mut s = String::new();
        self.push_text(&mut s);
        assert(s@ =~= self@.text());
        s
    }
}

/// The reserved symbols, in the order in which they are tried: each
/// two-character symbol before the one-character symbol that begins it.
pub open spec fn symbols() -> Seq<Seq<char>> {
    seq![
        seq!['=', '='],
        seq!['!', '='],
        seq!['<', '='],
        seq!['>', '='],
        seq!['+'],
        seq!['-'],
        seq!['*'],
        seq!['/'],
        seq!['('],
        seq![')'],
        seq!['<'],
        seq!['>'],
    ]
}

/// The first of `syms`, from index `from` on, that `s` begins with.
pub open spec fn first_prefix(syms: Seq<Seq<char>>, s: Seq<char>, from: nat) -> Option<Seq<char>>
    decreases syms.len() - from,
{
    if from >= syms.len() {
        None
    } else if syms[from as int].is_prefix_of(s) {
        Some(syms[from as int])
    } else {
        first_prefix(syms, s, from + 1)
    }
}

/// The reserved symbol that stands in `s` at index `cur`, if there is one.
pub open spec fn reserved_at(s: Seq<char>, cur: nat) -> Option<Seq<char>> {
    first_prefix(symbols(), s.subrange(cur as int, s.len() as int), 0)
}

/// The index behind the longest run of digits that begins at `from`.
pub open spec fn digits_end(s: Seq<char>, from: nat) -> nat
    decreases s.len() - from,
{
    if from < s.len() && is_digit(s[from as int]) {
        digits_end(s, from + 1)
    } else {
        from
    }
}

/// The message for a character that begins no token.
pub open spec fn unexpected_char_message(c: char) -> Seq<char> {
    "unexpected "@.push(c)
}

/// The message for a run of digits that is too large for 32 bits.
pub open spec fn too_large_message(digits: Seq<char>) -> Seq<char> {
    "can't pares "@ + digits + " number too large to fit in target type"@
}

/// The message for a token that does not fit the grammar.
pub open spec fn unexpected_token_message() -> Seq<char> {
    "unexpected"@
}

/// The message for reading behind the last token.
pub open spec fn inside_message() -> Seq<char> {
    "inside: no token is left to read"@
}

/// A token of the given kind at index `pos` of line 1.
pub open spec fn token_at(kind: TokenKindView, pos: nat) -> TokenView {
    TokenView { kind, point: Place { line: 1, pos } }
}

/// `r` with the tokens `first` put before it.
pub open spec fn after(first: Seq<TokenView>, r: Result<Seq<TokenView>, RuccErrView>) -> Result<
    Seq<TokenView>,
    RuccErrView,
> {
    match r {
        Ok(rest) => Ok(first + rest),
        Err(e) => Err(e),
    }
}

/// The tokens of `s` from index `cur` on, or the first error.
///
/// White space is passed over. A digit begins a number, which runs as far
/// as the digits do and must fit in 32 bits. Anything else must be a
/// reserved symbol. The end of the text gives the token `Eof`.
pub open spec fn lex_from(s: Seq<char>, cur: nat) -> Result<Seq<TokenView>, RuccErrView>
    decreases s.len() - cur,
    via lex_from_ends
{
    if cur >= s.len() {
        Ok(seq![token_at(TokenKindView::Eof, cur)])
    } else if is_space(s[cur as int]) {
        lex_from(s, cur + 1)
    } else if is_digit(s[cur as int]) {
        let end = digits_end(s, cur);
        let digits = s.subrange(cur as int, end as int);
        if decimal_value(digits) <= i32::MAX {
            after(
                seq![token_at(TokenKindView::Integer(decimal_value(digits) as i32), cur)],
                lex_from(s, end),
            )
        } else {
            Err(RuccErrView::ParseErr(too_large_message(digits), Place { line: 1, pos: cur }))
        }
    } else {
        match reserved_at(s, cur) {
            Some(sym) => after(
                seq![token_at(TokenKindView::Reserved(sym), cur)],
                lex_from(s, cur + sym.len()),
            ),
            None => Err(
                RuccErrView::ParseErr(
                    unexpected_char_message(s[cur as int]),
                    Place { line: 1, pos: cur },
                ),
            ),
        }
    }
}

#[via_fn]
proof fn lex_from_ends(s: Seq<char>, cur: nat) {
    if cur < s.len() {
        lemma_digits_end_bounds(s, cur);
        lemma_reserved_at_len(s, cur);
    }
}

/// A run of digits ends at or behind its beginning, inside the text, and
/// holds digits only.
pub proof fn lemma_digits_end_bounds(s: Seq<char>, from: nat)
    requires
        from <= s.len(),
    ensures
        from <= digits_end(s, from) <= s.len(),
        from < s.len() && is_digit(s[from as int]) ==> from < digits_end(s, from),
        all_digits(s.subrange(from as int, digits_end(s, from) as int)),
        digits_end(s, from) < s.len() ==> !is_digit(s[digits_end(s, from) as int]),
    decreases s.len() - from,
{
    if from < s.len() && is_digit(s[from as int]) {
        lemma_digits_end_bounds(s, from + 1);
        let end = digits_end(s, from);
        assert forall|i: int| 0 <= i < end - from implies is_digit(
            #[trigger] s.subrange(from as int, end as int)[i],
        ) by {
            if i > 0 {
                assert(s.subrange(from as int, end as int)[i] == s.subrange(
                    from as int + 1,
                    end as int,
                )[i - 1]);
            }
        }
    }
}

/// A symbol that `first_prefix` finds is one of the list, at or behind
/// `from`, and `s` begins with it and with none before it.
pub proof fn lemma_first_prefix(syms: Seq<Seq<char>>, s: Seq<char>, from: nat)
    ensures
        match first_prefix(syms, s, from) {
            Some(sym) => exists|i: int|
                from <= i < syms.len() && #[trigger] syms[i] == sym && sym.is_prefix_of(s)
                    && forall|j: int| from <= j < i ==> !(#[trigger] syms[j]).is_prefix_of(s),
            None => forall|j: int| from <= j < syms.len() ==> !(#[trigger] syms[j]).is_prefix_of(s),
        },
    decreases syms.len() - from,
{
    if from < syms.len() && !syms[from as int].is_prefix_of(s) {
        lemma_first_prefix(syms, s, from + 1);
        match first_prefix(syms, s, from) {
            Some(sym) => {
                let i = choose|i: int|
                    from + 1 <= i < syms.len() && #[trigger] syms[i] == sym && sym.is_prefix_of(s)
                        && forall|j: int|
                        from + 1 <= j < i ==> !(#[trigger] syms[j]).is_prefix_of(s);
                assert(from <= i < syms.len() && syms[i] == sym && sym.is_prefix_of(s)
                    && forall|j: int| from <= j < i ==> !(#[trigger] syms[j]).is_prefix_of(s));
            },
            None => {},
        }
    } else if from < syms.len() {
        assert(syms[from as int] == first_prefix(syms, s, from).unwrap());
    }
}

/// A reserved symbol has one or two characters, and where one is found
/// the text holds it.
pub proof fn lemma_reserved_at_len(s: Seq<char>, cur: nat)
    requires
        cur <= s.len(),
    ensures
        match reserved_at(s, cur) {
            Some(sym) => 1 <= sym.len() <= 2 && cur + sym.len() <= s.len() && sym == s.subrange(
                cur as int,
                cur as int + sym.len(),
            ),
            None => true,
        },
{
    let rest = s.subrange(cur as int, s.len() as int);
    lemma_first_prefix(symbols(), rest, 0);
    match reserved_at(s, cur) {
        Some(sym) => {
            assert(sym =~= s.subrange(cur as int, cur as int + sym.len()));
        },
        None => {},
    }
}

/// The tokens of the whole text, or the first error.
pub open spec fn lex(s: Seq<char>) -> Result<Seq<TokenView>, RuccErrView> {
    lex_from(s, 0)
}

/// The tokens of a vector as plain values.
pub open spec fn token_views(toks: Seq<Token>) -> Seq<TokenView> {
    Seq::new(toks.len(), |i: int| toks[i]@)
}

/// The token at index `pos`, or the error for reading behind the last one.
pub open spec fn head_of(toks: Seq<TokenView>, pos: nat) -> Result<TokenView, RuccErrView> {
    if pos < toks.len() {
        Ok(toks[pos as int])
    } else {
        Err(RuccErrView::InsideErr(inside_message()))
    }
}

/// Whether the last of the tokens is `Eof`.
pub open spec fn eof_last(toks: Seq<TokenView>) -> bool {
    toks.len() >= 1 && toks.last().kind == TokenKindView::Eof
}

/// The tokens of a text, and how many of them have been read.
#[derive(Debug)]
pub struct Lexer {
    token: Vec<Token>,
    position: usize,
}

/// A lexer as a plain value.
pub struct LexerView {
    pub tokens: Seq<TokenView>,
    pub position: nat,
}

impl LexerView {
    /// The token that is read next.
    pub open spec fn head(self) -> Result<TokenView, RuccErrView> {
        head_of(self.tokens, self.position)
    }

    /// The last token is `Eof`, and the token read next exists: as it is
    /// of every lexer that `Lexer::new` made, however far it has been read.
    pub open spec fn ends_with_eof(self) -> bool {
        &&& self.position < self.tokens.len()
        &&& eof_last(self.tokens)
    }
}

impl View for Lexer {
    type V = LexerView;

    closed spec fn view(&self) -> LexerView {
        LexerView { tokens: token_views(self.token@), position: self.position as nat }
    }
}

/// The reserved symbols as strings, in the order of `symbols`.
fn reserved_symbols() -> (v: Vec<&'static str>)
    ensures
        v@.len() == symbols().len(),
        forall|i: int| 0 <= i < v@.len() ==> (#[trigger] v@[i])@ == symbols()[i],
{
    let mut v: Vec<&'static str> = Vec::new();
    v.push("==");
    v.push("!=");
    v.push("<=");
    v.push(">=");
    v.push("+");
    v.push("-");
    v.push("*");
    v.push("/");
    v.push("(");
    v.push(")");
    v.push("<");
    v.push(">");
    proof {
        reveal_strlit("==");
        reveal_strlit("!=");
        reveal_strlit("<=");
        reveal_strlit(">=");
        reveal_strlit("+");
        reveal_strlit("-");
        reveal_strlit("*");
        reveal_strlit("/");
        reveal_strlit("(");
        reveal_strlit(")");
        reveal_strlit("<");
        reveal_strlit(">");
        assert("=="@ =~= symbols()[0]);
        assert("!="@ =~= symbols()[1]);
        assert("<="@ =~= symbols()[2]);
        assert(">="@ =~= symbols()[3]);
        assert("+"@ =~= symbols()[4]);
        assert("-"@ =~= symbols()[5]);
        assert("*"@ =~= symbols()[6]);
        assert("/"@ =~= symbols()[7]);
        assert("("@ =~= symbols()[8]);
        assert(")"@ =~= symbols()[9]);
        assert("<"@ =~= symbols()[10]);
        assert(">"@ =~= symbols()[11]);
    }
    v
}

impl Lexer {
    /// Reads the whole text into tokens; the first of them is read next.
    pub fn new(input: &String) -> (r: Result<Lexer, RuccErr>)
        ensures
            match lex(input@) {
                Ok(toks) => r is Ok && r->Ok_0@ == (LexerView { tokens: toks, position: 0 })
                    && r->Ok_0@.ends_with_eof(),
                Err(e) => r is Err && r->Err_0@ == e,
            },
    {
        match Lexer::tokenize(input) {
            Ok(tkn) => {
                proof {
                    lemma_lex_ends_with_eof(input@, 0);
                }
                Ok(Lexer { token: tkn, position: 0 })
            },
            Err(e) => Err(e),
        }
    }

    /// The tokens of `input`, with `Eof` as the last, or the first error.
    pub fn tokenize(input: &String) -> (r: Result<Vec<Token>, RuccErr>)
        ensures
            match lex(input@) {
                Ok(toks) => r is Ok && token_views(r->Ok_0@) == toks,
                Err(e) => r is Err && r->Err_0@ == e,
            },
    {
        let mut tkn: Vec<Token> = Vec::new();
        let mut cur: usize = 0;
        let chars: Vec<char> = chars_of(input.as_str());
        let line: usize = 1;
        assert(token_views(tkn@) =~= Seq::<TokenView>::empty());
        assert(after(token_views(tkn@), lex_from(chars@, 0)) == lex_from(chars@, 0)) by {
            match lex_from(chars@, 0) {
                Ok(rest) => {
                    assert(token_views(tkn@) + rest =~= rest);
                },
                Err(e) => {},
            }
        }

        while cur < chars.len()
            invariant
                cur <= chars.len(),
                line == 1,
                chars@ == input@,
                lex(chars@) == after(token_views(tkn@), lex_from(chars@, cur as nat)),
            decreases chars.len() - cur,
        {
            let c: char = chars[cur];

            if char_is_space(c) {
                cur += 1;
                continue;
            }
            let ghost before = token_views(tkn@);
            let t: Token = if char_is_digit(c) {
                let mut tail: usize = cur + 1;
                while tail < chars.len() && char_is_digit(chars[tail])
                    invariant
                        cur < tail <= chars.len(),
                        digits_end(chars@, cur as nat) == digits_end(chars@, tail as nat),
                    decreases chars.len() - tail,
                {
                    tail += 1;
                }
                proof {
                    lemma_digits_end_bounds(chars@, cur as nat);
                    assert(digits_end(chars@, tail as nat) == tail);
                }
                match parse_digits(&chars, cur, tail) {
                    Some(v) => {
                        let t = Token::new(TokenKind::Integer(v), line, cur);
                        cur = tail;
                        t
                    },
                    None => {
                        let mut msg = String::from_str("can't pares ");
                        msg.append(input.as_str().substring_char(cur, tail));
                        msg.append(" number too large to fit in target type");
                        return Err(RuccErr::ParseErr(msg, Point { line, pos: cur }));
                    },
                }
            } else {
                proof {
                    lemma_reserved_at_len(chars@, cur as nat);
                }
                match Lexer::parse_reserved(input.as_str(), &chars, line, &mut cur) {
                    Ok(t) => t,
                    Err(e) => {
                        return Err(e);
                    },
                }
            };

            tkn.push(t);
            proof {
                assert(token_views(tkn@) =~= before + seq![t@]);
                match lex_from(chars@, cur as nat) {
                    Ok(rest) => {
                        assert(before + (seq![t@] + rest) =~= (before + seq![t@]) + rest);
                    },
                    Err(e) => {},
                }
            }
        }

        let ghost before = token_views(tkn@);
        tkn.push(Token::new(TokenKind::Eof, line, cur));
        assert(token_views(tkn@) =~= before + seq![token_at(TokenKindView::Eof, cur as nat)]);

        Ok(tkn)
    }

    /// Reads the reserved symbol at index `cur` of the text, whose
    /// characters are `input`, and moves `cur` behind it.
    fn parse_reserved(text: &str, input: &Vec<char>, line: usize, cur: &mut usize) -> (r: Result<
        Token,
        RuccErr,
    >)
        requires
            text@ == input@,
            *old(cur) < input.len(),
        ensures
            match reserved_at(input@, *old(cur) as nat) {
                Some(sym) => r is Ok && r->Ok_0@ == (TokenView {
                    kind: TokenKindView::Reserved(sym),
                    point: Place { line: line as nat, pos: *old(cur) as nat },
                }) && *final(cur) == *old(cur) + sym.len(),
                None => r is Err && r->Err_0@ == RuccErrView::ParseErr(
                    unexpected_char_message(input@[*old(cur) as int]),
                    Place { line: line as nat, pos: *old(cur) as nat },
                ) && *final(cur) == *old(cur),
            },
    {
        let syms = reserved_symbols();
        let ghost rest = input@.subrange(*cur as int, input@.len() as int);
        proof {
            lemma_reserved_at_len(input@, *cur as nat);
        }
        let mut i: usize = 0;
        while i < syms.len()
            invariant
                i <= syms.len(),
                syms@.len() == symbols().len(),
                forall|k: int| 0 <= k < syms@.len() ==> (#[trigger] syms@[k])@ == symbols()[k],
                *cur == *old(cur),
                *cur < input.len(),
                rest == input@.subrange(*cur as int, input@.len() as int),
                first_prefix(symbols(), rest, 0) == first_prefix(symbols(), rest, i as nat),
            decreases syms.len() - i,
        {
            let ts: &'static str = syms[i];
            let ts_chars = chars_of(ts);
            if starts_with_at(input, *cur, &ts_chars) {
                let ret = Token::new(TokenKind::Reserved(ts), line, *cur);
                *cur += ts_chars.len();
                return Ok(ret);
            }
            i += 1;
        }
        let mut msg = String::from_str("unexpected ");
        msg.append(text.substring_char(*cur, *cur + 1));
        assert(msg@ =~= unexpected_char_message(input@[*cur as int]));
        return Err(RuccErr::ParseErr(msg, Point { line, pos: *cur }));
    }

    /// Reads the next token if it is the reserved symbol `t`, and says
    /// whether it was.
    pub fn consume_reserved(&mut self, t: &str) -> (r: Result<bool, RuccErr>)
        ensures
            final(self)@.tokens == old(self)@.tokens,
            old(self)@.ends_with_eof() ==> final(self)@.ends_with_eof(),
            match old(self)@.head() {
                Ok(tok) => r == Ok::<bool, RuccErr>(tok.kind == TokenKindView::Reserved(t@))
                    && final(self)@.position == old(self)@.position + (if tok.kind
                    == TokenKindView::Reserved(t@) {
                    1nat
                } else {
                    0nat
                }),
                Err(e) => r is Err && r->Err_0@ == e && final(self)@.position == old(self)@.position,
            },
    {
        let kind = match self.head() {
            Ok(tok) => tok.kind,
            Err(e) => {
                return Err(e);
            },
        };
        if let TokenKind::Reserved(v) = kind {
            if str_eq(v, t) {
                assert(self.position < self.token.len());
                self.position += 1;
                return Ok(true);
            }
        }
        Ok(false)
    }

    /// Reads the next token, which must be the reserved symbol `t`.
    pub fn expect_reserved(&mut self, t: &str) -> (r: Result<(), RuccErr>)
        ensures
            final(self)@.tokens == old(self)@.tokens,
            old(self)@.ends_with_eof() ==> final(self)@.ends_with_eof(),
            match old(self)@.head() {
                Ok(tok) => if tok.kind == TokenKindView::Reserved(t@) {
                    r is Ok && final(self)@.position == old(self)@.position + 1
                } else {
                    r is Err && r->Err_0@ == RuccErrView::TokenErr(unexpected_token_message(), tok)
                        && final(self)@.position == old(self)@.position
                },
                Err(e) => r is Err && r->Err_0@ == e && final(self)@.position == old(self)@.position,
            },
    {
        match self.consume_reserved(t) {
            Ok(true) => {
                return Ok(());
            },
            Ok(false) => {},
            Err(e) => {
                return Err(e);
            },
        }
        match self.head() {
            Ok(tok) => Err(RuccErr::TokenErr(String::from_str("unexpected"), *tok)),
            Err(e) => Err(e),
        }
    }

    /// Reads the next token, which must be a number, and gives the number.
    pub fn expect_number(&mut self) -> (r: Result<i32, RuccErr>)
        ensures
            final(self)@.tokens == old(self)@.tokens,
            old(self)@.ends_with_eof() ==> final(self)@.ends_with_eof(),
            match old(self)@.head() {
                Ok(tok) => match tok.kind {
                    TokenKindView::Integer(v) => r == Ok::<i32, RuccErr>(v) && final(self)@.position == old(self)@.position + 1,
                    _ => r is Err && r->Err_0@ == RuccErrView::TokenErr(
                        unexpected_token_message(),
                        tok,
                    ) && final(self)@.position == old(self)@.position,
                },
                Err(e) => r is Err && r->Err_0@ == e && final(self)@.position == old(self)@.position,
            },
    {
        let tok: Token = match self.head() {
            Ok(tok) => *tok,
            Err(e) => {
                return Err(e);
            },
        };
        if let TokenKind::Integer(v) = tok.kind {
            assert(self.position < self.token.len());
            self.position += 1;
            return Ok(v);
        }
        Err(RuccErr::TokenErr(String::from_str("unexpected"), tok))
    }

    /// The token that is read next.
    pub fn head(&self) -> (r: Result<&Token, RuccErr>)
        ensures
            match self@.head() {
                Ok(tok) => r is Ok && r->Ok_0@ == tok,
                Err(e) => r is Err && r->Err_0@ == e,
            },
    {
        if self.position < self.token.len() {
            Ok(&self.token[self.position])
        } else {
            Err(RuccErr::InsideErr(String::from_str("inside: no token is left to read")))
        }
    }

    /// All the tokens, read or not.
    pub fn tokens(&self) -> (toks: &Vec<Token>)
        ensures
            token_views(toks@) == self@.tokens,
    {
        &self.token
    }

    /// How many tokens have been read.
    pub fn position(&self) -> (pos: usize)
        ensures
            pos == self@.position,
    {
        self.position
    }
}

/// Where lexing succeeds, the last token is `Eof`, it is the only `Eof`,
/// and the tokens stand in the order of their places.
pub proof fn lemma_lex_ends_with_eof(s: Seq<char>, cur: nat)
    requires
        cur <= s.len(),
    ensures
        match lex_from(s, cur) {
            Ok(toks) => {
                &&& toks.len() >= 1
                &&& toks.last() == token_at(TokenKindView::Eof, s.len())
                &&& forall|i: int|
                    0 <= i < toks.len() - 1 ==> (#[trigger] toks[i]).kind != TokenKindView::Eof
                &&& forall|i: int| 0 <= i < toks.len() ==> cur <= (#[trigger] toks[i]).point.pos
                &&& forall|i: int, j: int|
                    0 <= i < j < toks.len() ==> (#[trigger] toks[i]).point.pos < (
                    #[trigger] toks[j]).point.pos
            },
            Err(e) => true,
        },
    decreases s.len() - cur,
{
    if cur >= s.len() {
    } else if is_space(s[cur as int]) {
        lemma_lex_ends_with_eof(s, cur + 1);
    } else if is_digit(s[cur as int]) {
        lemma_digits_end_bounds(s, cur);
        lemma_lex_ends_with_eof(s, digits_end(s, cur));
    } else {
        lemma_reserved_at_len(s, cur);
        match reserved_at(s, cur) {
            Some(sym) => {
                lemma_lex_ends_with_eof(s, cur + sym.len());
            },
            None => {},
        }
    }
}

/// Where every character from `from` on is a digit, the run of digits
/// reaches the end of the text.
pub proof fn lemma_digits_end_of_digits(s: Seq<char>, from: nat)
    requires
        from <= s.len(),
        forall|i: int| from <= i < s.len() ==> is_digit(#[trigger] s[i]),
    ensures
        digits_end(s, from) == s.len(),
    decreases s.len() - from,
{
    if from < s.len() {
        lemma_digits_end_of_digits(s, from + 1);
    }
}

/// A text that is one run of digits, worth no more than the largest
/// 32-bit number, is lexed as that number and the end: two tokens.
pub proof fn lemma_lex_digits(s: Seq<char>)
    requires
        s.len() >= 1,
        all_digits(s),
        decimal_value(s) <= i32::MAX,
    ensures
        lex(s) == Ok::<Seq<TokenView>, RuccErrView>(
            seq![
                token_at(TokenKindView::Integer(decimal_value(s) as i32), 0),
                token_at(TokenKindView::Eof, s.len()),
            ],
        ),
{
    lemma_digits_end_of_digits(s, 0);
    assert(is_digit(s[0]));
    assert(!is_space(s[0]));
    assert(s.subrange(0, s.len() as int) =~= s);
    let first = seq![token_at(TokenKindView::Integer(decimal_value(s) as i32), 0)];
    let last = seq![token_at(TokenKindView::Eof, s.len())];
    assert(lex_from(s, s.len()) == Ok::<Seq<TokenView>, RuccErrView>(last));
    assert(first + last =~= seq![
        token_at(TokenKindView::Integer(decimal_value(s) as i32), 0),
        token_at(TokenKindView::Eof, s.len()),
    ]);
}

/// The decimal text of a number from 0 to the largest 32-bit number is
/// lexed as that number and the end: two tokens.
pub proof fn lemma_lex_number(v: i32)
    requires
        v >= 0,
    ensures
        lex(nat_text(v as nat)) == Ok::<Seq<TokenView>, RuccErrView>(
            seq![
                token_at(TokenKindView::Integer(v), 0),
                token_at(TokenKindView::Eof, nat_text(v as nat).len()),
            ],
        ),
{
    lemma_nat_text_reads_back(v as nat);
    lemma_lex_digits(nat_text(v as nat));
}

/// Whether `sym` is one of the reserved symbols of two characters.
pub open spec fn is_two_char_symbol(sym: Seq<char>) -> bool {
    sym == symbols()[0] || sym == symbols()[1] || sym == symbols()[2] || sym == symbols()[3]
}

/// Where a symbol of two characters stands in the text, that symbol is
/// read, never the symbol of one character that begins it.
pub proof fn lemma_longest_symbol_wins(s: Seq<char>, cur: nat, sym: Seq<char>)
    requires
        is_two_char_symbol(sym),
        cur + 2 <= s.len(),
        s.subrange(cur as int, cur as int + 2) == sym,
    ensures
        reserved_at(s, cur) == Some(sym),
{
    let rest = s.subrange(cur as int, s.len() as int);
    assert(rest.subrange(0, 2) =~= s.subrange(cur as int, cur as int + 2));
    assert(sym.is_prefix_of(rest));
    assert(sym[0] == rest[0] && sym[1] == rest[1]);
    reveal_with_fuel(first_prefix, 5);
    lemma_first_prefix(symbols(), rest, 0);
}

/// A text that is one symbol of two characters is lexed as that symbol
/// and the end: two tokens, and no error.
pub proof fn lemma_lex_two_char_symbol(sym: Seq<char>)
    requires
        is_two_char_symbol(sym),
    ensures
        lex(sym) == Ok::<Seq<TokenView>, RuccErrView>(
            seq![token_at(TokenKindView::Reserved(sym), 0), token_at(TokenKindView::Eof, 2)],
        ),
{
    assert(sym.subrange(0, 2) =~= sym);
    lemma_longest_symbol_wins(sym, 0, sym);
    assert(!is_space(sym[0]) && !is_digit(sym[0]));
    let first = seq![token_at(TokenKindView::Reserved(sym), 0)];
    let last = seq![token_at(TokenKindView::Eof, 2)];
    assert(lex_from(sym, 2) == Ok::<Seq<TokenView>, RuccErrView>(last));
    assert(first + last =~= seq![
        token_at(TokenKindView::Reserved(sym), 0),
        token_at(TokenKindView::Eof, 2),
    ]);
}

/// Whether the token stands in the text `s` at its place: a symbol is
/// what the text holds there, a number is worth what the digits from
/// there on are worth, and the end stands behind the last character.
pub open spec fn token_fits(s: Seq<char>, t: TokenView) -> bool {
    &&& t.point.line == 1
    &&& t.point.pos <= s.len()
    &&& match t.kind {
        TokenKindView::Reserved(sym) => reserved_at(s, t.point.pos) == Some(sym)
            && t.point.pos + sym.len() <= s.len() && s.subrange(
            t.point.pos as int,
            t.point.pos as int + sym.len(),
        ) == sym,
        TokenKindView::Integer(v) => t.point.pos < s.len() && is_digit(s[t.point.pos as int])
            && v == decimal_value(
            s.subrange(t.point.pos as int, digits_end(s, t.point.pos) as int),
        ),
        TokenKindView::Eof => t.point.pos == s.len(),
    }
}

/// Where lexing succeeds, every token stands in the text at its place.
pub proof fn lemma_tokens_fit(s: Seq<char>, cur: nat)
    requires
        cur <= s.len(),
    ensures
        match lex_from(s, cur) {
            Ok(toks) => forall|i: int| 0 <= i < toks.len() ==> token_fits(s, #[trigger] toks[i]),
            Err(e) => true,
        },
    decreases s.len() - cur,
{
    if cur >= s.len() {
    } else if is_space(s[cur as int]) {
        lemma_tokens_fit(s, cur + 1);
    } else if is_digit(s[cur as int]) {
        lemma_digits_end_bounds(s, cur);
        lemma_tokens_fit(s, digits_end(s, cur));
    } else {
        lemma_reserved_at_len(s, cur);
        match reserved_at(s, cur) {
            Some(sym) => {
                lemma_tokens_fit(s, cur + sym.len());
            },
            None => {},
        }
    }
}

/// Whether a reserved symbol begins with `c`.
pub open spec fn begins_symbol(c: char) -> bool {
    c == '=' || c == '!' || c == '<' || c == '>' || c == '+' || c == '-' || c == '*' || c == '/'
        || c == '(' || c == ')'
}

/// A character that is no white space and no digit and begins no symbol
/// is refused, with its own index as the place of the error.
pub proof fn lemma_unknown_character(s: Seq<char>, cur: nat)
    requires
        cur < s.len(),
        !is_space(s[cur as int]),
        !is_digit(s[cur as int]),
        !begins_symbol(s[cur as int]),
    ensures
        lex_from(s, cur) == Err::<Seq<TokenView>, RuccErrView>(
            RuccErrView::ParseErr(
                unexpected_char_message(s[cur as int]),
                Place { line: 1, pos: cur },
            ),
        ),
{
    let rest = s.subrange(cur as int, s.len() as int);
    assert(rest[0] == s[cur as int]);
    lemma_first_prefix(symbols(), rest, 0);
    assert forall|j: int| 0 <= j < symbols().len() implies !(#[trigger] symbols()[j]).is_prefix_of(
        rest,
    ) by {
        assert(begins_symbol(symbols()[j][0]));
    }
    assert(reserved_at(s, cur) is None);
}

} // verus!
