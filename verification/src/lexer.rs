//! The lexer: source text to tokens.

use crate::text::str_eq;
use vstd::prelude::*;

verus! {

/// One token.
#[derive(Debug, PartialEq)]
pub enum Token {
    EOF,
    Num(usize),
    Ident(String),
    Ctype(String),
    Equal,
    Plus,
    Minus,
    Asterisk,
    Slash,
    SemiColon,
    LeftParen,
    RightParen,
    LeftCurlyBrace,
    RightCurlyBrace,
    Comma,
    Return,
}

/// The mathematical value of a [`Token`].
pub enum TokenView {
    EOF,
    Num(nat),
    Ident(Seq<char>),
    Ctype(Seq<char>),
    Equal,
    Plus,
    Minus,
    Asterisk,
    Slash,
    SemiColon,
    LeftParen,
    RightParen,
    LeftCurlyBrace,
    RightCurlyBrace,
    Comma,
    Return,
}

impl View for Token {
    type V = TokenView;

    open spec fn view(&self) -> TokenView {
        match self {
            Token::EOF => TokenView::EOF,
            Token::Num(n) => TokenView::Num(*n as nat),
            Token::Ident(s) => TokenView::Ident(s@),
            Token::Ctype(s) => TokenView::Ctype(s@),
            Token::Equal => TokenView::Equal,
            Token::Plus => TokenView::Plus,
            Token::Minus => TokenView::Minus,
            Token::Asterisk => TokenView::Asterisk,
            Token::Slash => TokenView::Slash,
            Token::SemiColon => TokenView::SemiColon,
            Token::LeftParen => TokenView::LeftParen,
            Token::RightParen => TokenView::RightParen,
            Token::LeftCurlyBrace => TokenView::LeftCurlyBrace,
            Token::RightCurlyBrace => TokenView::RightCurlyBrace,
            Token::Comma => TokenView::Comma,
            Token::Return => TokenView::Return,
        }
    }
}

impl DeepView for Token {
    type V = TokenView;

    open spec fn deep_view(&self) -> TokenView {
        self@
    }
}

impl Token {
    /// Whether two tokens are equal.
    pub fn same(&self, other: &Token) -> (b: bool)
        ensures
            b == (self@ == other@),
    {
        match (self, other) {
            (Token::EOF, Token::EOF) => true,
            (Token::Num(a), Token::Num(b)) => *a == *b,
            (Token::Ident(a), Token::Ident(b)) => str_eq(a.as_str(), b.as_str()),
            (Token::Ctype(a), Token::Ctype(b)) => str_eq(a.as_str(), b.as_str()),
            (Token::Equal, Token::Equal) => true,
            (Token::Plus, Token::Plus) => true,
            (Token::Minus, Token::Minus) => true,
            (Token::Asterisk, Token::Asterisk) => true,
            (Token::Slash, Token::Slash) => true,
            (Token::SemiColon, Token::SemiColon) => true,
            (Token::LeftParen, Token::LeftParen) => true,
            (Token::RightParen, Token::RightParen) => true,
            (Token::LeftCurlyBrace, Token::LeftCurlyBrace) => true,
            (Token::RightCurlyBrace, Token::RightCurlyBrace) => true,
            (Token::Comma, Token::Comma) => true,
            (Token::Return, Token::Return) => true,
            _ => false,
        }
    }
}

/// A letter of the Latin alphabet.
pub open spec fn is_letter(c: char) -> bool {
    ('a' <= c && c <= 'z') || ('A' <= c && c <= 'Z')
}

/// A decimal digit.
pub open spec fn is_digit(c: char) -> bool {
    '0' <= c && c <= '9'
}

/// A character that separates tokens and is skipped.
pub open spec fn is_space(c: char) -> bool {
    c == '\n' || c == '\t' || c == ' '
}

/// A character of a keyword or an identifier.
pub open spec fn is_word_char(c: char) -> bool {
    is_letter(c) || is_digit(c) || c == '_'
}

/// Where the longest run of characters that satisfy `pred` ends, when it
/// starts at `pos`.
pub open spec fn run_end(code: Seq<char>, pos: int, pred: spec_fn(char) -> bool) -> int
    decreases code.len() - pos,
{
    if 0 <= pos < code.len() && pred(code[pos]) {
        run_end(code, pos + 1, pred)
    } else {
        pos
    }
}

/// The number that a string of digits writes.
pub open spec fn digits_value(text: Seq<char>) -> nat
    decreases text.len(),
{
    if text.len() == 0 {
        0
    } else {
        (digits_value(text.drop_last()) * 10 + (text.last() as int - '0' as int)) as nat
    }
}

/// Whether every character of `text` is a decimal digit.
pub open spec fn all_digits(text: Seq<char>) -> bool {
    forall|i: int| 0 <= i < text.len() ==> is_digit(#[trigger] text[i])
}

/// The number that `text` writes, if it is a nonempty string of digits
/// whose value a machine word can hold.
pub open spec fn parse_number(text: Seq<char>) -> Option<nat> {
    if text.len() > 0 && all_digits(text) && digits_value(text) <= usize::MAX {
        Some(digits_value(text))
    } else {
        None
    }
}

/// The token that a word is: a keyword if it is one, else an identifier.
pub open spec fn word_token(text: Seq<char>) -> TokenView {
    if text == "return"@ {
        TokenView::Return
    } else if text == "int"@ {
        TokenView::Ctype(text)
    } else {
        TokenView::Ident(text)
    }
}

/// The characters of `code` from `pos` up to `end`; nothing where these
/// are not positions of the text.
pub open spec fn slice(code: Seq<char>, pos: int, end: int) -> Seq<char> {
    if 0 <= pos <= end <= code.len() {
        code.subrange(pos, end)
    } else {
        Seq::empty()
    }
}

/// The test for a character of a word.
pub open spec fn word_chars() -> spec_fn(char) -> bool {
    |c: char| is_word_char(c)
}

/// The test for a digit.
pub open spec fn digits() -> spec_fn(char) -> bool {
    |c: char| is_digit(c)
}

/// The keyword or identifier that starts at `pos`, and where it ends.
pub open spec fn lex_word(code: Seq<char>, pos: int) -> (TokenView, int) {
    let end = run_end(code, pos, word_chars());
    (word_token(slice(code, pos, end)), end)
}

/// The number that starts at `pos`, and where it ends.
pub open spec fn lex_number(code: Seq<char>, pos: int) -> Option<(TokenView, int)> {
    let end = run_end(code, pos, digits());
    match parse_number(slice(code, pos, end)) {
        Some(n) => Some((TokenView::Num(n), end)),
        None => None,
    }
}

/// The token that a punctuation character is.
pub open spec fn symbol_token(c: char) -> Option<TokenView> {
    if c == '+' {
        Some(TokenView::Plus)
    } else if c == '-' {
        Some(TokenView::Minus)
    } else if c == '*' {
        Some(TokenView::Asterisk)
    } else if c == '/' {
        Some(TokenView::Slash)
    } else if c == ';' {
        Some(TokenView::SemiColon)
    } else if c == '=' {
        Some(TokenView::Equal)
    } else if c == '(' {
        Some(TokenView::LeftParen)
    } else if c == ')' {
        Some(TokenView::RightParen)
    } else if c == '{' {
        Some(TokenView::LeftCurlyBrace)
    } else if c == '}' {
        Some(TokenView::RightCurlyBrace)
    } else if c == ',' {
        Some(TokenView::Comma)
    } else {
        None
    }
}

/// The punctuation token at `pos`, and where it ends.
pub open spec fn lex_symbol(code: Seq<char>, pos: int) -> Option<(TokenView, int)> {
    if 0 <= pos < code.len() {
        match symbol_token(code[pos]) {
            Some(token) => Some((token, pos + 1)),
            None => None,
        }
    } else {
        None
    }
}

/// The next token at or behind `pos`, and where it ends. Spaces in front
/// of it are skipped; there is no token when only spaces are left.
pub open spec fn lex_token(code: Seq<char>, pos: int) -> Option<(TokenView, int)>
    decreases code.len() - pos,
{
    if 0 <= pos < code.len() {
        let c = code[pos];
        if is_letter(c) {
            Some(lex_word(code, pos))
        } else if is_digit(c) {
            lex_number(code, pos)
        } else if is_space(c) {
            lex_token(code, pos + 1)
        } else {
            lex_symbol(code, pos)
        }
    } else {
        None
    }
}

/// The tokens of the text from `pos` on, with the end mark behind them.
pub open spec fn lex_all(code: Seq<char>, pos: int) -> Option<Seq<TokenView>>
    decreases code.len() - pos,
{
    if code.len() <= pos {
        Some(seq![TokenView::EOF])
    } else {
        match lex_token(code, pos) {
            Some((token, end)) => if pos < end <= code.len() {
                match lex_all(code, end) {
                    Some(rest) => Some(seq![token] + rest),
                    None => None,
                }
            } else {
                None
            },
            None => None,
        }
    }
}

/// The run that starts at `pos` lies within the text, holds only
/// characters that satisfy `pred`, and stops in front of one that does not.
pub proof fn lemma_run_end(code: Seq<char>, pos: int, pred: spec_fn(char) -> bool)
    requires
        0 <= pos <= code.len(),
    ensures
        pos <= run_end(code, pos, pred) <= code.len(),
        forall|i: int| pos <= i < run_end(code, pos, pred) ==> pred(#[trigger] code[i]),
        run_end(code, pos, pred) < code.len() ==> !pred(code[run_end(code, pos, pred)]),
    decreases code.len() - pos,
{
    if pos < code.len() && pred(code[pos]) {
        lemma_run_end(code, pos + 1, pred);
    }
}

/// A stretch of characters that satisfy `pred`, in front of one that does
/// not or of the end of the text, is the run.
pub proof fn lemma_run_end_is(code: Seq<char>, pos: int, end: int, pred: spec_fn(char) -> bool)
    requires
        0 <= pos <= end <= code.len(),
        forall|i: int| pos <= i < end ==> pred(#[trigger] code[i]),
        end < code.len() ==> !pred(code[end]),
    ensures
        run_end(code, pos, pred) == end,
    decreases end - pos,
{
    if pos < end {
        lemma_run_end_is(code, pos + 1, end, pred);
    }
}

/// The number that a string of digits writes is at least the number that
/// any of its prefixes writes.
pub proof fn lemma_digits_value_grows(text: Seq<char>, k: int)
    requires
        0 <= k <= text.len(),
        all_digits(text),
    ensures
        digits_value(text.take(k)) <= digits_value(text),
    decreases text.len(),
{
    if k == text.len() {
        assert(text.take(k) =~= text);
    } else {
        assert(is_digit(text[text.len() - 1]));
        assert forall|i: int| 0 <= i < text.drop_last().len() implies is_digit(
            #[trigger] text.drop_last()[i],
        ) by {
            assert(text.drop_last()[i] == text[i]);
        }
        lemma_digits_value_grows(text.drop_last(), k);
        assert(text.drop_last().take(k) =~= text.take(k));
    }
}

/// A token is never empty and ends within the text.
pub proof fn lemma_token_advances(code: Seq<char>, pos: int)
    requires
        lex_token(code, pos) is Some,
    ensures
        pos < lex_token(code, pos)->Some_0.1 <= code.len(),
    decreases code.len() - pos,
{
    let c = code[pos];
    if is_letter(c) {
        lemma_run_end(code, pos + 1, word_chars());
    } else if is_digit(c) {
        lemma_run_end(code, pos + 1, digits());
    } else if is_space(c) {
        lemma_token_advances(code, pos + 1);
    }
}

/// The state of a lexer: the text, the position in it, and the tokens
/// read so far.
#[derive(Debug, PartialEq)]
pub struct Lexer {
    pub code: String,
    pub pos: usize,
    pub tokens: Vec<Token>,
}

/// `after` is `before` with `token` read and the position at `end`.
pub open spec fn stepped(before: Lexer, after: Lexer, token: TokenView, end: int) -> bool {
    &&& after.code == before.code
    &&& after.pos == end
    &&& after.tokens.deep_view() == before.tokens.deep_view().push(token)
}

fn letter(c: char) -> (b: bool)
    ensures
        b == is_letter(c),
{
    (c >= 'a' && c <= 'z') || (c >= 'A' && c <= 'Z')
}

fn digit(c: char) -> (b: bool)
    ensures
        b == is_digit(c),
{
    c >= '0' && c <= '9'
}

fn word_char(c: char) -> (b: bool)
    ensures
        b == is_word_char(c),
{
    letter(c) || digit(c) || c == '_'
}

/// The number that `text` writes, if it is a nonempty string of digits
/// whose value a machine word can hold.
pub fn parse_digits(text: &str) -> (r: Option<usize>)
    ensures
        match r {
            Some(n) => parse_number(text@) == Some(n as nat),
            None => parse_number(text@) is None,
        },
{
    let n = text.unicode_len();
    if n == 0 {
        return None;
    }
    let mut value: usize = 0;
    let mut i: usize = 0;
    assert(text@.take(0) =~= Seq::<char>::empty());
    while i < n
        invariant
            i <= n,
            n == text@.len(),
            all_digits(text@.take(i as int)),
            value == digits_value(text@.take(i as int)),
        decreases n - i,
    {
        let c = text.get_char(i);
        if !digit(c) {
            assert(!is_digit(text@[i as int]));
            return None;
        }
        let d: usize = (c as u32 - '0' as u32) as usize;
        proof {
            assert(text@.take(i + 1).drop_last() =~= text@.take(i as int));
            assert(text@.take(i + 1).last() == c);
            assert forall|j: int| 0 <= j < i + 1 implies is_digit(
                #[trigger] text@.take(i + 1)[j],
            ) by {
                if j < i {
                    assert(text@.take(i as int)[j] == text@.take(i + 1)[j]);
                }
            }
            assert(digits_value(text@.take(i + 1)) == value * 10 + d);
            if all_digits(text@) {
                lemma_digits_value_grows(text@, i + 1);
            }
        }
        let tens = match value.checked_mul(10) {
            None => {
                return None;
            },
            Some(tens) => tens,
        };
        value = match tens.checked_add(d) {
            None => {
                return None;
            },
            Some(sum) => sum,
        };
        i += 1;
    }
    assert(text@.take(i as int) =~= text@);
    Some(value)
}

impl Lexer {
    /// A lexer at the start of `code`.
    pub fn new(code: &str) -> (lexer: Self)
        ensures
            lexer.code@ == code@,
            lexer.pos == 0,
            lexer.tokens@.len() == 0,
    {
        Lexer { code: String::from_str(code), pos: 0, tokens: Vec::new() }
    }

    /// Reads all the tokens from the position on and hands them out: those
    /// read before, those of the rest of the text, and the end mark.
    pub fn run(self) -> (r: Result<Vec<Token>, ()>)
        ensures
            match r {
                Ok(tokens) => lex_all(self.code@, self.pos as int) matches Some(rest)
                    && tokens.deep_view() == self.tokens.deep_view() + rest,
                Err(e) => lex_all(self.code@, self.pos as int) is None,
            },
    {
        let mut lx = self;
        let ghost code = self.code@;
        let ghost mut done: Seq<TokenView> = Seq::empty();
        assert(self.tokens.deep_view() + done =~= self.tokens.deep_view());
        while !lx.is_eof()
            invariant
                lx.code@ == code,
                code == self.code@,
                lx.tokens.deep_view() == self.tokens.deep_view() + done,
                match lex_all(code, lx.pos as int) {
                    Some(rest) => lex_all(code, self.pos as int) == Some(done + rest),
                    None => lex_all(code, self.pos as int) is None,
                },
            decreases code.len() - lx.pos,
        {
            let ghost at = lx.pos as int;
            let ghost read = lx.tokens.deep_view();
            lx = match lx.token() {
                Err(e) => {
                    return Err(e);
                },
                Ok(next) => next,
            };
            proof {
                lemma_token_advances(code, at);
                let (token, end) = lex_token(code, at)->Some_0;
                assert(self.tokens.deep_view() + done.push(token) =~= read.push(token));
                match lex_all(code, end) {
                    Some(rest) => {
                        assert(done + (seq![token] + rest) =~= done.push(token) + rest);
                    },
                    None => {},
                }
                done = done.push(token);
            }
        }
        let ghost read = lx.tokens.deep_view();
        lx.tokens.push(Token::EOF);
        proof {
            assert(lx.tokens.deep_view() =~= read.push(TokenView::EOF));
            assert(self.tokens.deep_view() + (done + seq![TokenView::EOF]) =~= read.push(
                TokenView::EOF,
            ));
        }
        Ok(lx.tokens)
    }

    /// Reads the next token, skipping the spaces in front of it. Fails
    /// where no token starts: at the end of the text, and at a character
    /// that starts none.
    pub fn token(self) -> (r: Result<Lexer, ()>)
        ensures
            match r {
                Ok(lexer) => lex_token(self.code@, self.pos as int) matches Some((token, end))
                    && stepped(self, lexer, token, end),
                Err(e) => lex_token(self.code@, self.pos as int) is None,
            },
        decreases self.code@.len() - self.pos,
    {
        let c = match self.peek() {
            Err(e) => {
                return Err(e);
            },
            Ok(c) => c,
        };
        if letter(c) {
            self.keyword_identifier()
        } else if digit(c) {
            self.num()
        } else if c == '\n' || c == '\t' || c == ' ' {
            self.step().token()
        } else {
            self.symbol()
        }
    }

    /// Reads the number at the position.
    pub fn num(self) -> (r: Result<Lexer, ()>)
        ensures
            match r {
                Ok(lexer) => lex_number(self.code@, self.pos as int) matches Some((token, end))
                    && stepped(self, lexer, token, end),
                Err(e) => lex_number(self.code@, self.pos as int) is None,
            },
    {
        let ghost code = self.code@;
        let ghost pos = self.pos as int;
        let ghost read = self.tokens.deep_view();
        let is_digit_char = |c: char| -> (b: bool)
            ensures
                b == is_digit(c),
            { digit(c) };
        let (mut lx, text) = match self.cut_token(is_digit_char) {
            Err(e) => {
                return Err(e);
            },
            Ok(cut) => cut,
        };
        proof {
            if pos <= code.len() {
                lemma_run_end_is(code, pos, lx.pos as int, digits());
            }
        }
        match parse_digits(text.as_str()) {
            Some(n) => {
                lx.tokens.push(Token::Num(n));
                assert(lx.tokens.deep_view() =~= read.push(TokenView::Num(n as nat)));
                Ok(lx)
            },
            None => Err(()),
        }
    }

    /// Reads the keyword or identifier at the position.
    pub fn keyword_identifier(self) -> (r: Result<Lexer, ()>)
        ensures
            r matches Ok(lexer) && stepped(
                self,
                lexer,
                lex_word(self.code@, self.pos as int).0,
                lex_word(self.code@, self.pos as int).1,
            ),
    {
        let ghost code = self.code@;
        let ghost pos = self.pos as int;
        let ghost read = self.tokens.deep_view();
        let is_word = |c: char| -> (b: bool)
            ensures
                b == is_word_char(c),
            { word_char(c) };
        let (mut lx, s) = match self.cut_token(is_word) {
            Err(e) => {
                return Err(e);
            },
            Ok(cut) => cut,
        };
        proof {
            if pos <= code.len() {
                lemma_run_end_is(code, pos, lx.pos as int, word_chars());
            }
        }
        let token = match Lexer::keyword(s.as_str()) {
            Some(kw) => kw,
            None => Lexer::ident(s.as_str()),
        };
        let ghost tv = token@;
        lx.tokens.push(token);
        assert(lx.tokens.deep_view() =~= read.push(tv));
        Ok(lx)
    }

    /// The keyword that `s` is, if it is one.
    pub fn keyword(s: &str) -> (r: Option<Token>)
        ensures
            match r {
                Some(token) => token@ == word_token(s@) && !(token@ is Ident),
                None => word_token(s@) is Ident,
            },
    {
        if str_eq(s, "return") {
            Some(Token::Return)
        } else if str_eq(s, "int") {
            Some(Token::Ctype(String::from_str(s)))
        } else {
            None
        }
    }

    /// The identifier with the name `s`.
    pub fn ident(s: &str) -> (token: Token)
        ensures
            token@ == TokenView::Ident(s@),
    {
        Token::Ident(String::from_str(s))
    }

    /// Reads the punctuation token at the position.
    pub fn symbol(self) -> (r: Result<Lexer, ()>)
        ensures
            match r {
                Ok(lexer) => lex_symbol(self.code@, self.pos as int) matches Some((token, end))
                    && stepped(self, lexer, token, end),
                Err(e) => lex_symbol(self.code@, self.pos as int) is None,
            },
    {
        let ghost read = self.tokens.deep_view();
        let c = match self.peek() {
            Err(e) => {
                return Err(e);
            },
            Ok(c) => c,
        };
        let token = if c == '+' {
            Token::Plus
        } else if c == '-' {
            Token::Minus
        } else if c == '*' {
            Token::Asterisk
        } else if c == '/' {
            Token::Slash
        } else if c == ';' {
            Token::SemiColon
        } else if c == '=' {
            Token::Equal
        } else if c == '(' {
            Token::LeftParen
        } else if c == ')' {
            Token::RightParen
        } else if c == '{' {
            Token::LeftCurlyBrace
        } else if c == '}' {
            Token::RightCurlyBrace
        } else if c == ',' {
            Token::Comma
        } else {
            return Err(());
        };
        let ghost tv = token@;
        let mut lx = self.step();
        lx.tokens.push(token);
        assert(lx.tokens.deep_view() =~= read.push(tv));
        Ok(lx)
    }

    /// Moves one character on.
    pub fn step(self) -> (lexer: Lexer)
        requires
            self.pos < usize::MAX,
        ensures
            lexer.code == self.code,
            lexer.pos == self.pos + 1,
            lexer.tokens == self.tokens,
    {
        let mut lx = self;
        lx.pos += 1;
        lx
    }

    /// The character at the position. Fails at the end of the text.
    pub fn peek(&self) -> (r: Result<char, ()>)
        ensures
            match r {
                Ok(c) => self.pos < self.code@.len() <= usize::MAX && c
                    == self.code@[self.pos as int],
                Err(e) => self.code@.len() <= self.pos,
            },
    {
        if self.pos < self.code.as_str().unicode_len() {
            Ok(self.code.as_str().get_char(self.pos))
        } else {
            Err(())
        }
    }

    /// Cuts the longest run of characters that `cond` accepts off the text
    /// at the position, and hands it out with the lexer behind it.
    pub fn cut_token<F: Fn(char) -> bool>(self, cond: F) -> (r: Result<(Lexer, String), ()>)
        requires
            forall|c: char| #[trigger] cond.requires((c,)),
        ensures
            r matches Ok((lexer, text)) && {
                &&& lexer.code == self.code
                &&& lexer.tokens == self.tokens
                &&& self.pos <= lexer.pos
                &&& self.pos <= self.code@.len() ==> lexer.pos <= self.code@.len()
                &&& self.pos > self.code@.len() ==> lexer.pos == self.pos
                &&& text@ == slice(self.code@, self.pos as int, lexer.pos as int)
                &&& forall|i: int|
                    self.pos <= i < lexer.pos ==> cond.ensures((#[trigger] self.code@[i],), true)
                &&& lexer.pos < self.code@.len() ==> cond.ensures(
                    (self.code@[lexer.pos as int],),
                    false,
                )
            },
    {
        let mut lx = self;
        let mut t = String::new();
        let n = lx.code.as_str().unicode_len();
        let mut going = true;
        assert(t@ =~= slice(self.code@, self.pos as int, lx.pos as int));
        while going && lx.pos < n
            invariant
                lx.code == self.code,
                lx.tokens == self.tokens,
                n == self.code@.len(),
                self.pos <= lx.pos,
                self.pos <= n ==> lx.pos <= n,
                self.pos > n ==> lx.pos == self.pos,
                t@ == slice(self.code@, self.pos as int, lx.pos as int),
                forall|c: char| #[trigger] cond.requires((c,)),
                forall|i: int|
                    self.pos <= i < lx.pos ==> cond.ensures((#[trigger] self.code@[i],), true),
                !going ==> lx.pos < n && cond.ensures((self.code@[lx.pos as int],), false),
            decreases (if going { 1int } else { 0int }) + n - lx.pos,
        {
            let c = lx.code.as_str().get_char(lx.pos);
            if cond(c) {
                t.push(c);
                lx.pos += 1;
                assert(t@ =~= slice(self.code@, self.pos as int, lx.pos as int));
            } else {
                going = false;
            }
        }
        Ok((lx, t))
    }

    /// Whether the position is at the end of the text.
    pub fn is_eof(&self) -> (b: bool)
        ensures
            b == (self.code@.len() <= self.pos),
    {
        self.code.as_str().unicode_len() <= self.pos
    }
}

} // verus!
