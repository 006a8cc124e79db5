//! The tokenizer.
//!
//! At each position the tokenizer skips spaces, tabs and carriage returns and
//! then takes the first of these cases that matches there:
//! a parameter (`-x`, `--long-name`), a path (a bare word such as `ls`,
//! `./run.sh`, `/usr/bin/env`), a one-character symbol, a number (`12`,
//! `1.5`), a variable (`$name`, `$?`) and a string (`"..."`, quotes kept).
//! Bare words come before the symbols because a word may start with `-` or
//! `/`; a lone `-` or `/` (or one before a digit) stays an operator.
use crate::context::{Context, Position};
use crate::number::is_digit;
use vstd::prelude::*;

verus! {

/// What kind of token a token is.
#[derive(Clone, Copy, Debug, PartialEq, Eq, Structural)]
pub enum Kind {
    At,
    Amp,
    Ast,
    LParen,
    RParen,
    Plus,
    Minus,
    Mod,
    Eq,
    Pipe,
    Colon,
    LCurl,
    RCurl,
    LSq,
    RSq,
    Comma,
    Semi,
    Slash,
    NewLine,
    Var,
    Num,
    Str,
    Path,
    Param,
}

/// A token; the ones that carry text keep it as it stood in the input.
#[derive(Debug, PartialEq)]
pub enum Token {
    At,
    Amp,
    Ast,
    LParen,
    RParen,
    Plus,
    Minus,
    Mod,
    Eq,
    Pipe,
    Colon,
    LCurl,
    RCurl,
    LSq,
    RSq,
    Comma,
    Semi,
    Slash,
    NewLine,
    Var(String),
    Num(String),
    Str(String),
    Path(String),
    Param(String),
}

/// The character that a one-character symbol is written with.
pub open spec fn symbol_of(k: Kind) -> char {
    match k {
        Kind::At => '@',
        Kind::Amp => '&',
        Kind::Ast => '*',
        Kind::LParen => '(',
        Kind::RParen => ')',
        Kind::Plus => '+',
        Kind::Minus => '-',
        Kind::Mod => '%',
        Kind::Eq => '=',
        Kind::Pipe => '|',
        Kind::Colon => ':',
        Kind::LCurl => '{',
        Kind::RCurl => '}',
        Kind::LSq => '[',
        Kind::RSq => ']',
        Kind::Comma => ',',
        Kind::Semi => ';',
        Kind::Slash => '/',
        _ => '\n',
    }
}

/// The symbol that `c` stands for, if any.
pub open spec fn symbol_kind(c: char) -> Option<Kind> {
    if c == '\n' {
        Some(Kind::NewLine)
    } else if c == '(' {
        Some(Kind::LParen)
    } else if c == ')' {
        Some(Kind::RParen)
    } else if c == '[' {
        Some(Kind::LSq)
    } else if c == ']' {
        Some(Kind::RSq)
    } else if c == '+' {
        Some(Kind::Plus)
    } else if c == '-' {
        Some(Kind::Minus)
    } else if c == '%' {
        Some(Kind::Mod)
    } else if c == '=' {
        Some(Kind::Eq)
    } else if c == '|' {
        Some(Kind::Pipe)
    } else if c == ':' {
        Some(Kind::Colon)
    } else if c == ';' {
        Some(Kind::Semi)
    } else if c == '{' {
        Some(Kind::LCurl)
    } else if c == '}' {
        Some(Kind::RCurl)
    } else if c == ',' {
        Some(Kind::Comma)
    } else if c == '*' {
        Some(Kind::Ast)
    } else if c == '/' {
        Some(Kind::Slash)
    } else if c == '@' {
        Some(Kind::At)
    } else if c == '&' {
        Some(Kind::Amp)
    } else {
        None
    }
}

impl Token {
    pub open spec fn kind(&self) -> Kind {
        match self {
            Token::At => Kind::At,
            Token::Amp => Kind::Amp,
            Token::Ast => Kind::Ast,
            Token::LParen => Kind::LParen,
            Token::RParen => Kind::RParen,
            Token::Plus => Kind::Plus,
            Token::Minus => Kind::Minus,
            Token::Mod => Kind::Mod,
            Token::Eq => Kind::Eq,
            Token::Pipe => Kind::Pipe,
            Token::Colon => Kind::Colon,
            Token::LCurl => Kind::LCurl,
            Token::RCurl => Kind::RCurl,
            Token::LSq => Kind::LSq,
            Token::RSq => Kind::RSq,
            Token::Comma => Kind::Comma,
            Token::Semi => Kind::Semi,
            Token::Slash => Kind::Slash,
            Token::NewLine => Kind::NewLine,
            Token::Var(_) => Kind::Var,
            Token::Num(_) => Kind::Num,
            Token::Str(_) => Kind::Str,
            Token::Path(_) => Kind::Path,
            Token::Param(_) => Kind::Param,
        }
    }

    /// The text that the token was read from.
    pub open spec fn text(&self) -> Seq<char> {
        match self {
            Token::Var(s) | Token::Num(s) | Token::Str(s) | Token::Path(s) | Token::Param(s) => s@,
            _ => seq![symbol_of(self.kind())],
        }
    }

    /// The token as a kind and the text it was read from.
    pub open spec fn lexeme(&self) -> (Kind, Seq<char>) {
        (self.kind(), self.text())
    }
}

pub open spec fn lexemes(ts: Seq<Token>) -> Seq<(Kind, Seq<char>)> {
    ts.map_values(|t: Token| t.lexeme())
}

// ---------------------------------------------------------------- classes
#[derive(Clone, Copy, Debug, PartialEq, Eq, Structural)]
pub enum Class {
    Space,
    Digit,
    Word,
    PathChar,
    ParamChar,
    StrChar,
}

pub open spec fn is_space(c: char) -> bool {
    c == ' ' || c == '\t' || c == '\r'
}

pub open spec fn is_alpha(c: char) -> bool {
    ('a' <= c && c <= 'z') || ('A' <= c && c <= 'Z')
}

pub open spec fn is_word(c: char) -> bool {
    is_alpha(c) || is_digit(c) || c == '_'
}

pub open spec fn is_path_char(c: char) -> bool {
    is_word(c) || c == '.' || c == '/' || c == '\\' || c == ':' || c == '~' || c == '-'
}

pub open spec fn in_class(k: Class, c: char) -> bool {
    match k {
        Class::Space => is_space(c),
        Class::Digit => is_digit(c),
        Class::Word => is_word(c),
        Class::PathChar => is_path_char(c),
        Class::ParamChar => is_word(c) || c == '-',
        Class::StrChar => c != '"',
    }
}

/// Length of the run of characters of class `k` that starts at `i`.
pub open spec fn span(s: Seq<char>, i: int, k: Class) -> nat
    decreases s.len() - i,
{
    if 0 <= i < s.len() && in_class(k, s[i]) {
        1 + span(s, i + 1, k)
    } else {
        0
    }
}

// ---------------------------------------------------------------- cases
/// `-` or `--`, a letter, then letters, digits, `_` and `-`.
pub open spec fn param_len(s: Seq<char>, j: int) -> nat {
    if s[j] == '-' {
        let h: int = if j + 1 < s.len() && s[j + 1] == '-' {
            2
        } else {
            1
        };
        if j + h < s.len() && is_alpha(s[j + h]) {
            (h + span(s, j + h, Class::ParamChar)) as nat
        } else {
            0
        }
    } else {
        0
    }
}

/// A run of path characters that starts with a letter, `.`, `~`, `\` or
/// `_`, or with `/` when a path character other than a digit follows it.
pub open spec fn path_len(s: Seq<char>, j: int) -> nat {
    let c = s[j];
    if is_alpha(c) || c == '.' || c == '~' || c == '\\' || c == '_' {
        span(s, j, Class::PathChar)
    } else if c == '/' && j + 1 < s.len() && is_path_char(s[j + 1]) && !is_digit(s[j + 1]) {
        span(s, j, Class::PathChar)
    } else {
        0
    }
}

/// Digits, then optionally a point and more digits.
pub open spec fn num_len(s: Seq<char>, j: int) -> nat {
    let d = span(s, j, Class::Digit);
    if d == 0 {
        0
    } else if j + d + 1 < s.len() && s[j + d] == '.' && is_digit(s[j + d + 1]) {
        d + 1 + span(s, j + d + 1, Class::Digit)
    } else {
        d
    }
}

/// `$?`, or `$` then letters, digits and `_`.
pub open spec fn var_len(s: Seq<char>, j: int) -> nat {
    if s[j] == '$' {
        if j + 1 < s.len() && s[j + 1] == '?' {
            2
        } else {
            let w = span(s, j + 1, Class::Word);
            if w > 0 {
                1 + w
            } else {
                0
            }
        }
    } else {
        0
    }
}

/// `"`, anything but `"`, then `"`.
pub open spec fn str_len(s: Seq<char>, j: int) -> nat {
    if s[j] == '"' {
        let w = span(s, j + 1, Class::StrChar);
        if j + 1 + w < s.len() {
            w + 2
        } else {
            0
        }
    } else {
        0
    }
}

/// The kind and length of the token that starts at `j`, by the first case
/// that matches there.
pub open spec fn next_token(s: Seq<char>, j: int) -> Option<(Kind, nat)> {
    if param_len(s, j) > 0 {
        Some((Kind::Param, param_len(s, j)))
    } else if path_len(s, j) > 0 {
        Some((Kind::Path, path_len(s, j)))
    } else if symbol_kind(s[j]) is Some {
        Some((symbol_kind(s[j])->0, 1))
    } else if num_len(s, j) > 0 {
        Some((Kind::Num, num_len(s, j)))
    } else if var_len(s, j) > 0 {
        Some((Kind::Var, var_len(s, j)))
    } else if str_len(s, j) > 0 {
        Some((Kind::Str, str_len(s, j)))
    } else {
        None
    }
}

/// The tokens of `s` from position `i`, or the position where no case
/// matches.
pub open spec fn lex(s: Seq<char>, i: int) -> Result<Seq<(Kind, Seq<char>)>, int>
    decreases s.len() - i,
{
    let j = i + span(s, i, Class::Space);
    if j >= s.len() {
        Ok(Seq::empty())
    } else {
        match next_token(s, j) {
            None => Err(j),
            Some((k, n)) => if n == 0 || j + n > s.len() {
                Err(j)
            } else {
                match lex(s, j + n) {
                    Ok(ts) => Ok(seq![(k, s.subrange(j, j + n))] + ts),
                    Err(e) => Err(e),
                }
            },
        }
    }
}

/// Line and character of position `p`.
pub open spec fn position_of(s: Seq<char>, p: int) -> (nat, nat)
    decreases p,
{
    if p <= 0 {
        (0, 0)
    } else {
        let (l, c) = position_of(s, p - 1);
        if s[p - 1] == '\n' {
            (l + 1, 0)
        } else {
            (l, c + 1)
        }
    }
}

pub open spec fn prepend(
    l: (Kind, Seq<char>),
    r: Result<Seq<(Kind, Seq<char>)>, int>,
) -> Result<Seq<(Kind, Seq<char>)>, int> {
    match r {
        Ok(ts) => Ok(seq![l] + ts),
        Err(e) => Err(e),
    }
}

// ---------------------------------------------------------------- lemmas
proof fn lemma_span_bound(s: Seq<char>, i: int, k: Class)
    requires
        0 <= i,
    ensures
        i + span(s, i, k) <= s.len() || span(s, i, k) == 0,
        span(s, i, k) > 0 ==> i + span(s, i, k) <= s.len(),
    decreases s.len() - i,
{
    if 0 <= i < s.len() && in_class(k, s[i]) {
        lemma_span_bound(s, i + 1, k);
    }
}

proof fn lemma_position_bound(s: Seq<char>, p: int)
    ensures
        position_of(s, p).0 <= if p < 0 {
            0
        } else {
            p
        },
        position_of(s, p).1 <= if p < 0 {
            0
        } else {
            p
        },
    decreases p,
{
    if p > 0 {
        lemma_position_bound(s, p - 1);
    }
}

proof fn lemma_next_token_bound(s: Seq<char>, j: int)
    requires
        0 <= j < s.len(),
    ensures
        next_token(s, j) matches Some((k, n)) ==> 0 < n && j + n <= s.len(),
{
    lemma_span_bound(s, j, Class::PathChar);
    lemma_span_bound(s, j + 1, Class::ParamChar);
    lemma_span_bound(s, j + 2, Class::ParamChar);
    lemma_span_bound(s, j, Class::Digit);
    lemma_span_bound(s, j + 1, Class::Word);
    lemma_span_bound(s, j + 1, Class::StrChar);
    let d = span(s, j, Class::Digit);
    lemma_span_bound(s, j + d + 1, Class::Digit);
}

// ---------------------------------------------------------------- exec
fn in_class_exec(k: Class, c: char) -> (r: bool)
    ensures
        r == in_class(k, c),
{
    let alpha = ('a' <= c && c <= 'z') || ('A' <= c && c <= 'Z');
    let digit = '0' <= c && c <= '9';
    let word = alpha || digit || c == '_';
    match k {
        Class::Space => c == ' ' || c == '\t' || c == '\r',
        Class::Digit => digit,
        Class::Word => word,
        Class::PathChar => word || c == '.' || c == '/' || c == '\\' || c == ':' || c == '~' || c
            == '-',
        Class::ParamChar => word || c == '-',
        Class::StrChar => c != '"',
    }
}

/// End of the run of class `k` that starts at `start`.
fn scan(cs: &Vec<char>, start: usize, k: Class) -> (r: usize)
    requires
        start <= cs.len(),
    ensures
        r == start + span(cs@, start as int, k),
        r <= cs.len(),
{
    let mut i = start;
    while i < cs.len() && in_class_exec(k, cs[i])
        invariant
            start <= i <= cs.len(),
            span(cs@, start as int, k) == (i - start) + span(cs@, i as int, k),
        decreases cs.len() - i,
    {
        i = i + 1;
    }
    i
}

fn is_alpha_at(cs: &Vec<char>, j: usize) -> (r: bool)
    ensures
        r == (j < cs.len() && is_alpha(cs@[j as int])),
{
    j < cs.len() && in_class_exec(Class::Word, cs[j]) && !in_class_exec(Class::Digit, cs[j])
        && cs[j] != '_'
}

fn param_len_exec(cs: &Vec<char>, j: usize) -> (r: usize)
    requires
        j < cs.len(),
    ensures
        r == param_len(cs@, j as int),
{
    if cs[j] == '-' {
        let h: usize = if j + 1 < cs.len() && cs[j + 1] == '-' {
            2
        } else {
            1
        };
        if is_alpha_at(cs, j + h) {
            scan(cs, j + h, Class::ParamChar) - j
        } else {
            0
        }
    } else {
        0
    }
}

fn path_len_exec(cs: &Vec<char>, j: usize) -> (r: usize)
    requires
        j < cs.len(),
    ensures
        r == path_len(cs@, j as int),
{
    let c = cs[j];
    if is_alpha_at(cs, j) || c == '.' || c == '~' || c == '\\' || c == '_' {
        scan(cs, j, Class::PathChar) - j
    } else if c == '/' && j + 1 < cs.len() && in_class_exec(Class::PathChar, cs[j + 1])
        && !in_class_exec(Class::Digit, cs[j + 1]) {
        scan(cs, j, Class::PathChar) - j
    } else {
        0
    }
}

fn num_len_exec(cs: &Vec<char>, j: usize) -> (r: usize)
    requires
        j < cs.len(),
    ensures
        r == num_len(cs@, j as int),
{
    let e = scan(cs, j, Class::Digit);
    if e == j {
        0
    } else if e < cs.len() && e + 1 < cs.len() && cs[e] == '.' && in_class_exec(Class::Digit, cs[e + 1]) {
        scan(cs, e + 1, Class::Digit) - j
    } else {
        e - j
    }
}

fn var_len_exec(cs: &Vec<char>, j: usize) -> (r: usize)
    requires
        j < cs.len(),
    ensures
        r == var_len(cs@, j as int),
{
    if cs[j] == '$' {
        if j + 1 < cs.len() && cs[j + 1] == '?' {
            2
        } else {
            let e = scan(cs, j + 1, Class::Word);
            if e > j + 1 {
                e - j
            } else {
                0
            }
        }
    } else {
        0
    }
}

fn str_len_exec(cs: &Vec<char>, j: usize) -> (r: usize)
    requires
        j < cs.len(),
    ensures
        r == str_len(cs@, j as int),
{
    if cs[j] == '"' {
        let e = scan(cs, j + 1, Class::StrChar);
        if e < cs.len() {
            e + 1 - j
        } else {
            0
        }
    } else {
        0
    }
}

fn symbol_token(c: char) -> (r: Option<Token>)
    ensures
        match symbol_kind(c) {
            Some(k) => r is Some && r->0.lexeme() == (k, seq![c]),
            None => r is None,
        },
{
    match c {
        '\n' => Some(Token::NewLine),
        '(' => Some(Token::LParen),
        ')' => Some(Token::RParen),
        '[' => Some(Token::LSq),
        ']' => Some(Token::RSq),
        '+' => Some(Token::Plus),
        '-' => Some(Token::Minus),
        '%' => Some(Token::Mod),
        '=' => Some(Token::Eq),
        '|' => Some(Token::Pipe),
        ':' => Some(Token::Colon),
        ';' => Some(Token::Semi),
        '{' => Some(Token::LCurl),
        '}' => Some(Token::RCurl),
        ',' => Some(Token::Comma),
        '*' => Some(Token::Ast),
        '/' => Some(Token::Slash),
        '@' => Some(Token::At),
        '&' => Some(Token::Amp),
        _ => None,
    }
}

/// Reads tokens off a text, one at a time.
pub struct Lexer {
    text: String,
    chars: Vec<char>,
    pos: usize,
    context: Context,
}

impl Lexer {
    pub closed spec fn wf(&self) -> bool {
        &&& self.chars@ == self.text@
        &&& self.pos <= self.chars.len()
        &&& self.context.posn.line == position_of(self.chars@, self.pos as int).0
        &&& self.context.posn.character == position_of(self.chars@, self.pos as int).1
    }

    /// The text being read.
    pub closed spec fn input(&self) -> Seq<char> {
        self.text@
    }

    /// How far the text has been read.
    pub closed spec fn offset(&self) -> int {
        self.pos as int
    }

    /// A lexer at the start of `input`.
    pub fn new(input: &str) -> (r: Lexer)
        ensures
            r.wf(),
            r.input() == input@,
            r.offset() == 0,
    {
        let n = input.unicode_len();
        let mut chars: Vec<char> = Vec::new();
        let mut i: usize = 0;
        while i < n
            invariant
                i <= n == input@.len(),
                chars@ == input@.take(i as int),
            decreases n - i,
        {
            chars.push(input.get_char(i));
            i = i + 1;
            proof {
                assert(chars@ =~= input@.take(i as int));
            }
        }
        proof {
            assert(chars@ =~= input@);
        }
        Lexer { text: input.to_owned(), chars, pos: 0, context: Context::new() }
    }

    /// Moves past `n` characters.
    fn skip_n(&mut self, n: usize)
        requires
            old(self).wf(),
            old(self).pos + n <= old(self).chars.len(),
        ensures
            final(self).wf(),
            final(self).text == old(self).text,
            final(self).chars == old(self).chars,
            final(self).pos == old(self).pos + n,
    {
        let end = self.pos + n;
        while self.pos < end
            invariant
                self.wf(),
                end <= self.chars.len(),
                self.text == old(self).text,
                self.chars == old(self).chars,
                old(self).pos <= self.pos <= end,
            decreases end - self.pos,
        {
            proof {
                lemma_position_bound(self.chars@, self.pos as int);
            }
            if self.chars[self.pos] == '\n' {
                self.context = self.context.add_lines(1);
            } else {
                self.context = self.context.add_chars(1);
            }
            self.pos = self.pos + 1;
        }
    }

    fn skip_whitespace(&mut self)
        requires
            old(self).wf(),
        ensures
            final(self).wf(),
            final(self).text == old(self).text,
            final(self).chars == old(self).chars,
            final(self).pos == old(self).pos + span(old(self).chars@, old(self).pos as int, Class::Space),
    {
        let end = scan(&self.chars, self.pos, Class::Space);
        self.skip_n(end - self.pos);
    }

    /// Takes the token at `j` (after the spaces), of kind `k` and length `n`.
    fn take(&mut self, k: Kind, n: usize) -> (r: Token)
        requires
            old(self).wf(),
            0 < n,
            old(self).pos + n <= old(self).chars.len(),
            k == Kind::Num || k == Kind::Var || k == Kind::Str || k == Kind::Path || k == Kind::Param,
        ensures
            final(self).wf(),
            final(self).text == old(self).text,
            final(self).chars == old(self).chars,
            final(self).pos == old(self).pos + n,
            r.lexeme() == (k, old(self).chars@.subrange(old(self).pos as int, old(self).pos + n)),
    {
        let text = self.text.as_str().substring_char(self.pos, self.pos + n).to_owned();
        self.skip_n(n);
        match k {
            Kind::Num => Token::Num(text),
            Kind::Var => Token::Var(text),
            Kind::Str => Token::Str(text),
            Kind::Path => Token::Path(text),
            _ => Token::Param(text),
        }
    }

    /// The next token, or `None` at the end of the text or where no case
    /// matches.
    fn next(&mut self) -> (r: Option<Token>)
        requires
            old(self).wf(),
        ensures
            final(self).wf(),
            final(self).text == old(self).text,
            final(self).chars == old(self).chars,
            final(self).pos >= old(self).pos,
            match r {
                None => lex(old(self).chars@, old(self).pos as int) == if final(self).pos
                    >= final(self).chars.len() {
                    Ok(Seq::<(Kind, Seq<char>)>::empty())
                } else {
                    Err(final(self).pos as int)
                },
                Some(t) => final(self).pos > old(self).pos && lex(
                    old(self).chars@,
                    old(self).pos as int,
                ) == prepend(t.lexeme(), lex(final(self).chars@, final(self).pos as int)),
            },
    {
        let ghost s = self.chars@;
        let ghost i = self.pos as int;
        self.skip_whitespace();
        let j = self.pos;
        if j >= self.chars.len() {
            return None;
        }
        proof {
            lemma_next_token_bound(s, j as int);
        }
        let n = param_len_exec(&self.chars, j);
        if n > 0 {
            return Some(self.take(Kind::Param, n));
        }
        let n = path_len_exec(&self.chars, j);
        if n > 0 {
            return Some(self.take(Kind::Path, n));
        }
        if let Some(t) = symbol_token(self.chars[j]) {
            self.skip_n(1);
            proof {
                assert(s.subrange(j as int, j + 1) =~= seq![s[j as int]]);
            }
            return Some(t);
        }
        let n = num_len_exec(&self.chars, j);
        if n > 0 {
            return Some(self.take(Kind::Num, n));
        }
        let n = var_len_exec(&self.chars, j);
        if n > 0 {
            return Some(self.take(Kind::Var, n));
        }
        let n = str_len_exec(&self.chars, j);
        if n > 0 {
            return Some(self.take(Kind::Str, n));
        }
        None
    }
}

/// The input could not be split into tokens.
#[derive(Debug)]
pub struct LexError {
    /// The input from the first place where no case matches.
    pub rest: String,
    /// Where that place is.
    pub posn: Position,
}

impl LexError {
    /// `Unexpected token ` and the first ten characters of what is left.
    pub fn message(&self) -> (r: String)
        ensures
            r@ == "Unexpected token "@ + self.rest@.take(
                if self.rest@.len() < 10 {
                    self.rest@.len() as int
                } else {
                    10
                },
            ) + "..."@,
    {
        let n = self.rest.as_str().unicode_len();
        let k = if n < 10 {
            n
        } else {
            10
        };
        let mut out = "Unexpected token ".to_owned();
        out.append(self.rest.as_str().substring_char(0, k));
        out.append("...");
        proof {
            assert(self.rest@.subrange(0, k as int) =~= self.rest@.take(k as int));
        }
        out
    }
}

/// Splits `input` into tokens; fails where no case matches.
pub fn tokenize(input: &str) -> (r: Result<Vec<Token>, LexError>)
    ensures
        match lex(input@, 0) {
            Ok(ts) => r is Ok && lexemes(r->Ok_0@) == ts,
            Err(p) => r is Err && r->Err_0.rest@ == input@.skip(p) && r->Err_0.posn.line
                == position_of(input@, p).0 && r->Err_0.posn.character == position_of(
                input@,
                p,
            ).1,
        },
{
    let mut vec: Vec<Token> = Vec::new();
    let mut lexer = Lexer::new(input);
    let ghost s = input@;
    proof {
        if let Ok(ts) = lex(s, 0) {
            assert(lexemes(vec@) + ts =~= ts);
        }
    }
    loop
        invariant_except_break
            lex(s, 0) == prepend_all(lexemes(vec@), lex(s, lexer.pos as int)),
        invariant
            lexer.wf(),
            lexer.chars@ == s,
            lexer.text@ == s,
        ensures
            lex(s, 0) == prepend_all(
                lexemes(vec@),
                if lexer.pos >= s.len() {
                    Ok(Seq::<(Kind, Seq<char>)>::empty())
                } else {
                    Err(lexer.pos as int)
                },
            ),
        decreases s.len() - lexer.pos,
    {
        let ghost before = vec@;
        match lexer.next() {
            Some(t) => {
                vec.push(t);
                proof {
                    lemma_prepend_all_push(lexemes(before), t.lexeme(), lex(s, lexer.pos as int));
                    assert(lexemes(vec@) =~= lexemes(before).push(t.lexeme()));
                }
            },
            None => {
                break ;
            },
        }
    }
    let n = lexer.chars.len();
    if lexer.pos >= n {
        proof {
            assert(lexemes(vec@) + Seq::<(Kind, Seq<char>)>::empty() =~= lexemes(vec@));
        }
        Ok(vec)
    } else {
        let rest = lexer.text.as_str().substring_char(lexer.pos, n).to_owned();
        proof {
            assert(s.subrange(lexer.pos as int, n as int) =~= s.skip(lexer.pos as int));
        }
        Err(LexError { rest, posn: lexer.context.posn })
    }
}

pub open spec fn prepend_all(
    ls: Seq<(Kind, Seq<char>)>,
    r: Result<Seq<(Kind, Seq<char>)>, int>,
) -> Result<Seq<(Kind, Seq<char>)>, int> {
    match r {
        Ok(ts) => Ok(ls + ts),
        Err(e) => Err(e),
    }
}

proof fn lemma_prepend_all_push(
    ls: Seq<(Kind, Seq<char>)>,
    l: (Kind, Seq<char>),
    r: Result<Seq<(Kind, Seq<char>)>, int>,
)
    ensures
        prepend_all(ls, prepend(l, r)) == prepend_all(ls.push(l), r),
{
    if let Ok(ts) = r {
        assert(ls + (seq![l] + ts) =~= ls.push(l) + ts);
    }
}

// ---------------------------------------------------------------- laws
/// Digits, optionally followed by a point and more digits.
pub open spec fn is_num_literal(n: Seq<char>) -> bool {
    let d = span(n, 0, Class::Digit) as int;
    d > 0 && (d == n.len() || (d + 1 < n.len() && n[d] == '.' && d + 1 + span(
        n,
        d + 1,
        Class::Digit,
    ) == n.len()))
}

/// `s` from `i` on is the texts of `ts`, in order, each after a (possibly
/// empty) run of spaces, tabs and carriage returns, and such a run ends it.
pub open spec fn rejoins(s: Seq<char>, i: int, ts: Seq<(Kind, Seq<char>)>) -> bool
    decreases ts.len(),
{
    let j = i + span(s, i, Class::Space);
    if ts.len() == 0 {
        j == s.len()
    } else {
        let t = ts[0].1;
        &&& t.len() > 0
        &&& j + t.len() <= s.len()
        &&& s.subrange(j, j + t.len()) == t
        &&& rejoins(s, j + t.len(), ts.drop_first())
    }
}

proof fn lemma_span_facts(s: Seq<char>, i: int, k: Class)
    requires
        0 <= i <= s.len(),
    ensures
        i + span(s, i, k) <= s.len(),
        forall|j: int| i <= j < i + span(s, i, k) ==> in_class(k, #[trigger] s[j]),
        i + span(s, i, k) == s.len() || !in_class(k, s[i + span(s, i, k)]),
    decreases s.len() - i,
{
    if i < s.len() && in_class(k, s[i]) {
        lemma_span_facts(s, i + 1, k);
    }
}

proof fn lemma_span_run(s: Seq<char>, i: int, m: int, k: Class)
    requires
        0 <= i,
        0 <= m,
        i + m <= s.len(),
        forall|j: int| i <= j < i + m ==> in_class(k, #[trigger] s[j]),
        i + m == s.len() || !in_class(k, s[i + m]),
    ensures
        span(s, i, k) == m,
    decreases m,
{
    if m > 0 {
        lemma_span_run(s, i + 1, m - 1, k);
    }
}

/// A number literal with blanks around it is exactly one `Num` token, whose
/// text is the literal.
pub proof fn law_number_literal_token(before: Seq<char>, n: Seq<char>, after: Seq<char>)
    requires
        is_num_literal(n),
        forall|i: int| 0 <= i < before.len() ==> is_space(#[trigger] before[i]),
        forall|i: int| 0 <= i < after.len() ==> is_space(#[trigger] after[i]),
    ensures
        lex(before + n + after, 0) == Ok::<Seq<(Kind, Seq<char>)>, int>(seq![(Kind::Num, n)]),
{
    let s = before + n + after;
    let b = before.len() as int;
    let e = b + n.len();
    let d = span(n, 0, Class::Digit) as int;
    lemma_span_facts(n, 0, Class::Digit);
    assert(forall|i: int| 0 <= i < b ==> s[i] == before[i]);
    assert(forall|i: int| 0 <= i < n.len() ==> s[b + i] == n[i]);
    assert(forall|i: int| 0 <= i < after.len() ==> s[e + i] == after[i]);
    // leading blanks
    lemma_span_run(s, 0, b, Class::Space);
    // the integer digits
    assert forall|j: int| b <= j < b + d implies in_class(Class::Digit, #[trigger] s[j]) by {
        assert(s[j] == n[j - b]);
    }
    if d < n.len() {
        assert(s[b + d] == n[d]);
    } else if e < s.len() {
        assert(s[e] == after[0]);
    }
    lemma_span_run(s, b, d, Class::Digit);
    if d < n.len() {
        let f = span(n, d + 1, Class::Digit) as int;
        lemma_span_facts(n, d + 1, Class::Digit);
        assert forall|j: int| b + d + 1 <= j < b + d + 1 + f implies in_class(
            Class::Digit,
            #[trigger] s[j],
        ) by {
            assert(s[j] == n[j - b]);
        }
        if e < s.len() {
            assert(s[e] == after[0]);
        }
        assert(s[b + d + 1] == n[d + 1]);
        lemma_span_run(s, b + d + 1, f, Class::Digit);
    }
    assert(num_len(s, b) == n.len());
    assert(param_len(s, b) == 0);
    assert(path_len(s, b) == 0);
    assert(next_token(s, b) == Some((Kind::Num, n.len())));
    // trailing blanks
    assert forall|j: int| e <= j < e + after.len() implies in_class(Class::Space, #[trigger] s[j]) by {
        assert(s[j] == after[j - e]);
    }
    lemma_span_run(s, e, after.len() as int, Class::Space);
    assert(lex(s, e) == Ok::<Seq<(Kind, Seq<char>)>, int>(Seq::empty()));
    assert(s.subrange(b, e) =~= n);
    assert(seq![(Kind::Num, n)] + Seq::<(Kind, Seq<char>)>::empty() =~= seq![(Kind::Num, n)]);
}

/// A string literal: quotes around characters that are not quotes.
pub open spec fn is_str_literal(t: Seq<char>) -> bool {
    &&& t.len() >= 2
    &&& t[0] == '"'
    &&& t[t.len() - 1] == '"'
    &&& forall|i: int| 1 <= i < t.len() - 1 ==> t[i] != '"'
}

/// The arithmetic operators.
pub open spec fn is_arith_symbol(c: char) -> bool {
    c == '+' || c == '-' || c == '*' || c == '/' || c == '%'
}

/// A number literal at `j`, followed by a blank or the end, is read whole.
pub proof fn lemma_num_token_at(s: Seq<char>, j: int, n: Seq<char>)
    requires
        0 <= j,
        j + n.len() <= s.len(),
        s.subrange(j, j + n.len()) == n,
        is_num_literal(n),
        j + n.len() == s.len() || is_space(s[j + n.len()]),
    ensures
        next_token(s, j) == Some((Kind::Num, n.len())),
{
    let e = j + n.len();
    let d = span(n, 0, Class::Digit) as int;
    assert(forall|i: int| 0 <= i < n.len() ==> s[j + i] == #[trigger] n[i]) by {
        assert forall|i: int| 0 <= i < n.len() implies s[j + i] == #[trigger] n[i] by {
            assert(s.subrange(j, e)[i] == s[j + i]);
        }
    }
    lemma_span_facts(n, 0, Class::Digit);
    assert forall|x: int| j <= x < j + d implies in_class(Class::Digit, #[trigger] s[x]) by {
        assert(s[x] == n[x - j]);
    }
    if d < n.len() {
        assert(s[j + d] == n[d]);
    }
    lemma_span_run(s, j, d, Class::Digit);
    if d < n.len() {
        let f = span(n, d + 1, Class::Digit) as int;
        lemma_span_facts(n, d + 1, Class::Digit);
        assert forall|x: int| j + d + 1 <= x < j + d + 1 + f implies in_class(
            Class::Digit,
            #[trigger] s[x],
        ) by {
            assert(s[x] == n[x - j]);
        }
        assert(s[j + d + 1] == n[d + 1]);
        lemma_span_run(s, j + d + 1, f, Class::Digit);
    }
    assert(s[j] == n[0]);
    assert(num_len(s, j) == n.len());
    assert(param_len(s, j) == 0);
    assert(path_len(s, j) == 0);
}

/// A string literal at `j` is read whole.
pub proof fn lemma_str_token_at(s: Seq<char>, j: int, t: Seq<char>)
    requires
        0 <= j,
        j + t.len() <= s.len(),
        s.subrange(j, j + t.len()) == t,
        is_str_literal(t),
    ensures
        next_token(s, j) == Some((Kind::Str, t.len())),
{
    let w = t.len() - 2;
    assert(forall|i: int| 0 <= i < t.len() ==> s[j + i] == #[trigger] t[i]) by {
        assert forall|i: int| 0 <= i < t.len() implies s[j + i] == #[trigger] t[i] by {
            assert(s.subrange(j, j + t.len())[i] == s[j + i]);
        }
    }
    assert forall|x: int| j + 1 <= x < j + 1 + w implies in_class(Class::StrChar, #[trigger] s[x]) by {
        assert(s[x] == t[x - j]);
    }
    assert(s[j + 1 + w] == t[t.len() - 1]);
    lemma_span_run(s, j + 1, w, Class::StrChar);
    assert(s[j] == t[0]);
    assert(span(s, j, Class::Digit) == 0);
    assert(str_len(s, j) == t.len());
}

/// An arithmetic symbol followed by a blank is read as that symbol.
pub proof fn lemma_symbol_token_at(s: Seq<char>, j: int)
    requires
        0 <= j,
        j + 1 < s.len(),
        is_arith_symbol(s[j]),
        is_space(s[j + 1]),
    ensures
        next_token(s, j) == Some((symbol_kind(s[j])->0, 1nat)),
{
}

/// A number or string literal, read as a token of kind `k`.
pub open spec fn is_literal_of(k: Kind, t: Seq<char>) -> bool {
    (k == Kind::Num && is_num_literal(t)) || (k == Kind::Str && is_str_literal(t))
}

proof fn lemma_literal_token_at(s: Seq<char>, j: int, k: Kind, t: Seq<char>)
    requires
        0 <= j,
        j + t.len() <= s.len(),
        s.subrange(j, j + t.len()) == t,
        is_literal_of(k, t),
        j + t.len() == s.len() || is_space(s[j + t.len()]),
    ensures
        next_token(s, j) == Some((k, t.len())),
        !is_space(s[j]),
{
    assert(s[j] == s.subrange(j, j + t.len())[0]);
    if k == Kind::Num {
        lemma_num_token_at(s, j, t);
        lemma_span_facts(t, 0, Class::Digit);
    } else {
        lemma_str_token_at(s, j, t);
    }
}

/// `a op b`, two literals around an arithmetic symbol with one blank on
/// each side, is the three tokens it looks like.
pub proof fn lemma_lex_binary(a: Seq<char>, ka: Kind, op: char, b: Seq<char>, kb: Kind)
    requires
        is_literal_of(ka, a),
        is_literal_of(kb, b),
        is_arith_symbol(op),
    ensures
        lex(a + seq![' ', op, ' '] + b, 0) == Ok::<Seq<(Kind, Seq<char>)>, int>(
            seq![(ka, a), (symbol_kind(op)->0, seq![op]), (kb, b)],
        ),
{
    let s = a + seq![' ', op, ' '] + b;
    let la = a.len() as int;
    let n = s.len() as int;
    assert(s.subrange(0, la) =~= a);
    assert(s.subrange(la + 3, n) =~= b);
    assert(s.subrange(la + 1, la + 2) =~= seq![op]);
    assert(s[la] == ' ');
    assert(s[la + 1] == op);
    assert(s[la + 2] == ' ');
    lemma_literal_token_at(s, la + 3, kb, b);
    lemma_literal_token_at(s, 0, ka, a);
    lemma_symbol_token_at(s, la + 1);
    // the blanks
    assert(span(s, 0, Class::Space) == 0);
    lemma_span_run(s, la, 1, Class::Space);
    lemma_span_run(s, la + 2, 1, Class::Space);
    assert(span(s, n, Class::Space) == 0);
    assert(lex(s, n) == Ok::<Seq<(Kind, Seq<char>)>, int>(Seq::empty()));
    assert(lex(s, la + 2) == Ok::<Seq<(Kind, Seq<char>)>, int>(seq![(kb, b)]));
    assert(span(s, la, Class::Space) == 1);
    assert(seq![(symbol_kind(op)->0, seq![op])] + seq![(kb, b)] =~= seq![
        (symbol_kind(op)->0, seq![op]),
        (kb, b),
    ]);
    assert(lex(s, la) == Ok::<Seq<(Kind, Seq<char>)>, int>(
        seq![(symbol_kind(op)->0, seq![op]), (kb, b)],
    ));
    assert(seq![(ka, a)] + seq![(symbol_kind(op)->0, seq![op]), (kb, b)] =~= seq![
        (ka, a),
        (symbol_kind(op)->0, seq![op]),
        (kb, b),
    ]);
}

/// Whatever tokenizes rejoins: the input is the tokens' texts in order with
/// only blanks around them; no text is dropped or changed.
pub proof fn law_tokens_rejoin(s: Seq<char>)
    requires
        lex(s, 0) is Ok,
    ensures
        rejoins(s, 0, lex(s, 0)->Ok_0),
{
    lemma_lex_rejoins(s, 0);
}

proof fn lemma_lex_rejoins(s: Seq<char>, i: int)
    requires
        0 <= i <= s.len(),
        lex(s, i) is Ok,
    ensures
        rejoins(s, i, lex(s, i)->Ok_0),
    decreases s.len() - i,
{
    lemma_span_facts(s, i, Class::Space);
    let j = i + span(s, i, Class::Space);
    if j < s.len() {
        let (k, n) = next_token(s, j)->0;
        lemma_lex_rejoins(s, j + n);
        let ts = lex(s, i)->Ok_0;
        assert(ts.drop_first() =~= lex(s, j + n)->Ok_0);
    }
}

} // verus!
