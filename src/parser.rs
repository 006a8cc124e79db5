//! The parser: tokens to statements, by recursive descent.
//!
//! ```text
//! Program    := (Statement (NewLine | Semi))* [Statement]
//! Statement  := Var '=' Expression | Expression
//! Expression := Path Factor*                  (a command)
//!             | Term (('+' | '-') Term)*
//! Term       := Factor (('*' | '/' | '%') Factor)*
//! Factor     := Num | Str | Path | Param | Var | '(' Expression ')'
//! ```
//!
//! Each choice is made by the next token alone; nothing is tried twice.
//! Operators of one level associate to the left. A term or an expression
//! ends before an operator that no operand follows; what comes after is
//! then left to the statement, which wants a separator there.
use crate::number::{digits, literal_value, push_digits, Number};
use crate::tokens::{lexemes, Kind, Token};
use vstd::prelude::*;

verus! {

/// An expression.
#[derive(Debug, PartialEq)]
pub enum Expr {
    Add(Box<Expr>, Box<Expr>),
    Sub(Box<Expr>, Box<Expr>),
    Mul(Box<Expr>, Box<Expr>),
    Div(Box<Expr>, Box<Expr>),
    Mod(Box<Expr>, Box<Expr>),
    /// An empty array. The grammar has no syntax for it; a program built
    /// directly may hold it.
    Arr,
    Num(Number),
    /// A string literal, without its quotes.
    Str(String),
    /// A variable reference, by name (without `$`).
    Var(String),
    Path(String),
    Param(String),
    /// A command: the program (a `Path`) and its arguments.
    Command(Box<Expr>, Vec<Expr>),
}

/// A statement.
#[derive(Debug, PartialEq)]
pub enum Stmt {
    /// `$name = expression`; the name is kept without `$`.
    Assign(String, Expr),
    Expr(Expr),
}

/// A program: statements in order, as a chain.
#[derive(Debug)]
pub enum Prog {
    Stmt(Box<Stmt>, Box<Prog>),
    End,
}

/// What an expression is, with text as sequences of characters.
pub enum ExprM {
    Add(Box<ExprM>, Box<ExprM>),
    Sub(Box<ExprM>, Box<ExprM>),
    Mul(Box<ExprM>, Box<ExprM>),
    Div(Box<ExprM>, Box<ExprM>),
    Mod(Box<ExprM>, Box<ExprM>),
    Arr,
    Num(Number),
    Str(Seq<char>),
    Var(Seq<char>),
    Path(Seq<char>),
    Param(Seq<char>),
    Command(Box<ExprM>, Seq<ExprM>),
}

pub enum StmtM {
    Assign(Seq<char>, ExprM),
    Expr(ExprM),
}

impl Expr {
    pub open spec fn model(&self) -> ExprM
        decreases self,
    {
        match self {
            Expr::Add(a, b) => ExprM::Add(Box::new(a.model()), Box::new(b.model())),
            Expr::Sub(a, b) => ExprM::Sub(Box::new(a.model()), Box::new(b.model())),
            Expr::Mul(a, b) => ExprM::Mul(Box::new(a.model()), Box::new(b.model())),
            Expr::Div(a, b) => ExprM::Div(Box::new(a.model()), Box::new(b.model())),
            Expr::Mod(a, b) => ExprM::Mod(Box::new(a.model()), Box::new(b.model())),
            Expr::Arr => ExprM::Arr,
            Expr::Num(n) => ExprM::Num(*n),
            Expr::Str(s) => ExprM::Str(s@),
            Expr::Var(s) => ExprM::Var(s@),
            Expr::Path(s) => ExprM::Path(s@),
            Expr::Param(s) => ExprM::Param(s@),
            Expr::Command(p, args) => ExprM::Command(
                Box::new(p.model()),
                Seq::new(
                    args.len() as nat,
                    |i: int|
                        if 0 <= i < args.len() {
                            args[i].model()
                        } else {
                            ExprM::Arr
                        },
                ),
            ),
        }
    }
}

pub open spec fn models(v: Seq<Expr>) -> Seq<ExprM> {
    v.map_values(|e: Expr| e.model())
}

/// The model of a command, with its arguments as one sequence.
pub proof fn lemma_command_model(callee: Box<Expr>, args: Vec<Expr>)
    ensures
        Expr::Command(callee, args).model() == ExprM::Command(
            Box::new(callee.model()),
            models(args@),
        ),
{
    let a = match Expr::Command(callee, args).model() {
        ExprM::Command(_, a) => a,
        _ => Seq::empty(),
    };
    assert(a =~= models(args@));
}

impl Stmt {
    pub open spec fn model(&self) -> StmtM {
        match self {
            Stmt::Assign(n, e) => StmtM::Assign(n@, e.model()),
            Stmt::Expr(e) => StmtM::Expr(e.model()),
        }
    }
}

impl Prog {
    pub open spec fn model(&self) -> Seq<StmtM>
        decreases self,
    {
        match self {
            Prog::Stmt(s, rest) => seq![s.model()] + rest.model(),
            Prog::End => Seq::empty(),
        }
    }
}

/// The parse failed at token `at`, where `expected` was wanted.
#[derive(Debug)]
pub struct ParseError {
    pub at: usize,
    pub expected: String,
}

impl ParseError {
    /// `Expected <what> at token <n>.`
    pub fn message(&self) -> (r: String)
        ensures
            r@ == "Expected "@ + self.expected@ + " at token "@ + digits(self.at as nat) + "."@,
    {
        let mut out = "Expected ".to_owned();
        out.append(self.expected.as_str());
        out.append(" at token ");
        push_digits(self.at as u64, &mut out);
        out.append(".");
        out
    }
}

// ---------------------------------------------------------------- grammar
pub type Lexemes = Seq<(Kind, Seq<char>)>;

/// A parsed value and the position after it, or a position and what was
/// expected there.
pub type Parsed<T> = Result<(T, int), (int, Seq<char>)>;

pub open spec fn value_wanted() -> Seq<char> {
    "a value"@
}

pub open spec fn rparen_wanted() -> Seq<char> {
    "')'"@
}

pub open spec fn end_wanted() -> Seq<char> {
    "a newline or ';'"@
}

/// A string literal without its quotes.
pub open spec fn strip_quotes(t: Seq<char>) -> Seq<char> {
    let a: int = if t.len() > 0 && t[0] == '"' {
        1
    } else {
        0
    };
    let b: int = if t.len() > a && t[t.len() - 1] == '"' {
        t.len() - 1
    } else {
        t.len() as int
    };
    t.subrange(a, b)
}

/// A variable's name: its token without the `$`.
pub open spec fn var_name(t: Seq<char>) -> Seq<char> {
    if t.len() > 0 && t[0] == '$' {
        t.skip(1)
    } else {
        t
    }
}

pub open spec fn starts_factor(k: Kind) -> bool {
    k == Kind::Num || k == Kind::Str || k == Kind::Path || k == Kind::Param || k == Kind::Var || k
        == Kind::LParen
}

pub open spec fn is_additive(k: Kind) -> bool {
    k == Kind::Plus || k == Kind::Minus
}

pub open spec fn is_multiplicative(k: Kind) -> bool {
    k == Kind::Ast || k == Kind::Slash || k == Kind::Mod
}

pub open spec fn is_separator(k: Kind) -> bool {
    k == Kind::NewLine || k == Kind::Semi
}

pub open spec fn binary(k: Kind, l: ExprM, r: ExprM) -> ExprM {
    match k {
        Kind::Plus => ExprM::Add(Box::new(l), Box::new(r)),
        Kind::Minus => ExprM::Sub(Box::new(l), Box::new(r)),
        Kind::Ast => ExprM::Mul(Box::new(l), Box::new(r)),
        Kind::Slash => ExprM::Div(Box::new(l), Box::new(r)),
        _ => ExprM::Mod(Box::new(l), Box::new(r)),
    }
}

pub open spec fn p_factor(ts: Lexemes, i: int) -> Parsed<ExprM>
    decreases ts.len() - i, 0int,
{
    if i < 0 || i >= ts.len() {
        Err((i, value_wanted()))
    } else {
        let (k, t) = ts[i];
        if k == Kind::Num {
            Ok((ExprM::Num(literal_value(t)), i + 1))
        } else if k == Kind::Str {
            Ok((ExprM::Str(strip_quotes(t)), i + 1))
        } else if k == Kind::Path {
            Ok((ExprM::Path(t), i + 1))
        } else if k == Kind::Param {
            Ok((ExprM::Param(t), i + 1))
        } else if k == Kind::Var {
            Ok((ExprM::Var(var_name(t)), i + 1))
        } else if k == Kind::LParen {
            match p_expr(ts, i + 1) {
                Ok((e, j)) => if 0 <= j < ts.len() && ts[j].0 == Kind::RParen {
                    Ok((e, j + 1))
                } else {
                    Err((j, rparen_wanted()))
                },
                Err(err) => Err(err),
            }
        } else {
            Err((i, value_wanted()))
        }
    }
}

/// Further multiplicative factors after `lhs`, which ends before `i`. An
/// operator that no factor follows ends the term before it.
pub open spec fn p_term_tail(ts: Lexemes, lhs: ExprM, i: int) -> Parsed<ExprM>
    decreases ts.len() - i, 1int,
{
    if 0 <= i < ts.len() && is_multiplicative(ts[i].0) {
        match p_factor(ts, i + 1) {
            Ok((r, j)) => if j <= i || j > ts.len() {
                Err((j, value_wanted()))
            } else {
                p_term_tail(ts, binary(ts[i].0, lhs, r), j)
            },
            Err(_) => Ok((lhs, i)),
        }
    } else {
        Ok((lhs, i))
    }
}

pub open spec fn p_term(ts: Lexemes, i: int) -> Parsed<ExprM>
    decreases ts.len() - i, 1int,
{
    match p_factor(ts, i) {
        Ok((l, j)) => if j <= i || j > ts.len() {
            Err((j, value_wanted()))
        } else {
            p_term_tail(ts, l, j)
        },
        Err(err) => Err(err),
    }
}

/// Further additive terms after `lhs`, which ends before `i`. An operator
/// that no term follows ends the expression before it.
pub open spec fn p_expr_tail(ts: Lexemes, lhs: ExprM, i: int) -> Parsed<ExprM>
    decreases ts.len() - i, 2int,
{
    if 0 <= i < ts.len() && is_additive(ts[i].0) {
        match p_term(ts, i + 1) {
            Ok((r, j)) => if j <= i || j > ts.len() {
                Err((j, value_wanted()))
            } else {
                p_expr_tail(ts, binary(ts[i].0, lhs, r), j)
            },
            Err(_) => Ok((lhs, i)),
        }
    } else {
        Ok((lhs, i))
    }
}

/// The arguments of a command from `i`: factors for as long as the next
/// token can start one.
pub open spec fn p_args(ts: Lexemes, i: int, acc: Seq<ExprM>) -> Parsed<Seq<ExprM>>
    decreases ts.len() - i, 1int,
{
    if 0 <= i < ts.len() && starts_factor(ts[i].0) {
        match p_factor(ts, i) {
            Ok((e, j)) => if j <= i || j > ts.len() {
                Err((j, value_wanted()))
            } else {
                p_args(ts, j, acc.push(e))
            },
            Err(err) => Err(err),
        }
    } else {
        Ok((acc, i))
    }
}

pub open spec fn p_expr(ts: Lexemes, i: int) -> Parsed<ExprM>
    decreases ts.len() - i, 2int,
{
    if 0 <= i < ts.len() && ts[i].0 == Kind::Path {
        match p_args(ts, i + 1, Seq::empty()) {
            Ok((args, j)) => Ok((ExprM::Command(Box::new(ExprM::Path(ts[i].1)), args), j)),
            Err(err) => Err(err),
        }
    } else {
        match p_term(ts, i) {
            Ok((l, j)) => if j <= i || j > ts.len() {
                Err((j, value_wanted()))
            } else {
                p_expr_tail(ts, l, j)
            },
            Err(err) => Err(err),
        }
    }
}

pub open spec fn p_stmt(ts: Lexemes, i: int) -> Parsed<StmtM> {
    if 0 <= i && i + 1 < ts.len() && ts[i].0 == Kind::Var && ts[i + 1].0 == Kind::Eq {
        match p_expr(ts, i + 2) {
            Ok((e, j)) => Ok((StmtM::Assign(var_name(ts[i].1), e), j)),
            Err(err) => Err(err),
        }
    } else {
        match p_expr(ts, i) {
            Ok((e, j)) => Ok((StmtM::Expr(e), j)),
            Err(err) => Err(err),
        }
    }
}

/// The statements from `i` to the end.
pub open spec fn p_prog(ts: Lexemes, i: int) -> Result<Seq<StmtM>, (int, Seq<char>)>
    decreases ts.len() - i,
{
    if i < 0 || i >= ts.len() {
        Ok(Seq::empty())
    } else {
        match p_stmt(ts, i) {
            Ok((s, j)) => if j <= i {
                Err((j, value_wanted()))
            } else if j >= ts.len() {
                Ok(seq![s])
            } else if is_separator(ts[j].0) {
                match p_prog(ts, j + 1) {
                    Ok(rest) => Ok(seq![s] + rest),
                    Err(err) => Err(err),
                }
            } else {
                Err((j, end_wanted()))
            },
            Err(err) => Err(err),
        }
    }
}

/// The program that the tokens `ts` form.
pub open spec fn program_of(ts: Lexemes) -> Result<Seq<StmtM>, (int, Seq<char>)> {
    p_prog(ts, 0)
}

/// A lone number token is a program of one statement: that number, as
/// `literal_value` reads its text.
pub proof fn law_number_token_parses(n: Seq<char>)
    ensures
        program_of(seq![(Kind::Num, n)]) == Ok::<Seq<StmtM>, (int, Seq<char>)>(
            seq![StmtM::Expr(ExprM::Num(literal_value(n)))],
        ),
{
    let ts = seq![(Kind::Num, n)];
    assert(p_factor(ts, 0) == Ok::<(ExprM, int), (int, Seq<char>)>((ExprM::Num(literal_value(n)), 1)));
    assert(p_term(ts, 0) == Ok::<(ExprM, int), (int, Seq<char>)>((ExprM::Num(literal_value(n)), 1)));
    assert(p_expr(ts, 0) == Ok::<(ExprM, int), (int, Seq<char>)>((ExprM::Num(literal_value(n)), 1)));
}

/// The factor that a number or string token stands for.
pub open spec fn literal_factor(k: Kind, t: Seq<char>) -> ExprM {
    if k == Kind::Num {
        ExprM::Num(literal_value(t))
    } else {
        ExprM::Str(strip_quotes(t))
    }
}

/// Two literals around an arithmetic operator are one statement: that
/// operation on them.
pub proof fn lemma_parse_binary(
    ka: Kind,
    a: Seq<char>,
    kop: Kind,
    o: Seq<char>,
    kb: Kind,
    b: Seq<char>,
)
    requires
        ka == Kind::Num || ka == Kind::Str,
        kb == Kind::Num || kb == Kind::Str,
        is_additive(kop) || is_multiplicative(kop),
    ensures
        program_of(seq![(ka, a), (kop, o), (kb, b)]) == Ok::<Seq<StmtM>, (int, Seq<char>)>(
            seq![StmtM::Expr(binary(kop, literal_factor(ka, a), literal_factor(kb, b)))],
        ),
{
    let ts = seq![(ka, a), (kop, o), (kb, b)];
    let fa = literal_factor(ka, a);
    let fb = literal_factor(kb, b);
    let e = binary(kop, fa, fb);
    assert(ts[0] == (ka, a));
    assert(ts[1] == (kop, o));
    assert(ts[2] == (kb, b));
    assert(p_factor(ts, 0) == Ok::<(ExprM, int), (int, Seq<char>)>((fa, 1)));
    assert(p_factor(ts, 2) == Ok::<(ExprM, int), (int, Seq<char>)>((fb, 3)));
    assert(p_term_tail(ts, fb, 3) == Ok::<(ExprM, int), (int, Seq<char>)>((fb, 3)));
    assert(p_term_tail(ts, e, 3) == Ok::<(ExprM, int), (int, Seq<char>)>((e, 3)));
    assert(p_expr_tail(ts, e, 3) == Ok::<(ExprM, int), (int, Seq<char>)>((e, 3)));
    if is_multiplicative(kop) {
        assert(p_term_tail(ts, fa, 1) == Ok::<(ExprM, int), (int, Seq<char>)>((e, 3)));
        assert(p_term(ts, 0) == Ok::<(ExprM, int), (int, Seq<char>)>((e, 3)));
    } else {
        assert(p_term_tail(ts, fa, 1) == Ok::<(ExprM, int), (int, Seq<char>)>((fa, 1)));
        assert(p_term(ts, 0) == Ok::<(ExprM, int), (int, Seq<char>)>((fa, 1)));
        assert(p_term(ts, 2) == Ok::<(ExprM, int), (int, Seq<char>)>((fb, 3)));
        assert(p_expr_tail(ts, fa, 1) == Ok::<(ExprM, int), (int, Seq<char>)>((e, 3)));
    }
    assert(p_expr(ts, 0) == Ok::<(ExprM, int), (int, Seq<char>)>((e, 3)));
    assert(p_stmt(ts, 0) == Ok::<(StmtM, int), (int, Seq<char>)>((StmtM::Expr(e), 3)));
}

// ---------------------------------------------------------------- exec
pub open spec fn agrees(r: Result<(Expr, usize), ParseError>, s: Parsed<ExprM>) -> bool {
    match s {
        Ok((e, j)) => r is Ok && r->Ok_0.0.model() == e && r->Ok_0.1 == j,
        Err((p, w)) => r is Err && r->Err_0.at == p && r->Err_0.expected@ == w,
    }
}

pub open spec fn moves(r: Result<(Expr, usize), ParseError>, i: int, n: int) -> bool {
    r is Ok ==> i < r->Ok_0.1 <= n
}

fn fail(at: usize, what: &str) -> (r: ParseError)
    ensures
        r.at == at,
        r.expected@ == what@,
{
    ParseError { at, expected: what.to_owned() }
}

fn kind_at(ts: &[Token], i: usize) -> (r: Option<Kind>)
    ensures
        r == if i < ts@.len() {
            Some(ts@[i as int].kind())
        } else {
            None::<Kind>
        },
{
    if i < ts.len() {
        Some(
            match &ts[i] {
                Token::At => Kind::At,
                Token::Amp => Kind::Amp,
                Token::Ast => Kind::Ast,
                Token::LParen => Kind::LParen,
                Token::RParen => Kind::RParen,
                Token::Plus => Kind::Plus,
                Token::Minus => Kind::Minus,
                Token::Mod => Kind::Mod,
                Token::Eq => Kind::Eq,
                Token::Pipe => Kind::Pipe,
                Token::Colon => Kind::Colon,
                Token::LCurl => Kind::LCurl,
                Token::RCurl => Kind::RCurl,
                Token::LSq => Kind::LSq,
                Token::RSq => Kind::RSq,
                Token::Comma => Kind::Comma,
                Token::Semi => Kind::Semi,
                Token::Slash => Kind::Slash,
                Token::NewLine => Kind::NewLine,
                Token::Var(_) => Kind::Var,
                Token::Num(_) => Kind::Num,
                Token::Str(_) => Kind::Str,
                Token::Path(_) => Kind::Path,
                Token::Param(_) => Kind::Param,
            },
        )
    } else {
        None
    }
}

fn strip_quotes_exec(t: &String) -> (r: String)
    ensures
        r@ == strip_quotes(t@),
{
    let n = t.as_str().unicode_len();
    let a: usize = if n > 0 && t.as_str().get_char(0) == '"' {
        1
    } else {
        0
    };
    let b: usize = if n > a && t.as_str().get_char(n - 1) == '"' {
        n - 1
    } else {
        n
    };
    t.as_str().substring_char(a, b).to_owned()
}

fn var_name_exec(t: &String) -> (r: String)
    ensures
        r@ == var_name(t@),
{
    let n = t.as_str().unicode_len();
    if n > 0 && t.as_str().get_char(0) == '$' {
        let r = t.as_str().substring_char(1, n).to_owned();
        proof {
            assert(r@ =~= t@.skip(1));
        }
        r
    } else {
        t.clone()
    }
}

fn binary_exec(k: Kind, l: Expr, r: Expr) -> (e: Expr)
    ensures
        e.model() == binary(k, l.model(), r.model()),
{
    match k {
        Kind::Plus => Expr::Add(Box::new(l), Box::new(r)),
        Kind::Minus => Expr::Sub(Box::new(l), Box::new(r)),
        Kind::Ast => Expr::Mul(Box::new(l), Box::new(r)),
        Kind::Slash => Expr::Div(Box::new(l), Box::new(r)),
        _ => Expr::Mod(Box::new(l), Box::new(r)),
    }
}

fn parse_factor(ts: &[Token], i: usize) -> (r: Result<(Expr, usize), ParseError>)
    ensures
        agrees(r, p_factor(lexemes(ts@), i as int)),
        moves(r, i as int, ts@.len() as int),
    decreases ts@.len() - i, 0int,
{
    if i >= ts.len() {
        return Err(fail(i, "a value"));
    }
    match &ts[i] {
        Token::Num(t) => Ok((Expr::Num(Number::from_literal(t.as_str())), i + 1)),
        Token::Str(t) => Ok((Expr::Str(strip_quotes_exec(t)), i + 1)),
        Token::Path(t) => Ok((Expr::Path(t.clone()), i + 1)),
        Token::Param(t) => Ok((Expr::Param(t.clone()), i + 1)),
        Token::Var(t) => Ok((Expr::Var(var_name_exec(t)), i + 1)),
        Token::LParen => {
            match parse_expr(ts, i + 1) {
                Ok((e, j)) => {
                    if kind_at(ts, j) == Some(Kind::RParen) {
                        Ok((e, j + 1))
                    } else {
                        Err(fail(j, "')'"))
                    }
                },
                Err(err) => Err(err),
            }
        },
        _ => Err(fail(i, "a value")),
    }
}

fn parse_term(ts: &[Token], i: usize) -> (r: Result<(Expr, usize), ParseError>)
    ensures
        agrees(r, p_term(lexemes(ts@), i as int)),
        moves(r, i as int, ts@.len() as int),
    decreases ts@.len() - i, 1int,
{
    let ghost ls = lexemes(ts@);
    let (mut acc, mut k) = match parse_factor(ts, i) {
        Ok(ok) => ok,
        Err(err) => {
            return Err(err);
        },
    };
    loop
        invariant
            i < k <= ts@.len(),
            ls == lexemes(ts@),
            p_term(ls, i as int) == p_term_tail(ls, acc.model(), k as int),
        decreases ts@.len() - k,
    {
        if k >= ts.len() {
            return Ok((acc, k));
        }
        let op = kind_at(ts, k);
        match op {
            Some(Kind::Ast) | Some(Kind::Slash) | Some(Kind::Mod) => {
                match parse_factor(ts, k + 1) {
                    Ok((r, j)) => {
                        acc = binary_exec(op.unwrap(), acc, r);
                        k = j;
                    },
                    Err(_) => {
                        return Ok((acc, k));
                    },
                }
            },
            _ => {
                return Ok((acc, k));
            },
        }
    }
}

fn parse_args(ts: &[Token], i: usize) -> (r: Result<(Vec<Expr>, usize), ParseError>)
    ensures
        match p_args(lexemes(ts@), i as int, Seq::empty()) {
            Ok((args, j)) => r is Ok && models(r->Ok_0.0@) == args && r->Ok_0.1 == j,
            Err((p, w)) => r is Err && r->Err_0.at == p && r->Err_0.expected@ == w,
        },
        r is Ok ==> i <= r->Ok_0.1 <= ts@.len() || i > ts@.len(),
    decreases ts@.len() - i, 1int,
{
    let ghost ls = lexemes(ts@);
    let mut args: Vec<Expr> = Vec::new();
    let mut k = i;
    proof {
        assert(models(args@) =~= Seq::<ExprM>::empty());
    }
    loop
        invariant
            i <= k,
            k <= ts@.len() || k == i,
            ls == lexemes(ts@),
            p_args(ls, i as int, Seq::empty()) == p_args(ls, k as int, models(args@)),
        decreases ts@.len() - k,
    {
        let starts = match kind_at(ts, k) {
            Some(Kind::Num) | Some(Kind::Str) | Some(Kind::Path) | Some(Kind::Param) | Some(
                Kind::Var,
            ) | Some(Kind::LParen) => true,
            _ => false,
        };
        if !starts {
            return Ok((args, k));
        }
        match parse_factor(ts, k) {
            Ok((e, j)) => {
                let ghost before = args@;
                args.push(e);
                proof {
                    assert(models(args@) =~= models(before).push(e.model()));
                }
                k = j;
            },
            Err(err) => {
                return Err(err);
            },
        }
    }
}

fn parse_expr(ts: &[Token], i: usize) -> (r: Result<(Expr, usize), ParseError>)
    ensures
        agrees(r, p_expr(lexemes(ts@), i as int)),
        moves(r, i as int, ts@.len() as int),
    decreases ts@.len() - i, 2int,
{
    let ghost ls = lexemes(ts@);
    if i < ts.len() {
        if let Token::Path(p) = &ts[i] {
            return match parse_args(ts, i + 1) {
                Ok((args, j)) => {
                    let callee = Expr::Path(p.clone());
                    proof {
                        assert(callee.model() == ExprM::Path(p@));
                    }
                    let e = Expr::Command(Box::new(callee), args);
                    proof {
                        assert(ls[i as int] == ts@[i as int].lexeme());
                        assert(ls[i as int].1 == p@);
                        let ghost a = match e.model() {
                            ExprM::Command(_, a) => a,
                            _ => Seq::empty(),
                        };
                        assert(a =~= models(args@));
                        assert(e.model() == ExprM::Command(
                            Box::new(ExprM::Path(ls[i as int].1)),
                            models(args@),
                        ));
                    }
                    Ok((e, j))
                },
                Err(err) => Err(err),
            };
        }
    }
    let (mut acc, mut k) = match parse_term(ts, i) {
        Ok(ok) => ok,
        Err(err) => {
            return Err(err);
        },
    };
    loop
        invariant
            i < k <= ts@.len(),
            ls == lexemes(ts@),
            p_expr(ls, i as int) == p_expr_tail(ls, acc.model(), k as int),
        decreases ts@.len() - k,
    {
        if k >= ts.len() {
            return Ok((acc, k));
        }
        let op = kind_at(ts, k);
        match op {
            Some(Kind::Plus) | Some(Kind::Minus) => {
                match parse_term(ts, k + 1) {
                    Ok((r, j)) => {
                        acc = binary_exec(op.unwrap(), acc, r);
                        k = j;
                    },
                    Err(_) => {
                        return Ok((acc, k));
                    },
                }
            },
            _ => {
                return Ok((acc, k));
            },
        }
    }
}

fn parse_stmt(ts: &[Token], i: usize) -> (r: Result<(Stmt, usize), ParseError>)
    ensures
        match p_stmt(lexemes(ts@), i as int) {
            Ok((s, j)) => r is Ok && r->Ok_0.0.model() == s && r->Ok_0.1 == j,
            Err((p, w)) => r is Err && r->Err_0.at == p && r->Err_0.expected@ == w,
        },
        r is Ok ==> i < r->Ok_0.1 <= ts@.len(),
{
    if i < ts.len() && i + 1 < ts.len() && kind_at(ts, i + 1) == Some(Kind::Eq) {
        if let Token::Var(t) = &ts[i] {
            return match parse_expr(ts, i + 2) {
                Ok((e, j)) => Ok((Stmt::Assign(var_name_exec(t), e), j)),
                Err(err) => Err(err),
            };
        }
    }
    match parse_expr(ts, i) {
        Ok((e, j)) => Ok((Stmt::Expr(e), j)),
        Err(err) => Err(err),
    }
}

fn parse_prog(ts: &[Token], i: usize) -> (r: Result<Prog, ParseError>)
    ensures
        match p_prog(lexemes(ts@), i as int) {
            Ok(ss) => r is Ok && r->Ok_0.model() == ss,
            Err((p, w)) => r is Err && r->Err_0.at == p && r->Err_0.expected@ == w,
        },
    decreases ts@.len() - i,
{
    if i >= ts.len() {
        return Ok(Prog::End);
    }
    let (s, j) = match parse_stmt(ts, i) {
        Ok(ok) => ok,
        Err(err) => {
            return Err(err);
        },
    };
    if j >= ts.len() {
        let p = Prog::Stmt(Box::new(s), Box::new(Prog::End));
        proof {
            assert(Prog::End.model() =~= Seq::<StmtM>::empty());
            assert(seq![s.model()] + Seq::<StmtM>::empty() =~= seq![s.model()]);
        }
        return Ok(p);
    }
    match kind_at(ts, j) {
        Some(Kind::NewLine) | Some(Kind::Semi) => match parse_prog(ts, j + 1) {
            Ok(rest) => Ok(Prog::Stmt(Box::new(s), Box::new(rest))),
            Err(err) => Err(err),
        },
        _ => Err(fail(j, "a newline or ';'")),
    }
}

/// Parses a whole token sequence into a program.
pub fn parse(ts: &[Token]) -> (r: Result<Prog, ParseError>)
    ensures
        match program_of(lexemes(ts@)) {
            Ok(ss) => r is Ok && r->Ok_0.model() == ss,
            Err((p, w)) => r is Err && r->Err_0.at == p && r->Err_0.expected@ == w,
        },
{
    parse_prog(ts, 0)
}

} // verus!
