//! A small command and expression language: a tokenizer, a recursive-descent
//! parser and an evaluator that keeps its variables across calls.
pub mod context;
pub mod interpreter;
pub mod number;
pub mod parser;
pub mod tokens;

use crate::interpreter::{
    add_error, combine, displays, div_error, eval_binary, interpretation,
    join, mod_error, mul_error, outcome_models, output_text, run, sub_error, Env, HaltM, Op,
    Outcome, OutcomeM, Session, Step, StepM, ValueM,
};
use crate::number::{literal_value, normal, render, Number};
use crate::parser::{
    binary, is_additive, is_multiplicative, law_number_token_parses, lemma_parse_binary,
    literal_factor, ExprM, StmtM,
};
use crate::tokens::{
    is_arith_symbol, is_literal_of, is_num_literal, is_space, law_number_literal_token, lemma_lex_binary,
    lex, symbol_kind, Kind,
};
use vstd::prelude::*;

verus! {

/// Interprets `input` in a fresh session without variables. A command
/// cannot run here: reaching one is an error that names the program.
pub fn eval(input: &str) -> (r: Result<String, String>)
    ensures
        match interpretation(Map::empty(), input@, Seq::empty()).0 {
            StepM::Finished(Ok(t)) => r is Ok && r->Ok_0@ == t,
            StepM::Finished(Err(m)) => r is Err && r->Err_0@ == m,
            StepM::Run(p, _) => r is Err && r->Err_0@ == "Cannot run "@ + p + " here."@,
        },
{
    let mut session = Session::empty();
    let none: Vec<Outcome> = Vec::new();
    proof {
        assert(outcome_models(none@) =~= Seq::empty());
    }
    match session.interpret(input, none.as_slice()) {
        Step::Finished(r) => r,
        Step::Run { program, .. } => {
            let mut m = "Cannot run ".to_owned();
            m.append(program.as_str());
            m.append(" here.");
            Err(m)
        },
    }
}

/// A number literal with blanks around it is one `Num` token of exactly
/// that text, and interpreting it shows the number that the text denotes.
pub proof fn law_number_literal(
    before: Seq<char>,
    n: Seq<char>,
    after: Seq<char>,
    env: Env,
    outs: Seq<OutcomeM>,
)
    requires
        is_num_literal(n),
        forall|i: int| 0 <= i < before.len() ==> is_space(#[trigger] before[i]),
        forall|i: int| 0 <= i < after.len() ==> is_space(#[trigger] after[i]),
    ensures
        lex(before + n + after, 0) == Ok::<Seq<(Kind, Seq<char>)>, int>(seq![(Kind::Num, n)]),
        interpretation(env, before + n + after, outs) == (
            StepM::Finished(Ok(render(normal(literal_value(n))))),
            env,
        ),
{
    law_number_literal_token(before, n, after);
    law_number_token_parses(n);
    let x = literal_value(n);
    lemma_single_number_output(env, outs, x);
}

proof fn lemma_single_number_output(env: Env, outs: Seq<OutcomeM>, x: Number)
    ensures
        run(env, outs, 0, seq![StmtM::Expr(ExprM::Num(x))]) == Ok::<
            (Seq<ValueM>, Env, nat),
            HaltM,
        >((seq![ValueM::Num(x)], env, 0nat)),
        output_text(seq![ValueM::Num(x)])
            == render(normal(x)),
{
    let ss = seq![StmtM::Expr(ExprM::Num(x))];
    let v = ValueM::Num(x);
    assert(ss.drop_first() =~= Seq::<StmtM>::empty());
    assert(ss[0] == StmtM::Expr(ExprM::Num(x)));
    assert(crate::interpreter::eval(env, outs, 0, ExprM::Num(x)) == Ok::<
        (ValueM, Env, nat),
        HaltM,
    >((v, env, 0nat)));
    assert(run(env, outs, 0, Seq::<StmtM>::empty()) == Ok::<
        (Seq<ValueM>, Env, nat),
        HaltM,
    >((Seq::empty(), env, 0nat)));
    assert(seq![v] + Seq::<ValueM>::empty() =~= seq![v]);
    assert(displays(seq![v]) =~= seq![render(normal(x))]);
    assert(output_text(seq![v]) =~= render(normal(x)));
}

/// The type error of an arithmetic symbol.
pub open spec fn arith_error(op: char) -> Seq<char> {
    if op == '+' {
        add_error()
    } else if op == '-' {
        sub_error()
    } else if op == '*' {
        mul_error()
    } else if op == '/' {
        div_error()
    } else {
        mod_error()
    }
}

/// A number literal and a string literal, in either order, under any
/// arithmetic operator fail with that operator's type error, and the
/// variables stay as they were: nothing is converted.
pub proof fn law_mixed_literals_fail(
    a: Seq<char>,
    ka: Kind,
    op: char,
    b: Seq<char>,
    kb: Kind,
    env: Env,
    outs: Seq<OutcomeM>,
)
    requires
        is_literal_of(ka, a),
        is_literal_of(kb, b),
        ka != kb,
        is_arith_symbol(op),
    ensures
        interpretation(env, a + seq![' ', op, ' '] + b, outs) == (
            StepM::Finished(Err(arith_error(op))),
            env,
        ),
{
    lemma_lex_binary(a, ka, op, b, kb);
    let kop = symbol_kind(op)->0;
    assert(is_additive(kop) || is_multiplicative(kop));
    lemma_parse_binary(ka, a, kop, seq![op], kb, b);
    lemma_mixed_statement_fails(env, outs, ka, a, op, kb, b);
}

proof fn lemma_mixed_statement_fails(
    env: Env,
    outs: Seq<OutcomeM>,
    ka: Kind,
    a: Seq<char>,
    op: char,
    kb: Kind,
    b: Seq<char>,
)
    requires
        ka == Kind::Num || ka == Kind::Str,
        kb == Kind::Num || kb == Kind::Str,
        ka != kb,
        is_arith_symbol(op),
    ensures
        run(
            env,
            outs,
            0,
            seq![
                StmtM::Expr(
                    binary(symbol_kind(op)->0, literal_factor(ka, a), literal_factor(kb, b)),
                ),
            ],
        ) == Err::<(Seq<ValueM>, Env, nat), HaltM>(HaltM::Error(arith_error(op))),
{
    let fa = literal_factor(ka, a);
    let fb = literal_factor(kb, b);
    let e = binary(symbol_kind(op)->0, fa, fb);
    let o = if op == '+' {
        Op::Add
    } else if op == '-' {
        Op::Sub
    } else if op == '*' {
        Op::Mul
    } else if op == '/' {
        Op::Div
    } else {
        Op::Mod
    };
    let va = crate::interpreter::eval(env, outs, 0, fa)->Ok_0.0;
    let vb = crate::interpreter::eval(env, outs, 0, fb)->Ok_0.0;
    assert(crate::interpreter::eval(env, outs, 0, fa) == Ok::<(ValueM, Env, nat), HaltM>((va, env, 0nat)));
    assert(crate::interpreter::eval(env, outs, 0, fb) == Ok::<(ValueM, Env, nat), HaltM>((vb, env, 0nat)));
    assert(combine(o, va, vb) == Err::<ValueM, Seq<char>>(arith_error(op)));
    assert(eval_binary(env, outs, 0, o, e) == Err::<(ValueM, Env, nat), HaltM>(HaltM::Error(arith_error(op))));
    assert(crate::interpreter::eval(env, outs, 0, e) == Err::<(ValueM, Env, nat), HaltM>(HaltM::Error(arith_error(op))));
    let ss = seq![StmtM::Expr(e)];
    assert(ss[0] == StmtM::Expr(e));
}

} // verus!
