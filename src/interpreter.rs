//! The evaluator and the session that keeps variables between inputs.
//!
//! External programs are not run here. Evaluation is replayed: a session is
//! given the outcomes of the commands run so far for the current input, in
//! the order in which evaluation reached them. When evaluation reaches a
//! command beyond those, it stops and asks for that command to be run
//! (`Step::Run`); the caller runs it, adds its outcome and asks again. Each
//! command's standard output is captured, and its value shows that output.
//! Only a finished input changes the session's variables.
use crate::number::{
    difference_of, normal, product_of, quotient_of, remainder_of, render, sum_of, Number,
};
use crate::parser::{
    lemma_command_model, models, parse, program_of, Expr, ExprM, Prog, Stmt, StmtM,
};
use crate::tokens::{lex, tokenize};
use vstd::prelude::*;

verus! {

/// What a value is, with text as sequences of characters.
pub enum ValueM {
    Str(Seq<char>),
    Num(Number),
    Arr(Seq<ValueM>),
    Process(Option<i32>, Seq<char>),
    Void,
}

/// What became of a command that was asked for.
pub enum OutcomeM {
    Exited(Option<i32>, Seq<char>),
    Failed(Seq<char>),
}

/// Why evaluation stopped early.
pub enum HaltM {
    Error(Seq<char>),
    /// A command, with the text of each argument, must be run first.
    Spawn(Seq<char>, Seq<Seq<char>>),
}

pub type Env = Map<Seq<char>, ValueM>;

/// Evaluation results: a value, the environment after it and how many
/// outcomes have been used.
pub type Evaluated<T> = Result<(T, Env, nat), HaltM>;

/// The variable that holds the exit code of the last command.
pub open spec fn status_key() -> Seq<char> {
    seq!['?']
}

/// Process output without its trailing line breaks.
pub open spec fn trim_newlines(s: Seq<char>) -> Seq<char>
    decreases s.len(),
{
    if s.len() > 0 && (s.last() == '\n' || s.last() == '\r') {
        trim_newlines(s.drop_last())
    } else {
        s
    }
}

/// The pieces of `parts` with `sep` between them.
pub open spec fn join(parts: Seq<Seq<char>>, sep: Seq<char>) -> Seq<char>
    decreases parts.len(),
{
    if parts.len() == 0 {
        Seq::empty()
    } else if parts.len() == 1 {
        parts[0]
    } else {
        join(parts.drop_last(), sep) + sep + parts.last()
    }
}

/// How a value is shown.
pub open spec fn display(v: ValueM) -> Seq<char>
    decreases v, 0int,
{
    match v {
        ValueM::Str(s) => s,
        ValueM::Num(n) => render(normal(n)),
        ValueM::Arr(vs) => seq!['['] + listing(vs, vs.len() as int) + seq![']'],
        ValueM::Process(_, out) => trim_newlines(out),
        ValueM::Void => Seq::empty(),
    }
}

/// The first `n` values of `vs`, shown and separated by `, `.
pub open spec fn listing(vs: Seq<ValueM>, n: int) -> Seq<char>
    decreases vs, n,
{
    if n <= 0 || n > vs.len() {
        Seq::empty()
    } else if n == 1 {
        display(vs[0])
    } else {
        listing(vs, n - 1) + seq![',', ' '] + display(vs[n - 1])
    }
}

pub open spec fn add_error() -> Seq<char> {
    "Can only add values of the same type."@
}

pub open spec fn sub_error() -> Seq<char> {
    "Can only subtract numbers."@
}

pub open spec fn mul_error() -> Seq<char> {
    "Can only multiply numbers."@
}

pub open spec fn div_error() -> Seq<char> {
    "Can only divide numbers."@
}

pub open spec fn mod_error() -> Seq<char> {
    "Can only mod numbers."@
}

pub open spec fn command_error() -> Seq<char> {
    "Failed to evaluate command."@
}

/// An arithmetic operator.
#[derive(Clone, Copy, Debug, PartialEq, Eq, Structural)]
pub enum Op {
    Add,
    Sub,
    Mul,
    Div,
    Mod,
}

/// `a op b`, or the type error.
pub open spec fn combine(op: Op, a: ValueM, b: ValueM) -> Result<ValueM, Seq<char>> {
    match (a, b) {
        (ValueM::Num(x), ValueM::Num(y)) => {
            let (x, y) = (normal(x), normal(y));
            Ok(
                ValueM::Num(
                    match op {
                        Op::Add => sum_of(x, y),
                        Op::Sub => difference_of(x, y),
                        Op::Mul => product_of(x, y),
                        Op::Div => quotient_of(x, y),
                        Op::Mod => remainder_of(x, y),
                    },
                ),
            )
        },
        (ValueM::Str(x), ValueM::Str(y)) if op == Op::Add => Ok(ValueM::Str(x + y)),
        _ => Err(
            match op {
                Op::Add => add_error(),
                Op::Sub => sub_error(),
                Op::Mul => mul_error(),
                Op::Div => div_error(),
                Op::Mod => mod_error(),
            },
        ),
    }
}

pub open spec fn lookup(env: Env, name: Seq<char>) -> ValueM {
    if env.contains_key(name) {
        env[name]
    } else {
        ValueM::Void
    }
}

pub open spec fn code_value(code: i32) -> ValueM {
    ValueM::Num(Number::Finite { mant: code as i64, scale: 0 })
}

/// The value of `e`, evaluated in `env` with the outcomes `outs` of which
/// `used` are already taken.
pub open spec fn eval(env: Env, outs: Seq<OutcomeM>, used: nat, e: ExprM) -> Evaluated<ValueM>
    decreases e, 1int, 0int,
{
    match e {
        ExprM::Add(..) => eval_binary(env, outs, used, Op::Add, e),
        ExprM::Sub(..) => eval_binary(env, outs, used, Op::Sub, e),
        ExprM::Mul(..) => eval_binary(env, outs, used, Op::Mul, e),
        ExprM::Div(..) => eval_binary(env, outs, used, Op::Div, e),
        ExprM::Mod(..) => eval_binary(env, outs, used, Op::Mod, e),
        ExprM::Arr => Ok((ValueM::Arr(Seq::empty()), env, used)),
        ExprM::Num(n) => Ok((ValueM::Num(n), env, used)),
        ExprM::Str(s) => Ok((ValueM::Str(s), env, used)),
        ExprM::Var(name) => Ok((lookup(env, name), env, used)),
        ExprM::Path(s) => Ok((ValueM::Str(s), env, used)),
        ExprM::Param(s) => Ok((ValueM::Str(s), env, used)),
        ExprM::Command(callee, args) => match eval_args(env, outs, used, e, 0) {
            Ok((texts, env1, u1)) => match *callee {
                ExprM::Path(program) => if u1 < outs.len() {
                    match outs[u1 as int] {
                        OutcomeM::Exited(code, out) => {
                            let env2 = match code {
                                Some(c) => env1.insert(status_key(), code_value(c)),
                                None => env1,
                            };
                            Ok((ValueM::Process(code, out), env2, u1 + 1))
                        },
                        OutcomeM::Failed(msg) => Err(HaltM::Error(msg)),
                    }
                } else {
                    Err(HaltM::Spawn(program, texts))
                },
                _ => Err(HaltM::Error(command_error())),
            },
            Err(h) => Err(h),
        },
    }
}

pub open spec fn eval_binary(
    env: Env,
    outs: Seq<OutcomeM>,
    used: nat,
    op: Op,
    e: ExprM,
) -> Evaluated<ValueM>
    decreases e, 0int, 0int,
{
    match e {
        ExprM::Add(a, b) | ExprM::Sub(a, b) | ExprM::Mul(a, b) | ExprM::Div(a, b) | ExprM::Mod(
            a,
            b,
        ) => match eval(env, outs, used, *a) {
            Ok((va, env1, u1)) => match eval(env1, outs, u1, *b) {
                Ok((vb, env2, u2)) => match combine(op, va, vb) {
                    Ok(v) => Ok((v, env2, u2)),
                    Err(msg) => Err(HaltM::Error(msg)),
                },
                Err(h) => Err(h),
            },
            Err(h) => Err(h),
        },
        _ => Ok((ValueM::Void, env, used)),
    }
}

/// The text of each argument of the command `cmd` from the `i`th on.
pub open spec fn eval_args(
    env: Env,
    outs: Seq<OutcomeM>,
    used: nat,
    cmd: ExprM,
    i: int,
) -> Evaluated<Seq<Seq<char>>>
    decreases cmd, 0int, (match cmd {
        ExprM::Command(_, args) => args.len(),
        _ => 0,
    }) - i,
{
    match cmd {
        ExprM::Command(_, args) => if 0 <= i < args.len() {
            match eval(env, outs, used, args[i]) {
                Ok((v, env1, u1)) => match eval_args(env1, outs, u1, cmd, i + 1) {
                    Ok((rest, env2, u2)) => Ok((seq![display(v)] + rest, env2, u2)),
                    Err(h) => Err(h),
                },
                Err(h) => Err(h),
            }
        } else {
            Ok((Seq::empty(), env, used))
        },
        _ => Ok((Seq::empty(), env, used)),
    }
}

/// Runs the statements `ss` in order; gives the values of those that have
/// one (an assignment, or a value that is `Void`, gives none).
pub open spec fn run(env: Env, outs: Seq<OutcomeM>, used: nat, ss: Seq<StmtM>) -> Evaluated<
    Seq<ValueM>,
>
    decreases ss.len(),
{
    if ss.len() == 0 {
        Ok((Seq::empty(), env, used))
    } else {
        match ss[0] {
            StmtM::Assign(name, e) => match eval(env, outs, used, e) {
                Ok((v, env1, u1)) => run(env1.insert(name, v), outs, u1, ss.drop_first()),
                Err(h) => Err(h),
            },
            StmtM::Expr(e) => match eval(env, outs, used, e) {
                Ok((v, env1, u1)) => match run(env1, outs, u1, ss.drop_first()) {
                    Ok((vs, env2, u2)) => Ok(
                        (
                            if v is Void {
                                vs
                            } else {
                                seq![v] + vs
                            },
                            env2,
                            u2,
                        ),
                    ),
                    Err(h) => Err(h),
                },
                Err(h) => Err(h),
            },
        }
    }
}

pub open spec fn displays(vs: Seq<ValueM>) -> Seq<Seq<char>> {
    vs.map_values(|v: ValueM| display(v))
}

/// The text of a run: the values shown, joined by line breaks.
pub open spec fn output_text(vs: Seq<ValueM>) -> Seq<char> {
    join(displays(vs), seq!['\n'])
}

pub open spec fn lex_message(rest: Seq<char>) -> Seq<char> {
    "Unexpected token "@ + rest.take(
        if rest.len() < 10 {
            rest.len() as int
        } else {
            10
        },
    ) + "..."@
}

pub open spec fn parse_message(at: int, expected: Seq<char>) -> Seq<char> {
    "Expected "@ + expected + " at token "@ + crate::number::digits(at as nat) + "."@
}

/// How a call on some input ends.
pub enum StepM {
    Finished(Result<Seq<char>, Seq<char>>),
    Run(Seq<char>, Seq<Seq<char>>),
}

/// What interpreting `input` in `env`, with the outcomes `outs`, gives, and
/// the environment afterwards.
pub open spec fn interpretation(env: Env, input: Seq<char>, outs: Seq<OutcomeM>) -> (StepM, Env) {
    match lex(input, 0) {
        Err(p) => (StepM::Finished(Err(lex_message(input.skip(p)))), env),
        Ok(ts) => match program_of(ts) {
            Err((p, w)) => (StepM::Finished(Err(parse_message(p, w))), env),
            Ok(ss) => match run(env, outs, 0, ss) {
                Ok((vs, env2, _)) => (
                    StepM::Finished(Ok(output_text(vs))),
                    env2,
                ),
                Err(HaltM::Error(m)) => (StepM::Finished(Err(m)), env),
                Err(HaltM::Spawn(p, args)) => (StepM::Run(p, args), env),
            },
        },
    }
}

// ---------------------------------------------------------------- laws
/// An assignment shows nothing and sets the variable; a later statement
/// that names the variable gets the assigned value.
pub proof fn law_assignment_then_read(
    env: Env,
    outs: Seq<OutcomeM>,
    used: nat,
    name: Seq<char>,
    e: ExprM,
)
    requires
        eval(env, outs, used, e) is Ok,
    ensures
        ({
            let (v, env1, u1) = eval(env, outs, used, e)->Ok_0;
            &&& run(env, outs, used, seq![StmtM::Assign(name, e)]) == Ok::<
                (Seq<ValueM>, Env, nat),
                HaltM,
            >((Seq::empty(), env1.insert(name, v), u1))
            &&& output_text(Seq::empty()) == Seq::<char>::empty()
            &&& eval(env1.insert(name, v), outs, u1, ExprM::Var(name)) == Ok::<
                (ValueM, Env, nat),
                HaltM,
            >((v, env1.insert(name, v), u1))
        }),
{
    let (v, env1, u1) = eval(env, outs, used, e)->Ok_0;
    let ss = seq![StmtM::Assign(name, e)];
    assert(ss.drop_first() =~= Seq::<StmtM>::empty());
    assert(ss[0] == StmtM::Assign(name, e));
    assert(run(env1.insert(name, v), outs, u1, Seq::<StmtM>::empty()) == Ok::<
        (Seq<ValueM>, Env, nat),
        HaltM,
    >((Seq::empty(), env1.insert(name, v), u1)));
    assert(displays(Seq::empty()) =~= Seq::<Seq<char>>::empty());
    assert(output_text(Seq::empty()) =~= Seq::<char>::empty());
}

/// Naming a variable that is not set is no error: it is `Void`, which a
/// statement does not show.
pub proof fn law_unset_variable(env: Env, outs: Seq<OutcomeM>, used: nat, name: Seq<char>)
    requires
        !env.contains_key(name),
    ensures
        eval(env, outs, used, ExprM::Var(name)) == Ok::<(ValueM, Env, nat), HaltM>(
            (ValueM::Void, env, used),
        ),
        run(env, outs, used, seq![StmtM::Expr(ExprM::Var(name))]) == Ok::<
            (Seq<ValueM>, Env, nat),
            HaltM,
        >((Seq::empty(), env, used)),
{
    let ss = seq![StmtM::Expr(ExprM::Var(name))];
    assert(ss.drop_first() =~= Seq::<StmtM>::empty());
    assert(ss[0] == StmtM::Expr(ExprM::Var(name)));
    assert(run(env, outs, used, Seq::<StmtM>::empty()) == Ok::<(Seq<ValueM>, Env, nat), HaltM>(
        (Seq::empty(), env, used),
    ));
}

/// Arithmetic on values of different kinds is a type error: only two
/// numbers, or two strings under `+`, combine.
pub proof fn law_mixed_types_fail(op: Op, a: ValueM, b: ValueM)
    requires
        !(a is Num && b is Num),
        !(op == Op::Add && a is Str && b is Str),
    ensures
        combine(op, a, b) is Err,
{
}

/// Adding a number and a string fails with the type error, whatever they
/// are; nothing is converted.
pub proof fn law_number_plus_string_fails(
    env: Env,
    outs: Seq<OutcomeM>,
    used: nat,
    x: Number,
    t: Seq<char>,
)
    ensures
        eval(
            env,
            outs,
            used,
            ExprM::Add(Box::new(ExprM::Num(x)), Box::new(ExprM::Str(t))),
        ) == Err::<(ValueM, Env, nat), HaltM>(HaltM::Error(add_error())),
        eval(
            env,
            outs,
            used,
            ExprM::Add(Box::new(ExprM::Str(t)), Box::new(ExprM::Num(x))),
        ) == Err::<(ValueM, Env, nat), HaltM>(HaltM::Error(add_error())),
{
    let e1 = ExprM::Add(Box::new(ExprM::Num(x)), Box::new(ExprM::Str(t)));
    let e2 = ExprM::Add(Box::new(ExprM::Str(t)), Box::new(ExprM::Num(x)));
    assert(eval_binary(env, outs, used, Op::Add, e1) == Err::<(ValueM, Env, nat), HaltM>(
        HaltM::Error(add_error()),
    ));
    assert(eval_binary(env, outs, used, Op::Add, e2) == Err::<(ValueM, Env, nat), HaltM>(
        HaltM::Error(add_error()),
    ));
}

// ---------------------------------------------------------------- values
/// A value.
#[derive(Debug, PartialEq)]
pub enum Value {
    Str(String),
    Num(Number),
    /// An array; `push` flattens arrays into one another.
    Arr(Vec<Value>),
    /// A finished command: its exit code (none when a signal ended it) and
    /// what it wrote to standard output.
    Process { code: Option<i32>, output: String },
    /// No value, as an assignment gives.
    Void,
}

impl Value {
    pub open spec fn model(&self) -> ValueM
        decreases self,
    {
        match self {
            Value::Str(s) => ValueM::Str(s@),
            Value::Num(n) => ValueM::Num(*n),
            Value::Arr(vs) => ValueM::Arr(
                Seq::new(
                    vs.len() as nat,
                    |i: int|
                        if 0 <= i < vs.len() {
                            vs[i].model()
                        } else {
                            ValueM::Void
                        },
                ),
            ),
            Value::Process { code, output } => ValueM::Process(*code, output@),
            Value::Void => ValueM::Void,
        }
    }
}

pub open spec fn value_models(vs: Seq<Value>) -> Seq<ValueM> {
    vs.map_values(|v: Value| v.model())
}

proof fn lemma_arr_model(vs: Vec<Value>)
    ensures
        Value::Arr(vs).model() == ValueM::Arr(value_models(vs@)),
{
    let a = match Value::Arr(vs).model() {
        ValueM::Arr(a) => a,
        _ => Seq::empty(),
    };
    assert(a =~= value_models(vs@));
}

/// `a` followed by `b`: `Void` adds nothing, and arrays are spliced in, so
/// the result never holds an array made by this.
pub open spec fn pushed(a: ValueM, b: ValueM) -> ValueM {
    let tail = match b {
        ValueM::Void => Seq::empty(),
        ValueM::Arr(ys) => ys,
        _ => seq![b],
    };
    match a {
        ValueM::Void => b,
        ValueM::Arr(xs) => ValueM::Arr(xs + tail),
        _ => if b is Void {
            a
        } else {
            ValueM::Arr(seq![a] + tail)
        },
    }
}

proof fn lemma_join_step(parts: Seq<Seq<char>>, sep: Seq<char>, i: int)
    requires
        0 <= i < parts.len(),
    ensures
        join(parts.take(i + 1), sep) == if i == 0 {
            parts[0]
        } else {
            join(parts.take(i), sep) + sep + parts[i]
        },
{
    assert(parts.take(i + 1).drop_last() =~= parts.take(i));
}

fn ends_with_break(s: &str, k: usize) -> (r: bool)
    requires
        0 < k <= s@.len(),
    ensures
        r == (s@[k - 1] == '\n' || s@[k - 1] == '\r'),
{
    let c = s.get_char(k - 1);
    c == '\n' || c == '\r'
}

impl Value {
    /// `self` followed by `next`: `Void` adds nothing, and arrays are
    /// spliced in rather than nested.
    pub fn push(self, next: Value) -> (r: Value)
        ensures
            r.model() == pushed(self.model(), next.model()),
    {
        let ghost a = self.model();
        let ghost b = next.model();
        let ghost tail = match b {
            ValueM::Void => Seq::empty(),
            ValueM::Arr(ys) => ys,
            _ => seq![b],
        };
        let mut out: Vec<Value> = match self {
            Value::Void => {
                return next;
            },
            Value::Arr(vals) => {
                proof {
                    lemma_arr_model(vals);
                }
                vals
            },
            _ => {
                if matches!(next, Value::Void) {
                    return self;
                }
                let mut v: Vec<Value> = Vec::new();
                v.push(self);
                v
            },
        };
        let ghost head = value_models(out@);
        proof {
            assert(a is Arr ==> head == a->Arr_0);
            assert(!(a is Arr) ==> head =~= seq![a]);
        }
        match next {
            Value::Void => {},
            Value::Arr(mut nexts) => {
                proof {
                    lemma_arr_model(nexts);
                }
                let ghost ys = value_models(nexts@);
                let ghost before = out@;
                out.append(&mut nexts);
                proof {
                    assert(value_models(out@) =~= value_models(before) + ys);
                }
            },
            other => {
                let ghost before = out@;
                out.push(other);
                proof {
                    assert(value_models(out@) =~= value_models(before).push(other.model()));
                }
            },
        }
        proof {
            lemma_arr_model(out);
            assert(value_models(out@) =~= head + tail);
        }
        Value::Arr(out)
    }
}

fn trim_newlines_exec(s: &String) -> (r: String)
    ensures
        r@ == trim_newlines(s@),
{
    let n = s.as_str().unicode_len();
    let mut k = n;
    proof {
        assert(s@.take(n as int) =~= s@);
    }
    while k > 0 && ends_with_break(s.as_str(), k)
        invariant
            k <= n == s@.len(),
            trim_newlines(s@) == trim_newlines(s@.take(k as int)),
        decreases k,
    {
        proof {
            assert(s@.take(k as int).drop_last() =~= s@.take(k - 1));
        }
        k = k - 1;
    }
    proof {
        assert(s@.take(k as int) =~= s@.subrange(0, k as int));
    }
    s.as_str().substring_char(0, k).to_owned()
}

impl Value {
    /// A copy of the value.
    pub fn duplicate(&self) -> (r: Value)
        ensures
            r.model() == self.model(),
        decreases self,
    {
        match self {
            Value::Str(s) => Value::Str(s.clone()),
            Value::Num(n) => Value::Num(*n),
            Value::Arr(vs) => {
                let mut out: Vec<Value> = Vec::new();
                let mut i: usize = 0;
                while i < vs.len()
                    invariant
                        i <= vs.len(),
                        *self == Value::Arr(*vs),
                        value_models(out@) =~= value_models(vs@).take(i as int),
                    decreases vs.len() - i,
                {
                    proof {
                        assert(decreases_to!(*self => (*self)->Arr_0));
                        assert(decreases_to!((*self)->Arr_0 => vs@));
                        assert(decreases_to!(vs@ => vs@[i as int]));
                        assert(decreases_to!(*self => vs@[i as int]));
                    }
                    let v = vs[i].duplicate();
                    let ghost before = out@;
                    out.push(v);
                    proof {
                        assert(value_models(out@) =~= value_models(before).push(v.model()));
                        assert(value_models(vs@).take(i + 1) =~= value_models(vs@).take(
                            i as int,
                        ).push(vs@[i as int].model()));
                    }
                    i = i + 1;
                }
                proof {
                    lemma_arr_model(out);
                    lemma_arr_model(*vs);
                    assert(value_models(vs@).take(vs.len() as int) =~= value_models(vs@));
                }
                Value::Arr(out)
            },
            Value::Process { code, output } => Value::Process { code: *code, output: output.clone() },
            Value::Void => Value::Void,
        }
    }

    /// How the value is shown: text as it is, numbers in decimal, arrays
    /// as `[a, b]`, a command by its output without trailing line breaks,
    /// and `Void` as nothing.
    pub fn display(&self) -> (r: String)
        ensures
            r@ == display(self.model()),
        decreases self,
    {
        match self {
            Value::Str(s) => s.clone(),
            Value::Num(n) => n.normalized().to_text(),
            Value::Arr(vs) => {
                let ghost vm = value_models(vs@);
                let mut out = String::new();
                let mut i: usize = 0;
                while i < vs.len()
                    invariant
                        i <= vs.len(),
                        *self == Value::Arr(*vs),
                        vm == value_models(vs@),
                        out@ == listing(vm, i as int),
                    decreases vs.len() - i,
                {
                    proof {
                        assert(decreases_to!(*self => (*self)->Arr_0));
                        assert(decreases_to!((*self)->Arr_0 => vs@));
                        assert(decreases_to!(vs@ => vs@[i as int]));
                        assert(decreases_to!(*self => vs@[i as int]));
                    }
                    if i > 0 {
                        proof {
                            reveal_strlit(", ");
                        }
                        out.append(", ");
                    }
                    let d = vs[i].display();
                    out.append(d.as_str());
                    proof {
                        assert(vm[i as int] == vs@[i as int].model());
                        if i == 0 {
                            assert(out@ =~= listing(vm, 1));
                        } else {
                            assert(out@ =~= listing(vm, i + 1));
                        }
                    }
                    i = i + 1;
                }
                let mut r = "[".to_owned();
                r.append(out.as_str());
                r.append("]");
                proof {
                    reveal_strlit("[");
                    reveal_strlit("]");
                    lemma_arr_model(*vs);
                }
                r
            },
            Value::Process { output, .. } => trim_newlines_exec(output),
            Value::Void => String::new(),
        }
    }
}

// ---------------------------------------------------------------- variables
/// The variables that a list of entries holds; a later entry for a name
/// stands over an earlier one.
pub open spec fn env_map(s: Seq<(String, Value)>) -> Env
    decreases s.len(),
{
    if s.len() == 0 {
        Map::empty()
    } else {
        env_map(s.drop_last()).insert(s.last().0@, s.last().1.model())
    }
}

pub open spec fn keys_unique(s: Seq<(String, Value)>) -> bool {
    forall|i: int, j: int| 0 <= i < j < s.len() ==> s[i].0@ != s[j].0@
}

proof fn lemma_env_has(s: Seq<(String, Value)>, k: Seq<char>)
    ensures
        env_map(s).contains_key(k) <==> exists|i: int| 0 <= i < s.len() && s[i].0@ == k,
    decreases s.len(),
{
    if s.len() > 0 {
        lemma_env_has(s.drop_last(), k);
        if env_map(s.drop_last()).contains_key(k) {
            let i = choose|i: int| 0 <= i < s.len() - 1 && s.drop_last()[i].0@ == k;
            assert(s[i].0@ == k);
        }
        if exists|i: int| 0 <= i < s.len() && s[i].0@ == k {
            let i = choose|i: int| 0 <= i < s.len() && s[i].0@ == k;
            if i < s.len() - 1 {
                assert(s.drop_last()[i].0@ == k);
            }
        }
    }
}

proof fn lemma_env_value(s: Seq<(String, Value)>, i: int)
    requires
        keys_unique(s),
        0 <= i < s.len(),
    ensures
        env_map(s).contains_key(s[i].0@),
        env_map(s)[s[i].0@] == s[i].1.model(),
    decreases s.len(),
{
    if i < s.len() - 1 {
        assert(keys_unique(s.drop_last()));
        lemma_env_value(s.drop_last(), i);
        assert(s.drop_last()[i] == s[i]);
    }
}

proof fn lemma_env_update(s: Seq<(String, Value)>, i: int, name: String, v: Value)
    requires
        keys_unique(s),
        0 <= i < s.len(),
        s[i].0@ == name@,
    ensures
        env_map(s.update(i, (name, v))) == env_map(s).insert(name@, v.model()),
        keys_unique(s.update(i, (name, v))),
    decreases s.len(),
{
    let t = s.update(i, (name, v));
    if i == s.len() - 1 {
        assert(t.drop_last() =~= s.drop_last());
        assert(env_map(t) =~= env_map(s).insert(name@, v.model()));
    } else {
        assert(keys_unique(s.drop_last()));
        lemma_env_update(s.drop_last(), i, name, v);
        assert(t.drop_last() =~= s.drop_last().update(i, (name, v)));
        assert(s.last().0@ != name@);
        assert(env_map(t) =~= env_map(s).insert(name@, v.model()));
    }
}

/// Position of the entry for `name`.
fn find(env: &Vec<(String, Value)>, name: &String) -> (r: Option<usize>)
    ensures
        match r {
            Some(i) => i < env@.len() && env@[i as int].0@ == name@,
            None => forall|i: int| 0 <= i < env@.len() ==> env@[i].0@ != name@,
        },
{
    let mut i: usize = 0;
    while i < env.len()
        invariant
            i <= env@.len(),
            forall|j: int| 0 <= j < i ==> env@[j].0@ != name@,
        decreases env.len() - i,
    {
        if env[i].0 == *name {
            return Some(i);
        }
        i = i + 1;
    }
    None
}

/// Sets `name` to `v`.
fn assign(env: &mut Vec<(String, Value)>, name: String, v: Value)
    requires
        keys_unique(old(env)@),
    ensures
        keys_unique(final(env)@),
        env_map(final(env)@) == env_map(old(env)@).insert(name@, v.model()),
{
    match find(env, &name) {
        Some(i) => {
            proof {
                lemma_env_update(env@, i as int, name, v);
            }
            env.set(i, (name, v));
        },
        None => {
            let ghost before = env@;
            env.push((name, v));
            proof {
                assert(env@.drop_last() =~= before);
            }
        },
    }
}

/// The value of `name`, `Void` when it is not set.
fn value_of(env: &Vec<(String, Value)>, name: &String) -> (r: Value)
    requires
        keys_unique(env@),
    ensures
        r.model() == lookup(env_map(env@), name@),
{
    match find(env, name) {
        Some(i) => {
            proof {
                lemma_env_value(env@, i as int);
            }
            env[i].1.duplicate()
        },
        None => {
            proof {
                lemma_env_has(env@, name@);
            }
            Value::Void
        },
    }
}

// ---------------------------------------------------------------- evaluation
/// What became of a command that was asked for.
#[derive(Debug)]
pub enum Outcome {
    /// It ran: its exit code (none when a signal ended it) and its output.
    Exited { code: Option<i32>, output: String },
    /// It could not be started; the system's message.
    Failed(String),
}

impl Outcome {
    pub open spec fn model(&self) -> OutcomeM {
        match self {
            Outcome::Exited { code, output } => OutcomeM::Exited(*code, output@),
            Outcome::Failed(m) => OutcomeM::Failed(m@),
        }
    }
}

pub open spec fn outcome_models(os: Seq<Outcome>) -> Seq<OutcomeM> {
    os.map_values(|o: Outcome| o.model())
}

pub open spec fn texts(ss: Seq<String>) -> Seq<Seq<char>> {
    ss.map_values(|s: String| s@)
}

/// Why evaluation stopped early.
#[derive(Debug)]
pub enum Halt {
    Error(String),
    Run { program: String, args: Vec<String> },
}

impl Halt {
    pub open spec fn model(&self) -> HaltM {
        match self {
            Halt::Error(m) => HaltM::Error(m@),
            Halt::Run { program, args } => HaltM::Spawn(program@, texts(args@)),
        }
    }
}

pub open spec fn prefix_texts(
    done: Seq<Seq<char>>,
    r: Evaluated<Seq<Seq<char>>>,
) -> Evaluated<Seq<Seq<char>>> {
    match r {
        Ok((rest, env, u)) => Ok((done + rest, env, u)),
        Err(h) => Err(h),
    }
}

fn combine_exec(op: Op, a: Value, b: Value) -> (r: Result<Value, String>)
    ensures
        match combine(op, a.model(), b.model()) {
            Ok(v) => r is Ok && r->Ok_0.model() == v,
            Err(m) => r is Err && r->Err_0@ == m,
        },
{
    match (a, b) {
        (Value::Num(x), Value::Num(y)) => {
            let x = x.normalized();
            let y = y.normalized();
            Ok(
                Value::Num(
                    match op {
                        Op::Add => x.sum(y),
                        Op::Sub => x.difference(y),
                        Op::Mul => x.product(y),
                        Op::Div => x.quotient(y),
                        Op::Mod => x.remainder(y),
                    },
                ),
            )
        },
        (Value::Str(x), Value::Str(y)) if op == Op::Add => Ok(Value::Str(x.concat(y.as_str()))),
        _ => Err(
            match op {
                Op::Add => "Can only add values of the same type.".to_owned(),
                Op::Sub => "Can only subtract numbers.".to_owned(),
                Op::Mul => "Can only multiply numbers.".to_owned(),
                Op::Div => "Can only divide numbers.".to_owned(),
                Op::Mod => "Can only mod numbers.".to_owned(),
            },
        ),
    }
}

/// Evaluates `e`; see `eval`.
fn eval_expr(env: &mut Vec<(String, Value)>, outs: &[Outcome], used: &mut usize, e: &Expr) -> (r:
    Result<Value, Halt>)
    requires
        keys_unique(old(env)@),
        *old(used) <= outs@.len(),
    ensures
        keys_unique(final(env)@),
        *final(used) <= outs@.len(),
        match eval(env_map(old(env)@), outcome_models(outs@), *old(used) as nat, e.model()) {
            Ok((v, env2, u)) => r is Ok && r->Ok_0.model() == v && env_map(final(env)@) == env2
                && *final(used) == u,
            Err(h) => r is Err && r->Err_0.model() == h,
        },
    decreases e, 1int,
{
    match e {
        Expr::Add(..) => eval_operands(env, outs, used, Op::Add, e),
        Expr::Sub(..) => eval_operands(env, outs, used, Op::Sub, e),
        Expr::Mul(..) => eval_operands(env, outs, used, Op::Mul, e),
        Expr::Div(..) => eval_operands(env, outs, used, Op::Div, e),
        Expr::Mod(..) => eval_operands(env, outs, used, Op::Mod, e),
        Expr::Arr => {
            let empty: Vec<Value> = Vec::new();
            proof {
                lemma_arr_model(empty);
            }
            let r = Value::Arr(empty);
            proof {
                assert(value_models(Seq::<Value>::empty()) =~= Seq::<ValueM>::empty());
            }
            Ok(r)
        },
        Expr::Num(n) => Ok(Value::Num(*n)),
        Expr::Str(s) | Expr::Path(s) | Expr::Param(s) => Ok(Value::Str(s.clone())),
        Expr::Var(name) => Ok(value_of(env, name)),
        Expr::Command(..) => eval_command(env, outs, used, e),
    }
}

fn eval_operands(
    env: &mut Vec<(String, Value)>,
    outs: &[Outcome],
    used: &mut usize,
    op: Op,
    e: &Expr,
) -> (r: Result<Value, Halt>)
    requires
        keys_unique(old(env)@),
        *old(used) <= outs@.len(),
    ensures
        keys_unique(final(env)@),
        *final(used) <= outs@.len(),
        match eval_binary(env_map(old(env)@), outcome_models(outs@), *old(used) as nat, op, e.model()) {
            Ok((v, env2, u)) => r is Ok && r->Ok_0.model() == v && env_map(final(env)@) == env2
                && *final(used) == u,
            Err(h) => r is Err && r->Err_0.model() == h,
        },
    decreases e, 0int,
{
    match e {
        Expr::Add(a, b) | Expr::Sub(a, b) | Expr::Mul(a, b) | Expr::Div(a, b) | Expr::Mod(a, b) => {
            let va = match eval_expr(env, outs, used, a) {
                Ok(v) => v,
                Err(h) => {
                    return Err(h);
                },
            };
            let vb = match eval_expr(env, outs, used, b) {
                Ok(v) => v,
                Err(h) => {
                    return Err(h);
                },
            };
            match combine_exec(op, va, vb) {
                Ok(v) => Ok(v),
                Err(m) => Err(Halt::Error(m)),
            }
        },
        _ => Ok(Value::Void),
    }
}

fn eval_command(env: &mut Vec<(String, Value)>, outs: &[Outcome], used: &mut usize, e: &Expr) -> (r:
    Result<Value, Halt>)
    requires
        keys_unique(old(env)@),
        *old(used) <= outs@.len(),
        e is Command,
    ensures
        keys_unique(final(env)@),
        *final(used) <= outs@.len(),
        match eval(env_map(old(env)@), outcome_models(outs@), *old(used) as nat, e.model()) {
            Ok((v, env2, u)) => r is Ok && r->Ok_0.model() == v && env_map(final(env)@) == env2
                && *final(used) == u,
            Err(h) => r is Err && r->Err_0.model() == h,
        },
    decreases e, 0int,
{
    let (callee, args) = match e {
        Expr::Command(callee, args) => (callee, args),
        _ => {
            return Ok(Value::Void);
        },
    };
    let ghost om = outcome_models(outs@);
    let ghost m = e.model();
    let ghost env0 = env_map(env@);
    let ghost used0 = *used as nat;
    proof {
        lemma_command_model(*callee, *args);
    }
    let mut done: Vec<String> = Vec::new();
    let mut k: usize = 0;
    proof {
        assert(texts(done@) =~= Seq::<Seq<char>>::empty());
        if let Ok((t, _, _)) = eval_args(env0, om, used0, m, 0) {
            assert(Seq::<Seq<char>>::empty() + t =~= t);
        }
    }
    while k < args.len()
        invariant
            k <= args.len(),
            *e == Expr::Command(*callee, *args),
            m == e.model(),
            m == ExprM::Command(Box::new(callee.model()), models(args@)),
            om == outcome_models(outs@),
            env0 == env_map(old(env)@),
            used0 == *old(used) as nat,
            keys_unique(env@),
            *used <= outs@.len(),
            eval_args(env0, om, used0, m, 0) == prefix_texts(
                texts(done@),
                eval_args(env_map(env@), om, *used as nat, m, k as int),
            ),
        decreases args.len() - k,
    {
        proof {
            assert(decreases_to!(*e => (*e)->Command_1));
            assert(decreases_to!((*e)->Command_1 => args@));
            assert(decreases_to!(args@ => args@[k as int]));
            assert(decreases_to!(*e => args@[k as int]));
            assert(models(args@)[k as int] == args@[k as int].model());
        }
        let ghost envk = env_map(env@);
        let ghost uk = *used as nat;
        let v = match eval_expr(env, outs, used, &args[k]) {
            Ok(v) => v,
            Err(h) => {
                proof {
                    assert(eval(envk, om, uk, args@[k as int].model()) == Err::<(ValueM, Env, nat), HaltM>(h.model()));
                    assert(eval_args(envk, om, uk, m, k as int) == Err::<(Seq<Seq<char>>, Env, nat), HaltM>(h.model()));
                    assert(eval_args(env0, om, used0, m, 0) == Err::<(Seq<Seq<char>>, Env, nat), HaltM>(h.model()));
                }
                return Err(h);
            },
        };
        let d = v.display();
        let ghost before = done@;
        done.push(d);
        proof {
            assert(texts(done@) =~= texts(before).push(d@));
            if let Ok((t, _, _)) = eval_args(env_map(env@), om, *used as nat, m, k + 1) {
                assert(texts(before) + (seq![d@] + t) =~= texts(done@) + t);
            }
        }
        k = k + 1;
    }
    proof {
        assert(texts(done@) + Seq::<Seq<char>>::empty() =~= texts(done@));
        assert(eval_args(env0, om, used0, m, 0) == Ok::<(Seq<Seq<char>>, Env, nat), HaltM>((texts(done@), env_map(env@), *used as nat)));
        reveal_strlit("?");
        assert("?"@ =~= status_key());
        if *used < outs.len() {
            assert(om[*used as int] == outs@[*used as int].model());
        }
    }
    match &**callee {
        Expr::Path(program) => {
            if *used < outs.len() {
                match &outs[*used] {
                    Outcome::Exited { code, output } => {
                        if let Some(c) = code {
                            proof {
                                reveal_strlit("?");
                            }
                            assign(
                                env,
                                "?".to_owned(),
                                Value::Num(Number::Finite { mant: *c as i64, scale: 0 }),
                            );
                        }
                        *used = *used + 1;
                        Ok(Value::Process { code: *code, output: output.clone() })
                    },
                    Outcome::Failed(msg) => Err(Halt::Error(msg.clone())),
                }
            } else {
                Err(Halt::Run { program: program.clone(), args: done })
            }
        },
        _ => Err(Halt::Error("Failed to evaluate command.".to_owned())),
    }
}

fn run_prog(env: &mut Vec<(String, Value)>, outs: &[Outcome], used: &mut usize, p: &Prog) -> (r:
    Result<Vec<Value>, Halt>)
    requires
        keys_unique(old(env)@),
        *old(used) <= outs@.len(),
    ensures
        keys_unique(final(env)@),
        *final(used) <= outs@.len(),
        match run(env_map(old(env)@), outcome_models(outs@), *old(used) as nat, p.model()) {
            Ok((vs, env2, u)) => r is Ok && value_models(r->Ok_0@) == vs && env_map(final(env)@)
                == env2 && *final(used) == u,
            Err(h) => r is Err && r->Err_0.model() == h,
        },
    decreases p,
{
    match p {
        Prog::End => {
            let vs: Vec<Value> = Vec::new();
            proof {
                assert(value_models(vs@) =~= Seq::<ValueM>::empty());
            }
            Ok(vs)
        },
        Prog::Stmt(s, rest) => {
            proof {
                assert((seq![s.model()] + rest.model()).drop_first() =~= rest.model());
                assert(p.model()[0] == s.model());
            }
            match &**s {
                Stmt::Assign(name, e) => {
                    let v = match eval_expr(env, outs, used, e) {
                        Ok(v) => v,
                        Err(h) => {
                            return Err(h);
                        },
                    };
                    assign(env, name.clone(), v);
                    run_prog(env, outs, used, rest)
                },
                Stmt::Expr(e) => {
                    let v = match eval_expr(env, outs, used, e) {
                        Ok(v) => v,
                        Err(h) => {
                            return Err(h);
                        },
                    };
                    let mut vs = match run_prog(env, outs, used, rest) {
                        Ok(vs) => vs,
                        Err(h) => {
                            return Err(h);
                        },
                    };
                    if !matches!(v, Value::Void) {
                        let ghost before = vs@;
                        vs.insert(0, v);
                        proof {
                            assert(value_models(vs@) =~= seq![v.model()] + value_models(before));
                        }
                    }
                    Ok(vs)
                },
            }
        },
    }
}

fn output_exec(vals: &Vec<Value>) -> (r: String)
    ensures
        r@ == output_text(value_models(vals@)),
{
    let ghost parts = displays(value_models(vals@));
    let mut out = String::new();
    let mut i: usize = 0;
    proof {
        reveal_strlit("\n");
    }
    while i < vals.len()
        invariant
            i <= vals.len(),
            parts == displays(value_models(vals@)),
            out@ == join(parts.take(i as int), seq!['\n']),
            "\n"@ == seq!['\n'],
        decreases vals.len() - i,
    {
        proof {
            lemma_join_step(parts, seq!['\n'], i as int);
        }
        if i > 0 {
            out.append("\n");
        }
        let d = vals[i].display();
        out.append(d.as_str());
        proof {
            assert(parts[i as int] == d@);
            if i == 0 {
                assert(out@ =~= join(parts.take(1), seq!['\n']));
            } else {
                assert(out@ =~= join(parts.take(i + 1), seq!['\n']));
            }
        }
        i = i + 1;
    }
    proof {
        assert(parts.take(vals.len() as int) =~= parts);
    }
    out
}

proof fn lemma_env_congruent(a: Seq<(String, Value)>, b: Seq<(String, Value)>)
    requires
        a.len() == b.len(),
        forall|j: int| 0 <= j < a.len() ==> a[j].0@ == b[j].0@ && a[j].1.model() == b[j].1.model(),
    ensures
        env_map(a) == env_map(b),
        keys_unique(a) ==> keys_unique(b),
    decreases a.len(),
{
    if a.len() > 0 {
        lemma_env_congruent(a.drop_last(), b.drop_last());
    }
}

fn copy_env(env: &Vec<(String, Value)>) -> (r: Vec<(String, Value)>)
    requires
        keys_unique(env@),
    ensures
        keys_unique(r@),
        env_map(r@) == env_map(env@),
{
    let mut out: Vec<(String, Value)> = Vec::new();
    let mut i: usize = 0;
    while i < env.len()
        invariant
            i <= env.len(),
            out@.len() == i,
            forall|j: int|
                0 <= j < i ==> out@[j].0@ == env@[j].0@ && out@[j].1.model() == env@[j].1.model(),
        decreases env.len() - i,
    {
        let k = env[i].0.clone();
        let v = env[i].1.duplicate();
        out.push((k, v));
        i = i + 1;
    }
    proof {
        lemma_env_congruent(env@, out@);
        lemma_env_congruent(out@, env@);
    }
    out
}

// ---------------------------------------------------------------- sessions
/// How a call of `Session::interpret` ended.
#[derive(Debug)]
pub enum Step {
    /// The input was evaluated: its text, or the error that stopped it.
    Finished(Result<String, String>),
    /// This command must be run, and its outcome added, before the input
    /// can be evaluated further.
    Run { program: String, args: Vec<String> },
}

impl Step {
    pub open spec fn model(&self) -> StepM {
        match self {
            Step::Finished(Ok(t)) => StepM::Finished(Ok(t@)),
            Step::Finished(Err(m)) => StepM::Finished(Err(m@)),
            Step::Run { program, args } => StepM::Run(program@, texts(args@)),
        }
    }
}

/// Text pairs as sequences of characters.
pub open spec fn pairs(vars: Seq<(String, String)>) -> Seq<(Seq<char>, Seq<char>)> {
    vars.map_values(|p: (String, String)| (p.0@, p.1@))
}

/// Variables set to the given texts; a later pair for a name wins.
pub open spec fn seed(vars: Seq<(Seq<char>, Seq<char>)>) -> Env
    decreases vars.len(),
{
    if vars.len() == 0 {
        Map::empty()
    } else {
        seed(vars.drop_last()).insert(vars.last().0, ValueM::Str(vars.last().1))
    }
}

/// The variables a new session starts with.
pub open spec fn seeded(vars: Seq<(Seq<char>, Seq<char>)>, cwd: Option<Seq<char>>) -> Env {
    match cwd {
        Some(p) => seed(vars).insert("PWD"@, ValueM::Str(p)),
        None => seed(vars),
    }
}

/// The variables that live across inputs.
///
/// They are held as a list of name and value pairs whose names are unique,
/// seen as a map through `env_map`. A `HashMap` keyed by `String` would give
/// no usable specification: vstd proves its operations only for key types
/// whose hashing and equality it models, and `String` is not one of them.
pub struct Session {
    env: Vec<(String, Value)>,
}

impl Session {
    pub closed spec fn wf(&self) -> bool {
        keys_unique(self.env@)
    }

    /// The session's variables.
    pub closed spec fn vars(&self) -> Env {
        env_map(self.env@)
    }

    /// A session with no variables.
    pub fn empty() -> (r: Session)
        ensures
            r.wf(),
            r.vars() == Map::<Seq<char>, ValueM>::empty(),
    {
        let r = Session { env: Vec::new() };
        proof {
            assert(r.env@.len() == 0);
        }
        r
    }

    /// A session whose variables are `vars`, as text, and `PWD` set to
    /// `cwd` when it is given. Later changes of the working directory do
    /// not reach `PWD`.
    pub fn new(vars: Vec<(String, String)>, cwd: Option<String>) -> (r: Session)
        ensures
            r.wf(),
            r.vars() == seeded(
                pairs(vars@),
                match cwd {
                    Some(p) => Some(p@),
                    None => None,
                },
            ),
    {
        let mut s = Session::empty();
        let mut i: usize = 0;
        let ghost ps = pairs(vars@);
        while i < vars.len()
            invariant
                i <= vars.len(),
                ps == pairs(vars@),
                s.wf(),
                s.vars() == seed(ps.take(i as int)),
            decreases vars.len() - i,
        {
            proof {
                assert(ps.take(i + 1).drop_last() =~= ps.take(i as int));
            }
            s.set_var(vars[i].0.clone(), Value::Str(vars[i].1.clone()));
            i = i + 1;
        }
        proof {
            assert(ps.take(vars.len() as int) =~= ps);
        }
        if let Some(p) = cwd {
            proof {
                reveal_strlit("PWD");
            }
            s.set_var("PWD".to_owned(), Value::Str(p));
        }
        s
    }

    /// Sets the variable `name`.
    pub fn set_var(&mut self, name: String, value: Value)
        requires
            old(self).wf(),
        ensures
            final(self).wf(),
            final(self).vars() == old(self).vars().insert(name@, value.model()),
    {
        assign(&mut self.env, name, value);
    }

    /// The value of the variable `name`, `Void` when it is not set.
    pub fn get_var(&self, name: &str) -> (r: Value)
        requires
            self.wf(),
        ensures
            r.model() == lookup(self.vars(), name@),
    {
        value_of(&self.env, &name.to_owned())
    }

    /// Tokenizes, parses and runs `input`, with `outcomes` the outcomes of
    /// the commands that earlier calls on the same input asked for. The
    /// variables change only when the input finishes without an error.
    pub fn interpret(&mut self, input: &str, outcomes: &[Outcome]) -> (r: Step)
        requires
            old(self).wf(),
        ensures
            final(self).wf(),
            (r.model(), final(self).vars()) == interpretation(
                old(self).vars(),
                input@,
                outcome_models(outcomes@),
            ),
    {
        let ts = match tokenize(input) {
            Ok(ts) => ts,
            Err(e) => {
                return Step::Finished(Err(e.message()));
            },
        };
        let prog = match parse(ts.as_slice()) {
            Ok(p) => p,
            Err(e) => {
                return Step::Finished(Err(e.message()));
            },
        };
        match self.exec_prog(&prog, outcomes) {
            Ok(vals) => Step::Finished(Ok(output_exec(&vals))),
            Err(Halt::Error(m)) => Step::Finished(Err(m)),
            Err(Halt::Run { program, args }) => Step::Run { program, args },
        }
    }

    /// Runs the statements of `prog` in order, with `outcomes` as in
    /// `interpret`, and gives the values of those that have one. The
    /// variables change only when every statement succeeds.
    pub fn exec_prog(&mut self, prog: &Prog, outcomes: &[Outcome]) -> (r: Result<Vec<Value>, Halt>)
        requires
            old(self).wf(),
        ensures
            final(self).wf(),
            match run(old(self).vars(), outcome_models(outcomes@), 0, prog.model()) {
                Ok((vs, env2, _)) => r is Ok && value_models(r->Ok_0@) == vs && final(self).vars()
                    == env2,
                Err(h) => r is Err && r->Err_0.model() == h && final(self).vars() == old(
                    self,
                ).vars(),
            },
    {
        let mut env = copy_env(&self.env);
        let mut used: usize = 0;
        match run_prog(&mut env, outcomes, &mut used, prog) {
            Ok(vals) => {
                self.env = env;
                Ok(vals)
            },
            Err(h) => Err(h),
        }
    }
}

} // verus!
