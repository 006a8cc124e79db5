use oyster::interpreter::{Outcome, Session, Step, Value};
use oyster::number::Number;
use oyster::parser::{Expr, Prog, Stmt};

fn finished(step: Step) -> Result<String, String> {
    match step {
        Step::Finished(r) => r,
        Step::Run { program, .. } => panic!("asked to run {}", program),
    }
}

#[test]
fn interpret_test_single_integer() {
    let prog = Prog::Stmt(
        Box::new(Stmt::Expr(Expr::Num(Number::Finite { mant: 1, scale: 0 }))),
        Box::new(Prog::End),
    );
    let mut session = Session::empty();
    match session.exec_prog(&prog, &[]) {
        Ok(out) => {
            assert_eq!(out.len(), 1);
            assert_eq!(out[0].display(), "1");
        }
        _ => unreachable!(),
    }
}

#[test]
fn assignment_is_silent_and_kept() {
    let mut session = Session::empty();
    assert_eq!(finished(session.interpret("$a = 1 + 2", &[])), Ok(String::new()));
    assert_eq!(finished(session.interpret("$a", &[])), Ok(String::from("3")));
    assert_eq!(
        session.get_var("a"),
        Value::Num(Number::Finite { mant: 3, scale: 0 })
    );
}

#[test]
fn failed_input_leaves_variables_alone() {
    let mut session = Session::empty();
    finished(session.interpret("$b = 1", &[])).unwrap();
    let r = finished(session.interpret("$b = 2; $c = 3; 1 + \"x\"", &[]));
    assert_eq!(r, Err(String::from("Can only add values of the same type.")));
    assert_eq!(session.get_var("b"), Value::Num(Number::Finite { mant: 1, scale: 0 }));
    assert_eq!(session.get_var("c"), Value::Void);
}

#[test]
fn seeded_variables() {
    let vars = vec![
        (String::from("HOME"), String::from("/root")),
        (String::from("X"), String::from("1")),
        (String::from("X"), String::from("2")),
    ];
    let session = Session::new(vars, Some(String::from("/tmp/work")));
    assert_eq!(session.get_var("HOME"), Value::Str(String::from("/root")));
    assert_eq!(session.get_var("X"), Value::Str(String::from("2")));
    assert_eq!(session.get_var("PWD"), Value::Str(String::from("/tmp/work")));
    assert_eq!(session.get_var("NOPE"), Value::Void);
}

#[test]
fn commands_are_asked_for_then_replayed() {
    let mut session = Session::empty();
    match session.interpret("$n = 2; ls -l $n \"a b\"\n", &[]) {
        Step::Run { program, args } => {
            assert_eq!(program, "ls");
            assert_eq!(args, vec![String::from("-l"), String::from("2"), String::from("a b")]);
        }
        other => panic!("unexpected {:?}", other),
    }
    // nothing was committed while the command was pending
    assert_eq!(session.get_var("n"), Value::Void);
    let done = [Outcome::Exited { code: Some(3), output: String::from("x\ny\n\n") }];
    let r = finished(session.interpret("$n = 2; ls -l $n \"a b\"\n", &done));
    assert_eq!(r, Ok(String::from("x\ny")));
    assert_eq!(session.get_var("?"), Value::Num(Number::Finite { mant: 3, scale: 0 }));
    assert_eq!(finished(session.interpret("$?", &[])), Ok(String::from("3")));
    assert_eq!(session.get_var("n"), Value::Num(Number::Finite { mant: 2, scale: 0 }));
}

#[test]
fn nested_commands_run_in_order() {
    let mut session = Session::empty();
    let input = "$out = (whoami)\n$out + \"!\"";
    match session.interpret(input, &[]) {
        Step::Run { program, args } => {
            assert_eq!(program, "whoami");
            assert!(args.is_empty());
        }
        other => panic!("unexpected {:?}", other),
    }
    let done = [Outcome::Exited { code: None, output: String::from("me\n") }];
    // a command's value is a process result, not a string
    let r = finished(session.interpret(input, &done));
    assert_eq!(r, Err(String::from("Can only add values of the same type.")));
    let r = finished(session.interpret("(echo a) ; (echo b)", &[
        Outcome::Exited { code: Some(0), output: String::from("a\n") },
        Outcome::Exited { code: Some(0), output: String::from("b\n") },
    ]));
    assert_eq!(r, Ok(String::from("a\nb")));
}

#[test]
fn spawn_failure_is_an_error() {
    let mut session = Session::empty();
    let done = [Outcome::Failed(String::from("No such file or directory (os error 2)"))];
    let r = finished(session.interpret("nosuch 1 2", &done));
    assert_eq!(r, Err(String::from("No such file or directory (os error 2)")));
    assert_eq!(session.get_var("?"), Value::Void);
}

#[test]
fn push_flattens_arrays() {
    let one = || Value::Num(Number::Finite { mant: 1, scale: 0 });
    let two = || Value::Num(Number::Finite { mant: 2, scale: 0 });
    let three = || Value::Num(Number::Finite { mant: 3, scale: 0 });
    assert_eq!(Value::Void.push(one()), one());
    assert_eq!(one().push(Value::Void), one());
    assert_eq!(one().push(two()), Value::Arr(vec![one(), two()]));
    assert_eq!(
        Value::Arr(vec![one()]).push(Value::Arr(vec![two(), three()])),
        Value::Arr(vec![one(), two(), three()])
    );
    assert_eq!(
        one().push(Value::Arr(vec![two(), three()])),
        Value::Arr(vec![one(), two(), three()])
    );
    assert_eq!(Value::Arr(vec![one()]).push(Value::Void), Value::Arr(vec![one()]));
    assert_eq!(Value::Arr(vec![one(), Value::Str(String::from("a"))]).display(), "[1, a]");
}

#[test]
fn process_values_show_their_output() {
    let v = Value::Process { code: Some(0), output: String::from("hello\r\n\n") };
    assert_eq!(v.display(), "hello");
    assert_eq!(Value::Void.display(), "");
}

#[test]
fn mixed_literals_fail_under_every_operator() {
    let cases = [
        ("+", "Can only add values of the same type."),
        ("-", "Can only subtract numbers."),
        ("*", "Can only multiply numbers."),
        ("/", "Can only divide numbers."),
        ("%", "Can only mod numbers."),
    ];
    let mut session = Session::empty();
    finished(session.interpret("$keep = 7", &[])).unwrap();
    for (op, message) in cases.iter() {
        for input in [format!("2.5 {} \"x y\"", op), format!("\"\" {} 10", op)] {
            let r = finished(session.interpret(&input, &[]));
            assert_eq!(r, Err(String::from(*message)));
            assert_eq!(session.get_var("keep"), Value::Num(Number::Finite { mant: 7, scale: 0 }));
        }
    }
}
