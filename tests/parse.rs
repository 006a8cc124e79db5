use oyster::number::Number;
use oyster::parser::{parse, Expr, Prog, Stmt};
use oyster::tokens::{tokenize, Token};

fn single_expr(input: &str) -> Expr {
    let ts = tokenize(input).unwrap();
    match parse(&ts) {
        Ok(Prog::Stmt(s, rest)) => match (*s, *rest) {
            (Stmt::Expr(e), Prog::End) => e,
            _ => unreachable!(),
        },
        _ => unreachable!(),
    }
}

fn whole(n: i64) -> Number {
    Number::Finite { mant: n, scale: 0 }
}

#[test]
fn parse_test_single_integer() {
    let ts = [Token::Num(String::from("1")), Token::NewLine];
    let res = parse(&ts);
    match res {
        Ok(Prog::Stmt(s, rest)) => match (*s, *rest) {
            (Stmt::Expr(Expr::Num(n)), Prog::End) => assert_eq!(n, whole(1)),
            _ => unreachable!(),
        },
        _ => unreachable!(),
    }
}

#[test]
fn parsing_commands() {
    let ts = vec![
        Token::Path(String::from(".\\this\\is\\a\\path.txt")),
        Token::Str(String::from("something_else")),
        Token::Path(String::from(".\\this\\is\\a\\path.txt")),
        Token::Param(String::from("-parameter")),
        Token::Str(String::from("something_else")),
        Token::Num(String::from("0.0")),
        Token::Str(String::from("something_else")),
        Token::Num(String::from("0.0")),
        Token::Param(String::from("-parameter")),
        Token::NewLine,
    ];

    let mut count_str_tok = 0;
    let mut count_param_tok = 0;
    let mut count_path_tok = 0;
    let mut count_num_tok = 0;

    for tok in ts.iter() {
        match tok {
            Token::Str(_) => count_str_tok += 1,
            Token::Param(_) => count_param_tok += 1,
            Token::Path(_) => count_path_tok += 1,
            Token::Num(_) => count_num_tok += 1,
            _ => (),
        }
    }

    let res = parse(&ts);

    let mut count_str = 0;
    let mut count_param = 0;
    let mut count_path = 0;
    let mut count_num = 0;

    match res {
        Ok(Prog::Stmt(s, rest)) => match (*s, *rest) {
            (Stmt::Expr(Expr::Command(callee, v)), Prog::End) => {
                assert_eq!(v.len(), ts.len() - 2);
                match *callee {
                    Expr::Path(s) => assert_eq!(s, String::from(".\\this\\is\\a\\path.txt")),
                    _ => unreachable!(),
                }
                for ex in v.iter() {
                    match ex {
                        Expr::Str(_) => count_str += 1,
                        Expr::Param(_) => count_param += 1,
                        Expr::Path(_) => count_path += 1,
                        Expr::Num(_) => count_num += 1,
                        _ => panic!("There was something unexpected in the vector."),
                    }
                }
            }
            _ => unreachable!(),
        },
        _ => unreachable!(),
    }
    assert_eq!(count_str, count_str_tok);
    assert_eq!(count_param, count_param_tok);
    assert_eq!(count_path, count_path_tok - 1);
    assert_eq!(count_num, count_num_tok);
}

#[test]
fn test_parse_int() {
    match single_expr("42") {
        Expr::Num(n) => assert_eq!(n, whole(42)),
        other => panic!("unexpected {:?}", other),
    }
    match single_expr("2.50") {
        Expr::Num(n) => assert_eq!(n, Number::Finite { mant: 25, scale: 1 }),
        other => panic!("unexpected {:?}", other),
    }
}

#[test]
fn test_parse_expr() {
    // 1 + 2 * 3 is 1 + (2 * 3); (1 + 2) * 3 keeps its parentheses
    match single_expr("1 + 2 * 3") {
        Expr::Add(l, r) => {
            assert!(matches!(*l, Expr::Num(_)));
            assert!(matches!(*r, Expr::Mul(_, _)));
        }
        other => panic!("unexpected {:?}", other),
    }
    match single_expr("(1 + 2) * 3") {
        Expr::Mul(l, r) => {
            assert!(matches!(*l, Expr::Add(_, _)));
            assert!(matches!(*r, Expr::Num(_)));
        }
        other => panic!("unexpected {:?}", other),
    }
}

#[test]
fn test_parse_add() {
    // left-associative: (1 + 2) + 3
    match single_expr("1 + 2 + 3") {
        Expr::Add(l, r) => {
            assert!(matches!(*l, Expr::Add(_, _)));
            assert_eq!(*r, Expr::Num(whole(3)));
        }
        other => panic!("unexpected {:?}", other),
    }
}

#[test]
fn test_parse_sub() {
    // left-associative: (5 - 2) - 1
    match single_expr("5 - 2 - 1") {
        Expr::Sub(l, r) => {
            match *l {
                Expr::Sub(a, b) => {
                    assert_eq!(*a, Expr::Num(whole(5)));
                    assert_eq!(*b, Expr::Num(whole(2)));
                }
                other => panic!("unexpected {:?}", other),
            }
            assert_eq!(*r, Expr::Num(whole(1)));
        }
        other => panic!("unexpected {:?}", other),
    }
}

#[test]
fn assignment_and_literals() {
    let ts = tokenize("$name = \"hi\"; -v").unwrap();
    match parse(&ts) {
        Ok(Prog::Stmt(s, rest)) => {
            match *s {
                Stmt::Assign(n, Expr::Str(v)) => {
                    assert_eq!(n, "name");
                    assert_eq!(v, "hi");
                }
                other => panic!("unexpected {:?}", other),
            }
            match *rest {
                Prog::Stmt(s2, end) => {
                    assert_eq!(*s2, Stmt::Expr(Expr::Param(String::from("-v"))));
                    assert!(matches!(*end, Prog::End));
                }
                other => panic!("unexpected {:?}", other),
            }
        }
        other => panic!("unexpected {:?}", other),
    }
}

#[test]
fn parse_errors_name_position_and_expectation() {
    // an operator without an operand ends the expression before it
    let e = parse(&tokenize("1 +").unwrap()).unwrap_err();
    assert_eq!(e.at, 1);
    assert_eq!(e.expected, "a newline or ';'");
    assert_eq!(e.message(), "Expected a newline or ';' at token 1.");

    let e = parse(&tokenize("1 * )").unwrap()).unwrap_err();
    assert_eq!(e.message(), "Expected a newline or ';' at token 1.");

    let e = parse(&tokenize("(2 - )").unwrap()).unwrap_err();
    assert_eq!(e.message(), "Expected ')' at token 2.");

    let e = parse(&tokenize("+ 1").unwrap()).unwrap_err();
    assert_eq!(e.message(), "Expected a value at token 0.");

    let e = parse(&tokenize("(1 + 2").unwrap()).unwrap_err();
    assert_eq!(e.message(), "Expected ')' at token 4.");

    let e = parse(&tokenize("1 2").unwrap()).unwrap_err();
    assert_eq!(e.message(), "Expected a newline or ';' at token 1.");

    // brackets start no value
    let e = parse(&tokenize("[]").unwrap()).unwrap_err();
    assert_eq!(e.message(), "Expected a value at token 0.");
    let e = parse(&tokenize("ls []").unwrap()).unwrap_err();
    assert_eq!(e.message(), "Expected a newline or ';' at token 1.");
}
