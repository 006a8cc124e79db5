use oyster::tokens::{tokenize, Token};

#[test]
fn tests_test_with_padding() {
    let s = String::from("  1  ");
    let ts = tokenize(&s).unwrap();
    assert_eq!(ts.len(), 1);
    assert_eq!(ts[0], Token::Num(String::from("1")));
}

#[test]
fn tests_test_single_integer() {
    let s = String::from("1");
    let ts = tokenize(&s).unwrap();
    assert_eq!(ts.len(), 1);
    assert_eq!(ts[0], Token::Num(s));
}

#[test]
fn tests_test_adding_integers() {
    let s = String::from("1 + 2");
    let ts = tokenize(&s).unwrap();
    assert_eq!(ts.len(), 3);
    assert_eq!(ts[0], Token::Num(String::from("1")));
    assert_eq!(ts[1], Token::Plus);
    assert_eq!(ts[2], Token::Num(String::from("2")));
}

#[test]
fn test_str_literal() {
    let s = String::from("\"my string 1\"");
    let ts = tokenize(&s).unwrap();
    assert_eq!(ts.len(), 1);
    assert_eq!(ts[0], Token::Str(s));
}

#[test]
fn test_float_literal() {
    let s = String::from("1.72");
    let ts = tokenize(&s).unwrap();
    assert_eq!(ts.len(), 1);
    assert_eq!(ts[0], Token::Num(s));
}

fn check_path(s: &str) {
    let path = String::from(s);
    let ts = tokenize(&path).unwrap();
    assert_eq!(ts.len(), 1);
    assert_eq!(ts[0], Token::Path(path));
}

#[test]
fn test_multi_path() {
    let test_paths: Vec<&str> = vec![
        r"r.ext",
        r"ruokdsho.ps1",
        r"file.c",
        r".gitignore",
        r"rust.rs",
        r"something/something/something.txt",
        r"/thing/text.txt",
        r"C:/this/that.txt",
        r"~/home/.txt",
        r"../home/file.t",
        r"./dir.something",
        r"the_file.txt",
        r"the-file.txt",
    ];
    for path in test_paths.iter() {
        check_path(path);
    }
}

#[test]
fn test_param() {
    let params = vec![
        String::from("--parameter"),
        String::from("-r"),
        String::from("--param-eter"),
        String::from("-param"),
    ];
    for par in params.iter() {
        let ts = tokenize(par).unwrap();
        assert_eq!(ts.len(), 1);
        assert_eq!(ts[0], Token::Param(String::from(par)));
    }
}

#[test]
fn number_with_spaces_around_is_one_token() {
    for s in ["42", " 42", "42 \t", "\t 3.25\r ", "0.5"] {
        let ts = tokenize(s).unwrap();
        assert_eq!(ts.len(), 1);
        assert_eq!(ts[0], Token::Num(String::from(s.trim())));
    }
}

#[test]
fn operators_and_separators() {
    let ts = tokenize("$a = (1 - 2) * 3 / 4 % 5;\n").unwrap();
    assert_eq!(
        ts,
        vec![
            Token::Var(String::from("$a")),
            Token::Eq,
            Token::LParen,
            Token::Num(String::from("1")),
            Token::Minus,
            Token::Num(String::from("2")),
            Token::RParen,
            Token::Ast,
            Token::Num(String::from("3")),
            Token::Slash,
            Token::Num(String::from("4")),
            Token::Mod,
            Token::Num(String::from("5")),
            Token::Semi,
            Token::NewLine,
        ]
    );
}

#[test]
fn slash_and_minus_before_digits_stay_operators() {
    let ts = tokenize("8/2 -1").unwrap();
    assert_eq!(
        ts,
        vec![
            Token::Num(String::from("8")),
            Token::Slash,
            Token::Num(String::from("2")),
            Token::Minus,
            Token::Num(String::from("1")),
        ]
    );
}

#[test]
fn command_line_tokens() {
    let ts = tokenize("ls -la /tmp $? \"x y\"").unwrap();
    assert_eq!(
        ts,
        vec![
            Token::Path(String::from("ls")),
            Token::Param(String::from("-la")),
            Token::Path(String::from("/tmp")),
            Token::Var(String::from("$?")),
            Token::Str(String::from("\"x y\"")),
        ]
    );
}

#[test]
fn spans_rejoin_to_the_input() {
    let input = "$x = ( 1.5+ 2 )\t* \"a b\" ;ls -l\n";
    let ts = tokenize(input).unwrap();
    let text: Vec<String> = ts
        .iter()
        .map(|t| match t {
            Token::Var(s) | Token::Num(s) | Token::Str(s) | Token::Path(s) | Token::Param(s) => {
                s.clone()
            }
            Token::Eq => String::from("="),
            Token::LParen => String::from("("),
            Token::RParen => String::from(")"),
            Token::Plus => String::from("+"),
            Token::Ast => String::from("*"),
            Token::Semi => String::from(";"),
            Token::NewLine => String::from("\n"),
            other => panic!("unexpected token {:?}", other),
        })
        .collect();
    assert_eq!(text.concat(), "$x=(1.5+2)*\"a b\";ls-l\n");
}

#[test]
fn lex_error_reports_the_rest() {
    let e = tokenize("1 + #abcdefghijkl").unwrap_err();
    assert_eq!(e.rest, "#abcdefghijkl");
    assert_eq!(e.posn.line, 0);
    assert_eq!(e.posn.character, 4);
    assert_eq!(e.message(), "Unexpected token #abcdefghi...");
}

#[test]
fn lex_error_position_counts_lines() {
    let e = tokenize("1\n22 \"open").unwrap_err();
    assert_eq!(e.rest, "\"open");
    assert_eq!(e.posn.line, 1);
    assert_eq!(e.posn.character, 3);
}

#[test]
fn empty_input_has_no_tokens() {
    assert_eq!(tokenize("").unwrap(), vec![]);
    assert_eq!(tokenize(" \t\r ").unwrap(), vec![]);
}
