use oyster::eval;

fn assert_eval(input: &str, expected: &str) {
    match eval(input) {
        Ok(s) => assert_eq!(s, expected),
        Err(e) => panic!("{:?} failed: {}", input, e),
    }
}

fn assert_fails(input: &str, message: &str) {
    match eval(input) {
        Ok(s) => panic!("{:?} gave {:?}", input, s),
        Err(e) => assert_eq!(e, message),
    }
}

#[test]
fn test_with_padding() {
    assert_eval("  1  \n ", "1")
}

#[test]
fn test_single_integer() {
    assert_eval("1\n", "1")
}

#[test]
fn test_adding_integers() {
    assert_eval("1 + 3\n", "4")
}

#[test]
fn test_multiplying_integers() {
    assert_eval("2 * 3\n", "6")
}

#[test]
fn test_dividing_integers() {
    assert_eval("1 / 4\n", "0.25")
}

#[test]
fn test_parens() {
    assert_eval("(1 + 2)\n", "3")
}

#[test]
fn test_parens_after_integer() {
    assert_eval("1 + (2 + 3) + 4\n", "10")
}

#[test]
fn test_associative() {
    assert_eval("1.0 / 2\n", "0.5");
    assert_eval("1.0 / 2 / 2\n", "0.25");
    assert_eval("1.0 / 2 / 2 / 2\n", "0.125");
}

#[test]
fn test_addition_with_parens() {
    assert_eval("1 - (2 + 7) + 4\n", "-4")
}

#[test]
fn test_math_expr() {
    assert_eval("1 + 7 * (9 - 2) % 5 / 10\n", "1.4")
}

#[test]
fn test_multiline() {
    assert_eval("1 + 1\n2 + 2\n3 + 3\n", "2\n4\n6")
}

#[test]
fn test_assign_is_void() {
    assert_eval("$a = 1 + 2\n", "")
}

#[test]
fn test_vars() {
    assert_eval("$a = 1 + 1\n$a = $a + 1\n$a\n", "3")
}

#[test]
fn unterminated_input() {
    assert_eval("1 + 3", "4");
    assert_eval("2 * 3", "6");
    assert_eval("1 / 4", "0.25");
    assert_eval("1 + 7 * (9 - 2) % 5 / 10", "1.4");
    assert_eval("1.0 / 2 / 2 / 2", "0.125");
    assert_eval("1 + 1\n2 + 2\n3 + 3", "2\n4\n6");
    assert_eval("1; 2", "1\n2");
    assert_eval("1\n$x = 2", "1");
    assert_eval("1;", "1");
    assert_eval("1\n$x = 2\n", "1");
    assert_eval("", "");
}

#[test]
fn unset_variable_is_empty() {
    assert_eval("$undefined", "");
    assert_eval("$undefined\n1", "1");
}

#[test]
fn mixed_types_are_type_errors() {
    assert_fails("1 + \"x\"", "Can only add values of the same type.");
    assert_fails("\"x\" + 1", "Can only add values of the same type.");
    assert_fails("\"a\" - \"b\"", "Can only subtract numbers.");
    assert_fails("2 * \"b\"", "Can only multiply numbers.");
    assert_fails("\"a\" / 2", "Can only divide numbers.");
    assert_fails("\"a\" % 2", "Can only mod numbers.");
    assert_fails("1 + $undefined", "Can only add values of the same type.");
}

#[test]
fn strings_concatenate() {
    assert_eval("\"ab\" + \"cd\"", "abcd");
    assert_eval("$s = \"x\"; $s + $s + \"!\"", "xx!");
}

#[test]
fn division_by_zero_follows_floating_point() {
    assert_eval("1 / 0", "inf");
    assert_eval("0 - 1 / 0", "-inf");
    assert_eval("0 / 0", "NaN");
    assert_eval("5 % 0", "NaN");
    assert_eval("1 / 0 - 1 / 0", "NaN");
    assert_eval("1 / (1 / 0)", "0");
}

#[test]
fn remainders_keep_the_sign_of_the_dividend() {
    assert_eval("7 % 3", "1");
    assert_eval("(0 - 7) % 3", "-1");
    assert_eval("7.5 % 2", "1.5");
}

#[test]
fn decimal_results() {
    assert_eval("1 / 3", "0.3333333333333333");
    assert_eval("0.1 + 0.2", "0.3");
    assert_eval("2 * 0.5", "1");
    assert_eval("999999999999999999 + 1", "inf");
}

#[test]
fn bare_words_and_brackets() {
    assert_fails("[]", "Expected a value at token 0.");
    assert_eval("(-v)", "-v");
}

#[test]
fn lex_and_parse_errors() {
    assert_fails("1 # 2", "Unexpected token # 2...");
    assert_fails("1 +", "Expected a newline or ';' at token 1.");
    assert_fails("2 * ", "Expected a newline or ';' at token 1.");
    assert_fails("1 2", "Expected a newline or ';' at token 1.");
}

#[test]
fn commands_cannot_run_in_eval() {
    assert_fails("ls -l", "Cannot run ls here.");
    assert_fails("(foo)", "Cannot run foo here.");
}
