use oyster::context::{Context, Position};
use oyster::number::Number;

fn lit(s: &str) -> Number {
    Number::from_literal(s)
}

#[test]
fn literals() {
    assert_eq!(lit("1.72"), Number::Finite { mant: 172, scale: 2 });
    assert_eq!(lit("0.0"), Number::Finite { mant: 0, scale: 0 });
    assert_eq!(lit("10"), Number::Finite { mant: 10, scale: 0 });
    assert_eq!(lit("1.50"), Number::Finite { mant: 15, scale: 1 });
    assert_eq!(lit("0.12345678901234567890"), Number::Finite { mant: 1234567890123456, scale: 16 });
    assert_eq!(lit("12345678901234567890"), Number::PosInf);
}

#[test]
fn arithmetic() {
    let a = lit("2.5");
    let b = lit("0.5");
    assert_eq!(a.sum(b), Number::Finite { mant: 3, scale: 0 });
    assert_eq!(a.difference(b), Number::Finite { mant: 2, scale: 0 });
    assert_eq!(a.product(b), Number::Finite { mant: 125, scale: 2 });
    assert_eq!(a.quotient(b), Number::Finite { mant: 5, scale: 0 });
    assert_eq!(a.remainder(lit("1")), Number::Finite { mant: 5, scale: 1 });
    assert_eq!(lit("1").quotient(lit("0")), Number::PosInf);
    assert_eq!(Number::PosInf.sum(Number::NegInf), Number::NaN);
    assert_eq!(Number::PosInf.product(lit("0")), Number::NaN);
    assert_eq!(Number::NegInf.product(lit("2")), Number::NegInf);
    assert_eq!(lit("3").remainder(Number::PosInf), lit("3"));
}

#[test]
fn rendering() {
    assert_eq!(Number::Finite { mant: -4, scale: 0 }.to_text(), "-4");
    assert_eq!(Number::Finite { mant: 25, scale: 2 }.to_text(), "0.25");
    assert_eq!(Number::Finite { mant: -1005, scale: 3 }.to_text(), "-1.005");
    assert_eq!(Number::PosInf.to_text(), "inf");
    assert_eq!(Number::NegInf.to_text(), "-inf");
    assert_eq!(Number::NaN.to_text(), "NaN");
    assert_eq!(Number::Finite { mant: 140, scale: 2 }.normalized(), Number::Finite { mant: 14, scale: 1 });
}

#[test]
fn positions() {
    let p = Position::new();
    assert_eq!((p.line, p.character), (0, 0));
    let c = Context::new().add_chars(3).add_chars(2);
    assert_eq!((c.posn.line, c.posn.character), (0, 5));
    let c = c.add_lines(2);
    assert_eq!((c.posn.line, c.posn.character), (2, 0));
}
