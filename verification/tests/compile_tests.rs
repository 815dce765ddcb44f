use keypad_calc::compile::{compile, Program, Step};
use keypad_calc::error::CalcError;

fn render(p: &Program) -> String {
    let mut out: Vec<String> = Vec::new();
    for step in p.steps.iter() {
        match step {
            Step::Literal(t) => out.push(t.as_str().to_string()),
            Step::Zero => out.push("0".to_string()),
            Step::Apply(op) => out.push(op.to_string()),
        }
    }
    out.join(" ")
}

fn check(expr: &str, steps: &str, outcome: Result<(), CalcError>) {
    let p = compile(expr);
    assert_eq!(render(&p), steps, "steps of {:?}", expr);
    assert_eq!(p.outcome, outcome, "outcome of {:?}", expr);
}

#[test]
fn precedence_of_products_over_sums() {
    check("1+2*3", "1 2 3 * +", Ok(()));
    check("1*2+3", "1 2 * 3 +", Ok(()));
    check("8-3-2", "8 3 - 2 -", Ok(()));
}

#[test]
fn parentheses_group() {
    check("(1+2)*3", "1 2 + 3 *", Ok(()));
    check("((4))", "4", Ok(()));
}

#[test]
fn power_is_right_associative() {
    check("2^3^2", "2 3 2 ^ ^", Ok(()));
}

#[test]
fn leading_minus_subtracts_from_zero() {
    check("-5", "0 5 -", Ok(()));
    check("3*-2", "3 0 * 2 -", Ok(()));
    check("2^-1", "2 0 ^ 1 -", Ok(()));
}

#[test]
fn implicit_products() {
    check("2(3)", "2 3 *", Ok(()));
    check("2sin30", "2 30 s *", Ok(()));
    check("(1)(2)", "1 2 *", Ok(()));
}

#[test]
fn functions_by_name_in_any_case() {
    check("sin30", "30 s", Ok(()));
    check("SIN30", "30 s", Ok(()));
    check("sqrt(16)", "16 r", Ok(()));
    check("r16", "16 r", Ok(()));
    check("log100", "100 l", Ok(()));
    check("cot45", "45 k", Ok(()));
    check("Cos0+tan0", "0 c 0 t +", Ok(()));
}

#[test]
fn factorial_binds_tightest() {
    check("5!", "5 !", Ok(()));
    check("3!!", "3 ! !", Ok(()));
    check("2*3!", "2 3 ! *", Ok(()));
}

#[test]
fn white_space_is_ignored() {
    check(" 1 +\t2 ", "1 2 +", Ok(()));
}

#[test]
fn literals() {
    check("1.5", "1.5", Ok(()));
    check(".5", ".5", Ok(()));
    check("5.", "5.", Ok(()));
    check("12345678901234567890", "12345678901234567890", Ok(()));
}

#[test]
fn literal_errors() {
    check("1.2.3", "", Err(CalcError::Parse));
    check(".", "", Err(CalcError::Parse));
    check("123456789012345678901", "", Err(CalcError::Overflow));
    check("1+..", "1", Err(CalcError::Parse));
}

#[test]
fn name_errors() {
    check("foo", "", Err(CalcError::BadFunc));
    check("abcdefghi", "", Err(CalcError::Overflow));
    check("2+sinx", "2", Err(CalcError::BadFunc));
}

#[test]
fn stray_characters() {
    check("1$2", "1", Err(CalcError::BadChar));
    check("1/0+$", "1 0 /", Err(CalcError::BadChar));
}

#[test]
fn parenthesis_errors() {
    check("(1", "1", Err(CalcError::MismatchParen));
    check("1)", "1", Err(CalcError::MismatchParen));
    check("(1+2))", "1 2 +", Err(CalcError::MismatchParen));
}

#[test]
fn syntax_errors() {
    check("", "", Err(CalcError::Syntax));
    check("1+", "1", Err(CalcError::Syntax));
    check("1 2", "1 2", Err(CalcError::Syntax));
    check("*", "", Err(CalcError::Syntax));
}

#[test]
fn operator_stack_is_bounded() {
    let open32: String = "(".repeat(32);
    check(&open32, "", Err(CalcError::MismatchParen));
    let open33: String = "(".repeat(33);
    check(&open33, "", Err(CalcError::Overflow));
}

#[test]
fn value_stack_is_bounded() {
    let mut expr = String::from("2");
    for _ in 0..31 {
        expr.push_str("^2");
    }
    // 32 values and 31 operators fit
    let p = compile(&expr);
    assert_eq!(p.outcome, Ok(()));
    assert_eq!(p.steps.len(), 63);
    expr.push_str("^2");
    // the 33rd value does not
    let p = compile(&expr);
    assert_eq!(p.outcome, Err(CalcError::Overflow));
    assert_eq!(p.steps.len(), 32);
}

#[test]
fn error_codes() {
    assert_eq!(CalcError::Syntax.code(), "syntax");
    assert_eq!(CalcError::MismatchParen.code(), "mismatch_paren");
    assert_eq!(CalcError::BadFunc.code(), "badfunc");
    assert_eq!(CalcError::ExpTooLarge.code(), "exp_too_large");
    assert_eq!(CalcError::Div0.code(), "div0");
}

#[test]
fn case_and_surrounding_blanks_do_not_matter() {
    for (a, b) in [("sin30+Cos60", "SIN30+cOS60"), ("2sqrt(9)", "  2Sqrt(9)\t"), ("1+2", "\n1+2 ")] {
        let pa = compile(a);
        let pb = compile(b);
        assert_eq!(render(&pa), render(&pb));
        assert_eq!(pa.outcome, pb.outcome);
    }
}

#[test]
fn leading_minus_is_zero_minus() {
    for e in ["5*2", "(3)", "2^2", "", "1)"] {
        let a = compile(&format!("-{}", e));
        let b = compile(&format!("0-{}", e));
        assert!(matches!(a.steps[0], Step::Zero));
        match &b.steps[0] {
            Step::Literal(t) => assert_eq!(t.as_str(), "0"),
            _ => panic!("a literal comes first"),
        }
        assert_eq!(a.steps.len(), b.steps.len());
        assert_eq!(a.outcome, b.outcome);
        let ra = render(&a);
        let rb = render(&b);
        assert_eq!(&ra[1..], &rb[1..]);
    }
}

#[test]
fn parentheses_keep_an_accepted_expression() {
    for e in ["1+2*3", "2^3^2", "-4!", "sin(30)", "7"] {
        let plain = compile(e);
        assert_eq!(plain.outcome, Ok(()));
        let wrapped = compile(&format!("({})", e));
        assert_eq!(wrapped.outcome, Ok(()));
        assert_eq!(render(&wrapped), render(&plain));
    }
}
