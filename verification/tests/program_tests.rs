use keypad_calc::compile::{compile, Step};
use keypad_calc::error::CalcError;

fn arity(op: char) -> usize {
    if "+-*/^".contains(op) {
        2
    } else {
        1
    }
}

/// Runs a program in f64 with the basic operators, as an evaluator would.
fn run(expr: &str) -> Result<f64, CalcError> {
    let p = compile(expr);
    let mut nums: Vec<f64> = Vec::new();
    for step in p.steps.iter() {
        match step {
            Step::Literal(t) => nums.push(t.as_str().parse().unwrap()),
            Step::Zero => nums.push(0.0),
            Step::Apply(op) => {
                let b = nums.pop().unwrap();
                let r = if arity(*op) == 2 {
                    let a = nums.pop().unwrap();
                    match op {
                        '+' => a + b,
                        '-' => a - b,
                        '*' => a * b,
                        '/' => a / b,
                        _ => a.powi(b as i32),
                    }
                } else {
                    match op {
                        'r' => b.sqrt(),
                        _ => (1..=(b as u64)).product::<u64>() as f64,
                    }
                };
                nums.push(r);
            }
        }
    }
    p.outcome?;
    Ok(nums.pop().unwrap())
}

#[test]
fn programs_compute_the_usual_values() {
    assert_eq!(run("2+3*4"), Ok(14.0));
    assert_eq!(run("(2+3)*4"), Ok(20.0));
    assert_eq!(run("2^3^2"), Ok(512.0));
    assert_eq!(run("-5+2"), Ok(-3.0));
    assert_eq!(run("3!+1"), Ok(7.0));
    assert_eq!(run("2(3+1)"), Ok(8.0));
    assert_eq!(run("r16*2"), Ok(8.0));
    assert_eq!(run("10/4"), Ok(2.5));
    assert_eq!(run("1-2-3"), Ok(-4.0));
    assert_eq!(run("1+"), Err(CalcError::Syntax));
}

/// Every program, accepted or not, runs on a stack of 32 values without
/// running short of operands, and an accepted one leaves one value.
#[test]
fn every_program_runs_on_the_stack() {
    let alphabet: Vec<char> = "1.+-*^()!s ".chars().collect();
    let n = alphabet.len();
    let mut count = 0;
    for len in 0..=4 {
        let total = n.pow(len as u32);
        for code in 0..total {
            let mut c = code;
            let mut expr = String::new();
            for _ in 0..len {
                expr.push(alphabet[c % n]);
                c /= n;
            }
            let p = compile(&expr);
            let mut depth: usize = 0;
            for step in p.steps.iter() {
                match step {
                    Step::Literal(_) | Step::Zero => depth += 1,
                    Step::Apply(op) => {
                        assert!(depth >= arity(*op), "{:?}", expr);
                        depth = depth - arity(*op) + 1;
                    }
                }
                assert!(depth <= 32);
            }
            if p.outcome.is_ok() {
                assert_eq!(depth, 1, "{:?}", expr);
            }
            count += 1;
        }
    }
    assert!(count > 10000);
}
