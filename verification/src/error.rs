use vstd::prelude::*;

verus! {

/// Every way an evaluation or an edit can fail.
#[derive(Clone, Copy, Debug, PartialEq, Eq, Structural)]
pub enum CalcError {
    /// Too few operands for an operator, or not exactly one value left.
    Syntax,
    /// Square root of a negative number.
    NegSqrt,
    /// Logarithm of a number that is not positive.
    NegLog,
    /// Division by zero (or a cotangent of a multiple of 180 degrees).
    Div0,
    /// Factorial of a number that is not an integer.
    NonintFact,
    /// Factorial of a negative number.
    NegFact,
    /// A fixed-size buffer is full, or a result is not finite.
    Overflow,
    /// Power with an exponent that is not an integer.
    NonintExp,
    /// Power with a negative exponent.
    NegExp,
    /// Power with an exponent above the limit.
    ExpTooLarge,
    /// A number literal that is not a number.
    Parse,
    /// Parentheses that do not match.
    MismatchParen,
    /// A name that is not a known function.
    BadFunc,
    /// A character that has no meaning in an expression.
    BadChar,
}

impl CalcError {
    /// The short code by which the error is reported.
    pub fn code(&self) -> (s: &'static str)
        ensures
            s@ == self.spec_code(),
    {
        match self {
            CalcError::Syntax => "syntax",
            CalcError::NegSqrt => "neg_sqrt",
            CalcError::NegLog => "neg_log",
            CalcError::Div0 => "div0",
            CalcError::NonintFact => "nonint_fact",
            CalcError::NegFact => "neg_fact",
            CalcError::Overflow => "overflow",
            CalcError::NonintExp => "nonint_exp",
            CalcError::NegExp => "neg_exp",
            CalcError::ExpTooLarge => "exp_too_large",
            CalcError::Parse => "parse",
            CalcError::MismatchParen => "mismatch_paren",
            CalcError::BadFunc => "badfunc",
            CalcError::BadChar => "badchar",
        }
    }

    pub open spec fn spec_code(&self) -> Seq<char> {
        match self {
            CalcError::Syntax => "syntax"@,
            CalcError::NegSqrt => "neg_sqrt"@,
            CalcError::NegLog => "neg_log"@,
            CalcError::Div0 => "div0"@,
            CalcError::NonintFact => "nonint_fact"@,
            CalcError::NegFact => "neg_fact"@,
            CalcError::Overflow => "overflow"@,
            CalcError::NonintExp => "nonint_exp"@,
            CalcError::NegExp => "neg_exp"@,
            CalcError::ExpTooLarge => "exp_too_large"@,
            CalcError::Parse => "parse"@,
            CalcError::MismatchParen => "mismatch_paren"@,
            CalcError::BadFunc => "badfunc"@,
            CalcError::BadChar => "badchar"@,
        }
    }
}


/// Law: no two errors are reported with the same code.
pub proof fn error_codes_are_distinct(e1: CalcError, e2: CalcError)
    requires
        e1 != e2,
    ensures
        e1.spec_code() != e2.spec_code(),
{
    reveal_strlit("syntax");
    reveal_strlit("neg_sqrt");
    reveal_strlit("neg_log");
    reveal_strlit("div0");
    reveal_strlit("nonint_fact");
    reveal_strlit("neg_fact");
    reveal_strlit("overflow");
    reveal_strlit("nonint_exp");
    reveal_strlit("neg_exp");
    reveal_strlit("exp_too_large");
    reveal_strlit("parse");
    reveal_strlit("mismatch_paren");
    reveal_strlit("badfunc");
    reveal_strlit("badchar");
    if e1.spec_code() == e2.spec_code() {
        let a = e1.spec_code();
        let b = e2.spec_code();
        assert(a.len() == b.len());
        assert(a[0] == b[0]);
        assert(a[1] == b[1]);
        assert(a[3] == b[3]);
        assert(a[4] == b[4]);
        assert(a.len() > 6 ==> a[6] == b[6]);
        assert(a.len() > 7 ==> a[7] == b[7]);
    }
}

} // verus!
