use vstd::prelude::*;
use vstd::string::*;
use crate::error::CalcError;
use crate::compile::chars_of;

verus! {

/// The largest argument of `!`.
pub const MAX_FACT: u64 = 20;

/// The largest exponent of `^`.
pub const MAX_EXP: u64 = 12;

/// `n!`
pub open spec fn factorial(n: nat) -> nat
    decreases n,
{
    if n == 0 {
        1
    } else {
        n * factorial((n - 1) as nat)
    }
}

proof fn lemma_factorial_bound(n: nat)
    requires
        n <= 20,
    ensures
        factorial(n) <= 2432902008176640000,
        factorial(n) >= 1,
    decreases n,
{
    reveal_with_fuel(factorial, 21);
    assert(factorial(20) == 2432902008176640000);
    lemma_factorial_positive(n);
    if n < 20 {
        lemma_factorial_monotone(n, 20);
    }
}

proof fn lemma_factorial_monotone(a: nat, b: nat)
    requires
        a <= b,
    ensures
        factorial(a) <= factorial(b),
    decreases b,
{
    if a < b {
        lemma_factorial_monotone(a, (b - 1) as nat);
        lemma_factorial_positive((b - 1) as nat);
        assert(factorial((b - 1) as nat) <= b * factorial((b - 1) as nat)) by (nonlinear_arith)
            requires
                b >= 1,
        ;
    }
}

proof fn lemma_factorial_positive(n: nat)
    ensures
        factorial(n) >= 1,
    decreases n,
{
    if n > 0 {
        lemma_factorial_positive((n - 1) as nat);
        assert(n * factorial((n - 1) as nat) >= 1) by (nonlinear_arith)
            requires
                n >= 1,
                factorial((n - 1) as nat) >= 1,
        ;
    }
}

/// The factorial of the integer `n` (the floor of an integral operand of
/// `!`): negative arguments and arguments above `MAX_FACT` are refused.
pub fn factorial_checked(n: i64) -> (r: Result<u64, CalcError>)
    ensures
        n < 0 ==> r == Err::<u64, CalcError>(CalcError::NegFact),
        n > MAX_FACT ==> r == Err::<u64, CalcError>(CalcError::Overflow),
        0 <= n <= MAX_FACT ==> r == Ok::<u64, CalcError>(factorial(n as nat) as u64),
{
    if n < 0 {
        return Err(CalcError::NegFact);
    }
    if n > 20 {
        return Err(CalcError::Overflow);
    }
    let mut acc: u64 = 1;
    let mut i: i64 = 1;
    while i <= n
        invariant
            1 <= i <= n + 1,
            n <= 20,
            acc == factorial((i - 1) as nat),
        decreases n + 1 - i,
    {
        proof {
            lemma_factorial_bound(i as nat);
            assert(factorial(i as nat) == i * factorial((i - 1) as nat));
            assert(acc * i == factorial(i as nat)) by (nonlinear_arith)
                requires
                    acc == factorial((i - 1) as nat),
                    factorial(i as nat) == i * factorial((i - 1) as nat),
            ;
        }
        acc = acc * (i as u64);
        i = i + 1;
    }
    Ok(acc)
}

/// The exponent of `^` from the integer `e` (the floor of an integral
/// right operand): negative exponents and exponents above `MAX_EXP` are
/// refused.
pub fn exponent_checked(e: i64) -> (r: Result<u32, CalcError>)
    ensures
        e < 0 ==> r == Err::<u32, CalcError>(CalcError::NegExp),
        e > MAX_EXP ==> r == Err::<u32, CalcError>(CalcError::ExpTooLarge),
        0 <= e <= MAX_EXP ==> r == Ok::<u32, CalcError>(e as u32),
{
    if e < 0 {
        Err(CalcError::NegExp)
    } else if e > 12 {
        Err(CalcError::ExpTooLarge)
    } else {
        Ok(e as u32)
    }
}


/// Drop the zeros at the end of a text.
pub open spec fn strip_zeros(s: Seq<char>) -> Seq<char>
    decreases s.len(),
{
    if s.len() > 0 && s.last() == '0' {
        strip_zeros(s.drop_last())
    } else {
        s
    }
}

/// A decimal number without the zeros that end its fraction, and without
/// its point when nothing is left after it; a text with no point is kept.
pub open spec fn trimmed(s: Seq<char>) -> Seq<char> {
    if crate::compile::dot_count(s) >= 1 {
        let z = strip_zeros(s);
        if z.len() > 0 && z.last() == '.' {
            z.drop_last()
        } else {
            z
        }
    } else {
        s
    }
}

/// Trim a formatted decimal number: `"2.500000"` becomes `"2.5"`,
/// `"3.000000"` becomes `"3"`.
pub fn trim_decimal(text: &str) -> (r: String)
    ensures
        r@ == trimmed(text@),
{
    let v = chars_of(text);
    let mut dots: usize = 0;
    let mut k: usize = 0;
    while k < v.len()
        invariant
            k <= v.len(),
            dots == crate::compile::dot_count(v@.take(k as int)),
            dots <= k,
        decreases v.len() - k,
    {
        assert(v@.take(k + 1).drop_last() =~= v@.take(k as int));
        if v[k] == '.' {
            dots = dots + 1;
        }
        k = k + 1;
    }
    assert(v@.take(k as int) =~= v@);
    if dots == 0 {
        return text.substring_char(0, v.len()).to_owned();
    }
    let mut n = v.len();
    assert(v@.take(n as int) =~= v@);
    while n > 0 && v[n - 1] == '0'
        invariant
            n <= v.len(),
            strip_zeros(v@) == strip_zeros(v@.take(n as int)),
        decreases n,
    {
        assert(v@.take(n as int).drop_last() =~= v@.take(n - 1));
        n = n - 1;
    }
    assert(strip_zeros(v@.take(n as int)) == v@.take(n as int));
    if n > 0 && v[n - 1] == '.' {
        n = n - 1;
        assert(v@.take(n + 1).drop_last() =~= v@.take(n as int));
    }
    text.substring_char(0, n).to_owned()
}

proof fn lemma_strip_zeros_prefix(s: Seq<char>)
    ensures
        strip_zeros(s).len() <= s.len(),
        strip_zeros(s) =~= s.take(strip_zeros(s).len() as int),
        strip_zeros(s).len() == 0 || strip_zeros(s).last() != '0',
    decreases s.len(),
{
    if s.len() > 0 && s.last() == '0' {
        lemma_strip_zeros_prefix(s.drop_last());
        let z = strip_zeros(s.drop_last());
        assert(s.drop_last().take(z.len() as int) =~= s.take(z.len() as int));
    } else {
        assert(s.take(s.len() as int) =~= s);
    }
}

proof fn lemma_dot_count_prefix(s: Seq<char>, k: int)
    requires
        0 <= k <= s.len(),
    ensures
        crate::compile::dot_count(s.take(k)) <= crate::compile::dot_count(s),
    decreases s.len(),
{
    if k < s.len() {
        assert(s.drop_last().take(k) =~= s.take(k));
        lemma_dot_count_prefix(s.drop_last(), k);
    } else {
        assert(s.take(k) =~= s);
    }
}

/// Law: trimming a number with at most one point, then trimming the
/// result again, changes nothing more.
pub proof fn trimming_is_idempotent(s: Seq<char>)
    requires
        crate::compile::dot_count(s) <= 1,
    ensures
        trimmed(trimmed(s)) == trimmed(s),
{
    lemma_strip_zeros_prefix(s);
    let z = strip_zeros(s);
    if crate::compile::dot_count(s) >= 1 {
        lemma_dot_count_prefix(s, z.len() as int);
        assert(s.take(z.len() as int) =~= z);
        if z.len() > 0 && z.last() == '.' {
            // the only point was the last character
            assert(crate::compile::dot_count(z) == crate::compile::dot_count(z.drop_last()) + 1);
            assert(crate::compile::dot_count(z.drop_last()) == 0);
        } else {
            assert(strip_zeros(z) == z);
        }
    }
}


proof fn lemma_strip_zeros_tail(s: Seq<char>)
    ensures
        strip_zeros(s).len() <= s.len(),
        forall|k: int| strip_zeros(s).len() <= k < s.len() ==> #[trigger] s[k] == '0',
    decreases s.len(),
{
    if s.len() > 0 && s.last() == '0' {
        lemma_strip_zeros_tail(s.drop_last());
        assert forall|k: int| strip_zeros(s).len() <= k < s.len() implies #[trigger] s[k] == '0' by {
            if k < s.len() - 1 {
                assert(s[k] == s.drop_last()[k]);
            }
        }
    }
}

proof fn lemma_no_point(s: Seq<char>)
    requires
        forall|k: int| 0 <= k < s.len() ==> #[trigger] s[k] != '.',
    ensures
        crate::compile::dot_count(s) == 0,
    decreases s.len(),
{
    if s.len() > 0 {
        assert forall|k: int| 0 <= k < s.drop_last().len() implies #[trigger] s.drop_last()[k] != '.' by {
            assert(s.drop_last()[k] == s[k]);
        }
        lemma_no_point(s.drop_last());
    }
}

/// Law: trimming only shortens the fraction. The trimmed text is a prefix
/// of the text; what it drops are zeros, and at most one point right
/// after what it keeps; every point of the text lies at or after its end,
/// so the integer part is kept whole; a text without a point is kept as it
/// is; and a text with a point is trimmed as far as that allows: either
/// the point itself is dropped, or what is kept ends in neither a zero nor
/// a point.
pub proof fn trimming_only_shortens_the_fraction(s: Seq<char>)
    ensures
        trimmed(s).len() <= s.len(),
        trimmed(s) == s.take(trimmed(s).len() as int),
        forall|k: int|
            trimmed(s).len() <= k < s.len() ==> #[trigger] s[k] == '0' || (k == trimmed(s).len()
                && s[k] == '.'),
        forall|p: int| 0 <= p < s.len() && #[trigger] s[p] == '.' ==> p <= trimmed(s).len(),
        crate::compile::dot_count(s) == 0 ==> trimmed(s) == s,
        crate::compile::dot_count(s) >= 1 ==> (trimmed(s).len() < s.len() && s[trimmed(s).len() as int]
            == '.') || (trimmed(s).len() > 0 && s[trimmed(s).len() - 1] != '0' && s[trimmed(s).len()
            - 1] != '.'),
{
    lemma_strip_zeros_prefix(s);
    lemma_strip_zeros_tail(s);
    let z = strip_zeros(s);
    if crate::compile::dot_count(s) >= 1 {
        if z.len() > 0 && z.last() == '.' {
            let y = z.drop_last();
            assert(y =~= s.take(y.len() as int));
            assert(s[z.len() - 1] == '.');
        } else {
            assert(z =~= s.take(z.len() as int));
            if z.len() == 0 {
                lemma_no_point(s);
            }
            assert(s[z.len() - 1] == z.last());
        }
    } else {
        assert(s.take(s.len() as int) =~= s);
    }
}

} // verus!
