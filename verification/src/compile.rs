//! The expression compiler: it reads an expression once, left to right, and
//! turns it into the sequence of stack operations that evaluate it
//! (operator-precedence parsing with an operator stack).
//!
//! Numbers themselves are never computed here: a `Program` lists the
//! literals to push and the operators to apply, in the order in which the
//! evaluator must perform them, and ends with the verdict that follows the
//! last operation. An evaluator that runs the steps in order and stops at
//! the first step that fails reproduces the whole evaluation.
use vstd::prelude::*;
use vstd::string::*;
use crate::error::CalcError;
use crate::bounded::{LITERAL_BUF, NAME_BUF, OPS_CAP};

verus! {

/// Most values the value stack holds.
pub const STACK_CAP: usize = 32;

// ---------------------------------------------------------------------
// Characters
// ---------------------------------------------------------------------

/// A decimal digit.
pub open spec fn is_digit(c: char) -> bool {
    '0' <= c <= '9'
}

/// Characters that make up a number literal.
pub open spec fn is_num_char(c: char) -> bool {
    is_digit(c) || c == '.'
}

/// An ASCII letter.
pub open spec fn is_alpha(c: char) -> bool {
    ('a' <= c <= 'z') || ('A' <= c <= 'Z')
}

/// ASCII white space: space, tab, line feed, form feed, carriage return.
pub open spec fn is_space(c: char) -> bool {
    c == ' ' || c == '\t' || c == '\n' || c == '\x0C' || c == '\r'
}

/// An operator between two operands.
pub open spec fn is_binary_op(c: char) -> bool {
    c == '+' || c == '-' || c == '*' || c == '/' || c == '^'
}

/// ASCII lower case of a character.
pub open spec fn lower(c: char) -> char {
    if 'A' <= c <= 'Z' {
        ((c as u32) + 32) as char
    } else {
        c
    }
}

/// Binding strength of an operator on the operator stack; `(` has none.
pub open spec fn prec_of(op: char) -> u8 {
    if op == '+' || op == '-' {
        1
    } else if op == '*' || op == '/' {
        2
    } else if op == '^' {
        3
    } else if op == 'r' || op == 'l' || op == 's' || op == 'c' || op == 't' || op == 'k' {
        4
    } else if op == '!' {
        5
    } else {
        0
    }
}

/// Number of operands an operator takes from the value stack.
pub open spec fn arity(op: char) -> nat {
    if is_binary_op(op) {
        2
    } else {
        1
    }
}

/// Binding strength of an operator.
pub fn precedence(op: char) -> (p: u8)
    ensures
        p == prec_of(op),
{
    if op == '+' || op == '-' {
        1
    } else if op == '*' || op == '/' {
        2
    } else if op == '^' {
        3
    } else if op == 'r' || op == 'l' || op == 's' || op == 'c' || op == 't' || op == 'k' {
        4
    } else if op == '!' {
        5
    } else {
        0
    }
}

// ---------------------------------------------------------------------
// Literals and names
// ---------------------------------------------------------------------

/// Number of '.' in a text.
pub open spec fn dot_count(s: Seq<char>) -> nat
    decreases s.len(),
{
    if s.len() == 0 {
        0
    } else {
        dot_count(s.drop_last()) + if s.last() == '.' { 1nat } else { 0nat }
    }
}

/// Number of decimal digits in a text.
pub open spec fn digit_count(s: Seq<char>) -> nat
    decreases s.len(),
{
    if s.len() == 0 {
        0
    } else {
        digit_count(s.drop_last()) + if is_digit(s.last()) { 1nat } else { 0nat }
    }
}

/// A run of digits and dots is a decimal number (as `f64` parsing reads
/// it) when it has at most one dot and at least one digit.
pub open spec fn valid_literal(s: Seq<char>) -> bool {
    dot_count(s) <= 1 && digit_count(s) >= 1
}

/// The function a (case-insensitive) name stands for, by its operator.
pub open spec fn function_named(name: Seq<char>) -> Option<char> {
    function_lowered(name.map_values(|c: char| lower(c)))
}

/// The function a lower-case name stands for, by its operator.
pub open spec fn function_lowered(n: Seq<char>) -> Option<char> {
    if n =~= seq!['r'] || n =~= seq!['s', 'q', 'r', 't'] {
        Some('r')
    } else if n =~= seq!['l'] || n =~= seq!['l', 'o', 'g'] {
        Some('l')
    } else if n =~= seq!['s'] || n =~= seq!['s', 'i', 'n'] {
        Some('s')
    } else if n =~= seq!['c'] || n =~= seq!['c', 'o', 's'] {
        Some('c')
    } else if n =~= seq!['t'] || n =~= seq!['t', 'a', 'n'] {
        Some('t')
    } else if n =~= seq!['k'] || n =~= seq!['c', 'o', 't'] {
        Some('k')
    } else {
        None
    }
}

/// End of the run of number characters that starts at `i`.
pub open spec fn num_end(s: Seq<char>, i: int) -> int
    decreases s.len() - i,
{
    if 0 <= i < s.len() && is_num_char(s[i]) {
        num_end(s, i + 1)
    } else {
        i
    }
}

/// End of the run of letters that starts at `i`.
pub open spec fn alpha_end(s: Seq<char>, i: int) -> int
    decreases s.len() - i,
{
    if 0 <= i < s.len() && is_alpha(s[i]) {
        alpha_end(s, i + 1)
    } else {
        i
    }
}

pub proof fn lemma_num_end(s: Seq<char>, i: int)
    requires
        0 <= i <= s.len(),
    ensures
        i <= num_end(s, i) <= s.len(),
        i < s.len() && is_num_char(s[i]) ==> num_end(s, i) > i,
        forall|k: int| i <= k < num_end(s, i) ==> is_num_char(#[trigger] s[k]),
    decreases s.len() - i,
{
    if i < s.len() && is_num_char(s[i]) {
        lemma_num_end(s, i + 1);
    }
}

pub proof fn lemma_alpha_end(s: Seq<char>, i: int)
    requires
        0 <= i <= s.len(),
    ensures
        i <= alpha_end(s, i) <= s.len(),
        i < s.len() && is_alpha(s[i]) ==> alpha_end(s, i) > i,
        forall|k: int| i <= k < alpha_end(s, i) ==> is_alpha(#[trigger] s[k]),
    decreases s.len() - i,
{
    if i < s.len() && is_alpha(s[i]) {
        lemma_alpha_end(s, i + 1);
    }
}

// ---------------------------------------------------------------------
// Programs
// ---------------------------------------------------------------------

/// One operation of the evaluator.
pub enum Step {
    /// Push the value of this number literal.
    Literal(heapless::String<20>),
    /// Push zero (the left operand of a leading minus).
    Zero,
    /// Pop the operands of this operator, push its result.
    Apply(char),
}

/// A step as a mathematical value.
pub enum StepView {
    Literal(Seq<char>),
    Zero,
    Apply(char),
}

impl View for Step {
    type V = StepView;

    open spec fn view(&self) -> StepView {
        match self {
            Step::Literal(t) => StepView::Literal(crate::bounded::literal_text(*t)),
            Step::Zero => StepView::Zero,
            Step::Apply(op) => StepView::Apply(*op),
        }
    }
}

/// The compiled form of an expression: the steps to run, then the verdict
/// that holds when all of them succeed (`Ok` leaves exactly one value).
pub struct Program {
    pub steps: Vec<Step>,
    pub outcome: Result<(), CalcError>,
}

pub open spec fn steps_view(steps: Seq<Step>) -> Seq<StepView> {
    steps.map_values(|st: Step| st@)
}

// ---------------------------------------------------------------------
// The compiler as a state machine
// ---------------------------------------------------------------------

/// State of the compiler: the operator stack, the height of the value
/// stack, whether the last token ended an operand, the steps emitted so
/// far, and the error that stopped it, if any.
pub struct Machine {
    pub ops: Seq<char>,
    pub depth: nat,
    pub prev: bool,
    pub steps: Seq<StepView>,
    pub err: Option<CalcError>,
}

pub open spec fn initial() -> Machine {
    Machine { ops: Seq::empty(), depth: 0, prev: false, steps: Seq::empty(), err: None }
}

pub open spec fn fail(m: Machine, e: CalcError) -> Machine {
    Machine { err: Some(e), ..m }
}

pub open spec fn set_prev(m: Machine, b: bool) -> Machine {
    if m.err is Some {
        m
    } else {
        Machine { prev: b, ..m }
    }
}

/// Push an operator (fails when the operator stack is full).
pub open spec fn push_op(m: Machine, c: char) -> Machine {
    if m.err is Some {
        m
    } else if m.ops.len() >= OPS_CAP {
        fail(m, CalcError::Overflow)
    } else {
        Machine { ops: m.ops.push(c), ..m }
    }
}

/// Push a value (fails when the value stack is full).
pub open spec fn push_value(m: Machine, st: StepView) -> Machine {
    if m.err is Some {
        m
    } else if m.depth >= STACK_CAP {
        fail(m, CalcError::Overflow)
    } else {
        Machine { depth: m.depth + 1, steps: m.steps.push(st), ..m }
    }
}

/// Apply an operator to the value stack (fails when it lacks operands).
pub open spec fn apply(m: Machine, op: char) -> Machine {
    if m.err is Some {
        m
    } else if m.depth < arity(op) {
        fail(m, CalcError::Syntax)
    } else {
        Machine {
            depth: (m.depth - arity(op) + 1) as nat,
            steps: m.steps.push(StepView::Apply(op)),
            ..m
        }
    }
}

pub open spec fn pop_op(m: Machine) -> Machine {
    Machine { ops: m.ops.drop_last(), ..m }
}

/// Apply the operators on top of the stack, up to the first `(` or the
/// first operator that binds less than `t`.
pub open spec fn reduce(m: Machine, t: int) -> Machine
    decreases m.ops.len(),
{
    if m.err is Some || m.ops.len() == 0 {
        m
    } else {
        let top = m.ops.last();
        if top == '(' || prec_of(top) < t {
            m
        } else {
            reduce(apply(pop_op(m), top), t)
        }
    }
}

/// An operand that follows an operand is multiplied with it.
pub open spec fn implicit_mul(m: Machine) -> Machine {
    if m.prev {
        push_op(reduce(m, 2), '*')
    } else {
        m
    }
}

/// A closing parenthesis.
pub open spec fn close_paren(m: Machine) -> Machine {
    let r = reduce(m, 0);
    if r.err is Some {
        r
    } else if r.ops.len() > 0 && r.ops.last() == '(' {
        set_prev(pop_op(r), true)
    } else {
        fail(r, CalcError::MismatchParen)
    }
}

/// A binary operator `c`.
pub open spec fn binary(m: Machine, c: char) -> Machine {
    let m1 = if c == '-' && !m.prev {
        push_value(m, StepView::Zero)
    } else {
        m
    };
    let t: int = if c == '^' {
        4
    } else {
        prec_of(c) as int
    };
    set_prev(push_op(reduce(m1, t), c), false)
}

/// Apply every operator left on the stack.
pub open spec fn drain(m: Machine) -> Machine
    decreases m.ops.len(),
{
    if m.err is Some || m.ops.len() == 0 {
        m
    } else {
        let op = m.ops.last();
        if op == '(' || op == ')' {
            fail(pop_op(m), CalcError::MismatchParen)
        } else {
            drain(apply(pop_op(m), op))
        }
    }
}

/// End of the input: drain the operators, then exactly one value must remain.
pub open spec fn finish(m: Machine) -> Machine {
    let d = drain(m);
    if d.err is Some || d.depth == 1 {
        d
    } else {
        fail(d, CalcError::Syntax)
    }
}

/// The compiler on the input from position `i` on, in state `m`.
pub open spec fn scan(s: Seq<char>, i: int, m: Machine) -> Machine
    decreases s.len() - i,
{
    if m.err is Some || i < 0 {
        m
    } else if i >= s.len() {
        finish(m)
    } else {
        let c = s[i];
        if is_space(c) {
            scan(s, i + 1, m)
        } else if is_num_char(c) {
            let j = num_end(s, i);
            proof {
                lemma_num_end(s, i);
            }
            let lit = s.subrange(i, j);
            if j - i > LITERAL_BUF {
                fail(m, CalcError::Overflow)
            } else if !valid_literal(lit) {
                fail(m, CalcError::Parse)
            } else {
                scan(s, j, set_prev(push_value(m, StepView::Literal(lit)), true))
            }
        } else if c == '(' {
            scan(s, i + 1, set_prev(push_op(implicit_mul(m), '('), false))
        } else if c == ')' {
            scan(s, i + 1, close_paren(m))
        } else if is_alpha(c) {
            let j = alpha_end(s, i);
            proof {
                lemma_alpha_end(s, i);
            }
            if j - i > NAME_BUF {
                fail(m, CalcError::Overflow)
            } else {
                match function_named(s.subrange(i, j)) {
                    None => fail(m, CalcError::BadFunc),
                    Some(f) => scan(s, j, set_prev(push_op(implicit_mul(m), f), false)),
                }
            }
        } else if c == '!' {
            scan(s, i + 1, set_prev(push_op(reduce(m, 5), '!'), true))
        } else if is_binary_op(c) {
            scan(s, i + 1, binary(m, c))
        } else {
            fail(m, CalcError::BadChar)
        }
    }
}

/// What compiling the text `s` yields.
pub open spec fn compiled(s: Seq<char>) -> Machine {
    scan(s, 0, initial())
}

/// The verdict of a machine as a `Result`.
pub open spec fn verdict(m: Machine) -> Result<(), CalcError> {
    match m.err {
        None => Ok(()),
        Some(e) => Err(e),
    }
}


// ---------------------------------------------------------------------
// Every compiled program can be run on the value stack
// ---------------------------------------------------------------------

/// The operators that a program may apply.
pub open spec fn is_operator(c: char) -> bool {
    is_binary_op(c) || c == 'r' || c == 'l' || c == 's' || c == 'c' || c == 't' || c == 'k'
        || c == '!'
}

/// Values a step takes from the stack.
pub open spec fn takes(st: StepView) -> nat {
    match st {
        StepView::Apply(op) => arity(op),
        _ => 0,
    }
}

/// A step is sound on its own: literals are valid numbers that fit the
/// literal buffer, and only operators are applied.
pub open spec fn step_ok(st: StepView) -> bool {
    match st {
        StepView::Literal(t) => valid_literal(t) && t.len() <= LITERAL_BUF,
        StepView::Zero => true,
        StepView::Apply(op) => is_operator(op),
    }
}

/// Height of the value stack after running `steps` from an empty stack.
pub open spec fn height(steps: Seq<StepView>) -> int
    decreases steps.len(),
{
    if steps.len() == 0 {
        0
    } else {
        height(steps.drop_last()) - takes(steps.last()) + 1
    }
}

/// Every step finds the operands it takes on the stack, and the stack
/// never holds more than `STACK_CAP` values.
pub open spec fn runnable(steps: Seq<StepView>) -> bool
    decreases steps.len(),
{
    steps.len() == 0 || {
        &&& runnable(steps.drop_last())
        &&& step_ok(steps.last())
        &&& height(steps.drop_last()) >= takes(steps.last())
        &&& height(steps) <= STACK_CAP
    }
}

/// What holds of every state the compiler passes through.
pub open spec fn machine_inv(m: Machine) -> bool {
    &&& m.depth == height(m.steps)
    &&& runnable(m.steps)
    &&& m.depth <= STACK_CAP
    &&& m.ops.len() <= OPS_CAP
    &&& forall|k: int| 0 <= k < m.ops.len() ==> m.ops[k] == '(' || is_operator(#[trigger] m.ops[k])
}

proof fn lemma_push_op_inv(m: Machine, c: char)
    requires
        machine_inv(m),
        c == '(' || is_operator(c),
    ensures
        machine_inv(push_op(m, c)),
{
    if m.err is None && m.ops.len() < OPS_CAP {
        let r = push_op(m, c);
        assert forall|k: int| 0 <= k < r.ops.len() implies r.ops[k] == '(' || is_operator(
            #[trigger] r.ops[k],
        ) by {
            if k < m.ops.len() {
                assert(r.ops[k] == m.ops[k]);
            }
        }
    }
}

proof fn lemma_pop_op_inv(m: Machine)
    requires
        machine_inv(m),
        m.ops.len() > 0,
    ensures
        machine_inv(pop_op(m)),
{
    let r = pop_op(m);
    assert forall|k: int| 0 <= k < r.ops.len() implies r.ops[k] == '(' || is_operator(
        #[trigger] r.ops[k],
    ) by {
        assert(r.ops[k] == m.ops[k]);
    }
}

proof fn lemma_push_value_inv(m: Machine, st: StepView)
    requires
        machine_inv(m),
        step_ok(st),
        takes(st) == 0,
    ensures
        machine_inv(push_value(m, st)),
{
    if m.err is None && m.depth < STACK_CAP {
        let r = push_value(m, st);
        assert(r.steps.drop_last() =~= m.steps);
    }
}

proof fn lemma_apply_inv(m: Machine, op: char)
    requires
        machine_inv(m),
        is_operator(op),
    ensures
        machine_inv(apply(m, op)),
{
    if m.err is None && m.depth >= arity(op) {
        let r = apply(m, op);
        assert(r.steps.drop_last() =~= m.steps);
    }
}

proof fn lemma_reduce_inv(m: Machine, t: int)
    requires
        machine_inv(m),
    ensures
        machine_inv(reduce(m, t)),
    decreases m.ops.len(),
{
    if m.err is None && m.ops.len() > 0 {
        let top = m.ops.last();
        if top != '(' && prec_of(top) >= t {
            lemma_pop_op_inv(m);
            assert(is_operator(top));
            lemma_apply_inv(pop_op(m), top);
            lemma_reduce_inv(apply(pop_op(m), top), t);
        }
    }
}

proof fn lemma_drain_inv(m: Machine)
    requires
        machine_inv(m),
    ensures
        machine_inv(drain(m)),
    decreases m.ops.len(),
{
    if m.err is None && m.ops.len() > 0 {
        let op = m.ops.last();
        lemma_pop_op_inv(m);
        if op != '(' && op != ')' {
            assert(is_operator(op));
            lemma_apply_inv(pop_op(m), op);
            lemma_drain_inv(apply(pop_op(m), op));
        }
    }
}

proof fn lemma_finish_inv(m: Machine)
    requires
        machine_inv(m),
    ensures
        machine_inv(finish(m)),
        finish(m).err is None ==> finish(m).depth == 1,
{
    lemma_drain_inv(m);
}

proof fn lemma_implicit_mul_inv(m: Machine)
    requires
        machine_inv(m),
    ensures
        machine_inv(implicit_mul(m)),
{
    if m.prev {
        lemma_reduce_inv(m, 2);
        lemma_push_op_inv(reduce(m, 2), '*');
    }
}

proof fn lemma_function_is_operator(name: Seq<char>)
    ensures
        function_named(name) matches Some(f) ==> is_operator(f),
{
}

proof fn lemma_scan_inv(s: Seq<char>, i: int, m: Machine)
    requires
        machine_inv(m),
        0 <= i,
    ensures
        machine_inv(scan(s, i, m)),
        scan(s, i, m).err is None ==> scan(s, i, m).depth == 1,
    decreases s.len() - i,
{
    if m.err is None {
        if i >= s.len() {
            lemma_finish_inv(m);
        } else {
            let c = s[i];
            if is_space(c) {
                lemma_scan_inv(s, i + 1, m);
            } else if is_num_char(c) {
                let j = num_end(s, i);
                lemma_num_end(s, i);
                let lit = s.subrange(i, j);
                if j - i <= LITERAL_BUF && valid_literal(lit) {
                    lemma_push_value_inv(m, StepView::Literal(lit));
                    lemma_scan_inv(s, j, set_prev(push_value(m, StepView::Literal(lit)), true));
                }
            } else if c == '(' {
                lemma_implicit_mul_inv(m);
                lemma_push_op_inv(implicit_mul(m), '(');
                lemma_scan_inv(s, i + 1, set_prev(push_op(implicit_mul(m), '('), false));
            } else if c == ')' {
                lemma_reduce_inv(m, 0);
                let r = reduce(m, 0);
                if r.err is None && r.ops.len() > 0 && r.ops.last() == '(' {
                    lemma_pop_op_inv(r);
                }
                lemma_scan_inv(s, i + 1, close_paren(m));
            } else if is_alpha(c) {
                let j = alpha_end(s, i);
                lemma_alpha_end(s, i);
                if j - i <= NAME_BUF {
                    lemma_function_is_operator(s.subrange(i, j));
                    if let Some(f) = function_named(s.subrange(i, j)) {
                        lemma_implicit_mul_inv(m);
                        lemma_push_op_inv(implicit_mul(m), f);
                        lemma_scan_inv(s, j, set_prev(push_op(implicit_mul(m), f), false));
                    }
                }
            } else if c == '!' {
                lemma_reduce_inv(m, 5);
                lemma_push_op_inv(reduce(m, 5), '!');
                lemma_scan_inv(s, i + 1, set_prev(push_op(reduce(m, 5), '!'), true));
            } else if is_binary_op(c) {
                let m1 = if c == '-' && !m.prev {
                    push_value(m, StepView::Zero)
                } else {
                    m
                };
                lemma_push_value_inv(m, StepView::Zero);
                let t: int = if c == '^' {
                    4
                } else {
                    prec_of(c) as int
                };
                lemma_reduce_inv(m1, t);
                lemma_push_op_inv(reduce(m1, t), c);
                lemma_scan_inv(s, i + 1, binary(m, c));
            }
        }
    }
}

/// Law: whatever the input, the program that the compiler emits runs on
/// the value stack without underflow or overflow, pushes only valid
/// literals that fit the literal buffer, applies only operators, and,
/// when the verdict is `Ok`, leaves exactly one value.
pub proof fn compiled_programs_are_runnable(s: Seq<char>)
    ensures
        runnable(compiled(s).steps),
        compiled(s).err is None ==> height(compiled(s).steps) == 1,
{
    assert(initial().steps =~= Seq::<StepView>::empty());
    lemma_scan_inv(s, 0, initial());
}


// ---------------------------------------------------------------------
// Letter case, blanks around the expression, and a leading minus
// ---------------------------------------------------------------------

/// Two characters that the compiler cannot tell apart: equal, or letters
/// that differ only in case.
pub open spec fn same_up_to_case(a: char, b: char) -> bool {
    a == b || (is_alpha(a) && is_alpha(b) && lower(a) == lower(b))
}

/// `t`, from position `off` on, is `s` from position `i` on, up to letter
/// case, followed by white space only.
pub open spec fn shifted(s: Seq<char>, t: Seq<char>, off: int, i: int) -> bool {
    &&& 0 <= off
    &&& 0 <= i <= s.len()
    &&& s.len() + off <= t.len()
    &&& forall|k: int| i <= k < s.len() ==> same_up_to_case(s[k], #[trigger] t[k + off])
    &&& forall|k: int| s.len() + off <= k < t.len() ==> is_space(#[trigger] t[k])
}

proof fn lemma_num_end_shift(s: Seq<char>, t: Seq<char>, off: int, i: int)
    requires
        shifted(s, t, off, i),
    ensures
        num_end(t, i + off) == num_end(s, i) + off,
    decreases s.len() - i,
{
    if i < s.len() {
        assert(same_up_to_case(s[i], t[i + off]));
        lemma_num_end_shift(s, t, off, i + 1);
    } else if i + off < t.len() {
        assert(is_space(t[i + off]));
    }
}

proof fn lemma_alpha_end_shift(s: Seq<char>, t: Seq<char>, off: int, i: int)
    requires
        shifted(s, t, off, i),
    ensures
        alpha_end(t, i + off) == alpha_end(s, i) + off,
    decreases s.len() - i,
{
    if i < s.len() {
        assert(same_up_to_case(s[i], t[i + off]));
        lemma_alpha_end_shift(s, t, off, i + 1);
    } else if i + off < t.len() {
        assert(is_space(t[i + off]));
    }
}

/// White space only: the compiler skips it up to the end.
proof fn lemma_scan_blanks(t: Seq<char>, j: int, m: Machine)
    requires
        0 <= j <= t.len(),
        forall|k: int| j <= k < t.len() ==> is_space(#[trigger] t[k]),
    ensures
        scan(t, j, m) == scan(t, t.len() as int, m),
    decreases t.len() - j,
{
    if j < t.len() {
        assert(is_space(t[j]));
        lemma_scan_blanks(t, j + 1, m);
    }
}

/// Leading white space is skipped.
proof fn lemma_scan_lead(t: Seq<char>, j: int, lead: int, m: Machine)
    requires
        0 <= j <= lead <= t.len(),
        forall|k: int| j <= k < lead ==> is_space(#[trigger] t[k]),
    ensures
        scan(t, j, m) == scan(t, lead, m),
    decreases lead - j,
{
    if j < lead {
        assert(is_space(t[j]));
        lemma_scan_lead(t, j + 1, lead, m);
    }
}

#[verifier::rlimit(40)]
proof fn lemma_scan_shift(s: Seq<char>, t: Seq<char>, off: int, i: int, m: Machine)
    requires
        shifted(s, t, off, i),
    ensures
        scan(t, i + off, m) == scan(s, i, m),
    decreases s.len() - i,
{
    if m.err is None {
        if i >= s.len() {
            lemma_scan_blanks(t, i + off, m);
        } else {
            let c = s[i];
            let d = t[i + off];
            assert(same_up_to_case(c, d));
            if is_space(c) {
                lemma_scan_shift(s, t, off, i + 1, m);
            } else if is_num_char(c) {
                assert(d == c);
                lemma_num_end_shift(s, t, off, i);
                lemma_num_end(s, i);
                let j = num_end(s, i);
                assert(t.subrange(i + off, j + off) =~= s.subrange(i, j)) by {
                    assert forall|k: int| 0 <= k < j - i implies t.subrange(i + off, j + off)[k]
                        == s.subrange(i, j)[k] by {
                        assert(same_up_to_case(s[i + k], t[i + k + off]));
                        assert(is_num_char(s[i + k]));
                    }
                }
                let lit = s.subrange(i, j);
                if j - i <= LITERAL_BUF && valid_literal(lit) {
                    lemma_scan_shift(
                        s,
                        t,
                        off,
                        j,
                        set_prev(push_value(m, StepView::Literal(lit)), true),
                    );
                }
            } else if c == '(' || c == ')' || c == '!' || is_binary_op(c) {
                assert(d == c);
                lemma_scan_shift(s, t, off, i + 1, set_prev(push_op(implicit_mul(m), '('), false));
                lemma_scan_shift(s, t, off, i + 1, close_paren(m));
                lemma_scan_shift(s, t, off, i + 1, set_prev(push_op(reduce(m, 5), '!'), true));
                lemma_scan_shift(s, t, off, i + 1, binary(m, c));
            } else if is_alpha(c) {
                assert(is_alpha(d));
                lemma_alpha_end_shift(s, t, off, i);
                lemma_alpha_end(s, i);
                let j = alpha_end(s, i);
                let ln = |x: char| lower(x);
                assert(t.subrange(i + off, j + off).map_values(ln) =~= s.subrange(i, j).map_values(
                    ln,
                )) by {
                    assert forall|k: int| 0 <= k < j - i implies t.subrange(
                        i + off,
                        j + off,
                    ).map_values(ln)[k] == s.subrange(i, j).map_values(ln)[k] by {
                        assert(same_up_to_case(s[i + k], t[i + k + off]));
                    }
                }
                assert(function_named(t.subrange(i + off, j + off)) == function_named(
                    s.subrange(i, j),
                ));
                if j - i <= NAME_BUF {
                    if let Some(f) = function_named(s.subrange(i, j)) {
                        lemma_scan_shift(s, t, off, j, set_prev(push_op(implicit_mul(m), f), false));
                    }
                }
            } else {
                assert(d == c);
            }
        }
    }
}

/// Law: letter case and white space around the expression do not change
/// what it compiles to: `t` is `lead` blanks, then `s` up to letter case,
/// then blanks.
pub proof fn case_and_surrounding_blanks_do_not_matter(s: Seq<char>, t: Seq<char>, lead: int)
    requires
        0 <= lead,
        lead + s.len() <= t.len(),
        forall|k: int| 0 <= k < lead ==> is_space(#[trigger] t[k]),
        forall|k: int| 0 <= k < s.len() ==> same_up_to_case(s[k], #[trigger] t[k + lead]),
        forall|k: int| lead + s.len() <= k < t.len() ==> is_space(#[trigger] t[k]),
    ensures
        compiled(t) == compiled(s),
{
    lemma_scan_lead(t, 0, lead, initial());
    lemma_scan_shift(s, t, lead, 0, initial());
}


/// The same machine with the steps `p` emitted before its own.
pub open spec fn rebase(m: Machine, p: Seq<StepView>) -> Machine {
    Machine { steps: p + m.steps, ..m }
}

proof fn lemma_rebase_push_value(m: Machine, p: Seq<StepView>, st: StepView)
    ensures
        push_value(rebase(m, p), st) == rebase(push_value(m, st), p),
{
    assert((p + m.steps).push(st) =~= p + m.steps.push(st));
}

proof fn lemma_rebase_apply(m: Machine, p: Seq<StepView>, op: char)
    ensures
        apply(rebase(m, p), op) == rebase(apply(m, op), p),
{
    assert((p + m.steps).push(StepView::Apply(op)) =~= p + m.steps.push(StepView::Apply(op)));
}

proof fn lemma_rebase_reduce(m: Machine, p: Seq<StepView>, t: int)
    ensures
        reduce(rebase(m, p), t) == rebase(reduce(m, t), p),
    decreases m.ops.len(),
{
    if m.err is None && m.ops.len() > 0 {
        let top = m.ops.last();
        if top != '(' && prec_of(top) >= t {
            lemma_rebase_apply(pop_op(m), p, top);
            assert(pop_op(rebase(m, p)) == rebase(pop_op(m), p));
            lemma_rebase_reduce(apply(pop_op(m), top), p, t);
        }
    }
}

proof fn lemma_rebase_drain(m: Machine, p: Seq<StepView>)
    ensures
        drain(rebase(m, p)) == rebase(drain(m), p),
    decreases m.ops.len(),
{
    if m.err is None && m.ops.len() > 0 {
        let op = m.ops.last();
        assert(pop_op(rebase(m, p)) == rebase(pop_op(m), p));
        if op != '(' && op != ')' {
            lemma_rebase_apply(pop_op(m), p, op);
            lemma_rebase_drain(apply(pop_op(m), op), p);
        }
    }
}

proof fn lemma_rebase_implicit_mul(m: Machine, p: Seq<StepView>)
    ensures
        implicit_mul(rebase(m, p)) == rebase(implicit_mul(m), p),
{
    lemma_rebase_reduce(m, p, 2);
}

#[verifier::rlimit(40)]
proof fn lemma_rebase_scan(s: Seq<char>, i: int, m: Machine, p: Seq<StepView>)
    requires
        0 <= i,
    ensures
        scan(s, i, rebase(m, p)) == rebase(scan(s, i, m), p),
    decreases s.len() - i,
{
    if m.err is None {
        if i >= s.len() {
            lemma_rebase_drain(m, p);
        } else {
            let c = s[i];
            if is_space(c) {
                lemma_rebase_scan(s, i + 1, m, p);
            } else if is_num_char(c) {
                lemma_num_end(s, i);
                let j = num_end(s, i);
                let lit = s.subrange(i, j);
                lemma_rebase_push_value(m, p, StepView::Literal(lit));
                if j - i <= LITERAL_BUF && valid_literal(lit) {
                    lemma_rebase_scan(s, j, set_prev(push_value(m, StepView::Literal(lit)), true), p);
                }
            } else if c == '(' {
                lemma_rebase_implicit_mul(m, p);
                lemma_rebase_scan(s, i + 1, set_prev(push_op(implicit_mul(m), '('), false), p);
            } else if c == ')' {
                lemma_rebase_reduce(m, p, 0);
                lemma_rebase_scan(s, i + 1, close_paren(m), p);
            } else if is_alpha(c) {
                lemma_alpha_end(s, i);
                let j = alpha_end(s, i);
                lemma_rebase_implicit_mul(m, p);
                if j - i <= NAME_BUF {
                    if let Some(f) = function_named(s.subrange(i, j)) {
                        lemma_rebase_scan(s, j, set_prev(push_op(implicit_mul(m), f), false), p);
                    }
                }
            } else if c == '!' {
                lemma_rebase_reduce(m, p, 5);
                lemma_rebase_scan(s, i + 1, set_prev(push_op(reduce(m, 5), '!'), true), p);
            } else if is_binary_op(c) {
                lemma_rebase_push_value(m, p, StepView::Zero);
                let m1 = if c == '-' && !m.prev {
                    push_value(m, StepView::Zero)
                } else {
                    m
                };
                let t: int = if c == '^' {
                    4
                } else {
                    prec_of(c) as int
                };
                lemma_rebase_reduce(m1, p, t);
                lemma_rebase_scan(s, i + 1, binary(m, c), p);
            }
        }
    }
}

/// Law: a leading minus is subtraction from zero: `-e` compiles to the
/// steps of `0-e`, with the zero pushed by a `Zero` step where `0-e` has
/// the literal `0`, and to the same verdict.
pub proof fn leading_minus_is_zero_minus(e: Seq<char>)
    ensures
        ({
            let a = compiled(seq!['-'] + e);
            let b = compiled(seq!['0', '-'] + e);
            &&& a.err == b.err
            &&& a.steps.len() == b.steps.len()
            &&& a.steps.len() >= 1
            &&& a.steps[0] == StepView::Zero
            &&& b.steps[0] == StepView::Literal(seq!['0'])
            &&& a.steps.skip(1) == b.steps.skip(1)
        }),
{
    let s1 = seq!['-'] + e;
    let s2 = seq!['0', '-'] + e;
    let core = Machine { ops: seq!['-'], depth: 1, prev: false, steps: Seq::empty(), err: None };
    let pz = seq![StepView::Zero];
    let p0 = seq![StepView::Literal(seq!['0'])];
    // `-` on the empty machine
    assert(s1[0] == '-');
    assert(Seq::<StepView>::empty().push(StepView::Zero) =~= pz + core.steps);
    assert(Seq::<char>::empty().push('-') =~= core.ops);
    assert(scan(s1, 0, initial()) == scan(s1, 1, rebase(core, pz)));
    // `0` then `-` on the empty machine
    assert(s2[0] == '0' && s2[1] == '-');
    assert(num_end(s2, 1) == 1);
    assert(num_end(s2, 0) == 1);
    let lit = s2.subrange(0, 1);
    assert(lit =~= seq!['0']);
    assert(lit.drop_last() =~= Seq::<char>::empty());
    assert(lit.len() == 1 && lit.last() == '0');
    assert(dot_count(lit.drop_last()) == 0);
    assert(digit_count(lit.drop_last()) == 0);
    assert(dot_count(lit) == 0);
    assert(digit_count(lit) == 1);
    let m1 = set_prev(push_value(initial(), StepView::Literal(lit)), true);
    assert(Seq::<StepView>::empty().push(StepView::Literal(lit)) =~= p0 + core.steps);
    assert(scan(s2, 0, initial()) == scan(s2, 1, m1));
    assert(scan(s2, 1, m1) == scan(s2, 2, rebase(core, p0)));
    // the rest is the same text
    assert forall|k: int| 1 <= k < s1.len() implies same_up_to_case(s1[k], #[trigger] s2[k + 1]) by {
        assert(s1[k] == e[k - 1]);
        assert(s2[k + 1] == e[k - 1]);
    }
    lemma_scan_shift(s1, s2, 1, 1, core);
    lemma_rebase_scan(s1, 1, core, pz);
    lemma_rebase_scan(s2, 2, core, p0);
    let x = scan(s1, 1, core);
    assert((pz + x.steps).skip(1) =~= x.steps);
    assert((p0 + x.steps).skip(1) =~= x.steps);
}


// ---------------------------------------------------------------------
// Parentheses around an accepted expression
// ---------------------------------------------------------------------

/// The same machine with a `(` under its operator stack.
pub open spec fn wrap(m: Machine) -> Machine {
    Machine { ops: seq!['('] + m.ops, ..m }
}

/// `s` between parentheses.
pub open spec fn parenthesized(s: Seq<char>) -> Seq<char> {
    seq!['('] + s + seq![')']
}

proof fn lemma_wrap_pop(m: Machine)
    requires
        m.ops.len() > 0,
    ensures
        pop_op(wrap(m)) == wrap(pop_op(m)),
        wrap(m).ops.last() == m.ops.last(),
{
    assert((seq!['('] + m.ops).drop_last() =~= seq!['('] + m.ops.drop_last());
}

proof fn lemma_wrap_push_op(m: Machine, c: char)
    requires
        m.ops.len() + 1 < OPS_CAP,
    ensures
        push_op(wrap(m), c) == wrap(push_op(m, c)),
{
    assert((seq!['('] + m.ops).push(c) =~= seq!['('] + m.ops.push(c));
}

proof fn lemma_wrap_reduce(m: Machine, t: int)
    ensures
        reduce(wrap(m), t) == wrap(reduce(m, t)),
        reduce(m, t).ops.len() <= m.ops.len(),
    decreases m.ops.len(),
{
    if m.err is None {
        if m.ops.len() == 0 {
            assert(wrap(m).ops.last() == '(');
        } else {
            lemma_wrap_pop(m);
            let top = m.ops.last();
            if top != '(' && prec_of(top) >= t {
                lemma_wrap_reduce(apply(pop_op(m), top), t);
            }
        }
    }
}

proof fn lemma_wrap_drain(m: Machine)
    requires
        drain(m).err is None,
    ensures
        reduce(wrap(m), 0) == wrap(drain(m)),
        drain(m).ops.len() == 0,
    decreases m.ops.len(),
{
    if m.ops.len() == 0 {
        assert(wrap(m).ops.last() == '(');
    } else {
        lemma_wrap_pop(m);
        let op = m.ops.last();
        lemma_wrap_drain(apply(pop_op(m), op));
    }
}

proof fn lemma_num_end_paren(s: Seq<char>, i: int)
    requires
        0 <= i <= s.len(),
    ensures
        num_end(parenthesized(s), i + 1) == num_end(s, i) + 1,
    decreases s.len() - i,
{
    let t = parenthesized(s);
    if i < s.len() {
        assert(t[i + 1] == s[i]);
        lemma_num_end_paren(s, i + 1);
    } else {
        assert(t[i + 1] == ')');
    }
}

proof fn lemma_alpha_end_paren(s: Seq<char>, i: int)
    requires
        0 <= i <= s.len(),
    ensures
        alpha_end(parenthesized(s), i + 1) == alpha_end(s, i) + 1,
    decreases s.len() - i,
{
    let t = parenthesized(s);
    if i < s.len() {
        assert(t[i + 1] == s[i]);
        lemma_alpha_end_paren(s, i + 1);
    } else {
        assert(t[i + 1] == ')');
    }
}

proof fn lemma_paren_subrange(s: Seq<char>, i: int, j: int)
    requires
        0 <= i <= j <= s.len(),
    ensures
        parenthesized(s).subrange(i + 1, j + 1) =~= s.subrange(i, j),
{
    let t = parenthesized(s);
    assert forall|k: int| 0 <= k < j - i implies t.subrange(i + 1, j + 1)[k] == s.subrange(i, j)[k] by {
        assert(t[i + 1 + k] == s[i + k]);
    }
}

#[verifier::rlimit(60)]
proof fn lemma_scan_paren(s: Seq<char>, i: int, m: Machine)
    requires
        0 <= i <= s.len(),
        s.len() <= 15,
        m.ops.len() <= 2 * i,
        scan(s, i, m).err is None,
    ensures
        scan(parenthesized(s), i + 1, wrap(m)) == set_prev(scan(s, i, m), true),
    decreases s.len() - i,
{
    let t = parenthesized(s);
    assert(m.err is None);
    if i >= s.len() {
        assert(t[i + 1] == ')');
        lemma_wrap_drain(m);
        let d = drain(m);
        assert(wrap(d).ops =~= seq!['(']);
        assert(pop_op(wrap(d)).ops =~= Seq::<char>::empty());
        assert(d.ops =~= Seq::<char>::empty());
        assert(pop_op(wrap(d)) == d);
        assert(wrap(d).ops.len() > 0 && wrap(d).ops.last() == '(');
        assert(reduce(wrap(m), 0) == wrap(d));
        assert(close_paren(wrap(m)) == set_prev(d, true));
        assert(t.len() == i + 2);
        assert(scan(t, i + 1, wrap(m)) == scan(t, i + 2, close_paren(wrap(m))));
        assert(scan(s, i, m) == finish(m));
        assert(d.depth == 1);
        assert(finish(m) == d);
        let dp = set_prev(d, true);
        assert(drain(dp) == dp);
        assert(finish(dp) == dp);
        assert(scan(t, i + 2, dp) == finish(dp));
    } else {
        let c = s[i];
        assert(t[i + 1] == c);
        if is_space(c) {
            lemma_scan_paren(s, i + 1, m);
        } else if is_num_char(c) {
            lemma_num_end(s, i);
            lemma_num_end_paren(s, i);
            let j = num_end(s, i);
            lemma_paren_subrange(s, i, j);
            let lit = s.subrange(i, j);
            if j - i <= LITERAL_BUF && valid_literal(lit) {
                let n = set_prev(push_value(m, StepView::Literal(lit)), true);
                assert(set_prev(push_value(wrap(m), StepView::Literal(lit)), true) == wrap(n));
                lemma_scan_paren(s, j, n);
            }
        } else if c == '(' {
            lemma_wrap_reduce(m, 2);
            let im = implicit_mul(m);
            if m.prev {
                lemma_wrap_push_op(reduce(m, 2), '*');
            }
            assert(implicit_mul(wrap(m)) == wrap(im));
            lemma_wrap_push_op(im, '(');
            let n = set_prev(push_op(im, '('), false);
            lemma_scan_paren(s, i + 1, n);
        } else if c == ')' {
            lemma_wrap_reduce(m, 0);
            let r = reduce(m, 0);
            let n = close_paren(m);
            if r.err is None && r.ops.len() > 0 && r.ops.last() == '(' {
                lemma_wrap_pop(r);
                assert(close_paren(wrap(m)) == wrap(n));
                lemma_scan_paren(s, i + 1, n);
            } else {
                assert(n.err is Some);
            }
        } else if is_alpha(c) {
            lemma_alpha_end(s, i);
            lemma_alpha_end_paren(s, i);
            let j = alpha_end(s, i);
            lemma_paren_subrange(s, i, j);
            if j - i <= NAME_BUF {
                if let Some(f) = function_named(s.subrange(i, j)) {
                    lemma_wrap_reduce(m, 2);
                    let im = implicit_mul(m);
                    if m.prev {
                        lemma_wrap_push_op(reduce(m, 2), '*');
                    }
                    assert(implicit_mul(wrap(m)) == wrap(im));
                    lemma_wrap_push_op(im, f);
                    let n = set_prev(push_op(im, f), false);
                    lemma_scan_paren(s, j, n);
                }
            }
        } else if c == '!' {
            lemma_wrap_reduce(m, 5);
            lemma_wrap_push_op(reduce(m, 5), '!');
            let n = set_prev(push_op(reduce(m, 5), '!'), true);
            lemma_scan_paren(s, i + 1, n);
        } else if is_binary_op(c) {
            let m1 = if c == '-' && !m.prev {
                push_value(m, StepView::Zero)
            } else {
                m
            };
            assert(wrap(m1) == if c == '-' && !m.prev {
                push_value(wrap(m), StepView::Zero)
            } else {
                wrap(m)
            });
            let tt: int = if c == '^' {
                4
            } else {
                prec_of(c) as int
            };
            lemma_wrap_reduce(m1, tt);
            lemma_wrap_push_op(reduce(m1, tt), c);
            assert(binary(wrap(m), c) == wrap(binary(m, c)));
            lemma_scan_paren(s, i + 1, binary(m, c));
        }
    }
}

/// Law: parentheses around an accepted expression of at most 15
/// characters change nothing: the same steps, still accepted. (Longer
/// expressions can fill the operator stack, which the `(` takes one more
/// place of.)
pub proof fn parentheses_keep_an_accepted_expression(e: Seq<char>)
    requires
        e.len() <= 15,
        compiled(e).err is None,
    ensures
        compiled(parenthesized(e)).err is None,
        compiled(parenthesized(e)).steps == compiled(e).steps,
{
    let t = parenthesized(e);
    assert(t[0] == '(');
    assert(Seq::<char>::empty().push('(') =~= wrap(initial()).ops);
    assert(seq!['('] + initial().ops =~= seq!['(']);
    assert(push_op(implicit_mul(initial()), '(') == wrap(initial()));
    lemma_scan_paren(e, 0, initial());
}

// ---------------------------------------------------------------------
// Which of two operators is applied first
// ---------------------------------------------------------------------

/// A number literal the compiler takes as one operand: digits and dots
/// only, a valid number, and short enough for the literal buffer.
pub open spec fn plain_literal(a: Seq<char>) -> bool {
    &&& 1 <= a.len() <= LITERAL_BUF
    &&& valid_literal(a)
    &&& forall|k: int| 0 <= k < a.len() ==> is_num_char(#[trigger] a[k])
}

/// In `a o1 b o2 c`, whether `o1` is applied before `o2`: always, except
/// when `o2` is `^` (which binds tightest and groups to the right) or when
/// `o1` is `+` or `-` and `o2` is `*` or `/`. So `*` and `/` bind alike and
/// tighter than `+` and `-`, and operators of one rank group to the left.
pub open spec fn left_applied_first(o1: char, o2: char) -> bool {
    !(o2 == '^' || ((o1 == '+' || o1 == '-') && (o2 == '*' || o2 == '/')))
}

/// `a o1 b o2 c` as text.
pub open spec fn two_operations(a: Seq<char>, o1: char, b: Seq<char>, o2: char, c: Seq<char>) -> Seq<char> {
    a + seq![o1] + b + seq![o2] + c
}

proof fn lemma_num_end_at(s: Seq<char>, i: int, j: int)
    requires
        0 <= i <= j <= s.len(),
        forall|k: int| i <= k < j ==> is_num_char(#[trigger] s[k]),
        j == s.len() || !is_num_char(s[j]),
    ensures
        num_end(s, i) == j,
    decreases j - i,
{
    if i < j {
        lemma_num_end_at(s, i + 1, j);
    }
}

/// A literal that stands at `i` is pushed as one value.
proof fn lemma_scan_literal(s: Seq<char>, i: int, a: Seq<char>, m: Machine)
    requires
        m.err is None,
        0 <= i,
        i + a.len() <= s.len(),
        s.subrange(i, i + a.len()) == a,
        plain_literal(a),
        i + a.len() == s.len() || !is_num_char(s[i + a.len()]),
    ensures
        scan(s, i, m) == scan(s, i + a.len(), set_prev(push_value(m, StepView::Literal(a)), true)),
{
    assert forall|k: int| i <= k < i + a.len() implies is_num_char(#[trigger] s[k]) by {
        assert(s[k] == s.subrange(i, i + a.len())[k - i]);
    }
    assert(s[i] == a[0]);
    lemma_num_end_at(s, i, i + a.len());
}

/// A binary operator that stands at `i`.
proof fn lemma_scan_operator(s: Seq<char>, i: int, m: Machine)
    requires
        m.err is None,
        0 <= i < s.len(),
        is_binary_op(s[i]),
    ensures
        scan(s, i, m) == scan(s, i + 1, binary(m, s[i])),
{
}

/// Law: in `a o1 b o2 c`, with number literals `a`, `b`, `c` and binary
/// operators `o1`, `o2`, the compiler accepts the text and applies `o1`
/// first exactly when `left_applied_first(o1, o2)`: `*` and `/` share one
/// rank above `+` and `-`, operators of one rank are applied left to
/// right, and `^` binds tightest and groups to the right.
pub proof fn operators_apply_by_rank(a: Seq<char>, o1: char, b: Seq<char>, o2: char, c: Seq<char>)
    requires
        plain_literal(a),
        plain_literal(b),
        plain_literal(c),
        is_binary_op(o1),
        is_binary_op(o2),
    ensures
        compiled(two_operations(a, o1, b, o2, c)).err is None,
        left_applied_first(o1, o2) ==> compiled(two_operations(a, o1, b, o2, c)).steps == seq![
            StepView::Literal(a),
            StepView::Literal(b),
            StepView::Apply(o1),
            StepView::Literal(c),
            StepView::Apply(o2),
        ],
        !left_applied_first(o1, o2) ==> compiled(two_operations(a, o1, b, o2, c)).steps == seq![
            StepView::Literal(a),
            StepView::Literal(b),
            StepView::Literal(c),
            StepView::Apply(o2),
            StepView::Apply(o1),
        ],
{
    let t = two_operations(a, o1, b, o2, c);
    let p1 = a.len() as int;
    let p2 = p1 + 1 + b.len();
    let p3 = p2 + 1;
    let n = p3 + c.len();
    assert(t.len() == n);
    assert(t.subrange(0, p1) =~= a);
    assert(t[p1] == o1);
    assert(t.subrange(p1 + 1, p2) =~= b);
    assert(t[p2] == o2);
    assert(t.subrange(p3, n) =~= c);
    let la = StepView::Literal(a);
    let lb = StepView::Literal(b);
    let lc = StepView::Literal(c);
    // a
    lemma_scan_literal(t, 0, a, initial());
    let m1 = Machine { ops: Seq::empty(), depth: 1, prev: true, steps: seq![la], err: None };
    assert(Seq::<StepView>::empty().push(la) =~= seq![la]);
    assert(set_prev(push_value(initial(), la), true) == m1);
    // o1
    lemma_scan_operator(t, p1, m1);
    let m2 = Machine { ops: seq![o1], depth: 1, prev: false, steps: seq![la], err: None };
    assert(Seq::<char>::empty().push(o1) =~= seq![o1]);
    assert(binary(m1, o1) == m2);
    // b
    lemma_scan_literal(t, p1 + 1, b, m2);
    let m3 = Machine { ops: seq![o1], depth: 2, prev: true, steps: seq![la, lb], err: None };
    assert(seq![la].push(lb) =~= seq![la, lb]);
    assert(set_prev(push_value(m2, lb), true) == m3);
    // o2
    lemma_scan_operator(t, p2, m3);
    let t2: int = if o2 == '^' { 4 } else { prec_of(o2) as int };
    let m3r = Machine { ops: Seq::empty(), depth: 1, prev: true, steps: seq![la, lb, StepView::Apply(o1)], err: None };
    assert(seq![o1].drop_last() =~= Seq::<char>::empty());
    assert(seq![la, lb].push(StepView::Apply(o1)) =~= seq![la, lb, StepView::Apply(o1)]);
    assert(apply(pop_op(m3), o1) == m3r);
    assert(reduce(m3r, t2) == m3r);
    if left_applied_first(o1, o2) {
        assert(reduce(m3, t2) == m3r);
        let m4 = Machine { ops: seq![o2], depth: 1, prev: false, steps: seq![la, lb, StepView::Apply(o1)], err: None };
        assert(Seq::<char>::empty().push(o2) =~= seq![o2]);
        assert(binary(m3, o2) == m4);
        lemma_scan_literal(t, p3, c, m4);
        let m5 = Machine { ops: seq![o2], depth: 2, prev: true, steps: seq![la, lb, StepView::Apply(o1), lc], err: None };
        assert(seq![la, lb, StepView::Apply(o1)].push(lc) =~= seq![la, lb, StepView::Apply(o1), lc]);
        assert(set_prev(push_value(m4, lc), true) == m5);
        let m6 = Machine { ops: Seq::empty(), depth: 1, prev: true, steps: seq![la, lb, StepView::Apply(o1), lc, StepView::Apply(o2)], err: None };
        assert(seq![o2].drop_last() =~= Seq::<char>::empty());
        assert(seq![la, lb, StepView::Apply(o1), lc].push(StepView::Apply(o2)) =~= m6.steps);
        assert(apply(pop_op(m5), o2) == m6);
        assert(drain(m6) == m6);
        assert(drain(m5) == m6);
        assert(scan(t, n, m5) == finish(m5));
    } else {
        assert(reduce(m3, t2) == m3);
        let m4 = Machine { ops: seq![o1, o2], depth: 2, prev: false, steps: seq![la, lb], err: None };
        assert(seq![o1].push(o2) =~= seq![o1, o2]);
        assert(binary(m3, o2) == m4);
        lemma_scan_literal(t, p3, c, m4);
        let m5 = Machine { ops: seq![o1, o2], depth: 3, prev: true, steps: seq![la, lb, lc], err: None };
        assert(seq![la, lb].push(lc) =~= seq![la, lb, lc]);
        assert(set_prev(push_value(m4, lc), true) == m5);
        let m6 = Machine { ops: seq![o1], depth: 2, prev: true, steps: seq![la, lb, lc, StepView::Apply(o2)], err: None };
        assert(seq![o1, o2].drop_last() =~= seq![o1]);
        assert(seq![la, lb, lc].push(StepView::Apply(o2)) =~= m6.steps);
        assert(apply(pop_op(m5), o2) == m6);
        let m7 = Machine { ops: Seq::empty(), depth: 1, prev: true, steps: seq![la, lb, lc, StepView::Apply(o2), StepView::Apply(o1)], err: None };
        assert(m6.steps.push(StepView::Apply(o1)) =~= m7.steps);
        assert(apply(pop_op(m6), o1) == m7);
        assert(drain(m7) == m7);
        assert(drain(m6) == m7);
        assert(drain(m5) == m7);
        assert(scan(t, n, m5) == finish(m5));
    }
}

/// Law: `!` applies to the operand right before it, before any binary
/// operator: `b o a!` computes `a!` first, then `o`.
pub proof fn factorial_binds_tightest(b: Seq<char>, o: char, a: Seq<char>)
    requires
        plain_literal(a),
        plain_literal(b),
        is_binary_op(o),
    ensures
        compiled(b + seq![o] + a + seq!['!']).err is None,
        compiled(b + seq![o] + a + seq!['!']).steps == seq![
            StepView::Literal(b),
            StepView::Literal(a),
            StepView::Apply('!'),
            StepView::Apply(o),
        ],
{
    let t = b + seq![o] + a + seq!['!'];
    let p1 = b.len() as int;
    let p2 = p1 + 1 + a.len();
    assert(t.len() == p2 + 1);
    assert(t.subrange(0, p1) =~= b);
    assert(t[p1] == o);
    assert(t.subrange(p1 + 1, p2) =~= a);
    assert(t[p2] == '!');
    let la = StepView::Literal(a);
    let lb = StepView::Literal(b);
    lemma_scan_literal(t, 0, b, initial());
    let m1 = Machine { ops: Seq::empty(), depth: 1, prev: true, steps: seq![lb], err: None };
    assert(Seq::<StepView>::empty().push(lb) =~= seq![lb]);
    assert(set_prev(push_value(initial(), lb), true) == m1);
    lemma_scan_operator(t, p1, m1);
    let m2 = Machine { ops: seq![o], depth: 1, prev: false, steps: seq![lb], err: None };
    assert(Seq::<char>::empty().push(o) =~= seq![o]);
    assert(binary(m1, o) == m2);
    lemma_scan_literal(t, p1 + 1, a, m2);
    let m3 = Machine { ops: seq![o], depth: 2, prev: true, steps: seq![lb, la], err: None };
    assert(seq![lb].push(la) =~= seq![lb, la]);
    assert(set_prev(push_value(m2, la), true) == m3);
    assert(reduce(m3, 5) == m3);
    let m4 = Machine { ops: seq![o, '!'], depth: 2, prev: true, steps: seq![lb, la], err: None };
    assert(seq![o].push('!') =~= seq![o, '!']);
    assert(scan(t, p2, m3) == scan(t, p2 + 1, m4));
    let m5 = Machine { ops: seq![o], depth: 2, prev: true, steps: seq![lb, la, StepView::Apply('!')], err: None };
    assert(seq![o, '!'].drop_last() =~= seq![o]);
    assert(seq![lb, la].push(StepView::Apply('!')) =~= m5.steps);
    assert(apply(pop_op(m4), '!') == m5);
    let m6 = Machine { ops: Seq::empty(), depth: 1, prev: true, steps: seq![lb, la, StepView::Apply('!'), StepView::Apply(o)], err: None };
    assert(seq![o].drop_last() =~= Seq::<char>::empty());
    assert(m5.steps.push(StepView::Apply(o)) =~= m6.steps);
    assert(apply(pop_op(m5), o) == m6);
    assert(drain(m6) == m6);
    assert(drain(m5) == m6);
    assert(drain(m4) == m6);
    assert(scan(t, p2 + 1, m4) == finish(m4));
}

/// Law: an operand followed by a parenthesis multiplies it: `a(b)`
/// computes `a * b`.
pub proof fn parenthesis_after_an_operand_multiplies(a: Seq<char>, b: Seq<char>)
    requires
        plain_literal(a),
        plain_literal(b),
    ensures
        compiled(a + seq!['('] + b + seq![')']).err is None,
        compiled(a + seq!['('] + b + seq![')']).steps == seq![
            StepView::Literal(a),
            StepView::Literal(b),
            StepView::Apply('*'),
        ],
{
    let t = a + seq!['('] + b + seq![')'];
    let p1 = a.len() as int;
    let p2 = p1 + 1 + b.len();
    assert(t.len() == p2 + 1);
    assert(t.subrange(0, p1) =~= a);
    assert(t[p1] == '(');
    assert(t.subrange(p1 + 1, p2) =~= b);
    assert(t[p2] == ')');
    let la = StepView::Literal(a);
    let lb = StepView::Literal(b);
    lemma_scan_literal(t, 0, a, initial());
    let m1 = Machine { ops: Seq::empty(), depth: 1, prev: true, steps: seq![la], err: None };
    assert(Seq::<StepView>::empty().push(la) =~= seq![la]);
    assert(set_prev(push_value(initial(), la), true) == m1);
    assert(reduce(m1, 2) == m1);
    let m2 = Machine { ops: seq!['*', '('], depth: 1, prev: false, steps: seq![la], err: None };
    assert(Seq::<char>::empty().push('*').push('(') =~= seq!['*', '(']);
    assert(scan(t, p1, m1) == scan(t, p1 + 1, m2));
    lemma_scan_literal(t, p1 + 1, b, m2);
    let m3 = Machine { ops: seq!['*', '('], depth: 2, prev: true, steps: seq![la, lb], err: None };
    assert(seq![la].push(lb) =~= seq![la, lb]);
    assert(set_prev(push_value(m2, lb), true) == m3);
    assert(reduce(m3, 0) == m3);
    let m4 = Machine { ops: seq!['*'], depth: 2, prev: true, steps: seq![la, lb], err: None };
    assert(seq!['*', '('].drop_last() =~= seq!['*']);
    assert(close_paren(m3) == m4);
    assert(scan(t, p2, m3) == scan(t, p2 + 1, m4));
    let m5 = Machine { ops: Seq::empty(), depth: 1, prev: true, steps: seq![la, lb, StepView::Apply('*')], err: None };
    assert(seq!['*'].drop_last() =~= Seq::<char>::empty());
    assert(seq![la, lb].push(StepView::Apply('*')) =~= m5.steps);
    assert(apply(pop_op(m4), '*') == m5);
    assert(drain(m5) == m5);
    assert(drain(m4) == m5);
    assert(scan(t, p2 + 1, m4) == finish(m4));
}

/// Law: a parenthesis without its partner is refused: `a)` and `(a`
/// report mismatched parentheses.
pub proof fn unmatched_parentheses_are_refused(a: Seq<char>)
    requires
        plain_literal(a),
    ensures
        compiled(a + seq![')']).err == Some(CalcError::MismatchParen),
        compiled(seq!['('] + a).err == Some(CalcError::MismatchParen),
{
    let la = StepView::Literal(a);
    let t = a + seq![')'];
    assert(t.subrange(0, a.len() as int) =~= a);
    assert(t[a.len() as int] == ')');
    lemma_scan_literal(t, 0, a, initial());
    let m1 = Machine { ops: Seq::empty(), depth: 1, prev: true, steps: seq![la], err: None };
    assert(Seq::<StepView>::empty().push(la) =~= seq![la]);
    assert(set_prev(push_value(initial(), la), true) == m1);
    assert(close_paren(m1) == fail(m1, CalcError::MismatchParen));
    assert(scan(t, a.len() as int, m1) == scan(t, (a.len() + 1) as int, close_paren(m1)));
    let u = seq!['('] + a;
    assert(u[0] == '(');
    assert(u.subrange(1, u.len() as int) =~= a);
    let m2 = Machine { ops: seq!['('], depth: 0, prev: false, steps: Seq::empty(), err: None };
    assert(Seq::<char>::empty().push('(') =~= seq!['(']);
    assert(scan(u, 0, initial()) == scan(u, 1, m2));
    lemma_scan_literal(u, 1, a, m2);
    let m3 = Machine { ops: seq!['('], depth: 1, prev: true, steps: seq![la], err: None };
    assert(set_prev(push_value(m2, la), true) == m3);
    assert(scan(u, u.len() as int, m3) == finish(m3));
}

/// Law: a run of digits and points that is not a number is refused: with
/// two points or more, or with no digit, it is a parse error; longer than
/// the literal buffer, it overflows.
pub proof fn malformed_numbers_are_refused(a: Seq<char>)
    requires
        a.len() >= 1,
        forall|k: int| 0 <= k < a.len() ==> is_num_char(#[trigger] a[k]),
    ensures
        a.len() > LITERAL_BUF ==> compiled(a).err == Some(CalcError::Overflow),
        (a.len() <= LITERAL_BUF && (dot_count(a) >= 2 || digit_count(a) == 0)) ==> compiled(a).err
            == Some(CalcError::Parse),
{
    lemma_num_end_at(a, 0, a.len() as int);
    assert(a.subrange(0, a.len() as int) =~= a);
}

/// Law: a character that no token starts with (not a digit, point,
/// letter, parenthesis, operator, `!` or white space) is refused right
/// after a number.
pub proof fn stray_characters_are_refused(a: Seq<char>, c: char)
    requires
        plain_literal(a),
        !is_space(c),
        !is_num_char(c),
        !is_alpha(c),
        !is_binary_op(c),
        c != '(' && c != ')' && c != '!',
    ensures
        compiled(a + seq![c]).err == Some(CalcError::BadChar),
{
    let la = StepView::Literal(a);
    let t = a + seq![c];
    assert(t.subrange(0, a.len() as int) =~= a);
    assert(t[a.len() as int] == c);
    lemma_scan_literal(t, 0, a, initial());
    let m1 = Machine { ops: Seq::empty(), depth: 1, prev: true, steps: seq![la], err: None };
    assert(Seq::<StepView>::empty().push(la) =~= seq![la]);
    assert(set_prev(push_value(initial(), la), true) == m1);
}

// ---------------------------------------------------------------------
// The executable compiler
// ---------------------------------------------------------------------

/// Whether a character is a decimal digit.
pub fn is_digit_char(c: char) -> (b: bool)
    ensures
        b == is_digit(c),
{
    c >= '0' && c <= '9'
}

/// Whether a character is ASCII white space.
pub fn is_space_char(c: char) -> (b: bool)
    ensures
        b == is_space(c),
{
    c == ' ' || c == '\t' || c == '\n' || c == '\x0C' || c == '\r'
}

/// Whether a character is an ASCII letter.
pub fn is_alpha_char(c: char) -> (b: bool)
    ensures
        b == is_alpha(c),
{
    (c >= 'a' && c <= 'z') || (c >= 'A' && c <= 'Z')
}

fn is_num_char_exec(c: char) -> (b: bool)
    ensures
        b == is_num_char(c),
{
    is_digit_char(c) || c == '.'
}

fn is_binary_op_exec(c: char) -> (b: bool)
    ensures
        b == is_binary_op(c),
{
    c == '+' || c == '-' || c == '*' || c == '/' || c == '^'
}

/// ASCII lower case of a character.
pub fn lower_char(c: char) -> (l: char)
    ensures
        l == lower(c),
{
    if c >= 'A' && c <= 'Z' {
        let b: u8 = (c as u8) + 32;
        b as char
    } else {
        c
    }
}

/// The characters of a text.
pub fn chars_of(text: &str) -> (v: Vec<char>)
    ensures
        v@ == text@,
{
    let n = text.unicode_len();
    let mut v: Vec<char> = Vec::new();
    let mut i: usize = 0;
    while i < n
        invariant
            n == text@.len(),
            i <= n,
            v@ == text@.take(i as int),
        decreases n - i,
    {
        let c = text.get_char(i);
        v.push(c);
        i = i + 1;
        assert(v@ =~= text@.take(i as int));
    }
    assert(v@ =~= text@);
    v
}

/// Read the number literal that starts at `i` into a literal buffer:
/// its end and the buffer, or `None` when the buffer overflows.
fn read_literal(s: &Vec<char>, i: usize) -> (r: Option<(usize, heapless::String<20>)>)
    requires
        i <= s.len(),
    ensures
        r matches Some((j, cur)) ==> j == num_end(s@, i as int) && j - i <= LITERAL_BUF
            && crate::bounded::literal_text(cur) == s@.subrange(i as int, j as int),
        r is None ==> num_end(s@, i as int) - i > LITERAL_BUF,
{
    let mut cur = crate::bounded::literal_new();
    let mut j = i;
    let mut full = false;
    while !full && j < s.len() && is_num_char_exec(s[j])
        invariant
            i <= j <= s.len(),
            j - i <= LITERAL_BUF,
            num_end(s@, i as int) == num_end(s@, j as int),
            crate::bounded::literal_text(cur) == s@.subrange(i as int, j as int),
            full ==> j < s.len() && is_num_char(s@[j as int]) && j - i == LITERAL_BUF,
        decreases s.len() - j + if full {
            0int
        } else {
            1int
        },
    {
        proof {
            assert forall|k: int| 0 <= k < j - i implies (#[trigger] s@.subrange(
                i as int,
                j as int,
            )[k] as u32) < 0x80 by {
                lemma_num_end(s@, i as int);
                lemma_num_end(s@, j as int);
                assert(is_num_char(s@[i + k]));
            }
            crate::bounded::lemma_byte_len_ascii(s@.subrange(i as int, j as int));
        }
        if crate::bounded::literal_push(&mut cur, s[j]) {
            j = j + 1;
            assert(crate::bounded::literal_text(cur) =~= s@.subrange(i as int, j as int));
        } else {
            full = true;
        }
    }
    if full {
        proof {
            lemma_num_end(s@, j as int);
        }
        None
    } else {
        Some((j, cur))
    }
}

/// Read the function name that starts at `i`, in lower case, through a
/// name buffer: its end and its characters, or `None` when the buffer
/// overflows.
fn read_name(s: &Vec<char>, i: usize) -> (r: Option<(usize, Vec<char>)>)
    requires
        i <= s.len(),
    ensures
        r matches Some((j, n)) ==> j == alpha_end(s@, i as int) && j - i <= NAME_BUF && n@
            == s@.subrange(i as int, j as int).map_values(|c: char| lower(c)),
        r is None ==> alpha_end(s@, i as int) - i > NAME_BUF,
{
    let mut name = crate::bounded::name_new();
    let mut j = i;
    let mut full = false;
    while !full && j < s.len() && is_alpha_char(s[j])
        invariant
            i <= j <= s.len(),
            j - i <= NAME_BUF,
            alpha_end(s@, i as int) == alpha_end(s@, j as int),
            crate::bounded::name_text(name) == s@.subrange(i as int, j as int).map_values(
                |c: char| lower(c),
            ),
            forall|k: int| i <= k < j ==> is_alpha(#[trigger] s@[k]),
            full ==> j < s.len() && is_alpha(s@[j as int]) && j - i == NAME_BUF,
        decreases s.len() - j + if full {
            0int
        } else {
            1int
        },
    {
        let ghost named = s@.subrange(i as int, j as int).map_values(|c: char| lower(c));
        proof {
            assert forall|k: int| 0 <= k < named.len() implies (#[trigger] named[k] as u32)
                < 0x80 by {
                assert(is_alpha(s@[i + k]));
            }
            crate::bounded::lemma_byte_len_ascii(named);
        }
        let l = lower_char(s[j]);
        if crate::bounded::name_push(&mut name, l) {
            j = j + 1;
            assert(crate::bounded::name_text(name) =~= s@.subrange(i as int, j as int).map_values(
                |c: char| lower(c),
            ));
        } else {
            full = true;
        }
    }
    if full {
        proof {
            lemma_alpha_end(s@, j as int);
        }
        None
    } else {
        let n = chars_of(crate::bounded::name_str(&name));
        Some((j, n))
    }
}

fn slice_of(s: &Vec<char>, i: usize, j: usize) -> (v: Vec<char>)
    requires
        i <= j <= s.len(),
    ensures
        v@ == s@.subrange(i as int, j as int),
{
    let mut v: Vec<char> = Vec::new();
    let mut k = i;
    while k < j
        invariant
            i <= k <= j <= s.len(),
            v@ == s@.subrange(i as int, k as int),
        decreases j - k,
    {
        v.push(s[k]);
        k = k + 1;
        assert(v@ =~= s@.subrange(i as int, k as int));
    }
    v
}

/// Whether a run of digits and dots is a decimal number.
pub fn is_valid_literal(lit: &Vec<char>) -> (b: bool)
    ensures
        b == valid_literal(lit@),
{
    let mut dots: usize = 0;
    let mut digits: usize = 0;
    let mut k: usize = 0;
    while k < lit.len()
        invariant
            k <= lit.len(),
            dots == dot_count(lit@.take(k as int)),
            digits == digit_count(lit@.take(k as int)),
            dots <= k,
            digits <= k,
        decreases lit.len() - k,
    {
        assert(lit@.take(k + 1).drop_last() =~= lit@.take(k as int));
        let c = lit[k];
        if c == '.' {
            dots = dots + 1;
        }
        if is_digit_char(c) {
            digits = digits + 1;
        }
        k = k + 1;
    }
    assert(lit@.take(k as int) =~= lit@);
    dots <= 1 && digits >= 1
}

/// The function a lower-case name stands for.
fn lookup_lowered(n: &Vec<char>) -> (r: Option<char>)
    ensures
        r == function_lowered(n@),
{
    let len = n.len();
    if len == 1 {
        let a = n[0];
        if a == 'r' || a == 'l' || a == 's' || a == 'c' || a == 't' || a == 'k' {
            assert(n@ =~= seq![a]);
            Some(a)
        } else {
            None
        }
    } else if len == 3 {
        let a = n[0];
        let b = n[1];
        let c = n[2];
        assert(n@ =~= seq![a, b, c]);
        if a == 'l' && b == 'o' && c == 'g' {
            Some('l')
        } else if a == 's' && b == 'i' && c == 'n' {
            Some('s')
        } else if a == 'c' && b == 'o' && c == 's' {
            Some('c')
        } else if a == 't' && b == 'a' && c == 'n' {
            Some('t')
        } else if a == 'c' && b == 'o' && c == 't' {
            Some('k')
        } else {
            None
        }
    } else if len == 4 {
        let a = n[0];
        let b = n[1];
        let c = n[2];
        let d = n[3];
        assert(n@ =~= seq![a, b, c, d]);
        if a == 's' && b == 'q' && c == 'r' && d == 't' {
            Some('r')
        } else {
            None
        }
    } else {
        None
    }
}

/// The executable state of the compiler.
struct Compiler {
    ops: heapless::Vec<char, 32>,
    depth: usize,
    prev: bool,
    steps: Vec<Step>,
}

/// The machine after an operation that returned `r`.
spec fn after(c: Compiler, r: Result<(), CalcError>) -> Machine {
    match r {
        Ok(_) => c.state(),
        Err(e) => fail(c.state(), e),
    }
}

impl Compiler {
    spec fn state(&self) -> Machine {
        Machine {
            ops: crate::bounded::stack_items(self.ops),
            depth: self.depth as nat,
            prev: self.prev,
            steps: steps_view(self.steps@),
            err: None,
        }
    }

    spec fn wf(&self) -> bool {
        self.depth <= STACK_CAP
    }

    fn new() -> (c: Compiler)
        ensures
            c.wf(),
            c.state() == initial(),
    {
        let c = Compiler {
            ops: crate::bounded::stack_new(),
            depth: 0,
            prev: false,
            steps: Vec::new(),
        };
        assert(c.state().steps =~= Seq::<StepView>::empty());
        c
    }

    fn push_op(&mut self, op: char) -> (r: Result<(), CalcError>)
        requires
            old(self).wf(),
        ensures
            final(self).wf(),
            after(*final(self), r) == push_op(old(self).state(), op),
    {
        if crate::bounded::stack_push(&mut self.ops, op) {
            Ok(())
        } else {
            Err(CalcError::Overflow)
        }
    }

    fn push_value(&mut self, st: Step) -> (r: Result<(), CalcError>)
        requires
            old(self).wf(),
        ensures
            final(self).wf(),
            after(*final(self), r) == push_value(old(self).state(), st@),
    {
        if self.depth >= STACK_CAP {
            return Err(CalcError::Overflow);
        }
        let ghost v = st@;
        self.depth = self.depth + 1;
        self.steps.push(st);
        assert(steps_view(self.steps@) =~= steps_view(old(self).steps@).push(v));
        Ok(())
    }

    fn apply(&mut self, op: char) -> (r: Result<(), CalcError>)
        requires
            old(self).wf(),
        ensures
            final(self).wf(),
            after(*final(self), r) == apply(old(self).state(), op),
    {
        let a: usize = if is_binary_op_exec(op) {
            2
        } else {
            1
        };
        if self.depth < a {
            return Err(CalcError::Syntax);
        }
        self.depth = self.depth - a + 1;
        self.steps.push(Step::Apply(op));
        assert(steps_view(self.steps@) =~= steps_view(old(self).steps@).push(StepView::Apply(op)));
        Ok(())
    }

    fn pop_op(&mut self) -> (op: Option<char>)
        requires
            old(self).wf(),
        ensures
            final(self).wf(),
            old(self).state().ops.len() == 0 ==> op is None && final(self).state() == old(
                self,
            ).state(),
            old(self).state().ops.len() > 0 ==> op == Some(old(self).state().ops.last())
                && final(self).state() == pop_op(old(self).state()),
    {
        crate::bounded::stack_pop(&mut self.ops)
    }

    /// The operator on top of the stack.
    fn top(&self) -> (op: Option<char>)
        ensures
            self.state().ops.len() == 0 ==> op is None,
            self.state().ops.len() > 0 ==> op == Some(self.state().ops.last()),
    {
        let sl = crate::bounded::stack_slice(&self.ops);
        let n = sl.len();
        if n == 0 {
            None
        } else {
            Some(sl[n - 1])
        }
    }

    fn reduce(&mut self, t: u8) -> (r: Result<(), CalcError>)
        requires
            old(self).wf(),
        ensures
            final(self).wf(),
            after(*final(self), r) == reduce(old(self).state(), t as int),
    {
        let ghost goal = reduce(self.state(), t as int);
        loop
            invariant
                self.wf(),
                goal == reduce(old(self).state(), t as int),
                goal == reduce(self.state(), t as int),
            decreases self.state().ops.len(),
        {
            let top = match self.top() {
                None => {
                    return Ok(());
                },
                Some(top) => top,
            };
            if top == '(' || precedence(top) < t {
                return Ok(());
            }
            self.pop_op();
            match self.apply(top) {
                Err(e) => {
                    assert(reduce(fail(self.state(), e), t as int) == fail(self.state(), e));
                    return Err(e);
                },
                Ok(()) => {},
            }
        }
    }

    fn implicit_mul(&mut self) -> (r: Result<(), CalcError>)
        requires
            old(self).wf(),
        ensures
            final(self).wf(),
            after(*final(self), r) == implicit_mul(old(self).state()),
    {
        if self.prev {
            match self.reduce(2) {
                Err(e) => {
                    return Err(e);
                },
                Ok(()) => {},
            }
            self.push_op('*')
        } else {
            Ok(())
        }
    }

    fn open_paren(&mut self) -> (r: Result<(), CalcError>)
        requires
            old(self).wf(),
        ensures
            final(self).wf(),
            after(*final(self), r) == set_prev(push_op(implicit_mul(old(self).state()), '('), false),
    {
        match self.implicit_mul() {
            Err(e) => {
                return Err(e);
            },
            Ok(()) => {},
        }
        match self.push_op('(') {
            Err(e) => {
                return Err(e);
            },
            Ok(()) => {},
        }
        self.prev = false;
        Ok(())
    }

    fn close_paren(&mut self) -> (r: Result<(), CalcError>)
        requires
            old(self).wf(),
        ensures
            final(self).wf(),
            after(*final(self), r) == close_paren(old(self).state()),
    {
        match self.reduce(0) {
            Err(e) => {
                return Err(e);
            },
            Ok(()) => {},
        }
        if self.top() == Some('(') {
            self.pop_op();
            self.prev = true;
            Ok(())
        } else {
            Err(CalcError::MismatchParen)
        }
    }

    fn function(&mut self, f: char) -> (r: Result<(), CalcError>)
        requires
            old(self).wf(),
        ensures
            final(self).wf(),
            after(*final(self), r) == set_prev(push_op(implicit_mul(old(self).state()), f), false),
    {
        match self.implicit_mul() {
            Err(e) => {
                return Err(e);
            },
            Ok(()) => {},
        }
        match self.push_op(f) {
            Err(e) => {
                return Err(e);
            },
            Ok(()) => {},
        }
        self.prev = false;
        Ok(())
    }

    fn bang(&mut self) -> (r: Result<(), CalcError>)
        requires
            old(self).wf(),
        ensures
            final(self).wf(),
            after(*final(self), r) == set_prev(push_op(reduce(old(self).state(), 5), '!'), true),
    {
        match self.reduce(5) {
            Err(e) => {
                return Err(e);
            },
            Ok(()) => {},
        }
        match self.push_op('!') {
            Err(e) => {
                return Err(e);
            },
            Ok(()) => {},
        }
        self.prev = true;
        Ok(())
    }

    fn binary(&mut self, c: char) -> (r: Result<(), CalcError>)
        requires
            old(self).wf(),
        ensures
            final(self).wf(),
            after(*final(self), r) == binary(old(self).state(), c),
    {
        if c == '-' && !self.prev {
            match self.push_value(Step::Zero) {
                Err(e) => {
                    return Err(e);
                },
                Ok(()) => {},
            }
        }
        let t: u8 = if c == '^' {
            4
        } else {
            precedence(c)
        };
        match self.reduce(t) {
            Err(e) => {
                return Err(e);
            },
            Ok(()) => {},
        }
        match self.push_op(c) {
            Err(e) => {
                return Err(e);
            },
            Ok(()) => {},
        }
        self.prev = false;
        Ok(())
    }

    fn literal(&mut self, lit: heapless::String<20>) -> (r: Result<(), CalcError>)
        requires
            old(self).wf(),
        ensures
            final(self).wf(),
            after(*final(self), r) == set_prev(
                push_value(old(self).state(), StepView::Literal(crate::bounded::literal_text(lit))),
                true,
            ),
    {
        match self.push_value(Step::Literal(lit)) {
            Err(e) => {
                return Err(e);
            },
            Ok(()) => {},
        }
        self.prev = true;
        Ok(())
    }

    fn drain(&mut self) -> (r: Result<(), CalcError>)
        requires
            old(self).wf(),
        ensures
            final(self).wf(),
            after(*final(self), r) == drain(old(self).state()),
    {
        let ghost goal = drain(self.state());
        loop
            invariant
                self.wf(),
                goal == drain(old(self).state()),
                goal == drain(self.state()),
            decreases self.state().ops.len(),
        {
            let op = match self.pop_op() {
                None => {
                    return Ok(());
                },
                Some(op) => op,
            };
            if op == '(' || op == ')' {
                return Err(CalcError::MismatchParen);
            }
            match self.apply(op) {
                Err(e) => {
                    assert(drain(fail(self.state(), e)) == fail(self.state(), e));
                    return Err(e);
                },
                Ok(()) => {},
            }
        }
    }

    fn finish(&mut self) -> (r: Result<(), CalcError>)
        requires
            old(self).wf(),
        ensures
            final(self).wf(),
            after(*final(self), r) == finish(old(self).state()),
    {
        match self.drain() {
            Err(e) => {
                return Err(e);
            },
            Ok(()) => {},
        }
        if self.depth == 1 {
            Ok(())
        } else {
            Err(CalcError::Syntax)
        }
    }
}

/// Compile an expression into the steps that evaluate it.
///
/// The result is exactly what the machine `compiled` describes: the steps
/// that the evaluator performs, in order, and the verdict after them.
pub fn compile(expr: &str) -> (p: Program)
    ensures
        steps_view(p.steps@) == compiled(expr@).steps,
        p.outcome == verdict(compiled(expr@)),
{
    let s = chars_of(expr);
    let mut c = Compiler::new();
    let mut i: usize = 0;
    while i < s.len()
        invariant
            s@ == expr@,
            i <= s.len(),
            c.wf(),
            compiled(s@) == scan(s@, i as int, c.state()),
        decreases s.len() - i,
    {
        let ch = s[i];
        let ghost m = c.state();
        let ghost i0 = i as int;
        let r: Result<(), CalcError>;
        if is_space_char(ch) {
            i = i + 1;
            r = Ok(());
        } else if is_num_char_exec(ch) {
            proof {
                lemma_num_end(s@, i as int);
            }
            match read_literal(&s, i) {
                None => {
                    r = Err(CalcError::Overflow);
                    i = i + 1;
                },
                Some((j, cur)) => {
                    let lit = slice_of(&s, i, j);
                    if !is_valid_literal(&lit) {
                        r = Err(CalcError::Parse);
                    } else {
                        r = c.literal(cur);
                    }
                    i = j;
                },
            }
        } else if ch == '(' {
            r = c.open_paren();
            i = i + 1;
        } else if ch == ')' {
            r = c.close_paren();
            i = i + 1;
        } else if is_alpha_char(ch) {
            proof {
                lemma_alpha_end(s@, i as int);
            }
            match read_name(&s, i) {
                None => {
                    r = Err(CalcError::Overflow);
                    i = i + 1;
                },
                Some((j, n)) => {
                    match lookup_lowered(&n) {
                        None => {
                            r = Err(CalcError::BadFunc);
                        },
                        Some(f) => {
                            r = c.function(f);
                        },
                    }
                    i = j;
                },
            }
        } else if ch == '!' {
            r = c.bang();
            i = i + 1;
        } else if is_binary_op_exec(ch) {
            r = c.binary(ch);
            i = i + 1;
        } else {
            r = Err(CalcError::BadChar);
            i = i + 1;
        }
        assert(scan(s@, i0, m) == scan(s@, i as int, after(c, r)));
        match r {
            Err(e) => {
                return Program { steps: c.steps, outcome: Err(e) };
            },
            Ok(()) => {},
        }
    }
    let ghost m = c.state();
    assert(scan(s@, i as int, m) == finish(m));
    let r = c.finish();
    assert(compiled(s@) == after(c, r));
    assert(verdict(after(c, r)) == r) by {
        match r {
            Ok(u) => {
                assert(u == ());
            },
            Err(e) => {},
        }
    }
    Program { steps: c.steps, outcome: r }
}

} // verus!
