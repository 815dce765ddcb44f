//! What a key does to the entry line.
//!
//! The line is a `heapless::String` of `LINE_CAP` bytes; `fresh` says that
//! the line shows a finished result (or an error), so that the next key
//! that starts a number or a parenthesis starts a new expression.
//!
//! The two keys that need floating point get its result from the caller:
//! `a` (insert the last answer) gets the answer already formatted, and `#`
//! (evaluate) gets the outcome of evaluating the line, with the value
//! already formatted.
use vstd::prelude::*;
use vstd::string::*;
use crate::error::CalcError;
use crate::compile::{chars_of, is_digit, is_digit_char};
use crate::bounded::{LINE_CAP, char_width_of, line_str, line_clear, line_pop, line_push};

verus! {

/// Push a character if its bytes fit in the line.
pub open spec fn push_c(t: Seq<char>, c: char) -> Seq<char> {
    if crate::bounded::byte_len(t) + crate::bounded::char_width(c) <= LINE_CAP {
        t.push(c)
    } else {
        t
    }
}

/// A character after which an operand starts a product.
pub open spec fn ends_operand(c: char) -> bool {
    is_digit(c) || c == ')' || c == '.' || c == '!'
}

/// When the text ends in an operand, a `*` so that what follows makes a
/// product with it.
pub open spec fn mul_before(t: Seq<char>) -> Seq<char> {
    if t.len() > 0 && ends_operand(t.last()) {
        push_c(t, '*')
    } else {
        t
    }
}

/// Clear the line when it shows a finished result.
pub open spec fn clear_if(t: Seq<char>, fresh: bool) -> Seq<char> {
    if fresh {
        Seq::empty()
    } else {
        t
    }
}

/// Number of digits at the end of a text.
pub open spec fn trailing_digits(t: Seq<char>) -> nat
    decreases t.len(),
{
    if t.len() > 0 && is_digit(t.last()) {
        1 + trailing_digits(t.drop_last())
    } else {
        0
    }
}

/// The text ends inside the fractional part of a number: the digits at its
/// end follow a `.`.
pub open spec fn in_fraction(t: Seq<char>) -> bool {
    let d = trailing_digits(t);
    d < t.len() && t[t.len() - 1 - d] == '.'
}

/// The number at the end of the text is a single `0`.
pub open spec fn lone_zero(t: Seq<char>) -> bool {
    &&& t.len() > 0
    &&& t.last() == '0'
    &&& (t.len() == 1 || !(is_digit(t[t.len() - 2]) || t[t.len() - 2] == '.'))
}

/// Keys `A`..`D` of the operator column stand for `+ - * /`.
pub open spec fn op_key(c: char) -> char {
    if c == 'A' {
        '+'
    } else if c == 'B' {
        '-'
    } else if c == 'C' {
        '*'
    } else if c == 'D' {
        '/'
    } else {
        c
    }
}

/// Push at most `remaining` characters of `a`, each one only if it fits.
pub open spec fn append_limited(t: Seq<char>, a: Seq<char>, remaining: int) -> Seq<char>
    decreases a.len(),
{
    if a.len() == 0 || remaining <= 0 {
        t
    } else {
        append_limited(push_c(t, a[0]), a.drop_first(), remaining - 1)
    }
}

/// `=` and the formatted result, when both fit in `RESULT_BUF` bytes;
/// otherwise `=` alone.
pub open spec fn result_suffix(res: Seq<char>) -> Seq<char> {
    if 1 + crate::bounded::byte_len(res) <= crate::bounded::RESULT_BUF {
        seq!['='] + res
    } else {
        seq!['=']
    }
}

/// Start of the last `keep` bytes of `t`, walking back from position
/// `idx` with `acc` bytes already taken; `None` when no character starts
/// exactly there.
pub open spec fn cut_from_end(t: Seq<char>, idx: int, acc: nat, keep: nat) -> Option<int>
    decreases idx,
{
    if acc >= keep {
        if acc == keep {
            Some(idx)
        } else {
            None
        }
    } else if idx <= 0 {
        None
    } else {
        cut_from_end(t, idx - 1, acc + crate::bounded::char_width(t[idx - 1]), keep)
    }
}

/// The result suffix does not fit after the line.
pub open spec fn result_overflows(t: Seq<char>, res: Seq<char>) -> bool {
    crate::bounded::byte_len(t) + crate::bounded::byte_len(result_suffix(res)) > LINE_CAP
}

/// Where the line is cut to make room for the result suffix.
pub open spec fn result_cut(t: Seq<char>, res: Seq<char>) -> Option<int> {
    cut_from_end(t, t.len() as int, 0, (LINE_CAP - crate::bounded::byte_len(result_suffix(res))) as nat)
}

/// The line after a successful evaluation: the result suffix appended,
/// after dropping as many bytes from the front as it needs.
pub open spec fn show_result(t: Seq<char>, res: Seq<char>) -> Seq<char> {
    let tmp = result_suffix(res);
    if !result_overflows(t, res) {
        t + tmp
    } else {
        match result_cut(t, res) {
            Some(i) => t.subrange(i, t.len() as int) + tmp,
            None => tmp,
        }
    }
}

/// What the line shows after a failed evaluation.
pub open spec fn error_text() -> Seq<char> {
    seq!['E', 'R', 'R']
}

pub open spec fn opt_text(a: Option<&str>) -> Option<Seq<char>> {
    match a {
        Some(s) => Some(s@),
        None => None,
    }
}

pub open spec fn opt_outcome(o: Option<Result<&str, CalcError>>) -> Option<Result<Seq<char>, CalcError>> {
    match o {
        Some(Ok(s)) => Some(Ok(s@)),
        Some(Err(e)) => Some(Err(e)),
        None => None,
    }
}

/// Backspace: clears a finished result, otherwise deletes one character.
pub open spec fn on_backspace(t: Seq<char>, fresh: bool) -> (Seq<char>, bool) {
    if fresh {
        (Seq::empty(), false)
    } else if t.len() > 0 {
        (t.drop_last(), fresh)
    } else {
        (t, fresh)
    }
}

/// `(`: a product with what precedes, when that is an operand.
pub open spec fn on_open(t: Seq<char>, fresh: bool) -> (Seq<char>, bool) {
    (push_c(mul_before(clear_if(t, fresh)), '('), false)
}

/// `)`.
pub open spec fn on_close(t: Seq<char>, fresh: bool) -> (Seq<char>, bool) {
    (push_c(clear_if(t, fresh), ')'), false)
}

/// `.`: starts `0.` on a finished result; otherwise starts the fraction of
/// the number being typed (with a `0` if it has no digit yet), unless it
/// already has one or the line is full.
pub open spec fn on_dot(t: Seq<char>, fresh: bool) -> (Seq<char>, bool) {
    if fresh {
        (push_c(push_c(Seq::empty(), '0'), '.'), false)
    } else if !in_fraction(t) && crate::bounded::byte_len(t) < LINE_CAP {
        let t1 = if t.len() == 0 || !is_digit(t.last()) {
            push_c(t, '0')
        } else {
            t
        };
        (push_c(t1, '.'), fresh)
    } else {
        (t, fresh)
    }
}

/// A digit: after `)` it starts a product; it replaces a lone `0`.
pub open spec fn on_digit(t: Seq<char>, fresh: bool, k: char) -> (Seq<char>, bool) {
    let t1 = clear_if(t, fresh);
    let t2 = if t1.len() > 0 && t1.last() == ')' {
        push_c(t1, '*')
    } else {
        t1
    };
    if lone_zero(t2) {
        (push_c(t2.drop_last(), k), false)
    } else {
        (push_c(t2, k), false)
    }
}

/// `a`: inserts the last answer (as a product with a preceding operand),
/// at most as many characters as there are free bytes.
pub open spec fn on_answer(t: Seq<char>, fresh: bool, answer: Option<Seq<char>>) -> (Seq<char>, bool) {
    let t1 = clear_if(t, fresh);
    match answer {
        None => (t1, false),
        Some(a) => {
            let t2 = mul_before(t1);
            (append_limited(t2, a, LINE_CAP - crate::bounded::byte_len(t2)), false)
        },
    }
}

/// A function key: as a product with a preceding operand; it never
/// clears a finished result, it continues it.
pub open spec fn on_function(t: Seq<char>, k: char) -> (Seq<char>, bool) {
    (push_c(mul_before(t), k), false)
}

/// `!`: only after a digit or `)`.
pub open spec fn on_bang(t: Seq<char>) -> (Seq<char>, bool) {
    if t.len() > 0 && (is_digit(t.last()) || t.last() == ')') {
        (push_c(t, '!'), false)
    } else {
        (t, false)
    }
}

/// `#`: shows the result of the evaluation, or `ERR`.
pub open spec fn on_evaluate(
    t: Seq<char>,
    fresh: bool,
    outcome: Option<Result<Seq<char>, CalcError>>,
) -> (Seq<char>, bool) {
    if t.len() == 0 {
        (t, fresh)
    } else {
        match outcome {
            Some(Ok(res)) => (show_result(t, res), true),
            Some(Err(_)) => (error_text(), true),
            None => (t, fresh),
        }
    }
}

/// An operator key: on an empty line only `-` is taken (as `0-`);
/// otherwise only after a digit, `)` or `!`.
pub open spec fn on_operator(t: Seq<char>, fresh: bool, k: char) -> (Seq<char>, bool) {
    let ch = op_key(k);
    if t.len() == 0 {
        if ch == '-' {
            (push_c(push_c(t, '0'), '-'), fresh)
        } else {
            (t, fresh)
        }
    } else if is_digit(t.last()) || t.last() == ')' || t.last() == '!' {
        (push_c(t, ch), false)
    } else {
        (t, false)
    }
}

pub open spec fn is_function_key(k: char) -> bool {
    k == 'r' || k == 's' || k == 'c' || k == 't' || k == 'k' || k == 'l'
}

pub open spec fn is_operator_key(k: char) -> bool {
    k == '^' || k == 'A' || k == 'B' || k == 'C' || k == 'D' || k == '+' || k == '-' || k == '/'
}

/// The line and the `fresh` flag after the key `k`.
pub open spec fn key_effect(
    k: char,
    t: Seq<char>,
    fresh: bool,
    answer: Option<Seq<char>>,
    outcome: Option<Result<Seq<char>, CalcError>>,
) -> (Seq<char>, bool) {
    if k == 'b' {
        on_backspace(t, fresh)
    } else if k == '(' {
        on_open(t, fresh)
    } else if k == ')' {
        on_close(t, fresh)
    } else if k == '.' {
        on_dot(t, fresh)
    } else if is_digit(k) {
        on_digit(t, fresh, k)
    } else if k == 'a' {
        on_answer(t, fresh, answer)
    } else if is_function_key(k) {
        on_function(t, k)
    } else if k == '!' {
        on_bang(t)
    } else if k == '*' {
        (Seq::empty(), true)
    } else if k == '#' {
        on_evaluate(t, fresh, outcome)
    } else if is_operator_key(k) {
        on_operator(t, fresh, k)
    } else {
        (t, fresh)
    }
}


/// What `#` needs from the caller: the outcome of evaluating a non-empty
/// line, and (when the result must push text out of the line) a line that
/// can be cut at a character boundary before its last bytes.
pub open spec fn evaluation_ready(
    k: char,
    t: Seq<char>,
    outcome: Option<Result<Seq<char>, CalcError>>,
) -> bool {
    k == '#' && t.len() > 0 ==> {
        &&& outcome is Some
        &&& (outcome matches Some(Ok(r)) ==> (result_overflows(t, r) ==> result_cut(t, r) is Some))
    }
}

// ---------------------------------------------------------------------
// Executable key handling
// ---------------------------------------------------------------------

/// Keys `A`..`D` of the operator column stand for `+ - * /`.
pub fn map_ad(c: char) -> (r: char)
    ensures
        r == op_key(c),
{
    if c == 'A' {
        '+'
    } else if c == 'B' {
        '-'
    } else if c == 'C' {
        '*'
    } else if c == 'D' {
        '/'
    } else {
        c
    }
}

fn text_of(expr: &heapless::String<64>) -> (v: Vec<char>)
    ensures
        v@ == crate::bounded::line_text(*expr),
        crate::bounded::byte_len(v@) <= LINE_CAP,
{
    chars_of(line_str(expr))
}

/// The UTF-8 bytes of a text that fits in the line.
fn bytes_of(v: &Vec<char>) -> (n: usize)
    requires
        crate::bounded::byte_len(v@) <= LINE_CAP,
    ensures
        n == crate::bounded::byte_len(v@),
{
    let mut acc: usize = 0;
    let mut k: usize = 0;
    while k < v.len()
        invariant
            k <= v.len(),
            acc == crate::bounded::byte_len(v@.take(k as int)),
            crate::bounded::byte_len(v@) <= LINE_CAP,
        decreases v.len() - k,
    {
        assert(v@.take(k + 1).drop_last() =~= v@.take(k as int));
        proof {
            crate::bounded::lemma_byte_len_prefix(v@, k + 1);
        }
        acc = acc + char_width_of(v[k]);
        k = k + 1;
    }
    assert(v@.take(k as int) =~= v@);
    acc
}

fn push_char(expr: &mut heapless::String<64>, c: char)
    ensures
        crate::bounded::line_text(*final(expr)) == push_c(crate::bounded::line_text(*old(expr)), c),
{
    line_push(expr, c);
}

fn ends_operand_char(c: char) -> (b: bool)
    ensures
        b == ends_operand(c),
{
    is_digit_char(c) || c == ')' || c == '.' || c == '!'
}

fn last_of(v: &Vec<char>) -> (r: Option<char>)
    ensures
        v@.len() == 0 ==> r is None,
        v@.len() > 0 ==> r == Some(v@.last()),
{
    if v.len() == 0 {
        None
    } else {
        Some(v[v.len() - 1])
    }
}

fn mul_before_exec(expr: &mut heapless::String<64>)
    ensures
        crate::bounded::line_text(*final(expr)) == mul_before(crate::bounded::line_text(*old(expr))),
{
    let v = text_of(expr);
    match last_of(&v) {
        Some(c) => {
            if ends_operand_char(c) {
                push_char(expr, '*');
            }
        },
        None => {},
    }
}

fn clear_if_fresh(expr: &mut heapless::String<64>, fresh: &mut bool)
    ensures
        crate::bounded::line_text(*final(expr)) == clear_if(crate::bounded::line_text(*old(expr)), *old(fresh)),
        !*final(fresh),
{
    if *fresh {
        line_clear(expr);
        *fresh = false;
    }
}

fn backspace(expr: &mut heapless::String<64>, fresh: &mut bool)
    ensures
        (crate::bounded::line_text(*final(expr)), *final(fresh)) == on_backspace(
            crate::bounded::line_text(*old(expr)),
            *old(fresh),
        ),
{
    if *fresh {
        line_clear(expr);
        *fresh = false;
    } else {
        line_pop(expr);
    }
}

fn open_paren(expr: &mut heapless::String<64>, fresh: &mut bool)
    ensures
        (crate::bounded::line_text(*final(expr)), *final(fresh)) == on_open(
            crate::bounded::line_text(*old(expr)),
            *old(fresh),
        ),
{
    clear_if_fresh(expr, fresh);
    mul_before_exec(expr);
    push_char(expr, '(');
}

fn close_paren(expr: &mut heapless::String<64>, fresh: &mut bool)
    ensures
        (crate::bounded::line_text(*final(expr)), *final(fresh)) == on_close(
            crate::bounded::line_text(*old(expr)),
            *old(fresh),
        ),
{
    clear_if_fresh(expr, fresh);
    push_char(expr, ')');
}

/// Whether the text ends inside the fractional part of a number.
fn ends_in_fraction(v: &Vec<char>) -> (b: bool)
    ensures
        b == in_fraction(v@),
{
    let mut i = v.len();
    assert(v@.take(i as int) =~= v@);
    while i > 0
        invariant
            i <= v.len(),
            trailing_digits(v@) == (v.len() - i) + trailing_digits(v@.take(i as int)),
        decreases i,
    {
        let ch = v[i - 1];
        assert(v@.take(i as int).drop_last() =~= v@.take(i - 1));
        if ch == '.' {
            return true;
        }
        if !is_digit_char(ch) {
            return false;
        }
        i = i - 1;
    }
    false
}

fn dot(expr: &mut heapless::String<64>, fresh: &mut bool)
    ensures
        (crate::bounded::line_text(*final(expr)), *final(fresh)) == on_dot(
            crate::bounded::line_text(*old(expr)),
            *old(fresh),
        ),
{
    if *fresh {
        line_clear(expr);
        *fresh = false;
        push_char(expr, '0');
        push_char(expr, '.');
    } else {
        let v = text_of(expr);
        if !ends_in_fraction(&v) && bytes_of(&v) < LINE_CAP {
            let starts = match last_of(&v) {
                Some(c) => !is_digit_char(c),
                None => true,
            };
            if starts {
                push_char(expr, '0');
            }
            push_char(expr, '.');
        }
    }
}

fn digit_key(expr: &mut heapless::String<64>, fresh: &mut bool, k: char)
    ensures
        (crate::bounded::line_text(*final(expr)), *final(fresh)) == on_digit(
            crate::bounded::line_text(*old(expr)),
            *old(fresh),
            k,
        ),
{
    clear_if_fresh(expr, fresh);
    let v = text_of(expr);
    if v.len() > 0 && v[v.len() - 1] == ')' {
        push_char(expr, '*');
    }
    let w = text_of(expr);
    let n = w.len();
    let lone = n > 0 && w[n - 1] == '0' && (n == 1 || !(is_digit_char(w[n - 2]) || w[n - 2]
        == '.'));
    if lone {
        line_pop(expr);
    }
    push_char(expr, k);
}

fn answer_key(expr: &mut heapless::String<64>, fresh: &mut bool, answer: Option<&str>)
    ensures
        (crate::bounded::line_text(*final(expr)), *final(fresh)) == on_answer(
            crate::bounded::line_text(*old(expr)),
            *old(fresh),
            opt_text(answer),
        ),
{
    clear_if_fresh(expr, fresh);
    match answer {
        None => {
            assert(opt_text(answer) is None);
        },
        Some(a) => {
            mul_before_exec(expr);
            let v = text_of(expr);
            let ghost t2 = v@;
            let mut remaining: usize = LINE_CAP - bytes_of(&v);
            let chars = chars_of(a);
            let ghost r0 = remaining as int;
            let mut k: usize = 0;
            assert(chars@.skip(0) =~= chars@);
            while k < chars.len()
                invariant
                    k <= chars.len(),
                    chars@ == a@,
                    append_limited(t2, a@, r0) == append_limited(
                        crate::bounded::line_text(*expr),
                        chars@.skip(k as int),
                        remaining as int,
                    ),
                ensures
                    append_limited(t2, a@, r0) == crate::bounded::line_text(*expr),
                decreases chars.len() - k,
            {
                if remaining == 0 {
                    break;
                }
                assert(chars@.skip(k as int).drop_first() =~= chars@.skip(k + 1));
                push_char(expr, chars[k]);
                remaining = remaining - 1;
                k = k + 1;
            }
        },
    }
}

fn function_key(expr: &mut heapless::String<64>, fresh: &mut bool, k: char)
    ensures
        (crate::bounded::line_text(*final(expr)), *final(fresh)) == on_function(
            crate::bounded::line_text(*old(expr)),
            k,
        ),
{
    *fresh = false;
    mul_before_exec(expr);
    push_char(expr, k);
}

fn bang(expr: &mut heapless::String<64>, fresh: &mut bool)
    ensures
        (crate::bounded::line_text(*final(expr)), *final(fresh)) == on_bang(
            crate::bounded::line_text(*old(expr)),
        ),
{
    let v = text_of(expr);
    match last_of(&v) {
        Some(c) => {
            if is_digit_char(c) || c == ')' {
                push_char(expr, '!');
            }
        },
        None => {},
    }
    *fresh = false;
}

fn operator_key(expr: &mut heapless::String<64>, fresh: &mut bool, k: char)
    ensures
        (crate::bounded::line_text(*final(expr)), *final(fresh)) == on_operator(
            crate::bounded::line_text(*old(expr)),
            *old(fresh),
            k,
        ),
{
    let ch = map_ad(k);
    let v = text_of(expr);
    match last_of(&v) {
        None => {
            if ch == '-' {
                push_char(expr, '0');
                push_char(expr, '-');
            }
        },
        Some(c) => {
            if is_digit_char(c) || c == ')' || c == '!' {
                push_char(expr, ch);
            }
            *fresh = false;
        },
    }
}

proof fn lemma_byte_len_prepend(c: char, s: Seq<char>)
    ensures
        crate::bounded::byte_len(seq![c] + s) == crate::bounded::char_width(c) + crate::bounded::byte_len(s),
{
    crate::bounded::lemma_byte_len_concat(seq![c], s);
    assert(seq![c].drop_last() =~= Seq::<char>::empty());
    assert(crate::bounded::byte_len(Seq::<char>::empty()) == 0);
    assert(crate::bounded::byte_len(seq![c]) == crate::bounded::byte_len(seq![c].drop_last())
        + crate::bounded::char_width(seq![c].last()));
}

/// Where `v` is cut to keep its last `keep` bytes, if a character starts
/// there.
fn cut_point(v: &Vec<char>, keep: usize) -> (r: Option<usize>)
    requires
        keep <= LINE_CAP,
    ensures
        r matches Some(i) ==> cut_from_end(v@, v@.len() as int, 0, keep as nat) == Some(i as int),
        r is None ==> cut_from_end(v@, v@.len() as int, 0, keep as nat) is None,
{
    let mut idx: usize = v.len();
    let mut acc: usize = 0;
    while acc < keep && idx > 0
        invariant
            idx <= v.len(),
            acc <= keep + 4,
            keep <= LINE_CAP,
            cut_from_end(v@, v@.len() as int, 0, keep as nat) == cut_from_end(
                v@,
                idx as int,
                acc as nat,
                keep as nat,
            ),
        decreases idx,
    {
        let w = char_width_of(v[idx - 1]);
        acc = acc + w;
        idx = idx - 1;
    }
    if acc == keep {
        Some(idx)
    } else {
        None
    }
}

/// The text that shows a result: `=` in a result buffer, then the
/// formatted value if its bytes fit after it (it is pushed whole or not at
/// all).
fn result_buffer(res: &str) -> (t: heapless::String<24>)
    ensures
        crate::bounded::result_text(t) == result_suffix(res@),
{
    let mut t = crate::bounded::result_new();
    let ok = crate::bounded::result_push(&mut t, '=');
    proof {
        crate::bounded::lemma_byte_len_push(Seq::<char>::empty(), '=');
        assert(Seq::<char>::empty().push('=') =~= seq!['=']);
    }
    assert(ok);
    crate::bounded::result_push_str(&mut t, res);
    t
}

/// Show a successful result on a non-empty line.
fn show_result_exec(expr: &mut heapless::String<64>, res: &str)
    requires
        result_overflows(crate::bounded::line_text(*old(expr)), res@) ==> result_cut(
            crate::bounded::line_text(*old(expr)),
            res@,
        ) is Some,
    ensures
        crate::bounded::line_text(*final(expr)) == show_result(
            crate::bounded::line_text(*old(expr)),
            res@,
        ),
{
    let v = text_of(expr);
    let tmp = result_buffer(res);
    let tmp_s = crate::bounded::result_str(&tmp);
    assert(tmp_s@ == result_suffix(res@));
    proof {
        lemma_suffix_fits(res@);
    }
    let tv = chars_of(tmp_s);
    let bt = bytes_of(&v);
    let bm = bytes_of(&tv);
    if bt + bm <= LINE_CAP {
        crate::bounded::line_push_str(expr, tmp_s);
    } else {
        let keep: usize = LINE_CAP - bm;
        let idx = match cut_point(&v, keep) {
            Some(i) => i,
            None => {
                return;
            },
        };
        proof {
            assert(v@.subrange(v@.len() as int, v@.len() as int) =~= Seq::<char>::empty());
            lemma_cut_bytes(v@, v@.len() as int, 0, keep as nat);
            crate::bounded::lemma_byte_len_concat(
                v@.subrange(idx as int, v@.len() as int),
                tmp_s@,
            );
        }
        let mut newexpr = crate::bounded::line_new();
        {
            let whole = line_str(expr);
            let n = whole.unicode_len();
            let tail = whole.substring_char(idx, n);
            crate::bounded::line_push_str(&mut newexpr, tail);
        }
        crate::bounded::line_push_str(&mut newexpr, tmp_s);
        line_clear(expr);
        crate::bounded::line_push_str(expr, line_str(&newexpr));
    }
}

/// Apply the key `k` to the entry line.
///
/// `answer` is the last answer, formatted, if there is one (used by `a`);
/// `outcome` is the outcome of evaluating the line, the value formatted
/// (used by `#`, which needs it for a non-empty line).
pub fn handle_input(
    k: char,
    expr: &mut heapless::String<64>,
    fresh: &mut bool,
    answer: Option<&str>,
    outcome: Option<Result<&str, CalcError>>,
)
    requires
        evaluation_ready(k, crate::bounded::line_text(*old(expr)), opt_outcome(outcome)),
    ensures
        (crate::bounded::line_text(*final(expr)), *final(fresh)) == key_effect(
            k,
            crate::bounded::line_text(*old(expr)),
            *old(fresh),
            opt_text(answer),
            opt_outcome(outcome),
        ),
{
    if k == 'b' {
        backspace(expr, fresh);
    } else if k == '(' {
        open_paren(expr, fresh);
    } else if k == ')' {
        close_paren(expr, fresh);
    } else if k == '.' {
        dot(expr, fresh);
    } else if is_digit_char(k) {
        digit_key(expr, fresh, k);
    } else if k == 'a' {
        answer_key(expr, fresh, answer);
    } else if k == 'r' || k == 's' || k == 'c' || k == 't' || k == 'k' || k == 'l' {
        function_key(expr, fresh, k);
    } else if k == '!' {
        bang(expr, fresh);
    } else if k == '*' {
        line_clear(expr);
        *fresh = true;
    } else if k == '#' {
        let v = text_of(expr);
        if v.len() > 0 {
            match outcome {
                Some(Ok(res)) => {
                    show_result_exec(expr, res);
                    *fresh = true;
                },
                Some(Err(_)) => {
                    line_clear(expr);
                    let err = "ERR";
                    proof {
                        reveal_strlit("ERR");
                        crate::bounded::lemma_byte_len_ascii(err@);
                    }
                    crate::bounded::line_push_str(expr, err);
                    assert(crate::bounded::line_text(*expr) =~= error_text());
                    *fresh = true;
                },
                None => {},
            }
        }
    } else if k == '^' || k == 'A' || k == 'B' || k == 'C' || k == 'D' || k == '+' || k == '-'
        || k == '/' {
        operator_key(expr, fresh, k);
    }
}



/// Whether `#` may be handled: see `evaluation_ready`.
pub fn evaluation_is_ready(
    k: char,
    expr: &heapless::String<64>,
    outcome: Option<Result<&str, CalcError>>,
) -> (b: bool)
    ensures
        b == evaluation_ready(k, crate::bounded::line_text(*expr), opt_outcome(outcome)),
{
    if k != '#' {
        return true;
    }
    let v = text_of(expr);
    if v.len() == 0 {
        return true;
    }
    match outcome {
        None => false,
        Some(Err(_)) => true,
        Some(Ok(res)) => {
            let tmp = result_buffer(res);
            let tv = chars_of(crate::bounded::result_str(&tmp));
            proof {
                lemma_suffix_fits(res@);
            }
            let bm = bytes_of(&tv);
            assert(bm == crate::bounded::byte_len(result_suffix(res@)));
            let bt = bytes_of(&v);
            if bt + bm <= LINE_CAP {
                true
            } else {
                cut_point(&v, LINE_CAP - bm).is_some()
            }
        },
    }
}

/// Apply the key `k` when what it needs is there (see `evaluation_ready`);
/// otherwise change nothing. Returns whether the key was applied.
pub fn handle_key(
    k: char,
    expr: &mut heapless::String<64>,
    fresh: &mut bool,
    answer: Option<&str>,
    outcome: Option<Result<&str, CalcError>>,
) -> (applied: bool)
    ensures
        applied == evaluation_ready(k, crate::bounded::line_text(*old(expr)), opt_outcome(outcome)),
        applied ==> (crate::bounded::line_text(*final(expr)), *final(fresh)) == key_effect(
            k,
            crate::bounded::line_text(*old(expr)),
            *old(fresh),
            opt_text(answer),
            opt_outcome(outcome),
        ),
        !applied ==> *final(expr) == *old(expr) && *final(fresh) == *old(fresh),
{
    if evaluation_is_ready(k, expr, outcome) {
        handle_input(k, expr, fresh, answer, outcome);
        true
    } else {
        false
    }
}

// ---------------------------------------------------------------------
// Laws of the entry line
// ---------------------------------------------------------------------

/// Every character is ASCII.
pub open spec fn ascii(s: Seq<char>) -> bool {
    forall|i: int| 0 <= i < s.len() ==> (#[trigger] s[i] as u32) < 0x80
}

proof fn lemma_push_c_fits(t: Seq<char>, c: char)
    requires
        crate::bounded::byte_len(t) <= LINE_CAP,
    ensures
        crate::bounded::byte_len(push_c(t, c)) <= LINE_CAP,
{
    crate::bounded::lemma_byte_len_push(t, c);
}

proof fn lemma_drop_last_fits(t: Seq<char>)
    requires
        t.len() > 0,
    ensures
        crate::bounded::byte_len(t.drop_last()) <= crate::bounded::byte_len(t),
{
}

proof fn lemma_append_limited_fits(t: Seq<char>, a: Seq<char>, r: int)
    requires
        crate::bounded::byte_len(t) <= LINE_CAP,
    ensures
        crate::bounded::byte_len(append_limited(t, a, r)) <= LINE_CAP,
    decreases a.len(),
{
    if a.len() > 0 && r > 0 {
        lemma_push_c_fits(t, a[0]);
        lemma_append_limited_fits(push_c(t, a[0]), a.drop_first(), r - 1);
    }
}

proof fn lemma_cut_bytes(t: Seq<char>, idx: int, acc: nat, keep: nat)
    requires
        0 <= idx <= t.len(),
        acc == crate::bounded::byte_len(t.subrange(idx, t.len() as int)),
    ensures
        cut_from_end(t, idx, acc, keep) matches Some(i) ==> 0 <= i <= t.len()
            && crate::bounded::byte_len(t.subrange(i, t.len() as int)) == keep,
    decreases idx,
{
    if acc < keep && idx > 0 {
        let c = t[idx - 1];
        assert(t.subrange(idx - 1, t.len() as int) =~= seq![c] + t.subrange(idx, t.len() as int));
        lemma_byte_len_prepend(c, t.subrange(idx, t.len() as int));
        lemma_cut_bytes(t, idx - 1, acc + crate::bounded::char_width(c), keep);
    }
}

proof fn lemma_suffix_fits(res: Seq<char>)
    ensures
        crate::bounded::byte_len(result_suffix(res)) <= crate::bounded::RESULT_BUF,
{
    lemma_byte_len_prepend('=', res);
    lemma_byte_len_prepend('=', Seq::<char>::empty());
    assert(seq!['='] + Seq::<char>::empty() =~= seq!['=']);
}

proof fn lemma_show_result_fits(t: Seq<char>, res: Seq<char>)
    requires
        crate::bounded::byte_len(t) <= LINE_CAP,
        result_overflows(t, res) ==> result_cut(t, res) is Some,
    ensures
        crate::bounded::byte_len(show_result(t, res)) <= LINE_CAP,
{
    let tmp = result_suffix(res);
    lemma_suffix_fits(res);
    if !result_overflows(t, res) {
        crate::bounded::lemma_byte_len_concat(t, tmp);
    } else {
        assert(t.subrange(t.len() as int, t.len() as int) =~= Seq::<char>::empty());
        lemma_cut_bytes(t, t.len() as int, 0, (LINE_CAP - crate::bounded::byte_len(tmp)) as nat);
        let i = result_cut(t, res).unwrap();
        crate::bounded::lemma_byte_len_concat(t.subrange(i, t.len() as int), tmp);
    }
}

/// Law: whatever the key, a line that fits in `LINE_CAP` bytes still fits
/// afterwards (the library's model of the line agrees with the capacity of
/// the buffer).
pub proof fn keys_keep_the_line_within_capacity(
    k: char,
    t: Seq<char>,
    fresh: bool,
    answer: Option<Seq<char>>,
    outcome: Option<Result<Seq<char>, CalcError>>,
)
    requires
        crate::bounded::byte_len(t) <= LINE_CAP,
        evaluation_ready(k, t, outcome),
    ensures
        crate::bounded::byte_len(key_effect(k, t, fresh, answer, outcome).0) <= LINE_CAP,
{
    let e = Seq::<char>::empty();
    assert(crate::bounded::byte_len(e) == 0);
    lemma_push_c_fits(e, '0');
    lemma_push_c_fits(push_c(e, '0'), '.');
    lemma_push_c_fits(t, '0');
    lemma_push_c_fits(push_c(t, '0'), '.');
    lemma_push_c_fits(push_c(t, '0'), '-');
    lemma_push_c_fits(t, '.');
    lemma_push_c_fits(t, op_key(k));
    lemma_push_c_fits(t, '!');
    lemma_push_c_fits(t, '*');
    lemma_push_c_fits(mul_before(t), k);
    let t1 = clear_if(t, fresh);
    lemma_push_c_fits(t1, ')');
    lemma_push_c_fits(t1, '*');
    lemma_push_c_fits(mul_before(t1), '(');
    let t2 = if t1.len() > 0 && t1.last() == ')' {
        push_c(t1, '*')
    } else {
        t1
    };
    if t2.len() > 0 {
        lemma_drop_last_fits(t2);
        lemma_push_c_fits(t2.drop_last(), k);
    }
    lemma_push_c_fits(t2, k);
    if t.len() > 0 {
        lemma_drop_last_fits(t);
    }
    if let Some(a) = answer {
        lemma_append_limited_fits(mul_before(t1), a, LINE_CAP - crate::bounded::byte_len(mul_before(t1)));
    }
    if k == '#' && t.len() > 0 {
        if let Some(Ok(res)) = outcome {
            lemma_show_result_fits(t, res);
        }
        lemma_push_c_fits(e, 'E');
        crate::bounded::lemma_byte_len_push(e, 'E');
        crate::bounded::lemma_byte_len_push(e.push('E'), 'R');
        crate::bounded::lemma_byte_len_push(e.push('E').push('R'), 'R');
        assert(error_text() =~= e.push('E').push('R').push('R'));
    }
}

/// Law: after a finished result, a digit starts a new expression: the
/// line holds that digit alone.
pub proof fn digit_after_result_starts_over(
    k: char,
    t: Seq<char>,
    answer: Option<Seq<char>>,
    outcome: Option<Result<Seq<char>, CalcError>>,
)
    requires
        is_digit(k),
    ensures
        key_effect(k, t, true, answer, outcome) == (seq![k], false),
{
    let e = Seq::<char>::empty();
    assert(crate::bounded::byte_len(e) == 0);
    assert(e.push(k) =~= seq![k]);
}

/// Law: backspace undoes a digit typed after a digit (on a line that is
/// not a finished result, does not end in a lone `0`, and has room).
pub proof fn backspace_undoes_a_digit(
    k: char,
    t: Seq<char>,
    answer: Option<Seq<char>>,
    outcome: Option<Result<Seq<char>, CalcError>>,
)
    requires
        is_digit(k),
        t.len() > 0,
        is_digit(t.last()),
        !lone_zero(t),
        crate::bounded::byte_len(t) < LINE_CAP,
    ensures
        ({
            let (t1, f1) = key_effect(k, t, false, answer, outcome);
            key_effect('b', t1, f1, answer, outcome) == (t, false)
        }),
{
    assert(t.push(k).drop_last() =~= t);
}

proof fn lemma_push_c_ascii(t: Seq<char>, c: char)
    requires
        ascii(t),
        (c as u32) < 0x80,
    ensures
        ascii(push_c(t, c)),
{
    if crate::bounded::byte_len(t) + crate::bounded::char_width(c) <= LINE_CAP {
        assert forall|i: int| 0 <= i < t.push(c).len() implies (#[trigger] t.push(c)[i] as u32) < 0x80 by {
            if i < t.len() {
                assert(t.push(c)[i] == t[i]);
            }
        }
    }
}

proof fn lemma_append_limited_ascii(t: Seq<char>, a: Seq<char>, r: int)
    requires
        ascii(t),
        ascii(a),
    ensures
        ascii(append_limited(t, a, r)),
    decreases a.len(),
{
    if a.len() > 0 && r > 0 {
        lemma_push_c_ascii(t, a[0]);
        assert forall|i: int| 0 <= i < a.drop_first().len() implies (#[trigger] a.drop_first()[i] as u32) < 0x80 by {
            assert(a.drop_first()[i] == a[i + 1]);
        }
        lemma_append_limited_ascii(push_c(t, a[0]), a.drop_first(), r - 1);
    }
}

/// Law: a line of ASCII characters stays ASCII under every key, when the
/// answer and the result that the caller supplies are ASCII (as formatted
/// numbers are). Byte and character positions in the line then agree.
pub proof fn keys_keep_the_line_ascii(
    k: char,
    t: Seq<char>,
    fresh: bool,
    answer: Option<Seq<char>>,
    outcome: Option<Result<Seq<char>, CalcError>>,
)
    requires
        ascii(t),
        answer matches Some(a) ==> ascii(a),
        outcome matches Some(Ok(r)) ==> ascii(r),
    ensures
        ascii(key_effect(k, t, fresh, answer, outcome).0),
{
    let e = Seq::<char>::empty();
    let t1 = clear_if(t, fresh);
    lemma_push_c_ascii(e, '0');
    lemma_push_c_ascii(push_c(e, '0'), '.');
    lemma_push_c_ascii(t, '0');
    lemma_push_c_ascii(push_c(t, '0'), '.');
    lemma_push_c_ascii(push_c(t, '0'), '-');
    lemma_push_c_ascii(t, '.');
    lemma_push_c_ascii(t, '!');
    lemma_push_c_ascii(t, '*');
    lemma_push_c_ascii(t1, '*');
    lemma_push_c_ascii(t1, ')');
    lemma_push_c_ascii(mul_before(t1), '(');
    if (k as u32) < 0x80 {
        lemma_push_c_ascii(mul_before(t), k);
        let t2 = if t1.len() > 0 && t1.last() == ')' {
            push_c(t1, '*')
        } else {
            t1
        };
        lemma_push_c_ascii(t2, k);
        if t2.len() > 0 {
            lemma_push_c_ascii(t2.drop_last(), k);
        }
    }
    if is_operator_key(k) {
        lemma_push_c_ascii(t, op_key(k));
    }
    if let Some(a) = answer {
        lemma_append_limited_ascii(mul_before(t1), a, LINE_CAP - crate::bounded::byte_len(mul_before(t1)));
    }
    if k == '#' && t.len() > 0 {
        if let Some(Ok(res)) = outcome {
            let tmp = result_suffix(res);
            assert(ascii(tmp)) by {
                assert forall|i: int| 0 <= i < tmp.len() implies (#[trigger] tmp[i] as u32) < 0x80 by {
                    if i > 0 {
                        assert(tmp[i] == res[i - 1]);
                    }
                }
            }
            if result_overflows(t, res) {
                assert(t.subrange(t.len() as int, t.len() as int) =~= Seq::<char>::empty());
                lemma_cut_bytes(t, t.len() as int, 0, (LINE_CAP - crate::bounded::byte_len(tmp)) as nat);
                if let Some(i) = result_cut(t, res) {
                    let u = t.subrange(i, t.len() as int) + tmp;
                    assert forall|j: int| 0 <= j < u.len() implies (#[trigger] u[j] as u32) < 0x80 by {
                        if j < t.len() - i {
                            assert(u[j] == t[i + j]);
                        } else {
                            assert(u[j] == tmp[j - (t.len() - i)]);
                        }
                    }
                }
            } else {
                let u = t + tmp;
                assert forall|j: int| 0 <= j < u.len() implies (#[trigger] u[j] as u32) < 0x80 by {
                    if j >= t.len() {
                        assert(u[j] == tmp[j - t.len()]);
                    }
                }
            }
        }
    }
}


/// Law: which keys leave the line fresh (showing a finished result): `*`
/// always; `#` when the line was fresh or is evaluated (it is not empty);
/// an operator key only on an empty fresh line; the keys that edit the
/// line never; any other key leaves the flag as it was.
pub proof fn fresh_after_each_key(
    k: char,
    t: Seq<char>,
    fresh: bool,
    answer: Option<Seq<char>>,
    outcome: Option<Result<Seq<char>, CalcError>>,
)
    requires
        evaluation_ready(k, t, outcome),
    ensures
        key_effect(k, t, fresh, answer, outcome).1 == if k == '*' {
            true
        } else if k == '#' {
            fresh || t.len() > 0
        } else if is_operator_key(k) {
            fresh && t.len() == 0
        } else if k == 'b' || k == '(' || k == ')' || k == '.' || is_digit(k) || k == 'a'
            || is_function_key(k) || k == '!' {
            false
        } else {
            fresh
        },
{
}


/// Law: an operator key types its operator. `A`, `B`, `C`, `D` stand for
/// `+`, `-`, `*`, `/`, and `+`, `-`, `/`, `^` for themselves. After a
/// digit, `)` or `!` the operator is appended when it fits, and the line is
/// no longer a finished result; on an empty line only a minus is taken,
/// written `0-`; after anything else the line stays as it is.
pub proof fn operator_keys_type_their_operator(
    k: char,
    t: Seq<char>,
    fresh: bool,
    answer: Option<Seq<char>>,
    outcome: Option<Result<Seq<char>, CalcError>>,
)
    requires
        is_operator_key(k),
    ensures
        ({
            let (t1, f1) = key_effect(k, t, fresh, answer, outcome);
            let sym = if k == 'A' || k == '+' {
                '+'
            } else if k == 'B' || k == '-' {
                '-'
            } else if k == 'C' {
                '*'
            } else if k == 'D' || k == '/' {
                '/'
            } else {
                '^'
            };
            &&& t.len() == 0 ==> f1 == fresh && t1 == if k == 'B' || k == '-' {
                seq!['0', '-']
            } else {
                t
            }
            &&& t.len() > 0 ==> !f1
            &&& (t.len() > 0 && (is_digit(t.last()) || t.last() == ')' || t.last() == '!')
                && crate::bounded::byte_len(t) < LINE_CAP) ==> t1 == t.push(sym)
            &&& (t.len() > 0 && !(is_digit(t.last()) || t.last() == ')' || t.last() == '!')) ==> t1 == t
            &&& crate::bounded::byte_len(t) >= LINE_CAP ==> t1 == t
        }),
{
    let e = Seq::<char>::empty();
    assert(crate::bounded::byte_len(e) == 0);
    crate::bounded::lemma_byte_len_push(e, '0');
    assert(e.push('0').push('-') =~= seq!['0', '-']);
    if t.len() == 0 {
        assert(t =~= e);
    }
}


/// Law: a digit key types its digit on a line that is not a finished
/// result: after `)` it starts a product (`)*d`); a number that is a single
/// `0` becomes the digit; otherwise the digit is appended. Each time only
/// when it fits, and the line is not a finished result afterwards.
pub proof fn digit_keys_type_their_digit(
    k: char,
    t: Seq<char>,
    answer: Option<Seq<char>>,
    outcome: Option<Result<Seq<char>, CalcError>>,
)
    requires
        is_digit(k),
        crate::bounded::byte_len(t) + 2 <= LINE_CAP,
    ensures
        ({
            let (t1, f1) = key_effect(k, t, false, answer, outcome);
            let single_zero = t.len() > 0 && t.last() == '0' && (t.len() == 1 || !(is_digit(
                t[t.len() - 2],
            ) || t[t.len() - 2] == '.'));
            &&& !f1
            &&& (t.len() > 0 && t.last() == ')') ==> t1 == t.push('*').push(k)
            &&& single_zero ==> t1 == t.drop_last().push(k)
            &&& (!(t.len() > 0 && t.last() == ')') && !single_zero) ==> t1 == t.push(k)
        }),
{
    crate::bounded::lemma_byte_len_push(t, '*');
    if t.len() > 0 {
        crate::bounded::lemma_byte_len_push(t.drop_last(), t.last());
        assert(t.drop_last().push(t.last()) =~= t);
        let u = t.push('*');
        assert(u.last() == '*');
        assert(!lone_zero(u));
    }
}


/// Law: a function key types its letter, as a product with an operand
/// right before it (after a digit, `)`, `.` or `!` it writes `*` first),
/// when it fits; a finished result is continued, not cleared.
pub proof fn function_keys_type_their_letter(
    k: char,
    t: Seq<char>,
    fresh: bool,
    answer: Option<Seq<char>>,
    outcome: Option<Result<Seq<char>, CalcError>>,
)
    requires
        is_function_key(k),
        crate::bounded::byte_len(t) + 2 <= LINE_CAP,
    ensures
        ({
            let (t1, f1) = key_effect(k, t, fresh, answer, outcome);
            let after_operand = t.len() > 0 && (is_digit(t.last()) || t.last() == ')' || t.last()
                == '.' || t.last() == '!');
            &&& !f1
            &&& after_operand ==> t1 == t.push('*').push(k)
            &&& !after_operand ==> t1 == t.push(k)
        }),
{
    crate::bounded::lemma_byte_len_push(t, '*');
}


/// Law: `#` on a line that is not empty shows the outcome and leaves a
/// finished result. A value is shown as `=` and the value after the line
/// (`=` alone when the two do not fit in `RESULT_BUF` bytes); when that does
/// not fit after the line, the front of the line is dropped so that the
/// line is filled exactly by its tail and the result. A failed evaluation
/// shows `ERR`. On an empty line `#` does nothing.
pub proof fn evaluation_shows_its_outcome(
    t: Seq<char>,
    fresh: bool,
    answer: Option<Seq<char>>,
    res: Seq<char>,
    e: CalcError,
)
    ensures
        ({
            let (u, f) = key_effect('#', t, fresh, answer, Some(Ok(res)));
            let tail = if 1 + crate::bounded::byte_len(res) <= crate::bounded::RESULT_BUF {
                seq!['='] + res
            } else {
                seq!['=']
            };
            let m = u.len() - tail.len();
            &&& t.len() > 0 ==> f
            &&& (t.len() > 0 && crate::bounded::byte_len(t) + crate::bounded::byte_len(tail) <= LINE_CAP)
                ==> u == t + tail
            &&& (t.len() > 0 && crate::bounded::byte_len(t) + crate::bounded::byte_len(tail) > LINE_CAP
                && result_cut(t, res) is Some) ==> {
                &&& m >= 0
                &&& u.skip(m) == tail
                &&& u.take(m) == t.skip(t.len() - m)
                &&& crate::bounded::byte_len(u) == LINE_CAP
            }
        }),
        t.len() > 0 ==> key_effect('#', t, fresh, answer, Some(Err(e))) == (seq!['E', 'R', 'R'], true),
        t.len() == 0 ==> key_effect('#', t, fresh, answer, Some(Ok(res))) == (t, fresh),
{
    let tail = result_suffix(res);
    if t.len() > 0 && result_overflows(t, res) {
        assert(t.subrange(t.len() as int, t.len() as int) =~= Seq::<char>::empty());
        lemma_cut_bytes(t, t.len() as int, 0, (LINE_CAP - crate::bounded::byte_len(tail)) as nat);
        lemma_suffix_fits(res);
        if let Some(i) = result_cut(t, res) {
            let v = t.subrange(i, t.len() as int);
            let u = v + tail;
            crate::bounded::lemma_byte_len_concat(v, tail);
            assert(u.skip(v.len() as int) =~= tail);
            assert(u.take(v.len() as int) =~= v);
            assert(t.skip(t.len() - v.len()) =~= v);
        }
    }
    assert(error_text() =~= seq!['E', 'R', 'R']);
}


/// Law: the parenthesis keys type their parenthesis, on a fresh line
/// after clearing the finished result; `(` right after an operand (a
/// digit, `)`, `.` or `!`) starts a product and writes `*(`.
pub proof fn parenthesis_keys_type_their_parenthesis(
    t: Seq<char>,
    fresh: bool,
    answer: Option<Seq<char>>,
    outcome: Option<Result<Seq<char>, CalcError>>,
)
    requires
        crate::bounded::byte_len(t) + 2 <= LINE_CAP,
    ensures
        ({
            let base = if fresh {
                Seq::<char>::empty()
            } else {
                t
            };
            let after_operand = base.len() > 0 && (is_digit(base.last()) || base.last() == ')'
                || base.last() == '.' || base.last() == '!');
            &&& key_effect(')', t, fresh, answer, outcome) == (base.push(')'), false)
            &&& key_effect('(', t, fresh, answer, outcome) == (if after_operand {
                base.push('*').push('(')
            } else {
                base.push('(')
            }, false)
        }),
{
    let e = Seq::<char>::empty();
    assert(crate::bounded::byte_len(e) == 0);
    crate::bounded::lemma_byte_len_push(t, '*');
    crate::bounded::lemma_byte_len_push(e, '*');
}

} // verus!
