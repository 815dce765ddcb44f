//! Decisions of the keypad scan: which key sits at a row and a column,
//! and what a press that is still held or has been released calls for.
use vstd::prelude::*;
use crate::error::CalcError;
use crate::entry::handle_key;

verus! {

/// Milliseconds between two samples of a held key.
pub const SAMPLE_MS: u64 = 50;

/// Milliseconds after which a held key of the 4x4 pad is a long press.
pub const LONG_MS_4X4: u64 = 1000;

/// Milliseconds after which a held key of the 4x3 pad is a long press.
pub const LONG_MS_4X3: u64 = 2000;

/// The key at a row and a column of the 4x4 pad (functions and operators).
pub open spec fn keymap_4x4(row: int, col: int) -> Option<char> {
    if row == 0 {
        if col == 0 { Some('b') } else if col == 1 { Some('(') } else if col == 2 { Some(')') }
        else if col == 3 { Some('A') } else { None }
    } else if row == 1 {
        if col == 0 { Some('^') } else if col == 1 { Some('r') } else if col == 2 { Some('.') }
        else if col == 3 { Some('B') } else { None }
    } else if row == 2 {
        if col == 0 { Some('s') } else if col == 1 { Some('c') } else if col == 2 { Some('t') }
        else if col == 3 { Some('C') } else { None }
    } else if row == 3 {
        if col == 0 { Some('l') } else if col == 1 { Some('k') } else if col == 2 { Some('!') }
        else if col == 3 { Some('D') } else { None }
    } else {
        None
    }
}

/// The key at a row and a column of the 4x3 pad (digits, answer, evaluate).
pub open spec fn keymap_4x3(row: int, col: int) -> Option<char> {
    if row == 0 {
        if col == 0 { Some('1') } else if col == 1 { Some('2') } else if col == 2 { Some('3') } else { None }
    } else if row == 1 {
        if col == 0 { Some('4') } else if col == 1 { Some('5') } else if col == 2 { Some('6') } else { None }
    } else if row == 2 {
        if col == 0 { Some('7') } else if col == 1 { Some('8') } else if col == 2 { Some('9') } else { None }
    } else if row == 3 {
        if col == 0 { Some('a') } else if col == 1 { Some('0') } else if col == 2 { Some('#') } else { None }
    } else {
        None
    }
}

/// The key at a row and a column of the 4x4 pad.
pub fn key_4x4(row: usize, col: usize) -> (k: Option<char>)
    ensures
        k == keymap_4x4(row as int, col as int),
{
    if row == 0 {
        if col == 0 { Some('b') } else if col == 1 { Some('(') } else if col == 2 { Some(')') }
        else if col == 3 { Some('A') } else { None }
    } else if row == 1 {
        if col == 0 { Some('^') } else if col == 1 { Some('r') } else if col == 2 { Some('.') }
        else if col == 3 { Some('B') } else { None }
    } else if row == 2 {
        if col == 0 { Some('s') } else if col == 1 { Some('c') } else if col == 2 { Some('t') }
        else if col == 3 { Some('C') } else { None }
    } else if row == 3 {
        if col == 0 { Some('l') } else if col == 1 { Some('k') } else if col == 2 { Some('!') }
        else if col == 3 { Some('D') } else { None }
    } else {
        None
    }
}

/// The key at a row and a column of the 4x3 pad.
pub fn key_4x3(row: usize, col: usize) -> (k: Option<char>)
    ensures
        k == keymap_4x3(row as int, col as int),
{
    if row == 0 {
        if col == 0 { Some('1') } else if col == 1 { Some('2') } else if col == 2 { Some('3') } else { None }
    } else if row == 1 {
        if col == 0 { Some('4') } else if col == 1 { Some('5') } else if col == 2 { Some('6') } else { None }
    } else if row == 2 {
        if col == 0 { Some('7') } else if col == 1 { Some('8') } else if col == 2 { Some('9') } else { None }
    } else if row == 3 {
        if col == 0 { Some('a') } else if col == 1 { Some('0') } else if col == 2 { Some('#') } else { None }
    } else {
        None
    }
}

/// What to do with a key that was pressed.
#[derive(Clone, Copy, Debug, PartialEq, Eq, Structural)]
pub enum PressAction {
    /// It was released: a short press.
    Short,
    /// It has been held long enough: a long press.
    Long,
    /// Still held: sample again after `SAMPLE_MS`.
    Wait,
}

/// The decision on each sample of a pressed key: a release is a short
/// press; a key held for `long_ms` is a long press; otherwise wait.
pub fn press_action(released: bool, elapsed_ms: u64, long_ms: u64) -> (a: PressAction)
    ensures
        released ==> a == PressAction::Short,
        !released && elapsed_ms >= long_ms ==> a == PressAction::Long,
        !released && elapsed_ms < long_ms ==> a == PressAction::Wait,
{
    if released {
        PressAction::Short
    } else if elapsed_ms >= long_ms {
        PressAction::Long
    } else {
        PressAction::Wait
    }
}

/// Time held after one more sample.
pub fn advance(elapsed_ms: u64) -> (r: u64)
    ensures
        elapsed_ms + SAMPLE_MS <= u64::MAX ==> r == elapsed_ms + SAMPLE_MS,
        elapsed_ms + SAMPLE_MS > u64::MAX ==> r == u64::MAX,
{
    elapsed_ms.saturating_add(SAMPLE_MS)
}

/// A long press: backspace clears the whole line and marks it fresh; any
/// other key does what its short press does (see `handle_key`).
pub fn long_press(
    k: char,
    expr: &mut heapless::String<64>,
    fresh: &mut bool,
    answer: Option<&str>,
    outcome: Option<Result<&str, CalcError>>,
) -> (applied: bool)
    ensures
        k == 'b' ==> applied && crate::bounded::line_text(*final(expr)) == Seq::<char>::empty()
            && *final(fresh),
        k != 'b' ==> applied == crate::entry::evaluation_ready(
            k,
            crate::bounded::line_text(*old(expr)),
            crate::entry::opt_outcome(outcome),
        ),
        k != 'b' && applied ==> (crate::bounded::line_text(*final(expr)), *final(fresh))
            == crate::entry::key_effect(
            k,
            crate::bounded::line_text(*old(expr)),
            *old(fresh),
            crate::entry::opt_text(answer),
            crate::entry::opt_outcome(outcome),
        ),
        k != 'b' && !applied ==> *final(expr) == *old(expr) && *final(fresh) == *old(fresh),
{
    if k == 'b' {
        crate::bounded::line_clear(expr);
        *fresh = true;
        true
    } else {
        handle_key(k, expr, fresh, answer, outcome)
    }
}


/// Law: the first three rows of the 4x3 pad are the telephone grid of
/// digits: row `r`, column `c` holds the digit `3r + c + 1`.
pub proof fn digit_rows_form_a_phone_grid(r: int, c: int)
    requires
        0 <= r < 3,
        0 <= c < 3,
    ensures
        keymap_4x3(r, c) matches Some(k) && crate::compile::is_digit(k) && (k as int) - ('0' as int)
            == 3 * r + c + 1,
{
}

/// Law: the last column of the 4x4 pad holds the operator keys `A` to `D`
/// from top to bottom.
pub proof fn operator_column_runs_a_to_d(r: int)
    requires
        0 <= r < 4,
    ensures
        keymap_4x4(r, 3) matches Some(k) && (k as int) == ('A' as int) + r,
{
}

/// Law: each pad has a key exactly at the positions of its grid (4 rows
/// of 4 or 3 columns), and no key sits at two positions.
pub proof fn each_key_has_one_place(r1: int, c1: int, r2: int, c2: int)
    ensures
        keymap_4x4(r1, c1) is Some <==> (0 <= r1 < 4 && 0 <= c1 < 4),
        keymap_4x3(r1, c1) is Some <==> (0 <= r1 < 4 && 0 <= c1 < 3),
        keymap_4x4(r1, c1) is Some && keymap_4x4(r1, c1) == keymap_4x4(r2, c2) ==> r1 == r2 && c1 == c2,
        keymap_4x3(r1, c1) is Some && keymap_4x3(r1, c1) == keymap_4x3(r2, c2) ==> r1 == r2 && c1 == c2,
{
}

} // verus!
