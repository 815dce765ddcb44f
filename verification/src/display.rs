//! Layout of the entry line on the display: up to `MAX_LINES` lines of
//! at most `LINE_WIDTH` characters, broken before a number rather than
//! inside it.
use vstd::prelude::*;
use vstd::string::*;
use crate::compile::{chars_of, is_digit, is_digit_char};

verus! {

/// Characters per display line.
pub const LINE_WIDTH: usize = 20;

/// Display lines.
pub const MAX_LINES: usize = 4;

/// Position just after the last non-digit in `s[start..end]`, if any.
pub open spec fn after_last_non_digit(s: Seq<char>, start: int, end: int) -> Option<int>
    decreases end - start,
{
    if end <= start {
        None
    } else if !is_digit(s[end - 1]) {
        Some(end)
    } else {
        after_last_non_digit(s, start, end - 1)
    }
}

/// End of the display line that starts at `start`: `LINE_WIDTH`
/// characters, or fewer when that would split a number and the line has a
/// non-digit to break after.
pub open spec fn line_end(s: Seq<char>, start: int) -> int {
    let end = if start + LINE_WIDTH < s.len() {
        start + LINE_WIDTH
    } else {
        s.len() as int
    };
    if end < s.len() && is_digit(s[end]) {
        match after_last_non_digit(s, start, end) {
            Some(e) => e,
            None => end,
        }
    } else {
        end
    }
}

/// The display lines from position `start` on, at most `count` of them,
/// as ranges of character positions.
pub open spec fn lines_from(s: Seq<char>, start: int, count: nat) -> Seq<(int, int)>
    decreases count,
{
    if count == 0 || start >= s.len() {
        Seq::empty()
    } else {
        let e = line_end(s, start);
        seq![(start, e)] + lines_from(s, e, (count - 1) as nat)
    }
}

/// The display lines of a text.
pub open spec fn layout(s: Seq<char>) -> Seq<(int, int)> {
    lines_from(s, 0, MAX_LINES as nat)
}

proof fn lemma_after_last_non_digit(s: Seq<char>, start: int, end: int)
    requires
        0 <= start <= end <= s.len(),
    ensures
        after_last_non_digit(s, start, end) matches Some(e) ==> start < e <= end && !is_digit(
            s[e - 1],
        ) && forall|k: int| e <= k < end ==> is_digit(#[trigger] s[k]),
        after_last_non_digit(s, start, end) is None ==> forall|k: int|
            start <= k < end ==> is_digit(#[trigger] s[k]),
    decreases end - start,
{
    if end > start && is_digit(s[end - 1]) {
        lemma_after_last_non_digit(s, start, end - 1);
    }
}

proof fn lemma_line_end(s: Seq<char>, start: int)
    requires
        0 <= start < s.len(),
    ensures
        start < line_end(s, start) <= s.len(),
        line_end(s, start) <= start + LINE_WIDTH,
{
    let end = if start + LINE_WIDTH < s.len() {
        start + LINE_WIDTH
    } else {
        s.len() as int
    };
    lemma_after_last_non_digit(s, start, end);
}

fn line_end_exec(s: &Vec<char>, start: usize) -> (e: usize)
    requires
        start < s.len(),
    ensures
        e == line_end(s@, start as int),
{
    let end = if s.len() - start > LINE_WIDTH {
        start + LINE_WIDTH
    } else {
        s.len()
    };
    if end < s.len() && is_digit_char(s[end]) {
        let mut k = end;
        while k > start
            invariant
                start <= k <= end,
                end < s.len(),
                end == if start + LINE_WIDTH < s.len() {
                    start + LINE_WIDTH
                } else {
                    s.len() as int
                },
                is_digit(s@[end as int]),
                after_last_non_digit(s@, start as int, end as int) == after_last_non_digit(
                    s@,
                    start as int,
                    k as int,
                ),
            decreases k,
        {
            if !is_digit_char(s[k - 1]) {
                return k;
            }
            k = k - 1;
        }
        end
    } else {
        end
    }
}

/// The display lines of a text, as (start, end) character positions.
pub fn display_lines(text: &str) -> (lines: Vec<(usize, usize)>)
    ensures
        lines@.len() == layout(text@).len(),
        forall|i: int|
            0 <= i < lines@.len() ==> lines@[i].0 == layout(text@)[i].0 && lines@[i].1 == layout(
                text@,
            )[i].1,
{
    let s = chars_of(text);
    let mut lines: Vec<(usize, usize)> = Vec::new();
    let mut start: usize = 0;
    let mut n: usize = 0;
    while n < MAX_LINES && start < s.len()
        invariant
            n <= MAX_LINES,
            start <= s.len(),
            s@ == text@,
            lines@.len() == n,
            layout(s@) == lines@.map_values(|p: (usize, usize)| (p.0 as int, p.1 as int))
                + lines_from(s@, start as int, (MAX_LINES - n) as nat),
        decreases MAX_LINES - n,
    {
        let e = line_end_exec(&s, start);
        proof {
            lemma_line_end(s@, start as int);
        }
        let ghost before = lines@;
        lines.push((start, e));
        assert(lines@.map_values(|p: (usize, usize)| (p.0 as int, p.1 as int)) =~= before.map_values(
            |p: (usize, usize)| (p.0 as int, p.1 as int),
        ).push((start as int, e as int)));
        start = e;
        n = n + 1;
    }
    assert(lines_from(s@, start as int, (MAX_LINES - n) as nat) =~= Seq::<(int, int)>::empty());
    assert(layout(s@) =~= lines@.map_values(|p: (usize, usize)| (p.0 as int, p.1 as int)));
    proof {
        assert forall|i: int| 0 <= i < lines@.len() implies lines@[i].0 == layout(text@)[i].0
            && lines@[i].1 == layout(text@)[i].1 by {
            assert(layout(s@)[i] == (lines@[i].0 as int, lines@[i].1 as int));
        }
    }
    lines
}

/// Law: the display lines start at the beginning of the text, follow one
/// another without gap or overlap, are never empty nor wider than
/// `LINE_WIDTH`, and are at most `MAX_LINES`; a line that stops short of
/// `LINE_WIDTH` before a digit ends with a non-digit, so that it does not
/// cut a number; and unless all `MAX_LINES` lines are used, they cover the
/// whole text.
pub proof fn layout_tiles_the_text(s: Seq<char>)
    ensures
        layout(s).len() <= MAX_LINES,
        s.len() > 0 ==> layout(s).len() > 0 && layout(s)[0].0 == 0,
        forall|i: int|
            0 <= i < layout(s).len() ==> {
                let (a, b) = #[trigger] layout(s)[i];
                &&& a < b <= s.len()
                &&& b <= a + LINE_WIDTH
                &&& (b < a + LINE_WIDTH && b < s.len() && is_digit(s[b])) ==> !is_digit(s[b - 1])
            },
        forall|i: int| 0 <= i < layout(s).len() - 1 ==> #[trigger] layout(s)[i].1 == layout(s)[i + 1].0,
        layout(s).len() < MAX_LINES ==> (layout(s).len() == 0 || layout(s).last().1 == s.len()),
{
    lemma_lines_from(s, 0, MAX_LINES as nat);
}

proof fn lemma_lines_from(s: Seq<char>, start: int, count: nat)
    requires
        0 <= start <= s.len(),
    ensures
        lines_from(s, start, count).len() <= count,
        start < s.len() && count > 0 ==> lines_from(s, start, count).len() > 0 && lines_from(
            s,
            start,
            count,
        )[0].0 == start,
        forall|i: int|
            0 <= i < lines_from(s, start, count).len() ==> {
                let (a, b) = #[trigger] lines_from(s, start, count)[i];
                &&& start <= a < b <= s.len()
                &&& b <= a + LINE_WIDTH
                &&& (b < a + LINE_WIDTH && b < s.len() && is_digit(s[b])) ==> !is_digit(s[b - 1])
            },
        forall|i: int|
            0 <= i < lines_from(s, start, count).len() - 1 ==> #[trigger] lines_from(
                s,
                start,
                count,
            )[i].1 == lines_from(s, start, count)[i + 1].0,
        lines_from(s, start, count).len() < count ==> (lines_from(s, start, count).len() == 0
            ==> start >= s.len()) && (lines_from(s, start, count).len() > 0 ==> lines_from(
            s,
            start,
            count,
        ).last().1 == s.len()),
    decreases count,
{
    if count > 0 && start < s.len() {
        let e = line_end(s, start);
        lemma_line_end(s, start);
        lemma_lines_from(s, e, (count - 1) as nat);
        let rest = lines_from(s, e, (count - 1) as nat);
        let all = lines_from(s, start, count);
        assert(all == seq![(start, e)] + rest);
        let end = if start + LINE_WIDTH < s.len() {
            start + LINE_WIDTH
        } else {
            s.len() as int
        };
        lemma_after_last_non_digit(s, start, end);
        assert forall|i: int| 0 <= i < all.len() implies {
            let (a, b) = #[trigger] all[i];
            &&& start <= a < b <= s.len()
            &&& b <= a + LINE_WIDTH
            &&& (b < a + LINE_WIDTH && b < s.len() && is_digit(s[b])) ==> !is_digit(s[b - 1])
        } by {
            if i > 0 {
                assert(all[i] == rest[i - 1]);
            }
        }
        assert forall|i: int| 0 <= i < all.len() - 1 implies #[trigger] all[i].1 == all[i + 1].0 by {
            if i > 0 {
                assert(all[i] == rest[i - 1]);
                assert(all[i + 1] == rest[i]);
            }
        }
        if rest.len() > 0 {
            assert(all.last() == rest.last());
        }
    }
}


/// A display line `(a, b)` stops short of `LINE_WIDTH` characters only to
/// keep a number whole: then the characters from `b` up to and including
/// position `a + LINE_WIDTH` are all digits.
pub open spec fn cut_only_inside_a_number(s: Seq<char>, line: (int, int)) -> bool {
    let (a, b) = line;
    (b < a + LINE_WIDTH && b < s.len()) ==> {
        &&& a + LINE_WIDTH < s.len()
        &&& forall|k: int| b <= k <= a + LINE_WIDTH ==> is_digit(#[trigger] s[k])
    }
}

proof fn lemma_line_end_cut(s: Seq<char>, start: int)
    requires
        0 <= start < s.len(),
    ensures
        cut_only_inside_a_number(s, (start, line_end(s, start))),
{
    let end = if start + LINE_WIDTH < s.len() {
        start + LINE_WIDTH
    } else {
        s.len() as int
    };
    lemma_after_last_non_digit(s, start, end);
}

proof fn lemma_lines_from_cut(s: Seq<char>, start: int, count: nat)
    requires
        0 <= start <= s.len(),
    ensures
        forall|i: int|
            0 <= i < lines_from(s, start, count).len() ==> cut_only_inside_a_number(
                s,
                #[trigger] lines_from(s, start, count)[i],
            ),
    decreases count,
{
    if count > 0 && start < s.len() {
        let e = line_end(s, start);
        lemma_line_end(s, start);
        lemma_line_end_cut(s, start);
        lemma_lines_from_cut(s, e, (count - 1) as nat);
        let rest = lines_from(s, e, (count - 1) as nat);
        let all = lines_from(s, start, count);
        assert(all == seq![(start, e)] + rest);
        assert forall|i: int| 0 <= i < all.len() implies cut_only_inside_a_number(s, #[trigger] all[i]) by {
            if i > 0 {
                assert(all[i] == rest[i - 1]);
            }
        }
    }
}

/// Law: a display line is shorter than `LINE_WIDTH` only when a number
/// runs across the place where it would end: the character right after
/// the line and every character up to that place are digits. Where the
/// character at `LINE_WIDTH` is not a digit, the line is full width.
pub proof fn lines_break_only_to_keep_numbers_whole(s: Seq<char>)
    ensures
        forall|i: int|
            0 <= i < layout(s).len() ==> cut_only_inside_a_number(s, #[trigger] layout(s)[i]),
{
    lemma_lines_from_cut(s, 0, MAX_LINES as nat);
}

} // verus!
