//! The fixed-capacity buffers of `heapless`, seen by the proofs as the
//! sequences of characters they hold: the entry line, the buffers in which
//! the compiler reads a number literal and a function name, and its
//! operator stack.
use vstd::prelude::*;
use vstd::string::*;

verus! {

#[verifier::external_type_specification]
#[verifier::external_body]
pub struct ExHeaplessString<const N: usize>(heapless::String<N>);

#[verifier::external_type_specification]
#[verifier::external_body]
#[verifier::reject_recursive_types(T)]
pub struct ExHeaplessVec<T, const N: usize>(heapless::Vec<T, N>);

/// Capacity of the entry line, in bytes.
pub const LINE_CAP: usize = 64;

/// Capacity of the buffer that shows a result, in bytes.
pub const RESULT_BUF: usize = 24;

/// Capacity of the buffer of a number literal, in bytes.
pub const LITERAL_BUF: usize = 20;

/// Capacity of the buffer of a function name, in bytes.
pub const NAME_BUF: usize = 8;

/// Capacity of the operator stack.
pub const OPS_CAP: usize = 32;

/// The characters that an entry line holds.
pub uninterp spec fn line_text(s: heapless::String<64>) -> Seq<char>;

/// The characters that a result buffer holds.
pub uninterp spec fn result_text(s: heapless::String<24>) -> Seq<char>;

/// The characters that a literal buffer holds.
pub uninterp spec fn literal_text(s: heapless::String<20>) -> Seq<char>;

/// The characters that a name buffer holds.
pub uninterp spec fn name_text(s: heapless::String<8>) -> Seq<char>;

/// The operators on an operator stack, bottom first.
pub uninterp spec fn stack_items(v: heapless::Vec<char, 32>) -> Seq<char>;

/// Bytes in the UTF-8 encoding of a character.
pub open spec fn char_width(c: char) -> nat {
    if (c as u32) < 0x80 {
        1
    } else if (c as u32) < 0x800 {
        2
    } else if (c as u32) < 0x10000 {
        3
    } else {
        4
    }
}

/// Bytes in the UTF-8 encoding of a text.
pub open spec fn byte_len(s: Seq<char>) -> nat
    decreases s.len(),
{
    if s.len() == 0 {
        0
    } else {
        byte_len(s.drop_last()) + char_width(s.last())
    }
}

pub proof fn lemma_byte_len_push(s: Seq<char>, c: char)
    ensures
        byte_len(s.push(c)) == byte_len(s) + char_width(c),
{
    assert(s.push(c).drop_last() =~= s);
}

pub proof fn lemma_byte_len_concat(a: Seq<char>, b: Seq<char>)
    ensures
        byte_len(a + b) == byte_len(a) + byte_len(b),
    decreases b.len(),
{
    if b.len() > 0 {
        assert((a + b).drop_last() =~= a + b.drop_last());
        lemma_byte_len_concat(a, b.drop_last());
    } else {
        assert(a + b =~= a);
    }
}

pub proof fn lemma_byte_len_prefix(s: Seq<char>, k: int)
    requires
        0 <= k <= s.len(),
    ensures
        byte_len(s.take(k)) <= byte_len(s),
        byte_len(s.take(k)) >= k,
    decreases s.len(),
{
    if k < s.len() {
        assert(s.drop_last().take(k) =~= s.take(k));
        lemma_byte_len_prefix(s.drop_last(), k);
    } else {
        assert(s.take(k) =~= s);
        lemma_byte_len_at_least_len(s);
    }
}

/// A text of ASCII characters has one byte per character.
pub proof fn lemma_byte_len_ascii(s: Seq<char>)
    requires
        forall|i: int| 0 <= i < s.len() ==> (#[trigger] s[i] as u32) < 0x80,
    ensures
        byte_len(s) == s.len(),
    decreases s.len(),
{
    if s.len() > 0 {
        assert(s[s.len() - 1] == s.last());
        lemma_byte_len_ascii(s.drop_last());
    }
}

pub proof fn lemma_byte_len_at_least_len(s: Seq<char>)
    ensures
        byte_len(s) >= s.len(),
    decreases s.len(),
{
    if s.len() > 0 {
        lemma_byte_len_at_least_len(s.drop_last());
    }
}

/// Bytes in the UTF-8 encoding of a character.
pub fn char_width_of(c: char) -> (w: usize)
    ensures
        w == char_width(c),
{
    let u = c as u32;
    if u < 0x80 {
        1
    } else if u < 0x800 {
        2
    } else if u < 0x10000 {
        3
    } else {
        4
    }
}

/// `heapless::String::as_str`: the text of the line, which never holds
/// more bytes than the capacity.
#[verifier::external_body]
pub(crate) fn line_str(s: &heapless::String<64>) -> (t: &str)
    ensures
        t@ == line_text(*s),
        byte_len(t@) <= LINE_CAP,
{
    s.as_str()
}

/// `heapless::String::clear`: the line becomes empty.
#[verifier::external_body]
pub(crate) fn line_clear(s: &mut heapless::String<64>)
    ensures
        line_text(*final(s)) == Seq::<char>::empty(),
{
    s.clear()
}

/// `heapless::String::pop`: removes and returns the last character, or
/// returns `None` and leaves an empty line as it is.
#[verifier::external_body]
pub(crate) fn line_pop(s: &mut heapless::String<64>) -> (c: Option<char>)
    ensures
        line_text(*old(s)).len() == 0 ==> c is None && line_text(*final(s)) == line_text(*old(s)),
        line_text(*old(s)).len() > 0 ==> c == Some(line_text(*old(s)).last()) && line_text(
            *final(s),
        ) == line_text(*old(s)).drop_last(),
{
    s.pop()
}

/// `heapless::String::push`: appends the character when its UTF-8 bytes
/// fit in the remaining capacity, and otherwise changes nothing; reports
/// which happened.
#[verifier::external_body]
pub(crate) fn line_push(s: &mut heapless::String<64>, c: char) -> (ok: bool)
    ensures
        ok == (byte_len(line_text(*old(s))) + char_width(c) <= LINE_CAP),
        ok ==> line_text(*final(s)) == line_text(*old(s)).push(c),
        !ok ==> line_text(*final(s)) == line_text(*old(s)),
{
    s.push(c).is_ok()
}


/// `heapless::String::new`: an empty literal buffer.
#[verifier::external_body]
pub(crate) fn literal_new() -> (s: heapless::String<20>)
    ensures
        literal_text(s) == Seq::<char>::empty(),
{
    heapless::String::new()
}

/// `heapless::String::push` on a literal buffer: appends the character
/// when its UTF-8 bytes fit, otherwise changes nothing; reports which.
#[verifier::external_body]
pub(crate) fn literal_push(s: &mut heapless::String<20>, c: char) -> (ok: bool)
    ensures
        ok == (byte_len(literal_text(*old(s))) + char_width(c) <= LITERAL_BUF),
        ok ==> literal_text(*final(s)) == literal_text(*old(s)).push(c),
        !ok ==> literal_text(*final(s)) == literal_text(*old(s)),
{
    s.push(c).is_ok()
}

/// `heapless::String::new`: an empty name buffer.
#[verifier::external_body]
pub(crate) fn name_new() -> (s: heapless::String<8>)
    ensures
        name_text(s) == Seq::<char>::empty(),
{
    heapless::String::new()
}

/// `heapless::String::push` on a name buffer: appends the character when
/// its UTF-8 bytes fit, otherwise changes nothing; reports which.
#[verifier::external_body]
pub(crate) fn name_push(s: &mut heapless::String<8>, c: char) -> (ok: bool)
    ensures
        ok == (byte_len(name_text(*old(s))) + char_width(c) <= NAME_BUF),
        ok ==> name_text(*final(s)) == name_text(*old(s)).push(c),
        !ok ==> name_text(*final(s)) == name_text(*old(s)),
{
    s.push(c).is_ok()
}

/// `heapless::String::as_str` on a name buffer: its text.
#[verifier::external_body]
pub(crate) fn name_str(s: &heapless::String<8>) -> (t: &str)
    ensures
        t@ == name_text(*s),
{
    s.as_str()
}

/// `heapless::Vec::new`: an empty operator stack.
#[verifier::external_body]
pub(crate) fn stack_new() -> (v: heapless::Vec<char, 32>)
    ensures
        stack_items(v) == Seq::<char>::empty(),
{
    heapless::Vec::new()
}

/// `heapless::Vec::push`: pushes the operator when the stack holds fewer
/// than its capacity, otherwise changes nothing; reports which.
#[verifier::external_body]
pub(crate) fn stack_push(v: &mut heapless::Vec<char, 32>, c: char) -> (ok: bool)
    ensures
        ok == (stack_items(*old(v)).len() < OPS_CAP),
        ok ==> stack_items(*final(v)) == stack_items(*old(v)).push(c),
        !ok ==> stack_items(*final(v)) == stack_items(*old(v)),
{
    v.push(c).is_ok()
}

/// `heapless::Vec::pop`: removes and returns the top operator, or returns
/// `None` and leaves an empty stack as it is.
#[verifier::external_body]
pub(crate) fn stack_pop(v: &mut heapless::Vec<char, 32>) -> (c: Option<char>)
    ensures
        stack_items(*old(v)).len() == 0 ==> c is None && stack_items(*final(v)) == stack_items(
            *old(v),
        ),
        stack_items(*old(v)).len() > 0 ==> c == Some(stack_items(*old(v)).last()) && stack_items(
            *final(v),
        ) == stack_items(*old(v)).drop_last(),
{
    v.pop()
}

/// `heapless::Vec::as_slice`: the operators, bottom first.
#[verifier::external_body]
pub(crate) fn stack_slice(v: &heapless::Vec<char, 32>) -> (s: &[char])
    ensures
        s@ == stack_items(*v),
{
    v.as_slice()
}


/// `heapless::String::new`: an empty line.
#[verifier::external_body]
pub(crate) fn line_new() -> (s: heapless::String<64>)
    ensures
        line_text(s) == Seq::<char>::empty(),
{
    heapless::String::new()
}

/// `heapless::String::push_str`: appends the whole text when its UTF-8
/// bytes fit in the remaining capacity, otherwise changes nothing; reports
/// which.
#[verifier::external_body]
pub(crate) fn line_push_str(s: &mut heapless::String<64>, t: &str) -> (ok: bool)
    ensures
        ok == (byte_len(line_text(*old(s))) + byte_len(t@) <= LINE_CAP),
        ok ==> line_text(*final(s)) == line_text(*old(s)) + t@,
        !ok ==> line_text(*final(s)) == line_text(*old(s)),
{
    s.push_str(t).is_ok()
}

/// `heapless::String::new`: an empty result buffer.
#[verifier::external_body]
pub(crate) fn result_new() -> (s: heapless::String<24>)
    ensures
        result_text(s) == Seq::<char>::empty(),
{
    heapless::String::new()
}

/// `heapless::String::push` on a result buffer: appends the character when
/// its UTF-8 bytes fit, otherwise changes nothing; reports which.
#[verifier::external_body]
pub(crate) fn result_push(s: &mut heapless::String<24>, c: char) -> (ok: bool)
    ensures
        ok == (byte_len(result_text(*old(s))) + char_width(c) <= RESULT_BUF),
        ok ==> result_text(*final(s)) == result_text(*old(s)).push(c),
        !ok ==> result_text(*final(s)) == result_text(*old(s)),
{
    s.push(c).is_ok()
}

/// `heapless::String::push_str` on a result buffer: appends the whole text
/// when its UTF-8 bytes fit, otherwise changes nothing; reports which.
#[verifier::external_body]
pub(crate) fn result_push_str(s: &mut heapless::String<24>, t: &str) -> (ok: bool)
    ensures
        ok == (byte_len(result_text(*old(s))) + byte_len(t@) <= RESULT_BUF),
        ok ==> result_text(*final(s)) == result_text(*old(s)) + t@,
        !ok ==> result_text(*final(s)) == result_text(*old(s)),
{
    s.push_str(t).is_ok()
}

/// `heapless::String::as_str` on a result buffer: its text.
#[verifier::external_body]
pub(crate) fn result_str(s: &heapless::String<24>) -> (t: &str)
    ensures
        t@ == result_text(*s),
{
    s.as_str()
}

} // verus!
