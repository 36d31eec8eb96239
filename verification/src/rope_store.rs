//! The trusted boundary to the rope that stores the document.
//!
//! The document lives in a `ropey::Rope`, which gives logarithmic insert,
//! remove and line-index lookups.  Verus sees the rope only through the
//! uninterpreted contents function [`rope_text`] and the wrappers below; each
//! wrapper's contract states, over that contents, what the rope's source
//! shows for the one method it calls.
//!
//! The line-index wrappers are stated only for admissible documents (see
//! [`crate::text::admissible`]): with every foreign break code point kept out
//! of the rope, the rope's line breaks are exactly `'\n'` and the soft-break
//! sentinel U+2029, and no CRLF pair can form, so the rope's line count is
//! one more than [`count_breaks`] of its contents.

use vstd::prelude::*;
use ropey::Rope;
use crate::text::{admissible, count_breaks, is_line_break};

verus! {

#[verifier::external_type_specification]
#[verifier::external_body]
pub struct ExRope(Rope);

/// The characters the rope holds, in order.
pub uninterp spec fn rope_text(r: Rope) -> Seq<char>;

/// Relies on ropey::Rope::new: a freshly built rope is empty.
#[verifier::external_body]
pub fn rope_new() -> (r: Rope)
    ensures
        rope_text(r) == Seq::<char>::empty(),
{
    Rope::new()
}

/// Relies on ropey::Rope::from_str: the rope holds exactly the characters of
/// the text it is built from.
#[verifier::external_body]
pub fn rope_from_chars(v: &Vec<char>) -> (r: Rope)
    ensures
        rope_text(r) == v@,
{
    let s: String = v.iter().collect();
    Rope::from_str(&s)
}

/// Relies on ropey::Rope::len_chars: the total number of characters.
#[verifier::external_body]
pub fn rope_len(r: &Rope) -> (n: usize)
    ensures
        n == rope_text(*r).len(),
{
    r.len_chars()
}

/// Relies on ropey::Rope::char: the character at the given index.
#[verifier::external_body]
pub fn rope_char(r: &Rope, i: usize) -> (c: char)
    requires
        i < rope_text(*r).len(),
    ensures
        c == rope_text(*r)[i as int],
{
    r.char(i)
}

/// Relies on ropey::Rope::insert_char: the character is inserted at the
/// given character index.  The index must be in bounds (the rope panics
/// otherwise), and the rope must have room for one more character.
#[verifier::external_body]
pub fn rope_insert_char(r: &mut Rope, at: usize, c: char)
    requires
        at <= rope_text(*old(r)).len(),
        rope_text(*old(r)).len() < usize::MAX,
    ensures
        rope_text(*final(r)) == rope_text(*old(r)).insert(at as int, c),
{
    r.insert_char(at, c)
}

/// Relies on ropey::Rope::remove: the character range `begin..end` is
/// removed.  The range must be ordered and in bounds (the rope panics
/// otherwise).
#[verifier::external_body]
pub fn rope_remove(r: &mut Rope, begin: usize, end: usize)
    requires
        begin <= end <= rope_text(*old(r)).len(),
    ensures
        rope_text(*final(r)) == rope_text(*old(r)).take(begin as int) + rope_text(*old(r)).skip(
            end as int,
        ),
{
    r.remove(begin..end)
}

/// Relies on ropey::Rope::len_lines: one more than the number of line
/// breaks, which for an admissible document are exactly the hard and soft
/// breaks of the contents.
#[verifier::external_body]
pub fn rope_len_lines(r: &Rope) -> (n: usize)
    requires
        admissible(rope_text(*r)),
    ensures
        n == count_breaks(rope_text(*r)) + 1,
{
    r.len_lines()
}

/// Relies on ropey::Rope::char_to_line: the index of the line containing the
/// given character position, which for an admissible document is the number
/// of breaks strictly before it.
#[verifier::external_body]
pub fn rope_char_to_line(r: &Rope, i: usize) -> (l: usize)
    requires
        i <= rope_text(*r).len(),
        admissible(rope_text(*r)),
    ensures
        l == count_breaks(rope_text(*r).take(i as int)),
{
    r.char_to_line(i)
}

/// Relies on ropey::Rope::line_to_char: the character index at which the
/// given line starts.  For an admissible document that is the position just
/// after the line's preceding break: a position whose prefix holds exactly
/// `l` breaks and which is either the start of the text or preceded by a
/// break.
#[verifier::external_body]
pub fn rope_line_to_char(r: &Rope, l: usize) -> (o: usize)
    requires
        l <= count_breaks(rope_text(*r)),
        admissible(rope_text(*r)),
    ensures
        o <= rope_text(*r).len(),
        count_breaks(rope_text(*r).take(o as int)) == l,
        o == 0 || is_line_break(rope_text(*r)[o - 1]),
{
    r.line_to_char(l)
}

} // verus!
