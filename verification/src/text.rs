//! The logical text model: a document is a sequence of characters in which
//! two kinds of line break live.  An ordinary `'\n'` is a hard break the user
//! asked for; the reserved sentinel [`SOFT_BREAK`] is an artificial break
//! inserted only to keep a rendered line within the terminal width.
//!
//! The sentinel is U+2029 PARAGRAPH SEPARATOR, chosen because the rope that
//! stores the document counts it as a line break, so the rope's line index
//! covers both break kinds at once.  A handful of other code points that the
//! rope would also count as breaks (and would pair CR with LF) are excluded
//! from documents altogether, so that "line" means the same thing to the rope
//! and to this model.

use vstd::prelude::*;

verus! {

/// The sentinel character marking an artificial (soft) line break.
pub const SOFT_BREAK: char = '\u{2029}';

/// A hard line break: a line division the user explicitly requested.
pub open spec fn is_hard_break(c: char) -> bool {
    c == '\n'
}

/// A soft line break: a line division inserted only to satisfy the width bound.
pub open spec fn is_soft_break(c: char) -> bool {
    c == SOFT_BREAK
}

/// Either kind of line break.
pub open spec fn is_line_break(c: char) -> bool {
    is_hard_break(c) || is_soft_break(c)
}

/// Code points that the rope's line index would also treat as line breaks.
/// They never enter a document, so the rope's notion of a line coincides with
/// this model's.
pub open spec fn is_foreign_break(c: char) -> bool {
    c == '\u{b}' || c == '\u{c}' || c == '\r' || c == '\u{85}' || c == '\u{2028}'
}

/// A character that a document may hold.
pub open spec fn admissible_char(c: char) -> bool {
    !is_foreign_break(c)
}

/// A document whose every character is admissible.
pub open spec fn admissible(s: Seq<char>) -> bool {
    forall|i: int| 0 <= i < s.len() ==> admissible_char(#[trigger] s[i])
}

/// An ordinary input character: not a break of either kind and admissible.
pub open spec fn is_plain_char(c: char) -> bool {
    !is_line_break(c) && admissible_char(c)
}

/// The number of line breaks (of either kind) in `s`.
pub open spec fn count_breaks(s: Seq<char>) -> nat
    decreases s.len(),
{
    if s.len() == 0 {
        0
    } else {
        count_breaks(s.drop_last()) + if is_line_break(s.last()) {
            1nat
        } else {
            0nat
        }
    }
}

/// The line index of the character position `i`: how many breaks lie before it.
pub open spec fn line_of(s: Seq<char>, i: int) -> nat {
    count_breaks(s.take(i))
}

/// The start offset of the line containing position `i`: the position just
/// after the nearest break before `i`, or zero if there is none.
pub open spec fn line_start_bef(s: Seq<char>, i: int) -> int
    decreases i,
{
    if i <= 0 {
        0
    } else if is_line_break(s[i - 1]) {
        i
    } else {
        line_start_bef(s, i - 1)
    }
}

/// The column of position `i` within its line, not counting the prompt label.
pub open spec fn col_of(s: Seq<char>, i: int) -> int {
    i - line_start_bef(s, i)
}

/// `s` with every soft break removed: what the caller sees when the
/// document is collapsed into a single string for submission.
pub open spec fn strip_soft(s: Seq<char>) -> Seq<char>
    decreases s.len(),
{
    if s.len() == 0 {
        Seq::<char>::empty()
    } else if is_soft_break(s.last()) {
        strip_soft(s.drop_last())
    } else {
        strip_soft(s.drop_last()).push(s.last())
    }
}

/// The end offset of the line containing position `i`: the position of the
/// first break at or after `i`, or the end of the text if there is none.
pub open spec fn line_end_aft(s: Seq<char>, i: int) -> int
    recommends
        0 <= i <= s.len(),
    decreases s.len() - i,
{
    if i >= s.len() {
        s.len() as int
    } else if is_line_break(s[i]) {
        i
    } else {
        line_end_aft(s, i + 1)
    }
}

/// Counting breaks in a prefix grows by one exactly at a break.
pub proof fn lemma_count_take_step(s: Seq<char>, j: int)
    requires
        1 <= j <= s.len(),
    ensures
        count_breaks(s.take(j)) == count_breaks(s.take(j - 1)) + if is_line_break(s[j - 1]) {
            1nat
        } else {
            0nat
        },
{
    assert(s.take(j).drop_last() =~= s.take(j - 1));
    assert(s.take(j).last() == s[j - 1]);
}

/// The whole sequence is its own prefix.
pub proof fn lemma_count_take_all(s: Seq<char>)
    ensures
        count_breaks(s.take(s.len() as int)) == count_breaks(s),
{
    assert(s.take(s.len() as int) =~= s);
}

/// Counting breaks in prefixes is monotone.
pub proof fn lemma_count_take_mono(s: Seq<char>, i: int, j: int)
    requires
        0 <= i <= j <= s.len(),
    ensures
        count_breaks(s.take(i)) <= count_breaks(s.take(j)),
    decreases j - i,
{
    if i < j {
        lemma_count_take_step(s, j);
        lemma_count_take_mono(s, i, j - 1);
    }
}

/// A break strictly between two prefix ends makes the counts strictly grow.
pub proof fn lemma_count_take_strict(s: Seq<char>, i: int, j: int, k: int)
    requires
        0 <= i <= k < j <= s.len(),
        is_line_break(s[k]),
    ensures
        count_breaks(s.take(i)) < count_breaks(s.take(j)),
{
    lemma_count_take_mono(s, i, k);
    lemma_count_take_step(s, k + 1);
    lemma_count_take_mono(s, k + 1, j);
}

/// The start of a line lies at or before any position on it.
pub proof fn lemma_line_start_bef_le(s: Seq<char>, i: int)
    requires
        0 <= i,
    ensures
        0 <= line_start_bef(s, i) <= i,
    decreases i,
{
    if i > 0 && !is_line_break(s[i - 1]) {
        lemma_line_start_bef_le(s, i - 1);
    }
}

/// A position that starts a line (nothing before it, or a break just before
/// it) and shares `i`'s break count is the start of `i`'s line.
pub proof fn lemma_line_start_unique(s: Seq<char>, i: int, o: int)
    requires
        0 <= i <= s.len(),
        0 <= o <= s.len(),
        count_breaks(s.take(o)) == count_breaks(s.take(i)),
        o == 0 || is_line_break(s[o - 1]),
    ensures
        o == line_start_bef(s, i),
    decreases i,
{
    if o > i {
        lemma_count_take_strict(s, i, o, o - 1);
    }
    if i == 0 {
    } else if is_line_break(s[i - 1]) {
        if o < i {
            lemma_count_take_mono(s, o, i - 1);
            lemma_count_take_step(s, i);
        }
    } else {
        lemma_count_take_step(s, i);
        lemma_line_start_unique(s, i - 1, o);
    }
}

/// In a document without line breaks every position sits on the first line,
/// which starts at offset zero.
pub proof fn lemma_no_break_start(s: Seq<char>, i: int)
    requires
        0 <= i <= s.len(),
        forall|j: int| 0 <= j < s.len() ==> !is_line_break(#[trigger] s[j]),
    ensures
        line_start_bef(s, i) == 0,
    decreases i,
{
    if i > 0 {
        lemma_no_break_start(s, i - 1);
    }
}

/// How a line start shifts when the first character is dropped.
pub proof fn lemma_line_start_bef_shift(s: Seq<char>, i: int)
    requires
        1 <= i <= s.len(),
    ensures
        line_start_bef(s, i) == if line_start_bef(s.skip(1), i - 1) > 0 {
            line_start_bef(s.skip(1), i - 1) + 1
        } else if is_line_break(s[0]) {
            1
        } else {
            0
        },
    decreases i,
{
    let rest = s.skip(1);
    if i == 1 {
        assert(line_start_bef(rest, 0) == 0);
        assert(line_start_bef(s, 0) == 0);
        if is_line_break(s[0]) {
            assert(line_start_bef(s, 1) == 1);
        } else {
            assert(line_start_bef(s, 1) == line_start_bef(s, 0));
        }
    } else {
        assert(rest[i - 2] == s[i - 1]);
        if is_line_break(s[i - 1]) {
            assert(line_start_bef(s, i) == i);
            assert(line_start_bef(rest, i - 1) == i - 1);
        } else {
            assert(line_start_bef(s, i) == line_start_bef(s, i - 1));
            assert(line_start_bef(rest, i - 1) == line_start_bef(rest, i - 2));
            lemma_line_start_bef_shift(s, i - 1);
        }
    }
}

/// Stripping a single character keeps it unless it is a soft break.
pub proof fn lemma_strip_soft_one(c: char)
    ensures
        strip_soft(seq![c]) == if is_soft_break(c) {
            Seq::<char>::empty()
        } else {
            seq![c]
        },
{
    let s = seq![c];
    assert(s.drop_last() =~= Seq::<char>::empty());
    assert(strip_soft(Seq::<char>::empty()) == Seq::<char>::empty());
    if !is_soft_break(c) {
        assert(Seq::<char>::empty().push(c) =~= seq![c]);
    }
}

/// Removing soft breaks distributes over concatenation.
pub proof fn lemma_strip_soft_concat(a: Seq<char>, b: Seq<char>)
    ensures
        strip_soft(a + b) == strip_soft(a) + strip_soft(b),
    decreases b.len(),
{
    if b.len() == 0 {
        assert(a + b =~= a);
        assert(strip_soft(a) + strip_soft(b) =~= strip_soft(a));
    } else {
        assert((a + b).drop_last() =~= a + b.drop_last());
        assert((a + b).last() == b.last());
        lemma_strip_soft_concat(a, b.drop_last());
        if is_soft_break(b.last()) {
            assert(strip_soft(b) == strip_soft(b.drop_last()));
        } else {
            assert(strip_soft(a) + strip_soft(b.drop_last()).push(b.last()) =~= (strip_soft(a)
                + strip_soft(b.drop_last())).push(b.last()));
        }
    }
}

/// The line end lies at or after any position on the line, within the text,
/// with no break strictly between the position and the end, and a break (or
/// the end of the text) at the end itself.
pub proof fn lemma_line_end_aft_props(s: Seq<char>, i: int)
    requires
        0 <= i <= s.len(),
    ensures
        i <= line_end_aft(s, i) <= s.len(),
        line_end_aft(s, i) == s.len() || is_line_break(s[line_end_aft(s, i)]),
        forall|j: int| i <= j < line_end_aft(s, i) ==> !is_line_break(#[trigger] s[j]),
    decreases s.len() - i,
{
    if i < s.len() && !is_line_break(s[i]) {
        lemma_line_end_aft_props(s, i + 1);
    }
}

/// A position at or after `i` with no break between, and a break (or the end
/// of the text) at it, is the end of `i`'s line.
pub proof fn lemma_line_end_unique(s: Seq<char>, i: int, e: int)
    requires
        0 <= i <= e <= s.len(),
        forall|j: int| i <= j < e ==> !is_line_break(#[trigger] s[j]),
        e == s.len() || is_line_break(s[e]),
    ensures
        e == line_end_aft(s, i),
    decreases e - i,
{
    if i == e {
    } else {
        lemma_line_end_unique(s, i + 1, e);
    }
}

/// A line start is determined by the characters before the position alone.
pub proof fn lemma_line_start_bef_prefix(s: Seq<char>, i: int, m: int)
    requires
        0 <= i <= m <= s.len(),
    ensures
        line_start_bef(s.take(m), i) == line_start_bef(s, i),
    decreases i,
{
    if i > 0 {
        assert(s.take(m)[i - 1] == s[i - 1]);
        if !is_line_break(s[i - 1]) {
            lemma_line_start_bef_prefix(s, i - 1, m);
        }
    }
}

} // verus!
