//! The reflow engine's mathematical core: how a document is rebuilt so that
//! every rendered line fits the terminal width, and exactly which redraw
//! output that rebuild emits.
//!
//! A rendered line starts with a prompt label of fixed display width.  While
//! walking the document, the running line width starts at the label width;
//! a hard break resets it, and an ordinary character that would push the line
//! to the width bound is followed by an inserted soft break.

use vstd::prelude::*;
use crate::codec::{
    crlf, cursor_up_one, cursor_down_code, cursor_up_code, cursor_right_code, cursor_left_code,
    clear_line_code,
};
use crate::text::{
    SOFT_BREAK, is_soft_break, is_hard_break, is_line_break, admissible, admissible_char,
    count_breaks, line_of, col_of, line_start_bef, strip_soft,
};

verus! {

/// Display width of every prompt label (first line, continuation, and wrap).
pub const PROMPT_WIDTH: usize = 8;

/// How many spaces the tab key inserts at most.
pub const TAB_WIDTH: usize = 2;

/// The smallest terminal width the engine works with: the prompt label plus
/// room for at least one character on every line.
pub const MIN_WIDTH: usize = 10;

/// The label drawn at the start of a fresh prompt: bold `duckdb> `.
pub open spec fn prompt_init() -> Seq<char> {
    seq!['\u{1b}', '[', '1', 'm', 'd', 'u', 'c', 'k', 'd', 'b', '\u{1b}', '[', 'm', '>', ' ']
}

/// The label drawn after a hard break: bold `   ...> `.
pub open spec fn prompt_endl() -> Seq<char> {
    seq!['\u{1b}', '[', '1', 'm', ' ', ' ', ' ', '.', '.', '.', '\u{1b}', '[', 'm', '>', ' ']
}

/// The label drawn after a soft break: bold `   ..>> `.
pub open spec fn prompt_wrap() -> Seq<char> {
    seq!['\u{1b}', '[', '1', 'm', ' ', ' ', ' ', '.', '.', '\u{1b}', '[', 'm', '>', '>', ' ']
}

/// The document rebuilt by a reflow, starting with a running line width of
/// `col`: soft breaks are dropped and regenerated, hard breaks reset the
/// width, and any other character that brings the width within one column of
/// the bound is followed by a fresh soft break.
pub open spec fn rewrap(s: Seq<char>, w: int, col: int) -> Seq<char>
    decreases s.len(),
{
    if s.len() == 0 {
        Seq::<char>::empty()
    } else if is_soft_break(s[0]) {
        rewrap(s.skip(1), w, col)
    } else if is_hard_break(s[0]) {
        seq!['\n'] + rewrap(s.skip(1), w, PROMPT_WIDTH as int)
    } else if col + 2 >= w {
        seq![s[0], SOFT_BREAK] + rewrap(s.skip(1), w, PROMPT_WIDTH as int)
    } else {
        seq![s[0]] + rewrap(s.skip(1), w, col + 1)
    }
}

/// The redraw output a reflow emits while rebuilding, not counting the
/// leading first-line label: each hard break becomes CRLF plus the
/// continuation label, each generated soft break CRLF plus the wrap label.
pub open spec fn rewrap_out(s: Seq<char>, w: int, col: int) -> Seq<char>
    decreases s.len(),
{
    if s.len() == 0 {
        Seq::<char>::empty()
    } else if is_soft_break(s[0]) {
        rewrap_out(s.skip(1), w, col)
    } else if is_hard_break(s[0]) {
        crlf() + prompt_endl() + rewrap_out(s.skip(1), w, PROMPT_WIDTH as int)
    } else if col + 2 >= w {
        seq![s[0]] + crlf() + prompt_wrap() + rewrap_out(s.skip(1), w, PROMPT_WIDTH as int)
    } else {
        seq![s[0]] + rewrap_out(s.skip(1), w, col + 1)
    }
}

/// The whole redraw: the first-line label, then the rebuilt text with its
/// continuation labels.
pub open spec fn redraw_out(s: Seq<char>, w: int) -> Seq<char> {
    prompt_init() + rewrap_out(s, w, PROMPT_WIDTH as int)
}

/// Every rendered line of `s` fits the width bound when the current line
/// already occupies `col` columns: each further character keeps the line
/// strictly below `w` columns, and a break starts a fresh line at the label
/// width.
pub open spec fn width_ok_from(s: Seq<char>, w: int, col: int) -> bool
    decreases s.len(),
{
    if s.len() == 0 {
        true
    } else if is_line_break(s[0]) {
        width_ok_from(s.skip(1), w, PROMPT_WIDTH as int)
    } else {
        col + 1 < w && width_ok_from(s.skip(1), w, col + 1)
    }
}

/// The width invariant: every rendered line's label width plus content
/// length is strictly less than the terminal width.
pub open spec fn width_ok(s: Seq<char>, w: int) -> bool {
    PROMPT_WIDTH < w && width_ok_from(s, w, PROMPT_WIDTH as int)
}

/// `n` repetitions of cursor-up plus clear-line, as the erase phase emits
/// them while walking from the last rendered line back to the first.
pub open spec fn rep_up_clear(n: nat) -> Seq<char>
    decreases n,
{
    if n == 0 {
        Seq::<char>::empty()
    } else {
        rep_up_clear((n - 1) as nat) + cursor_up_one() + clear_line_code()
    }
}

/// The output of the erase phase: with a single rendered line, clear it and
/// return to column zero; otherwise rewind, step down to the last rendered
/// line, and clear every line while moving back up to the first.
pub open spec fn erase_out(s: Seq<char>, cur: int) -> Seq<char> {
    let lines = count_breaks(s) + 1;
    let li = line_of(s, cur);
    if lines == 1 {
        clear_line_code() + seq!['\r']
    } else {
        seq!['\r'] + (if li + 1 < lines {
            cursor_down_code((lines - 1 - li) as nat)
        } else {
            Seq::<char>::empty()
        }) + clear_line_code() + rep_up_clear((lines - 1) as nat)
    }
}

/// The minimal escape sequence moving the cursor between two positions of
/// the same document: a vertical move of the line difference, then a
/// horizontal move of the column difference, each omitted when zero.
pub open spec fn nav_out(s: Seq<char>, from: int, to: int) -> Seq<char> {
    let lf = line_of(s, from);
    let lt = line_of(s, to);
    let v = if lt > lf {
        cursor_down_code((lt - lf) as nat)
    } else if lf > lt {
        cursor_up_code((lf - lt) as nat)
    } else {
        Seq::<char>::empty()
    };
    let cf = col_of(s, from);
    let ct = col_of(s, to);
    let h = if ct > cf {
        cursor_right_code((ct - cf) as nat)
    } else if cf > ct {
        cursor_left_code((cf - ct) as nat)
    } else {
        Seq::<char>::empty()
    };
    v + h
}

/// The running line width after processing `s`, starting from `col`.
pub open spec fn end_col(s: Seq<char>, col: int) -> int
    decreases s.len(),
{
    if s.len() == 0 {
        col
    } else if is_line_break(s[0]) {
        end_col(s.skip(1), PROMPT_WIDTH as int)
    } else {
        end_col(s.skip(1), col + 1)
    }
}

/// Width checking splits over concatenation at the running width.
pub proof fn lemma_width_ok_concat(a: Seq<char>, b: Seq<char>, w: int, col: int)
    ensures
        width_ok_from(a + b, w, col) <==> (width_ok_from(a, w, col) && width_ok_from(
            b,
            w,
            end_col(a, col),
        )),
    decreases a.len(),
{
    if a.len() == 0 {
        assert(a + b =~= b);
    } else {
        assert((a + b)[0] == a[0]);
        assert((a + b).len() > 0);
        assert((a + b).skip(1) =~= a.skip(1) + b);
        if is_line_break(a[0]) {
            lemma_width_ok_concat(a.skip(1), b, w, PROMPT_WIDTH as int);
        } else {
            lemma_width_ok_concat(a.skip(1), b, w, col + 1);
        }
    }
}

/// A prefix of a width-correct document is width-correct.
pub proof fn lemma_width_ok_prefix(s: Seq<char>, w: int, col: int, k: int)
    requires
        width_ok_from(s, w, col),
        0 <= k <= s.len(),
    ensures
        width_ok_from(s.take(k), w, col),
{
    assert(s.take(k) + s.skip(k) =~= s);
    lemma_width_ok_concat(s.take(k), s.skip(k), w, col);
}

/// The running width is the label width plus the last line's content, or
/// grows from `col` while no break has occurred yet.
pub proof fn lemma_end_col_last_line(s: Seq<char>, col: int)
    ensures
        end_col(s, col) == if line_start_bef(s, s.len() as int) == 0 {
            col + s.len()
        } else {
            PROMPT_WIDTH + (s.len() - line_start_bef(s, s.len() as int))
        },
    decreases s.len(),
{
    if s.len() == 0 {
    } else {
        let rest = s.skip(1);
        if is_line_break(s[0]) {
            lemma_end_col_last_line(rest, PROMPT_WIDTH as int);
        } else {
            lemma_end_col_last_line(rest, col + 1);
        }
        crate::text::lemma_line_start_bef_shift(s, s.len() as int);
        crate::text::lemma_line_start_bef_le(rest, rest.len() as int);
    }
}

/// Over a break-free run the running width grows by one per character.
pub proof fn lemma_end_col_no_breaks(t: Seq<char>, col: int)
    requires
        forall|j: int| 0 <= j < t.len() ==> !is_line_break(#[trigger] t[j]),
    ensures
        end_col(t, col) == col + t.len(),
    decreases t.len(),
{
    if t.len() > 0 {
        let rest = t.skip(1);
        assert(forall|j: int| 0 <= j < rest.len() ==> !is_line_break(#[trigger] rest[j]));
        lemma_end_col_no_breaks(rest, col + 1);
    }
}

/// The width invariant survives raising the starting column, as long as the
/// first line (up to the first break) still fits below the bound.
pub proof fn lemma_width_ok_from_raise(t: Seq<char>, w: int, c1: int, c2: int)
    requires
        width_ok_from(t, w, c1),
        c1 <= c2,
        c2 + crate::text::line_end_aft(t, 0) < w,
    ensures
        width_ok_from(t, w, c2),
    decreases t.len(),
{
    if t.len() == 0 {
    } else if is_line_break(t[0]) {
    } else {
        let lea = crate::text::line_end_aft(t, 0);
        crate::text::lemma_line_end_aft_props(t, 0);
        let rest = t.skip(1);
        assert(forall|j: int| 0 <= j < lea - 1 ==> !is_line_break(#[trigger] rest[j]));
        assert(lea - 1 == rest.len() || is_line_break(rest[lea - 1]));
        crate::text::lemma_line_end_unique(rest, 0, lea - 1);
        lemma_width_ok_from_raise(rest, w, c1 + 1, c2 + 1);
    }
}

/// Width invariant law: the document a reflow rebuilds keeps every rendered
/// line strictly below the terminal width, for any terminal at least
/// `MIN_WIDTH` columns wide.
pub proof fn lemma_rewrap_width_ok(s: Seq<char>, w: int, col: int)
    requires
        MIN_WIDTH <= w,
        PROMPT_WIDTH <= col <= w - 2,
    ensures
        width_ok_from(rewrap(s, w, col), w, col),
    decreases s.len(),
{
    if s.len() == 0 {
    } else if is_soft_break(s[0]) {
        lemma_rewrap_width_ok(s.skip(1), w, col);
    } else if is_hard_break(s[0]) {
        lemma_rewrap_width_ok(s.skip(1), w, PROMPT_WIDTH as int);
        let r = rewrap(s.skip(1), w, PROMPT_WIDTH as int);
        let t = seq!['\n'] + r;
        assert(t.len() > 0 && t[0] == '\n');
        assert(t.skip(1) =~= r);
    } else if col + 2 >= w {
        lemma_rewrap_width_ok(s.skip(1), w, PROMPT_WIDTH as int);
        let r = rewrap(s.skip(1), w, PROMPT_WIDTH as int);
        let t = seq![s[0], SOFT_BREAK] + r;
        let t1 = seq![SOFT_BREAK] + r;
        assert(t.len() > 0 && t[0] == s[0]);
        assert(t.skip(1) =~= t1);
        assert(t1.len() > 0 && t1[0] == SOFT_BREAK);
        assert(t1.skip(1) =~= r);
        assert(width_ok_from(t1, w, col + 1));
    } else {
        lemma_rewrap_width_ok(s.skip(1), w, col + 1);
        let r = rewrap(s.skip(1), w, col + 1);
        let t = seq![s[0]] + r;
        assert(t.len() > 0 && t[0] == s[0]);
        assert(t.skip(1) =~= r);
    }
}

/// The width invariant of a full reflow, stated at the first line's label.
pub proof fn lemma_reflow_width_ok(s: Seq<char>, w: int)
    requires
        MIN_WIDTH <= w,
    ensures
        width_ok(rewrap(s, w, PROMPT_WIDTH as int), w),
{
    lemma_rewrap_width_ok(s, w, PROMPT_WIDTH as int);
}

/// A reflow is blind to the soft breaks of its input: it rebuilds the same
/// document and emits the same redraw as on the input with them stripped.
pub proof fn lemma_rewrap_ignores_soft(s: Seq<char>, w: int, col: int)
    ensures
        rewrap(s, w, col) == rewrap(strip_soft(s), w, col),
        rewrap_out(s, w, col) == rewrap_out(strip_soft(s), w, col),
    decreases s.len(),
{
    if s.len() == 0 {
    } else {
        let rest = s.skip(1);
        crate::text::lemma_strip_soft_concat(seq![s[0]], rest);
        assert(seq![s[0]] + rest =~= s);
        crate::text::lemma_strip_soft_one(s[0]);
        if is_soft_break(s[0]) {
            assert(Seq::<char>::empty() + strip_soft(rest) =~= strip_soft(rest));
            assert(strip_soft(s) == strip_soft(rest));
            lemma_rewrap_ignores_soft(rest, w, col);
        } else {
            assert(strip_soft(s) == seq![s[0]] + strip_soft(rest));
            let t = strip_soft(rest);
            assert((seq![s[0]] + t).len() > 0);
            assert((seq![s[0]] + t)[0] == s[0]);
            assert((seq![s[0]] + t).skip(1) =~= t);
            if is_hard_break(s[0]) {
                lemma_rewrap_ignores_soft(rest, w, PROMPT_WIDTH as int);
            } else if col + 2 >= w {
                lemma_rewrap_ignores_soft(rest, w, PROMPT_WIDTH as int);
            } else {
                lemma_rewrap_ignores_soft(rest, w, col + 1);
            }
        }
    }
}

/// Stripping the soft breaks of a rebuilt document gives back the input with
/// its own soft breaks stripped: a reflow neither loses nor adds content.
pub proof fn lemma_strip_rewrap(s: Seq<char>, w: int, col: int)
    ensures
        strip_soft(rewrap(s, w, col)) == strip_soft(s),
    decreases s.len(),
{
    if s.len() == 0 {
    } else {
        let rest = s.skip(1);
        crate::text::lemma_strip_soft_concat(seq![s[0]], rest);
        assert(seq![s[0]] + rest =~= s);
        crate::text::lemma_strip_soft_one(s[0]);
        if is_soft_break(s[0]) {
            assert(Seq::<char>::empty() + strip_soft(rest) =~= strip_soft(rest));
            lemma_strip_rewrap(rest, w, col);
        } else {
            if is_hard_break(s[0]) {
                lemma_strip_rewrap(rest, w, PROMPT_WIDTH as int);
                crate::text::lemma_strip_soft_concat(seq!['\n'], rewrap(rest, w, PROMPT_WIDTH as int));
                crate::text::lemma_strip_soft_one('\n');
            } else if col + 2 >= w {
                lemma_strip_rewrap(rest, w, PROMPT_WIDTH as int);
                crate::text::lemma_strip_soft_concat(
                    seq![s[0], SOFT_BREAK],
                    rewrap(rest, w, PROMPT_WIDTH as int),
                );
                assert(seq![s[0], SOFT_BREAK].drop_last() =~= seq![s[0]]);
                assert(seq![s[0], SOFT_BREAK].last() == SOFT_BREAK);
                assert(strip_soft(seq![s[0], SOFT_BREAK]) == seq![s[0]]);
            } else {
                lemma_strip_rewrap(rest, w, col + 1);
                crate::text::lemma_strip_soft_concat(seq![s[0]], rewrap(rest, w, col + 1));
            }
        }
    }
}

/// Idempotent reflow law: reflowing an already-reflowed document rebuilds
/// the identical document and emits the identical redraw output.
pub proof fn lemma_reflow_idempotent(s: Seq<char>, w: int)
    ensures
        rewrap(rewrap(s, w, PROMPT_WIDTH as int), w, PROMPT_WIDTH as int) == rewrap(
            s,
            w,
            PROMPT_WIDTH as int,
        ),
        rewrap_out(rewrap(s, w, PROMPT_WIDTH as int), w, PROMPT_WIDTH as int) == rewrap_out(
            s,
            w,
            PROMPT_WIDTH as int,
        ),
{
    let c = PROMPT_WIDTH as int;
    lemma_rewrap_ignores_soft(rewrap(s, w, c), w, c);
    lemma_strip_rewrap(s, w, c);
    lemma_rewrap_ignores_soft(s, w, c);
}

/// A reflow of an admissible document is admissible: it only keeps input
/// characters, re-emits hard breaks, and inserts the soft-break sentinel.
pub proof fn lemma_rewrap_admissible(s: Seq<char>, w: int, col: int)
    requires
        admissible(s),
    ensures
        admissible(rewrap(s, w, col)),
    decreases s.len(),
{
    if s.len() == 0 {
    } else {
        let rest = s.skip(1);
        assert(forall|i: int| 0 <= i < rest.len() ==> admissible_char(#[trigger] rest[i]));
        if is_soft_break(s[0]) {
            lemma_rewrap_admissible(rest, w, col);
        } else if is_hard_break(s[0]) {
            lemma_rewrap_admissible(rest, w, PROMPT_WIDTH as int);
            let t = seq!['\n'] + rewrap(rest, w, PROMPT_WIDTH as int);
            assert(forall|i: int| 0 <= i < t.len() ==> admissible_char(#[trigger] t[i]));
        } else if col + 2 >= w {
            lemma_rewrap_admissible(rest, w, PROMPT_WIDTH as int);
            let t = seq![s[0], SOFT_BREAK] + rewrap(rest, w, PROMPT_WIDTH as int);
            assert(forall|i: int| 0 <= i < t.len() ==> admissible_char(#[trigger] t[i]));
        } else {
            lemma_rewrap_admissible(rest, w, col + 1);
            let t = seq![s[0]] + rewrap(rest, w, col + 1);
            assert(forall|i: int| 0 <= i < t.len() ==> admissible_char(#[trigger] t[i]));
        }
    }
}

/// Appends the first-line prompt label to `out`.
pub fn push_prompt_init(out: &mut Vec<char>)
    ensures
        final(out)@ == old(out)@ + prompt_init(),
{
    out.push('\u{1b}');
    out.push('[');
    out.push('1');
    out.push('m');
    out.push('d');
    out.push('u');
    out.push('c');
    out.push('k');
    out.push('d');
    out.push('b');
    out.push('\u{1b}');
    out.push('[');
    out.push('m');
    out.push('>');
    out.push(' ');
    assert(final(out)@ =~= old(out)@ + prompt_init());
}

/// Appends the continuation prompt label to `out`.
pub fn push_prompt_endl(out: &mut Vec<char>)
    ensures
        final(out)@ == old(out)@ + prompt_endl(),
{
    out.push('\u{1b}');
    out.push('[');
    out.push('1');
    out.push('m');
    out.push(' ');
    out.push(' ');
    out.push(' ');
    out.push('.');
    out.push('.');
    out.push('.');
    out.push('\u{1b}');
    out.push('[');
    out.push('m');
    out.push('>');
    out.push(' ');
    assert(final(out)@ =~= old(out)@ + prompt_endl());
}

/// Appends the wrap prompt label to `out`.
pub fn push_prompt_wrap(out: &mut Vec<char>)
    ensures
        final(out)@ == old(out)@ + prompt_wrap(),
{
    out.push('\u{1b}');
    out.push('[');
    out.push('1');
    out.push('m');
    out.push(' ');
    out.push(' ');
    out.push(' ');
    out.push('.');
    out.push('.');
    out.push('\u{1b}');
    out.push('[');
    out.push('m');
    out.push('>');
    out.push('>');
    out.push(' ');
    assert(final(out)@ =~= old(out)@ + prompt_wrap());
}

} // verus!
