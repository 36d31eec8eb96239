//! Screen codec: pure functions that render cursor-motion and line-clearing
//! primitives into the terminal's escape-sequence encoding.
//!
//! Every primitive has a spec-level description as a `Seq<char>` and an
//! executable emitter that appends exactly that sequence to an output buffer.

use vstd::prelude::*;

verus! {

/// Key code of the tab key.
pub const KEY_TAB: u32 = 9;
/// Key code of the submit (enter) key.
pub const KEY_ENTER: u32 = 13;
/// Key code of the backspace key.
pub const KEY_BACKSPACE: u32 = 8;
/// Key code of the left arrow key.
pub const KEY_ARROW_LEFT: u32 = 37;
/// Key code of the up arrow key.
pub const KEY_ARROW_UP: u32 = 38;
/// Key code of the right arrow key.
pub const KEY_ARROW_RIGHT: u32 = 39;
/// Key code of the down arrow key.
pub const KEY_ARROW_DOWN: u32 = 40;

/// Carriage return plus line feed.
pub open spec fn crlf() -> Seq<char> {
    seq!['\r', '\n']
}

/// Escape sequence that moves the cursor up one row.
pub open spec fn cursor_up_one() -> Seq<char> {
    seq!['\u{1b}', '[', 'A']
}

/// Escape sequence that moves the cursor down one row.
pub open spec fn cursor_down_one() -> Seq<char> {
    seq!['\u{1b}', '[', 'B']
}

/// Escape sequence that moves the cursor right one column.
pub open spec fn cursor_right_one() -> Seq<char> {
    seq!['\u{1b}', '[', 'C']
}

/// Escape sequence that moves the cursor left one column.
pub open spec fn cursor_left_one() -> Seq<char> {
    seq!['\u{1b}', '[', 'D']
}

/// Escape sequence that clears the current line.
pub open spec fn clear_line_code() -> Seq<char> {
    seq!['\u{1b}', '[', '2', 'K']
}

/// The character standing for a decimal digit.
pub open spec fn digit_char(d: nat) -> char {
    if d == 0 {
        '0'
    } else if d == 1 {
        '1'
    } else if d == 2 {
        '2'
    } else if d == 3 {
        '3'
    } else if d == 4 {
        '4'
    } else if d == 5 {
        '5'
    } else if d == 6 {
        '6'
    } else if d == 7 {
        '7'
    } else if d == 8 {
        '8'
    } else {
        '9'
    }
}

/// The decimal rendering of a number, most significant digit first.
pub open spec fn dec_digits(n: nat) -> Seq<char>
    decreases n,
{
    if n < 10 {
        seq![digit_char(n)]
    } else {
        dec_digits(n / 10).push(digit_char(n % 10))
    }
}

/// Escape sequence that moves the cursor up by `n` rows.
pub open spec fn cursor_up_code(n: nat) -> Seq<char> {
    seq!['\u{1b}', '['] + dec_digits(n) + seq!['A']
}

/// Escape sequence that moves the cursor down by `n` rows.
pub open spec fn cursor_down_code(n: nat) -> Seq<char> {
    seq!['\u{1b}', '['] + dec_digits(n) + seq!['B']
}

/// Escape sequence that moves the cursor right by `n` columns.
pub open spec fn cursor_right_code(n: nat) -> Seq<char> {
    seq!['\u{1b}', '['] + dec_digits(n) + seq!['C']
}

/// Escape sequence that moves the cursor left by `n` columns.
pub open spec fn cursor_left_code(n: nat) -> Seq<char> {
    seq!['\u{1b}', '['] + dec_digits(n) + seq!['D']
}

/// The digit character of a value below ten.
pub fn digit(d: usize) -> (c: char)
    requires
        d < 10,
    ensures
        c == digit_char(d as nat),
{
    if d == 0 {
        '0'
    } else if d == 1 {
        '1'
    } else if d == 2 {
        '2'
    } else if d == 3 {
        '3'
    } else if d == 4 {
        '4'
    } else if d == 5 {
        '5'
    } else if d == 6 {
        '6'
    } else if d == 7 {
        '7'
    } else if d == 8 {
        '8'
    } else {
        '9'
    }
}

/// Appends the decimal rendering of `n` to `out`.
pub fn push_dec(out: &mut Vec<char>, n: usize)
    ensures
        final(out)@ == old(out)@ + dec_digits(n as nat),
    decreases n,
{
    if n < 10 {
        let c = digit(n);
        out.push(c);
        assert(final(out)@ =~= old(out)@ + dec_digits(n as nat));
    } else {
        assert(n / 10 < n && n / 10 >= 1) by (nonlinear_arith)
            requires
                n >= 10,
        ;
        push_dec(out, n / 10);
        let c = digit(n % 10);
        out.push(c);
        assert(final(out)@ =~= old(out)@ + dec_digits(n as nat));
    }
}

/// Appends an escape sequence moving the cursor by `n` rows or columns in the
/// direction named by the trailing letter of the sequence.
fn push_move(out: &mut Vec<char>, n: usize, dir: char)
    ensures
        final(out)@ == old(out)@ + seq!['\u{1b}', '['] + dec_digits(n as nat) + seq![dir],
{
    out.push('\u{1b}');
    out.push('[');
    push_dec(out, n);
    out.push(dir);
    assert(final(out)@ =~= old(out)@ + seq!['\u{1b}', '['] + dec_digits(n as nat) + seq![dir]);
}

/// Appends the escape sequence that moves the cursor up by `n` rows.
pub fn push_cursor_up(out: &mut Vec<char>, n: usize)
    ensures
        final(out)@ == old(out)@ + cursor_up_code(n as nat),
{
    push_move(out, n, 'A');
    assert(final(out)@ =~= old(out)@ + cursor_up_code(n as nat));
}

/// Appends the escape sequence that moves the cursor down by `n` rows.
pub fn push_cursor_down(out: &mut Vec<char>, n: usize)
    ensures
        final(out)@ == old(out)@ + cursor_down_code(n as nat),
{
    push_move(out, n, 'B');
    assert(final(out)@ =~= old(out)@ + cursor_down_code(n as nat));
}

/// Appends the escape sequence that moves the cursor right by `n` columns.
pub fn push_cursor_right(out: &mut Vec<char>, n: usize)
    ensures
        final(out)@ == old(out)@ + cursor_right_code(n as nat),
{
    push_move(out, n, 'C');
    assert(final(out)@ =~= old(out)@ + cursor_right_code(n as nat));
}

/// Appends the escape sequence that moves the cursor left by `n` columns.
pub fn push_cursor_left(out: &mut Vec<char>, n: usize)
    ensures
        final(out)@ == old(out)@ + cursor_left_code(n as nat),
{
    push_move(out, n, 'D');
    assert(final(out)@ =~= old(out)@ + cursor_left_code(n as nat));
}

/// Appends the escape sequence that moves the cursor up one row.
pub fn push_cursor_up_one(out: &mut Vec<char>)
    ensures
        final(out)@ == old(out)@ + cursor_up_one(),
{
    out.push('\u{1b}');
    out.push('[');
    out.push('A');
    assert(final(out)@ =~= old(out)@ + cursor_up_one());
}

/// Appends the escape sequence that moves the cursor down one row.
pub fn push_cursor_down_one(out: &mut Vec<char>)
    ensures
        final(out)@ == old(out)@ + cursor_down_one(),
{
    out.push('\u{1b}');
    out.push('[');
    out.push('B');
    assert(final(out)@ =~= old(out)@ + cursor_down_one());
}

/// Appends the escape sequence that moves the cursor right one column.
pub fn push_cursor_right_one(out: &mut Vec<char>)
    ensures
        final(out)@ == old(out)@ + cursor_right_one(),
{
    out.push('\u{1b}');
    out.push('[');
    out.push('C');
    assert(final(out)@ =~= old(out)@ + cursor_right_one());
}

/// Appends the escape sequence that moves the cursor left one column.
pub fn push_cursor_left_one(out: &mut Vec<char>)
    ensures
        final(out)@ == old(out)@ + cursor_left_one(),
{
    out.push('\u{1b}');
    out.push('[');
    out.push('D');
    assert(final(out)@ =~= old(out)@ + cursor_left_one());
}

/// Appends the escape sequence that clears the current line.
pub fn push_clear_line(out: &mut Vec<char>)
    ensures
        final(out)@ == old(out)@ + clear_line_code(),
{
    out.push('\u{1b}');
    out.push('[');
    out.push('2');
    out.push('K');
    assert(final(out)@ =~= old(out)@ + clear_line_code());
}

/// Appends a carriage return plus line feed.
pub fn push_crlf(out: &mut Vec<char>)
    ensures
        final(out)@ == old(out)@ + crlf(),
{
    out.push('\r');
    out.push('\n');
    assert(final(out)@ =~= old(out)@ + crlf());
}

} // verus!
