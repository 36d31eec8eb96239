use prompt_core::codec::{
    KEY_ARROW_DOWN, KEY_ARROW_LEFT, KEY_ARROW_RIGHT, KEY_ARROW_UP, KEY_BACKSPACE, KEY_ENTER,
    KEY_TAB,
};
use prompt_core::prompt_buffer::{KeyEvent, PromptBuffer};

fn ev(key_code: u32, key: char) -> KeyEvent {
    KeyEvent { key_code, key, alt_key: false, ctrl_key: false, meta_key: false }
}

fn fresh(width: usize) -> PromptBuffer {
    let mut pb = PromptBuffer::default();
    pb.configure(width);
    pb.start_new();
    pb.flush();
    pb
}

fn type_str(pb: &mut PromptBuffer, s: &str) {
    for c in s.chars() {
        pb.consume(ev(0, c));
        assert!(pb.cursor_offset() <= pb.char_count());
    }
}

#[test]
fn start_new_emits_initial_label() {
    let mut pb = PromptBuffer::default();
    pb.configure(20);
    pb.start_new();
    assert_eq!(pb.flush(), "\u{1b}[1mduckdb\u{1b}[m> ");
    assert_eq!(pb.collect(), "");
    assert_eq!(pb.cursor_offset(), 0);
}

#[test]
fn flush_drains_pending_output() {
    let mut pb = fresh(20);
    type_str(&mut pb, "ab");
    assert_eq!(pb.flush(), "ab");
    assert_eq!(pb.flush(), "");
}

#[test]
fn round_trip_without_wrap() {
    let mut pb = fresh(40);
    type_str(&mut pb, "hello world");
    assert_eq!(pb.char_count(), 11);
    assert_eq!(pb.cursor_offset(), 11);
    assert_eq!(pb.collect(), "hello world");
}

#[test]
fn narrow_terminal_soft_wraps() {
    // Width 12 leaves room for three characters beside the 8-column label:
    // the fourth keystroke of each line goes in after a fresh soft break.
    // Collecting hides the wraps: the caller gets back exactly what was typed.
    let mut pb = fresh(12);
    type_str(&mut pb, "hello world");
    assert_eq!(pb.char_count(), 14);
    assert_eq!(pb.collect(), "hello world");
}

#[test]
fn wrap_transparency_keeps_content() {
    // Every keystroke wraps at width 10, yet the collected text carries no
    // trace of the soft breaks.
    let mut pb = fresh(10);
    type_str(&mut pb, "abcdef");
    assert_eq!(pb.char_count(), 11);
    assert_eq!(pb.collect(), "abcdef");
}

#[test]
fn soft_wrap_emits_wrap_label() {
    let mut pb = fresh(10);
    type_str(&mut pb, "x");
    pb.flush();
    type_str(&mut pb, "y");
    assert_eq!(pb.flush(), "\r\n\u{1b}[1m   ..\u{1b}[m>> y");
    assert_eq!(pb.char_count(), 3);
    assert_eq!(pb.cursor_offset(), 3);
}

#[test]
fn submit_at_end_emits_continuation_label() {
    let mut pb = fresh(20);
    type_str(&mut pb, "a");
    pb.flush();
    pb.consume(ev(KEY_ENTER, '\r'));
    assert_eq!(pb.flush(), "\r\n\u{1b}[1m   ...\u{1b}[m> ");
    assert_eq!(pb.collect(), "a\n");
    assert_eq!(pb.cursor_offset(), 2);
}

#[test]
fn submit_mid_document() {
    let mut pb = fresh(40);
    type_str(&mut pb, "ab");
    pb.consume(ev(KEY_ARROW_LEFT, ' '));
    assert_eq!(pb.cursor_offset(), 1);
    pb.consume(ev(KEY_ENTER, '\r'));
    assert_eq!(pb.cursor_offset(), 2);
    assert_eq!(pb.collect(), "a\nb");
}

#[test]
fn backspace_across_soft_wrap() {
    // Typing two characters at width 10 wraps after the first: the document
    // becomes "x", a soft break, "y".  After widening the terminal, a
    // backspace behind the soft break removes the break and the "x" with it.
    let mut pb = fresh(10);
    type_str(&mut pb, "xy");
    assert_eq!(pb.char_count(), 3);
    pb.configure(40);
    pb.consume(ev(KEY_ARROW_LEFT, ' '));
    assert_eq!(pb.cursor_offset(), 2);
    pb.consume(ev(KEY_BACKSPACE, '\u{8}'));
    assert_eq!(pb.collect(), "y");
    assert_eq!(pb.cursor_offset(), 0);
    assert_eq!(pb.char_count(), 1);
}

#[test]
fn backspace_at_start_is_noop() {
    let mut pb = fresh(20);
    pb.consume(ev(KEY_BACKSPACE, '\u{8}'));
    assert_eq!(pb.flush(), "");
    assert_eq!(pb.collect(), "");
    assert_eq!(pb.cursor_offset(), 0);
}

#[test]
fn backspace_at_end_erases_in_place() {
    let mut pb = fresh(20);
    type_str(&mut pb, "ab");
    pb.flush();
    pb.consume(ev(KEY_BACKSPACE, '\u{8}'));
    assert_eq!(pb.flush(), "\u{8} \u{8}");
    assert_eq!(pb.collect(), "a");
    assert_eq!(pb.cursor_offset(), 1);
}

#[test]
fn backspace_removes_hard_break() {
    let mut pb = fresh(20);
    type_str(&mut pb, "a");
    pb.consume(ev(KEY_ENTER, '\r'));
    type_str(&mut pb, "b");
    assert_eq!(pb.collect(), "a\nb");
    pb.consume(ev(KEY_BACKSPACE, '\u{8}'));
    assert_eq!(pb.collect(), "a\n");
    pb.consume(ev(KEY_BACKSPACE, '\u{8}'));
    assert_eq!(pb.collect(), "a");
    assert_eq!(pb.cursor_offset(), 1);
}

#[test]
fn arrow_left_at_start_and_right_at_end_are_noops() {
    let mut pb = fresh(20);
    pb.consume(ev(KEY_ARROW_LEFT, ' '));
    assert_eq!(pb.flush(), "");
    assert_eq!(pb.cursor_offset(), 0);
    type_str(&mut pb, "a");
    pb.flush();
    pb.consume(ev(KEY_ARROW_RIGHT, ' '));
    assert_eq!(pb.flush(), "");
    assert_eq!(pb.cursor_offset(), 1);
}

#[test]
fn arrow_moves_emit_single_column_codes() {
    let mut pb = fresh(20);
    type_str(&mut pb, "ab");
    pb.flush();
    pb.consume(ev(KEY_ARROW_LEFT, ' '));
    assert_eq!(pb.flush(), "\u{1b}[D");
    pb.consume(ev(KEY_ARROW_RIGHT, ' '));
    assert_eq!(pb.flush(), "\u{1b}[C");
}

#[test]
fn arrow_left_crosses_soft_wrap_to_line_end() {
    // Width 12: "abcd" wraps after "abc"; the break sits at offset 3 with
    // three characters before it, so crossing it lands at column 8 + 3.
    let mut pb = fresh(12);
    type_str(&mut pb, "abcd");
    assert_eq!(pb.char_count(), 5);
    pb.consume(ev(KEY_ARROW_LEFT, ' '));
    pb.flush();
    pb.consume(ev(KEY_ARROW_LEFT, ' '));
    assert_eq!(pb.flush(), "\r\u{1b}[A\u{1b}[11C");
    assert_eq!(pb.cursor_offset(), 3);
}

#[test]
fn arrow_right_crosses_break_to_label_column() {
    let mut pb = fresh(10);
    type_str(&mut pb, "xy");
    pb.consume(ev(KEY_ARROW_LEFT, ' '));
    pb.consume(ev(KEY_ARROW_LEFT, ' '));
    assert_eq!(pb.cursor_offset(), 1);
    pb.flush();
    pb.consume(ev(KEY_ARROW_RIGHT, ' '));
    assert_eq!(pb.flush(), "\r\u{1b}[B\u{1b}[8C");
    assert_eq!(pb.cursor_offset(), 2);
}

#[test]
fn insert_mid_document_reflows() {
    let mut pb = fresh(20);
    type_str(&mut pb, "abc");
    pb.consume(ev(KEY_ARROW_LEFT, ' '));
    pb.consume(ev(KEY_ARROW_LEFT, ' '));
    assert_eq!(pb.cursor_offset(), 1);
    pb.flush();
    pb.consume(ev(0, 'x'));
    assert_eq!(pb.collect(), "axbc");
    assert_eq!(pb.cursor_offset(), 2);
    // One rendered line: clear it and rewind, redraw label plus text, then
    // step the cursor back two columns.
    assert_eq!(pb.flush(), "\u{1b}[2K\r\u{1b}[1mduckdb\u{1b}[m> axbc\u{1b}[2D");
}

#[test]
fn multi_line_reflow_emits_erase_redraw_and_navigation() {
    // Width 10 wraps after every character.  Inserting mid-document erases
    // both rendered lines bottom-up, redraws everything from the first-line
    // label, and navigates from the end of the rebuilt text back to just
    // after the insertion.
    let mut pb = fresh(10);
    type_str(&mut pb, "xy");
    pb.consume(ev(KEY_ARROW_LEFT, ' '));
    assert_eq!(pb.cursor_offset(), 2);
    pb.flush();
    pb.consume(ev(0, 'q'));
    assert_eq!(pb.collect(), "xqy");
    assert_eq!(pb.cursor_offset(), 3);
    let erase = "\r\u{1b}[2K\u{1b}[A\u{1b}[2K";
    let redraw = "\u{1b}[1mduckdb\u{1b}[m> x\r\n\u{1b}[1m   ..\u{1b}[m>> q\r\n\u{1b}[1m   ..\u{1b}[m>> y\r\n\u{1b}[1m   ..\u{1b}[m>> ";
    let navigate = "\u{1b}[2A\u{1b}[1C";
    assert_eq!(pb.flush(), format!("{erase}{redraw}{navigate}"));
}

#[test]
fn mid_document_insert_navigates_back_multi_column() {
    let mut pb = fresh(40);
    type_str(&mut pb, "abcdefghijkl");
    for _ in 0..12 {
        pb.consume(ev(KEY_ARROW_LEFT, ' '));
    }
    assert_eq!(pb.cursor_offset(), 0);
    pb.flush();
    pb.consume(ev(0, 'x'));
    assert_eq!(pb.collect(), "xabcdefghijkl");
    assert_eq!(pb.cursor_offset(), 1);
    let out = pb.flush();
    assert!(out.ends_with("\u{1b}[12D"));
}

#[test]
fn tab_inserts_two_spaces() {
    let mut pb = fresh(20);
    pb.consume(ev(KEY_TAB, '\t'));
    assert_eq!(pb.collect(), "  ");
    assert_eq!(pb.cursor_offset(), 2);
    assert_eq!(pb.flush(), "  ");
}

#[test]
fn tab_mid_line_is_capped_by_line_length() {
    // Width 12 holds three content columns; "abc" fills them, so a tab with
    // the cursor at the start of the line may not insert anything.  At width
    // 14 two columns are free and both spaces go in.
    let mut pb = fresh(12);
    type_str(&mut pb, "abc");
    for _ in 0..3 {
        pb.consume(ev(KEY_ARROW_LEFT, ' '));
    }
    assert_eq!(pb.cursor_offset(), 0);
    pb.flush();
    pb.consume(ev(KEY_TAB, '\t'));
    assert_eq!(pb.collect(), "abc");
    assert_eq!(pb.cursor_offset(), 0);
    assert_eq!(pb.flush(), "");
    let mut pb2 = fresh(14);
    type_str(&mut pb2, "abc");
    for _ in 0..3 {
        pb2.consume(ev(KEY_ARROW_LEFT, ' '));
    }
    pb2.consume(ev(KEY_TAB, '\t'));
    assert_eq!(pb2.collect(), "  abc");
    assert_eq!(pb2.cursor_offset(), 2);
}

#[test]
fn tab_is_capped_at_width_bound() {
    let mut pb = fresh(10);
    type_str(&mut pb, "a");
    pb.flush();
    pb.consume(ev(KEY_TAB, '\t'));
    assert_eq!(pb.collect(), "a");
    assert_eq!(pb.flush(), "");
    let mut pb2 = fresh(11);
    pb2.consume(ev(KEY_TAB, '\t'));
    assert_eq!(pb2.collect(), "  ");
}

#[test]
fn modified_and_special_keys_are_ignored() {
    let mut pb = fresh(20);
    type_str(&mut pb, "a");
    pb.flush();
    let mut e = ev(0, 'b');
    e.ctrl_key = true;
    pb.consume(e);
    let mut e2 = ev(0, 'c');
    e2.alt_key = true;
    pb.consume(e2);
    let mut e3 = ev(0, 'd');
    e3.meta_key = true;
    pb.consume(e3);
    pb.consume(ev(KEY_ARROW_UP, ' '));
    pb.consume(ev(KEY_ARROW_DOWN, ' '));
    pb.consume(ev(0, '\r'));
    assert_eq!(pb.collect(), "a");
    assert_eq!(pb.flush(), "");
}

#[test]
fn width_invariant_holds_after_edits() {
    // Every rendered line, label width included, stays strictly below the
    // terminal width.  Each rendered line in the redraw stream begins with a
    // 15-character label sequence that occupies 8 columns.
    let width = 13;
    let mut pb = PromptBuffer::default();
    pb.configure(width);
    pb.start_new();
    type_str(&mut pb, "one two three four");
    pb.consume(ev(KEY_ENTER, '\r'));
    type_str(&mut pb, "five");
    let out = pb.flush();
    for piece in out.split("\r\n") {
        let n = piece.chars().count();
        assert!(n >= 15);
        assert!(8 + (n - 15) < width);
    }
}

#[test]
fn cursor_stays_in_bounds_through_mixed_operations() {
    let mut pb = fresh(12);
    type_str(&mut pb, "hello world");
    let keys =
        [KEY_ARROW_LEFT, KEY_ARROW_LEFT, KEY_BACKSPACE, KEY_ARROW_RIGHT, KEY_TAB, KEY_ENTER,
            KEY_ARROW_LEFT, KEY_BACKSPACE];
    for k in keys {
        pb.consume(ev(k, ' '));
        assert!(pb.cursor_offset() <= pb.char_count());
    }
}

#[test]
fn reflow_is_idempotent_on_redraw() {
    // Inserting mid-document twice at the same width reflows twice; the
    // document settles and collecting is stable.
    let mut pb = fresh(12);
    type_str(&mut pb, "abcdef");
    pb.consume(ev(KEY_ARROW_LEFT, ' '));
    pb.consume(ev(0, 'x'));
    let first = pb.collect();
    pb.consume(ev(KEY_ARROW_LEFT, ' '));
    pb.consume(ev(KEY_ARROW_RIGHT, ' '));
    let second = pb.collect();
    assert_eq!(first, second);
}
