//! The prompt controller: owns the document, the cursor, the pending output
//! and the terminal width, and exposes the edit operations plus a key-event
//! dispatcher.
//!
//! Every operation's contract pins down the resulting document, cursor
//! offset, and the exact escape-code output appended, in terms of the spec
//! functions of [`crate::text`] and [`crate::wrap`].

use vstd::prelude::*;
use ropey::Rope;
use crate::codec::{
    crlf, cursor_up_one, cursor_down_one, cursor_left_one, cursor_right_one, cursor_right_code,
    push_cursor_up, push_cursor_down, push_cursor_left, push_cursor_right, push_cursor_up_one,
    push_cursor_down_one, push_cursor_left_one, push_cursor_right_one, push_clear_line, push_crlf,
    KEY_TAB, KEY_ENTER, KEY_BACKSPACE, KEY_ARROW_LEFT, KEY_ARROW_UP, KEY_ARROW_RIGHT,
    KEY_ARROW_DOWN,
};
use crate::text::{
    SOFT_BREAK, is_soft_break, is_hard_break, is_line_break, is_plain_char, admissible,
    admissible_char, line_start_bef, line_end_aft, strip_soft, lemma_count_take_all,
    lemma_count_take_mono, lemma_count_take_strict, lemma_line_start_bef_le,
    lemma_line_start_unique, lemma_line_end_aft_props, lemma_line_end_unique,
    lemma_line_start_bef_prefix, lemma_strip_soft_concat,
};
use crate::wrap::{
    PROMPT_WIDTH, TAB_WIDTH, MIN_WIDTH, prompt_init, prompt_endl, prompt_wrap, rewrap, rewrap_out,
    redraw_out, width_ok, width_ok_from, rep_up_clear, erase_out, nav_out, push_prompt_init,
    push_prompt_endl, push_prompt_wrap, lemma_rewrap_admissible,
};
use crate::rope_store::{
    rope_text, rope_new, rope_from_chars, rope_len, rope_char, rope_insert_char, rope_remove,
    rope_len_lines, rope_char_to_line, rope_line_to_char,
};

verus! {

/// A key event, independent of the host UI's native event object: the key's
/// code, the literal character for ordinary keys, and the modifier flags.
#[derive(Clone, Copy)]
pub struct KeyEvent {
    /// The key code (see the `KEY_` constants of [`crate::codec`]).
    pub key_code: u32,
    /// The literal character, meaningful for keys outside the named codes.
    pub key: char,
    /// Whether the alt modifier was held.
    pub alt_key: bool,
    /// Whether the control modifier was held.
    pub ctrl_key: bool,
    /// Whether the meta modifier was held.
    pub meta_key: bool,
}

/// The prompt buffer: the logical text being composed, the edit cursor, the
/// pending escape-code output, and the configured terminal width.
pub struct PromptBuffer {
    /// The pending output buffer.
    output_buffer: Vec<char>,
    /// The input buffer.
    text_buffer: Rope,
    /// The cursor: a character offset into the text buffer.
    cursor: usize,
    /// The terminal width in columns.
    terminal_width: usize,
}

impl PromptBuffer {
    /// The document: the logical text being composed.
    pub closed spec fn text(&self) -> Seq<char> {
        rope_text(self.text_buffer)
    }

    /// The pending output not yet flushed to the terminal surface.
    pub closed spec fn pending(&self) -> Seq<char> {
        self.output_buffer@
    }

    /// The cursor's character offset.
    pub closed spec fn cursor_at(&self) -> int {
        self.cursor as int
    }

    /// The configured terminal width in columns.
    pub closed spec fn width(&self) -> int {
        self.terminal_width as int
    }

    /// Well-formed: the cursor stays within the document and the document
    /// holds only admissible characters.
    pub open spec fn wf(&self) -> bool {
        0 <= self.cursor_at() <= self.text().len() && admissible(self.text())
    }

    /// Configured with a usable terminal width: at least the prompt label
    /// plus room for one character per line.
    pub open spec fn configured(&self) -> bool {
        self.width() >= MIN_WIDTH
    }

    /// The cursor's character offset into the document.
    pub fn cursor_offset(&self) -> (r: usize)
        ensures
            r as int == self.cursor_at(),
    {
        self.cursor
    }

    /// The number of characters the document holds.
    pub fn char_count(&self) -> (r: usize)
        ensures
            r as int == self.text().len(),
    {
        rope_len(&self.text_buffer)
    }

    /// Whether a usable terminal width has been configured.
    pub fn is_configured(&self) -> (r: bool)
        ensures
            r == self.configured(),
    {
        self.terminal_width >= MIN_WIDTH
    }

    /// Builds an unconfigured prompt buffer with an empty document.
    pub fn default() -> (res: Self)
        ensures
            res.text() == Seq::<char>::empty(),
            res.cursor_at() == 0,
            res.pending() == Seq::<char>::empty(),
            res.width() == 0,
            res.wf(),
    {
        PromptBuffer {
            output_buffer: Vec::new(),
            text_buffer: rope_new(),
            cursor: 0,
            terminal_width: 0,
        }
    }

    /// Records the terminal width.  Does not itself trigger a reflow: an
    /// already-wrapped prompt keeps its old wrap points until the next edit.
    pub fn configure(&mut self, width: usize)
        ensures
            final(self).width() == width as int,
            final(self).text() == old(self).text(),
            final(self).cursor_at() == old(self).cursor_at(),
            final(self).pending() == old(self).pending(),
    {
        self.terminal_width = width;
    }

    /// Resets the prompt: empty document, cursor at zero, and the pending
    /// output holding just the initial prompt label.
    pub fn start_new(&mut self)
        ensures
            final(self).text() == Seq::<char>::empty(),
            final(self).cursor_at() == 0,
            final(self).pending() == prompt_init(),
            final(self).width() == old(self).width(),
            final(self).wf(),
    {
        self.output_buffer.clear();
        push_prompt_init(&mut self.output_buffer);
        self.text_buffer = rope_new();
        self.cursor = 0;
        proof {
            assert(Seq::<char>::empty() + prompt_init() =~= prompt_init());
        }
    }

    /// Drains the pending output and hands it back for the terminal surface.
    pub fn flush(&mut self) -> (res: String)
        ensures
            res@ == old(self).pending(),
            final(self).pending() == Seq::<char>::empty(),
            final(self).text() == old(self).text(),
            final(self).cursor_at() == old(self).cursor_at(),
            final(self).width() == old(self).width(),
    {
        let ghost p = self.output_buffer@;
        let mut res = String::new();
        let n = self.output_buffer.len();
        let mut i: usize = 0;
        while i < n
            invariant
                i <= n,
                n == self.output_buffer@.len(),
                self.output_buffer@ == p,
                res@ == p.take(i as int),
            decreases n - i,
        {
            let c = self.output_buffer[i];
            string_push(&mut res, c);
            proof {
                assert(p.take((i + 1) as int).drop_last() =~= p.take(i as int));
                assert(p.take((i + 1) as int) =~= p.take(i as int).push(p[i as int]));
            }
            i += 1;
        }
        proof {
            assert(p.take(n as int) =~= p);
        }
        self.output_buffer.clear();
        res
    }

    /// Collects the document as a single string, every soft break dropped:
    /// the caller never sees where a long line wrapped, only the hard breaks
    /// it asked for.
    pub fn collect(&mut self) -> (res: String)
        ensures
            res@ == strip_soft(old(self).text()),
            final(self).text() == old(self).text(),
            final(self).cursor_at() == old(self).cursor_at(),
            final(self).pending() == old(self).pending(),
            final(self).width() == old(self).width(),
    {
        let ghost s = self.text();
        let mut res = String::new();
        let n = rope_len(&self.text_buffer);
        let mut i: usize = 0;
        while i < n
            invariant
                i <= n,
                n == s.len(),
                rope_text(self.text_buffer) == s,
                res@ == strip_soft(s.take(i as int)),
            decreases n - i,
        {
            let c = rope_char(&self.text_buffer, i);
            if c != SOFT_BREAK {
                string_push(&mut res, c);
            }
            proof {
                assert(s.take((i + 1) as int).drop_last() =~= s.take(i as int));
                assert(s.take((i + 1) as int).last() == s[i as int]);
            }
            i += 1;
        }
        proof {
            assert(s.take(n as int) =~= s);
        }
        res
    }

    /// Clears every currently-rendered line of the prompt from the terminal
    /// and leaves the cursor logically at the start.
    fn erase_prompt(&mut self)
        requires
            old(self).wf(),
        ensures
            final(self).text() == old(self).text(),
            final(self).cursor_at() == 0,
            final(self).pending() == old(self).pending() + erase_out(
                old(self).text(),
                old(self).cursor_at(),
            ),
            final(self).width() == old(self).width(),
            final(self).wf(),
    {
        let ghost s = self.text();
        let ghost cur0 = self.cursor as int;
        let ghost p0 = self.output_buffer@;
        let line_count = rope_len_lines(&self.text_buffer);
        let line_idx = rope_char_to_line(&self.text_buffer, self.cursor);
        proof {
            lemma_count_take_mono(s, cur0, s.len() as int);
            lemma_count_take_all(s);
        }
        if line_count == 1 {
            push_clear_line(&mut self.output_buffer);
            self.output_buffer.push('\r');
            self.cursor = 0;
            proof {
                assert(self.output_buffer@ =~= p0 + erase_out(s, cur0));
            }
            return ;
        }
        self.output_buffer.push('\r');
        if line_idx + 1 < line_count {
            push_cursor_down(&mut self.output_buffer, line_count - 1 - line_idx);
        }
        push_clear_line(&mut self.output_buffer);
        let ghost base = self.output_buffer@;
        let mut k: usize = 1;
        while k < line_count
            invariant
                1 <= k <= line_count,
                self.output_buffer@ == base + rep_up_clear((k - 1) as nat),
                rope_text(self.text_buffer) == s,
                self.cursor as int == cur0,
                self.terminal_width == old(self).terminal_width,
            decreases line_count - k,
        {
            push_cursor_up_one(&mut self.output_buffer);
            push_clear_line(&mut self.output_buffer);
            proof {
                assert(base + rep_up_clear((k - 1) as nat) + cursor_up_one() + crate::codec::clear_line_code()
                    =~= base + rep_up_clear(k as nat));
            }
            k += 1;
        }
        self.cursor = 0;
        proof {
            assert(rep_up_clear(0) =~= Seq::<char>::empty());
            if line_idx + 1 < line_count {
                assert(self.output_buffer@ =~= p0 + erase_out(s, cur0));
            } else {
                assert(self.output_buffer@ =~= p0 + erase_out(s, cur0));
            }
        }
    }

    /// Moves the cursor to `pos`, emitting the minimal escape sequence: a
    /// vertical move of the line difference, then a horizontal move of the
    /// column difference, each omitted when zero.
    fn move_cursor_to(&mut self, pos: usize)
        requires
            old(self).wf(),
            pos <= old(self).text().len(),
        ensures
            final(self).text() == old(self).text(),
            final(self).cursor_at() == pos as int,
            final(self).pending() == old(self).pending() + nav_out(
                old(self).text(),
                old(self).cursor_at(),
                pos as int,
            ),
            final(self).width() == old(self).width(),
            final(self).wf(),
    {
        let ghost s = self.text();
        let ghost cur0 = self.cursor as int;
        let ghost p0 = self.output_buffer@;
        proof {
            lemma_count_take_mono(s, cur0, s.len() as int);
            lemma_count_take_mono(s, pos as int, s.len() as int);
            lemma_count_take_all(s);
        }
        let src_line = rope_char_to_line(&self.text_buffer, self.cursor);
        let dst_line = rope_char_to_line(&self.text_buffer, pos);
        if src_line < dst_line {
            push_cursor_down(&mut self.output_buffer, dst_line - src_line);
        } else if src_line > dst_line {
            push_cursor_up(&mut self.output_buffer, src_line - dst_line);
        }
        let ghost v = self.output_buffer@.skip(p0.len() as int);
        proof {
            assert(self.output_buffer@ =~= p0 + v);
        }
        let src_start = rope_line_to_char(&self.text_buffer, src_line);
        let dst_start = rope_line_to_char(&self.text_buffer, dst_line);
        proof {
            lemma_line_start_unique(s, cur0, src_start as int);
            lemma_line_start_unique(s, pos as int, dst_start as int);
            lemma_line_start_bef_le(s, cur0);
            lemma_line_start_bef_le(s, pos as int);
        }
        let src_col = self.cursor - src_start;
        let dst_col = pos - dst_start;
        if src_col < dst_col {
            push_cursor_right(&mut self.output_buffer, dst_col - src_col);
        } else if src_col > dst_col {
            push_cursor_left(&mut self.output_buffer, src_col - dst_col);
        }
        self.cursor = pos;
        proof {
            assert(self.output_buffer@ =~= p0 + nav_out(s, cur0, pos as int));
        }
    }
}

/// An edit applied to the document in the middle of a reflow.
enum Mutation {
    /// Leave the document as it is.
    Keep,
    /// Insert one character at an offset.
    Insert(usize, char),
    /// Remove the character range between two offsets.
    Remove(usize, usize),
}

/// The document after a mutation.
spec fn apply_mutation(s: Seq<char>, m: Mutation) -> Seq<char> {
    match m {
        Mutation::Keep => s,
        Mutation::Insert(at, c) => s.insert(at as int, c),
        Mutation::Remove(b, e) => s.take(b as int) + s.skip(e as int),
    }
}

/// When a mutation is in bounds and keeps the document admissible.
spec fn mutation_ok(s: Seq<char>, m: Mutation) -> bool {
    match m {
        Mutation::Keep => true,
        Mutation::Insert(at, c) => at <= s.len() && s.len() < usize::MAX && admissible_char(c),
        Mutation::Remove(b, e) => b <= e <= s.len(),
    }
}

impl PromptBuffer {
    /// The full reflow: erase every rendered line, apply the mutation, then
    /// rebuild the document and the redraw output character by character,
    /// regenerating soft breaks to fit the width.  Leaves the cursor at the
    /// end of the rebuilt text.
    fn reflow_with(&mut self, m: Mutation)
        requires
            old(self).wf(),
            old(self).configured(),
            mutation_ok(old(self).text(), m),
        ensures
            final(self).width() == old(self).width(),
            final(self).text() == rewrap(
                apply_mutation(old(self).text(), m),
                old(self).width(),
                PROMPT_WIDTH as int,
            ),
            final(self).cursor_at() == final(self).text().len(),
            final(self).pending() == old(self).pending() + erase_out(
                old(self).text(),
                old(self).cursor_at(),
            ) + redraw_out(apply_mutation(old(self).text(), m), old(self).width()),
            final(self).wf(),
    {
        let ghost s0 = self.text();
        self.erase_prompt();
        match m {
            Mutation::Keep => {},
            Mutation::Insert(at, c) => rope_insert_char(&mut self.text_buffer, at, c),
            Mutation::Remove(b, e) => rope_remove(&mut self.text_buffer, b, e),
        }
        let ghost s1 = rope_text(self.text_buffer);
        proof {
            assert(s1 == apply_mutation(s0, m));
            assert forall|j: int| 0 <= j < s1.len() implies admissible_char(#[trigger] s1[j]) by {
                match m {
                    Mutation::Keep => {},
                    Mutation::Insert(at, c) => {},
                    Mutation::Remove(b, e) => {},
                }
            }
        }
        let n = rope_len(&self.text_buffer);
        let ghost base = self.output_buffer@;
        push_prompt_init(&mut self.output_buffer);
        let mut txt: Vec<char> = Vec::new();
        let w = self.terminal_width;
        let ghost wi = w as int;
        let mut col: usize = PROMPT_WIDTH;
        let mut i: usize = 0;
        proof {
            assert(self.output_buffer@ + rewrap_out(s1.skip(0), wi, PROMPT_WIDTH as int) =~= base
                + prompt_init() + rewrap_out(s1, wi, PROMPT_WIDTH as int)) by {
                assert(s1.skip(0) =~= s1);
            }
            assert(txt@ + rewrap(s1.skip(0), wi, PROMPT_WIDTH as int) =~= rewrap(
                s1,
                wi,
                PROMPT_WIDTH as int,
            )) by {
                assert(s1.skip(0) =~= s1);
            }
        }
        while i < n
            invariant
                i <= n,
                n == s1.len(),
                rope_text(self.text_buffer) == s1,
                self.terminal_width == w,
                MIN_WIDTH <= w,
                wi == w as int,
                PROMPT_WIDTH <= col <= w - 2,
                txt@ + rewrap(s1.skip(i as int), wi, col as int) == rewrap(
                    s1,
                    wi,
                    PROMPT_WIDTH as int,
                ),
                self.output_buffer@ + rewrap_out(s1.skip(i as int), wi, col as int) == base
                    + prompt_init() + rewrap_out(s1, wi, PROMPT_WIDTH as int),
            decreases n - i,
        {
            let ghost col0 = col as int;
            let ghost txt0 = txt@;
            let ghost out0 = self.output_buffer@;
            let ghost rest = s1.skip(i as int);
            proof {
                assert(rest.len() > 0);
                assert(rest[0] == s1[i as int]);
                assert(rest.skip(1) =~= s1.skip((i + 1) as int));
            }
            let c = rope_char(&self.text_buffer, i);
            if c == SOFT_BREAK {
                proof {
                    assert(rewrap(rest, wi, col0) == rewrap(rest.skip(1), wi, col0));
                    assert(rewrap_out(rest, wi, col0) == rewrap_out(rest.skip(1), wi, col0));
                }
            } else if c == '\n' {
                txt.push('\n');
                push_crlf(&mut self.output_buffer);
                push_prompt_endl(&mut self.output_buffer);
                col = PROMPT_WIDTH;
                proof {
                    assert(rewrap(rest, wi, col0) == seq!['\n'] + rewrap(
                        rest.skip(1),
                        wi,
                        PROMPT_WIDTH as int,
                    ));
                    assert(txt@ + rewrap(rest.skip(1), wi, PROMPT_WIDTH as int) =~= txt0 + rewrap(
                        rest,
                        wi,
                        col0,
                    ));
                    assert(rewrap_out(rest, wi, col0) == crlf() + prompt_endl() + rewrap_out(
                        rest.skip(1),
                        wi,
                        PROMPT_WIDTH as int,
                    ));
                    assert(self.output_buffer@ + rewrap_out(rest.skip(1), wi, PROMPT_WIDTH as int)
                        =~= out0 + rewrap_out(rest, wi, col0));
                }
            } else {
                txt.push(c);
                self.output_buffer.push(c);
                col = col + 1;
                if col + 1 >= w {
                    txt.push(SOFT_BREAK);
                    push_crlf(&mut self.output_buffer);
                    push_prompt_wrap(&mut self.output_buffer);
                    col = PROMPT_WIDTH;
                    proof {
                        assert(rewrap(rest, wi, col0) == seq![rest[0], SOFT_BREAK] + rewrap(
                            rest.skip(1),
                            wi,
                            PROMPT_WIDTH as int,
                        ));
                        assert(txt@ + rewrap(rest.skip(1), wi, PROMPT_WIDTH as int) =~= txt0
                            + rewrap(rest, wi, col0));
                        assert(rewrap_out(rest, wi, col0) == seq![rest[0]] + crlf() + prompt_wrap()
                            + rewrap_out(rest.skip(1), wi, PROMPT_WIDTH as int));
                        assert(self.output_buffer@ + rewrap_out(
                            rest.skip(1),
                            wi,
                            PROMPT_WIDTH as int,
                        ) =~= out0 + rewrap_out(rest, wi, col0));
                    }
                } else {
                    proof {
                        assert(rewrap(rest, wi, col0) == seq![rest[0]] + rewrap(
                            rest.skip(1),
                            wi,
                            col0 + 1,
                        ));
                        assert(txt@ + rewrap(rest.skip(1), wi, col0 + 1) =~= txt0 + rewrap(
                            rest,
                            wi,
                            col0,
                        ));
                        assert(rewrap_out(rest, wi, col0) == seq![rest[0]] + rewrap_out(
                            rest.skip(1),
                            wi,
                            col0 + 1,
                        ));
                        assert(self.output_buffer@ + rewrap_out(rest.skip(1), wi, col0 + 1) =~= out0
                            + rewrap_out(rest, wi, col0));
                    }
                }
            }
            i += 1;
        }
        proof {
            assert(s1.skip(n as int) =~= Seq::<char>::empty());
            assert(txt@ + Seq::<char>::empty() =~= txt@);
            assert(self.output_buffer@ + Seq::<char>::empty() =~= self.output_buffer@);
        }
        self.text_buffer = rope_from_chars(&txt);
        self.cursor = txt.len();
        proof {
            lemma_rewrap_admissible(s1, wi, PROMPT_WIDTH as int);
            assert(self.output_buffer@ =~= old(self).pending() + erase_out(s0, old(self).cursor_at())
                + redraw_out(s1, wi));
        }
    }
}

/// The document, cursor and appended output of inserting an ordinary
/// character with the cursor at the end of the document: if the current line
/// already meets the width bound, a soft break goes in first.
pub open spec fn append_step(s: Seq<char>, w: int, c: char) -> (Seq<char>, int, Seq<char>) {
    if PROMPT_WIDTH + (s.len() - line_start_bef(s, s.len() as int)) + 1 >= w {
        (s + seq![SOFT_BREAK, c], s.len() as int + 2, crlf() + prompt_wrap() + seq![c])
    } else {
        (s + seq![c], s.len() as int + 1, seq![c])
    }
}

/// Inserting an ordinary character at the cursor: the fast append at the end
/// of the document, or a full reflow with the cursor navigated back to just
/// after the inserted character.
pub open spec fn insert_char_step(s: Seq<char>, cur: int, w: int, c: char) -> (
    Seq<char>,
    int,
    Seq<char>,
) {
    if cur == s.len() {
        append_step(s, w, c)
    } else {
        let s1 = s.insert(cur, c);
        let s2 = rewrap(s1, w, PROMPT_WIDTH as int);
        let tgt = if cur + 1 <= s2.len() {
            cur + 1
        } else {
            s2.len() as int
        };
        (
            s2,
            tgt,
            erase_out(s, cur) + redraw_out(s1, w) + nav_out(s2, s2.len() as int, tgt),
        )
    }
}

/// Inserting a hard break at the cursor: CRLF plus the continuation label
/// always go out; a mid-document insert is followed by a full reflow and a
/// navigation back to just after the break.
pub open spec fn newline_step(s: Seq<char>, cur: int, w: int) -> (Seq<char>, int, Seq<char>) {
    let s1 = s.insert(cur, '\n');
    if cur + 1 == s1.len() {
        (s1, cur + 1, crlf() + prompt_endl())
    } else {
        let s2 = rewrap(s1, w, PROMPT_WIDTH as int);
        let tgt = if cur + 1 <= s2.len() {
            cur + 1
        } else {
            s2.len() as int
        };
        (
            s2,
            tgt,
            crlf() + prompt_endl() + erase_out(s1, cur + 1) + redraw_out(s1, w) + nav_out(
                s2,
                s2.len() as int,
                tgt,
            ),
        )
    }
}

/// A removal performed through a full reflow, with the cursor navigated to
/// the removal point afterwards.
pub open spec fn remove_reflow_step(s: Seq<char>, cur: int, b: int, e: int, tgt0: int, w: int) -> (
    Seq<char>,
    int,
    Seq<char>,
) {
    let s1 = s.take(b) + s.skip(e);
    let s2 = rewrap(s1, w, PROMPT_WIDTH as int);
    let tgt = if tgt0 <= s2.len() {
        tgt0
    } else {
        s2.len() as int
    };
    (
        s2,
        tgt,
        erase_out(s, cur) + redraw_out(s1, w) + nav_out(s2, s2.len() as int, tgt),
    )
}

/// Backspace: a no-op at offset zero; a hard break or an ordinary character
/// mid-document is removed through a reflow; a soft break is removed together
/// with the character before it; an ordinary character at the end is removed
/// in place with a backspace-space-backspace.
pub open spec fn erase_step(s: Seq<char>, cur: int, w: int) -> (Seq<char>, int, Seq<char>) {
    if cur <= 0 {
        (s, 0, Seq::<char>::empty())
    } else if is_hard_break(s[cur - 1]) {
        remove_reflow_step(s, cur, cur - 1, cur, cur - 1, w)
    } else if is_soft_break(s[cur - 1]) {
        let b = if cur >= 2 {
            cur - 2
        } else {
            0
        };
        remove_reflow_step(s, cur, b, cur, b, w)
    } else if cur == s.len() {
        (s.take(cur - 1), cur - 1, seq!['\u{8}', ' ', '\u{8}'])
    } else {
        remove_reflow_step(s, cur, cur - 1, cur, cur - 1, w)
    }
}

/// `k` copies of one character.
pub open spec fn char_rep(c: char, k: int) -> Seq<char> {
    Seq::new(k as nat, |i: int| c)
}

/// The tab key: up to [`TAB_WIDTH`] spaces inserted at the cursor, capped so
/// the current line — label width plus its whole content — never reaches the
/// width bound; never wraps.
pub open spec fn tab_step(s: Seq<char>, cur: int, w: int) -> (Seq<char>, int, Seq<char>) {
    let line_cols = PROMPT_WIDTH + (line_end_aft(s, cur) - line_start_bef(s, cur));
    let avail = if w - 1 > line_cols {
        w - 1 - line_cols
    } else {
        0
    };
    let k = if avail < TAB_WIDTH {
        avail
    } else {
        TAB_WIDTH as int
    };
    (s.take(cur) + char_rep(' ', k) + s.skip(cur), cur + k, char_rep(' ', k))
}

/// One step left: a no-op at offset zero; crossing a break lands at the end
/// of the previous line (rewind, up, then right past the label and the
/// line's content); otherwise a single column left.
pub open spec fn left_step(s: Seq<char>, cur: int) -> (Seq<char>, int, Seq<char>) {
    if cur <= 0 {
        (s, 0, Seq::<char>::empty())
    } else if is_line_break(s[cur - 1]) {
        (
            s,
            cur - 1,
            seq!['\r'] + cursor_up_one() + cursor_right_code(
                (PROMPT_WIDTH + (cur - 1 - line_start_bef(s, cur - 1))) as nat,
            ),
        )
    } else {
        (s, cur - 1, cursor_left_one())
    }
}

/// One step right: a no-op at the end of the document; crossing a break
/// lands at the start of the next line's content (rewind, down, then right
/// past the label); otherwise a single column right.
pub open spec fn right_step(s: Seq<char>, cur: int) -> (Seq<char>, int, Seq<char>) {
    if cur >= s.len() {
        (s, cur, Seq::<char>::empty())
    } else if is_line_break(s[cur]) {
        (s, cur + 1, seq!['\r'] + cursor_down_one() + cursor_right_code(PROMPT_WIDTH as nat))
    } else {
        (s, cur + 1, cursor_right_one())
    }
}

impl PromptBuffer {
    /// Inserts a single ordinary character at the cursor, wrapping the line
    /// first if it is already full.
    pub fn insert_char(&mut self, c: char)
        requires
            old(self).wf(),
            old(self).configured(),
            is_plain_char(c),
            old(self).text().len() + PROMPT_WIDTH + 1 <= usize::MAX,
        ensures
            final(self).width() == old(self).width(),
            final(self).wf(),
            ({
                let st = insert_char_step(old(self).text(), old(self).cursor_at(), old(self).width(), c);
                final(self).text() == st.0 && final(self).cursor_at() == st.1 && final(self).pending() == old(self).pending() + st.2
            }),
    {
        let ghost s = self.text();
        let ghost cur0 = self.cursor as int;
        let ghost p0 = self.output_buffer@;
        let len = rope_len(&self.text_buffer);
        if self.cursor == len {
            proof {
                lemma_count_take_mono(s, cur0, s.len() as int);
                lemma_count_take_all(s);
            }
            let line_id = rope_char_to_line(&self.text_buffer, self.cursor);
            let start = rope_line_to_char(&self.text_buffer, line_id);
            proof {
                lemma_line_start_unique(s, cur0, start as int);
                lemma_line_start_bef_le(s, cur0);
            }
            let line_len = self.cursor - start;
            if PROMPT_WIDTH + line_len + 1 >= self.terminal_width {
                rope_insert_char(&mut self.text_buffer, self.cursor, SOFT_BREAK);
                push_crlf(&mut self.output_buffer);
                push_prompt_wrap(&mut self.output_buffer);
                self.cursor = self.cursor + 1;
            }
            rope_insert_char(&mut self.text_buffer, self.cursor, c);
            self.cursor = self.cursor + 1;
            self.output_buffer.push(c);
            proof {
                let st = insert_char_step(s, cur0, old(self).width(), c);
                if PROMPT_WIDTH + (s.len() - line_start_bef(s, s.len() as int)) + 1
                    >= old(self).width() {
                    assert(self.text() =~= s + seq![SOFT_BREAK, c]) by {
                        assert(s.insert(cur0, SOFT_BREAK).insert(cur0 + 1, c) =~= s + seq![
                            SOFT_BREAK,
                            c,
                        ]);
                    }
                    assert(self.pending() =~= p0 + (crlf() + prompt_wrap() + seq![c]));
                } else {
                    assert(self.text() =~= s + seq![c]) by {
                        assert(s.insert(cur0, c) =~= s + seq![c]);
                    }
                    assert(self.pending() =~= p0 + seq![c]);
                }
                assert forall|j: int| 0 <= j < self.text().len() implies admissible_char(
                    #[trigger] self.text()[j],
                ) by {}
            }
        } else {
            let pos = self.cursor;
            self.reflow_with(Mutation::Insert(pos, c));
            let len2 = rope_len(&self.text_buffer);
            let tgt = if pos + 1 <= len2 {
                pos + 1
            } else {
                len2
            };
            self.move_cursor_to(tgt);
            proof {
                let st = insert_char_step(s, cur0, old(self).width(), c);
                assert(self.pending() =~= p0 + st.2);
            }
        }
    }

    /// Inserts a hard break at the cursor; mid-document this triggers a full
    /// reflow, since a hard break shifts every later wrap point.
    pub fn insert_newline(&mut self)
        requires
            old(self).wf(),
            old(self).configured(),
            old(self).text().len() + PROMPT_WIDTH + 1 <= usize::MAX,
        ensures
            final(self).width() == old(self).width(),
            final(self).wf(),
            ({
                let st = newline_step(old(self).text(), old(self).cursor_at(), old(self).width());
                final(self).text() == st.0 && final(self).cursor_at() == st.1 && final(self).pending() == old(self).pending() + st.2
            }),
    {
        let ghost s = self.text();
        let ghost cur0 = self.cursor as int;
        let ghost p0 = self.output_buffer@;
        rope_insert_char(&mut self.text_buffer, self.cursor, '\n');
        push_crlf(&mut self.output_buffer);
        push_prompt_endl(&mut self.output_buffer);
        self.cursor = self.cursor + 1;
        proof {
            assert forall|j: int| 0 <= j < self.text().len() implies admissible_char(
                #[trigger] self.text()[j],
            ) by {}
        }
        let pos = self.cursor;
        let len = rope_len(&self.text_buffer);
        if pos != len {
            self.reflow_with(Mutation::Keep);
            let len2 = rope_len(&self.text_buffer);
            let tgt = if pos <= len2 {
                pos
            } else {
                len2
            };
            self.move_cursor_to(tgt);
            proof {
                let st = newline_step(s, cur0, old(self).width());
                assert(self.pending() =~= p0 + st.2);
            }
        } else {
            proof {
                let st = newline_step(s, cur0, old(self).width());
                assert(self.pending() =~= p0 + st.2);
            }
        }
    }

    /// Backspace: removes the character before the cursor; a soft break goes
    /// together with the character before it, since a wrap marker alone
    /// carries no user-visible content.  A no-op at offset zero.
    pub fn erase_previous_char(&mut self)
        requires
            old(self).wf(),
            old(self).configured(),
        ensures
            final(self).width() == old(self).width(),
            final(self).wf(),
            ({
                let st = erase_step(old(self).text(), old(self).cursor_at(), old(self).width());
                final(self).text() == st.0 && final(self).cursor_at() == st.1 && final(self).pending() == old(self).pending() + st.2
            }),
    {
        let ghost s = self.text();
        let ghost cur0 = self.cursor as int;
        let ghost p0 = self.output_buffer@;
        if self.cursor == 0 {
            proof {
                assert(p0 + Seq::<char>::empty() =~= p0);
            }
            return ;
        }
        let pos = self.cursor;
        let c = rope_char(&self.text_buffer, pos - 1);
        if c == '\n' {
            self.reflow_with(Mutation::Remove(pos - 1, pos));
            let len2 = rope_len(&self.text_buffer);
            let tgt = if pos - 1 <= len2 {
                pos - 1
            } else {
                len2
            };
            self.move_cursor_to(tgt);
            proof {
                let st = erase_step(s, cur0, old(self).width());
                assert(self.pending() =~= p0 + st.2);
            }
        } else if c == SOFT_BREAK {
            let begin = if pos >= 2 {
                pos - 2
            } else {
                0
            };
            self.reflow_with(Mutation::Remove(begin, pos));
            let len2 = rope_len(&self.text_buffer);
            let tgt = if begin <= len2 {
                begin
            } else {
                len2
            };
            self.move_cursor_to(tgt);
            proof {
                let st = erase_step(s, cur0, old(self).width());
                assert(self.pending() =~= p0 + st.2);
            }
        } else {
            let len = rope_len(&self.text_buffer);
            if pos == len {
                self.output_buffer.push('\u{8}');
                self.output_buffer.push(' ');
                self.output_buffer.push('\u{8}');
                rope_remove(&mut self.text_buffer, pos - 1, pos);
                self.cursor = pos - 1;
                proof {
                    assert(s.skip(cur0) =~= Seq::<char>::empty());
                    assert(s.take(cur0 - 1) + s.skip(cur0) =~= s.take(cur0 - 1));
                    assert(self.pending() =~= p0 + seq!['\u{8}', ' ', '\u{8}']);
                    assert forall|j: int| 0 <= j < self.text().len() implies admissible_char(
                        #[trigger] self.text()[j],
                    ) by {}
                }
            } else {
                self.reflow_with(Mutation::Remove(pos - 1, pos));
                let len2 = rope_len(&self.text_buffer);
                let tgt = if pos - 1 <= len2 {
                    pos - 1
                } else {
                    len2
                };
                self.move_cursor_to(tgt);
                proof {
                    let st = erase_step(s, cur0, old(self).width());
                    assert(self.pending() =~= p0 + st.2);
                }
            }
        }
    }

    /// Inserts up to [`TAB_WIDTH`] spaces at the cursor, capped so the
    /// current line stays below the width bound; never wraps.
    pub fn insert_tab(&mut self)
        requires
            old(self).wf(),
            old(self).configured(),
            old(self).text().len() + PROMPT_WIDTH + 1 <= usize::MAX,
        ensures
            final(self).width() == old(self).width(),
            final(self).wf(),
            ({
                let st = tab_step(old(self).text(), old(self).cursor_at(), old(self).width());
                final(self).text() == st.0 && final(self).cursor_at() == st.1 && final(self).pending() == old(self).pending() + st.2
            }),
    {
        let ghost s = self.text();
        let ghost cur0 = self.cursor as int;
        let ghost p0 = self.output_buffer@;
        proof {
            lemma_count_take_mono(s, cur0, s.len() as int);
            lemma_count_take_all(s);
        }
        let line = rope_char_to_line(&self.text_buffer, self.cursor);
        let start = rope_line_to_char(&self.text_buffer, line);
        proof {
            lemma_line_start_unique(s, cur0, start as int);
            lemma_line_start_bef_le(s, cur0);
        }
        let line_count = rope_len_lines(&self.text_buffer);
        let len = rope_len(&self.text_buffer);
        let end: usize;
        if line + 1 < line_count {
            let nxt = rope_line_to_char(&self.text_buffer, line + 1);
            proof {
                assert(nxt > 0) by {
                    assert(s.take(0) =~= Seq::<char>::empty());
                }
                assert forall|j: int| cur0 <= j < nxt - 1 implies !is_line_break(
                    #[trigger] s[j],
                ) by {
                    if is_line_break(s[j]) {
                        lemma_count_take_strict(s, cur0, j + 1, j);
                        lemma_count_take_strict(s, j + 1, nxt as int, nxt - 1);
                    }
                }
                assert(nxt - 1 >= cur0) by {
                    if (nxt as int) <= cur0 {
                        lemma_count_take_mono(s, nxt as int, cur0);
                    }
                }
                lemma_line_end_unique(s, cur0, nxt - 1);
            }
            end = nxt - 1;
        } else {
            proof {
                assert forall|j: int| cur0 <= j < s.len() implies !is_line_break(
                    #[trigger] s[j],
                ) by {
                    if is_line_break(s[j]) {
                        lemma_count_take_strict(s, cur0, s.len() as int, j);
                    }
                }
                lemma_line_end_unique(s, cur0, s.len() as int);
            }
            end = len;
        }
        let line_len = end - start;
        let line_cols = PROMPT_WIDTH + line_len;
        let ub = self.terminal_width - 1;
        let avail = if ub > line_cols {
            ub - line_cols
        } else {
            0
        };
        let k = if avail < TAB_WIDTH {
            avail
        } else {
            TAB_WIDTH
        };
        proof {
            let stk = tab_step(s, cur0, old(self).width()).1 - cur0;
            assert(k as int == stk);
        }
        let mut j: usize = 0;
        while j < k
            invariant
                j <= k,
                k <= TAB_WIDTH,
                s.len() + PROMPT_WIDTH + 1 <= usize::MAX,
                cur0 + j <= s.len() + j,
                rope_text(self.text_buffer) == s.take(cur0) + char_rep(' ', j as int) + s.skip(cur0),
                rope_text(self.text_buffer).len() == s.len() + j,
                self.cursor as int == cur0 + j,
                self.output_buffer@ == p0 + char_rep(' ', j as int),
                self.terminal_width == old(self).terminal_width,
                0 <= cur0 <= s.len(),
            decreases k - j,
        {
            let ghost sj = rope_text(self.text_buffer);
            rope_insert_char(&mut self.text_buffer, self.cursor, ' ');
            self.cursor = self.cursor + 1;
            self.output_buffer.push(' ');
            proof {
                assert(sj.insert(cur0 + j, ' ') =~= s.take(cur0) + char_rep(' ', (j + 1) as int)
                    + s.skip(cur0));
                assert(p0 + char_rep(' ', j as int) + seq![' '] =~= p0 + char_rep(
                    ' ',
                    (j + 1) as int,
                ));
            }
            j += 1;
        }
        proof {
            assert(p0 + char_rep(' ', 0) =~= p0);
            assert(s.take(cur0) + char_rep(' ', 0) + s.skip(cur0) =~= s);
            assert forall|jj: int| 0 <= jj < self.text().len() implies admissible_char(
                #[trigger] self.text()[jj],
            ) by {}
        }
    }

    /// Moves the cursor one position left.  Crossing a break lands at the
    /// end of the previous line; a no-op at offset zero that emits nothing.
    pub fn move_cursor_left(&mut self)
        requires
            old(self).wf(),
            old(self).text().len() + PROMPT_WIDTH + 1 <= usize::MAX,
        ensures
            final(self).width() == old(self).width(),
            final(self).wf(),
            ({
                let st = left_step(old(self).text(), old(self).cursor_at());
                final(self).text() == st.0 && final(self).cursor_at() == st.1 && final(self).pending() == old(self).pending() + st.2
            }),
    {
        let ghost s = self.text();
        let ghost cur0 = self.cursor as int;
        let ghost p0 = self.output_buffer@;
        if self.cursor == 0 {
            proof {
                assert(p0 + Seq::<char>::empty() =~= p0);
            }
            return ;
        }
        let c = rope_char(&self.text_buffer, self.cursor - 1);
        if c == '\n' || c == SOFT_BREAK {
            proof {
                lemma_count_take_mono(s, cur0 - 1, s.len() as int);
                lemma_count_take_all(s);
            }
            let line_id = rope_char_to_line(&self.text_buffer, self.cursor - 1);
            let start = rope_line_to_char(&self.text_buffer, line_id);
            proof {
                lemma_line_start_unique(s, cur0 - 1, start as int);
                lemma_line_start_bef_le(s, cur0 - 1);
            }
            self.output_buffer.push('\r');
            push_cursor_up_one(&mut self.output_buffer);
            push_cursor_right(&mut self.output_buffer, PROMPT_WIDTH + (self.cursor - 1 - start));
            self.cursor = self.cursor - 1;
            proof {
                let st = left_step(s, cur0);
                assert(self.pending() =~= p0 + st.2);
            }
        } else {
            push_cursor_left_one(&mut self.output_buffer);
            self.cursor = self.cursor - 1;
            proof {
                let st = left_step(s, cur0);
                assert(self.pending() =~= p0 + st.2);
            }
        }
    }

    /// Moves the cursor one position right.  Crossing a break lands at the
    /// start of the next line's content; a no-op at the end of the document
    /// that emits nothing.
    pub fn move_cursor_right(&mut self)
        requires
            old(self).wf(),
        ensures
            final(self).width() == old(self).width(),
            final(self).wf(),
            ({
                let st = right_step(old(self).text(), old(self).cursor_at());
                final(self).text() == st.0 && final(self).cursor_at() == st.1 && final(self).pending() == old(self).pending() + st.2
            }),
    {
        let ghost s = self.text();
        let ghost cur0 = self.cursor as int;
        let ghost p0 = self.output_buffer@;
        let len = rope_len(&self.text_buffer);
        if self.cursor == len {
            proof {
                assert(p0 + Seq::<char>::empty() =~= p0);
            }
            return ;
        }
        let c = rope_char(&self.text_buffer, self.cursor);
        if c == '\n' || c == SOFT_BREAK {
            self.output_buffer.push('\r');
            push_cursor_down_one(&mut self.output_buffer);
            push_cursor_right(&mut self.output_buffer, PROMPT_WIDTH);
            self.cursor = self.cursor + 1;
            proof {
                let st = right_step(s, cur0);
                assert(self.pending() =~= p0 + st.2);
            }
        } else {
            push_cursor_right_one(&mut self.output_buffer);
            self.cursor = self.cursor + 1;
            proof {
                let st = right_step(s, cur0);
                assert(self.pending() =~= p0 + st.2);
            }
        }
    }

    /// Dispatches one key event: tab, submit, backspace and the four arrows
    /// go to their operations (up and down are reserved for history and
    /// ignored); any other key with no modifier held and an ordinary
    /// character inserts that character; everything else is ignored.
    pub fn consume(&mut self, event: KeyEvent)
        requires
            old(self).wf(),
            old(self).configured(),
            old(self).text().len() + PROMPT_WIDTH + 1 <= usize::MAX,
        ensures
            final(self).width() == old(self).width(),
            final(self).wf(),
            event.key_code == KEY_TAB ==> ({
                let st = tab_step(old(self).text(), old(self).cursor_at(), old(self).width());
                final(self).text() == st.0 && final(self).cursor_at() == st.1 && final(self).pending() == old(self).pending() + st.2
            }),
            event.key_code == KEY_ENTER ==> ({
                let st = newline_step(old(self).text(), old(self).cursor_at(), old(self).width());
                final(self).text() == st.0 && final(self).cursor_at() == st.1 && final(self).pending() == old(self).pending() + st.2
            }),
            event.key_code == KEY_BACKSPACE ==> ({
                let st = erase_step(old(self).text(), old(self).cursor_at(), old(self).width());
                final(self).text() == st.0 && final(self).cursor_at() == st.1 && final(self).pending() == old(self).pending() + st.2
            }),
            event.key_code == KEY_ARROW_LEFT ==> ({
                let st = left_step(old(self).text(), old(self).cursor_at());
                final(self).text() == st.0 && final(self).cursor_at() == st.1 && final(self).pending() == old(self).pending() + st.2
            }),
            event.key_code == KEY_ARROW_RIGHT ==> ({
                let st = right_step(old(self).text(), old(self).cursor_at());
                final(self).text() == st.0 && final(self).cursor_at() == st.1 && final(self).pending() == old(self).pending() + st.2
            }),
            is_other_key(event.key_code) && !event.alt_key && !event.ctrl_key && !event.meta_key
                && is_plain_char(event.key) ==> ({
                let st = insert_char_step(
                    old(self).text(),
                    old(self).cursor_at(),
                    old(self).width(),
                    event.key,
                );
                final(self).text() == st.0 && final(self).cursor_at() == st.1 && final(self).pending() == old(self).pending() + st.2
            }),
            event.key_code == KEY_ARROW_UP || event.key_code == KEY_ARROW_DOWN || (is_other_key(
                event.key_code,
            ) && (event.alt_key || event.ctrl_key || event.meta_key || !is_plain_char(event.key)))
                ==> final(self).text() == old(self).text() && final(self).cursor_at() == old(self).cursor_at() && final(self).pending() == old(self).pending(),
    {
        let code = event.key_code;
        if code == KEY_TAB {
            self.insert_tab();
        } else if code == KEY_ENTER {
            self.insert_newline();
        } else if code == KEY_BACKSPACE {
            self.erase_previous_char();
        } else if code == KEY_ARROW_UP || code == KEY_ARROW_DOWN {
        } else if code == KEY_ARROW_LEFT {
            self.move_cursor_left();
        } else if code == KEY_ARROW_RIGHT {
            self.move_cursor_right();
        } else {
            if !event.alt_key && !event.ctrl_key && !event.meta_key && is_plain(event.key) {
                self.insert_char(event.key);
            }
        }
    }
}

/// A key code outside the named keys: its event carries a literal character.
pub open spec fn is_other_key(code: u32) -> bool {
    code != KEY_TAB && code != KEY_ENTER && code != KEY_BACKSPACE && code != KEY_ARROW_UP && code
        != KEY_ARROW_DOWN && code != KEY_ARROW_LEFT && code != KEY_ARROW_RIGHT
}

/// Whether a character may be inserted into the document: not a break of
/// either kind, and none of the code points the rope would treat as one.
pub fn is_plain(c: char) -> (r: bool)
    ensures
        r == is_plain_char(c),
{
    c != '\n' && c != SOFT_BREAK && c != '\u{b}' && c != '\u{c}' && c != '\r' && c != '\u{85}'
        && c != '\u{2028}'
}

/// The document after typing the characters of `cs` one by one with the
/// cursor at the end, at terminal width `w`.
pub open spec fn type_chars(s: Seq<char>, cs: Seq<char>, w: int) -> Seq<char>
    decreases cs.len(),
{
    if cs.len() == 0 {
        s
    } else {
        type_chars(append_step(s, w, cs[0]).0, cs.skip(1), w)
    }
}

/// On a terminal wide enough that nothing wraps, typing appends literally.
proof fn lemma_type_chars_wide(s: Seq<char>, cs: Seq<char>, w: int)
    requires
        forall|i: int| 0 <= i < s.len() ==> is_plain_char(#[trigger] s[i]),
        forall|i: int| 0 <= i < cs.len() ==> is_plain_char(#[trigger] cs[i]),
        PROMPT_WIDTH + s.len() + cs.len() < w,
    ensures
        type_chars(s, cs, w) == s + cs,
    decreases cs.len(),
{
    if cs.len() == 0 {
        assert(s + cs =~= s);
    } else {
        crate::text::lemma_no_break_start(s, s.len() as int);
        let s1 = s + seq![cs[0]];
        assert(append_step(s, w, cs[0]).0 == s1);
        assert(forall|i: int| 0 <= i < s1.len() ==> is_plain_char(#[trigger] s1[i]));
        lemma_type_chars_wide(s1, cs.skip(1), w);
        assert((s + seq![cs[0]]) + cs.skip(1) =~= s + cs);
    }
}

/// Round-trip law: for any sequence of ordinary characters typed with no
/// explicit newline, on a terminal wide enough that nothing ever wraps, the
/// document is exactly the typed characters and collecting it returns them
/// unchanged.
pub proof fn lemma_collect_round_trip(cs: Seq<char>, w: int)
    requires
        forall|i: int| 0 <= i < cs.len() ==> is_plain_char(#[trigger] cs[i]),
        PROMPT_WIDTH + cs.len() < w,
    ensures
        type_chars(Seq::<char>::empty(), cs, w) == cs,
        strip_soft(type_chars(Seq::<char>::empty(), cs, w)) == cs,
{
    lemma_type_chars_wide(Seq::<char>::empty(), cs, w);
    assert(Seq::<char>::empty() + cs =~= cs);
    lemma_wrap_transparency(cs, w);
}

/// Typing adds only the typed characters and soft breaks: stripping the soft
/// breaks of the result extends the stripped start by exactly `cs`, and no
/// hard break appears that was not already there.
proof fn lemma_type_chars_strip(s: Seq<char>, cs: Seq<char>, w: int)
    requires
        forall|i: int| 0 <= i < cs.len() ==> is_plain_char(#[trigger] cs[i]),
    ensures
        strip_soft(type_chars(s, cs, w)) == strip_soft(s) + cs,
        (forall|i: int| 0 <= i < s.len() ==> !is_hard_break(#[trigger] s[i])) ==> (forall|i: int|
            0 <= i < type_chars(s, cs, w).len() ==> !is_hard_break(
                #[trigger] type_chars(s, cs, w)[i],
            )),
    decreases cs.len(),
{
    if cs.len() == 0 {
        assert(strip_soft(s) + cs =~= strip_soft(s));
    } else {
        let c = cs[0];
        let s1 = append_step(s, w, c).0;
        if PROMPT_WIDTH + (s.len() - line_start_bef(s, s.len() as int)) + 1 >= w {
            assert(s1 == s + seq![SOFT_BREAK, c]);
            lemma_strip_soft_concat(s, seq![SOFT_BREAK, c]);
            assert(seq![SOFT_BREAK, c].drop_last() =~= seq![SOFT_BREAK]);
            crate::text::lemma_strip_soft_one(SOFT_BREAK);
            assert(strip_soft(seq![SOFT_BREAK, c]) =~= seq![c]);
        } else {
            assert(s1 == s + seq![c]);
            lemma_strip_soft_concat(s, seq![c]);
            crate::text::lemma_strip_soft_one(c);
        }
        assert(strip_soft(s1) =~= strip_soft(s) + seq![c]);
        lemma_type_chars_strip(s1, cs.skip(1), w);
        assert((strip_soft(s) + seq![c]) + cs.skip(1) =~= strip_soft(s) + cs);
    }
}

/// Wrap transparency law: typing any ordinary characters, at any width,
/// yields a document whose soft breaks carry no content — stripping them
/// gives back exactly the typed characters — and introduces no hard break.
/// Since collecting the document strips its soft breaks, the caller gets
/// back exactly what was typed, however often it wrapped.
pub proof fn lemma_wrap_transparency(cs: Seq<char>, w: int)
    requires
        forall|i: int| 0 <= i < cs.len() ==> is_plain_char(#[trigger] cs[i]),
    ensures
        strip_soft(type_chars(Seq::<char>::empty(), cs, w)) == cs,
        forall|i: int|
            0 <= i < type_chars(Seq::<char>::empty(), cs, w).len() ==> !is_hard_break(
                #[trigger] type_chars(Seq::<char>::empty(), cs, w)[i],
            ),
{
    lemma_type_chars_strip(Seq::<char>::empty(), cs, w);
    assert(strip_soft(Seq::<char>::empty()) + cs =~= cs);
}

/// Width invariant law: inserting an ordinary character — at the end via
/// the fast append, or mid-document via a full reflow — preserves the width
/// invariant.
pub proof fn lemma_insert_char_width_ok(s: Seq<char>, cur: int, w: int, c: char)
    requires
        width_ok(s, w),
        MIN_WIDTH <= w,
        0 <= cur <= s.len(),
        is_plain_char(c),
    ensures
        width_ok(insert_char_step(s, cur, w, c).0, w),
{
    if cur == s.len() {
        lemma_append_width_ok(s, w, c);
    } else {
        crate::wrap::lemma_reflow_width_ok(s.insert(cur, c), w);
    }
}

/// Width invariant law: inserting a hard break preserves the width
/// invariant, whether at the end or through the mid-document reflow.
pub proof fn lemma_newline_width_ok(s: Seq<char>, cur: int, w: int)
    requires
        width_ok(s, w),
        MIN_WIDTH <= w,
        0 <= cur <= s.len(),
    ensures
        width_ok(newline_step(s, cur, w).0, w),
{
    let s1 = s.insert(cur, '\n');
    if cur + 1 == s1.len() {
        lemma_newline_end_width_ok(s, w);
    } else {
        crate::wrap::lemma_reflow_width_ok(s1, w);
    }
}

/// Width invariant law: backspace preserves the width invariant in every
/// case — the no-op, the in-place erase at the end, and the reflows.
pub proof fn lemma_erase_width_ok(s: Seq<char>, cur: int, w: int)
    requires
        width_ok(s, w),
        MIN_WIDTH <= w,
        0 <= cur <= s.len(),
    ensures
        width_ok(erase_step(s, cur, w).0, w),
{
    if cur <= 0 {
    } else if is_hard_break(s[cur - 1]) {
        crate::wrap::lemma_reflow_width_ok(s.take(cur - 1) + s.skip(cur), w);
    } else if is_soft_break(s[cur - 1]) {
        let b = if cur >= 2 {
            cur - 2
        } else {
            0
        };
        crate::wrap::lemma_reflow_width_ok(s.take(b) + s.skip(cur), w);
    } else if cur == s.len() {
        lemma_erase_end_width_ok(s, w);
    } else {
        crate::wrap::lemma_reflow_width_ok(s.take(cur - 1) + s.skip(cur), w);
    }
}

/// Width invariant law at the dispatcher: whatever key event arrives, the
/// document after `consume` still satisfies the width invariant at the
/// configured width.  The keys not named here (the arrows, ignored and
/// modified keys) leave the document unchanged, so the invariant carries
/// over trivially through `consume`'s own contract.
pub proof fn lemma_consume_width_ok(s: Seq<char>, cur: int, w: int, e: KeyEvent)
    requires
        width_ok(s, w),
        MIN_WIDTH <= w,
        0 <= cur <= s.len(),
    ensures
        e.key_code == KEY_TAB ==> width_ok(tab_step(s, cur, w).0, w),
        e.key_code == KEY_ENTER ==> width_ok(newline_step(s, cur, w).0, w),
        e.key_code == KEY_BACKSPACE ==> width_ok(erase_step(s, cur, w).0, w),
        is_other_key(e.key_code) && is_plain_char(e.key) ==> width_ok(
            insert_char_step(s, cur, w, e.key).0,
            w,
        ),
{
    lemma_tab_width_ok(s, cur, w);
    lemma_newline_width_ok(s, cur, w);
    lemma_erase_width_ok(s, cur, w);
    if is_plain_char(e.key) {
        lemma_insert_char_width_ok(s, cur, w, e.key);
    }
}

/// Width invariant law, fast append path: inserting an ordinary character
/// with the cursor at the end preserves the width invariant.
pub proof fn lemma_append_width_ok(s: Seq<char>, w: int, c: char)
    requires
        width_ok(s, w),
        MIN_WIDTH <= w,
        is_plain_char(c),
    ensures
        width_ok(append_step(s, w, c).0, w),
{
    let lsb = line_start_bef(s, s.len() as int);
    crate::wrap::lemma_end_col_last_line(s, PROMPT_WIDTH as int);
    crate::text::lemma_line_start_bef_le(s, s.len() as int);
    let ec = crate::wrap::end_col(s, PROMPT_WIDTH as int);
    if PROMPT_WIDTH + (s.len() - lsb) + 1 >= w {
        crate::wrap::lemma_width_ok_concat(s, seq![SOFT_BREAK, c], w, PROMPT_WIDTH as int);
        let t = seq![SOFT_BREAK, c];
        let t1 = seq![c];
        assert(t1[0] == c && !is_line_break(c));
        assert(t1.skip(1) =~= Seq::<char>::empty());
        assert(width_ok_from(Seq::<char>::empty(), w, PROMPT_WIDTH as int + 1));
        assert(width_ok_from(t1, w, PROMPT_WIDTH as int));
        assert(t[0] == SOFT_BREAK && is_line_break(SOFT_BREAK));
        assert(t.skip(1) =~= t1);
        assert(width_ok_from(t, w, ec));
    } else {
        crate::wrap::lemma_width_ok_concat(s, seq![c], w, PROMPT_WIDTH as int);
        let t1 = seq![c];
        assert(ec == PROMPT_WIDTH + (s.len() - lsb));
        assert(ec + 1 < w);
        assert(t1[0] == c && !is_line_break(c));
        assert(t1.skip(1) =~= Seq::<char>::empty());
        assert(width_ok_from(Seq::<char>::empty(), w, ec + 1));
        assert(width_ok_from(t1, w, ec));
    }
}

/// Width invariant law, hard break at the end: inserting a newline with the
/// cursor at the end preserves the width invariant.
pub proof fn lemma_newline_end_width_ok(s: Seq<char>, w: int)
    requires
        width_ok(s, w),
    ensures
        width_ok(newline_step(s, s.len() as int, w).0, w),
{
    crate::wrap::lemma_width_ok_concat(s, seq!['\n'], w, PROMPT_WIDTH as int);
    let t = seq!['\n'];
    let ec = crate::wrap::end_col(s, PROMPT_WIDTH as int);
    assert(t[0] == '\n' && is_line_break('\n'));
    assert(t.skip(1) =~= Seq::<char>::empty());
    assert(width_ok_from(Seq::<char>::empty(), w, PROMPT_WIDTH as int));
    assert(width_ok_from(t, w, ec));
    assert(s.insert(s.len() as int, '\n') =~= s + t);
}

/// Width invariant law, fast erase path: removing the last character
/// preserves the width invariant.
pub proof fn lemma_erase_end_width_ok(s: Seq<char>, w: int)
    requires
        width_ok(s, w),
        s.len() > 0,
    ensures
        width_ok(s.take(s.len() - 1), w),
{
    crate::wrap::lemma_width_ok_prefix(s, w, PROMPT_WIDTH as int, s.len() - 1);
}

/// Width invariant law, tab: the inserted spaces are capped by the current
/// line's full rendered width, so the invariant is preserved at any cursor
/// position.
pub proof fn lemma_tab_width_ok(s: Seq<char>, cur: int, w: int)
    requires
        width_ok(s, w),
        MIN_WIDTH <= w,
        0 <= cur <= s.len(),
    ensures
        width_ok(tab_step(s, cur, w).0, w),
{
    let ls = line_start_bef(s, cur);
    let le = line_end_aft(s, cur);
    lemma_line_start_bef_le(s, cur);
    lemma_line_end_aft_props(s, cur);
    let st = tab_step(s, cur, w);
    let k = st.1 - cur;
    if k == 0 {
        assert(char_rep(' ', 0) =~= Seq::<char>::empty());
        assert(st.0 =~= s);
    } else {
        let a = s.take(cur);
        let b = s.skip(cur);
        let r = char_rep(' ', k);
        assert(a + b =~= s);
        crate::wrap::lemma_width_ok_concat(a, b, w, PROMPT_WIDTH as int);
        crate::wrap::lemma_end_col_last_line(a, PROMPT_WIDTH as int);
        lemma_line_start_bef_prefix(s, cur, cur);
        let e0 = crate::wrap::end_col(a, PROMPT_WIDTH as int);
        assert(e0 == PROMPT_WIDTH + (cur - ls));
        assert(PROMPT_WIDTH + (le - ls) + k <= w - 1);
        assert forall|j: int| 0 <= j < r.len() implies !is_line_break(#[trigger] r[j]) by {
            assert(r[j] == ' ');
        }
        assert(st.0 =~= a + (r + b));
        crate::wrap::lemma_width_ok_concat(a, r + b, w, PROMPT_WIDTH as int);
        crate::wrap::lemma_width_ok_concat(r, b, w, e0);
        lemma_spaces_width_ok(k, w, e0);
        crate::wrap::lemma_end_col_no_breaks(r, e0);
        assert forall|j: int| 0 <= j < le - cur implies !is_line_break(#[trigger] b[j]) by {
            assert(b[j] == s[cur + j]);
        }
        assert(le - cur == b.len() || is_line_break(b[le - cur]));
        lemma_line_end_unique(b, 0, le - cur);
        crate::wrap::lemma_width_ok_from_raise(b, w, e0, e0 + k);
    }
}

/// A run of spaces that stays below the width bound is width-correct.
proof fn lemma_spaces_width_ok(k: int, w: int, col: int)
    requires
        0 <= k,
        col + k < w,
    ensures
        width_ok_from(char_rep(' ', k), w, col),
    decreases k,
{
    if k > 0 {
        lemma_spaces_width_ok(k - 1, w, col + 1);
        assert(char_rep(' ', k).skip(1) =~= char_rep(' ', k - 1));
        assert(!is_line_break(char_rep(' ', k)[0]));
    }
}

/// Relies on String::push: appends one character to the string.
#[verifier::external_body]
fn string_push(s: &mut String, c: char)
    ensures
        final(s)@ == old(s)@.push(c),
{
    s.push(c)
}

} // verus!
