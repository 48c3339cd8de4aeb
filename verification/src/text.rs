//! The text buffer: content, cursor and scroll viewport.
//!
//! Content is a flat sequence of code points; the cursor is a `(line, column)`
//! pair that may stand on any code point of its line or one past the line's
//! content — so text can be appended at the very end, and an empty buffer is
//! one empty line (`crate::lines` defines the line structure).  Every mutation
//! goes through `goto`, which clamps any requested position into range and
//! keeps the viewport over the cursor, so navigation never fails and never
//! panics.

use vstd::prelude::*;

use crate::lines::{
    cp_to_idx, cursor_ok, idx_to_col, idx_to_line, lemma_cursor_prefix_flat, lemma_idx_bridge,
    lemma_line_count_le_len, lemma_line_count_pos, lemma_line_shape, lemma_line_start_props,
    lemma_newlines_agree, lemma_newlines_flat, lemma_newlines_mono, lemma_newlines_nonneg,
    lemma_round_trip, lemma_seek_agree, lemma_seek_bounds, lemma_seek_found, lemma_seek_none,
    lemma_seek_skip, lemma_seek_split, line_content_len, line_count, line_start, newlines_before,
    seek_line,
};
use vstd::string::StrSliceExecFns;

verus! {

/// Ceiling on the buffer length in code points.  A `char` occupies four bytes,
/// so no real allocation can reach an eighth of the address space; the slack
/// keeps every cursor and viewport computation free of overflow.
pub const MAX_TEXT: usize = usize::MAX / 8;

/// A cursor as a zero-based `(line, column)` pair, both counted in code
/// points.
#[derive(Debug, Clone, Copy, PartialEq, Eq, Structural)]
pub struct CursorPosition {
    pub line: usize,
    pub col: usize,
}

/// The sliding window of lines that rendering shows, `lines` tall starting at
/// `cur_line`; `cols` and `cur_col` describe the horizontal window and are
/// carried for the renderer.
#[derive(Debug, Clone, Copy, PartialEq, Eq, Structural)]
pub struct Viewport {
    pub cols: usize,
    pub cur_col: usize,
    pub cur_line: usize,
    pub lines: usize,
}

impl Viewport {
    /// Whether line `lineno` falls inside the window.
    pub fn contains(&self, lineno: usize) -> (r: bool)
        requires
            self.cur_line + self.lines <= usize::MAX,
        ensures
            r == (self.cur_line <= lineno < self.cur_line + self.lines),
    {
        lineno >= self.cur_line && lineno < self.cur_line + self.lines
    }
}

/// One editable text buffer with its cursor, viewport, focus flag and the
/// backing-store key it was loaded from.
pub struct TextArea {
    pub cursor_pos: CursorPosition,
    pub text: Vec<char>,
    pub viewport: Viewport,
    pub focused: bool,
    pub filepath: String,
}

/// Requested line clamped into `[0, line_count - 1]`.
pub open spec fn clamp_line(t: Seq<char>, l: int) -> int {
    if l >= line_count(t) {
        line_count(t) - 1
    } else {
        l
    }
}

/// Requested column clamped into `[0, content length]`: the cursor stays on
/// its line, at most one past the line's content — an empty line clamps to 0,
/// never underflowing.
pub open spec fn clamp_col(t: Seq<char>, line: int, c: int) -> int {
    if c > line_content_len(t, line) {
        line_content_len(t, line)
    } else {
        c
    }
}

/// The viewport after a cursor move: one hysteresis step each way — once the
/// cursor line comes within 3 lines of the window's trailing edge with more
/// content below, the window jumps 10 lines forward; within 3 lines of the
/// leading edge away from the top, up to 10 lines back, reading the position
/// the first step may have produced — and then, when a jump outran the step,
/// the window is pulled so the cursor is its last (or first) line.  The
/// cursor's line thus always falls inside the window.
pub open spec fn scroll_pos(cur: int, vlines: int, cline: int, lc: int) -> int {
    let reach = cur + vlines;
    let mid = if cline + 3 >= reach && reach < lc {
        cur + 10
    } else {
        cur
    };
    let mid2 = if cline <= mid + 3 && mid > 0 {
        mid - if mid < 10 {
            mid
        } else {
            10int
        }
    } else {
        mid
    };
    if cline >= mid2 + vlines {
        cline - vlines + 1
    } else if cline < mid2 {
        cline
    } else {
        mid2
    }
}

/// Cursor and scroll position that `goto(new_l, new_c)` produces on text `t`
/// from viewport position `cur` with `vlines` visible lines.
pub open spec fn goto_post(t: Seq<char>, cur: int, vlines: int, new_l: int, new_c: int) -> (
    int,
    int,
    int,
) {
    let l = clamp_line(t, new_l);
    let c = clamp_col(t, l, new_c);
    (l, c, scroll_pos(cur, vlines, l, line_count(t)))
}

impl TextArea {
    /// A buffer's text is small enough that no position computation can
    /// overflow; it may be empty (one empty line).
    pub open spec fn text_ok(t: Seq<char>) -> bool {
        t.len() <= MAX_TEXT
    }

    /// Viewport bounds that the scroll step preserves and that keep its
    /// arithmetic in range.
    pub open spec fn vp_ok(vp: Viewport) -> bool {
        &&& vp.cur_line <= MAX_TEXT as int + 16
        &&& vp.lines <= MAX_TEXT
    }

    /// The buffer invariant: well-formed text and viewport, and a cursor on
    /// its line, at most one past the line's content.
    pub open spec fn wf(&self) -> bool {
        &&& Self::text_ok(self.text@)
        &&& Self::vp_ok(self.viewport)
        &&& cursor_ok(self.text@, self.cursor_pos.line as int, self.cursor_pos.col as int)
    }

    /// Builds a buffer over loaded content, kept as it is — an empty load is
    /// an empty buffer of one empty line.  The caller reads the backing store
    /// and hands the content in.
    pub fn new(filepath: String, content: Vec<char>) -> (ta: TextArea)
        requires
            content@.len() <= MAX_TEXT,
        ensures
            ta.wf(),
            ta.text@ == content@,
            ta.cursor_pos == (CursorPosition { line: 0, col: 0 }),
            ta.viewport == (Viewport { cols: 80, cur_col: 0, cur_line: 0, lines: 50 }),
            ta.focused == false,
            ta.filepath@ == filepath@,
    {
        proof {
            lemma_line_count_pos(content@);
            lemma_line_shape(content@, 0);
        }
        TextArea {
            text: content,
            filepath,
            cursor_pos: CursorPosition { line: 0, col: 0 },
            viewport: Viewport { cur_line: 0, cur_col: 0, lines: 50, cols: 80 },
            focused: false,
        }
    }

    /// Linear index of the cursor position `cp`, by scanning line starts; the
    /// index of the end of the text when the cursor stands one past the last
    /// character.
    pub fn translate_cp_to_idx(&self, cp: &CursorPosition) -> (idx: usize)
        requires
            Self::text_ok(self.text@),
            cursor_ok(self.text@, cp.line as int, cp.col as int),
        ensures
            idx as int == cp_to_idx(self.text@, cp.line as int, cp.col as int),
            idx <= self.text@.len(),
    {
        proof {
            lemma_round_trip(self.text@, cp.line as int, cp.col as int);
        }
        let s = find_line_start(&self.text, cp.line);
        s + cp.col
    }

    /// Cursor position of the linear index `idx`: exact for any index up to
    /// the text's length, and the end position for anything past it.
    pub fn translate_idx_to_cp(&self, idx: usize) -> (cp: CursorPosition)
        ensures
            ({
                let i = if idx <= self.text@.len() {
                    idx as int
                } else {
                    self.text@.len() as int
                };
                &&& cp.line as int == idx_to_line(self.text@, i)
                &&& cp.col as int == idx_to_col(self.text@, i)
                &&& cursor_ok(self.text@, cp.line as int, cp.col as int)
            }),
    {
        let ghost t = self.text@;
        let tgt = if idx > self.text.len() {
            self.text.len()
        } else {
            idx
        };
        let mut i: usize = 0;
        let mut line: usize = 0;
        let mut start: usize = 0;
        while i < tgt
            invariant
                0 <= start <= i <= tgt <= t.len(),
                t == self.text@,
                line as int == newlines_before(t, i as int),
                start as int == line_start(t, line as int),
                forall|j: int| start <= j < i ==> #[trigger] t[j] != '\n',
            decreases tgt - i,
        {
            if self.text[i] == '\n' {
                proof {
                    lemma_newlines_nonneg(t, i as int);
                    lemma_seek_split(t, 0, line as int, 1);
                    lemma_seek_found(t, start as int, i as int);
                }
                line = line + 1;
                start = i + 1;
            }
            i = i + 1;
        }
        proof {
            lemma_idx_bridge(t, tgt as int);
        }
        CursorPosition { line, col: tgt - start }
    }

    /// Clamps the requested position into the buffer and scrolls the viewport
    /// over it; total for every pair of inputs, and the cursor's line ends up
    /// inside the window whenever the window shows anything at all.
    pub fn goto(&mut self, new_l: usize, new_c: usize)
        requires
            Self::text_ok(old(self).text@),
            Self::vp_ok(old(self).viewport),
        ensures
            final(self).wf(),
            final(self).text@ == old(self).text@,
            final(self).filepath@ == old(self).filepath@,
            final(self).focused == old(self).focused,
            final(self).viewport.lines == old(self).viewport.lines,
            final(self).viewport.cols == old(self).viewport.cols,
            final(self).viewport.cur_col == old(self).viewport.cur_col,
            ({
                let p = goto_post(
                    old(self).text@,
                    old(self).viewport.cur_line as int,
                    old(self).viewport.lines as int,
                    new_l as int,
                    new_c as int,
                );
                &&& final(self).cursor_pos.line as int == p.0
                &&& final(self).cursor_pos.col as int == p.1
                &&& final(self).viewport.cur_line as int == p.2
            }),
            old(self).viewport.lines >= 1 ==> final(self).viewport.cur_line
                <= final(self).cursor_pos.line < final(self).viewport.cur_line + old(
                self,
            ).viewport.lines,
    {
        let ghost t = self.text@;
        proof {
            lemma_line_count_pos(t);
            lemma_line_count_le_len(t);
        }
        let lc = count_lines(&self.text);
        let line = if new_l <= lc - 1 {
            new_l
        } else {
            lc - 1
        };
        let cl = content_length(&self.text, line);
        proof {
            lemma_line_shape(t, line as int);
            lemma_line_start_props(t, line as int);
        }
        let col = if new_c <= cl {
            new_c
        } else {
            cl
        };
        self.cursor_pos = CursorPosition { line, col };
        let reach = self.viewport.cur_line + self.viewport.lines;
        if line + 3 >= reach && reach < lc {
            self.viewport.cur_line = self.viewport.cur_line + 10;
        }
        if line <= self.viewport.cur_line + 3 && self.viewport.cur_line > 0 {
            let step = if self.viewport.cur_line < 10 {
                self.viewport.cur_line
            } else {
                10
            };
            self.viewport.cur_line = self.viewport.cur_line - step;
        }
        if line >= self.viewport.cur_line + self.viewport.lines {
            self.viewport.cur_line = line + 1 - self.viewport.lines;
        } else if line < self.viewport.cur_line {
            self.viewport.cur_line = line;
        }
    }

    /// One column to the right, clamped to the cursor's line.
    pub fn next_char(&mut self)
        requires
            old(self).wf(),
        ensures
            nav_post(
                *old(self),
                *final(self),
                old(self).cursor_pos.line as int,
                old(self).cursor_pos.col + 1,
            ),
    {
        proof {
            lemma_line_shape(self.text@, self.cursor_pos.line as int);
        }
        let c = self.cursor_pos.col;
        self.goto(self.cursor_pos.line, c + 1);
    }

    /// One column to the left, stopping at the start of the line.
    pub fn prev_char(&mut self)
        requires
            old(self).wf(),
        ensures
            nav_post(
                *old(self),
                *final(self),
                old(self).cursor_pos.line as int,
                if old(self).cursor_pos.col == 0 {
                    0int
                } else {
                    old(self).cursor_pos.col - 1
                },
            ),
    {
        let f_c = if self.cursor_pos.col == 0 {
            0
        } else {
            self.cursor_pos.col - 1
        };
        self.goto(self.cursor_pos.line, f_c);
    }

    /// One line down, clamped to the last line.
    pub fn next_line(&mut self)
        requires
            old(self).wf(),
        ensures
            nav_post(
                *old(self),
                *final(self),
                old(self).cursor_pos.line + 1,
                old(self).cursor_pos.col as int,
            ),
    {
        proof {
            lemma_line_count_le_len(self.text@);
        }
        let l = self.cursor_pos.line;
        self.goto(l + 1, self.cursor_pos.col);
    }

    /// One line up, stopping at the first line.
    pub fn prev_line(&mut self)
        requires
            old(self).wf(),
        ensures
            nav_post(
                *old(self),
                *final(self),
                if old(self).cursor_pos.line == 0 {
                    0int
                } else {
                    old(self).cursor_pos.line - 1
                },
                old(self).cursor_pos.col as int,
            ),
    {
        let f_l = if self.cursor_pos.line == 0 {
            0
        } else {
            self.cursor_pos.line - 1
        };
        self.goto(f_l, self.cursor_pos.col);
    }

    /// To the start of the cursor's line.
    pub fn home(&mut self)
        requires
            old(self).wf(),
        ensures
            nav_post(*old(self), *final(self), old(self).cursor_pos.line as int, 0),
    {
        let l = self.cursor_pos.line;
        self.goto(l, 0);
    }

    /// Splices `ch` into the content at the cursor's flat index — at the very
    /// end of the buffer when the cursor stands there — and moves the cursor:
    /// a lone newline moves it to the start of the next line, anything else
    /// one column to the right.
    pub fn insert_char(&mut self, ch: String)
        requires
            old(self).wf(),
            old(self).text@.len() + ch@.len() <= MAX_TEXT,
        ensures
            insert_post(*old(self), ch@, *final(self)),
    {
        let ghost t = self.text@;
        let ghost line = self.cursor_pos.line as int;
        let ghost col = self.cursor_pos.col as int;
        let idx = self.translate_cp_to_idx(&self.cursor_pos);
        let chv = str_chars(ch.as_str());
        let ghost t2 = t.subrange(0, idx as int) + ch@ + t.subrange(idx as int, t.len() as int);
        proof {
            lemma_insert_keeps_cursor(t, line, col, ch@);
        }
        let mut out: Vec<char> = Vec::new();
        let mut i: usize = 0;
        while i < idx
            invariant
                0 <= i <= idx <= t.len(),
                t == self.text@,
                out@ == t.subrange(0, i as int),
            decreases idx - i,
        {
            out.push(self.text[i]);
            proof {
                assert(out@ =~= t.subrange(0, i + 1));
            }
            i = i + 1;
        }
        let mut k: usize = 0;
        while k < chv.len()
            invariant
                0 <= k <= chv@.len(),
                chv@ == ch@,
                t == self.text@,
                0 <= idx <= t.len(),
                out@ == t.subrange(0, idx as int) + ch@.subrange(0, k as int),
            decreases chv@.len() - k,
        {
            out.push(chv[k]);
            proof {
                assert(out@ =~= t.subrange(0, idx as int) + ch@.subrange(0, k + 1));
            }
            k = k + 1;
        }
        let mut j: usize = idx;
        while j < self.text.len()
            invariant
                idx <= j <= t.len(),
                t == self.text@,
                out@ == t.subrange(0, idx as int) + ch@ + t.subrange(idx as int, j as int),
            decreases t.len() - j,
        {
            out.push(self.text[j]);
            proof {
                assert(out@ =~= t.subrange(0, idx as int) + ch@ + t.subrange(
                    idx as int,
                    j + 1,
                ));
            }
            j = j + 1;
        }
        proof {
            assert(ch@.subrange(0, ch@.len() as int) =~= ch@);
            assert(out@ =~= t2);
        }
        self.text = out;
        let is_newline = chv.len() == 1 && chv[0] == '\n';
        proof {
            if is_newline {
                assert(ch@ =~= seq!['\n']);
            } else if ch@ == seq!['\n'] {
                assert(ch@.len() == 1 && ch@[0] == '\n');
                assert(false);
            }
        }
        if is_newline {
            self.next_line();
            self.home();
        } else {
            self.next_char();
        }
    }

    /// Removes the code point just before the cursor's flat index and puts the
    /// cursor on the position vacated; at index zero nothing happens.
    pub fn delete_char(&mut self)
        requires
            old(self).wf(),
        ensures
            delete_post(*old(self), *final(self)),
    {
        let ghost t = self.text@;
        let idx = self.translate_cp_to_idx(&self.cursor_pos);
        if idx == 0 {
            return ;
        }
        let ghost t2 = t.subrange(0, idx - 1) + t.subrange(idx as int, t.len() as int);
        let mut out: Vec<char> = Vec::new();
        let mut i: usize = 0;
        while i < idx - 1
            invariant
                0 <= i <= idx - 1,
                1 <= idx <= t.len(),
                t == self.text@,
                out@ == t.subrange(0, i as int),
            decreases idx - i,
        {
            out.push(self.text[i]);
            proof {
                assert(out@ =~= t.subrange(0, i + 1));
            }
            i = i + 1;
        }
        let mut j: usize = idx;
        while j < self.text.len()
            invariant
                idx <= j <= t.len(),
                1 <= idx <= t.len(),
                t == self.text@,
                out@ == t.subrange(0, idx - 1) + t.subrange(idx as int, j as int),
            decreases t.len() - j,
        {
            out.push(self.text[j]);
            proof {
                assert(out@ =~= t.subrange(0, idx - 1) + t.subrange(idx as int, j + 1));
            }
            j = j + 1;
        }
        proof {
            assert(out@ =~= t2);
        }
        self.text = out;
        let cp = self.translate_idx_to_cp(idx - 1);
        self.goto(cp.line, cp.col);
    }
}

/// What a navigation call leaves behind: text untouched, cursor and viewport
/// moved as one `goto(new_l, new_c)`.
pub open spec fn nav_post(pre: TextArea, post: TextArea, new_l: int, new_c: int) -> bool {
    let p = goto_post(
        pre.text@,
        pre.viewport.cur_line as int,
        pre.viewport.lines as int,
        new_l,
        new_c,
    );
    &&& post.wf()
    &&& post.text@ == pre.text@
    &&& post.filepath@ == pre.filepath@
    &&& post.focused == pre.focused
    &&& post.viewport.lines == pre.viewport.lines
    &&& post.viewport.cols == pre.viewport.cols
    &&& post.viewport.cur_col == pre.viewport.cur_col
    &&& post.cursor_pos.line as int == p.0
    &&& post.cursor_pos.col as int == p.1
    &&& post.viewport.cur_line as int == p.2
}

/// Everything observable about two buffers is equal.
pub open spec fn state_eq(a: TextArea, b: TextArea) -> bool {
    &&& a.text@ == b.text@
    &&& a.cursor_pos == b.cursor_pos
    &&& a.viewport == b.viewport
    &&& a.focused == b.focused
    &&& a.filepath@ == b.filepath@
}

/// What `insert_char(ch)` leaves behind: `ch` spliced in at the cursor's flat
/// index, then one `goto` per the original key handling — down and home for a
/// lone newline, one column right for anything else (a multi-code-point input
/// still advances a single column).
pub open spec fn insert_post(pre: TextArea, ch: Seq<char>, post: TextArea) -> bool {
    let t = pre.text@;
    let idx = cp_to_idx(t, pre.cursor_pos.line as int, pre.cursor_pos.col as int);
    let t2 = t.subrange(0, idx) + ch + t.subrange(idx, t.len() as int);
    let cur = pre.viewport.cur_line as int;
    let vl = pre.viewport.lines as int;
    &&& post.wf()
    &&& post.text@ == t2
    &&& post.filepath@ == pre.filepath@
    &&& post.focused == pre.focused
    &&& post.viewport.lines == pre.viewport.lines
    &&& post.viewport.cols == pre.viewport.cols
    &&& post.viewport.cur_col == pre.viewport.cur_col
    &&& if ch == seq!['\n'] {
        let p1 = goto_post(t2, cur, vl, pre.cursor_pos.line + 1, pre.cursor_pos.col as int);
        let p2 = goto_post(t2, p1.2, vl, p1.0, 0);
        &&& post.cursor_pos.line as int == p2.0
        &&& post.cursor_pos.col as int == p2.1
        &&& post.viewport.cur_line as int == p2.2
    } else {
        let p = goto_post(t2, cur, vl, pre.cursor_pos.line as int, pre.cursor_pos.col + 1);
        &&& post.cursor_pos.line as int == p.0
        &&& post.cursor_pos.col as int == p.1
        &&& post.viewport.cur_line as int == p.2
    }
}

/// What `delete_char` leaves behind: nothing at the start of the buffer;
/// otherwise the code point before the cursor's flat index is removed and the
/// cursor lands on the position just vacated.
pub open spec fn delete_post(pre: TextArea, post: TextArea) -> bool {
    let t = pre.text@;
    let idx = cp_to_idx(t, pre.cursor_pos.line as int, pre.cursor_pos.col as int);
    if idx == 0 {
        state_eq(post, pre)
    } else {
        let t2 = t.subrange(0, idx - 1) + t.subrange(idx, t.len() as int);
        let p = goto_post(
            t2,
            pre.viewport.cur_line as int,
            pre.viewport.lines as int,
            idx_to_line(t2, idx - 1),
            idx_to_col(t2, idx - 1),
        );
        &&& post.wf()
        &&& post.text@ == t2
        &&& post.filepath@ == pre.filepath@
        &&& post.focused == pre.focused
        &&& post.viewport.lines == pre.viewport.lines
        &&& post.viewport.cols == pre.viewport.cols
        &&& post.viewport.cur_col == pre.viewport.cur_col
        &&& post.cursor_pos.line as int == p.0
        &&& post.cursor_pos.col as int == p.1
        &&& post.viewport.cur_line as int == p.2
    }
}

/// Splicing text in at the cursor keeps the cursor's line start, and the
/// cursor stays valid in the grown text.
proof fn lemma_insert_keeps_cursor(t: Seq<char>, line: int, col: int, ins: Seq<char>)
    requires
        cursor_ok(t, line, col),
    ensures
        ({
            let idx = cp_to_idx(t, line, col);
            let t2 = t.subrange(0, idx) + ins + t.subrange(idx, t.len() as int);
            &&& t2.len() == t.len() + ins.len()
            &&& line_start(t2, line) == line_start(t, line)
            &&& cursor_ok(t2, line, col)
        }),
{
    let idx = cp_to_idx(t, line, col);
    let t2 = t.subrange(0, idx) + ins + t.subrange(idx, t.len() as int);
    lemma_newlines_nonneg(t, t.len() as int);
    lemma_line_start_props(t, line);
    lemma_line_shape(t, line);
    let s = line_start(t, line);
    assert(forall|j: int| 0 <= j < idx ==> t2[j] == t[j]);
    // The seek for the line's start completes inside the unchanged prefix.
    lemma_newlines_mono(t, s, idx);
    lemma_seek_agree(t, t2, 0, line, idx);
    assert(line_start(t2, line) == s);
    // The cursor's line exists in the grown text.
    lemma_newlines_agree(t, t2, s);
    lemma_newlines_mono(t2, s, t2.len() as int);
    assert(line < line_count(t2));
    if ins.len() == 0 {
        assert(t2 =~= t);
    } else {
        // The code points before the cursor are still content of its line.
        lemma_cursor_prefix_flat(t, line, col);
        assert(forall|j: int| s <= j < idx ==> t2[j] == t[j] && #[trigger] t[j] != '\n');
        lemma_seek_skip(t2, s, idx);
        lemma_seek_bounds(t2, idx, 1);
        lemma_seek_split(t2, 0, line, 1);
        let e2 = line_start(t2, line + 1);
        assert(e2 >= idx + 1);
        if line + 1 < line_count(t2) {
            assert(line_content_len(t2, line) == e2 - 1 - s >= col);
        } else {
            assert(line_content_len(t2, line) == e2 - s >= col);
        }
    }
}

/// Inserting one code point at a valid cursor position and deleting backward
/// from where the cursor lands restores the original content.
pub proof fn lemma_insert_delete_inverse(pre: TextArea, c: char, mid: TextArea, post: TextArea)
    requires
        pre.wf(),
        pre.text@.len() + 1 <= MAX_TEXT,
        insert_post(pre, seq![c], mid),
        delete_post(mid, post),
    ensures
        post.text@ == pre.text@,
{
    let t = pre.text@;
    let line = pre.cursor_pos.line as int;
    let col = pre.cursor_pos.col as int;
    let idx = cp_to_idx(t, line, col);
    let t2 = t.subrange(0, idx) + seq![c] + t.subrange(idx, t.len() as int);
    lemma_round_trip(t, line, col);
    lemma_insert_keeps_cursor(t, line, col, seq![c]);
    lemma_line_start_props(t, line);
    lemma_cursor_prefix_flat(t, line, col);
    let s = line_start(t, line);
    assert(mid.text@ == t2);
    assert(forall|j: int| s <= j < idx ==> t2[j] == t[j] && #[trigger] t[j] != '\n');
    // Where the cursor lands: on (line + 1, 0) after a newline, else on
    // (line, col + 1); either way its flat index in `t2` is `idx + 1`.
    if seq![c] == seq!['\n'] {
        assert(t2[idx] == '\n');
        lemma_seek_split(t2, 0, line, 1);
        lemma_seek_found(t2, s, idx);
        assert(line_start(t2, line + 1) == idx + 1);
        // One more line exists below the split.
        lemma_newlines_agree(t, t2, s);
        lemma_newlines_flat(t2, s, idx);
        assert(newlines_before(t2, idx + 1) == line + 1);
        lemma_newlines_mono(t2, idx + 1, t2.len() as int);
        assert(line + 1 < line_count(t2));
        lemma_line_shape(t2, line + 1);
        assert(mid.cursor_pos.line as int == line + 1 && mid.cursor_pos.col as int == 0) by {
            assert(clamp_line(t2, line + 1) == line + 1);
            assert(clamp_col(t2, line + 1, 0) == 0);
        }
        assert(cp_to_idx(t2, line + 1, 0) == idx + 1);
    } else {
        assert(seq![c] != seq!['\n']);
        assert(c != '\n') by {
            if c == '\n' {
                assert(seq![c] =~= seq!['\n']);
            }
        }
        assert(clamp_line(t2, line) == line);
        // The spliced code point is not a newline, so the cursor's line keeps
        // room for the column one step right.
        assert(forall|j: int| s <= j < idx + 1 ==> #[trigger] t2[j] != '\n');
        lemma_seek_split(t2, 0, line, 1);
        lemma_seek_skip(t2, s, idx + 1);
        lemma_seek_bounds(t2, idx + 1, 1);
        let e2 = line_start(t2, line + 1);
        assert(col + 1 <= line_content_len(t2, line)) by {
            if idx + 1 == t2.len() {
                // The insert appended at the very end: the cursor's line is
                // the last, and its content runs to the new end.
                lemma_newlines_agree(t, t2, s);
                lemma_newlines_flat(t2, s, t2.len() as int);
                assert(line_count(t2) == line + 1);
                assert(e2 == t2.len()) by {
                    crate::lines::lemma_line_start_end(t2, line + 1);
                }
            } else {
                assert(e2 >= idx + 2);
                if line + 1 < line_count(t2) {
                    assert(line_content_len(t2, line) == e2 - 1 - s);
                } else {
                    assert(line_content_len(t2, line) == e2 - s);
                }
            }
        }
        assert(clamp_col(t2, line, col + 1) == col + 1);
        assert(mid.cursor_pos.line as int == line && mid.cursor_pos.col as int == col + 1);
        assert(cp_to_idx(t2, line, col + 1) == idx + 1);
    }
    let idx2 = cp_to_idx(t2, mid.cursor_pos.line as int, mid.cursor_pos.col as int);
    assert(idx2 == idx + 1);
    assert(post.text@ == t2.subrange(0, idx) + t2.subrange(idx + 1, t2.len() as int));
    assert(post.text@ =~= t);
}

/// Index of the first code point of line `l` of `text`, by a forward scan;
/// the text's length when the line starts at or past the end.
fn find_line_start(text: &Vec<char>, l: usize) -> (r: usize)
    ensures
        r as int == line_start(text@, l as int),
{
    let ghost t = text@;
    let mut i: usize = 0;
    let mut rem: usize = l;
    while rem > 0 && i < text.len()
        invariant
            0 <= i <= t.len(),
            t == text@,
            seek_line(t, 0, l as int) == seek_line(t, i as int, rem as int),
        decreases t.len() - i,
    {
        if text[i] == '\n' {
            rem = rem - 1;
        }
        i = i + 1;
    }
    i
}

/// Number of lines of `text`: its newlines each end one, plus the final line.
fn count_lines(text: &Vec<char>) -> (r: usize)
    requires
        text@.len() <= MAX_TEXT,
    ensures
        r as int == line_count(text@),
        r >= 1,
{
    let ghost t = text@;
    let mut i: usize = 0;
    let mut nls: usize = 0;
    while i < text.len()
        invariant
            0 <= i <= t.len() <= MAX_TEXT,
            t == text@,
            nls as int == newlines_before(t, i as int),
            nls <= i,
        decreases t.len() - i,
    {
        if text[i] == '\n' {
            nls = nls + 1;
        }
        i = i + 1;
    }
    nls + 1
}

/// Content length of line `l` of `text`: scans from the line's start to its
/// newline or to the end of the text.
fn content_length(text: &Vec<char>, l: usize) -> (r: usize)
    requires
        0 <= (l as int) < line_count(text@),
    ensures
        r as int == line_content_len(text@, l as int),
{
    let ghost t = text@;
    let s = find_line_start(text, l);
    proof {
        lemma_line_start_props(t, l as int);
    }
    let mut i: usize = s;
    while i < text.len() && text[i] != '\n'
        invariant
            0 <= s <= i <= t.len(),
            t == text@,
            s as int == line_start(t, l as int),
            forall|j: int| s <= j < i ==> #[trigger] t[j] != '\n',
        decreases t.len() - i,
    {
        i = i + 1;
    }
    proof {
        lemma_line_start_props(t, l as int);
        lemma_seek_split(t, 0, l as int, 1);
        lemma_newlines_flat(t, s as int, i as int);
        if i < text.len() {
            // The newline at i ends this line, so a further line follows.
            lemma_seek_found(t, s as int, i as int);
            assert(line_start(t, l + 1) == i + 1);
            assert(newlines_before(t, i + 1) == l + 1);
            lemma_newlines_mono(t, i + 1, t.len() as int);
            assert(l + 1 < line_count(t));
        } else {
            // The line runs to the end of the text: it is the last.
            lemma_seek_none(t, s as int);
            assert(line_start(t, l + 1) == t.len());
            assert(line_count(t) == l + 1);
        }
    }
    i - s
}

/// The code points of `s`, in order.
pub fn str_chars(s: &str) -> (v: Vec<char>)
    ensures
        v@ == s@,
{
    let n = s.unicode_len();
    let mut v: Vec<char> = Vec::new();
    let mut i: usize = 0;
    while i < n
        invariant
            0 <= i <= n,
            n == s@.len(),
            v@ == s@.subrange(0, i as int),
        decreases n - i,
    {
        v.push(s.get_char(i));
        proof {
            assert(v@ =~= s@.subrange(0, i + 1));
        }
        i = i + 1;
    }
    proof {
        assert(v@ =~= s@);
    }
    v
}

} // verus!
