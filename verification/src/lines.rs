//! The line structure of a buffer's text.
//!
//! A buffer stores its content as one flat sequence of code points.  Every
//! newline ends a line and stays at that line's end; the text after the last
//! newline is the final line, empty or not — so even empty text has one
//! (empty) line, and a cursor can stand one past the last character.  This
//! module defines that structure over `Seq<char>` and proves the facts the
//! buffer operations need, chief among them that translating a
//! `(line, column)` pair to a flat index and back returns the original pair.

use vstd::prelude::*;

verus! {

/// Number of newline characters in `t[0..i]`.
pub open spec fn newlines_before(t: Seq<char>, i: int) -> int
    decreases i,
{
    if i <= 0 {
        0
    } else {
        newlines_before(t, i - 1) + if t[i - 1] == '\n' {
            1int
        } else {
            0int
        }
    }
}

/// Scans forward from `i`, consuming `l` newlines; the result is the position
/// just past the `l`-th newline found, or `t.len()` when fewer remain.
pub open spec fn seek_line(t: Seq<char>, i: int, l: int) -> int
    decreases t.len() - i,
{
    if l <= 0 {
        i
    } else if i >= t.len() {
        t.len() as int
    } else {
        seek_line(t, i + 1, if t[i] == '\n' {
            l - 1
        } else {
            l
        })
    }
}

/// Index of the first code point of line `l`; `t.len()` when line `l` starts
/// at or past the end of the text.
pub open spec fn line_start(t: Seq<char>, l: int) -> int {
    seek_line(t, 0, l)
}

/// Number of lines: every newline ends one, and what follows the last
/// newline is the final line even when it is empty.
pub open spec fn line_count(t: Seq<char>) -> int {
    newlines_before(t, t.len() as int) + 1
}

/// Length of line `l`, its terminator included.
pub open spec fn line_len(t: Seq<char>, l: int) -> int {
    line_start(t, l + 1) - line_start(t, l)
}

/// Length of line `l` without its terminator.  A cursor's column runs over
/// `[0, line_content_len]`: the last column sits on the terminator, or one
/// past the final character on the last line.
pub open spec fn line_content_len(t: Seq<char>, l: int) -> int {
    if l + 1 < line_count(t) {
        line_len(t, l) - 1
    } else {
        line_len(t, l)
    }
}

/// A cursor is valid when its line exists and its column stays on the line,
/// at most one past the line's content.
pub open spec fn cursor_ok(t: Seq<char>, line: int, col: int) -> bool {
    &&& 0 <= line < line_count(t)
    &&& 0 <= col <= line_content_len(t, line)
}

/// Flat index of the cursor position `(line, col)`.
pub open spec fn cp_to_idx(t: Seq<char>, line: int, col: int) -> int {
    line_start(t, line) + col
}

/// Line of the flat index `idx`.
pub open spec fn idx_to_line(t: Seq<char>, idx: int) -> int {
    newlines_before(t, idx)
}

/// Column of the flat index `idx`.
pub open spec fn idx_to_col(t: Seq<char>, idx: int) -> int {
    idx - line_start(t, idx_to_line(t, idx))
}

/// `[s, e)` spans exactly one line: no newline strictly inside, and the span
/// either ends on its own terminator or runs to the end of the text.
pub open spec fn line_span(t: Seq<char>, s: int, e: int) -> bool {
    &&& 0 <= s <= e <= t.len()
    &&& forall|j: int| s <= j < e - 1 ==> #[trigger] t[j] != '\n'
    &&& ((e > s && t[e - 1] == '\n') || e == t.len())
}

pub proof fn lemma_newlines_nonneg(t: Seq<char>, i: int)
    ensures
        0 <= newlines_before(t, i) <= if i >= 0 {
            i
        } else {
            0int
        },
    decreases i,
{
    if i > 0 {
        lemma_newlines_nonneg(t, i - 1);
    }
}

pub proof fn lemma_newlines_mono(t: Seq<char>, i: int, j: int)
    requires
        i <= j,
    ensures
        newlines_before(t, i) <= newlines_before(t, j),
    decreases j - i,
{
    if i < j {
        lemma_newlines_mono(t, i, j - 1);
    }
}

/// A stretch without newlines adds nothing to the count.
pub proof fn lemma_newlines_flat(t: Seq<char>, s: int, i: int)
    requires
        s <= i,
        forall|j: int| s <= j < i ==> #[trigger] t[j] != '\n',
    ensures
        newlines_before(t, i) == newlines_before(t, s),
    decreases i - s,
{
    if s < i {
        lemma_newlines_flat(t, s, i - 1);
    }
}

/// Texts that agree up to `m` count newlines alike there.
pub proof fn lemma_newlines_agree(t1: Seq<char>, t2: Seq<char>, k: int)
    requires
        0 <= k,
        forall|j: int| 0 <= j < k ==> t1[j] == t2[j],
    ensures
        newlines_before(t1, k) == newlines_before(t2, k),
    decreases k,
{
    if k > 0 {
        lemma_newlines_agree(t1, t2, k - 1);
    }
}

pub proof fn lemma_seek_bounds(t: Seq<char>, i: int, l: int)
    requires
        0 <= i <= t.len(),
    ensures
        i <= seek_line(t, i, l) <= t.len(),
        l >= 1 && i < t.len() ==> seek_line(t, i, l) >= i + 1,
    decreases t.len() - i,
{
    if l >= 1 && i < t.len() {
        lemma_seek_bounds(t, i + 1, if t[i] == '\n' {
            l - 1
        } else {
            l
        });
    }
}

/// Seeking `a + b` newlines is seeking `a`, then `b` more from there.
pub proof fn lemma_seek_split(t: Seq<char>, i: int, a: int, b: int)
    requires
        0 <= i <= t.len(),
        0 <= a,
        0 <= b,
    ensures
        seek_line(t, i, a + b) == seek_line(t, seek_line(t, i, a), b),
    decreases t.len() - i,
{
    if a == 0 {
    } else if i >= t.len() {
    } else {
        lemma_seek_split(t, i + 1, if t[i] == '\n' {
            a - 1
        } else {
            a
        }, b);
        if t[i] == '\n' && a == 1 {
        }
    }
}

/// A completed seek reads nothing past its result, so it is the same in any
/// text that agrees up to `m` — provided `[i, m)` really holds the `l`
/// newlines the seek consumes.
pub proof fn lemma_seek_agree(t1: Seq<char>, t2: Seq<char>, i: int, l: int, m: int)
    requires
        0 <= i <= t1.len(),
        0 <= l,
        seek_line(t1, i, l) <= m <= t1.len(),
        m <= t2.len(),
        forall|j: int| i <= j < m ==> t1[j] == t2[j],
        l <= newlines_before(t1, m) - newlines_before(t1, i),
    ensures
        seek_line(t2, i, l) == seek_line(t1, i, l),
    decreases t1.len() - i,
{
    if l > 0 {
        assert(i < m) by {
            if i >= m {
                lemma_newlines_mono(t1, m, i);
            }
        }
        let l2 = if t1[i] == '\n' {
            l - 1
        } else {
            l
        };
        assert(newlines_before(t1, i + 1) == newlines_before(t1, i) + if t1[i] == '\n' {
            1int
        } else {
            0int
        });
        lemma_seek_agree(t1, t2, i + 1, l2, m);
    }
}

/// One seek step lands exactly one line span further.
pub proof fn lemma_seek_one(t: Seq<char>, s: int)
    requires
        0 <= s <= t.len(),
    ensures
        line_span(t, s, seek_line(t, s, 1)),
    decreases t.len() - s,
{
    if s < t.len() {
        if t[s] != '\n' {
            lemma_seek_one(t, s + 1);
        } else {
            assert(seek_line(t, s + 1, 0) == s + 1);
        }
    }
}

/// The seek is pinned by a witness: non-newlines up to `i`, a newline at `i`.
pub proof fn lemma_seek_found(t: Seq<char>, s: int, i: int)
    requires
        0 <= s <= i < t.len(),
        forall|j: int| s <= j < i ==> #[trigger] t[j] != '\n',
        t[i] == '\n',
    ensures
        seek_line(t, s, 1) == i + 1,
    decreases i - s,
{
    if s < i {
        lemma_seek_found(t, s + 1, i);
    } else {
        assert(seek_line(t, s + 1, 0) == s + 1);
    }
}

/// Without any newline left, the seek runs to the end.
pub proof fn lemma_seek_none(t: Seq<char>, s: int)
    requires
        0 <= s <= t.len(),
        forall|j: int| s <= j < t.len() ==> #[trigger] t[j] != '\n',
    ensures
        seek_line(t, s, 1) == t.len(),
    decreases t.len() - s,
{
    if s < t.len() {
        lemma_seek_none(t, s + 1);
    }
}

/// A seek for the next newline jumps over any stretch without one.
pub proof fn lemma_seek_skip(t: Seq<char>, s: int, m: int)
    requires
        0 <= s <= m <= t.len(),
        forall|j: int| s <= j < m ==> #[trigger] t[j] != '\n',
    ensures
        seek_line(t, s, 1) == seek_line(t, m, 1),
    decreases m - s,
{
    if s < m {
        lemma_seek_skip(t, s + 1, m);
    }
}

/// There is always at least one line.
pub proof fn lemma_line_count_pos(t: Seq<char>)
    ensures
        line_count(t) >= 1,
{
    lemma_newlines_nonneg(t, t.len() as int);
}

/// There are never more lines than code points, plus the one final line.
pub proof fn lemma_line_count_le_len(t: Seq<char>)
    ensures
        line_count(t) <= t.len() + 1,
{
    lemma_newlines_nonneg(t, t.len() as int);
}

/// An existing line starts inside the text after exactly `l` newlines, and
/// runs as one span to the start of the next line.
pub proof fn lemma_line_start_props(t: Seq<char>, l: int)
    requires
        0 <= l < line_count(t),
    ensures
        0 <= line_start(t, l) <= t.len(),
        newlines_before(t, line_start(t, l)) == l,
        line_span(t, line_start(t, l), line_start(t, l + 1)),
    decreases l,
{
    lemma_newlines_nonneg(t, t.len() as int);
    if l == 0 {
        lemma_seek_one(t, 0);
    } else {
        lemma_line_start_props(t, l - 1);
        let s0 = line_start(t, l - 1);
        let s = line_start(t, l);
        lemma_seek_split(t, 0, l - 1, 1);
        assert(s == seek_line(t, s0, 1));
        lemma_seek_bounds(t, s0, 1);
        // The span of line l - 1 must end on a terminator: a flat run to the
        // end of the text would leave only l lines in all.
        if !(s > s0 && t[s - 1] == '\n') {
            assert(s == t.len());
            lemma_newlines_flat(t, s0, s);
            assert(line_count(t) == l);
            assert(false);
        }
        lemma_newlines_flat(t, s0, s - 1);
        assert(newlines_before(t, s) == l);
        lemma_seek_split(t, 0, l, 1);
        lemma_seek_one(t, s);
    }
}

/// Past the last line every start is the end of the text.
pub proof fn lemma_line_start_end(t: Seq<char>, l: int)
    requires
        l >= line_count(t),
    ensures
        line_start(t, l) == t.len(),
    decreases l,
{
    lemma_newlines_nonneg(t, t.len() as int);
    if l == line_count(t) {
        lemma_line_start_props(t, l - 1);
        let s0 = line_start(t, l - 1);
        let s = line_start(t, l);
        lemma_seek_split(t, 0, l - 1, 1);
        lemma_seek_bounds(t, s0, 1);
        if s < t.len() {
            // A further newline at s - 1 would be one more than the text holds.
            assert(s > s0 && t[s - 1] == '\n');
            lemma_newlines_flat(t, s0, s - 1);
            assert(newlines_before(t, s) == l);
            lemma_newlines_mono(t, s, t.len() as int);
            assert(false);
        }
    } else {
        lemma_line_start_end(t, l - 1);
        lemma_seek_split(t, 0, l - 1, 1);
    }
}

/// The shape of an existing line: it fits in the text, its content length is
/// in range, every line before the last ends with its own newline, and the
/// last line runs to the end of the text.
pub proof fn lemma_line_shape(t: Seq<char>, l: int)
    requires
        0 <= l < line_count(t),
    ensures
        0 <= line_start(t, l) <= line_start(t, l + 1) <= t.len(),
        0 <= line_content_len(t, l) <= line_len(t, l),
        l + 1 < line_count(t) ==> line_start(t, l + 1) > line_start(t, l) && t[line_start(
            t,
            l + 1,
        ) - 1] == '\n',
        l + 1 == line_count(t) ==> line_start(t, l + 1) == t.len(),
{
    lemma_line_start_props(t, l);
    lemma_seek_split(t, 0, l, 1);
    lemma_seek_bounds(t, line_start(t, l), 1);
    let s = line_start(t, l);
    let e = line_start(t, l + 1);
    if l + 1 < line_count(t) {
        // A flat run to the end of the text would make line l the last one.
        if !(e > s && t[e - 1] == '\n') {
            assert(e == t.len());
            lemma_newlines_flat(t, s, e);
            assert(line_count(t) == l + 1);
            assert(false);
        }
    } else {
        lemma_line_start_end(t, l + 1);
    }
}

/// Every flat index of `[0, len]` addresses a valid cursor position: it lies
/// in the line that `newlines_before` names, strictly before the next line
/// unless it is the end of the text.
pub proof fn lemma_idx_bridge(t: Seq<char>, idx: int)
    requires
        0 <= idx <= t.len(),
    ensures
        line_start(t, idx_to_line(t, idx)) <= idx,
        cursor_ok(t, idx_to_line(t, idx), idx_to_col(t, idx)),
        idx < t.len() ==> idx < line_start(t, idx_to_line(t, idx) + 1),
    decreases idx,
{
    lemma_newlines_nonneg(t, idx);
    lemma_newlines_mono(t, idx, t.len() as int);
    let l = idx_to_line(t, idx);
    assert(l < line_count(t));
    if idx == 0 {
        if t.len() > 0 {
            lemma_seek_bounds(t, 0, 1);
        }
    } else {
        lemma_idx_bridge(t, idx - 1);
        let l0 = idx_to_line(t, idx - 1);
        lemma_line_start_props(t, l0);
        let e = line_start(t, l0 + 1);
        if t[idx - 1] != '\n' {
            assert(l == l0);
            if idx < t.len() && idx == e {
                // The span of line l0 would end on the non-newline at idx - 1.
                assert(t[e - 1] == '\n' || e == t.len());
                assert(false);
            }
        } else {
            assert(l == l0 + 1);
            // idx - 1 carries the newline that ends line l0, so line l0 + 1
            // starts exactly at idx.
            assert(idx - 1 >= e - 1) by {
                if idx - 1 < e - 1 {
                    assert(t[idx - 1] != '\n');
                }
            }
            assert(e == idx);
            if idx < t.len() {
                lemma_line_start_props(t, l);
                lemma_seek_split(t, 0, l, 1);
                lemma_seek_bounds(t, idx, 1);
            }
        }
    }
    // The column fits: strictly inside its line, or the very end of the text.
    if idx < t.len() {
        lemma_line_shape(t, l);
    } else {
        lemma_line_start_end(t, line_count(t));
        assert(l == line_count(t) - 1);
        lemma_line_shape(t, l);
        assert(line_start(t, l + 1) == t.len());
    }
}

/// The code points strictly before a valid cursor's column are content of
/// its line: none is a newline.
pub proof fn lemma_cursor_prefix_flat(t: Seq<char>, line: int, col: int)
    requires
        cursor_ok(t, line, col),
    ensures
        forall|j: int|
            line_start(t, line) <= j < line_start(t, line) + col ==> #[trigger] t[j] != '\n',
{
    lemma_newlines_nonneg(t, t.len() as int);
    lemma_line_start_props(t, line);
    lemma_line_shape(t, line);
    let s = line_start(t, line);
    let e = line_start(t, line + 1);
    assert forall|j: int| s <= j < s + col implies #[trigger] t[j] != '\n' by {
        if j >= e - 1 {
            // Only the last column of the last line can reach this far, and a
            // newline there would add one more line than the text holds.
            assert(col == line_len(t, line) && line + 1 == line_count(t));
            assert(e == t.len());
            assert(j == e - 1);
            if t[j] == '\n' {
                lemma_newlines_flat(t, s, e - 1);
                assert(newlines_before(t, e) == line + 1);
                assert(false);
            }
        }
    }
}

/// Round trip: a valid cursor position survives translation to a flat index
/// and back.
pub proof fn lemma_round_trip(t: Seq<char>, line: int, col: int)
    requires
        cursor_ok(t, line, col),
    ensures
        0 <= cp_to_idx(t, line, col) <= t.len(),
        idx_to_line(t, cp_to_idx(t, line, col)) == line,
        idx_to_col(t, cp_to_idx(t, line, col)) == col,
{
    lemma_newlines_nonneg(t, t.len() as int);
    lemma_line_start_props(t, line);
    lemma_line_shape(t, line);
    let s = line_start(t, line);
    let e = line_start(t, line + 1);
    let idx = s + col;
    if col < line_len(t, line) {
        // Inside the line, at most on its terminator.
        lemma_newlines_flat(t, s, idx);
    } else {
        // One past the content: only the last line admits this, and the
        // index is the end of the text.
        assert(line + 1 == line_count(t));
        assert(e == t.len());
        assert(idx == t.len());
    }
}

} // verus!
