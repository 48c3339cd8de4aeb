//! Panels, their capability set, and focus routing.
//!
//! A panel is anything that can take focus and consume input events; the one
//! concrete panel here is the text buffer.  Events arrive as plain values: the
//! surrounding application translates whatever its windowing stack delivers
//! into an `EditorEvent` and broadcasts it to every panel — each panel ignores
//! events unless it holds focus, so no central routing table is needed.  A
//! pointer press transfers focus by hit-testing the press against the current
//! layout rectangles.

use vstd::prelude::*;

use crate::layout::{rects_intersect, Rect};
use crate::text::{delete_post, insert_post, nav_post, state_eq, TextArea, MAX_TEXT};
use vstd::string::StrSliceExecFns;
use vstd::string::StringExecFns;

verus! {

/// What one broadcast event does to a text panel.  An unfocused panel, and
/// any event the editor does not react to, leaves the panel as it was; a save
/// request changes nothing but is reported to the caller; the rest are the
/// buffer operations.  Input that would grow the buffer past its ceiling is
/// ignored.
pub open spec fn consume_effect(
    pre: TextArea,
    event: EditorEvent,
    post: TextArea,
    save: bool,
) -> bool {
    if !pre.focused {
        &&& state_eq(post, pre)
        &&& save == false
    } else {
        match event {
            EditorEvent::TextInput { text } => {
                &&& save == false
                &&& if pre.text@.len() + text@.len() <= MAX_TEXT {
                    insert_post(pre, text@, post)
                } else {
                    state_eq(post, pre)
                }
            },
            EditorEvent::InsertNewline => {
                &&& save == false
                &&& if pre.text@.len() + 1 <= MAX_TEXT {
                    insert_post(pre, seq!['\n'], post)
                } else {
                    state_eq(post, pre)
                }
            },
            EditorEvent::SaveFile => save == true && state_eq(post, pre),
            EditorEvent::DeleteBackward => save == false && delete_post(pre, post),
            EditorEvent::LineHome => save == false && nav_post(
                pre,
                post,
                pre.cursor_pos.line as int,
                0,
            ),
            EditorEvent::CursorRight => save == false && nav_post(
                pre,
                post,
                pre.cursor_pos.line as int,
                pre.cursor_pos.col + 1,
            ),
            EditorEvent::CursorLeft => save == false && nav_post(
                pre,
                post,
                pre.cursor_pos.line as int,
                if pre.cursor_pos.col == 0 {
                    0int
                } else {
                    pre.cursor_pos.col - 1
                },
            ),
            EditorEvent::CursorDown => save == false && nav_post(
                pre,
                post,
                pre.cursor_pos.line + 1,
                pre.cursor_pos.col as int,
            ),
            EditorEvent::CursorUp => save == false && nav_post(
                pre,
                post,
                if pre.cursor_pos.line == 0 {
                    0int
                } else {
                    pre.cursor_pos.line - 1
                },
                pre.cursor_pos.col as int,
            ),
            EditorEvent::Other => save == false && state_eq(post, pre),
        }
    }
}

/// One keyboard or text input, reduced to what the editor reacts to.
pub enum EditorEvent {
    /// Raw text input, inserted at the cursor.
    TextInput { text: String },
    /// The return key: inserts a newline.
    InsertNewline,
    /// The save chord: the panel asks its caller to persist the buffer.
    SaveFile,
    /// Backspace: removes the code point before the cursor.
    DeleteBackward,
    /// The line-start chord.
    LineHome,
    CursorRight,
    CursorLeft,
    CursorDown,
    CursorUp,
    /// Anything the editor ignores.
    Other,
}

/// The focus capability: a single boolean flag per panel, set and cleared
/// only by the router.
pub trait Focusable {
    /// The panel's focus flag.
    spec fn focus_state(&self) -> bool;

    /// Everything but the focus flag is the same in `other`.
    spec fn same_except_focus(&self, other: &Self) -> bool;

    fn is_focused(&self) -> (r: bool)
        ensures
            r == self.focus_state(),
    ;

    fn focus(&mut self)
        ensures
            final(self).focus_state(),
            old(self).same_except_focus(final(self)),
    ;

    fn unfocus(&mut self)
        ensures
            !final(self).focus_state(),
            old(self).same_except_focus(final(self)),
    ;
}

/// The event capability: a panel reacts to a broadcast event, and may ask its
/// caller to perform a save — the one action that needs the outside world.
pub trait EventConsumer: Sized {
    /// What the panel demands of its own state before an event.
    spec fn event_pre(&self) -> bool;

    /// What consuming `event` does: how `post` and the save request relate to
    /// `pre`.
    spec fn event_post(pre: Self, event: EditorEvent, post: Self, save: bool) -> bool;

    fn consume_event(&mut self, event: &EditorEvent) -> (save: bool)
        requires
            old(self).event_pre(),
        ensures
            Self::event_post(*old(self), *event, *final(self), save),
    ;
}

/// The full capability set of a panel.
pub trait Panel: EventConsumer + Focusable {

}

impl Focusable for TextArea {
    open spec fn focus_state(&self) -> bool {
        self.focused
    }

    open spec fn same_except_focus(&self, other: &Self) -> bool {
        &&& other.text@ == self.text@
        &&& other.cursor_pos == self.cursor_pos
        &&& other.viewport == self.viewport
        &&& other.filepath@ == self.filepath@
    }

    fn is_focused(&self) -> (r: bool) {
        self.focused
    }

    fn focus(&mut self) {
        self.focused = true;
    }

    fn unfocus(&mut self) {
        self.focused = false;
    }
}

impl EventConsumer for TextArea {
    open spec fn event_pre(&self) -> bool {
        self.wf()
    }

    open spec fn event_post(pre: Self, event: EditorEvent, post: Self, save: bool) -> bool {
        consume_effect(pre, event, post, save)
    }

    /// An unfocused panel ignores everything.  A focused one edits its buffer
    /// per the event, and answers `true` only for the save chord, which the
    /// caller performs.  Input that would grow the buffer past its ceiling is
    /// ignored rather than inserted.
    fn consume_event(&mut self, event: &EditorEvent) -> (save: bool) {
        if !self.is_focused() {
            return false;
        }
        match event {
            EditorEvent::TextInput { text } => {
                let tlen = text.as_str().unicode_len();
                if tlen <= MAX_TEXT && self.text.len() <= MAX_TEXT - tlen {
                    self.insert_char(text.clone());
                }
                false
            },
            EditorEvent::InsertNewline => {
                if self.text.len() < MAX_TEXT {
                    let nl = String::from_str("\n");
                    proof {
                        reveal_strlit("\n");
                        assert(nl@ =~= seq!['\n']);
                    }
                    self.insert_char(nl);
                }
                false
            },
            EditorEvent::SaveFile => true,
            EditorEvent::DeleteBackward => {
                self.delete_char();
                false
            },
            EditorEvent::LineHome => {
                self.home();
                false
            },
            EditorEvent::CursorRight => {
                self.next_char();
                false
            },
            EditorEvent::CursorLeft => {
                self.prev_char();
                false
            },
            EditorEvent::CursorDown => {
                self.next_line();
                false
            },
            EditorEvent::CursorUp => {
                self.prev_line();
                false
            },
            EditorEvent::Other => false,
        }
    }
}

impl Panel for TextArea {

}

/// Pointer-press focus routing over parallel panels and rectangles: after the
/// call, a panel holds focus exactly when its rectangle contains the press,
/// and nothing else about any panel changes.  With the layout's rectangles,
/// which never intersect, at most one panel gains focus.
pub fn route_pointer_press<T: Focusable>(
    panels: &mut Vec<T>,
    rects: &Vec<Rect>,
    px: usize,
    py: usize,
)
    requires
        old(panels)@.len() == rects@.len(),
        forall|i: int|
            0 <= i < rects@.len() ==> (#[trigger] rects@[i]).x + rects@[i].w <= usize::MAX
                && rects@[i].y + rects@[i].h <= usize::MAX,
    ensures
        final(panels)@.len() == old(panels)@.len(),
        forall|i: int|
            0 <= i < final(panels)@.len() ==> (#[trigger] final(panels)@[i]).focus_state()
                == rects@[i].has_point(px as int, py as int),
        forall|i: int|
            0 <= i < final(panels)@.len() ==> old(panels)@[i].same_except_focus(
                &(#[trigger] final(panels)@[i]),
            ),
{
    let n = rects.len();
    let mut i: usize = 0;
    while i < n
        invariant
            0 <= i <= n,
            n == rects@.len(),
            panels@.len() == old(panels)@.len() == n,
            forall|q: int|
                0 <= q < i ==> (#[trigger] panels@[q]).focus_state() == rects@[q].has_point(
                    px as int,
                    py as int,
                ),
            forall|q: int|
                0 <= q < i ==> old(panels)@[q].same_except_focus(&(#[trigger] panels@[q])),
            forall|q: int| i <= q < panels@.len() ==> #[trigger] panels@[q] == old(panels)@[q],
            forall|q: int|
                0 <= q < rects@.len() ==> (#[trigger] rects@[q]).x + rects@[q].w <= usize::MAX
                    && rects@[q].y + rects@[q].h <= usize::MAX,
        decreases n - i,
    {
        let hit = rects[i].contains_point(px, py);
        if hit {
            panels[i].focus();
        } else {
            panels[i].unfocus();
        }
        i = i + 1;
    }
}

/// A press lands in at most one of two rectangles that do not intersect — as
/// the layout engine's rectangles never do.  With `route_pointer_press` this
/// keeps focus on at most one panel.
pub proof fn lemma_at_most_one_hit(a: Rect, b: Rect, px: int, py: int)
    requires
        !rects_intersect(a, b),
        a.has_point(px, py),
    ensures
        !b.has_point(px, py),
{
}

/// Event broadcast: every panel sees the event; the result says which panels
/// asked for a save.  Panels gate on their own focus flag, so only the
/// focused one reacts.
pub fn broadcast_event<T: Panel>(panels: &mut Vec<T>, event: &EditorEvent) -> (saves: Vec<bool>)
    requires
        forall|i: int| 0 <= i < old(panels)@.len() ==> (#[trigger] old(panels)@[i]).event_pre(),
    ensures
        final(panels)@.len() == old(panels)@.len(),
        saves@.len() == old(panels)@.len(),
        forall|i: int|
            0 <= i < final(panels)@.len() ==> T::event_post(
                old(panels)@[i],
                *event,
                #[trigger] final(panels)@[i],
                saves@[i],
            ),
{
    let n = panels.len();
    let mut saves: Vec<bool> = Vec::new();
    let mut i: usize = 0;
    while i < n
        invariant
            0 <= i <= n,
            panels@.len() == old(panels)@.len() == n,
            saves@.len() == i,
            forall|q: int|
                0 <= q < old(panels)@.len() ==> (#[trigger] old(panels)@[q]).event_pre(),
            forall|q: int| i <= q < panels@.len() ==> #[trigger] panels@[q] == old(panels)@[q],
            forall|q: int|
                0 <= q < i ==> T::event_post(
                    old(panels)@[q],
                    *event,
                    #[trigger] panels@[q],
                    saves@[q],
                ),
        decreases n - i,
    {
        let s = panels[i].consume_event(event);
        saves.push(s);
        i = i + 1;
    }
    saves
}

} // verus!
