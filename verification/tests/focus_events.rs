use txt::layout::Rect;
use txt::panels::{broadcast_event, route_pointer_press, EditorEvent, EventConsumer, Focusable};
use txt::text::str_chars;
use txt::text::{CursorPosition, TextArea};

fn panel(content: &str) -> TextArea {
    TextArea::new(String::from("panel"), str_chars(content))
}

#[test]
fn pointer_press_moves_focus_to_the_hit_panel() {
    let mut panels = vec![panel("aa"), panel("bb")];
    panels[0].focus();
    let rects = vec![
        Rect { x: 0, y: 0, w: 50, h: 100 },
        Rect { x: 50, y: 0, w: 50, h: 100 },
    ];
    route_pointer_press(&mut panels, &rects, 60, 10);
    assert!(!panels[0].is_focused());
    assert!(panels[1].is_focused());
}

#[test]
fn pointer_press_outside_every_rect_unfocuses_all() {
    let mut panels = vec![panel("aa"), panel("bb")];
    panels[0].focus();
    let rects = vec![
        Rect { x: 0, y: 0, w: 50, h: 100 },
        Rect { x: 50, y: 0, w: 50, h: 100 },
    ];
    route_pointer_press(&mut panels, &rects, 10, 200);
    assert!(!panels[0].is_focused());
    assert!(!panels[1].is_focused());
}

#[test]
fn only_the_focused_panel_consumes_a_broadcast() {
    let mut panels = vec![panel("aa"), panel("bb")];
    panels[1].focus();
    let saves = broadcast_event(&mut panels, &EditorEvent::CursorRight);
    assert_eq!(saves, vec![false, false]);
    assert_eq!(panels[0].cursor_pos, CursorPosition { line: 0, col: 0 });
    assert_eq!(panels[1].cursor_pos, CursorPosition { line: 0, col: 1 });
}

#[test]
fn text_input_event_edits_the_focused_buffer() {
    let mut ta = panel("ab");
    ta.focus();
    ta.goto(0, 1);
    let save = ta.consume_event(&EditorEvent::TextInput { text: String::from("X") });
    assert!(!save);
    assert_eq!(ta.text, str_chars("aXb"));
    assert_eq!(ta.cursor_pos, CursorPosition { line: 0, col: 2 });
}

#[test]
fn return_key_inserts_a_newline() {
    let mut ta = panel("ab");
    ta.focus();
    ta.goto(0, 1);
    let save = ta.consume_event(&EditorEvent::InsertNewline);
    assert!(!save);
    assert_eq!(ta.text, str_chars("a\nb"));
    assert_eq!(ta.cursor_pos, CursorPosition { line: 1, col: 0 });
}

#[test]
fn backspace_event_deletes_backward() {
    let mut ta = panel("ab");
    ta.focus();
    ta.goto(0, 1);
    ta.consume_event(&EditorEvent::DeleteBackward);
    assert_eq!(ta.text, str_chars("b"));
}

#[test]
fn save_chord_requests_a_save_and_changes_nothing() {
    let mut ta = panel("ab");
    ta.focus();
    let save = ta.consume_event(&EditorEvent::SaveFile);
    assert!(save);
    assert_eq!(ta.text, str_chars("ab"));
}

#[test]
fn unfocused_panel_ignores_events() {
    let mut ta = panel("ab");
    let save = ta.consume_event(&EditorEvent::TextInput { text: String::from("X") });
    assert!(!save);
    assert_eq!(ta.text, str_chars("ab"));
    let save2 = ta.consume_event(&EditorEvent::SaveFile);
    assert!(!save2);
}

#[test]
fn arrow_events_move_the_cursor() {
    let mut ta = panel("ab\ncd");
    ta.focus();
    ta.consume_event(&EditorEvent::CursorDown);
    assert_eq!(ta.cursor_pos, CursorPosition { line: 1, col: 0 });
    ta.consume_event(&EditorEvent::CursorRight);
    assert_eq!(ta.cursor_pos, CursorPosition { line: 1, col: 1 });
    ta.consume_event(&EditorEvent::CursorUp);
    assert_eq!(ta.cursor_pos, CursorPosition { line: 0, col: 1 });
    ta.consume_event(&EditorEvent::LineHome);
    assert_eq!(ta.cursor_pos, CursorPosition { line: 0, col: 0 });
    ta.consume_event(&EditorEvent::Other);
    assert_eq!(ta.cursor_pos, CursorPosition { line: 0, col: 0 });
}
