use txt::text::str_chars;
use txt::text::{CursorPosition, TextArea, Viewport};

fn buffer(content: &str) -> TextArea {
    TextArea::new(String::from("scratch"), str_chars(content))
}

#[test]
fn simple_edit_advances_one_column() {
    let mut ta = buffer("ab");
    ta.goto(0, 1);
    ta.insert_char(String::from("X"));
    assert_eq!(ta.text, str_chars("aXb"));
    assert_eq!(ta.cursor_pos, CursorPosition { line: 0, col: 2 });
}

#[test]
fn newline_insert_moves_to_next_line_start() {
    let mut ta = buffer("ab");
    ta.goto(0, 1);
    ta.insert_char(String::from("\n"));
    assert_eq!(ta.text, str_chars("a\nb"));
    assert_eq!(ta.cursor_pos, CursorPosition { line: 1, col: 0 });
}

#[test]
fn translate_round_trip_on_every_position() {
    let ta = buffer("ab\ncd\n x");
    // Every cursor position of the buffer, the end of the buffer included.
    let positions = [
        (0usize, 0usize),
        (0, 1),
        (0, 2), // on the newline of "ab\n"
        (1, 0),
        (1, 1),
        (1, 2),
        (2, 0),
        (2, 1),
        (2, 2), // one past the last character
    ];
    for &(line, col) in positions.iter() {
        let cp = CursorPosition { line, col };
        let idx = ta.translate_cp_to_idx(&cp);
        let back = ta.translate_idx_to_cp(idx);
        assert_eq!(back, cp);
    }
}

#[test]
fn translate_round_trip_with_trailing_newline() {
    let ta = buffer("ab\n");
    // The line after the trailing newline is an (empty) line of its own.
    let positions = [(0usize, 0usize), (0, 1), (0, 2), (1, 0)];
    for &(line, col) in positions.iter() {
        let cp = CursorPosition { line, col };
        let idx = ta.translate_cp_to_idx(&cp);
        let back = ta.translate_idx_to_cp(idx);
        assert_eq!(back, cp);
    }
    assert_eq!(ta.translate_cp_to_idx(&CursorPosition { line: 1, col: 0 }), 3);
}

#[test]
fn translate_idx_past_end_clamps_to_end() {
    let ta = buffer("ab");
    assert_eq!(ta.translate_idx_to_cp(2), CursorPosition { line: 0, col: 2 });
    assert_eq!(ta.translate_idx_to_cp(100), CursorPosition { line: 0, col: 2 });
}

#[test]
fn goto_clamps_any_input() {
    let mut ta = buffer("ab\ncd");
    ta.goto(100, 100);
    assert_eq!(ta.cursor_pos, CursorPosition { line: 1, col: 2 });
    ta.goto(0, 50);
    // On a terminated line the cursor may sit at most on the terminator.
    assert_eq!(ta.cursor_pos, CursorPosition { line: 0, col: 2 });
    ta.goto(usize::MAX, usize::MAX);
    assert_eq!(ta.cursor_pos, CursorPosition { line: 1, col: 2 });
}

#[test]
fn empty_buffer_is_one_empty_line() {
    let mut ta = buffer("");
    assert!(ta.text.is_empty());
    ta.goto(5, 5);
    assert_eq!(ta.cursor_pos, CursorPosition { line: 0, col: 0 });
    ta.insert_char(String::from("X"));
    assert_eq!(ta.text, str_chars("X"));
    assert_eq!(ta.cursor_pos, CursorPosition { line: 0, col: 1 });
}

#[test]
fn append_at_end_of_buffer() {
    let mut ta = buffer("ab");
    ta.goto(0, 2);
    ta.insert_char(String::from("X"));
    assert_eq!(ta.text, str_chars("abX"));
    assert_eq!(ta.cursor_pos, CursorPosition { line: 0, col: 3 });
}

#[test]
fn edit_on_the_line_after_a_trailing_newline() {
    let mut ta = buffer("ab\n");
    ta.goto(9, 9);
    assert_eq!(ta.cursor_pos, CursorPosition { line: 1, col: 0 });
    ta.insert_char(String::from("X"));
    assert_eq!(ta.text, str_chars("ab\nX"));
    assert_eq!(ta.cursor_pos, CursorPosition { line: 1, col: 1 });
}

#[test]
fn delete_last_char_empties_the_buffer() {
    let mut ta = buffer("a");
    ta.goto(0, 1);
    ta.delete_char();
    assert!(ta.text.is_empty());
    assert_eq!(ta.cursor_pos, CursorPosition { line: 0, col: 0 });
}

#[test]
fn insert_then_delete_restores_content() {
    let mut ta = buffer("ab");
    ta.goto(0, 1);
    ta.insert_char(String::from("X"));
    ta.delete_char();
    assert_eq!(ta.text, str_chars("ab"));

    let mut tb = buffer("ab\ncd");
    tb.goto(1, 1);
    tb.insert_char(String::from("\n"));
    tb.delete_char();
    assert_eq!(tb.text, str_chars("ab\ncd"));

    let mut tc = buffer("ab");
    tc.goto(0, 2);
    tc.insert_char(String::from("Z"));
    tc.delete_char();
    assert_eq!(tc.text, str_chars("ab"));
}

#[test]
fn insert_at_buffer_start_then_delete() {
    let mut ta = buffer("ab");
    ta.insert_char(String::from("Z"));
    assert_eq!(ta.text, str_chars("Zab"));
    ta.delete_char();
    assert_eq!(ta.text, str_chars("ab"));
}

#[test]
fn delete_at_start_is_a_no_op() {
    let mut ta = buffer("ab");
    ta.delete_char();
    assert_eq!(ta.text, str_chars("ab"));
    assert_eq!(ta.cursor_pos, CursorPosition { line: 0, col: 0 });
}

#[test]
fn navigation_moves_and_clamps() {
    let mut ta = buffer("ab\ncd");
    ta.next_char();
    assert_eq!(ta.cursor_pos, CursorPosition { line: 0, col: 1 });
    ta.next_line();
    assert_eq!(ta.cursor_pos, CursorPosition { line: 1, col: 1 });
    ta.next_char();
    assert_eq!(ta.cursor_pos, CursorPosition { line: 1, col: 2 });
    ta.next_char();
    assert_eq!(ta.cursor_pos, CursorPosition { line: 1, col: 2 });
    ta.next_line();
    assert_eq!(ta.cursor_pos, CursorPosition { line: 1, col: 2 });
    ta.prev_char();
    assert_eq!(ta.cursor_pos, CursorPosition { line: 1, col: 1 });
    ta.prev_line();
    assert_eq!(ta.cursor_pos, CursorPosition { line: 0, col: 1 });
    ta.prev_line();
    assert_eq!(ta.cursor_pos, CursorPosition { line: 0, col: 1 });
}

#[test]
fn home_returns_to_line_start() {
    let mut ta = buffer("hello\nworld");
    ta.goto(1, 4);
    ta.home();
    assert_eq!(ta.cursor_pos, CursorPosition { line: 1, col: 0 });
}

#[test]
fn viewport_follows_the_cursor() {
    let mut text = String::new();
    for i in 0..100 {
        text.push_str(&format!("line {}\n", i));
    }
    let mut ta = buffer(&text);
    assert_eq!(ta.viewport.cur_line, 0);
    assert_eq!(ta.viewport.lines, 50);
    // A jump well below the window: one 10-line step, then the window is
    // pulled so the cursor is its last line.
    ta.goto(60, 0);
    assert_eq!(ta.viewport.cur_line, 11);
    assert!(ta.viewport.contains(60));
    // Back to the top: one step back, then pulled to the cursor.
    ta.goto(0, 0);
    assert_eq!(ta.viewport.cur_line, 0);
    assert!(ta.viewport.contains(0));
}

#[test]
fn viewport_contains_its_window_only() {
    let vp = Viewport { cols: 80, cur_col: 0, cur_line: 10, lines: 50 };
    assert!(vp.contains(10));
    assert!(vp.contains(59));
    assert!(!vp.contains(60));
    assert!(!vp.contains(9));
}

#[test]
fn new_buffer_starts_unfocused_at_origin() {
    let ta = buffer("abc");
    assert!(!ta.focused);
    assert_eq!(ta.cursor_pos, CursorPosition { line: 0, col: 0 });
    assert_eq!(ta.filepath, String::from("scratch"));
    assert_eq!(ta.viewport.cols, 80);
    assert_eq!(ta.viewport.lines, 50);
}

#[test]
fn str_chars_splits_into_code_points() {
    let v = str_chars("a\u{e9}\n");
    assert_eq!(v, vec!['a', '\u{e9}', '\n']);
    assert!(str_chars("").is_empty());
}
