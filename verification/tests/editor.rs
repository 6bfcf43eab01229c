use lz::editor::LineEditor;

// =====================================================================
// LineEditor
// =====================================================================

#[test]
fn editor_new_is_empty() {
    let ed = LineEditor::new();
    assert_eq!(ed.content, "");
    assert_eq!(ed.cursor, 0);
}

#[test]
fn editor_insert_ascii() {
    let mut ed = LineEditor::new();
    ed.insert('h');
    ed.insert('i');
    assert_eq!(ed.content, "hi");
    assert_eq!(ed.cursor, 2);
}

#[test]
fn editor_insert_utf8() {
    let mut ed = LineEditor::new();
    ed.insert('é');
    assert_eq!(ed.content, "é");
    assert_eq!(ed.cursor, 2); // é is 2 bytes in UTF-8
}

#[test]
fn editor_backspace() {
    let mut ed = LineEditor::new();
    ed.insert('a');
    ed.insert('b');
    ed.insert('c');
    ed.backspace();
    assert_eq!(ed.content, "ab");
    assert_eq!(ed.cursor, 2);
}

#[test]
fn editor_backspace_utf8() {
    let mut ed = LineEditor::new();
    ed.insert('a');
    ed.insert('é');
    ed.backspace();
    assert_eq!(ed.content, "a");
    assert_eq!(ed.cursor, 1);
}

#[test]
fn editor_backspace_at_start() {
    let mut ed = LineEditor::new();
    ed.backspace(); // should be a no-op
    assert_eq!(ed.content, "");
    assert_eq!(ed.cursor, 0);
}

#[test]
fn editor_delete() {
    let mut ed = LineEditor::new();
    ed.insert('a');
    ed.insert('b');
    ed.insert('c');
    ed.move_home();
    ed.delete();
    assert_eq!(ed.content, "bc");
    assert_eq!(ed.cursor, 0);
}

#[test]
fn editor_delete_at_end() {
    let mut ed = LineEditor::new();
    ed.insert('a');
    ed.delete(); // no-op, cursor at end
    assert_eq!(ed.content, "a");
}

#[test]
fn editor_move_left_right() {
    let mut ed = LineEditor::new();
    ed.insert('a');
    ed.insert('b');
    ed.insert('c');
    assert_eq!(ed.cursor, 3);

    ed.move_left();
    assert_eq!(ed.cursor, 2);
    ed.move_left();
    assert_eq!(ed.cursor, 1);
    ed.move_right();
    assert_eq!(ed.cursor, 2);
}

#[test]
fn editor_move_left_at_start() {
    let mut ed = LineEditor::new();
    ed.move_left();
    assert_eq!(ed.cursor, 0);
}

#[test]
fn editor_move_right_at_end() {
    let mut ed = LineEditor::new();
    ed.insert('x');
    ed.move_right();
    assert_eq!(ed.cursor, 1); // stays at end
}

#[test]
fn editor_home_end() {
    let mut ed = LineEditor::new();
    ed.insert('a');
    ed.insert('b');
    ed.insert('c');

    ed.move_home();
    assert_eq!(ed.cursor, 0);

    ed.move_end();
    assert_eq!(ed.cursor, 3);
}

#[test]
fn editor_clear() {
    let mut ed = LineEditor::new();
    ed.insert('x');
    ed.insert('y');
    ed.clear();
    assert_eq!(ed.content, "");
    assert_eq!(ed.cursor, 0);
}

#[test]
fn editor_insert_in_middle() {
    let mut ed = LineEditor::new();
    ed.insert('a');
    ed.insert('c');
    ed.move_left();
    ed.insert('b');
    assert_eq!(ed.content, "abc");
    assert_eq!(ed.cursor, 2);
}

#[test]
fn editor_backspace_in_middle() {
    let mut ed = LineEditor::new();
    ed.insert('a');
    ed.insert('b');
    ed.insert('c');
    ed.move_left(); // cursor after 'b'
    ed.backspace();
    assert_eq!(ed.content, "ac");
    assert_eq!(ed.cursor, 1);
}

#[test]
fn editor_delete_utf8_in_middle() {
    let mut ed = LineEditor::new();
    ed.insert('a');
    ed.insert('é');
    ed.insert('b');
    ed.move_home();
    ed.move_right(); // after 'a', before 'é'
    ed.delete();
    assert_eq!(ed.content, "ab");
}

fn editor_with(before: &str, after: &str) -> LineEditor {
    LineEditor { content: format!("{}{}", before, after), cursor: before.len() }
}

#[test]
fn editor_set_puts_cursor_at_end() {
    let mut ed = editor_with("x", "y");
    ed.set("日本");
    assert_eq!(ed.content, "日本");
    assert_eq!(ed.cursor, 6);
}

#[test]
fn editor_backspace_undoes_insert() {
    let mut ed = editor_with("日", "本");
    ed.insert('é');
    assert_eq!(ed.content, "日é本");
    ed.backspace();
    assert_eq!(ed.content, "日本");
    assert_eq!(ed.cursor, 3);
}

#[test]
fn editor_delete_undoes_insert() {
    let mut ed = editor_with("a", "b");
    ed.insert('😀');
    ed.move_left();
    ed.delete();
    assert_eq!(ed.content, "ab");
    assert_eq!(ed.cursor, 1);
}

#[test]
fn editor_right_undoes_left() {
    let mut ed = editor_with("aé", "日b");
    ed.move_left();
    assert_eq!(ed.cursor, 1);
    ed.move_right();
    assert_eq!(ed.cursor, 3);
    ed.move_right();
    assert_eq!(ed.cursor, 6);
    ed.move_left();
    assert_eq!(ed.cursor, 3);
    assert_eq!(ed.content, "aé日b");
}
