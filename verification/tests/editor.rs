use chatroom::app::{App, KeyInput, KeyOutcome};
use chatroom::datatypes::InputMode;

fn check_cursor(app: &App) {
    assert!(app.character_index <= app.input.len());
}

#[test]
fn cursor_stays_in_range_over_op_sequence() {
    let mut app = App::new(String::from("alice"));
    check_cursor(&app);
    app.move_cursor_left();
    check_cursor(&app);
    assert_eq!(app.character_index, 0);
    app.move_cursor_right();
    check_cursor(&app);
    assert_eq!(app.character_index, 0);
    app.enter_char('h');
    check_cursor(&app);
    app.enter_char('i');
    check_cursor(&app);
    assert_eq!(app.character_index, 2);
    app.move_cursor_right();
    check_cursor(&app);
    assert_eq!(app.character_index, 2);
    app.move_cursor_left();
    check_cursor(&app);
    app.move_cursor_left();
    app.move_cursor_left();
    check_cursor(&app);
    assert_eq!(app.character_index, 0);
    app.delete_char();
    check_cursor(&app);
    assert_eq!(app.input, vec!['h', 'i']);
    app.move_cursor_right();
    app.delete_char();
    check_cursor(&app);
    assert_eq!(app.input, vec!['i']);
    app.delete_char();
    check_cursor(&app);
    assert_eq!(app.input, vec!['i']);
}

#[test]
fn enter_char_inserts_at_cursor() {
    let mut app = App::new(String::from("a"));
    app.enter_char('a');
    app.enter_char('c');
    app.move_cursor_left();
    app.enter_char('b');
    assert_eq!(app.input, vec!['a', 'b', 'c']);
    assert_eq!(app.character_index, 2);
}

#[test]
fn delete_char_at_start_is_noop() {
    let mut app = App::new(String::from("a"));
    app.enter_char('x');
    app.move_cursor_left();
    app.delete_char();
    assert_eq!(app.input, vec!['x']);
    assert_eq!(app.character_index, 0);
}

#[test]
fn clamp_cursor_clamps_to_buffer() {
    let mut app = App::new(String::from("a"));
    app.enter_char('x');
    app.enter_char('y');
    assert_eq!(app.clamp_cursor(0), 0);
    assert_eq!(app.clamp_cursor(1), 1);
    assert_eq!(app.clamp_cursor(99), 2);
}

#[test]
fn reset_cursor_goes_to_start() {
    let mut app = App::new(String::from("a"));
    app.enter_char('x');
    app.enter_char('y');
    app.reset_cursor();
    assert_eq!(app.character_index, 0);
    assert_eq!(app.input, vec!['x', 'y']);
}

#[test]
fn byte_index_counts_utf8_bytes() {
    let mut app = App::new(String::from("a"));
    app.enter_char('\u{e9}'); // two bytes in UTF-8
    app.enter_char('a'); // one byte
    assert_eq!(app.character_index, 2);
    assert_eq!(app.byte_index(), 3);
    app.move_cursor_left();
    assert_eq!(app.byte_index(), 2);
    app.move_cursor_left();
    assert_eq!(app.byte_index(), 0);
}

#[test]
fn handle_key_mode_transitions() {
    let mut app = App::new(String::from("a"));
    assert!(matches!(app.input_mode, InputMode::Normal));
    let r = app.handle_key(KeyInput::Char('e'));
    assert!(matches!(r, KeyOutcome::Continue));
    assert!(matches!(app.input_mode, InputMode::Editing));
    let r = app.handle_key(KeyInput::Esc);
    assert!(matches!(r, KeyOutcome::Continue));
    assert!(matches!(app.input_mode, InputMode::Normal));
    let r = app.handle_key(KeyInput::Char('q'));
    assert!(matches!(r, KeyOutcome::Quit));
}

#[test]
fn handle_key_edits_buffer() {
    let mut app = App::new(String::from("a"));
    app.handle_key(KeyInput::Char('e'));
    app.handle_key(KeyInput::Char('h'));
    app.handle_key(KeyInput::Char('i'));
    app.handle_key(KeyInput::Left);
    app.handle_key(KeyInput::Backspace);
    assert_eq!(app.input, vec!['i']);
    let r = app.handle_key(KeyInput::Enter);
    assert!(matches!(r, KeyOutcome::Submit));
    // 'q' does not quit while editing
    let r = app.handle_key(KeyInput::Char('q'));
    assert!(matches!(r, KeyOutcome::Continue));
}
