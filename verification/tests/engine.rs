//! Behavioral tests for the engine state machine, the query buffer and
//! the selection list.

use tmenu::App;
use tmenu::Key;
use tmenu::KeyEvent;
use tmenu::QueryBuffer;
use tmenu::SelectionList;

fn opts(v: &[&str]) -> Vec<String> {
    v.iter().map(|s| s.to_string()).collect()
}

fn press(key: Key) -> KeyEvent {
    KeyEvent { press: true, key }
}

fn type_str(app: &mut App, s: &str) {
    for c in s.chars() {
        app.handle_event(press(Key::Char(c)));
    }
}

#[test]
fn typing_filters_and_accept_returns_selected() {
    let mut app = App::new(opts(&["apple", "banana", "grape"]), false);
    type_str(&mut app, "an");
    assert_eq!(app.matches().len(), 1);
    assert_eq!(app.matches()[0].text, "banana");
    assert_eq!(app.selected_index(), Some(0));
    app.handle_event(press(Key::Accept));
    assert!(!app.is_running());
    assert_eq!(app.result(), Some("banana".to_string()));
}

#[test]
fn force_literal_accept_ignores_selection() {
    let mut app = App::new(opts(&["custom-value-x", "value-custom"]), false);
    type_str(&mut app, "custom-value");
    // A different item is highlighted than the text typed.
    assert_eq!(app.matches()[0].text, "custom-value-x");
    assert_eq!(app.selected_index(), Some(0));
    app.handle_event(press(Key::AcceptLiteral));
    assert!(!app.is_running());
    assert_eq!(app.result(), Some("custom-value".to_string()));
}

#[test]
fn cancel_leaves_no_result() {
    let mut app = App::new(opts(&["apple", "banana"]), true);
    type_str(&mut app, "ap");
    app.handle_event(press(Key::Cancel));
    assert!(!app.is_running());
    assert_eq!(app.result(), None);
}

#[test]
fn accept_with_empty_view_returns_query_text() {
    let mut app = App::new(opts(&["apple", "banana"]), false);
    type_str(&mut app, "zzz");
    assert_eq!(app.matches().len(), 0);
    assert_eq!(app.selected_index(), None);
    app.handle_event(press(Key::Accept));
    assert_eq!(app.result(), Some("zzz".to_string()));
}

#[test]
fn selection_is_none_exactly_when_view_is_empty() {
    let mut app = App::new(opts(&["apple", "banana"]), false);
    assert!(app.selected_index().is_some());
    type_str(&mut app, "zzz");
    assert_eq!(app.selected_index(), None);
    app.handle_event(press(Key::Backspace));
    app.handle_event(press(Key::Backspace));
    app.handle_event(press(Key::Backspace));
    assert_eq!(app.matches().len(), 2);
    assert_eq!(app.selected_index(), Some(0));
}

#[test]
fn navigation_clamps_at_boundaries() {
    let mut app = App::new(opts(&["a1", "a2", "a3"]), false);
    assert_eq!(app.selected_index(), Some(0));
    app.handle_event(press(Key::MoveUp));
    assert_eq!(app.selected_index(), Some(0));
    app.handle_event(press(Key::MoveDown));
    app.handle_event(press(Key::MoveDown));
    assert_eq!(app.selected_index(), Some(2));
    app.handle_event(press(Key::MoveDown));
    assert_eq!(app.selected_index(), Some(2));
    app.handle_event(press(Key::MoveUp));
    assert_eq!(app.selected_index(), Some(1));
}

#[test]
fn refiltering_resets_selection_to_top() {
    let mut app = App::new(opts(&["alpha", "beta", "banana"]), false);
    app.handle_event(press(Key::MoveDown));
    app.handle_event(press(Key::MoveDown));
    assert_eq!(app.selected_index(), Some(2));
    type_str(&mut app, "a");
    assert_eq!(app.matches().len(), 3);
    assert_eq!(app.selected_index(), Some(0));
}

#[test]
fn backspace_at_start_is_a_no_op() {
    let mut app = App::new(opts(&["apple"]), false);
    app.handle_event(press(Key::Backspace));
    app.handle_event(press(Key::Backspace));
    assert_eq!(app.query_text(), "");
    assert_eq!(app.cursor_offset(), 0);
    assert_eq!(app.matches().len(), 1);
    assert!(app.is_running());
}

#[test]
fn cursor_moves_clamp_within_text() {
    let mut app = App::new(opts(&["apple"]), false);
    type_str(&mut app, "ap");
    assert_eq!(app.cursor_offset(), 2);
    app.handle_event(press(Key::CursorLeft));
    app.handle_event(press(Key::CursorLeft));
    assert_eq!(app.cursor_offset(), 0);
    app.handle_event(press(Key::CursorLeft));
    assert_eq!(app.cursor_offset(), 0);
    app.handle_event(press(Key::CursorRight));
    app.handle_event(press(Key::CursorRight));
    app.handle_event(press(Key::CursorRight));
    assert_eq!(app.cursor_offset(), 2);
    app.handle_event(press(Key::CursorHome));
    assert_eq!(app.cursor_offset(), 0);
    app.handle_event(press(Key::CursorEnd));
    assert_eq!(app.cursor_offset(), 2);
}

#[test]
fn characters_insert_at_the_cursor() {
    let mut app = App::new(opts(&["abc"]), false);
    type_str(&mut app, "ac");
    app.handle_event(press(Key::CursorLeft));
    app.handle_event(press(Key::Char('b')));
    assert_eq!(app.query_text(), "abc");
    assert_eq!(app.cursor_offset(), 2);
    assert_eq!(app.matches().len(), 1);
}

#[test]
fn word_erase_removes_spaces_then_word() {
    let mut app = App::new(opts(&["foo bar"]), false);
    type_str(&mut app, "foo bar  ");
    app.handle_event(press(Key::WordErase));
    assert_eq!(app.query_text(), "foo ");
    assert_eq!(app.cursor_offset(), 4);
    app.handle_event(press(Key::WordErase));
    assert_eq!(app.query_text(), "");
    assert_eq!(app.cursor_offset(), 0);
}

#[test]
fn clear_query_restores_full_view() {
    let mut app = App::new(opts(&["apple", "banana"]), false);
    type_str(&mut app, "app");
    assert_eq!(app.matches().len(), 1);
    app.handle_event(press(Key::ClearQuery));
    assert_eq!(app.query_text(), "");
    assert_eq!(app.matches().len(), 2);
    assert_eq!(app.selected_index(), Some(0));
}

#[test]
fn key_releases_are_ignored() {
    let mut app = App::new(opts(&["apple"]), false);
    app.handle_event(KeyEvent { press: false, key: Key::Cancel });
    assert!(app.is_running());
    app.handle_event(KeyEvent { press: false, key: Key::Char('x') });
    assert_eq!(app.query_text(), "");
}

#[test]
fn unprintable_characters_are_ignored() {
    let mut app = App::new(opts(&["apple"]), false);
    app.handle_event(press(Key::Char('\t')));
    app.handle_event(press(Key::Char('\u{1b}')));
    assert_eq!(app.query_text(), "");
    app.handle_event(press(Key::Other));
    assert!(app.is_running());
}

#[test]
fn fuzzy_engine_orders_by_score() {
    let mut app = App::new(opts(&["zaxbxc", "abcx"]), true);
    type_str(&mut app, "abc");
    assert_eq!(app.matches().len(), 2);
    assert_eq!(app.matches()[0].text, "abcx");
    app.handle_event(press(Key::Accept));
    assert_eq!(app.result(), Some("abcx".to_string()));
}

#[test]
fn query_text_round_trips_typed_characters() {
    let mut app = App::new(opts(&["apple"]), false);
    type_str(&mut app, "a b!");
    assert_eq!(app.query_text(), "a b!");
}

#[test]
fn query_buffer_edits_clamp_and_keep_cursor_in_range() {
    let mut q = QueryBuffer::new();
    q.backspace();
    assert_eq!(q.cursor(), 0);
    q.insert('a');
    q.insert('b');
    assert_eq!(q.cursor(), 2);
    q.move_right();
    assert_eq!(q.cursor(), 2);
    q.move_left();
    q.insert('x');
    assert_eq!(q.text(), &vec!['a', 'x', 'b']);
    assert_eq!(q.cursor(), 2);
    q.clear();
    assert_eq!(q.cursor(), 0);
    assert!(q.text().is_empty());
}

#[test]
fn query_buffer_word_erase_matches_shell_semantics() {
    let mut q = QueryBuffer::new();
    for c in "one two".chars() {
        q.insert(c);
    }
    q.delete_word_back();
    assert_eq!(q.text(), &vec!['o', 'n', 'e', ' ']);
    q.delete_word_back();
    assert!(q.text().is_empty());
    q.delete_word_back();
    assert!(q.text().is_empty());
}

#[test]
fn selection_list_moves_and_resets() {
    let mut s = SelectionList::new(0);
    assert_eq!(s.selected(), None);
    s.next();
    assert_eq!(s.selected(), None);
    s.reset_to(2);
    assert_eq!(s.selected(), Some(0));
    s.next();
    assert_eq!(s.selected(), Some(1));
    s.next();
    assert_eq!(s.selected(), Some(1));
    s.previous();
    assert_eq!(s.selected(), Some(0));
    s.previous();
    assert_eq!(s.selected(), Some(0));
    s.reset_to(0);
    assert_eq!(s.selected(), None);
}
