use ted::Config;
use ted::buffer::Buffer;
use ted::buffer::Edit;
use ted::buffer::LineEnding;
use ted::buffer::Point;
use ted::buffer::SaveError;
use ted::cursor::Cursor;
use ted::cursor::Direction;
use ted::grapheme::Grapheme;
use ted::line::Line;
use ted::screen::Screen;

fn config() -> Config {
    Config { paths: Vec::new(), readonly: false, truncate: false }
}

fn buffer_from(lines: &[&str]) -> Buffer {
    let raw: Vec<String> = lines.iter().map(|s| format!("{}\n", s)).collect();
    let mut b = Buffer::build("test.txt", &raw, 7, &config());
    assert_eq!(b.line_count(), lines.len());
    b.ending = LineEnding::LF;
    b
}

fn texts(b: &Buffer) -> Vec<String> {
    b.lines().iter().map(|l| l.text()).collect()
}

#[test]
fn line_metrics_match_graphemes() {
    let l = Line::from("héllo");
    assert_eq!(l.size(), 5);
    assert_eq!(l.width(), 5);
    assert_eq!(l.byte_len(), 6);
    let e = Line::new();
    assert_eq!(e.size(), 0);
    assert_eq!(e.width(), 0);
    assert_eq!(e.byte_len(), 0);
}

#[test]
fn line_metrics_wide_characters() {
    let l = Line::from("日本");
    assert_eq!(l.size(), 2);
    assert_eq!(l.width(), 4);
    assert_eq!(l.byte_len(), 6);
}

#[test]
fn line_insert_delete_round_trip() {
    let mut l = Line::from("abc");
    l.insert('x', 1);
    assert_eq!(l.text(), "axbc");
    assert_eq!(l.size(), 4);
    let removed = l.delete(1, 2);
    assert_eq!(removed.text(), "x");
    assert_eq!(l.text(), "abc");
    assert_eq!(l.size(), 3);
    assert_eq!(l.width(), 3);
}

#[test]
fn line_control_character_skipped() {
    let mut l = Line::from("ab");
    l.insert('\u{7}', 1);
    assert_eq!(l.text(), "ab");
    assert_eq!(l.size(), 2);
}

#[test]
fn line_split_concat() {
    let mut l = Line::from("abcd");
    let tail = l.split(2);
    assert_eq!(l.text(), "ab");
    assert_eq!(tail.text(), "cd");
    l.concat(&tail);
    assert_eq!(l.text(), "abcd");
    assert_eq!(l.width(), 4);
}

#[test]
fn line_replace_returns_prior() {
    let mut l = Line::from("abcd");
    let prior = l.replace('x', 1, 3);
    assert_eq!(prior.text(), "bc");
    assert_eq!(l.text(), "axd");
    let prior2 = l.replace_str("yz", 1, 2);
    assert_eq!(prior2.text(), "x");
    assert_eq!(l.text(), "ayzd");
}

#[test]
fn buffer_insert_then_inverse_restores() {
    let mut b = buffer_from(&["abc"]);
    let g = Grapheme::from_char('x').unwrap();
    let inv = b.execute(&Edit::Insert(g, Point { x: 1, y: 0 })).unwrap();
    assert_eq!(texts(&b), vec!["axbc"]);
    assert!(b.is_dirty());
    b.execute(&inv).unwrap();
    assert_eq!(texts(&b), vec!["abc"]);
}

#[test]
fn buffer_line_break_insert_and_undo() {
    // Scenario: a line break at byte 2 of "abcd" splits it; the inverse
    // joins it back.
    let mut b = buffer_from(&["abcd"]);
    let inv = b.execute(&Edit::Insert(Grapheme::line_break(), Point { x: 2, y: 0 })).unwrap();
    assert_eq!(texts(&b), vec!["ab", "cd"]);
    b.execute(&inv).unwrap();
    assert_eq!(texts(&b), vec!["abcd"]);
}

#[test]
fn buffer_cut_paste_round_trip() {
    // Scenario: cutting from {1,0} to {1,2} collapses three lines into one;
    // executing the returned paste restores them.
    let mut b = buffer_from(&["foo", "bar", "baz"]);
    let inv = b.execute(&Edit::Cut(Point { x: 1, y: 0 }, Point { x: 1, y: 2 })).unwrap();
    assert_eq!(texts(&b), vec!["faz"]);
    let back = b.execute(&inv).unwrap();
    assert_eq!(texts(&b), vec!["foo", "bar", "baz"]);
    match back {
        Edit::Cut(a, c) => {
            assert_eq!(a, Point { x: 1, y: 0 });
            assert_eq!(c, Point { x: 1, y: 2 });
        },
        _ => panic!("inverse of a paste is a cut"),
    }
}

#[test]
fn buffer_single_line_cut() {
    let mut b = buffer_from(&["abcdef"]);
    let inv = b.execute(&Edit::Cut(Point { x: 1, y: 0 }, Point { x: 4, y: 0 })).unwrap();
    assert_eq!(texts(&b), vec!["aef"]);
    b.execute(&inv).unwrap();
    assert_eq!(texts(&b), vec!["abcdef"]);
}

#[test]
fn buffer_delete_joins_lines() {
    let mut b = buffer_from(&["ab", "cd"]);
    let inv = b.execute(&Edit::Delete(Point { x: 2, y: 0 })).unwrap();
    assert_eq!(texts(&b), vec!["abcd"]);
    b.execute(&inv).unwrap();
    assert_eq!(texts(&b), vec!["ab", "cd"]);
}

#[test]
fn buffer_delete_at_end_is_noop() {
    let mut b = buffer_from(&["ab"]);
    assert!(b.execute(&Edit::Delete(Point { x: 2, y: 0 })).is_none());
    assert!(!b.is_dirty());
}

#[test]
fn buffer_overwrite_and_inverse() {
    let mut b = buffer_from(&["abc"]);
    let g = Grapheme::from_char('z').unwrap();
    let inv = b.execute(&Edit::Overwrite(g, Point { x: 1, y: 0 })).unwrap();
    assert_eq!(texts(&b), vec!["azc"]);
    b.execute(&inv).unwrap();
    assert_eq!(texts(&b), vec!["abc"]);
}

#[test]
fn buffer_replace_and_inverse() {
    let mut b = buffer_from(&["abcd"]);
    let repl = Line::from("xy");
    let inv = b.execute(&Edit::Replace(Point { x: 1, y: 0 }, 2, repl)).unwrap();
    assert_eq!(texts(&b), vec!["axyd"]);
    b.execute(&inv).unwrap();
    assert_eq!(texts(&b), vec!["abcd"]);
}

#[test]
fn buffer_build_detects_crlf() {
    let raw = vec![String::from("one\r\n"), String::from("two\r\n")];
    let b = Buffer::build("f.txt", &raw, 3, &config());
    assert_eq!(*b.line_ending(), LineEnding::CRLF);
    assert_eq!(texts(&b), vec!["one", "two"]);
    assert_eq!(b.render(), "one\r\ntwo");
}

#[test]
fn buffer_build_empty_file() {
    let raw: Vec<String> = Vec::new();
    let b = Buffer::build("f.txt", &raw, 3, &config());
    assert_eq!(b.line_count(), 1);
    assert_eq!(texts(&b), vec![""]);
    assert_eq!(*b.line_ending(), LineEnding::LF);
}

#[test]
fn buffer_render_joins_with_ending() {
    let b = buffer_from(&["a", "b", "c"]);
    assert_eq!(b.render(), "a\nb\nc");
}

#[test]
fn save_readonly_always_fails() {
    // Scenario: saving a readonly buffer fails with the readonly error and
    // leaves the dirty flag alone.
    let raw = vec![String::from("data\n")];
    let cfg = Config { paths: Vec::new(), readonly: true, truncate: false };
    let mut b = Buffer::build("f.txt", &raw, 3, &cfg);
    let g = Grapheme::from_char('x').unwrap();
    b.execute(&Edit::Insert(g, Point { x: 0, y: 0 })).unwrap();
    assert!(b.is_dirty());
    assert_eq!(b.save(false, None), Err(SaveError::Readonly));
    assert_eq!(b.save(true, Some(99)), Err(SaveError::Readonly));
    assert!(b.is_dirty());
}

#[test]
fn save_conflict_and_overwrite() {
    let b = buffer_from(&["x"]);
    assert_eq!(b.save(false, Some(100)), Err(SaveError::Conflict));
    assert!(b.save(true, Some(100)).is_ok());
    assert_eq!(b.save(false, Some(3)).unwrap(), "x");
}

#[test]
fn save_as_existing_path_refused() {
    let b = buffer_from(&["x"]);
    assert_eq!(b.save_as(true, false, None), Err(SaveError::PathExists));
    assert!(b.save_as(true, true, None).is_ok());
    assert!(b.save_as(false, false, None).is_ok());
}

#[test]
fn cursor_steps_over_multibyte() {
    // Scenario: "héllo" with a one-column, two-byte é. One step right gives
    // index 1, byte 1, column 1; the next crosses é to index 2, byte 3,
    // column 2.
    let b = buffer_from(&["héllo"]);
    let mut c = Cursor::new();
    c.step_cursor(&b, Direction::Right);
    assert_eq!((c.index, c.byte, c.column), (1, 1, 1));
    c.step_cursor(&b, Direction::Right);
    assert_eq!((c.index, c.byte, c.column), (2, 3, 2));
}

#[test]
fn cursor_move_right_then_left_returns() {
    let b = buffer_from(&["hello", "world"]);
    let mut c = Cursor::new();
    c.move_cursor(&b, Direction::Right, 3);
    assert_eq!((c.row, c.byte, c.index), (0, 3, 3));
    c.move_cursor(&b, Direction::Left, 3);
    assert_eq!((c.row, c.byte, c.index), (0, 0, 0));
}

#[test]
fn cursor_crosses_line_boundary() {
    let b = buffer_from(&["ab", "cd"]);
    let mut c = Cursor::new();
    c.move_cursor(&b, Direction::Right, 3);
    assert_eq!((c.row, c.index), (1, 0));
    assert_eq!(c.offset, 2);
    c.move_cursor(&b, Direction::Left, 3);
    assert_eq!((c.row, c.index, c.offset), (0, 0, 0));
}

#[test]
fn cursor_vertical_keeps_desired_column() {
    let b = buffer_from(&["abcdef", "x", "ghijkl"]);
    let mut c = Cursor::new();
    c.move_cursor(&b, Direction::Right, 4);
    assert_eq!((c.row, c.column), (0, 4));
    c.move_cursor(&b, Direction::Down, 1);
    assert_eq!((c.row, c.column), (1, 1));
    c.move_cursor(&b, Direction::Down, 1);
    assert_eq!((c.row, c.column), (2, 4));
    let f = Cursor::from(&b, 4, 0);
    assert_eq!((f.row, f.column, f.byte, f.index), (0, 4, 4, 4));
}

#[test]
fn screen_insert_and_line_break() {
    // Scenario: a line break typed at byte 2 of "abcd" yields two lines;
    // one undo restores the single line.
    let mut s = Screen::new(buffer_from(&["abcd"]));
    s.move_cursor(Direction::Right);
    s.move_cursor(Direction::Right);
    s.insert('\n');
    assert_eq!(texts(&s.buffer), vec!["ab", "cd"]);
    assert_eq!((s.cursor.row, s.cursor.byte), (1, 0));
    s.undo();
    assert_eq!(texts(&s.buffer), vec!["abcd"]);
}

#[test]
fn screen_undo_groups_same_kind() {
    // Scenario: three character inserts then one delete push four undo
    // entries; undoing the delete leaves the three insert entries, which
    // then pop together in one undo call.
    let mut s = Screen::new(buffer_from(&[""]));
    s.insert('a');
    s.insert('b');
    s.insert('c');
    s.move_cursor(Direction::Left);
    s.delete();
    assert_eq!(s.undo_stack.len(), 4);
    assert_eq!(texts(&s.buffer), vec!["ab"]);
    s.undo();
    assert_eq!(s.undo_stack.len(), 3);
    assert_eq!(texts(&s.buffer), vec!["abc"]);
    s.undo();
    assert_eq!(s.undo_stack.len(), 0);
    assert_eq!(texts(&s.buffer), vec![""]);
}

#[test]
fn screen_undo_redo_replay() {
    // A run of inserts is undone by one call and replayed by one redo.
    let mut s = Screen::new(buffer_from(&[""]));
    s.insert('h');
    s.insert('i');
    s.insert('!');
    assert_eq!(texts(&s.buffer), vec!["hi!"]);
    s.undo();
    assert_eq!(texts(&s.buffer), vec![""]);
    assert_eq!(s.undo_stack.len(), 0);
    s.redo();
    assert_eq!(texts(&s.buffer), vec!["hi!"]);
    assert_eq!(s.undo_stack.len(), 3);
    s.undo();
    assert_eq!(texts(&s.buffer), vec![""]);
}

#[test]
fn screen_backspace_and_join() {
    let mut s = Screen::new(buffer_from(&["ab", "cd"]));
    s.move_cursor(Direction::Down);
    s.home();
    s.backspace();
    assert_eq!(texts(&s.buffer), vec!["abcd"]);
    s.undo();
    assert_eq!(texts(&s.buffer), vec!["ab", "cd"]);
}

#[test]
fn screen_selection_stays_ordered() {
    let mut s = Screen::new(buffer_from(&["abcdef"]));
    s.move_cursor(Direction::Right);
    s.move_cursor(Direction::Right);
    s.select(Direction::Right);
    s.select(Direction::Right);
    s.select(Direction::Left);
    s.select(Direction::Left);
    s.select(Direction::Left);
    let (l, r) = s.selection.as_ref().unwrap();
    assert!(l.offset <= r.offset);
    assert_eq!((l.offset, r.offset), (1, 2));
    s.move_cursor(Direction::Right);
    assert!(s.selection.is_none());
}

#[test]
fn screen_selection_backspace_cuts_range() {
    let mut s = Screen::new(buffer_from(&["abcdef"]));
    s.move_cursor(Direction::Right);
    s.select(Direction::Right);
    s.select(Direction::Right);
    s.backspace();
    assert_eq!(texts(&s.buffer), vec!["adef"]);
    assert!(s.selection.is_none());
    s.undo();
    assert_eq!(texts(&s.buffer), vec!["abcdef"]);
}

#[test]
fn screen_overwrite_replaces() {
    let mut s = Screen::new(buffer_from(&["abc"]));
    s.overwrite('z');
    assert_eq!(texts(&s.buffer), vec!["zbc"]);
    assert_eq!(s.cursor.byte, 1);
    s.undo();
    assert_eq!(texts(&s.buffer), vec!["abc"]);
}

#[test]
fn range_helpers() {
    assert!(ted::intersects(&(0..3), &(2..5)));
    assert!(!ted::intersects(&(0..1), &(3..5)));
    assert_eq!(ted::intersection(&(0..3), &(2..5)), Some(2..3));
    assert_eq!(ted::intersection(&(0..1), &(3..5)), None);
}

#[test]
fn screen_set_cursor_translates_and_clamps() {
    let mut s = Screen::new(buffer_from(&["abcdef", "gh"]));
    // Gutter is one digit wide: screen column 4 targets display column 3.
    s.set_cursor(4, 0);
    assert_eq!((s.cursor.row, s.cursor.column, s.cursor.index), (0, 3, 3));
    // A row past the buffer clamps to the last line.
    s.set_cursor(1, 9);
    assert_eq!(s.cursor.row, 1);
    // A column past the line clamps to its end.
    s.set_cursor(99, 1);
    assert_eq!((s.cursor.row, s.cursor.byte, s.cursor.index), (1, 2, 2));
    assert!(s.selection.is_none());
}

#[test]
fn screen_viewport_scrolls_minimally() {
    let mut s = Screen::new(buffer_from(&["aaaa", "bbbb", "cccc", "dddd"]));
    // Cursor in view: the origin stays put.
    s.update_viewport(20, 2);
    assert_eq!(s.origin.as_tuple(), (0, 0));
    // Cursor two rows below a one-row-late window: scrolls just enough.
    s.move_cursor(Direction::Down);
    s.move_cursor(Direction::Down);
    s.update_viewport(20, 2);
    assert_eq!(s.origin.as_tuple(), (0, 1));
    // Moving back up pulls the origin up to the cursor, no further.
    s.top();
    s.update_viewport(20, 2);
    assert_eq!(s.origin.as_tuple(), (0, 0));
}

#[test]
fn buffer_build_strips_detected_ending() {
    // LF file: a stray "\r\n"-ended line keeps its carriage return.
    let raw = vec![String::from("a\n"), String::from("b\r\n")];
    let b = Buffer::build("f.txt", &raw, 1, &config());
    assert_eq!(*b.line_ending(), LineEnding::LF);
    assert_eq!(texts(&b), vec!["a", "b\r"]);
    // CRLF file: a bare-LF line still loses its line feed.
    let raw2 = vec![String::from("a\r\n"), String::from("b\n")];
    let b2 = Buffer::build("f.txt", &raw2, 1, &config());
    assert_eq!(*b2.line_ending(), LineEnding::CRLF);
    assert_eq!(texts(&b2), vec!["a", "b"]);
}

#[test]
fn screen_backspace_noop_at_start() {
    let mut s = Screen::new(buffer_from(&["ab"]));
    s.backspace();
    assert_eq!(texts(&s.buffer), vec!["ab"]);
    assert_eq!(s.undo_stack.len(), 0);
    assert!(!s.buffer.is_dirty());
}
