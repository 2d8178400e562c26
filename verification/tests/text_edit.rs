use kyute::{EditState, Movement, Selection, TextEdit, TextEditAction, TextEditResult};
use std::cell::RefCell;

#[test]
fn selection_ends() {
    let forward = Selection { start: 2, end: 5 };
    let backward = Selection { start: 5, end: 2 };
    assert_eq!((forward.min(), forward.max()), (2, 5));
    assert_eq!((backward.min(), backward.max()), (2, 5));
    assert!(!forward.is_empty());
    assert!(Selection::empty(3).is_empty());
    assert_eq!(Selection::empty(3), Selection { start: 3, end: 3 });
    assert_eq!(Selection::default(), Selection { start: 0, end: 0 });
}

#[test]
fn caret_moves_by_grapheme_clusters() {
    // "e" with a combining acute accent is one cluster of three bytes
    let mut edit = TextEdit::new("ae\u{301}b".to_string());
    assert_eq!(edit.get_selection(), Selection::empty(0));
    edit.move_cursor(Movement::Left, false);
    assert_eq!(edit.get_selection(), Selection::empty(0));
    edit.move_cursor(Movement::Right, false);
    assert_eq!(edit.get_selection(), Selection::empty(1));
    edit.move_cursor(Movement::Right, false);
    assert_eq!(edit.get_selection(), Selection::empty(4));
    edit.move_cursor(Movement::Right, true);
    assert_eq!(edit.get_selection(), Selection { start: 4, end: 5 });
    edit.move_cursor(Movement::Right, true);
    assert_eq!(edit.get_selection(), Selection { start: 4, end: 5 });
    edit.move_cursor(Movement::Left, true);
    edit.move_cursor(Movement::Left, true);
    assert_eq!(edit.get_selection(), Selection { start: 4, end: 1 });
    edit.move_cursor(Movement::LeftWord, true);
    assert_eq!(edit.get_selection(), Selection { start: 4, end: 1 });
    edit.move_cursor(Movement::RightWord, false);
    assert_eq!(edit.get_selection(), Selection::empty(1));
    assert!(edit.is_selection_valid());
}

#[test]
fn insert_replaces_the_selection() {
    let mut edit = TextEdit::new("hello world".to_string());
    edit.set_cursor(5);
    edit.set_selection_end(11);
    assert_eq!(edit.get_selection(), Selection { start: 5, end: 11 });
    edit.insert(", you");
    assert_eq!(edit.get_text(), "hello, you");
    assert_eq!(edit.get_selection(), Selection::empty(10));
    edit.select_all();
    assert_eq!(edit.get_selection(), Selection { start: 0, end: 10 });
    edit.insert("");
    assert_eq!(edit.get_text(), "");
    assert_eq!(edit.get_selection(), Selection::empty(0));
    // a backward selection is replaced just the same
    let mut edit = TextEdit::new("abcdef".to_string());
    edit.set_cursor(4);
    edit.set_selection_end(1);
    edit.insert("-");
    assert_eq!(edit.get_text(), "a-ef");
    assert_eq!(edit.get_selection(), Selection::empty(2));
}

#[test]
fn set_text_keeps_the_selection_of_the_same_text() {
    let mut edit = TextEdit::new("abc".to_string());
    edit.set_cursor(2);
    edit.set_text("abc".to_string());
    assert_eq!(edit.get_selection(), Selection::empty(2));
    edit.set_text("abd".to_string());
    assert_eq!(edit.get_text(), "abd");
    assert_eq!(edit.get_selection(), Selection::empty(0));
}

#[test]
fn selection_off_a_character_boundary_is_not_valid() {
    let mut edit = TextEdit::new("\u{e9}".to_string());
    edit.set_cursor(1);
    assert!(!edit.is_selection_valid());
    edit.set_cursor(2);
    assert!(edit.is_selection_valid());
    edit.set_cursor(3);
    assert!(!edit.is_selection_valid());
}

#[test]
fn edit_state_resets_the_selection() {
    let mut state = EditState::new("one".to_string());
    assert_eq!(state.text, "one");
    assert_eq!(state.selection, Selection::empty(0));
    state.selection = Selection { start: 1, end: 2 };
    state.set_text("two".to_string());
    assert_eq!(state.text, "two");
    assert_eq!(state.selection, Selection::empty(0));
}

#[test]
fn text_edit_result_calls_the_matching_handler() {
    let seen = RefCell::new(Vec::new());
    let changed = TextEditResult(Some(TextEditAction::TextChanged("new".to_string())));
    changed.on_text_changed(|text| seen.borrow_mut().push(format!("text {}", text)));
    changed.on_selection_changed(|_| seen.borrow_mut().push("selection".to_string()));
    let selected = TextEditResult(Some(TextEditAction::SelectionChanged(Selection {
        start: 1,
        end: 4,
    })));
    selected.on_text_changed(|_| seen.borrow_mut().push("text".to_string()));
    selected.on_selection_changed(|s| {
        seen.borrow_mut()
            .push(format!("selection {}..{}", s.start, s.end))
    });
    let nothing = TextEditResult(None);
    nothing.on_text_changed(|_| seen.borrow_mut().push("text".to_string()));
    nothing.on_selection_changed(|_| seen.borrow_mut().push("selection".to_string()));
    assert_eq!(
        *seen.borrow(),
        vec!["text new".to_string(), "selection 1..4".to_string()]
    );
}
