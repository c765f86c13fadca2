use editcore::changeset::{ChangeSet, Op};
use editcore::commands;
use editcore::document::{EditorView, Mode};
use editcore::error::EngineError;
use editcore::insert;
use editcore::selection::{Range, Selection};
use editcore::transaction::{Edit, Transaction};

fn chars(s: &str) -> Vec<char> {
    s.chars().collect()
}

fn text_of(view: &EditorView) -> String {
    view.doc.text().iter().collect()
}

fn view_over(s: &str) -> EditorView {
    EditorView::new(chars(s), 80, 24)
}

#[test]
fn word_end_from_start() {
    // text "abc\ndef\n", cursor at 0, one word-end step lands on 'c'.
    let mut view = view_over("abc\ndef\n");
    commands::move_next_word_end(&mut view, 1);
    assert_eq!(view.doc.selection().cursor(), 2);
}

#[test]
fn insert_char_at_two_cursors() {
    let mut view = view_over("abc\ndef\n");
    let ranges = vec![Range::new(0, 0), Range::new(4, 4)];
    let sel = Selection::new(ranges, 0).unwrap();
    view.doc.set_selection(sel);
    insert::insert_char(&mut view, 'x');
    assert_eq!(text_of(&view), "xabc\nxdef\n");
    let rs = &view.doc.selection().ranges;
    assert_eq!((rs[0].anchor, rs[0].head), (1, 1));
    assert_eq!((rs[1].anchor, rs[1].head), (6, 6));
}

#[test]
fn delete_then_undo_restores() {
    let mut view = view_over("abc\ndef\n");
    view.doc.set_selection(Selection::single(0, 3));
    commands::delete_selection(&mut view, 1);
    assert_eq!(text_of(&view), "def\n");
    commands::undo(&mut view, 1);
    assert_eq!(text_of(&view), "abc\ndef\n");
    let rs = &view.doc.selection().ranges;
    assert_eq!((rs[0].anchor, rs[0].head), (0, 3));
}

#[test]
fn redo_after_undo() {
    let mut view = view_over("abc\ndef\n");
    view.doc.set_selection(Selection::single(0, 3));
    commands::delete_selection(&mut view, 1);
    commands::undo(&mut view, 1);
    commands::redo(&mut view, 1);
    assert_eq!(text_of(&view), "def\n");
}

#[test]
fn linewise_paste_lands_on_next_line() {
    let mut view = view_over("abc\ndef\n");
    view.registers.set('"', vec![chars("xy\n")]);
    view.doc.set_selection(Selection::point(1));
    commands::paste(&mut view, 1);
    assert_eq!(text_of(&view), "abc\nxy\ndef\n");
}

#[test]
fn unindent_removes_three_spaces() {
    // indent unit 4; a line with 3 leading spaces loses exactly those 3.
    let mut view = view_over("   abc\n");
    view.doc.set_selection(Selection::point(4));
    commands::unindent(&mut view, 1);
    assert_eq!(text_of(&view), "abc\n");
}

#[test]
fn indent_adds_unit() {
    let mut view = view_over("abc\ndef\n");
    view.doc.set_selection(Selection::point(0));
    commands::indent(&mut view, 1);
    assert_eq!(text_of(&view), "    abc\ndef\n");
}

#[test]
fn selection_new_normalizes() {
    let ranges = vec![Range::new(6, 9), Range::new(0, 2), Range::new(1, 4)];
    let sel = Selection::new(ranges, 0).unwrap();
    let rs = &sel.ranges;
    assert!(rs.len() >= 1);
    for i in 0..rs.len() - 1 {
        assert!(rs[i].to() <= rs[i + 1].from());
    }
}

#[test]
fn selection_new_rejects_empty() {
    assert_eq!(
        Selection::new(Vec::new(), 0).unwrap_err(),
        EngineError::InvalidSelection
    );
}

#[test]
fn change_rejects_unsorted_edits() {
    let mut view = view_over("abcdef");
    view.doc.set_selection(Selection::point(0));
    let edits = vec![
        Edit { from: 3, to: 4, insert: None },
        Edit { from: 0, to: 1, insert: None },
    ];
    let r = Transaction::change(&view.doc.state, edits);
    assert_eq!(r.err().unwrap(), EngineError::UnsortedOrOverlappingEdits);
}

#[test]
fn command_mode_not_supported() {
    let mut view = view_over("abc");
    assert_eq!(
        commands::command_mode(&mut view, 1).unwrap_err(),
        EngineError::NotSupported
    );
}

#[test]
fn grapheme_motion_skips_combining_mark() {
    // "e" + combining acute is one cluster of two characters.
    let mut view = view_over("e\u{301}x");
    commands::move_char_right(&mut view, 1);
    assert_eq!(view.doc.selection().cursor(), 2);
    commands::move_char_left(&mut view, 1);
    assert_eq!(view.doc.selection().cursor(), 0);
}

#[test]
fn compose_then_apply_matches_two_applications() {
    let a = ChangeSet {
        ops: vec![Op::Insert(chars("xy")), Op::Retain(3)],
    };
    let b = ChangeSet {
        ops: vec![Op::Retain(1), Op::Delete(2), Op::Retain(2)],
    };
    let t = chars("abc");
    let step1 = a.apply(&t);
    let step2 = b.apply(&step1);
    let c = a.compose(b);
    let direct = c.apply(&t);
    assert_eq!(direct, step2);
}

#[test]
fn invert_restores_original() {
    let cs = ChangeSet {
        ops: vec![Op::Delete(2), Op::Insert(chars("Q")), Op::Retain(2)],
    };
    let t = chars("abcd");
    let after = cs.apply(&t);
    let inv = cs.invert(&t);
    assert_eq!(inv.apply(&after), t);
}

#[test]
fn insert_then_normal_mode_commits_once() {
    let mut view = view_over("ab");
    commands::insert_mode(&mut view, 1);
    insert::insert_char(&mut view, 'x');
    insert::insert_char(&mut view, 'y');
    commands::normal_mode(&mut view, 1);
    assert_eq!(view.doc.history.revisions.len(), 1);
    commands::undo(&mut view, 1);
    assert_eq!(text_of(&view), "ab");
}

#[test]
fn yank_stores_fragments() {
    let mut view = view_over("abc\ndef\n");
    view.doc.set_selection(Selection::single(0, 3));
    commands::yank(&mut view, 1);
    let vals = view.registers.get('"').unwrap();
    assert_eq!(vals.len(), 1);
    let s: String = vals[0].iter().collect();
    assert_eq!(s, "abc");
}

#[test]
fn select_line_covers_line() {
    let mut view = view_over("abc\ndef\n");
    view.doc.set_selection(Selection::point(5));
    commands::select_line(&mut view, 1);
    let rs = &view.doc.selection().ranges;
    assert_eq!((rs[0].anchor, rs[0].head), (4, 7));
}

#[test]
fn split_selection_on_newline_splits() {
    let mut view = view_over("abc\ndef\n");
    view.doc.set_selection(Selection::single(0, 7));
    commands::split_selection_on_newline(&mut view, 1);
    let rs = &view.doc.selection().ranges;
    assert_eq!(rs.len(), 2);
    assert_eq!((rs[0].anchor, rs[0].head), (0, 3));
    assert_eq!((rs[1].anchor, rs[1].head), (4, 7));
}

#[test]
fn collapse_and_flip() {
    let mut view = view_over("abcdef");
    view.doc.set_selection(Selection::single(1, 4));
    commands::flip_selections(&mut view, 1);
    let rs = &view.doc.selection().ranges;
    assert_eq!((rs[0].anchor, rs[0].head), (4, 1));
    commands::collapse_selection(&mut view, 1);
    let rs = &view.doc.selection().ranges;
    assert_eq!((rs[0].anchor, rs[0].head), (1, 1));
}

#[test]
fn open_below_opens_line() {
    let mut view = view_over("abc\ndef\n");
    view.doc.set_selection(Selection::point(1));
    commands::open_below(&mut view, 1);
    assert_eq!(view.doc.mode, Mode::Insert);
    assert_eq!(text_of(&view), "abc\n\ndef\n");
    assert_eq!(view.doc.selection().cursor(), 4);
}

#[test]
fn move_lines_keeps_column() {
    let mut view = view_over("abc\ndef\n");
    view.doc.set_selection(Selection::point(2));
    commands::move_line_down(&mut view, 1);
    assert_eq!(view.doc.selection().cursor(), 6);
    commands::move_line_up(&mut view, 1);
    assert_eq!(view.doc.selection().cursor(), 2);
}

#[test]
fn identity_changeset_is_neutral() {
    let cs = ChangeSet::new_identity(3);
    let t = chars("abc");
    assert_eq!(cs.apply(&t), t);
    assert!(cs.is_identity());
}

#[test]
fn apply_ops_through_public_apply() {
    // a pure insert at the front
    let cs = ChangeSet {
        ops: vec![Op::Insert(chars("zz")), Op::Retain(2)],
    };
    assert_eq!(cs.apply(&chars("ab")), chars("zzab"));
}

#[test]
fn prompt_inserts_at_cursor() {
    let mut p = editcore::prompt::Prompt::new();
    editcore::commands::insert_char_prompt(&mut p, 'h');
    editcore::commands::insert_char_prompt(&mut p, 'i');
    let s: String = p.line.iter().collect();
    assert_eq!(s, "hi");
    assert_eq!(p.cursor, 2);
}

#[test]
fn paste_repeats_last_value() {
    let mut view = view_over("ab\ncd\n");
    let ranges = vec![Range::new(0, 0), Range::new(3, 3)];
    view.doc.set_selection(Selection::new(ranges, 0).unwrap());
    view.registers.set('"', vec![chars("X")]);
    commands::paste(&mut view, 1);
    assert_eq!(text_of(&view), "aXb\ncXd\n");
}

#[test]
fn retain_delete_drops_tail() {
    let cs = ChangeSet { ops: vec![Op::Retain(1), Op::Delete(1)] };
    let out = cs.apply(&chars("ab"));
    assert_eq!(out, chars("a"));
}
