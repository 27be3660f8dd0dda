use gph::preview_ui::{InputEvent, KeyCode, Modifiers};
use gph::tui::{
    apply_line_edit, combine, finalize_event_loop_result, history_action, line_edit, logical_lines_and_endings,
    source_from_lines, EditHistory, HistoryAction, UNDO_LIMIT,
};

#[test]
fn preserves_mixed_line_endings_when_line_count_is_unchanged() {
    let source = "a\rb\r\nc\nd\r";
    let (lines, endings_before) = logical_lines_and_endings(source);

    assert_eq!(lines, ["a", "b", "c", "d", ""]);
    assert_eq!(source_from_lines(&lines, &endings_before, "\n"), source);
}

#[test]
fn inserted_line_gets_the_default_without_moving_existing_endings() {
    let lines = ["a", "b", "new", "c", ""].map(str::to_owned);
    let (_, mut endings) = logical_lines_and_endings("a\rb\nc\r\n");
    apply_line_edit(&mut endings, 1, 0, 1, "\r");

    assert_eq!(
        source_from_lines(&lines, &endings, "\r"),
        "a\rb\rnew\nc\r\n"
    );
}

#[test]
fn deleted_boundary_keeps_untouched_later_endings() {
    let lines = ["ab", "c", ""].map(str::to_owned);
    let (_, mut endings) = logical_lines_and_endings("a\rb\nc\r\n");
    apply_line_edit(&mut endings, 0, 1, 0, "\r");

    assert_eq!(source_from_lines(&lines, &endings, "\r"), "ab\nc\r\n");
}

#[test]
fn event_loop_error_includes_a_pending_save_error() {
    assert_eq!(
        finalize_event_loop_result(
            Err("event read failed".to_string()),
            Some("cannot save 'diagram.mmd': permission denied"),
        ),
        Err("event read failed; cannot save 'diagram.mmd': permission denied".to_string())
    );
}

#[test]
fn successful_event_loop_returns_a_pending_save_error() {
    assert_eq!(
        finalize_event_loop_result(
            Ok(()),
            Some("cannot save 'diagram.mmd': permission denied"),
        ),
        Err("cannot save 'diagram.mmd': permission denied".to_string())
    );
}

#[test]
fn a_save_error_equal_to_the_loop_error_is_not_repeated() {
    assert_eq!(
        finalize_event_loop_result(Err("disk full".to_string()), Some("disk full")),
        Err("disk full".to_string())
    );
    assert_eq!(finalize_event_loop_result(Ok(()), None), Ok(()));
}

#[test]
fn event_loop_result_is_unchanged_without_a_save_error() {
    assert_eq!(
        finalize_event_loop_result(Err("event read failed".to_string()), None),
        Err("event read failed".to_string())
    );
}

#[test]
fn tui_combines_primary_and_cleanup_errors() {
    assert_eq!(
        combine(Err("primary".to_string()), Err("cleanup".to_string())),
        Err("primary; cleanup failed: cleanup".to_string())
    );
}

#[test]
fn combine_keeps_a_lone_error_or_success() {
    assert_eq!(combine(Ok(()), Ok(())), Ok(()));
    assert_eq!(combine(Err("primary".to_string()), Ok(())), Err("primary".to_string()));
    assert_eq!(combine(Ok(()), Err("cleanup".to_string())), Err("cleanup".to_string()));
}

#[test]
fn source_round_trips_through_its_rows_and_breaks() {
    for source in ["", "x", "a\r\n", "\n\n", "a\rb\r\nc\nd\r", "\r\r\n\n\r"] {
        let (lines, endings) = logical_lines_and_endings(source);
        assert_eq!(lines.len(), endings.len());
        assert_eq!(source_from_lines(&lines, &endings, "\n"), source);
    }
}

#[test]
fn a_source_without_breaks_is_one_row() {
    let (lines, endings) = logical_lines_and_endings("only");
    assert_eq!(lines, ["only"]);
    assert_eq!(endings, [None]);
}

fn key(c: char, bits: u8) -> InputEvent {
    InputEvent::Key { code: KeyCode::Char(c), modifiers: Modifiers { bits } }
}

#[test]
fn undo_then_redo_restores_the_edit() {
    let mut h: EditHistory<String> = EditHistory::new();
    assert!(!h.can_undo());
    h.push_undo("v1".to_string());
    h.clear_redo();
    let back = h.undo("v2".to_string());
    assert_eq!(back.as_deref(), Some("v1"));
    let again = h.redo("v1".to_string());
    assert_eq!(again.as_deref(), Some("v2"));
    assert!(h.can_undo());
    assert_eq!(h.undo("v2".to_string()).as_deref(), Some("v1"));
}

#[test]
fn undo_and_redo_on_empty_stacks_give_nothing() {
    let mut h: EditHistory<u32> = EditHistory::new();
    assert_eq!(h.undo(7), None);
    assert_eq!(h.redo(7), None);
    assert!(!h.can_undo());
}

#[test]
fn undo_history_drops_the_oldest_beyond_its_limit() {
    let mut h: EditHistory<usize> = EditHistory::new();
    for i in 0..UNDO_LIMIT + 1 {
        h.push_undo(i);
    }
    let mut seen = Vec::new();
    while let Some(s) = h.undo(999) {
        seen.push(s);
    }
    assert_eq!(seen.len(), UNDO_LIMIT);
    assert_eq!(seen[0], UNDO_LIMIT);
    assert_eq!(*seen.last().unwrap(), 1);
}

#[test]
fn history_keys_need_control_without_alt() {
    assert_eq!(history_action(&key('u', 2)), Some(HistoryAction::Undo));
    assert_eq!(history_action(&key('r', 2)), Some(HistoryAction::Redo));
    assert_eq!(history_action(&key('r', 3)), Some(HistoryAction::Redo));
    assert_eq!(history_action(&key('u', 6)), None);
    assert_eq!(history_action(&key('u', 0)), None);
    assert_eq!(history_action(&key('x', 2)), None);
    assert_eq!(history_action(&InputEvent::Other), None);
}

#[test]
fn line_edit_of_a_selection_replaces_its_rows() {
    // Rows 2..4 selected and replaced by one line: 5 lines become 4.
    assert_eq!(line_edit(5, 4, 3, 2, Some((2, 4))), (2, 2, 1));
}

#[test]
fn line_edit_without_selection_follows_the_cursor() {
    // A line break typed on row 1: one more line, nothing removed.
    assert_eq!(line_edit(3, 4, 1, 2, None), (1, 0, 1));
    // Two lines joined by deleting backwards from row 2 to row 1.
    assert_eq!(line_edit(4, 3, 2, 1, None), (1, 1, 0));
}
