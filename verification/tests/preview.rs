use gph::preview::{DocumentStore, PreviewEvent};
use gph::preview::{export_destination, ExportPrompt, PromptStep};
use gph::preview::{run_source_preview, viewer_input, ViewerInput, ViewerLoop, POLL_MS, RENDER_DEBOUNCE_MS};
use gph::preview_ui::ZoomAction;
use gph::preview_ui::{InputEvent, KeyCode, Modifiers};

fn set(client: u64, uri: &str, text: &str, version: i64) -> PreviewEvent {
    PreviewEvent::Update {
        client,
        uri: uri.to_string(),
        text: text.to_string(),
        version,
    }
}

#[test]
fn lsp_preview_returns_to_another_client_when_the_latest_client_disconnects() {
    let mut state: DocumentStore<()> = DocumentStore::new();
    state.apply(set(1, "file:///first.mmd", "first", 1));
    state.apply(set(2, "file:///second.mmd", "second", 1));
    assert_eq!(state.selected(), Some(("file:///second.mmd", "second")));

    state.apply(PreviewEvent::Disconnect { client: 2 });
    assert_eq!(state.selected(), Some(("file:///first.mmd", "first")));

    state.apply(PreviewEvent::Close {
        client: 1,
        uri: "file:///first.mmd".to_string(),
    });
    assert_eq!(state.selected(), None);
}

#[test]
fn lsp_preview_ignores_stale_document_versions() {
    let mut state: DocumentStore<()> = DocumentStore::new();
    assert!(state.apply(set(1, "file:///diagram.mmd", "new", 2)));
    assert!(!state.apply(set(1, "file:///diagram.mmd", "stale", 1)));
    assert_eq!(state.selected(), Some(("file:///diagram.mmd", "new")));
}

#[test]
fn documents_are_kept_per_client() {
    let mut state: DocumentStore<u8> = DocumentStore::new();
    assert!(state.apply(set(1, "file:///same.mmd", "one", 1)));
    assert!(state.apply(set(2, "file:///same.mmd", "two", 1)));
    assert_eq!(state.len(), 2);
    assert_eq!(state.source_of(1, "file:///same.mmd"), Some("one"));
    assert_eq!(state.source_of(2, "file:///same.mmd"), Some("two"));
    assert!(!state.apply(PreviewEvent::Disconnect { client: 3 }));
    assert!(state.apply(PreviewEvent::Disconnect { client: 1 }));
    assert_eq!(state.len(), 1);
    assert_eq!(state.source_of(1, "file:///same.mmd"), None);
    assert!(!state.apply(PreviewEvent::Fatal("x".to_string())));
    assert!(!state.apply(PreviewEvent::Close { client: 1, uri: "file:///same.mmd".to_string() }));
}

#[test]
fn a_newer_version_keeps_the_cache_and_moves_to_the_front() {
    let mut state: DocumentStore<u8> = DocumentStore::new();
    state.apply(set(1, "file:///a.mmd", "a1", 1));
    state.apply(set(1, "file:///b.mmd", "b1", 1));
    state.set_cache(1, "file:///a.mmd", 7);
    state.set_cache(1, "file:///missing.mmd", 9);
    assert_eq!(state.cache_of(1, "file:///missing.mmd"), None);
    assert_eq!(state.selected_key(), Some((1, "file:///b.mmd".to_string())));
    assert!(state.apply(set(1, "file:///a.mmd", "a2", 5)));
    assert_eq!(state.cache_of(1, "file:///a.mmd"), Some(&7));
    assert_eq!(state.cache_of(1, "file:///b.mmd"), None);
    assert_eq!(state.selected(), Some(("file:///a.mmd", "a2")));
}

#[test]
fn export_destination_joins_a_plain_file_name() {
    assert_eq!(export_destination("/tmp/out", "diagram.svg"), Ok("/tmp/out/diagram.svg".to_string()));
    assert_eq!(export_destination("/tmp/out/", "diagram.png"), Ok("/tmp/out/diagram.png".to_string()));
}

#[test]
fn export_destination_rejects_paths_and_relative_directories() {
    let refused = Err("export filename must be a file name".to_string());
    assert_eq!(export_destination("/tmp/out", "../diagram.svg"), refused);
    assert_eq!(export_destination("/tmp/out", ""), refused);
    assert_eq!(export_destination("/tmp/out", "."), refused);
    assert_eq!(export_destination("/tmp/out", ".."), refused);
    assert_eq!(export_destination("relative", "diagram.svg"), refused);
}

#[test]
fn export_prompt_edits_and_submits() {
    let key = |code| InputEvent::Key { code, modifiers: Modifiers { bits: 0 } };
    let mut prompt = ExportPrompt::new();
    assert_eq!(prompt.handle(&key(KeyCode::Char('a'))), PromptStep::Edited);
    assert_eq!(prompt.handle(&key(KeyCode::Char('b'))), PromptStep::Edited);
    assert_eq!(prompt.handle(&key(KeyCode::Backspace)), PromptStep::Edited);
    assert_eq!(prompt.input, vec!['a']);
    assert_eq!(prompt.handle(&key(KeyCode::Enter)), PromptStep::Submitted);
    assert!(!prompt.finish(Err("not Mermaid".to_string())));
    assert_eq!(prompt.error, Some("not Mermaid".to_string()));
    assert_eq!(prompt.handle(&key(KeyCode::Char('c'))), PromptStep::Edited);
    assert_eq!(prompt.error, None);
    assert_eq!(
        prompt.handle(&InputEvent::Key { code: KeyCode::Char('c'), modifiers: Modifiers { bits: 2 } }),
        PromptStep::Unhandled
    );
    assert_eq!(prompt.input, vec!['a', 'c']);
    assert_eq!(prompt.handle(&key(KeyCode::Esc)), PromptStep::Cancelled);
    assert!(prompt.finish(Ok(())));
}

fn key_event(c: char, bits: u8) -> InputEvent {
    InputEvent::Key { code: KeyCode::Char(c), modifiers: Modifiers { bits } }
}

#[test]
fn viewer_renders_after_the_debounce() {
    let mut l = ViewerLoop::new();
    assert!(l.render_due(0));
    l.rendered();
    l.drawn();
    assert!(!l.render_due(1_000));
    l.documents_changed(1_000);
    assert!(l.dirty);
    assert!(!l.render_due(1_000 + RENDER_DEBOUNCE_MS - 1));
    assert!(l.render_due(1_000 + RENDER_DEBOUNCE_MS));
    assert_eq!(l.poll_wait(1_000 + RENDER_DEBOUNCE_MS - 10), 10);
    assert_eq!(l.poll_wait(1_000), POLL_MS);
    l.rendered();
    assert_eq!(l, ViewerLoop { dirty: true, preview_dirty: false, deadline: None });
}

#[test]
fn viewer_rerenders_at_once_after_a_zoom() {
    let mut l = ViewerLoop { dirty: false, preview_dirty: false, deadline: None };
    l.rerender_now(500);
    assert!(l.render_due(500));
    assert_eq!(l.poll_wait(500), 0);
    l.drawn();
    assert!(!l.dirty);
    l.touched();
    assert!(l.dirty);
}

#[test]
fn viewer_debounce_saturates_at_the_end_of_the_clock() {
    let mut l = ViewerLoop::new();
    l.documents_changed(u64::MAX - 1);
    assert_eq!(l.deadline, Some(u64::MAX));
}

#[test]
fn viewer_reads_quit_prompt_and_zoom_keys() {
    assert_eq!(viewer_input(&key_event('q', 2), true), ViewerInput::Quit);
    assert_eq!(viewer_input(&key_event('e', 0), true), ViewerInput::Prompt);
    assert_eq!(viewer_input(&key_event('e', 0), false), ViewerInput::OpenPrompt);
    assert_eq!(viewer_input(&key_event('+', 0), false), ViewerInput::Zoom(ZoomAction::In));
    assert_eq!(viewer_input(&key_event('0', 0), false), ViewerInput::Zoom(ZoomAction::Reset));
    assert_eq!(viewer_input(&InputEvent::Resize(80, 24), false), ViewerInput::Resize);
    assert_eq!(viewer_input(&key_event('x', 0), false), ViewerInput::Ignore);
}

#[test]
fn source_preview_needs_kitty() {
    let err = run_source_preview("file:///a.gph".to_string(), "(graph lr)".to_string(), false).unwrap_err();
    assert!(err.contains("requires Kitty"));
    match run_source_preview("file:///a.gph".to_string(), "(graph lr)".to_string(), true).unwrap() {
        PreviewEvent::Update { client, uri, text, version } => {
            assert_eq!(client, 0);
            assert_eq!(uri, "file:///a.gph");
            assert_eq!(text, "(graph lr)");
            assert_eq!(version, 1);
        },
        _ => panic!("expected an update"),
    }
}
