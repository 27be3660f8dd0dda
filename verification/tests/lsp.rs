use gph::lsp::{accept_failure_event, report_accept_result, DocumentVersions};
use gph::preview::PreviewEvent;

#[test]
fn accept_loop_failure_is_forwarded_to_the_preview() {
    let (updates, receiver) = std::sync::mpsc::channel();
    report_accept_result(&updates, &Err("cannot start LSP runtime".to_string()));
    assert!(matches!(
        receiver.recv().unwrap(),
        PreviewEvent::Fatal(error) if error == "cannot start LSP runtime"
    ));
}

#[test]
fn a_clean_accept_loop_sends_nothing() {
    let (updates, receiver) = std::sync::mpsc::channel();
    report_accept_result(&updates, &Ok(()));
    drop(updates);
    assert!(receiver.recv().is_err());
    assert!(accept_failure_event(&Ok(())).is_none());
}

#[test]
fn a_dropped_preview_does_not_stop_the_report() {
    let (updates, receiver) = std::sync::mpsc::channel::<PreviewEvent>();
    drop(receiver);
    report_accept_result(&updates, &Err("gone".to_string()));
}

#[test]
fn document_versions_filter_stale_and_unopened_changes() {
    let mut documents = DocumentVersions::new();
    // A change for a document that was never opened is ignored.
    assert!(!documents.accept("file:///a.mmd", 1, true));
    assert!(documents.accept("file:///a.mmd", 1, false));
    assert!(documents.accept("file:///a.mmd", 2, true));
    // Stale and repeated versions are ignored.
    assert!(!documents.accept("file:///a.mmd", 2, true));
    assert!(!documents.accept("file:///a.mmd", 1, false));
    assert!(documents.accept("file:///b.mmd", -5, false));
    assert!(documents.close("file:///a.mmd"));
    assert!(!documents.close("file:///a.mmd"));
    assert!(!documents.accept("file:///a.mmd", 3, true));
    assert!(documents.accept("file:///a.mmd", 0, false));
}
