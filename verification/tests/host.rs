use std::sync::{Arc, Mutex};
use vlerv::host::{EmptyCatalog, EventSink, HostCatalog, HostSignal};

#[test]
fn a_closure_is_an_event_sink() {
    let seen: Arc<Mutex<Vec<HostSignal>>> = Arc::new(Mutex::new(Vec::new()));
    let sink = {
        let seen = seen.clone();
        move |signal: HostSignal| seen.lock().unwrap().push(signal)
    };
    let signal = HostSignal::OpenOnHost { peer: "nodeA".into(), path: "/w/a.html".to_string(), reader_mode: true };
    EventSink::emit(&sink, signal.clone());
    assert_eq!(seen.lock().unwrap().as_slice(), &[signal]);
}

#[test]
fn a_struct_sink_can_hold_state_instead_of_capturing_it() {
    struct Queue(Mutex<Vec<HostSignal>>);
    impl EventSink for Queue {
        fn emit(&self, signal: HostSignal) {
            self.0.lock().unwrap().push(signal);
        }
    }
    let q = Queue(Mutex::new(Vec::new()));
    q.emit(HostSignal::ArtifactReceived {
        peer: "nodeA".into(),
        path: "/state/received/2026-08-29/a.html".to_string(),
        name: "a.html".into(),
        size: 3,
        hash: "ab".repeat(32),
    });
    assert_eq!(q.0.lock().unwrap().len(), 1);
}

#[test]
fn the_empty_catalog_reports_nothing() {
    assert!(EmptyCatalog.bookmarks().is_empty());
    assert!(EmptyCatalog.recents().is_empty());
}
