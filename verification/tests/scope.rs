use vlerv::proto::{ArtifactMeta, Event, Frame, HelloAck, PathEntry, Res, TabEntry, TreeEntry, PROTO_VERSION};
use vlerv::scope::{render_res, unexpected};
use vlerv::scope::{
    cache_target, classify_ack, connect_outcome, diff_tabs, staged_hash, stated_refusal, ConnectError, DialOutcome, PushFailure,
    TabsCache, MAX_CLOSE_REASON_CHARS, PEER_OFFLINE,
};
use vlerv::text::strip_spoofing_chars;

fn tab(path: &str, active: bool) -> TabEntry {
    TabEntry { path: path.to_string(), active }
}

#[test]
fn opening_a_tab_derives_one_open_and_one_activation() {
    let events = diff_tabs(&[], &[tab("/a.html", true)]);
    assert_eq!(
        events,
        vec![Event::TabOpened { path: "/a.html".into() }, Event::TabActivated { path: "/a.html".into() }]
    );
}

#[test]
fn closing_a_tab_derives_a_close() {
    let events = diff_tabs(&[tab("/a.html", true), tab("/b.html", false)], &[tab("/b.html", true)]);
    assert_eq!(
        events,
        vec![Event::TabClosed { path: "/a.html".into() }, Event::TabActivated { path: "/b.html".into() }]
    );
}

#[test]
fn switching_tabs_derives_only_an_activation() {
    let prev = vec![tab("/a.html", true), tab("/b.html", false)];
    let next = vec![tab("/a.html", false), tab("/b.html", true)];
    assert_eq!(diff_tabs(&prev, &next), vec![Event::TabActivated { path: "/b.html".into() }]);
}

#[test]
fn an_unchanged_list_derives_nothing() {
    let tabs = vec![tab("/a.html", true), tab("/b.html", false)];
    assert!(diff_tabs(&tabs, &tabs).is_empty());
}

#[test]
fn the_same_file_in_two_tabs_is_one_wire_entry() {
    let prev = vec![tab("/a.html", true)];
    let next = vec![tab("/a.html", true), tab("/a.html", false)];
    assert!(diff_tabs(&prev, &next).is_empty(), "a duplicate path is not a new artifact");
    assert!(diff_tabs(&next, &prev).is_empty());
}

#[test]
fn empty_paths_and_the_start_page_are_not_artifacts() {
    assert!(diff_tabs(&[], &[tab("", true)]).is_empty());
}

#[test]
fn the_cache_publishes_and_diffs_in_one_step() {
    let mut cache = TabsCache::new();
    assert_eq!(cache.publish(vec![tab("/a.html", true)]).len(), 2);
    assert_eq!(cache.list(), vec![tab("/a.html", true)]);
    assert!(cache.publish(vec![tab("/a.html", true)]).is_empty());
}

#[test]
fn every_connect_failure_reports_its_own_cause_not_one_string() {
    let dial = ConnectError::Unreachable(format!("{PEER_OFFLINE} (timed out)"));
    assert_eq!(dial.message(), "peer offline — could not reach it (timed out)");
    let silent = ConnectError::Unreachable("the peer did not answer the handshake".to_string());
    assert_eq!(silent.message(), "the peer did not answer the handshake");

    assert_eq!(
        classify_ack(Frame::Res(Res::Denied("not a paired peer".to_string()))),
        Err(ConnectError::Refused("not a paired peer".to_string())),
        "the host's own wording survives, verbatim"
    );
    assert_eq!(
        classify_ack(Frame::Res(Res::Hello(HelloAck {
            proto: PROTO_VERSION + 1,
            device: "Mac Studio".to_string(),
            scope: "control".to_string(),
        }))),
        Err(ConnectError::Refused("unsupported protocol version".to_string()))
    );
    assert_eq!(
        classify_ack(Frame::Event(Event::TabOpened { path: "/a.html".to_string() })),
        Err(ConnectError::Refused("the peer answered with an unexpected frame".to_string()))
    );
    assert_eq!(
        classify_ack(Frame::Res(Res::Hello(HelloAck {
            proto: PROTO_VERSION,
            device: "Mac Studio".to_string(),
            scope: "control".to_string(),
        }))),
        Ok(("Mac Studio".to_string(), "control".to_string()))
    );

    assert_eq!(PushFailure::Local("only files can be beamed".to_string()).message(), "only files can be beamed");
    assert_eq!(PushFailure::Transport("the session is closed".to_string()).message(), "the session is closed");
    assert_eq!(
        PushFailure::Denied("not permitted for this peer".to_string()).message(),
        "not permitted for this peer"
    );
}

#[test]
fn a_close_reason_from_another_machine_is_bounded_before_a_human_reads_it() {
    let spoof = format!("not a paired peer\u{202E}{}", "x".repeat(500));
    let shown = strip_spoofing_chars(&spoof, MAX_CLOSE_REASON_CHARS);
    assert!(!shown.contains('\u{202E}'), "no bidi override survives into the message");
    assert_eq!(shown.chars().count(), MAX_CLOSE_REASON_CHARS, "and the length is bounded");
}

#[test]
fn a_stated_close_reason_wins_over_the_transport_wording_and_silence_is_unreachable() {
    assert_eq!(stated_refusal("  not a paired peer "), Some("not a paired peer".to_string()));
    assert_eq!(stated_refusal(" \u{202E} "), None);
    assert_eq!(
        connect_outcome(DialOutcome::ReadFailed {
            stated: Some("not a paired peer".to_string()),
            error: "stream ended: connection lost".to_string(),
        }),
        Err(ConnectError::Refused("not a paired peer".to_string()))
    );
    assert_eq!(
        connect_outcome(DialOutcome::OpenFailed { stated: None, error: "reset".to_string() }),
        Err(ConnectError::Refused("cannot open the session stream: reset".to_string()))
    );
    assert_eq!(
        connect_outcome(DialOutcome::TimedOut),
        Err(ConnectError::Unreachable("the peer did not answer the handshake".to_string()))
    );
}

#[test]
fn a_content_address_of_the_wrong_length_is_refused_instead_of_parsed() {
    let real = iroh_blobs::Hash::new(b"a queued artifact");
    let hex = real.to_string();
    assert_eq!(staged_hash(&hex), Ok(hex.clone()));

    // Without the length guard every one of these would reach the parse as
    // base32, which can panic, and a replayed address comes out of a plain
    // file on the user's own disk.
    let one_too_long = format!("{hex}0");
    let right_length_wrong_alphabet = "z".repeat(64);
    for bad in ["", "abc", &hex[..63], one_too_long.as_str(), right_length_wrong_alphabet.as_str()] {
        assert_eq!(
            staged_hash(bad),
            Err(PushFailure::Local("malformed content address".to_string())),
            "refused {bad:?}"
        );
    }
}

#[test]
fn a_fetched_artifact_is_cached_under_its_address_and_extension() {
    let hex = iroh_blobs::Hash::new(b"cached").to_string();
    assert_eq!(cache_target("/s/remote/cache", &hex, ".html"), Ok(format!("/s/remote/cache/{hex}.html")));
    assert_eq!(cache_target("/s/remote/cache", "../../etc/passwd", ""), Err("malformed content address".to_string()));
}

#[test]
fn an_unexpected_frame_is_rendered_as_its_debug_form() {
    let frames = vec![
        Res::Hello(HelloAck { proto: 3, device: "Mac \"Studio\"".to_string(), scope: "control".to_string() }),
        Res::Tabs(vec![tab("/w/a.html", true), tab("/w/b\nc.html", false)]),
        Res::Tabs(vec![]),
        Res::Paths(vec![PathEntry { path: "/w/a".to_string(), name: "a".to_string() }]),
        Res::Tree(vec![TreeEntry { name: "d".to_string(), path: "/w/d".to_string(), is_dir: true }]),
        Res::Artifact(ArtifactMeta { hash: "ab".to_string(), size: 42, mtime: 7, warn: false }),
        Res::Subscribed,
        Res::Opened,
        Res::Denied("no".to_string()),
        Res::Pushed { name: "r.html".to_string(), size: 9 },
    ];
    for f in &frames {
        assert_eq!(render_res(f), format!("{f:?}"));
    }
    assert_eq!(unexpected(Res::Opened), "unexpected response from the peer: Opened");
    assert_eq!(unexpected(Res::Denied("not permitted".to_string())), "not permitted");
}
