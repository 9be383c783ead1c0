use vlerv::gate::{Gate, GateReply, ProviderEvent};
use vlerv::grants::Grants;
use vlerv::beam::{OfferInfo, Offers};
use vlerv::peers::{Peer, Scope};
use vlerv::proto::{Frame, PairAck, Req, Res, TabEntry, PROTO_VERSION};
use vlerv::scope::{
    after_refresh, after_register, artifact_checks, canonical_tabs, gate_for, gate_raw, landed_name,
    not_paired, on_hello, pair_answer, pair_reply, pair_version_check, path_entry, peers_holding, route, welcome,
    HelloRead, RefreshOutcome, Route, DENIED, MAX_SESSIONS_PER_PEER,
};
use vlerv::sessions::Sessions;
use vlerv::host::HostSignal;

/// A root set of one directory, `/w`, holding these files. Canonicalizing
/// resolves `.` and `..`; anything that leaves `/w` or does not exist is
/// refused.
fn resolver(files: &'static [&'static str]) -> impl Fn(&str) -> Option<String> {
    move |raw: &str| {
        let mut parts: Vec<&str> = Vec::new();
        for seg in raw.split('/') {
            match seg {
                "" | "." => {}
                ".." => {
                    parts.pop();
                }
                s => parts.push(s),
            }
        }
        let canonical = format!("/{}", parts.join("/"));
        if canonical.starts_with("/w/") && files.contains(&canonical.as_str()) {
            Some(canonical)
        } else {
            None
        }
    }
}

fn tab(path: &str, active: bool) -> TabEntry {
    TabEntry { path: path.to_string(), active }
}

fn peer(scope: Scope) -> Peer {
    Peer {
        node_id: "ab".repeat(32),
        device: "d".to_string(),
        scope,
        paired_at: 0,
        last_seen: 0,
        last_ack_scope: None,
    }
}

#[test]
fn relative_paths_and_nul_bytes_never_reach_the_filesystem() {
    let never = |_: &str| -> Option<String> { panic!("the filesystem was reached") };
    assert_eq!(gate_raw("relative/path.html", &never).unwrap_err(), DENIED);
    assert_eq!(gate_raw("", &never).unwrap_err(), DENIED);
    assert_eq!(gate_raw("/tmp/a\0b", &never).unwrap_err(), DENIED);
}

#[test]
fn traversal_missing_and_out_of_root_read_the_same() {
    let resolve = resolver(&["/w/a.html"]);
    assert_eq!(gate_raw("/w/a.html", &resolve).unwrap(), "/w/a.html");
    assert_eq!(gate_raw("/w/./a.html", &resolve).unwrap(), "/w/a.html");
    assert_eq!(gate_raw("/w/../etc/secret.txt", &resolve).unwrap_err(), DENIED);
    assert_eq!(gate_raw("/etc/secret.txt", &resolve).unwrap_err(), DENIED);
    assert_eq!(gate_raw("/w/nope.html", &resolve).unwrap_err(), DENIED);
}

#[test]
fn published_tabs_are_gated_and_canonical() {
    let resolve = resolver(&["/w/a.html", "/w/b.html"]);
    let published = canonical_tabs(
        vec![
            tab("/w/./a.html", true),
            tab("/elsewhere/b.html", false),
            tab("", false),
            tab("relative.html", false),
            tab("/tmp/a\0b", false),
        ],
        &resolve,
    );
    assert_eq!(published, vec![tab("/w/a.html", true)]);
}

#[test]
fn a_view_open_peer_reaches_only_what_it_was_told_about() {
    let resolve = resolver(&["/w/open.html", "/w/other.html", "/w/starred.html"]);
    let published = vec!["/w/./open.html".to_string(), "/w/starred.html".to_string(), "/x/leak.txt".to_string()];
    assert_eq!(gate_for(Scope::ViewOpen, "/w/open.html", &published, &resolve).unwrap(), "/w/open.html");
    assert_eq!(gate_for(Scope::ViewOpen, "/w/starred.html", &published, &resolve).unwrap(), "/w/starred.html");
    assert_eq!(gate_for(Scope::ViewOpen, "/w/other.html", &published, &resolve).unwrap_err(), DENIED);
    assert_eq!(gate_for(Scope::ViewOpen, "/x/leak.txt", &published, &resolve).unwrap_err(), DENIED);
    assert_eq!(gate_for(Scope::Browse, "/w/other.html", &published, &resolve).unwrap(), "/w/other.html");
}

#[test]
fn a_peer_cannot_hold_more_than_the_session_cap() {
    let mut st = Sessions::new();
    let mut ids = Vec::new();
    for n in 0..MAX_SESSIONS_PER_PEER {
        ids.push(st.register(n as u64, "nodeA").expect("under the cap"));
    }
    assert!(st.register(99, "nodeA").is_err(), "the cap refuses the next session");
    assert!(st.register(100, "nodeB").is_ok());
    st.unregister(ids[0]);
    assert!(st.register(101, "nodeA").is_ok());
}

#[test]
fn only_a_subscribed_session_that_fetched_a_path_makes_it_worth_re_hashing() {
    let mut st = Sessions::new();
    st.register(1, "nodeA").unwrap();
    st.note_interest(1, "/w/a.html");
    assert!(!st.any_session_holds("/w/a.html"));
    st.set_subscribed(1, true);
    assert!(st.any_session_holds("/w/a.html"));
    assert!(!st.any_session_holds("/w/never-fetched.html"));
}

#[test]
fn events_go_to_subscribed_sessions_and_file_events_to_holders() {
    let mut st = Sessions::new();
    st.register(1, "nodeA").unwrap();
    st.register(2, "nodeB").unwrap();
    st.register(3, "nodeB").unwrap();
    st.set_subscribed(1, true);
    st.set_subscribed(2, true);
    st.note_interest(2, "/w/a.html");
    assert_eq!(st.recipients(None), vec![1, 2]);
    assert_eq!(st.recipients(Some("/w/a.html")), vec![2]);
    st.drop_sessions_for("nodeB");
    assert_eq!(st.count_for("nodeB"), 0);
    assert_eq!(st.recipients(None), vec![1]);
    assert_eq!(st.peer_of(1), Some("nodeA".to_string()));
    assert_eq!(st.peer_of(2), None);
}

#[test]
fn the_handshake_refuses_in_order() {
    assert_eq!(not_paired().close.as_deref(), Some("not a paired peer"));
    let wrong = on_hello(HelloRead::Got(Req::Hello { proto: PROTO_VERSION + 1, device: "x".into() })).unwrap_err();
    assert_eq!(wrong.reply.as_deref(), Some("unsupported protocol version"));
    assert_eq!(wrong.close.as_deref(), Some("protocol version"));
    let not_hello = on_hello(HelloRead::Got(Req::ListTabs)).unwrap_err();
    assert_eq!(not_hello.close.as_deref(), Some("expected hello"));
    assert_eq!(on_hello(HelloRead::TimedOut).unwrap_err().error, "handshake timed out");
    assert_eq!(
        on_hello(HelloRead::Got(Req::Hello { proto: PROTO_VERSION, device: "Mac\u{202E}Studio".into() })).unwrap(),
        "MacStudio"
    );
    assert_eq!(after_refresh(RefreshOutcome::Refreshed).unwrap(), None);
    let gone = after_refresh(RefreshOutcome::Gone).unwrap_err();
    assert_eq!(gone.error, "peer was revoked during the handshake");
    assert!(after_refresh(RefreshOutcome::Failed("disk full".into())).unwrap().unwrap().ends_with("disk full"));
    assert_eq!(after_register(Err("too many open sessions for this peer".into())).unwrap_err().close.as_deref(), Some("session cap"));
    assert_eq!(after_register(Ok(7)).unwrap(), 7);
}

#[test]
fn a_served_peer_is_told_its_scope_and_announced() {
    let (ack, signal) = welcome(&peer(Scope::Browse), "Val's iPhone".to_string(), "Mac Studio");
    assert_eq!(
        ack,
        Frame::Res(Res::Hello(vlerv::proto::HelloAck {
            proto: PROTO_VERSION,
            device: "Mac Studio".into(),
            scope: "browse".into()
        }))
    );
    assert_eq!(
        signal,
        HostSignal::PeerConnected { peer: "ab".repeat(32), device: "Val's iPhone".into(), scope: "browse".into() }
    );
}

#[test]
fn requests_are_filtered_by_scope_before_anything_else() {
    let viewer = peer(Scope::ViewOpen);
    let id = "ab".repeat(32);
    assert_eq!(
        route(&viewer, &id, Req::ListTree { path: "/w".into() }),
        Route::Reply(Res::Denied("not permitted for this peer".into()))
    );
    assert_eq!(
        route(&viewer, &id, Req::OpenOnHost { path: "/w/a.html".into(), reader_mode: false }),
        Route::Reply(Res::Denied("not permitted for this peer".into()))
    );
    assert_eq!(route(&viewer, &id, Req::ListTabs), Route::Tabs);
    assert_eq!(route(&viewer, &id, Req::Subscribe), Route::Subscribe(true));
    assert_eq!(route(&viewer, &id, Req::Unsubscribe), Route::Subscribe(false));
    assert_eq!(
        route(&viewer, &id, Req::Hello { proto: PROTO_VERSION, device: "x".into() }),
        Route::Reply(Res::Denied("session already established".into()))
    );
    let browser = peer(Scope::Browse);
    assert_eq!(route(&browser, &id, Req::ListTree { path: "/w".into() }), Route::Tree("/w".into()));
    let controller = peer(Scope::Control);
    assert_eq!(
        route(&controller, &id, Req::PushArtifact { name: "a".into(), size: u64::MAX, hash: "h".into(), ticket: "t".into() }),
        Route::Reply(Res::Denied("artifact exceeds the transfer size cap".into()))
    );
    match route(&controller, &id, Req::PushArtifact { name: "a".into(), size: 10, hash: "h".into(), ticket: "not-a-ticket".into() }) {
        Route::Reply(Res::Denied(m)) => assert!(m.starts_with("invalid beam ticket"), "{m}"),
        other => panic!("a malformed ticket must be refused: {other:?}"),
    }
}

#[test]
fn artifacts_are_files_under_the_cap() {
    assert_eq!(artifact_checks(false, 1).unwrap_err(), DENIED);
    assert_eq!(artifact_checks(true, u64::MAX).unwrap_err(), "artifact exceeds the transfer size cap");
    assert!(artifact_checks(true, 10).is_ok());
    assert_eq!(path_entry("/w/report.html".to_string()).name, "report.html");
    assert_eq!(landed_name("/r/2024-01-01/report-2.html", "report.html".to_string()), "report-2.html");
    assert_eq!(landed_name("/", "report.html".to_string()), "report.html");
}

#[test]
fn pairing_answers() {
    assert_eq!(pair_version_check(PROTO_VERSION), None);
    assert_eq!(pair_version_check(0), Some(PairAck::Denied("unsupported protocol version".into())));
    let (ack, guest) = pair_answer(true, "Val\u{202E}s", "Mac Studio");
    assert_eq!(ack, PairAck::Accepted { proto: PROTO_VERSION, device: "Mac Studio".into() });
    assert_eq!(guest.as_deref(), Some("Vals"));
    let (ack, guest) = pair_answer(false, "x", "Mac Studio");
    assert_eq!(ack, PairAck::Denied("pairing is not open on this machine".into()));
    assert_eq!(guest, None);
    assert_eq!(pair_reply(PairAck::Accepted { proto: PROTO_VERSION, device: "Host".into() }).unwrap(), "Host");
    assert_eq!(pair_reply(PairAck::Accepted { proto: 0, device: "Host".into() }).unwrap_err(), "unsupported protocol version");
    assert_eq!(pair_reply(PairAck::Denied("no".into())).unwrap_err(), "no");
}

#[test]
fn the_gate_admits_an_offer_or_a_grant_to_the_connections_peer() {
    let now = 1_700_000_000u64;
    let mut offers = Offers::new();
    offers.insert(
        OfferInfo {
            id: "offered".into(),
            path: "/w/a.html".into(),
            name: "a.html".into(),
            size: 1,
            ticket: "t".into(),
            link: "l".into(),
            created_at: now,
            expires_at: now + 60,
            fetches: 0,
        },
        "tag".into(),
    );
    let mut grants = Grants::new();
    grants.insert("granted", "peerA", "t1".into(), now);
    let mut gate = Gate::new();
    assert!(matches!(gate.on_event(ProviderEvent::Connected { connection: 1, peer: Some("peerA".into()) }, &mut offers, &grants, now), GateReply::Nothing));
    gate.on_event(ProviderEvent::Connected { connection: 2, peer: Some("peerB".into()) }, &mut offers, &grants, now);

    let get = |c: u64, h: &str, is_blob: bool| ProviderEvent::Get { connection: c, hash: h.into(), is_blob };
    assert!(matches!(gate.on_event(get(2, "offered", true), &mut offers, &grants, now), GateReply::Answer { admitted: true, changed: true }));
    assert_eq!(offers.list(now)[0].fetches, 1);
    assert!(matches!(gate.on_event(get(1, "granted", true), &mut offers, &grants, now), GateReply::Answer { admitted: true, changed: true }));
    assert!(matches!(gate.on_event(get(2, "granted", true), &mut offers, &grants, now), GateReply::Answer { admitted: false, .. }));
    assert!(matches!(gate.on_event(get(1, "granted", false), &mut offers, &grants, now), GateReply::Answer { admitted: false, .. }));
    assert!(matches!(gate.on_event(ProviderEvent::Other, &mut offers, &grants, now), GateReply::Answer { admitted: false, .. }));
    gate.on_event(ProviderEvent::Closed { connection: 1 }, &mut offers, &grants, now);
    assert!(matches!(gate.on_event(get(1, "granted", true), &mut offers, &grants, now), GateReply::Answer { admitted: false, .. }));
}

use vlerv::proto::TreeEntry;
use vlerv::scope::{list_tree, RawEntry, MAX_TREE_ENTRIES};

fn raw(name: &str, kind: Option<(bool, bool)>) -> RawEntry {
    RawEntry { name: name.to_string(), path: format!("/w/{name}"), kind }
}

#[test]
fn tree_listing_matches_the_quick_open_walker_policy() {
    let listed = list_tree(vec![
        raw("b.html", Some((false, false))),
        raw("node_modules", Some((false, true))),
        raw(".git", Some((false, true))),
        raw(".hidden-dir", Some((false, true))),
        raw(".env", Some((false, false))),
        raw("link", Some((true, false))),
        raw("unreadable", None),
        raw("src", Some((false, true))),
        raw("a.html", Some((false, false))),
        raw("docs", Some((false, true))),
    ]);
    let names: Vec<(&str, bool)> = listed.iter().map(|e: &TreeEntry| (e.name.as_str(), e.is_dir)).collect();
    assert_eq!(names, vec![("docs", true), ("src", true), (".env", false), ("a.html", false), ("b.html", false)]);
    assert_eq!(listed[0].path, "/w/docs");
}

#[test]
fn a_tree_listing_is_capped() {
    let many: Vec<RawEntry> = (0..MAX_TREE_ENTRIES + 10).map(|i| raw(&format!("f{i:05}"), Some((false, false)))).collect();
    let listed = list_tree(many);
    assert_eq!(listed.len(), MAX_TREE_ENTRIES);
    assert_eq!(listed[0].name, "f00000");
}

use vlerv::scope::{push_answer, unexpected, PushFailure, PushedArtifact};

#[test]
fn a_push_answer_keeps_the_hosts_own_wording() {
    assert_eq!(
        push_answer(Res::Pushed { name: "a-2.html".into(), size: 3 }, "h".into()),
        Ok(PushedArtifact { name: "a-2.html".into(), size: 3, hash: "h".into() })
    );
    assert_eq!(
        push_answer(Res::Denied("not permitted for this peer".into()), "h".into()),
        Err(PushFailure::Denied("not permitted for this peer".into()))
    );
    assert!(unexpected(Res::Opened).starts_with("unexpected response from the peer: "));
    assert_eq!(unexpected(Res::Denied("x".into())), "x");
}

fn peer_named(id: &str, scope: Scope) -> Peer {
    Peer { node_id: id.to_string(), ..peer(scope) }
}

#[test]
fn a_change_reaches_only_holders_still_admitted() {
    let resolve = resolver(&["/w/a.html"]);
    let mut st = Sessions::new();
    for (id, who) in [(1u64, "view"), (2, "control"), (3, "stranger"), (4, "idle")] {
        st.register(id, who).unwrap();
        st.note_interest(id, "/w/a.html");
    }
    st.set_subscribed(1, true);
    st.set_subscribed(2, true);
    st.set_subscribed(3, true);
    let peers = vec![peer_named("view", Scope::ViewOpen), peer_named("control", Scope::Control), peer_named("idle", Scope::Control)];

    // The view-open peer closed the tab: only the control peer is left.
    let none_published: Vec<String> = Vec::new();
    assert_eq!(peers_holding(&st, "/w/a.html", &peers, &none_published, &resolve), vec!["control".to_string()]);

    // Still published: both paired holders; the stranger has no record and
    // the idle session never subscribed.
    let published = vec!["/w/./a.html".to_string()];
    assert_eq!(
        peers_holding(&st, "/w/a.html", &peers, &published, &resolve),
        vec!["view".to_string(), "control".to_string()]
    );
}

use vlerv::scope::{handshake_step, Handshake, HandshakeAction, HandshakeEvent, HelloRead as Read, RefreshOutcome as Refresh};

#[test]
fn the_handshake_announces_the_peer_only_after_its_ack() {
    let p = peer(Scope::Control);
    let (s, a) = handshake_step(Handshake::Start, HandshakeEvent::Looked(Some(p.clone())), "Mac");
    assert!(matches!(a, HandshakeAction::AcceptStream));
    // An ack before a registration is not a step of this handshake.
    let (s, a) = handshake_step(s, HandshakeEvent::AckQueued, "Mac");
    assert!(matches!(a, HandshakeAction::Ignore));
    let hello = Req::Hello { proto: PROTO_VERSION, device: "Val's iPhone".to_string() };
    let (s, a) = handshake_step(s, HandshakeEvent::Read(Read::Got(hello)), "Mac");
    assert!(matches!(a, HandshakeAction::RefreshName(ref d) if d == "Val's iPhone"));
    let (s, a) = handshake_step(s, HandshakeEvent::Refresh(Refresh::Failed("EACCES".to_string())), "Mac");
    assert!(matches!(a, HandshakeAction::Register { log: Some(_) }));
    let (s, a) = handshake_step(s, HandshakeEvent::Registered(Ok(7)), "Mac");
    match a {
        HandshakeAction::SendAck(Frame::Res(Res::Hello(ack))) => {
            assert_eq!(ack.device, "Mac");
            assert_eq!(ack.scope, "control");
        }
        _ => panic!("the ack comes first"),
    }
    let (s, a) = handshake_step(s, HandshakeEvent::AckQueued, "Mac");
    match a {
        HandshakeAction::Announce(HostSignal::PeerConnected { device, scope, .. }) => {
            assert_eq!(device, "Val's iPhone");
            assert_eq!(scope, "control");
        }
        _ => panic!("then the announcement"),
    }
    assert!(matches!(s, Handshake::Serving { session: 7 }));

    // Refusals end the handshake before anything is announced.
    let (s, a) = handshake_step(Handshake::Start, HandshakeEvent::Looked(None), "Mac");
    assert!(matches!(a, HandshakeAction::Refuse(_)) && matches!(s, Handshake::Closed));
    let (s, _) = handshake_step(Handshake::Start, HandshakeEvent::Looked(Some(p)), "Mac");
    let (s, _) = handshake_step(s, HandshakeEvent::Read(Read::Got(Req::Hello { proto: PROTO_VERSION, device: "x".into() })), "Mac");
    let (s, a) = handshake_step(s, HandshakeEvent::Refresh(Refresh::Gone), "Mac");
    assert!(matches!(a, HandshakeAction::Refuse(_)));
    let (_, a) = handshake_step(s, HandshakeEvent::Registered(Ok(8)), "Mac");
    assert!(matches!(a, HandshakeAction::Ignore), "a closed handshake registers nothing");
}
