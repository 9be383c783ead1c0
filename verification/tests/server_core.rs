use vlerv::proto::sanitize_device;
use vlerv::server_core::{device_name, pairing_instructions, retry_delay};

#[test]
fn the_device_name_says_which_tool_it_is() {
    let name = device_name("studio");
    assert!(name.starts_with("vlerv-mcp @ "), "{name}");
    assert_eq!(name, sanitize_device(&name));
}

#[test]
fn the_retry_ladder_never_dials_a_sleeping_device_more_than_once_a_minute() {
    assert_eq!(retry_delay(1), 60);
    assert_eq!(retry_delay(2), 120);
    assert_eq!(retry_delay(3), 300);
    assert_eq!(retry_delay(4), 600);
    assert_eq!(retry_delay(u32::MAX), 600, "it never grows past ten");
    assert_eq!(retry_delay(0), 60);
    assert!((0..=8).all(|f| retry_delay(f) >= 60), "the floor holds at every rung");
}

#[test]
fn the_pairing_instructions_name_the_grant_direction() {
    let text = pairing_instructions("vlerv-mcp @ studio").join(" ");
    assert!(text.contains("control"), "{text}");
    assert!(text.contains("vlerv-mcp @ studio"), "{text}");
}

#[test]
fn a_machine_name_with_a_bidi_override_is_cleaned_before_it_is_announced() {
    assert_eq!(device_name("Mac\u{202E}Studio"), "vlerv-mcp @ MacStudio");
}

use vlerv::beam::OfferInfo;
use vlerv::host::HostSignal;
use vlerv::paths::Dirs;
use vlerv::peers::{Peer, PendingPair, Scope};
use vlerv::server_core::{
    blocked_by, configured_roots, confirm_target, device_info, fingerprint_hint, pair_status,
    pairing_outcome, presence, sink_action, state_dir, stop_targets, ReceivedArtifact, ReceivedLog,
    SinkAction, MAX_RECEIVED,
};

fn parked(node_id: &str, device: &str, created_at: u64) -> PendingPair {
    PendingPair {
        node_id: node_id.to_string(),
        device: device.to_string(),
        fingerprint: vec!["acid".to_string(); 6],
        role: "host".to_string(),
        created_at,
    }
}

fn live_offer(id: &str) -> OfferInfo {
    OfferInfo {
        id: id.to_string(),
        path: "/w/a.html".into(),
        name: "a.html".into(),
        size: 1,
        ticket: "t".into(),
        link: "l".into(),
        created_at: 0,
        expires_at: 100,
        fetches: 0,
    }
}

#[test]
fn the_state_dir_is_never_the_apps_own_remote_directory() {
    let dir = state_dir(None, Some("/tmp/state".to_string()), None);
    let mcp = Dirs::new(&dir);
    assert!(mcp.base().ends_with("mcp"), "{:?}", mcp.base());
    let parent = mcp.base().rsplit_once('/').unwrap().0.to_string();
    assert_ne!(mcp.remote(), Dirs::new(&parent).remote());
}

#[test]
fn the_state_dir_follows_its_precedence() {
    assert_eq!(state_dir(Some("/x".into()), Some("/y".into()), Some("/z".into())), "/x");
    assert_eq!(state_dir(None, Some("/y".into()), Some("/z".into())), "/y/mcp");
    assert_eq!(state_dir(None, None, Some("/z".into())), "/z/Vlerv/mcp");
    assert_eq!(state_dir(None, None, None), "./Vlerv/mcp");
}

#[test]
fn roots_default_to_the_working_directory() {
    assert_eq!(configured_roots(None, "/w/p"), vec!["/w/p".to_string()]);
}

#[test]
fn the_roots_variable_is_a_colon_list_and_never_empty() {
    assert_eq!(configured_roots(Some(" /a : /b ::"), "/w/p"), vec!["/a".to_string(), "/b".to_string()]);
    assert_eq!(configured_roots(Some(" : "), "/w/p"), vec!["/w/p".to_string()]);
    assert_eq!(configured_roots(Some(""), "/w/p"), vec!["/w/p".to_string()]);
}

#[test]
fn the_received_list_is_bounded_and_still_reports_the_true_count() {
    let mut log = ReceivedLog::new();
    let pushes = MAX_RECEIVED + 5;
    for i in 0..pushes {
        let action = sink_action(HostSignal::ArtifactReceived {
            peer: "ab".repeat(32),
            path: format!("/tmp/a{i}.html"),
            name: format!("a{i}.html"),
            size: 1,
            hash: format!("{i:064x}"),
        });
        match action {
            SinkAction::Record { artifact, .. } => log.record(artifact),
            _ => panic!("an arrival is recorded"),
        }
    }
    let kept: Vec<ReceivedArtifact> = log.listed();
    assert_eq!(kept.len(), MAX_RECEIVED, "the vector never grows past the cap");
    assert_eq!(kept.first().unwrap().name, format!("a{}.html", pushes - MAX_RECEIVED));
    assert_eq!(kept.last().unwrap().name, format!("a{}.html", pushes - 1));
    assert_eq!(log.total_count(), pushes as u64, "the count is not capped");
}

#[test]
fn a_peer_that_dials_in_wakes_the_drain_and_no_other_signal_does() {
    let phone = "ab".repeat(32);
    match sink_action(HostSignal::PeerConnected {
        peer: phone.clone(),
        device: "Val's iPhone".into(),
        scope: "control".into(),
    }) {
        SinkAction::Wake { peer, .. } => assert_eq!(peer, phone, "and force it for THAT peer"),
        _ => panic!("a peer holding a session must force a pass"),
    }
    assert!(!matches!(
        sink_action(HostSignal::OpenOnHost { peer: phone.clone(), path: "/tmp/a.html".into(), reader_mode: false }),
        SinkAction::Wake { .. }
    ));
    assert!(!matches!(
        sink_action(HostSignal::ArtifactReceived {
            peer: phone.clone(),
            path: "/tmp/b.html".into(),
            name: "b.html".into(),
            size: 1,
            hash: "cd".repeat(32),
        }),
        SinkAction::Wake { .. }
    ));
}

#[test]
fn confirming_a_pairing_nobody_started_is_an_error_with_a_next_step() {
    let err = confirm_target(&Vec::new(), None, None).unwrap_err();
    assert!(err.contains("pair_device"), "{err}");
    assert!(confirm_target(&Vec::new(), None, Some("admin")).unwrap_err().contains("admin"));
}

#[test]
fn confirm_pairing_never_guesses_which_pairing_a_node_id_argument_means() {
    let waiting = vec![
        parked(&"ab".repeat(32), "Phone", 10),
        parked(&format!("{}cdcd", "ab".repeat(30)), "Laptop", 20),
    ];
    let err = confirm_target(&waiting, Some(""), None).unwrap_err();
    assert!(err.contains("at least"), "{err}");
    assert!(confirm_target(&waiting, Some("  a "), None).unwrap_err().contains("at least"));
    let err = confirm_target(&waiting, Some("abab"), None).unwrap_err();
    assert!(err.contains("Phone"), "{err}");

    let long = format!("{}cd", "ab".repeat(30));
    let (node_id, granted) = confirm_target(&waiting, Some(&long), Some("browse")).unwrap();
    assert_eq!(node_id, format!("{}cdcd", "ab".repeat(30)));
    assert_eq!(granted, Some(Scope::Browse));
    let peer = Peer {
        node_id: node_id.clone(),
        device: "Laptop".into(),
        scope: Scope::Browse,
        paired_at: 20,
        last_seen: 20,
        last_ack_scope: None,
    };
    let outcome = pairing_outcome(true, waiting[1].clone(), Some(peer));
    assert!(outcome.paired);
    assert_eq!(outcome.device, "Laptop");
    assert_eq!(outcome.scope.as_deref(), Some("browse"));
}

#[test]
fn a_rejected_pairing_reports_no_grant() {
    let outcome = pairing_outcome(false, parked(&"cd".repeat(32), "Val's iPhone", 1), None);
    assert!(!outcome.paired);
    assert_eq!(outcome.scope, None);
    assert_eq!(outcome.device, "Val's iPhone");
}

#[test]
fn waiting_pairings_are_listed_newest_first() {
    let listed = pair_status(vec![
        parked(&"aa".repeat(32), "Old", 10),
        parked(&"bb".repeat(32), "New", 30),
        parked(&"cc".repeat(32), "Middle", 20),
    ]);
    let names: Vec<&str> = listed.iter().map(|p| p.device.as_str()).collect();
    assert_eq!(names, vec!["New", "Middle", "Old"]);
    assert_eq!(listed[0].node_id_short, "bbbbbbbbbb");
}

#[test]
fn stopping_beams_names_what_it_could_not_check_and_matches_by_prefix() {
    assert_eq!(stop_targets(false, None, Vec::new(), None).unwrap(), Vec::new());
    assert_eq!(
        stop_targets(false, Some("the store is locked".into()), Vec::new(), None).unwrap_err(),
        "cannot check beam links: the store is locked"
    );
    let live = vec![live_offer(&"ab".repeat(32)), live_offer(&"abcd".repeat(16)), live_offer(&"cd".repeat(32))];
    assert_eq!(stop_targets(true, None, live.clone(), None).unwrap().len(), 3);
    let err = stop_targets(true, None, live.clone(), Some(" abc ")).unwrap_err();
    assert!(err.starts_with("hash must be at least 8 characters"), "{err}");
    let both = stop_targets(true, None, live.clone(), Some("ABABABAB")).unwrap();
    assert_eq!(both.len(), 1, "{both:?}");
    let prefix = stop_targets(true, None, live.clone(), Some("abcdabcd")).unwrap();
    assert_eq!(prefix[0].id, "abcd".repeat(16));
    let none = stop_targets(true, None, live, Some("ffffffff")).unwrap_err();
    assert_eq!(none, "no live beam link matches \"ffffffff\"");
}

#[test]
fn presence_is_what_this_process_knows_or_what_a_probe_found() {
    assert_eq!(presence(true, None), "online");
    assert_eq!(presence(false, None), "unknown");
    assert_eq!(presence(false, Some(true)), "online");
    assert_eq!(presence(false, Some(false)), "offline");
}

#[test]
fn a_device_is_listed_with_its_short_id_and_grant() {
    let info = device_info(
        Peer {
            node_id: "ab".repeat(32),
            device: "Mac".into(),
            scope: Scope::Control,
            paired_at: 1,
            last_seen: 2,
            last_ack_scope: None,
        },
        "online",
    );
    assert_eq!(info.node_id_short, "ababababab");
    assert_eq!(info.scope, "control");
    assert_eq!(info.presence, "online");
}

#[test]
fn the_pairing_hint_names_this_server() {
    let hint = fingerprint_hint("vlerv-mcp @ studio", &"ef".repeat(32));
    assert!(hint.starts_with("Six words appear on BOTH screens"), "{hint}");
    assert!(hint.ends_with("This server is vlerv-mcp @ studio (efefefefef)."), "{hint}");
}

#[test]
fn a_blocked_queue_names_the_first_cause() {
    assert_eq!(blocked_by(Some("boot".into()), Some("peers".into()), Some("spool".into())), Some("boot".into()));
    assert!(blocked_by(None, Some("bad json".into()), Some("spool".into())).unwrap().contains("bad json"));
    assert_eq!(blocked_by(None, None, Some("spool".into())), Some("spool".into()));
    assert_eq!(blocked_by(None, None, None), None);
}

use vlerv::scope::{ConnectError, PushFailure, PushedArtifact};
use vlerv::server_core::{after_push, after_session, beam_link, delivered, Attempt, Delivery, SendStep};

fn phone() -> Peer {
    Peer {
        node_id: "cd".repeat(32),
        device: "Val's iPhone".into(),
        scope: Scope::Browse,
        paired_at: 0,
        last_seen: 0,
        last_ack_scope: None,
    }
}

#[test]
fn only_an_unreachable_device_leads_to_the_queue() {
    let p = phone();
    assert_eq!(
        after_session(&p, Err(ConnectError::Unreachable("peer offline".into())), false, "me"),
        SendStep::Asleep("peer offline".into())
    );
    match after_session(&p, Err(ConnectError::Refused("not a paired peer".into())), false, "me") {
        SendStep::Refused(m) => assert!(m.contains("is not reachable: not a paired peer"), "{m}"),
        other => panic!("{other:?}"),
    }
    assert_eq!(after_session(&p, Ok("control".into()), false, "me"), SendStep::Push);
    assert_eq!(after_session(&p, Ok("browse".into()), false, "me"), SendStep::Redial);
    assert_eq!(after_session(&p, Ok("gibberish".into()), false, "me"), SendStep::Redial);
    match after_session(&p, Ok("browse".into()), true, "me") {
        SendStep::Refused(m) => assert!(m.contains("has not granted this server control"), "{m}"),
        other => panic!("{other:?}"),
    }
}

#[test]
fn a_refused_push_fails_the_call_and_a_dead_session_is_retried() {
    let pushed = PushedArtifact { name: "a.html".into(), size: 3, hash: "h".into() };
    assert_eq!(after_push(Ok(pushed)), Ok(Attempt::Landed(PushedArtifact { name: "a.html".into(), size: 3, hash: "h".into() })));
    assert_eq!(after_push(Err(PushFailure::Transport("gone".into()))), Ok(Attempt::SessionDied("gone".into())));
    assert_eq!(after_push(Err(PushFailure::Denied("no".into()))), Err("no".to_string()));
    assert_eq!(after_push(Err(PushFailure::Local("too big".into()))), Err("too big".to_string()));
    match delivered(phone(), PushedArtifact { name: "a-2.html".into(), size: 3, hash: "h".into() }) {
        Delivery::Delivered { name, device, .. } => {
            assert_eq!(name, "a-2.html", "the host's name, not the announced one");
            assert_eq!(device, "Val's iPhone");
        }
        other => panic!("{other:?}"),
    }
    let link = beam_link(live_offer("abc"));
    assert_eq!(link.hash, "abc");
}

use vlerv::outbox::{Record, MAX_PER_PASS};
use vlerv::server_core::{triage, Triage};

fn queued_record(id: &str, source: &str) -> Record {
    Record {
        id: id.to_string(),
        peer: "cd".repeat(32),
        device: "Val's iPhone".to_string(),
        source: source.to_string(),
        name: "report.html".to_string(),
        size: 10,
        hash: "ab".repeat(32),
        tag: format!("outbox/{id}"),
        enqueued_at: 0,
        expires_at: 100,
        attempts: 0,
        last_attempt_at: 0,
        last_error: None,
    }
}

#[test]
fn a_held_head_of_queue_never_starves_the_records_behind_it() {
    // Ten records another project queued sit at the head; three of this
    // session's follow them.
    let mut queue = Vec::new();
    for n in 0..10 {
        queue.push((queued_record(&format!("{n}-0"), "/elsewhere/a.html"), false));
    }
    for n in 10..13 {
        queue.push((queued_record(&format!("{n}-0"), "/w/a.html"), true));
    }
    let mut pushes = 0usize;
    let mut held = 0usize;
    for (record, in_roots) in &queue {
        match triage(pushes, record, *in_roots, "/w") {
            Triage::Stop => break,
            Triage::Held(why) => {
                assert!(why.contains("/w"), "{why}");
                held += 1;
            }
            Triage::Push => pushes += 1,
        }
    }
    assert_eq!((pushes, held), (3, 10));

    // A queue of deliverable records is cut at the bound.
    let mut pushes = 0usize;
    for n in 0..20 {
        match triage(pushes, &queued_record(&format!("{n}-1"), "/w/a.html"), true, "/w") {
            Triage::Stop => break,
            Triage::Push => pushes += 1,
            Triage::Held(_) => unreachable!(),
        }
    }
    assert_eq!(pushes, MAX_PER_PASS);
}

use vlerv::server_core::Passes;

#[test]
fn two_drain_requests_for_one_peer_fold_into_one_more_pass() {
    let mut passes = Passes::new();
    assert!(passes.begin("nodeA"), "the first request runs the pass");
    assert!(!passes.begin("nodeA"), "a request during the pass does not start a second one");
    assert!(!passes.begin("nodeA"));
    assert!(passes.begin("nodeB"), "another peer's pass is independent");
    assert!(passes.finish("nodeA"), "the requests that arrived meanwhile run one more pass");
    assert!(!passes.finish("nodeA"), "and then the peer is idle");
    assert!(passes.begin("nodeA"), "so the next request starts a pass again");
    assert!(!passes.finish("nodeB"));
}

use vlerv::server_core::{settle, PassEnd, PassState};

#[test]
fn a_pass_spends_its_budget_only_on_records_it_pushes() {
    let mut pass = PassState::new();
    let mut pushed = 0;
    // Held, gone, then deliverable records; the gone ones cost nothing.
    let queue: Vec<(bool, bool)> = (0..20).map(|n| (n % 3 != 0, n % 5 != 0)).collect();
    for (n, (in_roots, present)) in queue.iter().enumerate() {
        match pass.next(&queued_record(&format!("{n}-2"), "/w/a.html"), *in_roots, "/w") {
            Triage::Stop => break,
            Triage::Held(_) => {}
            Triage::Push => {
                if pass.spend(*present) {
                    pushed += 1;
                    assert!(pass.settled(&settle(Ok(()))));
                }
            }
        }
    }
    assert_eq!(pushed, MAX_PER_PASS);
    assert!(matches!(pass.end(), PassEnd::ClearLadder));
    assert!(matches!(PassState::new().end(), PassEnd::BackOff));
}

use vlerv::server_core::{after_enqueue, after_staging, assemble_status, pass_effects, PassFinish, RecordEffect, Staging, StatusInputs};
use vlerv::outbox::{Outbox, Listing as SpoolListing};

#[test]
fn a_whole_pass_holds_gives_up_completes_and_stops_at_the_bound() {
    let mut records = Vec::new();
    let mut in_roots = Vec::new();
    let mut present = Vec::new();
    let mut pushed = Vec::new();
    for n in 0..12 {
        records.push(queued_record(&format!("{n:013}-0000"), if n == 0 { "/elsewhere/a" } else { "/w/a" }));
        in_roots.push(n != 0);
        present.push(n != 1);
        pushed.push(if n == 2 { Err(PushFailure::Denied("not permitted".into())) } else { Ok(()) });
    }
    let (effects, finish) = pass_effects(&records, &in_roots, &present, &pushed, "\"/w\"");
    assert!(matches!(&effects[0], RecordEffect::Held(m) if m.contains("/w")));
    assert!(matches!(effects[1], RecordEffect::GivenUp));
    assert!(matches!(&effects[2], RecordEffect::Noted(m) if m == "not permitted"));
    assert!(matches!(&effects[3], RecordEffect::Completed(t) if *t == records[3].tag));
    // Records 2..=9 spent the eight pushes; the rest are not touched.
    assert!(matches!(effects[9], RecordEffect::Completed(_)));
    assert!(matches!(effects[10], RecordEffect::Untouched));
    assert!(matches!(effects[11], RecordEffect::Untouched));
    assert!(matches!(finish, PassFinish::ClearLadder));

    pushed[3] = Err(PushFailure::Transport("stream reset".into()));
    let (effects, finish) = pass_effects(&records, &in_roots, &present, &pushed, "\"/w\"");
    assert!(matches!(&effects[3], RecordEffect::SessionDied(w) if w == "stream reset"));
    assert!(matches!(effects[4], RecordEffect::Untouched));
    assert!(matches!(finish, PassFinish::HoldAll(ref w) if w == "stream reset"));
}

#[test]
fn a_refused_staging_names_the_pin_to_release() {
    let outbox = Outbox::load("/s/remote/outbox", &SpoolListing::Missing);
    let p = Peer { node_id: "cd".repeat(32), device: "Val's iPhone".into(), scope: Scope::Control, paired_at: 0, last_seen: 0, last_ack_scope: None };
    match after_staging(&outbox, &p, "1-0", "big.bin", 300 * 1024 * 1024, "ab", 256 * 1024 * 1024) {
        Staging::TooBig { message, release } => {
            assert!(message.starts_with("big.bin is 300 MiB"), "{message}");
            assert_eq!(release, "outbox/1-0");
        }
        _ => panic!("over the cap"),
    }
    assert!(matches!(after_staging(&outbox, &p, "1-0", "a", 10, "ab", 100), Staging::Fresh));
    assert_eq!(after_enqueue(Err("full".into()), "1-0"), Err(("full".to_string(), "outbox/1-0".to_string())));
}

#[test]
fn the_status_counts_what_it_lists_and_never_drains_unbooted() {
    let mut a = queued_record("0000000000001-0000", "/w/a");
    a.size = 100;
    let mut b = queued_record("0000000000001-0001", "/w/a");
    b.size = 100;
    b.peer = "ee".repeat(32);
    let status = assemble_status(StatusInputs {
        node_id: "ab".repeat(32),
        device: "Mac".into(),
        identity_dir: "/s/remote".into(),
        state_dir: "/s".into(),
        offers: None,
        last_boot_error: None,
        uptime_secs: 5,
        paired_devices: 2,
        received: Vec::new(),
        received_total: 0,
        records: vec![a, b],
        unaccounted: Vec::new(),
        abandoned: Vec::new(),
        abandoned_total: 0,
        drain_running: true,
        peer_load_error: None,
        spool_fault: None,
        roots: vec!["/w".into()],
    });
    assert!(!status.booted && !status.draining);
    assert_eq!(status.queued_total, 2);
    assert_eq!(status.queued_bytes, 200);
    assert_eq!(status.retained_bytes, 100, "one copy backs both records");
    assert_eq!(status.node_id_short, "ababababab");
}
