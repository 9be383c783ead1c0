use vlerv::beam::human_bytes;
use vlerv::server::{
    delivery_summary, forget_summary, human_hours, shortened_clause, status_summary, Forgotten,
};
use vlerv::server_core::{AbandonedDelivery, Delivery, QueuedDelivery, ReceivedArtifact, ServerStatus};

fn status_with(total: u64, listed: usize) -> ServerStatus {
    ServerStatus {
        node_id: "ab".repeat(32),
        node_id_short: "abababab".to_string(),
        device: "vlerv-mcp @ test".to_string(),
        identity_dir: "/tmp/x/remote".into(),
        state_dir: "/tmp/x".into(),
        booted: true,
        boot_error: None,
        uptime_secs: 1,
        paired_devices: 0,
        active_offers: Vec::new(),
        received_artifacts: (0..listed)
            .map(|i| ReceivedArtifact {
                from: "cd".repeat(32),
                name: format!("a{i}.html"),
                path: format!("/tmp/a{i}.html"),
                size: 1,
                hash: format!("{i:064x}"),
            })
            .collect(),
        received_total: total,
        queued: Vec::new(),
        queued_total: 0,
        queued_bytes: 0,
        retained_bytes: 0,
        queue_unreadable: Vec::new(),
        abandoned: Vec::new(),
        abandoned_total: 0,
        draining: false,
        queue_blocked_reason: None,
        roots: Vec::new(),
    }
}

/// A status with one send waiting for a device that did not answer.
fn status_with_queue(last_error: Option<&str>) -> ServerStatus {
    let mut status = status_with(0, 0);
    status.queued = vec![QueuedDelivery {
        id: "0000000000001-0000".to_string(),
        device: "Val's iPhone".to_string(),
        node_id: "cd".repeat(32),
        node_id_short: "cdcdcdcdcd".to_string(),
        name: "report.html".to_string(),
        size: 4096,
        hash: "ab".repeat(32),
        source: "/w/report.html".into(),
        enqueued_at: 100,
        expires_at: 200,
        attempts: 2,
        last_attempt_at: 150,
        last_error: last_error.map(str::to_string),
    }];
    status.queued_total = 1;
    status.queued_bytes = 4096;
    status.retained_bytes = 4096;
    status
}

#[test]
fn a_truncated_received_list_says_so_and_a_complete_one_does_not() {
    let truncated = status_summary(&status_with(105, 100));
    assert!(truncated.contains("received this session: 105"), "{truncated}");
    assert!(truncated.contains("(listing the last 100)"), "{truncated}");

    let complete = status_summary(&status_with(3, 3));
    assert!(complete.contains("received this session: 3"), "{complete}");
    assert!(!complete.contains("listing"), "{complete}");

    let at_cap = status_summary(&status_with(100, 100));
    assert!(!at_cap.contains("listing"), "{at_cap}");
}

#[test]
fn a_delivery_that_was_given_up_on_is_named_and_a_quiet_session_says_nothing() {
    let quiet = status_summary(&status_with(0, 0));
    assert!(!quiet.contains("GIVEN UP ON"), "nothing died, so nothing is said: {quiet}");

    let mut status = status_with(0, 0);
    status.abandoned = vec![AbandonedDelivery {
        id: "1700000000001-0000".to_string(),
        device: "Val's iPhone".to_string(),
        name: "report.html".to_string(),
        size: 2048,
        reason: "it was not delivered within the seven-day limit".to_string(),
        at: 1_700_000_000,
    }];
    status.abandoned_total = 1;
    let told = status_summary(&status);
    assert!(told.contains("GIVEN UP ON in this session: 1"), "{told}");
    assert!(told.contains("report.html to Val's iPhone (2 KiB)"), "{told}");
    assert!(told.contains("seven-day limit"), "{told}");
    assert!(told.contains("did NOT arrive"), "the reader is told what it means: {told}");
    assert!(!told.contains("listing the last"), "nothing was dropped: {told}");

    status.abandoned_total = 60;
    assert!(status_summary(&status).contains("(listing the last 1)"));
}

#[test]
fn a_queue_that_cannot_move_names_its_reason_instead_of_reporting_a_count() {
    let mut blocked = status_with_queue(None);
    blocked.queue_blocked_reason =
        Some("another Vlerv process is already using the blob store".to_string());
    let text = status_summary(&blocked);
    assert!(text.contains("NONE of them can move"), "{text}");
    assert!(text.contains("already using the blob store"), "{text}");

    let waiting = status_summary(&status_with_queue(Some("peer offline — could not reach it")));
    assert!(waiting.contains("queued deliveries: 1 holding 4 KiB"), "{waiting}");
    assert!(waiting.contains("NOT delivered yet"), "{waiting}");
    assert!(waiting.contains("report.html to Val's iPhone"), "{waiting}");
    assert!(waiting.contains("attempt 2: peer offline"), "{waiting}");
    assert!(
        !waiting.contains("a drain pass is running"),
        "a queue nothing is touching must not claim otherwise: {waiting}"
    );

    let mut moving = status_with_queue(Some("peer offline — could not reach it"));
    moving.draining = true;
    assert!(status_summary(&moving).contains("a drain pass is running"), "{moving:?}");

    let mut empty = status_with(0, 0);
    assert!(status_summary(&empty).contains("queued deliveries: 0"));
    empty.queue_unreadable = vec!["0000000000001-0000".to_string()];
    let broken = status_summary(&empty);
    assert!(broken.contains("cannot read"), "{broken}");
    assert!(broken.contains("0000000000001-0000"), "{broken}");
}

#[test]
fn a_queue_on_a_server_that_never_opened_its_network_says_nothing_is_moving() {
    let mut cold = status_with_queue(Some("peer offline — could not reach it"));
    cold.booted = false;
    let text = status_summary(&cold);
    assert!(text.contains("none of them is moving"), "{text}");
    assert!(text.contains("has not opened its network"), "{text}");
    assert!(text.contains("send_to_device"), "{text}");
    assert!(text.contains("server_status never does"), "{text}");
    assert!(text.contains("report.html to Val's iPhone"), "{text}");
    assert!(text.contains("attempt 2: peer offline"), "{text}");
    assert!(
        !text.contains("a drain pass is running"),
        "a server with no network cannot be draining: {text}"
    );

    let mut empty = status_with(0, 0);
    empty.booted = false;
    assert_eq!(status_summary(&empty).lines().last(), Some("queued deliveries: 0"));
}

#[test]
fn sizes_and_expiries_are_rendered_for_a_person() {
    assert_eq!(human_bytes(512), "1 KiB");
    assert_eq!(human_bytes(2048), "2 KiB");
    assert_eq!(human_bytes(5 * 1024 * 1024), "5 MiB");
    let now = 1_700_000_000u64;
    assert_eq!(human_hours(now + 24 * 3600, now), "24 hours");
    assert_eq!(human_hours(now + 90 * 60, now), "1 hour");
    assert_eq!(human_hours(now + 600, now), "10 minutes");
    assert_eq!(human_hours(now.saturating_sub(10), now), "less than a minute");
}

#[test]
fn expiries_round_up_to_the_next_unit() {
    let now = 1_000u64;
    assert_eq!(human_hours(now + 61, now), "2 minutes");
    assert_eq!(human_hours(now + 1, now), "1 minutes");
    assert_eq!(human_hours(now + 2 * 3600 + 1, now), "3 hours");
    assert_eq!(human_hours(now, now), "less than a minute");
}

#[test]
fn the_status_header_names_the_boot_failure() {
    let mut status = status_with(0, 0);
    status.booted = false;
    status.boot_error = Some("the blob store is locked".to_string());
    let text = status_summary(&status);
    assert!(
        text.starts_with(
            "vlerv-mcp @ test — node abababab\nidentity: /tmp/x/remote\nnetwork booted: false — the last boot failed: the blob store is locked\nuptime: 1s\npaired devices: 0\nactive beam links: 0\nreceived this session: 0\n"
        ),
        "{text}"
    );
}

#[test]
fn a_shortened_list_clause_appears_only_past_the_cap() {
    assert_eq!(shortened_clause(5, 3), " (listing the last 3)");
    assert_eq!(shortened_clause(3, 3), "");
    assert_eq!(shortened_clause(0, 0), "");
}

#[test]
fn a_queued_send_never_reads_as_a_delivered_one() {
    let delivered = delivery_summary(
        "/w/report.html",
        &Delivery::Delivered {
            device: "Val's iPhone".to_string(),
            node_id: "cd".repeat(32),
            name: "report.html".to_string(),
            size: 4096,
            hash: "ab".repeat(32),
        },
    );
    assert!(
        delivered.starts_with("Delivered /w/report.html (4 KiB) to Val's iPhone."),
        "{delivered}"
    );
    assert!(delivered.contains("landed there"), "{delivered}");

    let outcome = Delivery::Queued {
        device: "Val's iPhone".to_string(),
        node_id: "cd".repeat(32),
        name: "report.html".to_string(),
        size: 4096,
        hash: "ab".repeat(32),
        id: "0000000000001-0000".to_string(),
        expires_at: 200,
        reason: "peer offline — could not reach it (timed out)".to_string(),
        notes: vec!["The file was copied as it stands right now.".to_string()],
    };
    let queued = delivery_summary("/w/report.html", &outcome);
    assert!(queued.starts_with("NOT delivered yet"), "{queued}");
    assert!(!queued.contains("Delivered"), "{queued}");
    assert!(queued.contains("peer offline"), "{queued}");
    assert!(queued.contains("has not arrived"), "{queued}");
    assert!(queued.contains("copied as it stands right now"), "{queued}");
}

#[test]
fn forgetting_a_device_states_what_it_cost() {
    let quiet = forget_summary(&Forgotten {
        device: "Mac Studio".to_string(),
        node_id_short: "bbbbbbbbbb".to_string(),
        dropped: 0,
        dropped_bytes: 0,
        note: None,
    });
    assert_eq!(
        quiet,
        "Mac Studio (bbbbbbbbbb) is no longer paired with this server. It can no longer reach this server, and this server can no longer send to it."
    );
    let costly = forget_summary(&Forgotten {
        device: "Mac Studio".to_string(),
        node_id_short: "bbbbbbbbbb".to_string(),
        dropped: 2,
        dropped_bytes: 3000,
        note: Some("The peer list was rewritten.".to_string()),
    });
    assert!(costly.contains(" 2 queued send(s) were deleted with it, freeing 3 KiB — those files will NOT arrive"), "{costly}");
    assert!(costly.ends_with("Tell the user.\nThe peer list was rewritten."), "{costly}");
}

use vlerv::server::{
    beam_link_summary, confirm_summary, devices_summary, invite_summary, pending_summary, stop_summary,
};
use vlerv::server_core::{BeamLink, DeviceInfo, OfferSummary, PairingInvite, PairingOutcome, PendingPairing};

#[test]
fn a_beam_link_is_reported_with_its_size_and_lifetime() {
    let link = BeamLink {
        link: "vlerv://receive?ticket=T".into(),
        ticket: "T".into(),
        name: "report.html".into(),
        size: 2048,
        expires_at: 1_000 + 24 * 3600,
        hash: "ab".repeat(32),
    };
    assert_eq!(
        beam_link_summary(&link, 1_000),
        "report.html (2 KiB) is now beamable. Give the user this link:\nvlerv://receive?ticket=T\nIt expires in 24 hours, and it stops working when this MCP server exits."
    );
}

#[test]
fn stopping_names_every_revoked_link() {
    assert_eq!(stop_summary(&Vec::new()), "No beam link was live, so nothing had to be revoked.");
    let stopped = vec![
        OfferSummary { name: "a.html".into(), size: 1, link: "l".into(), expires_at: 1, fetches: 0, hash: "h".into() },
        OfferSummary { name: "b.html".into(), size: 1, link: "l".into(), expires_at: 1, fetches: 0, hash: "h".into() },
    ];
    assert_eq!(
        stop_summary(&stopped),
        "Revoked 2 beam link(s): a.html, b.html. Any further fetch is refused, even from somebody who still holds the link."
    );
}

#[test]
fn the_device_list_names_each_device_and_its_presence() {
    assert!(devices_summary(&Vec::new()).contains("pair_device"));
    let devices = vec![DeviceInfo {
        device: "Mac".into(),
        node_id: "ab".repeat(32),
        node_id_short: "ababababab".into(),
        scope: "control".into(),
        paired_at: 0,
        last_seen: 0,
        presence: "online",
    }];
    assert_eq!(
        devices_summary(&devices),
        "1 paired device(s):\n- Mac (ababababab) — scope granted to this server's peer: control, presence: online"
    );
}

#[test]
fn the_pairing_answers_read_out_the_words() {
    let invite = PairingInvite {
        link: "vlerv://pair?ticket=X".into(),
        ticket: "X".into(),
        node_id: "ab".repeat(32),
        device: "vlerv-mcp @ studio".into(),
        expires_at: 0,
        fingerprint_hint: "Compare.".into(),
        instructions: vec!["One.".into(), "Two.".into()],
    };
    assert_eq!(
        invite_summary(&invite),
        "Pairing is open for 10 minutes. Ask the user to open this link on the device they want to pair:\nvlerv://pair?ticket=X\n\nOne.\nTwo.\n\nNext: Compare."
    );
    assert!(pending_summary(&Vec::new()).starts_with("No pairing is waiting"));
    let pending = vec![PendingPairing {
        node_id: "cd".repeat(32),
        node_id_short: "cdcdcdcdcd".into(),
        device: "Phone".into(),
        fingerprint: vec!["acid".into(), "bold".into()],
        role: "host".into(),
        created_at: 1,
    }];
    assert_eq!(
        pending_summary(&pending),
        "1 pairing(s) waiting. Read the six words to the user and have them compare with the other screen:\n- Phone (cdcdcdcdcd) — fingerprint: acid bold"
    );
}

#[test]
fn a_confirmed_pairing_names_both_directions_of_the_grant() {
    let rejected = PairingOutcome { paired: false, device: "Phone".into(), node_id: "n".into(), scope: None };
    assert_eq!(confirm_summary(&rejected, "vlerv-mcp @ studio"), "Pairing with Phone was rejected and nothing was written to disk.");
    let accepted = PairingOutcome { paired: true, device: "Phone".into(), node_id: "n".into(), scope: Some("browse".into()) };
    let text = confirm_summary(&accepted, "vlerv-mcp @ studio");
    assert!(text.starts_with("Paired with Phone. It may do \"browse\" on this server."), "{text}");
    assert!(text.contains("must grant \"vlerv-mcp @ studio\" the \"control\" scope"), "{text}");
}
