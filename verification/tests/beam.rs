use vlerv::beam::{
    build_link, civil_date_string, human_bytes, offer_ttl_secs, sanitize_beam_name, ticket_info,
    verify_push_ticket, parse_hash, partial_name, stage_precheck, OfferInfo, Offers, ProgressEvent, ReceivedFile, PROGRESS_STRIDE_BYTES, DEFAULT_TTL_HOURS, HARD_CAP_BYTES, MAX_TTL_HOURS, MIN_TTL_HOURS,
};

const H: &str = "abcdef0123456789";

#[test]
fn plain_name_passes_through() {
    assert_eq!(sanitize_beam_name(Some("report.html"), H), "report.html");
}

#[test]
fn path_components_are_stripped_both_separators() {
    assert_eq!(sanitize_beam_name(Some("../../etc/passwd"), H), "passwd");
    assert_eq!(sanitize_beam_name(Some("C:\\Users\\x\\evil.html"), H), "evil.html");
}

#[test]
fn dotfiles_and_traversal_stubs_fall_back_or_unhide() {
    assert_eq!(sanitize_beam_name(Some(".."), H), "beam-abcdef01");
    assert_eq!(sanitize_beam_name(Some("."), H), "beam-abcdef01");
    assert_eq!(sanitize_beam_name(Some(".bashrc"), H), "bashrc");
}

#[test]
fn control_chars_and_empties_are_rejected() {
    assert_eq!(sanitize_beam_name(Some("a\0b\nc.html"), H), "abc.html");
    assert_eq!(sanitize_beam_name(Some("   "), H), "beam-abcdef01");
    assert_eq!(sanitize_beam_name(None, H), "beam-abcdef01");
}

#[test]
fn length_is_bounded_at_128_chars() {
    let long = "x".repeat(500);
    assert_eq!(sanitize_beam_name(Some(&long), H).chars().count(), 128);
}

#[test]
fn multibyte_names_survive() {
    assert_eq!(sanitize_beam_name(Some("informe-año.html"), H), "informe-año.html");
}

#[test]
fn bidi_and_zero_width_format_chars_are_stripped() {
    assert_eq!(sanitize_beam_name(Some("report\u{202E}gnp.html"), H), "reportgnp.html");
    assert_eq!(sanitize_beam_name(Some("a\u{200B}b\u{FEFF}c.html"), H), "abc.html");
    assert_eq!(sanitize_beam_name(Some("\u{2066}\u{2069}"), H), "beam-abcdef01");
}

#[test]
fn civil_date_known_values() {
    assert_eq!(civil_date_string(0), "1970-01-01");
    assert_eq!(civil_date_string(1_786_752_000), "2026-08-15");
    assert_eq!(civil_date_string(1_709_208_000), "2024-02-29");
}

#[test]
fn link_percent_encodes_the_name() {
    let link = build_link("TICKET", "mi informe año.html", 42);
    assert_eq!(link, "vlerv://receive?ticket=TICKET&name=mi%20informe%20a%C3%B1o.html&size=42");
}

#[test]
fn ticket_info_rejects_malformed_tickets() {
    assert!(ticket_info("not-a-ticket").is_err());
    assert!(ticket_info("").is_err());
}

#[test]
fn a_malformed_ticket_says_it_is_not_a_beam_ticket() {
    assert!(ticket_info("not-a-ticket").unwrap_err().starts_with("invalid beam ticket: "));
    assert!(verify_push_ticket("not-a-ticket", &"ab".repeat(32), "x").is_err());
}

#[test]
fn ttl_clamp_bounds_both_ends() {
    assert_eq!(offer_ttl_secs(0), 3600);
    assert_eq!(offer_ttl_secs(DEFAULT_TTL_HOURS), 24 * 3600);
    assert_eq!(offer_ttl_secs(u32::MAX), 24 * 30 * 3600);
    assert!((MIN_TTL_HOURS..=MAX_TTL_HOURS).contains(&DEFAULT_TTL_HOURS));
}

#[test]
fn byte_counts_read_in_mebibytes_and_rounded_up_kibibytes() {
    assert_eq!(human_bytes(HARD_CAP_BYTES), "256 MiB");
    assert_eq!(human_bytes(1), "1 KiB");
    assert_eq!(human_bytes(0), "0 KiB");
    assert_eq!(human_bytes(1025), "2 KiB");
}

fn offer(id: &str, created_at: u64, expires_at: u64) -> OfferInfo {
    OfferInfo {
        id: id.to_string(),
        path: "/tmp/x".to_string(),
        name: "x".to_string(),
        size: 1,
        ticket: "t".to_string(),
        link: "l".to_string(),
        created_at,
        expires_at,
        fetches: 0,
    }
}

#[test]
fn admit_counts_active_offers_and_denies_unknown() {
    let mut offers = Offers::new();
    let id = "ab".repeat(32);
    offers.insert(offer(&id, 0, 100), "test-tag".to_string());
    assert!(offers.count_fetch(&id, true, 50));
    assert!(offers.count_fetch(&id, true, 50));
    assert_eq!(offers.list(50)[0].fetches, 2);
    assert!(!offers.count_fetch(&"cd".repeat(32), true, 50));
    assert!(!offers.count_fetch(&id, false, 50), "a hash-sequence request is never served");
}

#[test]
fn expired_offers_deny_and_disappear_from_list() {
    let mut offers = Offers::new();
    let id = "ab".repeat(32);
    offers.insert(offer(&id, 0, 10), "tag".to_string());
    assert!(!offers.count_fetch(&id, true, 20), "stale link must be useless");
    assert!(offers.list(20).is_empty());
    assert_eq!(offers.take_expired(20), vec!["tag".to_string()]);
}

#[test]
fn remove_by_id_revokes() {
    let mut offers = Offers::new();
    let id = "ab".repeat(32);
    offers.insert(offer(&id, 0, 100), "tag".to_string());
    assert_eq!(offers.remove(&id), Some("tag".to_string()));
    assert!(!offers.count_fetch(&id, true, 50));
    assert!(offers.remove(&id).is_none());
    assert!(offers.remove("id").is_none());
}

#[test]
fn re_offering_the_same_content_hands_back_the_displaced_tag_and_lists_newest_first() {
    let mut offers = Offers::new();
    let a = "ab".repeat(32);
    let b = "cd".repeat(32);
    assert_eq!(offers.insert(offer(&a, 1, 100), "first".to_string()), None);
    assert_eq!(offers.insert(offer(&b, 5, 100), "second".to_string()), None);
    assert_eq!(offers.insert(offer(&a, 9, 100), "third".to_string()), Some("first".to_string()));
    let listed: Vec<String> = offers.list(50).into_iter().map(|o| o.id).collect();
    assert_eq!(listed, vec![a, b]);
}

use vlerv::beam::{
    add_day, day_order, offer_info, offerable, orphan_tags, received_entry, unique_target_path, BlobStream,
    ReceivedEntry, RECEIVED_CAP,
};

#[test]
fn admit_denies_hashseq_requests_even_for_active_offers() {
    let mut offers = Offers::new();
    let id = "ab".repeat(32);
    offers.insert(offer(&id, 0, 100), "tag".to_string());
    assert!(!offers.count_fetch(&id, false, 50));
}

#[test]
fn resolve_offerable_enforces_gate_file_and_cap() {
    let cand = offerable(Some(("/w/a.html".to_string(), true, 1))).expect("in-root file");
    assert_eq!(cand.name, "a.html");
    assert_eq!(cand.size, 1);
    assert_eq!(offerable(None).unwrap_err(), "path not found or out of root");
    assert_eq!(offerable(Some(("/w".to_string(), false, 0))).unwrap_err(), "only files can be beamed");
    assert_eq!(offerable(Some(("/".to_string(), true, 3))).unwrap().name, "artifact");
}

#[test]
fn resolve_offerable_rejects_over_the_hard_cap() {
    let err = offerable(Some(("/w/big.bin".to_string(), true, HARD_CAP_BYTES + 1))).unwrap_err();
    assert!(err.starts_with("file is "), "cap error, got: {err}");
    assert_eq!(err, "file is 256 MiB — beam v1 caps at 256 MiB");
}

#[test]
fn an_offer_expires_within_the_clamped_ttl() {
    let info = offer_info("/w/a b.html", "a b.html", 10, "ab".repeat(32), "T".into(), 1000, 0);
    assert_eq!(info.expires_at, 1000 + 3600);
    assert_eq!(info.link, build_link("T", "a b.html", 10));
    assert_eq!(info.fetches, 0);
    let long = offer_info("/w/a", "a", 10, "ab".repeat(32), "T".into(), 1000, u32::MAX);
    assert_eq!(long.expires_at, 1000 + MAX_TTL_HOURS as u64 * 3600);
}

#[test]
fn a_tag_sweep_keeps_every_claimed_tag() {
    let listed = vec!["outbox/1".to_string(), "outbox/2".to_string(), "outbox/3".to_string()];
    let keep = vec!["outbox/2".to_string()];
    assert_eq!(orphan_tags(&listed, &keep), vec!["outbox/1".to_string(), "outbox/3".to_string()]);
    assert!(orphan_tags(&Vec::new(), &keep).is_empty());
}

#[test]
fn a_blob_stream_must_be_contiguous_and_under_the_cap() {
    let mut s = BlobStream::new();
    assert_eq!(s.leaf(0, 16 * 1024), Ok(None));
    assert_eq!(s.leaf(1, 16).unwrap_err(), "transfer aborted: non-contiguous stream");
    let mut progress = 0;
    let mut at = 16 * 1024;
    while at < 3 * 1024 * 1024 {
        if let Some(n) = s.leaf(at, 16 * 1024).unwrap() {
            progress += 1;
            assert_eq!(n, at + 16 * 1024);
        }
        at += 16 * 1024;
    }
    assert_eq!(progress, 3, "about one event per MiB");
    let mut capped = BlobStream::new();
    assert_eq!(capped.leaf(0, HARD_CAP_BYTES), Ok(Some(HARD_CAP_BYTES)));
    assert_eq!(capped.leaf(HARD_CAP_BYTES, 1).unwrap_err(), "transfer aborted: content exceeds the 256 MiB cap");
}

#[test]
fn a_name_collision_lands_beside_the_first_file() {
    let taken = vec!["report.html".to_string(), "report-2.html".to_string(), ".bashrc".to_string()];
    assert_eq!(unique_target_path("/r/2026-08-15", "new.html", &taken), "/r/2026-08-15/new.html");
    assert_eq!(unique_target_path("/r/2026-08-15", "report.html", &taken), "/r/2026-08-15/report-3.html");
    assert_eq!(unique_target_path("/r", ".bashrc", &taken), "/r/.bashrc-2");
    assert_eq!(unique_target_path("/r", "archive.tar.gz", &vec!["archive.tar.gz".to_string()]), "/r/archive.tar-2.gz");
}

fn entry(day: &str, name: &str, at: u64) -> ReceivedEntry {
    received_entry(format!("/r/{day}/{name}"), 1, at)
}

#[test]
fn past_beams_are_listed_newest_first_and_capped() {
    let days = day_order(vec!["2026-01-02".into(), ".x.partial".into(), "2026-03-01".into(), "2025-12-31".into()]);
    assert_eq!(days, vec!["2026-03-01".to_string(), "2026-01-02".to_string(), "2025-12-31".to_string()]);

    let (acc, more) = add_day(Vec::new(), vec![entry("2026-03-01", "a.html", 5), entry("2026-03-01", "b.html", 9)]);
    assert!(more);
    assert_eq!(acc.iter().map(|e| e.name.as_str()).collect::<Vec<_>>(), vec!["b.html", "a.html"]);

    let many: Vec<ReceivedEntry> = (0..RECEIVED_CAP as u64).map(|i| entry("2026-01-02", &format!("f{i}"), i)).collect();
    let (full, more) = add_day(acc, many);
    assert!(!more, "the walk stops at the cap");
    assert_eq!(full.len(), RECEIVED_CAP);
    assert_eq!(full[0].name, "b.html");
    assert_eq!(full[2].name, format!("f{}", RECEIVED_CAP - 1));
}

#[test]
fn a_partial_name_carries_the_process_and_the_counter() {
    assert_eq!(partial_name("ab12", ".html", 4242, 7), "ab12.html.4242.7.partial");
    assert_ne!(partial_name("ab12", "", 1, 7), partial_name("ab12", "", 1, 8));
}

#[test]
fn a_received_file_and_a_progress_event_hold_what_they_are_given() {
    let f = ReceivedFile { path: "/r/2026-01-01/a.html".to_string(), name: "a.html".to_string(), size: 3, hash: "ab".to_string() };
    assert_eq!(f.size, 3);
    let p = ProgressEvent { hash: "ab".to_string(), received: 1048576 };
    assert_eq!(p.received, PROGRESS_STRIDE_BYTES);
}

fn ticket_for(key: u8, hash: iroh_blobs::Hash, format: iroh_blobs::BlobFormat) -> (String, String) {
    let node = iroh_base::SecretKey::from_bytes(&[key; 32]).public();
    let ticket = iroh_blobs::ticket::BlobTicket::new(node.into(), hash, format).to_string();
    (ticket, node.to_string())
}

#[test]
fn a_real_ticket_reads_back_its_node_and_its_content_address() {
    let hash = iroh_blobs::Hash::new(b"beamed bytes");
    let (ticket, node) = ticket_for(7, hash, iroh_blobs::BlobFormat::Raw);
    let info = ticket_info(&ticket).unwrap();
    assert_eq!(info.node_id, node);
    assert_eq!(info.node_id_short, node[..10]);
    assert_eq!(info.hash, hash.to_string());
    let (seq, _) = ticket_for(7, hash, iroh_blobs::BlobFormat::HashSeq);
    assert!(ticket_info(&seq).unwrap_err().contains("single-file"));
}

#[test]
fn a_pushed_ticket_must_name_the_pushing_peer_and_the_announced_hash() {
    let hash = iroh_blobs::Hash::new(b"pushed bytes");
    let (ticket, pusher) = ticket_for(1, hash, iroh_blobs::BlobFormat::Raw);
    let stranger = iroh_base::SecretKey::from_bytes(&[2u8; 32]).public().to_string();

    assert_eq!(verify_push_ticket(&ticket, &pusher, &hash.to_string()).unwrap(), hash.to_string());
    // A control peer must not be able to point the host at a third machine.
    assert_eq!(
        verify_push_ticket(&ticket, &stranger, &hash.to_string()).unwrap_err(),
        "a pushed ticket must name the pushing peer"
    );
    // Nor announce one artifact and hand over a ticket for another.
    assert_eq!(
        verify_push_ticket(&ticket, &pusher, &iroh_blobs::Hash::new(b"other").to_string()).unwrap_err(),
        "the pushed ticket does not match the announced content"
    );
}

#[test]
fn a_pushed_ticket_is_single_file_only_like_a_beam_ticket() {
    let hash = iroh_blobs::Hash::new(b"seq");
    let (seq, pusher) = ticket_for(3, hash, iroh_blobs::BlobFormat::HashSeq);
    assert!(verify_push_ticket(&seq, &pusher, &hash.to_string()).unwrap_err().contains("single-file"));
    assert!(verify_push_ticket("not-a-ticket", &pusher, "x").is_err());
}

#[test]
fn every_in_flight_download_gets_its_own_temp_name() {
    let hash = "a".repeat(64);
    let first = partial_name(&hash, ".html", 4242, 0);
    let second = partial_name(&hash, ".html", 4242, 1);
    // Two fetches of the same content address must not share a temp file:
    // they would interleave writes and one rename would fail.
    assert_ne!(first, second);
    for name in [&first, &second] {
        assert!(name.starts_with(&format!("{hash}.html.")), "{name} keeps hash and ext");
        assert!(name.ends_with(".partial"), "{name} stays a partial");
    }
    // The receive path passes no extension and still gets a partial.
    assert!(partial_name(&hash, "", 4242, 2).ends_with(".partial"));
}

#[test]
fn a_content_address_parses_only_as_64_lower_case_hex() {
    let real = iroh_blobs::Hash::new(b"an offer").to_string();
    assert_eq!(parse_hash(&real), Some(real.clone()));
    assert_eq!(parse_hash(&real.to_uppercase()), None);
    assert_eq!(parse_hash(&real[..63]), None);
    assert_eq!(parse_hash(""), None);
    assert_eq!(parse_hash(&"z".repeat(64)), None);
}

#[test]
fn staging_refuses_a_pin_that_already_holds_another_sends_bytes() {
    assert_eq!(stage_precheck("1-0", Ok(false)), Ok("outbox/1-0".to_string()));
    assert_eq!(
        stage_precheck("1-0", Ok(true)),
        Err("cannot stage file: outbox/1-0 already pins the bytes of a send that was accepted earlier, and staging over it would lose them".to_string())
    );
    assert_eq!(
        stage_precheck("1-0", Err("store closed".to_string())),
        Err("cannot stage file: cannot read the tag outbox/1-0: store closed".to_string())
    );
}

#[test]
fn dots_and_spaces_are_stripped_until_neither_leads() {
    assert_eq!(sanitize_beam_name(Some(". .bashrc"), H), "bashrc");
    assert_eq!(sanitize_beam_name(Some(" . . "), H), "beam-abcdef01");
    assert!(!sanitize_beam_name(Some("x/ \u{202E}. .profile"), H).starts_with('.'));
}
