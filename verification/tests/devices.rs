use vlerv::devices::{by_prefix, label, needle, resolve_device, resolve_pending, ResolveError, MIN_PREFIX};
use vlerv::peers::{Peer, PendingPair, Scope};

fn peer(node_id: &str, device: &str) -> Peer {
    Peer {
        node_id: node_id.to_string(),
        device: device.to_string(),
        scope: Scope::Control,
        paired_at: 1,
        last_seen: 2,
        last_ack_scope: None,
    }
}

fn fleet() -> Vec<Peer> {
    vec![
        peer(&"aa".repeat(32), "Val's iPhone"),
        peer(&"bb".repeat(32), "Mac Studio"),
        peer(&"cc".repeat(32), "MacBook Pro"),
    ]
}

#[test]
fn an_empty_peer_store_says_so_instead_of_saying_not_found() {
    let err = resolve_device(&[], "anything").unwrap_err();
    assert_eq!(err, ResolveError::NotPaired);
    assert!(err.message().contains("pair_device"));
}

#[test]
fn a_full_node_id_matches_regardless_of_case() {
    let peers = fleet();
    assert_eq!(resolve_device(&peers, &"AA".repeat(32)).unwrap().device, "Val's iPhone");
    assert_eq!(resolve_device(&peers, &"aa".repeat(32)).unwrap().device, "Val's iPhone");
}

#[test]
fn an_exact_name_wins_over_another_peers_substring() {
    let peers = fleet();
    assert_eq!(resolve_device(&peers, "Mac Studio").unwrap().node_id, "bb".repeat(32));
    assert_eq!(resolve_device(&peers, "mac studio").unwrap().node_id, "bb".repeat(32));
}

#[test]
fn a_node_id_prefix_matches_from_four_characters() {
    let peers = fleet();
    assert_eq!(resolve_device(&peers, "bbbbbbbb").unwrap().device, "Mac Studio");
    assert_eq!(resolve_device(&peers, "bbbb").unwrap().device, "Mac Studio");
    assert!(matches!(resolve_device(&peers, "bbb").unwrap_err(), ResolveError::Unknown { .. }));
}

#[test]
fn a_name_substring_matches_when_it_is_unique() {
    let peers = fleet();
    assert_eq!(resolve_device(&peers, "iphone").unwrap().device, "Val's iPhone");
    assert_eq!(resolve_device(&peers, "Book").unwrap().device, "MacBook Pro");
}

#[test]
fn two_candidates_are_an_error_that_lists_both() {
    let peers = fleet();
    let err = resolve_device(&peers, "Mac").unwrap_err();
    let ResolveError::Ambiguous { matches, .. } = &err else {
        panic!("expected ambiguity, got {err:?}");
    };
    assert_eq!(matches.len(), 2);
    let text = err.message();
    assert!(text.contains("Mac Studio (bbbbbbbbbb)"), "{text}");
    assert!(text.contains("MacBook Pro (cccccccccc)"), "{text}");
}

#[test]
fn two_machines_with_the_same_name_are_ambiguous_not_first_wins() {
    let peers = vec![peer(&"aa".repeat(32), "MacBook"), peer(&"bb".repeat(32), "MacBook")];
    let err = resolve_device(&peers, "MacBook").unwrap_err();
    assert!(matches!(err, ResolveError::Ambiguous { .. }));
    assert_eq!(resolve_device(&peers, "bbbb").unwrap().node_id, "bb".repeat(32));
}

#[test]
fn an_unknown_name_lists_the_valid_ones() {
    let peers = fleet();
    let err = resolve_device(&peers, "Pixel").unwrap_err();
    let text = err.message();
    assert!(text.contains("\"Pixel\""), "{text}");
    for expected in ["Val's iPhone (aaaaaaaaaa)", "Mac Studio (bbbbbbbbbb)", "MacBook Pro (cccccccccc)"] {
        assert!(text.contains(expected), "{text} is missing {expected}");
    }
}

#[test]
fn a_label_shows_the_same_short_id_the_crate_logs() {
    assert_eq!(label(&peer(&"ab".repeat(32), "Mac")), "Mac (ababababab)");
}

#[test]
fn a_prefix_argument_is_trimmed_lowercased_and_floored() {
    assert_eq!(needle("  ABcd ", MIN_PREFIX).as_deref(), Some("abcd"));
    assert_eq!(needle("abc", MIN_PREFIX), None);
    assert_eq!(needle("  a ", MIN_PREFIX), None);
    assert_eq!(needle("", MIN_PREFIX), None);
}

#[test]
fn a_prefix_match_returns_every_candidate_not_the_first() {
    let peers = fleet();
    let all = by_prefix(&peers, "aa");
    assert_eq!(all.len(), 1);
    assert!(by_prefix(&peers, &"aa".repeat(33)).is_empty());
}

fn pending(node_id: &str, device: &str) -> PendingPair {
    PendingPair {
        node_id: node_id.to_string(),
        device: device.to_string(),
        fingerprint: vec!["acid".to_string(); 6],
        role: "host".to_string(),
        created_at: 1,
    }
}

#[test]
fn resolve_pending_needs_no_argument_only_while_one_pairing_waits() {
    let one = vec![pending(&"aa".repeat(32), "Phone")];
    assert_eq!(resolve_pending(&one, None).unwrap().device, "Phone");

    let err = resolve_pending(&[], None).unwrap_err();
    assert!(err.contains("pair_device"), "{err}");

    let two = vec![pending(&"aa".repeat(32), "Phone"), pending(&"bb".repeat(32), "Laptop")];
    let err = resolve_pending(&two, None).unwrap_err();
    assert!(err.contains("Phone (aaaaaaaaaa)"), "{err}");
    assert!(err.contains("Laptop (bbbbbbbbbb)"), "{err}");
}

#[test]
fn resolve_pending_never_guesses_between_two_that_share_a_prefix() {
    let parked = vec![pending(&"ab".repeat(32), "Phone"), pending(&format!("{}cdcd", "ab".repeat(30)), "Laptop")];
    assert!(resolve_pending(&parked, Some("")).unwrap_err().contains("at least"));
    assert!(resolve_pending(&parked, Some("  a ")).unwrap_err().contains("at least"));
    assert!(resolve_pending(&parked, Some("abab")).unwrap_err().contains("Phone"));
    let long = format!("{}cd", "ab".repeat(30));
    assert_eq!(resolve_pending(&parked, Some(&long)).unwrap().device, "Laptop");
    assert!(resolve_pending(&parked, Some("ffff")).unwrap_err().contains("no pairing"));
}

#[test]
fn an_unknown_pending_id_is_quoted_back() {
    let parked = vec![pending(&"ab".repeat(32), "Phone")];
    assert_eq!(resolve_pending(&parked, Some(" ffff ")).unwrap_err(), "no pairing is waiting for \"ffff\"");
}

#[test]
fn a_node_id_prefix_decides_before_any_name_substring() {
    let a = peer(&format!("abcd{}", "00".repeat(30)), "Phone");
    let b = peer(&"ff".repeat(32), "abcde laptop");
    assert_eq!(resolve_device(&[a.clone(), b.clone()], "abcd"), Ok(a));
    // With no prefix hit, the substring tier answers.
    assert_eq!(resolve_device(&[b.clone()], "laptop"), Ok(b));
}
