use vlerv::grants::Grants;
use vlerv::scope::GRANT_TTL_SECS;

const NOW: u64 = 1_700_000_000;

fn id(seed: u8) -> String {
    format!("{seed:02x}").repeat(32)
}

#[test]
fn a_grant_is_peer_locked_and_expires() {
    let mut grants = Grants::new();
    let hash = "artifact";
    assert!(grants.insert(hash, &id(1), "t1".to_string(), NOW).is_none());

    assert!(grants.allows_fetch(hash, Some(&id(1)), true, NOW));
    assert!(!grants.allows_fetch(hash, Some(&id(2)), true, NOW), "another peer holds no grant");
    assert!(!grants.allows_fetch(hash, None, true, NOW), "an anonymous fetch holds no grant");
    assert!(!grants.allows_fetch(hash, Some(&id(1)), false, NOW), "only plain blob requests");
    assert!(!grants.allows_fetch("other", Some(&id(1)), true, NOW));

    assert!(grants.insert(hash, &id(2), "t2".to_string(), NOW).is_some());
    assert!(grants.allows_fetch(hash, Some(&id(2)), true, NOW));
    assert_eq!(grants.len(), 1);
}

#[test]
fn expired_grants_are_swept_with_their_tags() {
    let mut grants = Grants::new();
    let hash = "artifact";
    grants.insert(hash, &id(1), "t1".to_string(), NOW);
    let tags = grants.take_expired(NOW + GRANT_TTL_SECS + 1);
    assert_eq!(tags.len(), 1);
    assert!(!grants.allows_fetch(hash, Some(&id(1)), true, NOW));
}

#[test]
fn revoking_a_peer_drops_the_grants_only_it_held() {
    let mut grants = Grants::new();
    grants.insert("solo", &id(1), "t1".to_string(), NOW);
    grants.insert("shared", &id(1), "t2".to_string(), NOW);
    grants.insert("shared", &id(2), "t3".to_string(), NOW);

    let orphaned = grants.revoke_peer(&id(1));
    assert_eq!(orphaned.len(), 1, "only the grant nobody else holds is collectable");
    assert!(!grants.allows_fetch("solo", Some(&id(1)), true, NOW));
    assert!(!grants.allows_fetch("shared", Some(&id(1)), true, NOW), "the revoked peer loses the shared grant");
    assert!(grants.allows_fetch("shared", Some(&id(2)), true, NOW), "the other peer keeps it");
}

#[test]
fn an_expired_pinned_grant_is_refused_and_unpins_nothing() {
    let mut grants = Grants::new();
    let hash = "a queued artifact";
    grants.grant_pinned(hash, &id(1), NOW);
    assert!(grants.allows_fetch(hash, Some(&id(1)), true, NOW));

    let tags = grants.take_expired(NOW + GRANT_TTL_SECS + 1);
    assert!(tags.is_empty(), "the spool owns this pin, so there is nothing here to delete");
    assert!(!grants.allows_fetch(hash, Some(&id(1)), true, NOW), "the capability expires all the same");
    assert_eq!(grants.len(), 0);
}

#[test]
fn a_revoked_peers_pinned_grant_is_dropped_and_unpins_nothing() {
    let mut grants = Grants::new();
    grants.grant_pinned("a queued artifact", &id(1), NOW);
    grants.insert("an artifact a peer asked for", &id(1), "t1".to_string(), NOW);

    let orphaned = grants.revoke_peer(&id(1));
    assert_eq!(orphaned, vec!["t1".to_string()], "only a grant that owns its tag yields one");
    assert!(!grants.allows_fetch("a queued artifact", Some(&id(1)), true, NOW), "unpairing takes both capabilities");
    assert_eq!(grants.len(), 0, "and leaves neither entry behind");
}

#[test]
fn staging_content_a_pinned_grant_already_covers_makes_that_grant_adopt_the_fresh_tag() {
    let mut grants = Grants::new();
    let hash = "a queued artifact";
    grants.grant_pinned(hash, &id(1), NOW);

    assert_eq!(grants.insert(hash, &id(2), "t2".to_string(), NOW), None, "nothing to delete");
    assert!(grants.allows_fetch(hash, Some(&id(2)), true, NOW));
    assert_eq!(
        grants.take_expired(NOW + GRANT_TTL_SECS + 1),
        vec!["t2".to_string()],
        "the adopted tag is released on the grant's own clock, and only it"
    );
}

#[test]
fn a_retried_delivery_grant_never_postpones_the_hour_another_peer_earned() {
    let mut grants = Grants::new();
    let hash = "one file, a browse peer and a queued send";
    let asked = NOW - GRANT_TTL_SECS - 1;
    grants.insert(hash, &id(1), "t1".to_string(), asked);

    grants.grant_pinned(hash, &id(2), NOW);

    assert!(!grants.allows_fetch(hash, Some(&id(1)), true, NOW), "the browse peer's hour still ran out");
    assert!(grants.allows_fetch(hash, Some(&id(2)), true, NOW), "the device being retried can fetch");
    assert!(
        grants.take_expired(NOW).is_empty(),
        "and the pin stays while one live peer still holds the grant"
    );
    assert_eq!(grants.len(), 1);
}

#[test]
fn a_grant_lapses_at_the_end_of_its_hour_exactly() {
    let mut grants = Grants::new();
    grants.insert("h", &id(1), "t1".to_string(), NOW);
    assert!(grants.allows_fetch("h", Some(&id(1)), true, NOW + GRANT_TTL_SECS - 1));
    assert!(!grants.allows_fetch("h", Some(&id(1)), true, NOW + GRANT_TTL_SECS));
}

#[test]
fn widening_needs_staged_bytes() {
    let mut grants = Grants::new();
    assert!(!grants.add_peer("h", &id(1), NOW), "nothing staged, nothing widened");
    assert!(!grants.allows_fetch("h", Some(&id(1)), true, NOW));
    grants.insert("h", &id(1), "t1".to_string(), NOW);
    assert!(grants.add_peer("h", &id(2), NOW));
    assert!(grants.allows_fetch("h", Some(&id(2)), true, NOW));
    assert_eq!(grants.len(), 1);
}
