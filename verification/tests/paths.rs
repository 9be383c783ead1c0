use vlerv::paths::{base_name, within_roots, Dirs};

#[test]
fn every_path_derives_from_the_one_base() {
    let dirs = Dirs::new("/tmp/state");
    assert_eq!(dirs.remote(), "/tmp/state/remote");
    assert_eq!(dirs.blobs(), "/tmp/state/remote/blobs");
    assert_eq!(dirs.blobs_lock(), "/tmp/state/remote/blobs.lock");
    assert_eq!(dirs.cache(), "/tmp/state/remote/cache");
    assert_eq!(dirs.outbox(), "/tmp/state/remote/outbox");
    assert_eq!(dirs.received(), "/tmp/state/received");
    assert_eq!(dirs.base(), "/tmp/state");
}

#[test]
fn two_consumers_never_share_a_directory() {
    let app = Dirs::new("/a");
    let headless = Dirs::new("/b");
    assert_ne!(app.received(), headless.received());
    assert_ne!(app.remote(), headless.remote());
}

#[test]
fn base_name_leaves_the_fallback_to_the_caller() {
    assert_eq!(base_name("/w/report.html").as_deref(), Some("report.html"));
    assert_eq!(base_name("/"), None);
    assert_eq!(base_name("/w/.."), None);
}

#[test]
fn base_name_skips_current_directory_components_and_trailing_slashes() {
    assert_eq!(base_name("/w/a/.").as_deref(), Some("a"));
    assert_eq!(base_name("/w/a/").as_deref(), Some("a"));
    assert_eq!(base_name("."), None);
    assert_eq!(base_name("a").as_deref(), Some("a"));
}

#[test]
fn a_path_is_within_a_root_component_by_component() {
    let roots = vec!["/w/a".to_string(), "/srv/".to_string()];
    assert!(within_roots("/w/a", &roots));
    assert!(within_roots("/w/a/b.html", &roots));
    assert!(!within_roots("/w/ab", &roots));
    assert!(!within_roots("/w", &roots));
    assert!(within_roots("/srv/x", &roots));
    assert!(!within_roots("/w/a/b.html", &Vec::new()));
}
