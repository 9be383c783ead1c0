use vlerv::proto::{frame_len, frame_with_prefix, sanitize_device, MAX_DEVICE_CHARS, MAX_FRAME_BYTES};

#[test]
fn oversized_and_zero_length_prefixes_are_refused() {
    assert!(frame_len((MAX_FRAME_BYTES as u32 + 1).to_le_bytes()).is_err());
    assert!(frame_len(u32::MAX.to_le_bytes()).is_err());
    assert!(frame_len(0u32.to_le_bytes()).is_err());
    assert!(frame_len(1u32.to_le_bytes()).is_ok());
}

#[test]
fn device_names_are_sanitized_like_beam_name_hints() {
    assert_eq!(sanitize_device("Mac Studio"), "Mac Studio");
    assert_eq!(sanitize_device("Mac\u{202E}Studio"), "MacStudio");
    assert_eq!(sanitize_device("a\0b"), "ab");
    assert_eq!(sanitize_device("   "), "unknown device");
    assert_eq!(sanitize_device(&"x".repeat(500)).chars().count(), MAX_DEVICE_CHARS);
}

#[test]
fn a_framed_body_reads_back_its_own_length() {
    let body = vec![7u8; 300];
    let framed = frame_with_prefix(&body).unwrap();
    assert_eq!(framed.len(), 304);
    let prefix: [u8; 4] = framed[..4].try_into().unwrap();
    assert_eq!(frame_len(prefix).unwrap(), 300);
    assert_eq!(&framed[4..], &body[..]);
    assert!(frame_with_prefix(&vec![0u8; MAX_FRAME_BYTES + 1]).is_err());
}

#[test]
fn oversized_payloads_are_refused_at_encode_time() {
    // A body past the cap never gets a length prefix, so it never goes out.
    let huge_body = vec![b'x'; MAX_FRAME_BYTES + 1];
    assert!(frame_with_prefix(&huge_body).is_err());
}
