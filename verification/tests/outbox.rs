use vlerv::outbox::{
    claim_refusal, seq_of, tag_name, Entry, FileRead, Listing, Outbox, Record, Staged, MAX_RECORDS, MAX_SPOOL_BYTES,
    OUTBOX_SCHEMA, RECORD_TTL_SECS,
};

const DIR: &str = "/state/remote/outbox";
const NOW: u64 = 1_700_000_000;
const MILLIS: u64 = 1_700_000_000_000;

fn staged(id: &str, peer: &str, device: &str, size: u64) -> Staged {
    Staged {
        id: id.to_string(),
        peer: peer.to_string(),
        device: device.to_string(),
        source: "/w/report.html".to_string(),
        name: "report.html".to_string(),
        size,
        hash: "a".repeat(64),
    }
}

/// What a directory holding these records lists.
fn listing(records: &[Record]) -> Listing {
    Listing::Entries(
        records
            .iter()
            .map(|r| Entry {
                name: format!("{}.json", r.id),
                read: Some(FileRead::Versioned { v: OUTBOX_SCHEMA, record: Ok(r.clone()) }),
            })
            .collect(),
    )
}

/// Accept one send the way the shell does: decide, write, then insert.
fn accept(out: &mut Outbox, item: Staged) -> Result<Record, String> {
    let record = out.enqueue(item, NOW)?;
    out.insert_written(record.clone());
    Ok(record)
}

fn depth(out: &Outbox) -> usize {
    out.list().len()
}

fn staged_bytes(out: &Outbox) -> u64 {
    out.list().iter().map(|r| r.size).sum()
}

#[test]
fn a_record_round_trips_through_disk_and_a_fresh_load_sees_it() {
    let mut out = Outbox::load(DIR, &Listing::Missing);
    assert!(out.list().is_empty());
    assert!(out.is_empty());

    let id = out.next_id(MILLIS);
    let record = accept(&mut out, staged(&id, "nodeA", "iPhone", 4096)).unwrap();
    assert_eq!(record.tag, format!("outbox/{id}"), "the pin is named after the record");
    assert_eq!(record.attempts, 0);
    assert_eq!(record.expires_at, record.enqueued_at + RECORD_TTL_SECS);
    assert_eq!(depth(&out), 1);
    assert_eq!(staged_bytes(&out), 4096);

    let reloaded = Outbox::load(DIR, &listing(&[record.clone()]));
    assert_eq!(reloaded.list(), vec![record.clone()], "every field, byte for byte");
    assert_eq!(reloaded.find_pending("nodeA", &record.hash), Some(record.clone()));
    assert_eq!(reloaded.find_pending("nodeB", &record.hash), None, "records are per peer");
    assert_eq!(reloaded.for_peer("nodeA"), vec![record]);
    assert!(reloaded.for_peer("nodeB").is_empty());
}

#[test]
fn a_completed_delivery_stays_completed_after_a_reload() {
    let mut out = Outbox::load(DIR, &Listing::Missing);
    let kept = out.next_id(MILLIS);
    accept(&mut out, staged(&kept, "nodeA", "iPhone", 10)).unwrap();
    let landed = out.next_id(MILLIS);
    accept(&mut out, staged(&landed, "nodeB", "iPad", 20)).unwrap();

    let done = out.complete(&landed, Ok(())).unwrap().expect("the record was there");
    assert_eq!(done.tag, tag_name(&landed), "the caller is handed the pin to release");
    assert!(out.complete(&landed, Ok(())).unwrap().is_none(), "completing twice is not an error");

    let reloaded = Outbox::load(DIR, &listing(&out.list()));
    assert_eq!(depth(&reloaded), 1);
    assert_eq!(reloaded.list()[0].id, kept);
    assert_eq!(staged_bytes(&reloaded), 10);
}

#[test]
fn a_record_whose_file_would_not_go_stays() {
    let mut out = Outbox::load(DIR, &Listing::Missing);
    let id = out.next_id(MILLIS);
    accept(&mut out, staged(&id, "nodeA", "iPhone", 10)).unwrap();
    assert_eq!(out.complete(&id, Err("EACCES".to_string())).unwrap_err(), "EACCES");
    assert_eq!(depth(&out), 1, "it would come back on the next load");
}

#[test]
fn an_attempt_is_recorded_on_disk_so_the_reason_survives_a_restart() {
    let mut out = Outbox::load(DIR, &Listing::Missing);
    let id = out.next_id(MILLIS);
    accept(&mut out, staged(&id, "nodeA", "iPhone", 10)).unwrap();

    let after = out
        .record_attempt(&id, Some("the peer did not answer the handshake".to_string()), NOW + 5)
        .expect("a changed reason is written");
    assert_eq!(after.attempts, 1);
    assert!(after.last_attempt_at > 0);
    assert_eq!(after.last_error.as_deref(), Some("the peer did not answer the handshake"));
    out.insert_written(after);

    let cleared = out.record_attempt(&id, None, NOW + 6).expect("clearing the reason is a change");
    assert_eq!(cleared.attempts, 2);
    assert_eq!(cleared.last_error, None);
    assert!(out.record_attempt("no-such-record", None, NOW).is_none());
}

#[test]
fn an_attempt_that_repeats_the_same_reason_changes_nothing() {
    let mut out = Outbox::load(DIR, &Listing::Missing);
    let id = out.next_id(MILLIS);
    accept(&mut out, staged(&id, "nodeA", "iPhone", 10)).unwrap();
    let why = "held, not sent: it is outside this server's send roots".to_string();
    let first = out.record_attempt(&id, Some(why.clone()), NOW).unwrap();
    assert_eq!(first.attempts, 1);
    out.insert_written(first.clone());
    for _ in 0..3 {
        assert!(out.record_attempt(&id, Some(why.clone()), NOW + 60).is_none());
    }
    assert_eq!(out.list()[0], first, "the same answer twice is still one attempt");
    let changed = out.record_attempt(&id, Some("the peer did not answer the handshake".to_string()), NOW + 120);
    assert_eq!(changed.unwrap().attempts, 2);
}

#[test]
fn an_expired_record_leaves_and_hands_its_pin_back() {
    let mut out = Outbox::load(DIR, &Listing::Missing);
    let id = out.next_id(MILLIS);
    let record = accept(&mut out, staged(&id, "nodeA", "iPhone", 10)).unwrap();

    assert!(out.take_expired(record.enqueued_at, &|_: &str| Ok(())).is_empty(), "not yet");
    let gone = out.take_expired(record.expires_at, &|_: &str| Ok(()));
    assert_eq!(gone, vec![record.clone()]);
    assert_eq!(gone[0].tag, tag_name(&id), "the bytes stop being kept with the record");
    assert!(out.is_empty());
}

#[test]
fn two_sends_inside_one_millisecond_get_their_own_ids() {
    let mut out = Outbox::load(DIR, &Listing::Missing);
    let ids: Vec<String> = (0..64).map(|_| out.next_id(MILLIS)).collect();
    let unique: std::collections::HashSet<&String> = ids.iter().collect();
    assert_eq!(unique.len(), ids.len(), "the tie-break counter is what makes this true");
    let mut sorted = ids.clone();
    sorted.sort();
    assert_eq!(sorted, ids, "ids sort into the order the sends were accepted in");
}

#[test]
fn a_restart_mints_past_every_id_the_directory_already_holds() {
    let mut first = Outbox::load(DIR, &Listing::Missing);
    let kept = accept(&mut first, staged("0000000000000-0000", "nodeA", "iPhone", 10)).unwrap();
    let mut entries = match listing(&[kept]) {
        Listing::Entries(es) => es,
        _ => unreachable!(),
    };
    entries.push(Entry { name: "0000000000000-0007.json".into(), read: Some(FileRead::Garbled("expected value".into())) });
    entries.push(Entry {
        name: "0000000000000-0031.json".into(),
        read: Some(FileRead::Versioned { v: 99, record: Err("unknown field".into()) }),
    });
    let mut next = Outbox::load(DIR, &Listing::Entries(entries));
    assert_eq!(next.quarantined(), vec!["0000000000000-0007".to_string()]);
    assert_eq!(next.foreign(), vec!["0000000000000-0031".to_string()]);
    for _ in 0..4 {
        let id = next.next_id(0);
        assert!(seq_of(&id).unwrap() > 31, "{id} has to sit past every counter already on disk");
    }
}

#[test]
fn a_full_spool_refuses_the_send_instead_of_dropping_the_oldest_file() {
    let mut out = Outbox::load(DIR, &Listing::Missing);
    let oldest = out.next_id(MILLIS);
    accept(&mut out, staged(&oldest, "nodeA", "iPhone", 1)).unwrap();
    for _ in 1..MAX_RECORDS {
        let id = out.next_id(MILLIS);
        accept(&mut out, staged(&id, "nodeA", "iPhone", 1)).unwrap();
    }
    let id = out.next_id(MILLIS);
    let full = out.enqueue(staged(&id, "nodeA", "iPhone", 1), NOW).expect_err("the record cap holds");
    assert!(full.contains(&MAX_RECORDS.to_string()), "the refusal names the cap: {full}");
    assert!(full.contains("iPhone"), "and the device: {full}");
    assert_eq!(depth(&out), MAX_RECORDS);
    assert_eq!(out.list()[0].id, oldest, "the oldest record is still there");
    assert!(out.room_for("iPhone", 1).is_err());

    let mut out = Outbox::load(DIR, &Listing::Missing);
    let big = out.next_id(MILLIS);
    accept(&mut out, staged(&big, "nodeA", "iPhone", MAX_SPOOL_BYTES - 1)).unwrap();
    assert!(out.room_for("iPhone", 1).is_ok(), "exactly at the limit still fits");
    let over = out.next_id(MILLIS);
    let err = out.enqueue(staged(&over, "nodeA", "iPhone", 2), NOW).expect_err("the byte cap holds");
    assert!(err.contains("1024 MiB"), "the refusal names the cap: {err}");
    assert!(err.contains("iPhone"), "and the device: {err}");
    assert_eq!(depth(&out), 1);
}

#[test]
fn a_reload_replaces_what_another_process_already_finished() {
    let mut first = Outbox::load(DIR, &Listing::Missing);
    let id = first.next_id(MILLIS);
    let record = accept(&mut first, staged(&id, "nodeA", "iPhone", 10)).unwrap();

    let mut second = Outbox::load(DIR, &listing(&[record]));
    assert_eq!(depth(&second), 1);
    first.complete(&id, Ok(())).unwrap();
    assert_eq!(depth(&second), 1, "the stale view is still stale");
    second.reload(&listing(&first.list()));
    assert!(second.is_empty(), "and the reload is what corrects it");
    assert_eq!(second.live_tags(), Some(Vec::new()));
}

#[test]
fn a_spool_that_did_not_load_takes_nothing() {
    let out = Outbox::load(DIR, &Listing::Failed("permission denied".to_string()));
    let err = out.enqueue(staged("0000000000001-0000", "nodeA", "iPhone", 1), NOW).unwrap_err();
    assert!(err.contains("did not load"), "{err}");
    assert!(err.contains("permission denied"), "{err}");
    assert_eq!(out.live_tags(), None, "and nothing is swept while that stands");
}

#[test]
fn a_clashing_record_name_is_refused_in_so_many_words() {
    let m = claim_refusal("/s/remote/outbox/1-0.json", "File exists (os error 17)");
    assert_eq!(
        m,
        "refusing to queue a send: the record file \"/s/remote/outbox/1-0.json\" could not be claimed \
         (File exists (os error 17)). A file already there is a send that was accepted, and writing \
         over it would lose that delivery."
    );
    assert!(m.contains("refusing to queue"));
}

#[test]
fn ids_minted_in_one_millisecond_differ_and_sort_as_minted() {
    let mut out = Outbox::load("/s/remote/outbox", &Listing::Missing);
    let ids: Vec<String> = (0..64).map(|n| out.next_id(1_700_000_000_000 + n / 10)).collect();
    let mut sorted = ids.clone();
    sorted.sort();
    sorted.dedup();
    assert_eq!(sorted, ids, "distinct and already in order");
    for (n, id) in ids.iter().enumerate() {
        assert_eq!(id.len(), 18);
        assert_eq!(&id[13..14], "-");
        assert_eq!(seq_of(id), Some(n as u64));
    }
}

#[test]
fn an_expired_record_whose_file_will_not_go_keeps_its_place() {
    let mut out = Outbox::load(DIR, &Listing::Missing);
    let id = out.next_id(MILLIS);
    let r = accept(&mut out, staged(&id, "nodeA", "iPhone", 10)).unwrap();
    let other = out.next_id(MILLIS);
    accept(&mut out, staged(&other, "nodeB", "iPad", 10)).unwrap();

    assert!(out.take_expired(r.enqueued_at, &|_: &str| Ok(())).is_empty(), "nothing is due yet");

    // A file that will not go keeps its record, and the pin with it.
    let stuck = out.take_expired(r.expires_at, &|_: &str| Err("EACCES".to_string()));
    assert!(stuck.is_empty());
    assert_eq!(depth(&out), 2);

    let mut unlinked = Vec::new();
    let gone = out.take_expired(r.expires_at, &|p: &str| {
        assert!(p.ends_with(".json"));
        Ok(())
    });
    unlinked.extend(gone.iter().map(|g| g.tag.clone()));
    assert_eq!(gone.len(), 2);
    assert_eq!(gone[0], r);
    assert_eq!(unlinked[0], tag_name(&id));
    assert!(out.is_empty());
}
