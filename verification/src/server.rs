//! The sentences the send server's tools answer with. Each is a function
//! of the facts it reports, so what a reader is told can be stated and
//! checked without a device on the far end of a socket.

use vstd::prelude::*;
use crate::beam::{human_bytes, human_bytes_spec};
use crate::order::views;
use crate::server_core::{
    AbandonedDelivery, BeamLink, Delivery, DeviceInfo, OfferSummary, PairingInvite, PairingOutcome,
    PendingPairing, QueuedDelivery, ServerStatus,
};
use crate::text::{append, dec, join_strings, joined, own, push_dec};

verus! {

/// What `forget_device` did: the unpairing asked for, and what it cost.
pub struct Forgotten {
    pub device: String,
    pub node_id_short: String,
    /// Queued sends deleted with the device.
    pub dropped: usize,
    /// What those sends weighed.
    pub dropped_bytes: u64,
    /// Anything else the caller has to pass on.
    pub note: Option<String>,
}

// ── Shortened lists ─────────────────────────────────────────────────────────

/// The clause a bounded list adds when the cap dropped its oldest entries,
/// and nothing when it did not.
pub open spec fn shortened_clause_spec(total: u64, listed: usize) -> Seq<char> {
    if total > listed {
        " (listing the last "@ + dec(listed as nat) + ")"@
    } else {
        Seq::empty()
    }
}

pub fn shortened_clause(total: u64, listed: usize) -> (r: String)
    ensures
        r@ == shortened_clause_spec(total, listed),
{
    if total > listed as u64 {
        let mut m = own(" (listing the last ");
        push_dec(&mut m, listed as u64);
        append(&mut m, ")");
        m
    } else {
        String::new()
    }
}

// ── Expiry in words ─────────────────────────────────────────────────────────

/// `n / d`, rounded up.
pub open spec fn ceil_div(n: nat, d: nat) -> nat
    recommends
        d > 0,
{
    if n % d == 0 {
        n / d
    } else {
        n / d + 1
    }
}

/// How long is left until `expires_at`, seen at `now`, for a person.
pub open spec fn human_hours_spec(expires_at: u64, now: u64) -> Seq<char> {
    let left: nat = if expires_at > now { (expires_at - now) as nat } else { 0 };
    if left == 0 {
        "less than a minute"@
    } else if left < 3600 {
        dec(ceil_div(left, 60)) + " minutes"@
    } else if left < 7200 {
        "1 hour"@
    } else {
        dec(ceil_div(left, 3600)) + " hours"@
    }
}

/// "in 24 hours" style copy from an absolute expiry, so nobody has to do
/// clock arithmetic to tell the user. A link that already expired reads as
/// less than a minute, never as a huge number.
pub fn human_hours(expires_at: u64, now: u64) -> (r: String)
    ensures
        r@ == human_hours_spec(expires_at, now),
{
    let left: u64 = if expires_at > now { expires_at - now } else { 0 };
    if left == 0 {
        own("less than a minute")
    } else if left < 3600 {
        let q: u64 = if left % 60 == 0 { left / 60 } else { left / 60 + 1 };
        let mut m = String::new();
        push_dec(&mut m, q);
        append(&mut m, " minutes");
        assert(Seq::<char>::empty() + dec(q as nat) == dec(q as nat));
        m
    } else if left < 7200 {
        own("1 hour")
    } else {
        let q: u64 = if left % 3600 == 0 { left / 3600 } else { left / 3600 + 1 };
        let mut m = String::new();
        push_dec(&mut m, q);
        append(&mut m, " hours");
        assert(Seq::<char>::empty() + dec(q as nat) == dec(q as nat));
        m
    }
}

// ── forget_device ───────────────────────────────────────────────────────────

/// Both halves are stated because both are irreversible: the unpairing was
/// asked for, and the deleted copies are what it cost.
pub open spec fn forget_summary_spec(f: Forgotten) -> Seq<char> {
    let head = f.device@ + " ("@ + f.node_id_short@
        + ") is no longer paired with this server. It can no longer reach this server, and this server can no longer send to it."@;
    let dropped = if f.dropped > 0 {
        " "@ + dec(f.dropped as nat) + " queued send(s) were deleted with it, freeing "@
            + human_bytes_spec(f.dropped_bytes)
            + " \u{2014} those files will NOT arrive on that device. Tell the user."@
    } else {
        Seq::empty()
    };
    let note = match f.note {
        Some(n) => "\n"@ + n@,
        None => Seq::empty(),
    };
    head + dropped + note
}

pub fn forget_summary(forgotten: &Forgotten) -> (r: String)
    ensures
        r@ == forget_summary_spec(*forgotten),
{
    let mut m = own(forgotten.device.as_str());
    append(&mut m, " (");
    append(&mut m, forgotten.node_id_short.as_str());
    append(&mut m, ") is no longer paired with this server. It can no longer reach this server, and this server can no longer send to it.");
    let ghost head = m@;
    if forgotten.dropped > 0 {
        append(&mut m, " ");
        push_dec(&mut m, forgotten.dropped as u64);
        append(&mut m, " queued send(s) were deleted with it, freeing ");
        append(&mut m, human_bytes(forgotten.dropped_bytes).as_str());
        append(&mut m, " \u{2014} those files will NOT arrive on that device. Tell the user.");
    }
    let ghost mid = m@;
    match &forgotten.note {
        Some(n) => {
            append(&mut m, "\n");
            append(&mut m, n.as_str());
        },
        None => {},
    }
    proof {
        let f = *forgotten;
        let dropped = if f.dropped > 0 {
            " "@ + dec(f.dropped as nat) + " queued send(s) were deleted with it, freeing "@
                + human_bytes_spec(f.dropped_bytes)
                + " \u{2014} those files will NOT arrive on that device. Tell the user."@
        } else {
            Seq::<char>::empty()
        };
        assert(mid =~= head + dropped);
        match f.note {
            Some(n) => assert(m@ =~= head + dropped + ("\n"@ + n@)),
            None => assert(m@ =~= head + dropped + Seq::<char>::empty()),
        }
    }
    m
}

// ── send_to_device ──────────────────────────────────────────────────────────

/// One sentence per outcome, and the variant picks the verb: nothing here
/// reads "delivered" for a file that is still on this machine.
pub open spec fn delivery_summary_spec(path: Seq<char>, d: Delivery) -> Seq<char> {
    match d {
        Delivery::Delivered { device, name, size, .. } => "Delivered "@ + path + " ("@
            + human_bytes_spec(size) + ") to "@ + device@ + ". It landed there as \""@ + name@
            + "\" and opened on that device."@,
        Delivery::Queued { device, name, size, reason, notes, .. } => "NOT delivered yet \u{2014} "@
            + device@ + " did not answer ("@ + reason@ + "). "@ + path + " ("@
            + human_bytes_spec(size) + ") is queued as \""@ + name@
            + "\" and goes out the moment that device is reachable again. Tell the user it has not arrived on their device.\n"@
            + joined(views(notes@), "\n"@),
    }
}

pub fn delivery_summary(path: &str, delivery: &Delivery) -> (r: String)
    ensures
        r@ == delivery_summary_spec(path@, *delivery),
{
    match delivery {
        Delivery::Delivered { device, name, size, .. } => {
            let mut m = own("Delivered ");
            append(&mut m, path);
            append(&mut m, " (");
            append(&mut m, human_bytes(*size).as_str());
            append(&mut m, ") to ");
            append(&mut m, device.as_str());
            append(&mut m, ". It landed there as \"");
            append(&mut m, name.as_str());
            append(&mut m, "\" and opened on that device.");
            m
        },
        Delivery::Queued { device, name, size, reason, notes, .. } => {
            let mut m = own("NOT delivered yet \u{2014} ");
            append(&mut m, device.as_str());
            append(&mut m, " did not answer (");
            append(&mut m, reason.as_str());
            append(&mut m, "). ");
            append(&mut m, path);
            append(&mut m, " (");
            append(&mut m, human_bytes(*size).as_str());
            append(&mut m, ") is queued as \"");
            append(&mut m, name.as_str());
            append(&mut m, "\" and goes out the moment that device is reachable again. Tell the user it has not arrived on their device.\n");
            append(&mut m, join_strings(notes, "\n").as_str());
            m
        },
    }
}

// ── server_status ───────────────────────────────────────────────────────────

/// One abandoned delivery: the file, the device, the size and the reason.
pub open spec fn abandoned_entry(a: AbandonedDelivery) -> Seq<char> {
    "- "@ + a.name@ + " to "@ + a.device@ + " ("@ + human_bytes_spec(a.size) + ") \u{2014} "@
        + a.reason@
}

pub open spec fn abandoned_entries(s: Seq<AbandonedDelivery>) -> Seq<Seq<char>>
    decreases s.len(),
{
    if s.len() == 0 {
        Seq::empty()
    } else {
        abandoned_entries(s.drop_last()).push(abandoned_entry(s.last()))
    }
}

/// Deliveries that ENDED, and nothing at all when there are none: "0
/// abandoned" on every call would teach a reader to skip the one line that
/// reports a file somebody will not get.
pub open spec fn abandoned_line_spec(st: ServerStatus) -> Seq<char> {
    if st.abandoned@.len() == 0 {
        Seq::empty()
    } else {
        "\nGIVEN UP ON in this session: "@ + dec(st.abandoned_total as nat)
            + shortened_clause_spec(st.abandoned_total, st.abandoned@.len() as usize)
            + " \u{2014} these files did NOT arrive and are no longer queued. Tell the user:\n"@
            + joined(abandoned_entries(st.abandoned@), "\n"@)
    }
}

fn abandoned_entry_string(a: &AbandonedDelivery) -> (r: String)
    ensures
        r@ == abandoned_entry(*a),
{
    let mut m = own("- ");
    append(&mut m, a.name.as_str());
    append(&mut m, " to ");
    append(&mut m, a.device.as_str());
    append(&mut m, " (");
    append(&mut m, human_bytes(a.size).as_str());
    append(&mut m, ") \u{2014} ");
    append(&mut m, a.reason.as_str());
    m
}

pub fn abandoned_line(status: &ServerStatus) -> (r: String)
    ensures
        r@ == abandoned_line_spec(*status),
{
    if status.abandoned.len() == 0 {
        return String::new();
    }
    let mut listed: Vec<String> = Vec::new();
    let mut i: usize = 0;
    while i < status.abandoned.len()
        invariant
            i <= status.abandoned.len(),
            views(listed@) == abandoned_entries(status.abandoned@.take(i as int)),
        decreases status.abandoned.len() - i,
    {
        let e = abandoned_entry_string(&status.abandoned[i]);
        let ghost before = listed@;
        listed.push(e);
        proof {
            assert(status.abandoned@.take(i + 1).drop_last() =~= status.abandoned@.take(i as int));
            assert(views(listed@) =~= views(before).push(e@));
        }
        i += 1;
    }
    assert(status.abandoned@.take(status.abandoned.len() as int) =~= status.abandoned@);
    let mut m = own("\nGIVEN UP ON in this session: ");
    push_dec(&mut m, status.abandoned_total);
    append(&mut m, shortened_clause(status.abandoned_total, status.abandoned.len()).as_str());
    append(&mut m, " \u{2014} these files did NOT arrive and are no longer queued. Tell the user:\n");
    append(&mut m, join_strings(&listed, "\n").as_str());
    m
}

/// One waiting send: the file, the device, and what its last attempt was
/// told.
pub open spec fn waiting_entry(q: QueuedDelivery) -> Seq<char> {
    match q.last_error {
        Some(e) => "- "@ + q.name@ + " to "@ + q.device@ + " (attempt "@ + dec(q.attempts as nat)
            + ": "@ + e@ + ")"@,
        None => "- "@ + q.name@ + " to "@ + q.device@ + " (not tried yet)"@,
    }
}

pub open spec fn waiting_entries(s: Seq<QueuedDelivery>) -> Seq<Seq<char>>
    decreases s.len(),
{
    if s.len() == 0 {
        Seq::empty()
    } else {
        waiting_entries(s.drop_last()).push(waiting_entry(s.last()))
    }
}

/// A record this build cannot read is named wherever the queue is named,
/// even beside a count of 0, where it would otherwise be invisible.
pub open spec fn unreadable_clause(unreadable: Seq<String>) -> Seq<char> {
    if unreadable.len() == 0 {
        Seq::empty()
    } else {
        "\n"@ + dec(unreadable.len())
            + " queued record(s) this build cannot read, so they are never sent and never deleted: "@
            + joined(views(unreadable), ", "@)
    }
}

/// The queue's line in the status report. The reason comes first whenever
/// there is one; three states stop the queue and the line separates them:
/// a stated blocking reason, a record this build cannot read, and a server
/// that has not opened its network.
pub open spec fn queue_line_spec(st: ServerStatus) -> Seq<char> {
    let unreadable = unreadable_clause(st.queue_unreadable@);
    let waiting = joined(waiting_entries(st.queued@), "\n"@);
    match st.queue_blocked_reason {
        Some(reason) => "queued deliveries: "@ + dec(st.queued_total as nat)
            + " \u{2014} NONE of them can move: "@ + reason@ + unreadable,
        None => if st.queued_total == 0 {
            "queued deliveries: 0"@ + unreadable
        } else if !st.booted {
            "queued deliveries: "@ + dec(st.queued_total as nat) + " holding "@
                + human_bytes_spec(st.queued_bytes)
                + " \u{2014} none of them is moving: this server has not opened its network yet, so there is no delivery pass and no device can dial in. Any attempt count below was written by an earlier session. The first tool call that needs the network \u{2014} send_to_device, beam_artifact, pair_device, or list_devices with probe \u{2014} opens it and starts the queue; server_status never does. Waiting:\n"@
                + waiting + unreadable
        } else {
            "queued deliveries: "@ + dec(st.queued_total as nat) + " holding "@
                + human_bytes_spec(st.queued_bytes) + ", NOT delivered yet"@
                + (if st.draining { ", a drain pass is running"@ } else { Seq::empty() })
                + ":\n"@ + waiting + unreadable
        },
    }
}

fn waiting_entry_string(q: &QueuedDelivery) -> (r: String)
    ensures
        r@ == waiting_entry(*q),
{
    let mut m = own("- ");
    append(&mut m, q.name.as_str());
    append(&mut m, " to ");
    append(&mut m, q.device.as_str());
    match &q.last_error {
        Some(e) => {
            append(&mut m, " (attempt ");
            push_dec(&mut m, q.attempts as u64);
            append(&mut m, ": ");
            append(&mut m, e.as_str());
            append(&mut m, ")");
        },
        None => {
            append(&mut m, " (not tried yet)");
        },
    }
    m
}

fn unreadable_string(unreadable: &Vec<String>) -> (r: String)
    ensures
        r@ == unreadable_clause(unreadable@),
{
    if unreadable.len() == 0 {
        return String::new();
    }
    let mut m = own("\n");
    push_dec(&mut m, unreadable.len() as u64);
    append(&mut m, " queued record(s) this build cannot read, so they are never sent and never deleted: ");
    append(&mut m, join_strings(unreadable, ", ").as_str());
    m
}

pub fn queue_line(status: &ServerStatus) -> (r: String)
    ensures
        r@ == queue_line_spec(*status),
{
    let unreadable = unreadable_string(&status.queue_unreadable);
    if let Some(reason) = &status.queue_blocked_reason {
        let mut m = own("queued deliveries: ");
        push_dec(&mut m, status.queued_total as u64);
        append(&mut m, " \u{2014} NONE of them can move: ");
        append(&mut m, reason.as_str());
        append(&mut m, unreadable.as_str());
        return m;
    }
    if status.queued_total == 0 {
        let mut m = own("queued deliveries: 0");
        append(&mut m, unreadable.as_str());
        return m;
    }
    let mut waiting: Vec<String> = Vec::new();
    let mut i: usize = 0;
    while i < status.queued.len()
        invariant
            i <= status.queued.len(),
            views(waiting@) == waiting_entries(status.queued@.take(i as int)),
        decreases status.queued.len() - i,
    {
        let e = waiting_entry_string(&status.queued[i]);
        let ghost before = waiting@;
        waiting.push(e);
        proof {
            assert(status.queued@.take(i + 1).drop_last() =~= status.queued@.take(i as int));
            assert(views(waiting@) =~= views(before).push(e@));
        }
        i += 1;
    }
    assert(status.queued@.take(status.queued.len() as int) =~= status.queued@);
    let listed = join_strings(&waiting, "\n");
    let mut m = own("queued deliveries: ");
    push_dec(&mut m, status.queued_total as u64);
    append(&mut m, " holding ");
    append(&mut m, human_bytes(status.queued_bytes).as_str());
    if !status.booted {
        append(&mut m, " \u{2014} none of them is moving: this server has not opened its network yet, so there is no delivery pass and no device can dial in. Any attempt count below was written by an earlier session. The first tool call that needs the network \u{2014} send_to_device, beam_artifact, pair_device, or list_devices with probe \u{2014} opens it and starts the queue; server_status never does. Waiting:\n");
    } else {
        append(&mut m, ", NOT delivered yet");
        if status.draining {
            append(&mut m, ", a drain pass is running");
        } else {
            assert(m@ + Seq::<char>::empty() =~= m@);
        }
        append(&mut m, ":\n");
    }
    append(&mut m, listed.as_str());
    append(&mut m, unreadable.as_str());
    m
}

/// "booted: false" reads as "idle" unless the refusal is named beside it.
pub open spec fn booted_text(st: ServerStatus) -> Seq<char> {
    match st.boot_error {
        Some(e) => "false \u{2014} the last boot failed: "@ + e@,
        None => if st.booted { "true"@ } else { "false"@ },
    }
}

/// The sentence `server_status` returns. When a list is shorter than its
/// count it says so, rather than letting the reader take the listed entries
/// for all of them.
pub open spec fn status_summary_spec(st: ServerStatus) -> Seq<char> {
    st.device@ + " \u{2014} node "@ + st.node_id_short@ + "\nidentity: "@ + st.identity_dir@
        + "\nnetwork booted: "@ + booted_text(st) + "\nuptime: "@ + dec(st.uptime_secs as nat)
        + "s\npaired devices: "@ + dec(st.paired_devices as nat) + "\nactive beam links: "@
        + dec(st.active_offers@.len()) + "\nreceived this session: "@
        + dec(st.received_total as nat)
        + shortened_clause_spec(st.received_total, st.received_artifacts@.len() as usize) + "\n"@
        + queue_line_spec(st) + abandoned_line_spec(st)
}

pub fn status_summary(status: &ServerStatus) -> (r: String)
    ensures
        r@ == status_summary_spec(*status),
{
    let listed = shortened_clause(status.received_total, status.received_artifacts.len());
    let mut m = own(status.device.as_str());
    append(&mut m, " \u{2014} node ");
    append(&mut m, status.node_id_short.as_str());
    append(&mut m, "\nidentity: ");
    append(&mut m, status.identity_dir.as_str());
    append(&mut m, "\nnetwork booted: ");
    match &status.boot_error {
        Some(e) => {
            append(&mut m, "false \u{2014} the last boot failed: ");
            append(&mut m, e.as_str());
        },
        None => {
            if status.booted {
                append(&mut m, "true");
            } else {
                append(&mut m, "false");
            }
        },
    }
    append(&mut m, "\nuptime: ");
    push_dec(&mut m, status.uptime_secs);
    append(&mut m, "s\npaired devices: ");
    push_dec(&mut m, status.paired_devices as u64);
    append(&mut m, "\nactive beam links: ");
    push_dec(&mut m, status.active_offers.len() as u64);
    append(&mut m, "\nreceived this session: ");
    push_dec(&mut m, status.received_total);
    append(&mut m, listed.as_str());
    append(&mut m, "\n");
    append(&mut m, queue_line(status).as_str());
    append(&mut m, abandoned_line(status).as_str());
    m
}


// ── The other tools' sentences ──────────────────────────────────────────────

/// What `beam_artifact` answers: the link, its size, and how long it lives.
pub open spec fn beam_link_summary_spec(link: BeamLink, now: u64) -> Seq<char> {
    link.name@ + " ("@ + human_bytes_spec(link.size) + ") is now beamable. Give the user this link:\n"@
        + link.link@ + "\nIt expires in "@ + human_hours_spec(link.expires_at, now)
        + ", and it stops working when this MCP server exits."@
}

pub fn beam_link_summary(link: &BeamLink, now: u64) -> (r: String)
    ensures
        r@ == beam_link_summary_spec(*link, now),
{
    let mut m = own(link.name.as_str());
    append(&mut m, " (");
    append(&mut m, human_bytes(link.size).as_str());
    append(&mut m, ") is now beamable. Give the user this link:\n");
    append(&mut m, link.link.as_str());
    append(&mut m, "\nIt expires in ");
    append(&mut m, human_hours(link.expires_at, now).as_str());
    append(&mut m, ", and it stops working when this MCP server exits.");
    m
}

pub open spec fn offer_names(s: Seq<OfferSummary>) -> Seq<Seq<char>>
    decreases s.len(),
{
    if s.len() == 0 { Seq::empty() } else { offer_names(s.drop_last()).push(s.last().name@) }
}

/// What `stop_beam` answers.
pub open spec fn stop_summary_spec(stopped: Seq<OfferSummary>) -> Seq<char> {
    if stopped.len() == 0 {
        "No beam link was live, so nothing had to be revoked."@
    } else {
        "Revoked "@ + dec(stopped.len()) + " beam link(s): "@ + joined(offer_names(stopped), ", "@)
            + ". Any further fetch is refused, even from somebody who still holds the link."@
    }
}

pub fn stop_summary(stopped: &Vec<OfferSummary>) -> (r: String)
    ensures
        r@ == stop_summary_spec(stopped@),
{
    if stopped.len() == 0 {
        return own("No beam link was live, so nothing had to be revoked.");
    }
    let mut names: Vec<String> = Vec::new();
    let mut i: usize = 0;
    while i < stopped.len()
        invariant
            i <= stopped.len(),
            views(names@) == offer_names(stopped@.take(i as int)),
        decreases stopped.len() - i,
    {
        let ghost before = views(names@);
        names.push(own(stopped[i].name.as_str()));
        proof {
            assert(stopped@.take(i + 1).drop_last() =~= stopped@.take(i as int));
            assert(views(names@) =~= before.push(stopped@[i as int].name@));
        }
        i += 1;
    }
    assert(stopped@.take(i as int) =~= stopped@);
    let mut m = own("Revoked ");
    push_dec(&mut m, stopped.len() as u64);
    append(&mut m, " beam link(s): ");
    append(&mut m, join_strings(&names, ", ").as_str());
    append(&mut m, ". Any further fetch is refused, even from somebody who still holds the link.");
    m
}

pub open spec fn device_row(d: DeviceInfo) -> Seq<char> {
    "- "@ + d.device@ + " ("@ + d.node_id_short@ + ") \u{2014} scope granted to this server's peer: "@ + d.scope@
        + ", presence: "@ + d.presence@
}

pub open spec fn device_rows(s: Seq<DeviceInfo>) -> Seq<Seq<char>>
    decreases s.len(),
{
    if s.len() == 0 { Seq::empty() } else { device_rows(s.drop_last()).push(device_row(s.last())) }
}

/// What `list_devices` answers.
pub open spec fn devices_summary_spec(devices: Seq<DeviceInfo>) -> Seq<char> {
    if devices.len() == 0 {
        "No devices are paired with this server yet. Call pair_device to pair one."@
    } else {
        dec(devices.len()) + " paired device(s):\n"@ + joined(device_rows(devices), "\n"@)
    }
}

pub fn devices_summary(devices: &Vec<DeviceInfo>) -> (r: String)
    ensures
        r@ == devices_summary_spec(devices@),
{
    if devices.len() == 0 {
        return own("No devices are paired with this server yet. Call pair_device to pair one.");
    }
    let mut rows: Vec<String> = Vec::new();
    let mut i: usize = 0;
    while i < devices.len()
        invariant
            i <= devices.len(),
            views(rows@) == device_rows(devices@.take(i as int)),
        decreases devices.len() - i,
    {
        let d = &devices[i];
        let mut row = own("- ");
        append(&mut row, d.device.as_str());
        append(&mut row, " (");
        append(&mut row, d.node_id_short.as_str());
        append(&mut row, ") \u{2014} scope granted to this server's peer: ");
        append(&mut row, d.scope.as_str());
        append(&mut row, ", presence: ");
        append(&mut row, d.presence);
        let ghost before = views(rows@);
        rows.push(row);
        proof {
            assert(devices@.take(i + 1).drop_last() =~= devices@.take(i as int));
            assert(views(rows@) =~= before.push(device_row(devices@[i as int])));
        }
        i += 1;
    }
    assert(devices@.take(i as int) =~= devices@);
    let mut m = String::new();
    push_dec(&mut m, devices.len() as u64);
    append(&mut m, " paired device(s):\n");
    append(&mut m, join_strings(&rows, "\n").as_str());
    assert(Seq::<char>::empty() + dec(devices@.len()) == dec(devices@.len()));
    m
}

/// What `pair_device` answers.
pub open spec fn invite_summary_spec(invite: PairingInvite) -> Seq<char> {
    "Pairing is open for 10 minutes. Ask the user to open this link on the device they want to pair:\n"@
        + invite.link@ + "\n\n"@ + joined(views(invite.instructions@), "\n"@) + "\n\nNext: "@
        + invite.fingerprint_hint@
}

pub fn invite_summary(invite: &PairingInvite) -> (r: String)
    ensures
        r@ == invite_summary_spec(*invite),
{
    let mut m = own("Pairing is open for 10 minutes. Ask the user to open this link on the device they want to pair:\n");
    append(&mut m, invite.link.as_str());
    append(&mut m, "\n\n");
    append(&mut m, join_strings(&invite.instructions, "\n").as_str());
    append(&mut m, "\n\nNext: ");
    append(&mut m, invite.fingerprint_hint.as_str());
    m
}

pub open spec fn pending_row(p: PendingPairing) -> Seq<char> {
    "- "@ + p.device@ + " ("@ + p.node_id_short@ + ") \u{2014} fingerprint: "@ + joined(views(p.fingerprint@), " "@)
}

pub open spec fn pending_rows(s: Seq<PendingPairing>) -> Seq<Seq<char>>
    decreases s.len(),
{
    if s.len() == 0 { Seq::empty() } else { pending_rows(s.drop_last()).push(pending_row(s.last())) }
}

/// What `pair_status` answers: every waiting pairing with its six words.
pub open spec fn pending_summary_spec(pending: Seq<PendingPairing>) -> Seq<char> {
    if pending.len() == 0 {
        "No pairing is waiting for confirmation. Call pair_device, then have the user open the link on the other device."@
    } else {
        dec(pending.len()) + " pairing(s) waiting. Read the six words to the user and have them compare with the other screen:\n"@
            + joined(pending_rows(pending), "\n"@)
    }
}

pub fn pending_summary(pending: &Vec<PendingPairing>) -> (r: String)
    ensures
        r@ == pending_summary_spec(pending@),
{
    if pending.len() == 0 {
        return own("No pairing is waiting for confirmation. Call pair_device, then have the user open the link on the other device.");
    }
    let mut rows: Vec<String> = Vec::new();
    let mut i: usize = 0;
    while i < pending.len()
        invariant
            i <= pending.len(),
            views(rows@) == pending_rows(pending@.take(i as int)),
        decreases pending.len() - i,
    {
        let p = &pending[i];
        let mut row = own("- ");
        append(&mut row, p.device.as_str());
        append(&mut row, " (");
        append(&mut row, p.node_id_short.as_str());
        append(&mut row, ") \u{2014} fingerprint: ");
        append(&mut row, join_strings(&p.fingerprint, " ").as_str());
        let ghost before = views(rows@);
        rows.push(row);
        proof {
            assert(pending@.take(i + 1).drop_last() =~= pending@.take(i as int));
            assert(views(rows@) =~= before.push(pending_row(pending@[i as int])));
        }
        i += 1;
    }
    assert(pending@.take(i as int) =~= pending@);
    let mut m = String::new();
    push_dec(&mut m, pending.len() as u64);
    append(&mut m, " pairing(s) waiting. Read the six words to the user and have them compare with the other screen:\n");
    append(&mut m, join_strings(&rows, "\n").as_str());
    assert(Seq::<char>::empty() + dec(pending@.len()) == dec(pending@.len()));
    m
}

/// What `confirm_pairing` answers: a rejection wrote nothing; an acceptance
/// names the grant this server gave and the one the device still owes it.
pub open spec fn confirm_summary_spec(outcome: PairingOutcome, this_device: Seq<char>) -> Seq<char> {
    if !outcome.paired {
        "Pairing with "@ + outcome.device@ + " was rejected and nothing was written to disk."@
    } else {
        "Paired with "@ + outcome.device@ + ". It may do \""@ + match outcome.scope {
            Some(s) => s@,
            None => Seq::empty(),
        } + "\" on this server. For this server to push files TO it, that device must grant \""@ + this_device
            + "\" the \"control\" scope in its own peer settings \u{2014} otherwise send_to_device is refused."@
    }
}

pub fn confirm_summary(outcome: &PairingOutcome, this_device: &str) -> (r: String)
    ensures
        r@ == confirm_summary_spec(*outcome, this_device@),
{
    if !outcome.paired {
        let mut m = own("Pairing with ");
        append(&mut m, outcome.device.as_str());
        append(&mut m, " was rejected and nothing was written to disk.");
        return m;
    }
    let mut m = own("Paired with ");
    append(&mut m, outcome.device.as_str());
    append(&mut m, ". It may do \"");
    match &outcome.scope {
        Some(s) => append(&mut m, s.as_str()),
        None => {
            assert(m@ + Seq::<char>::empty() =~= m@);
        },
    }
    append(&mut m, "\" on this server. For this server to push files TO it, that device must grant \"");
    append(&mut m, this_device);
    append(&mut m, "\" the \"control\" scope in its own peer settings \u{2014} otherwise send_to_device is refused.");
    m
}

} // verus!
