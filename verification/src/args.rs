//! Tool arguments, and the validation that runs before any of them reaches
//! the network. Every check is a pure function over strings: a malformed
//! argument is refused with a message that says what to send instead, and a
//! defaulted value never silently widens what a call does.

use vstd::prelude::*;
use crate::beam::{DEFAULT_TTL_HOURS, MAX_TTL_HOURS, MIN_TTL_HOURS};
use crate::paths::{join, join_path};
use crate::peers::{scope_of, unknown_scope_message, Scope};
use crate::text::{
    append, chars_of, dec, own, push_dec, string_of, trim, trimmed,
};

verus! {

/// Arguments of the beam tool.
pub struct BeamArtifactArgs {
    /// Absolute path of the file to send; a relative one resolves against
    /// the working directory.
    pub path: String,
    /// How long the link stays fetchable, in hours. Defaults to a day.
    pub ttl_hours: Option<u32>,
}

/// Arguments of the tool that revokes links.
pub struct StopBeamArgs {
    /// The content hash of the link to revoke, or a prefix of it; none
    /// revokes every link.
    pub hash: Option<String>,
}

/// Arguments of the device listing.
pub struct ListDevicesArgs {
    /// Dial every paired device to report live presence.
    pub probe: Option<bool>,
}

/// Arguments of the send tool.
pub struct SendToDeviceArgs {
    pub path: String,
    /// The paired device: its name, or a prefix of its node id.
    pub device: String,
}

/// Arguments of the tool that forgets a device.
pub struct ForgetDeviceArgs {
    pub device: String,
}

/// Arguments of the pairing confirmation.
pub struct ConfirmPairingArgs {
    /// True completes the pairing, false discards it.
    pub accept: bool,
    /// Which pending pairing; optional while exactly one waits.
    pub node_id: Option<String>,
    /// What the new device may do on this server; none leaves an existing
    /// grant unchanged and gives a new device the narrowest.
    pub scope: Option<String>,
}

/// `s` without its leading `c`s.
pub open spec fn drop_leading(s: Seq<char>, c: char) -> Seq<char>
    decreases s.len(),
{
    if s.len() > 0 && s[0] == c {
        drop_leading(s.drop_first(), c)
    } else {
        s
    }
}

fn drop_leading_chars(v: &Vec<char>, c: char) -> (r: Vec<char>)
    ensures
        r@ == drop_leading(v@, c),
{
    let mut k: usize = 0;
    assert(v@.subrange(0, v.len() as int) =~= v@);
    while k < v.len() && v[k] == c
        invariant
            k <= v.len(),
            drop_leading(v@, c) == drop_leading(v@.subrange(k as int, v.len() as int), c),
        decreases v.len() - k,
    {
        assert(v@.subrange(k as int, v.len() as int).drop_first() =~= v@.subrange(k + 1, v.len() as int));
        k += 1;
    }
    let mut r: Vec<char> = Vec::new();
    let mut i = k;
    while i < v.len()
        invariant
            k <= i <= v.len(),
            r@ == v@.subrange(k as int, i as int),
        decreases v.len() - i,
    {
        r.push(v[i]);
        assert(v@.subrange(k as int, i + 1) =~= v@.subrange(k as int, i as int).push(v@[i as int]));
        i += 1;
    }
    r
}

/// What a path argument resolves to against `cwd` and `home`.
pub open spec fn resolved_arg(raw: Seq<char>, cwd: Seq<char>, home: Option<Seq<char>>) -> Result<Seq<char>, Seq<char>> {
    let t = trim(raw);
    if t.len() == 0 {
        Err("path must not be empty"@)
    } else if t.contains('\0') {
        Err("path must not contain NUL bytes"@)
    } else if t == seq!['~'] || (t.len() >= 2 && t[0] == '~' && t[1] == '/') {
        match home {
            None => Err("cannot expand ~: no home directory"@),
            Some(h) => {
                let rest = drop_leading(drop_leading(t, '~'), '/');
                if rest.len() == 0 {
                    Ok(h)
                } else {
                    Ok(join(h, rest))
                }
            },
        }
    } else if t[0] == '/' {
        Ok(t)
    } else {
        Ok(join(cwd, t))
    }
}

/// Resolve a caller-supplied path argument. `cwd` and `home` are
/// parameters, not process lookups, so the rule is testable without touching
/// the environment. This is argument hygiene only: whether the file may be
/// sent is decided later, against the roots.
pub fn resolve_arg_path(raw: &str, cwd: &str, home: Option<&str>) -> (r: Result<String, String>)
    ensures
        match home {
            None => match r {
                Ok(p) => resolved_arg(raw@, cwd@, None) == Ok::<Seq<char>, Seq<char>>(p@),
                Err(e) => resolved_arg(raw@, cwd@, None) == Err::<Seq<char>, Seq<char>>(e@),
            },
            Some(h) => match r {
                Ok(p) => resolved_arg(raw@, cwd@, Some(h@)) == Ok::<Seq<char>, Seq<char>>(p@),
                Err(e) => resolved_arg(raw@, cwd@, Some(h@)) == Err::<Seq<char>, Seq<char>>(e@),
            },
        },
{
    let t = trimmed(raw);
    let v = chars_of(t.as_str());
    if v.len() == 0 {
        return Err(own("path must not be empty"));
    }
    let mut i: usize = 0;
    while i < v.len()
        invariant
            i <= v.len(),
            v@ == trim(raw@),
            v@.len() > 0,
            forall|k: int| 0 <= k < i ==> v@[k] != '\0',
        decreases v.len() - i,
    {
        if v[i] == '\0' {
            assert(v@.contains('\0')) by {
                assert(v@[i as int] == '\0');
            }
            return Err(own("path must not contain NUL bytes"));
        }
        i += 1;
    }
    assert(!v@.contains('\0'));
    if (v.len() == 1 && v[0] == '~') || (v.len() >= 2 && v[0] == '~' && v[1] == '/') {
        assert((v@ == seq!['~']) || (v@.len() >= 2 && v@[0] == '~' && v@[1] == '/')) by {
            if v.len() == 1 && v[0] == '~' {
                assert(v@ =~= seq!['~']);
            }
        }
        let h = match home {
            None => {
                return Err(own("cannot expand ~: no home directory"));
            },
            Some(h) => h,
        };
        let a = drop_leading_chars(&v, '~');
        let rest = drop_leading_chars(&a, '/');
        if rest.len() == 0 {
            return Ok(own(h));
        }
        let rs = string_of(&rest);
        return Ok(join_path(h, rs.as_str()));
    }
    assert(!(v@ == seq!['~'] || (v@.len() >= 2 && v@[0] == '~' && v@[1] == '/'))) by {
        if v@ == seq!['~'] {
            assert(v@.len() == 1);
            assert(v@[0] == '~');
        }
    }
    if v[0] == '/' {
        Ok(t)
    } else {
        Ok(join_path(cwd, t.as_str()))
    }
}

/// The refusal an out-of-range lifetime gets.
pub open spec fn ttl_message(h: u32) -> Seq<char> {
    "ttl_hours must be between "@ + dec(MIN_TTL_HOURS as nat) + " and "@ + dec(MAX_TTL_HOURS as nat)
        + ", got "@ + dec(h as nat)
}

/// Lifetime validation without a clamp: a caller that asked for 0 hours or
/// ten years wanted something this server cannot give, and is told so.
pub fn validate_ttl(hours: Option<u32>) -> (r: Result<u32, String>)
    ensures
        match hours {
            None => r == Ok::<u32, String>(DEFAULT_TTL_HOURS),
            Some(h) => if MIN_TTL_HOURS <= h <= MAX_TTL_HOURS {
                r == Ok::<u32, String>(h)
            } else {
                r matches Err(e) && e@ == ttl_message(h)
            },
        },
{
    match hours {
        None => Ok(DEFAULT_TTL_HOURS),
        Some(h) => {
            if MIN_TTL_HOURS <= h && h <= MAX_TTL_HOURS {
                Ok(h)
            } else {
                let mut m = own("ttl_hours must be between ");
                push_dec(&mut m, MIN_TTL_HOURS as u64);
                append(&mut m, " and ");
                push_dec(&mut m, MAX_TTL_HOURS as u64);
                append(&mut m, ", got ");
                push_dec(&mut m, h as u64);
                Err(m)
            }
        },
    }
}

/// A device argument is free text matched against the peer list later; the
/// only thing refused here is nothing at all.
pub fn validate_device_query(raw: &str) -> (r: Result<String, String>)
    ensures
        match r {
            Ok(q) => trim(raw@).len() > 0 && q@ == trim(raw@),
            Err(e) => trim(raw@).len() == 0 && e@
                == "device must not be empty \u{2014} call list_devices to see the paired names"@,
        },
{
    let t = trimmed(raw);
    if t.as_str().is_empty() {
        return Err(own("device must not be empty \u{2014} call list_devices to see the paired names"));
    }
    Ok(t)
}

/// The optional-scope rule, with the list of valid values in the refusal.
/// What `validate_optional_scope` gives, as a value.
pub open spec fn validate_optional_scope_spec(raw: Option<&str>) -> Result<Option<Scope>, Seq<char>> {
    match raw {
        None => Ok(None),
        Some(s) => match scope_of(trim(s@)) {
            Some(x) => Ok(Some(x)),
            None => Err(unknown_scope_message(trim(s@)) + " \u{2014} use \"view-open\", \"browse\" or \"control\""@),
        },
    }
}

pub fn validate_optional_scope(raw: Option<&str>) -> (r: Result<Option<Scope>, String>)
    ensures
        match raw {
            None => r == Ok::<Option<Scope>, String>(None),
            Some(s) => match r {
                Ok(Some(x)) => scope_of(trim(s@)) == Some(x),
                Ok(None) => false,
                Err(e) => scope_of(trim(s@)) is None && e@ == unknown_scope_message(trim(s@))
                    + " \u{2014} use \"view-open\", \"browse\" or \"control\""@,
            },
        },
{
    match Scope::parse_optional(raw) {
        Ok(x) => Ok(x),
        Err(e) => {
            let mut m = e;
            append(&mut m, " \u{2014} use \"view-open\", \"browse\" or \"control\"");
            Err(m)
        },
    }
}

} // verus!
