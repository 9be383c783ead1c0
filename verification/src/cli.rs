//! The `vlerv` command: `vlerv open <path>` and `vlerv reveal <path>` become
//! `vlerv://open?path=<abs>` and `vlerv://reveal?path=<abs>` deep links,
//! handed to the system opener.

use vstd::prelude::*;
use crate::beam::{encode_query_value, pct_encode};
use crate::order::same_text;
use crate::paths::{join, join_path};
use crate::text::{append, chars_of, own};
use vstd::string::StringSliceAdditionalSpecFns;

verus! {

/// What the command line asks for.
#[derive(Debug, PartialEq, Eq)]
pub enum CliAction {
    /// No verb at all.
    Usage,
    /// A known verb without its path.
    MissingPath(String),
    UnknownVerb(String),
    /// Open or reveal this path.
    Run { verb: String, path: String },
}

/// The verbs the command knows.
pub open spec fn known_verb(v: Seq<char>) -> bool {
    v == "open"@ || v == "reveal"@
}

/// Read the arguments, program name first.
pub fn parse_cli(args: &Vec<String>) -> (r: CliAction)
    ensures
        args@.len() < 2 ==> r is Usage,
        args@.len() >= 2 && !known_verb(args@[1]@) ==> (r matches CliAction::UnknownVerb(v) && v@ == args@[1]@),
        args@.len() == 2 && known_verb(args@[1]@) ==> (r matches CliAction::MissingPath(v) && v@ == args@[1]@),
        args@.len() >= 3 && known_verb(args@[1]@) ==> (r matches CliAction::Run { verb, path } && verb@ == args@[1]@
            && path@ == args@[2]@),
{
    if args.len() < 2 {
        return CliAction::Usage;
    }
    let verb = args[1].as_str();
    if !same_text(verb, "open") && !same_text(verb, "reveal") {
        return CliAction::UnknownVerb(own(verb));
    }
    if args.len() < 3 {
        return CliAction::MissingPath(own(verb));
    }
    CliAction::Run { verb: own(verb), path: own(args[2].as_str()) }
}

/// A path argument made absolute against the working directory. Resolving
/// symlinks, `.` and `..` is the filesystem's part.
pub open spec fn absolute_spec(raw: Seq<char>, cwd: Seq<char>) -> Seq<char> {
    if raw.len() > 0 && raw[0] == '/' { raw } else { join(cwd, raw) }
}

pub fn absolute(raw: &str, cwd: &str) -> (r: String)
    ensures
        r@ == absolute_spec(raw@, cwd@),
{
    let v = chars_of(raw);
    if v.len() > 0 && v[0] == '/' {
        own(raw)
    } else {
        join_path(cwd, raw)
    }
}

/// The deep link for one verb and path. Everything outside RFC 3986's
/// unreserved characters is percent-encoded, the same policy a beam link's
/// name travels under.
pub open spec fn deep_link_spec(verb: Seq<char>, path: &str) -> Seq<char> {
    "vlerv://"@ + verb + "?path="@ + pct_encode(path.spec_bytes())
}

pub fn deep_link(verb: &str, path: &str) -> (r: String)
    ensures
        r@ == deep_link_spec(verb@, path),
{
    let mut m = own("vlerv://");
    append(&mut m, verb);
    append(&mut m, "?path=");
    append(&mut m, encode_query_value(path).as_str());
    m
}

/// What the command prints when a verb comes without its path.
pub fn missing_path_lines(verb: &str) -> (r: Vec<String>)
    ensures
        r@.len() == 2,
        r@[0]@ == "Usage: vlerv "@ + verb@ + " <path>"@,
        r@[1]@ == "Error: missing path argument for '"@ + verb@ + "' verb"@,
{
    let mut a = own("Usage: vlerv ");
    append(&mut a, verb);
    append(&mut a, " <path>");
    let mut b = own("Error: missing path argument for '");
    append(&mut b, verb);
    append(&mut b, "' verb");
    let mut v: Vec<String> = Vec::new();
    v.push(a);
    v.push(b);
    v
}

/// What the command prints for a verb it does not know.
pub fn unknown_verb_line(verb: &str) -> (r: String)
    ensures
        r@ == "vlerv: unknown verb '"@ + verb@ + "'"@,
{
    let mut m = own("vlerv: unknown verb '");
    append(&mut m, verb);
    append(&mut m, "'");
    m
}

/// The usage text.
pub fn usage_lines() -> (r: Vec<String>)
    ensures
        r@.len() == 4,
        r@[0]@ == "Usage: vlerv open <path>"@,
        r@[1]@ == "       vlerv reveal <path>"@,
        r@[2]@ == ""@,
        r@[3]@ == "Supported verbs: open, reveal"@,
{
    let mut v: Vec<String> = Vec::new();
    v.push(own("Usage: vlerv open <path>"));
    v.push(own("       vlerv reveal <path>"));
    v.push(String::new());
    v.push(own("Supported verbs: open, reveal"));
    proof {
        reveal_strlit("");
    }
    v
}

} // verus!
