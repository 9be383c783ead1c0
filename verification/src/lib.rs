use vstd::prelude::*;

pub mod text;
pub mod proto;
pub mod order;
pub mod beam;
pub mod outbox;
pub mod paths;
pub mod scope;
pub mod peers;
pub mod devices;
pub mod args;
pub mod host;
pub mod server_core;
pub mod server;
pub mod grants;
pub mod sessions;
pub mod gate;
pub mod cli;

verus! {

} // verus!
