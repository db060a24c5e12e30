//! Runtime core of a link-state routing protocol instance: admission
//! control, the priority-ordered input channels and their dispatcher, the
//! lifecycle of the link-state database, the SPF delay algorithm, and the
//! routing table changes handed to the forwarding plane.
use vstd::prelude::*;

pub mod channels;
pub mod events;
pub mod ibus;
pub mod instance;
pub mod log;
pub mod lsdb;
pub mod route;
pub mod spf;

verus! {

} // verus!
