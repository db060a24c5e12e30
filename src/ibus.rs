use vstd::prelude::*;

verus! {

/// Address family of a routing instance or of a prefix-SID update.
#[derive(Clone, Copy, Debug, PartialEq, Eq, Structural)]
pub enum AddressFamily {
    Ipv4,
    Ipv6,
}

/// Type of Segment Routing configuration change.
#[derive(Clone, Copy, Debug, PartialEq, Eq, Structural)]
pub enum SrCfgEvent {
    LabelRangeUpdate,
    PrefixSidUpdate(AddressFamily),
}

/// State reported by a bidirectional-forwarding-detection session.
#[derive(Clone, Copy, Debug, PartialEq, Eq, Structural)]
pub enum BfdState {
    AdminDown,
    Down,
    Init,
    Up,
}

/// Message exchanged over the internal bus shared by the routing components.
///
/// A BFD session is keyed by the peer's address; clients, keychains and
/// policies are carried by their ids and names, the objects they stand for
/// living with the components that own them.
#[derive(Clone, Debug)]
pub enum IbusMsg {
    /// BFD peer registration.
    BfdSessionReg { sess_key: u32, client_id: u64 },
    /// BFD peer unregistration.
    BfdSessionUnreg { sess_key: u32, client_id: u64 },
    /// BFD peer state update.
    BfdStateUpd { sess_key: u32, state: BfdState },
    /// Keychain update notification.
    KeychainUpd(String),
    /// Keychain delete notification.
    KeychainDel(String),
    /// Policy match sets update notification.
    PolicyMatchSetsUpd,
    /// Policy definition update notification.
    PolicyUpd(String),
    /// Policy definition delete notification.
    PolicyDel(String),
    /// Segment Routing configuration update.
    SrCfgUpd,
    /// Segment Routing configuration event.
    SrCfgEvent(SrCfgEvent),
}

} // verus!
