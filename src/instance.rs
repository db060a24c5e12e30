use vstd::prelude::*;
use crate::channels::{
    IsmEvent, NsmEvent, LsaOriginateEvent, ProtocolInputChannelsTx, ProtocolInputMsg, PacketType,
};
use crate::ibus::{AddressFamily, BfdState, IbusMsg, SrCfgEvent};
use crate::log::{EventLog, log_pushed};
use crate::lsdb::{LsaKey, Lsdb, LsdbId, self_originated_count, self_originated_list, lemma_self_originated_count};
use crate::route::{RouteModel, RouteNet, installed_routes, same_dest, unique_dests, route_installs, route_uninstalls, routes_view};
use crate::spf::{SpfDelay, SpfEvent, SpfState, TimerAction, spf_quiet};
use crate::events::{
    SpfOutcome, flush_applied, ism_applied, iface_lookup, lse_lookup, lsdb_lookup, nbr_lookup,
    nsm_applied, orig_check_applied, orig_delayed_applied, orig_event_applied, orig_event_lookup,
    packet_timer_applied, refresh_applied, refresh_lookup, send_lsupd_applied, spf_event_applied,
    sweep_applied, st,
};

verus! {

/// Capacity of the LSA event log.
pub const LSA_LOG_MAX_SIZE: usize = 64;
/// Delay, in milliseconds, through which origination triggers are batched.
pub const LSA_ORIG_DELAY_MS: u32 = 100;
/// Capacity of the SPF run log.
pub const SPF_LOG_MAX_SIZE: usize = 32;

/// Default route preference of every path type.
pub const DFLT_PREFERENCE: u8 = 110;
/// Default maximum number of equal-cost paths.
pub const DFLT_MAX_PATHS: u16 = 16;
/// Default SPF delay durations, in milliseconds.
pub const DFLT_SPF_INITIAL_DELAY: u32 = 50;
pub const DFLT_SPF_SHORT_DELAY: u32 = 200;
pub const DFLT_SPF_LONG_DELAY: u32 = 5000;
pub const DFLT_SPF_HOLD_DOWN: u32 = 10000;
pub const DFLT_SPF_TIME_TO_LEARN: u32 = 500;

/// Why an instance is not active.
#[derive(Clone, Copy, Debug, PartialEq, Eq, Structural)]
pub enum InstanceInactiveReason {
    AdminDown,
    MissingRouterId,
    Resetting,
}

/// Facts about the instance learned from the host system.
#[derive(Clone, Copy, Debug, PartialEq, Eq, Structural)]
pub struct InstanceSys {
    pub router_id: Option<u32>,
}

/// Route preferences, used to break ties between path types.
#[derive(Clone, Copy, Debug, PartialEq, Eq, Structural)]
pub struct Preference {
    pub intra_area: u8,
    pub inter_area: u8,
    pub external: u8,
}

/// Configuration of the instance.
#[derive(Clone, Copy, Debug, PartialEq, Eq, Structural)]
pub struct InstanceCfg {
    pub af: Option<AddressFamily>,
    pub enabled: bool,
    pub router_id: Option<u32>,
    pub preference: Preference,
    pub max_paths: u16,
    pub spf_initial_delay: u32,
    pub spf_short_delay: u32,
    pub spf_long_delay: u32,
    pub spf_hold_down: u32,
    pub spf_time_to_learn: u32,
    pub stub_router: bool,
    pub extended_lsa: bool,
    pub sr_enabled: bool,
}

impl Default for Preference {
    fn default() -> (r: Preference)
        ensures
            r == (Preference {
                intra_area: DFLT_PREFERENCE,
                inter_area: DFLT_PREFERENCE,
                external: DFLT_PREFERENCE,
            }),
    {
        Preference { intra_area: DFLT_PREFERENCE, inter_area: DFLT_PREFERENCE, external: DFLT_PREFERENCE }
    }
}

impl Default for InstanceCfg {
    fn default() -> (r: InstanceCfg)
        ensures
            r == dflt_cfg(),
    {
        InstanceCfg {
            af: None,
            enabled: true,
            router_id: None,
            preference: Preference::default(),
            max_paths: DFLT_MAX_PATHS,
            spf_initial_delay: DFLT_SPF_INITIAL_DELAY,
            spf_short_delay: DFLT_SPF_SHORT_DELAY,
            spf_long_delay: DFLT_SPF_LONG_DELAY,
            spf_hold_down: DFLT_SPF_HOLD_DOWN,
            spf_time_to_learn: DFLT_SPF_TIME_TO_LEARN,
            stub_router: false,
            extended_lsa: false,
            sr_enabled: false,
        }
    }
}

/// The default configuration.
pub open spec fn dflt_cfg() -> InstanceCfg {
    InstanceCfg {
        af: None,
        enabled: true,
        router_id: None,
        preference: Preference {
            intra_area: DFLT_PREFERENCE,
            inter_area: DFLT_PREFERENCE,
            external: DFLT_PREFERENCE,
        },
        max_paths: DFLT_MAX_PATHS,
        spf_initial_delay: DFLT_SPF_INITIAL_DELAY,
        spf_short_delay: DFLT_SPF_SHORT_DELAY,
        spf_long_delay: DFLT_SPF_LONG_DELAY,
        spf_hold_down: DFLT_SPF_HOLD_DOWN,
        spf_time_to_learn: DFLT_SPF_TIME_TO_LEARN,
        stub_router: false,
        extended_lsa: false,
        sr_enabled: false,
    }
}

/// State of an interface.
#[derive(Clone, Copy, Debug, PartialEq, Eq, Structural)]
pub enum IfState {
    Down,
    Up,
}

/// State of a neighbor.
#[derive(Clone, Copy, Debug, PartialEq, Eq, Structural)]
pub enum NbrState {
    Down,
    Init,
    TwoWay,
    Full,
}

#[derive(Debug)]
pub struct Interface {
    pub name: String,
    /// Configured and ready to run the protocol.
    pub enabled: bool,
    /// Advertised, but sends and accepts no protocol packets.
    pub passive: bool,
    pub state: IfState,
    /// LSAs waiting to be sent in the next LS Update.
    pub ls_update_pending: Vec<LsaKey>,
}

#[derive(Clone, Copy, Debug, PartialEq, Eq, Structural)]
pub struct Neighbor {
    /// Index of the interface the neighbor was heard on.
    pub iface_id: usize,
    pub router_id: u32,
    pub addr: u32,
    pub state: NbrState,
}

/// Derived, per-area state.
#[derive(Clone, Copy, Debug, PartialEq, Eq, Structural)]
pub struct AreaState {
    pub transit_capability: bool,
}

#[derive(Debug)]
pub struct Area {
    pub area_id: u32,
    /// Indexes of the area's interfaces in the interface arena.
    pub interfaces: Vec<usize>,
    pub state: AreaState,
}

/// Owners of every area, interface and neighbor, which refer to one another
/// by their indexes here.
#[derive(Debug)]
pub struct InstanceArenas {
    pub areas: Vec<Area>,
    pub interfaces: Vec<Interface>,
    pub neighbors: Vec<Neighbor>,
}

/// Entry of the LSA event log.
#[derive(Clone, Copy, Debug, PartialEq, Eq, Structural)]
pub struct LsaLogEntry {
    pub lsdb: LsdbId,
    pub lsa: LsaKey,
    pub seq_no: i32,
    pub reason: LsaLogReason,
}

#[derive(Clone, Copy, Debug, PartialEq, Eq, Structural)]
pub enum LsaLogReason {
    Originated,
    Refreshed,
    Flushed,
}

/// An LSA change that an SPF run must take into account.
#[derive(Clone, Copy, Debug, PartialEq, Eq, Structural)]
pub struct SpfTriggerLsa {
    pub lsdb: LsdbId,
    pub lsa: LsaKey,
}

/// Entry of the SPF run log.
#[derive(Debug)]
pub struct SpfLogEntry {
    pub trigger_lsas: Vec<SpfTriggerLsa>,
    /// How long the shortest-path computation took, in milliseconds.
    pub duration_ms: u64,
    pub installs: usize,
    pub uninstalls: usize,
}

/// Operational state, present while the instance is active.
#[derive(Debug)]
pub struct InstanceState {
    pub af: AddressFamily,
    pub router_id: u32,
    pub lsdb: Lsdb,
    pub spf_delay: SpfDelay,
    /// When the last SPF run completed, in milliseconds since the Unix epoch.
    pub spf_last_time: Option<i64>,
    /// LSAs that changed since the last SPF run.
    pub spf_trigger_lsas: Vec<SpfTriggerLsa>,
    pub rib: Vec<RouteNet>,
    pub orig_lsa_count: u32,
    pub rx_lsa_count: u32,
    /// Milliseconds since the Unix epoch at which the counters started.
    pub discontinuity_time: i64,
    pub lsa_log: EventLog<LsaLogEntry>,
    pub spf_log: EventLog<SpfLogEntry>,
    /// Areas whose Router-LSA waits for the delayed-origination timer.
    pub lsa_orig_delayed: Vec<usize>,
}

/// Request to the forwarding plane.
#[derive(Debug)]
pub enum SouthboundMsg {
    RouteInstall(RouteNet),
    RouteUninstall(RouteNet),
}

/// Mathematical value of a request to the forwarding plane: whether it
/// installs, and the route.
pub open spec fn sb_view(m: SouthboundMsg) -> (bool, RouteModel) {
    match m {
        SouthboundMsg::RouteInstall(r) => (true, r@),
        SouthboundMsg::RouteUninstall(r) => (false, r@),
    }
}

pub open spec fn sb_views(s: Seq<SouthboundMsg>) -> Seq<(bool, RouteModel)> {
    s.map_values(|m: SouthboundMsg| sb_view(m))
}

pub open spec fn uninstall_views(s: Seq<RouteModel>) -> Seq<(bool, RouteModel)> {
    s.map_values(|r: RouteModel| (false, r))
}

pub open spec fn install_views(s: Seq<RouteModel>) -> Seq<(bool, RouteModel)> {
    s.map_values(|r: RouteModel| (true, r))
}

/// Packet to send to the network.
#[derive(Debug)]
pub enum NetTxMsg {
    /// An LSA flushed from every router: sent with MaxAge.
    LsaFlush { lsdb_key: LsdbId, lsa: LsaKey, seq_no: i32 },
    /// An LS Update carrying these LSAs.
    LsUpdate { iface_id: usize, nbr_id: Option<usize>, lsas: Vec<LsaKey> },
    /// A retransmission or an acknowledgment.
    Packet { iface_id: usize, nbr_id: Option<usize>, packet_type: PacketType },
}

/// A timer to start; when it fires, the runtime queues the input it names.
#[derive(Clone, Copy, Debug, PartialEq, Eq, Structural)]
pub enum TimerRequest {
    /// The short delay after which the LSA is originated, batching the
    /// triggers that arrive meanwhile: then an `LsaOrigDelayed` input.
    LsaOrigDelay { lsdb_key: LsdbId, lsa_key: LsaKey },
}

/// Everything the instance hands to others.
#[derive(Debug)]
pub struct InstanceChannelsTx {
    pub protocol_input: ProtocolInputChannelsTx,
    pub sb: Vec<SouthboundMsg>,
    pub net: Vec<NetTxMsg>,
    pub timers: Vec<TimerRequest>,
}

#[derive(Debug)]
pub struct Instance {
    pub name: String,
    pub system: InstanceSys,
    pub config: InstanceCfg,
    /// Present if and only if the instance is active.
    pub state: Option<InstanceState>,
    pub arenas: InstanceArenas,
    pub tx: InstanceChannelsTx,
}

/// Errors of a message handler.
#[derive(Clone, Copy, Debug, PartialEq, Eq, Structural)]
pub enum Error {
    AreaIdNotFound(usize),
    InterfaceIdNotFound(usize),
    NeighborIdNotFound(usize),
    LsaEntryIdNotFound(u32),
    /// The instance is not active.
    InstanceInactive,
    /// A computed routing table holds two routes to one destination.
    DuplicateRoute,
}

/// The router id in use: the configured one, else the system's.
pub open spec fn router_id_of(cfg: InstanceCfg, sys: InstanceSys) -> Option<u32> {
    if cfg.router_id is Some {
        cfg.router_id
    } else {
        sys.router_id
    }
}

/// Admission check of an instance.
pub open spec fn readiness(cfg: InstanceCfg, n_ifaces: nat, router_id: Option<u32>) -> Result<(), InstanceInactiveReason> {
    if !cfg.enabled || n_ifaces == 0 {
        Err(InstanceInactiveReason::AdminDown)
    } else if router_id is None {
        Err(InstanceInactiveReason::MissingRouterId)
    } else {
        Ok(())
    }
}

impl InstanceArenas {
    /// Every index that an area or a neighbor holds names an interface.
    pub open spec fn wf(&self) -> bool {
        &&& forall|a: int, j: int| 0 <= a < self.areas@.len() && 0 <= j < self.areas@[a].interfaces@.len()
            ==> #[trigger] self.areas@[a].interfaces@[j] < self.interfaces@.len()
        &&& forall|n: int| 0 <= n < self.neighbors@.len()
            ==> #[trigger] self.neighbors@[n].iface_id < self.interfaces@.len()
    }

    pub fn new() -> (r: InstanceArenas)
        ensures
            r.wf(),
            r.areas@.len() == 0,
            r.interfaces@.len() == 0,
            r.neighbors@.len() == 0,
    {
        InstanceArenas { areas: Vec::new(), interfaces: Vec::new(), neighbors: Vec::new() }
    }
}

/// Every interface that runs the protocol is down, and every area has its
/// derived state cleared.
pub open spec fn arenas_at_rest(ar: InstanceArenas) -> bool {
    &&& forall|k: int| 0 <= k < ar.interfaces@.len() && !(#[trigger] ar.interfaces@[k]).passive
        ==> ar.interfaces@[k].state == IfState::Down
    &&& forall|a: int| 0 <= a < ar.areas@.len() ==> (#[trigger] ar.areas@[a]).state == (AreaState { transit_capability: false })
}

/// An interface that a deactivation takes down: up and not passive.
pub open spec fn goes_down(i: Interface) -> bool {
    !i.passive && i.state == IfState::Up
}

/// Deactivation of the arenas: each area's derived state cleared; each
/// interface that goes down is down with nothing queued, and its neighbors
/// are down; every other interface and neighbor stays as it was.
pub open spec fn arenas_stopped(o: InstanceArenas, n: InstanceArenas) -> bool {
    &&& n.wf()
    &&& same_shape(o, n)
    &&& forall|a: int| 0 <= a < n.areas@.len() ==> (#[trigger] n.areas@[a]).state == (AreaState { transit_capability: false })
    &&& forall|k: int| 0 <= k < o.interfaces@.len() ==> if goes_down(o.interfaces@[k]) {
        &&& (#[trigger] n.interfaces@[k]).state == IfState::Down
        &&& n.interfaces@[k].ls_update_pending@.len() == 0
    } else {
        n.interfaces@[k] == o.interfaces@[k]
    }
    &&& forall|m: int| 0 <= m < o.neighbors@.len() ==> #[trigger] n.neighbors@[m] == if goes_down(
        o.interfaces@[o.neighbors@[m].iface_id as int],
    ) {
        Neighbor { state: NbrState::Down, ..o.neighbors@[m] }
    } else {
        o.neighbors@[m]
    }
}

/// The LS Updates that interfaces going down still send, interface by
/// interface.
pub open spec fn lsupd_msgs(ifaces: Seq<Interface>) -> Seq<NetTxMsg>
    decreases ifaces.len(),
{
    if ifaces.len() == 0 {
        Seq::empty()
    } else {
        let p = lsupd_msgs(ifaces.drop_last());
        let f = ifaces.last();
        if goes_down(f) && f.ls_update_pending@.len() > 0 {
            p.push(NetTxMsg::LsUpdate { iface_id: (ifaces.len() - 1) as usize, nbr_id: None, lsas: f.ls_update_pending })
        } else {
            p
        }
    }
}

/// The flush packets for these self-originated entries, in order.
pub open spec fn flush_msgs(s: Seq<(LsdbId, u32, LsaKey, i32)>) -> Seq<NetTxMsg> {
    s.map_values(|t: (LsdbId, u32, LsaKey, i32)| NetTxMsg::LsaFlush { lsdb_key: t.0, lsa: t.2, seq_no: t.3 })
}

} // verus!

verus! {

/// The address family of an instance: the configured one, IPv4 by default.
pub open spec fn af_of(cfg: InstanceCfg) -> AddressFamily {
    match cfg.af {
        Some(af) => af,
        None => AddressFamily::Ipv4,
    }
}

/// Operational state as an activation creates it.
pub open spec fn fresh_state(st: InstanceState, af: AddressFamily, router_id: u32, now_ms: i64) -> bool {
    &&& st.af == af
    &&& st.router_id == router_id
    &&& st.discontinuity_time == now_ms
    &&& st.lsdb.entries@.len() == 0
    &&& st.lsdb.next_id == 0
    &&& st.spf_delay == spf_quiet()
    &&& st.spf_last_time is None
    &&& st.spf_trigger_lsas@.len() == 0
    &&& st.rib@.len() == 0
    &&& st.orig_lsa_count == 0
    &&& st.rx_lsa_count == 0
    &&& st.lsa_log.entries@.len() == 0 && st.lsa_log.next_id == 0
    &&& st.lsa_log.capacity == LSA_LOG_MAX_SIZE
    &&& st.spf_log.entries@.len() == 0 && st.spf_log.next_id == 0
    &&& st.spf_log.capacity == SPF_LOG_MAX_SIZE
    &&& st.lsa_orig_delayed@.len() == 0
}

impl InstanceState {
    /// Logs within their capacity; one route per destination.
    pub open spec fn wf(&self) -> bool {
        &&& self.lsa_log.wf()
        &&& self.spf_log.wf()
        &&& unique_dests(routes_view(self.rib@))
    }

    /// Fresh operational state; `now_ms` (milliseconds since the Unix
    /// epoch) is when its counters start.
    pub fn new(af: AddressFamily, router_id: u32, now_ms: i64) -> (r: InstanceState)
        ensures
            r.wf(),
            fresh_state(r, af, router_id, now_ms),
    {
        InstanceState {
            af,
            router_id,
            lsdb: Lsdb::new(),
            spf_delay: SpfDelay::new(),
            spf_last_time: None,
            spf_trigger_lsas: Vec::new(),
            rib: Vec::new(),
            orig_lsa_count: 0,
            rx_lsa_count: 0,
            discontinuity_time: now_ms,
            lsa_log: EventLog::new(LSA_LOG_MAX_SIZE),
            spf_log: EventLog::new(SPF_LOG_MAX_SIZE),
            lsa_orig_delayed: Vec::new(),
        }
    }
}

/// Messages that an activation queues for area `a`: an enable event for
/// each of its enabled interfaces, in order.
pub open spec fn iface_up_msgs(a: usize, idxs: Seq<usize>, ifaces: Seq<Interface>) -> Seq<ProtocolInputMsg>
    decreases idxs.len(),
{
    if idxs.len() == 0 {
        Seq::empty()
    } else {
        let p = iface_up_msgs(a, idxs.drop_last(), ifaces);
        let k = idxs.last();
        if k < ifaces.len() && ifaces[k as int].enabled {
            p.push(ProtocolInputMsg::IsmEvent { area_key: a, iface_key: k, event: IsmEvent::InterfaceUp })
        } else {
            p
        }
    }
}

/// Messages that an activation queues: area by area, the enable events of
/// its interfaces, then an area-start origination event.
pub open spec fn start_msgs(areas: Seq<Area>, ifaces: Seq<Interface>) -> Seq<ProtocolInputMsg>
    decreases areas.len(),
{
    if areas.len() == 0 {
        Seq::empty()
    } else {
        let a = (areas.len() - 1) as usize;
        start_msgs(areas.drop_last(), ifaces) + iface_up_msgs(a, areas.last().interfaces@, ifaces).push(
            ProtocolInputMsg::LsaOrigEvent { event: LsaOriginateEvent::AreaStart { area_id: a } },
        )
    }
}

/// The arenas keep their shape and configuration: same areas, interfaces and
/// neighbors, only their states may differ.
pub open spec fn same_shape(a: InstanceArenas, b: InstanceArenas) -> bool {
    &&& a.areas@.len() == b.areas@.len()
    &&& forall|i: int| 0 <= i < a.areas@.len() ==> (#[trigger] a.areas@[i]).area_id == b.areas@[i].area_id
        && a.areas@[i].interfaces@ == b.areas@[i].interfaces@
    &&& a.interfaces@.len() == b.interfaces@.len()
    &&& forall|i: int| 0 <= i < a.interfaces@.len() ==> (#[trigger] a.interfaces@[i]).name@ == b.interfaces@[i].name@
        && a.interfaces@[i].enabled == b.interfaces@[i].enabled
        && a.interfaces@[i].passive == b.interfaces@[i].passive
    &&& a.neighbors@.len() == b.neighbors@.len()
    &&& forall|i: int| 0 <= i < a.neighbors@.len() ==> (#[trigger] a.neighbors@[i]).iface_id == b.neighbors@[i].iface_id
        && a.neighbors@[i].router_id == b.neighbors@[i].router_id
        && a.neighbors@[i].addr == b.neighbors@[i].addr
}

/// Effect of an activation with router id `rid` at time `now_ms`.
pub open spec fn started(old: Instance, new: Instance, rid: u32, now_ms: i64) -> bool {
    &&& new.state is Some
    &&& fresh_state(new.state->Some_0, af_of(old.config), rid, now_ms)
    &&& new.state->Some_0.wf()
    &&& new.name == old.name && new.system == old.system && new.config == old.config
    &&& new.arenas == old.arenas
    &&& new.tx.protocol_input.sent@ == old.tx.protocol_input.sent@ + start_msgs(
        old.arenas.areas@,
        old.arenas.interfaces@,
    )
    &&& new.tx.sb == old.tx.sb && new.tx.net == old.tx.net && new.tx.timers == old.tx.timers
}

/// Effect of a deactivation: every self-originated LSA flushed, every
/// installed route uninstalled, the arenas at rest and the operational
/// state gone.
pub open spec fn stopped(old: Instance, new: Instance) -> bool {
    let st = old.state->Some_0;
    &&& new.state is None
    &&& new.name == old.name && new.system == old.system && new.config == old.config
    &&& arenas_stopped(old.arenas, new.arenas)
    &&& sb_views(new.tx.sb@) == sb_views(old.tx.sb@) + uninstall_views(installed_routes(routes_view(st.rib@)))
    &&& new.tx.net@ == old.tx.net@ + flush_msgs(self_originated_list(st.lsdb.entries@))
        + lsupd_msgs(old.arenas.interfaces@)
    &&& new.tx.protocol_input == old.tx.protocol_input
    &&& new.tx.timers == old.tx.timers
}

/// Effect of `update` at time `now_ms`: start when ready and inactive, stop
/// when not ready and active, nothing otherwise.
pub open spec fn updated(old: Instance, new: Instance, now_ms: i64) -> bool {
    let rid = router_id_of(old.config, old.system);
    let ready = readiness(old.config, old.arenas.interfaces@.len(), rid);
    if ready is Ok && old.state is None {
        started(old, new, rid->Some_0, now_ms)
    } else if ready is Err && old.state is Some {
        stopped(old, new)
    } else {
        new == old
    }
}

impl Instance {
    pub open spec fn wf(&self) -> bool {
        &&& self.arenas.wf()
        &&& self.state is Some ==> self.state->Some_0.wf()
    }

    /// A new, inactive instance with the default configuration.
    pub fn new(name: String, tx: InstanceChannelsTx) -> (r: Instance)
        ensures
            r.wf(),
            r.name == name,
            r.system.router_id is None,
            r.config == dflt_cfg(),
            r.state is None,
            r.arenas.areas@.len() == 0,
            r.arenas.interfaces@.len() == 0,
            r.arenas.neighbors@.len() == 0,
            arenas_at_rest(r.arenas),
            r.tx == tx,
    {
        Instance {
            name,
            system: InstanceSys { router_id: None },
            config: InstanceCfg::default(),
            state: None,
            arenas: InstanceArenas::new(),
            tx,
        }
    }

    pub fn is_active(&self) -> (r: bool)
        ensures
            r == self.state is Some,
    {
        self.state.is_some()
    }

    /// The router id in use: the configured one takes precedence over the
    /// one learned from the system.
    pub fn get_router_id(&self) -> (r: Option<u32>)
        ensures
            r == router_id_of(self.config, self.system),
    {
        if self.config.router_id.is_some() {
            self.config.router_id
        } else if self.system.router_id.is_some() {
            self.system.router_id
        } else {
            None
        }
    }

    /// Whether the instance may run: enabled, with at least one interface,
    /// and with a router id.
    pub fn is_ready(&self, router_id: Option<u32>) -> (r: Result<(), InstanceInactiveReason>)
        ensures
            r == readiness(self.config, self.arenas.interfaces@.len(), router_id),
    {
        if !self.config.enabled || self.arenas.interfaces.len() == 0 {
            return Err(InstanceInactiveReason::AdminDown);
        }
        if router_id.is_none() {
            return Err(InstanceInactiveReason::MissingRouterId);
        }
        Ok(())
    }

    fn address_family(&self) -> (r: AddressFamily)
        ensures
            r == af_of(self.config),
    {
        match self.config.af {
            Some(af) => af,
            None => AddressFamily::Ipv4,
        }
    }
}

} // verus!

verus! {

impl Instance {
    /// Activates the instance: fresh operational state, then, area by area,
    /// an enable event for each enabled interface and an area-start
    /// origination event.
    fn start(&mut self, router_id: u32, now_ms: i64)
        requires
            old(self).wf(),
            old(self).state is None,
        ensures
            final(self).wf(),
            started(*old(self), *final(self), router_id, now_ms),
    {
        let af = self.address_family();
        self.state = Some(InstanceState::new(af, router_id, now_ms));
        let ghost st0 = self.state;
        let ghost sent0 = self.tx.protocol_input.sent@;
        let ghost areas = self.arenas.areas@;
        let ghost ifaces = self.arenas.interfaces@;
        let mut a: usize = 0;
        while a < self.arenas.areas.len()
            invariant
                a <= areas.len(),
                areas == self.arenas.areas@,
                ifaces == self.arenas.interfaces@,
                self.tx.protocol_input.sent@ == sent0 + start_msgs(areas.subrange(0, a as int), ifaces),
                self.state == st0,
                self.tx.sb == old(self).tx.sb,
                self.tx.net == old(self).tx.net,
                self.tx.timers == old(self).tx.timers,
                self.arenas == old(self).arenas,
                self.name == old(self).name,
                self.system == old(self).system,
                self.config == old(self).config,
            decreases areas.len() - a,
        {
            let ghost before = self.tx.protocol_input.sent@;
            let n = self.arenas.areas[a].interfaces.len();
            let mut j: usize = 0;
            while j < n
                invariant
                    a < areas.len(),
                    j <= n,
                    n == areas[a as int].interfaces@.len(),
                    areas == self.arenas.areas@,
                    ifaces == self.arenas.interfaces@,
                    self.tx.protocol_input.sent@ == before + iface_up_msgs(
                        a,
                        areas[a as int].interfaces@.subrange(0, j as int),
                        ifaces,
                    ),
                    self.state == st0,
                    self.tx.sb == old(self).tx.sb,
                    self.tx.net == old(self).tx.net,
                    self.tx.timers == old(self).tx.timers,
                    self.arenas == old(self).arenas,
                    self.name == old(self).name,
                    self.system == old(self).system,
                    self.config == old(self).config,
                decreases n - j,
            {
                let k = self.arenas.areas[a].interfaces[j];
                let ghost idxs = areas[a as int].interfaces@;
                assert(idxs.subrange(0, j + 1).drop_last() =~= idxs.subrange(0, j as int));
                if k < self.arenas.interfaces.len() && self.arenas.interfaces[k].enabled {
                    self.tx.protocol_input.ism_event(a, k, IsmEvent::InterfaceUp);
                }
                assert(self.tx.protocol_input.sent@ =~= before + iface_up_msgs(a, idxs.subrange(0, j + 1), ifaces));
                j += 1;
            }
            assert(areas[a as int].interfaces@.subrange(0, n as int) =~= areas[a as int].interfaces@);
            self.tx.protocol_input.lsa_orig_event(LsaOriginateEvent::AreaStart { area_id: a });
            assert(areas.subrange(0, a + 1).drop_last() =~= areas.subrange(0, a as int));
            assert(self.tx.protocol_input.sent@ =~= sent0 + start_msgs(areas.subrange(0, a + 1), ifaces));
            a += 1;
        }
        assert(areas.subrange(0, a as int) =~= areas);
    }
}

} // verus!

verus! {

/// Floods a MaxAge copy of every self-originated LSA of `st`, in order.
fn flush_all_self_originated(st: &InstanceState, net: &mut Vec<NetTxMsg>)
    ensures
        final(net)@ == old(net)@ + flush_msgs(self_originated_list(st.lsdb.entries@)),
{
    let lsas = st.lsdb.self_originated();
    let ghost net0 = net@;
    let mut i: usize = 0;
    while i < lsas.len()
        invariant
            i <= lsas@.len(),
            lsas@ == self_originated_list(st.lsdb.entries@),
            net@ == net0 + flush_msgs(lsas@.subrange(0, i as int)),
        decreases lsas@.len() - i,
    {
        let (lsdb_key, _id, lsa, seq_no) = lsas[i];
        net.push(NetTxMsg::LsaFlush { lsdb_key, lsa, seq_no });
        assert(flush_msgs(lsas@.subrange(0, i + 1)) =~= flush_msgs(lsas@.subrange(0, i as int)).push(
            NetTxMsg::LsaFlush { lsdb_key, lsa, seq_no }));
        assert(net@ =~= net0 + flush_msgs(lsas@.subrange(0, i + 1)));
        i += 1;
    }
    assert(lsas@.subrange(0, i as int) =~= lsas@);
}

/// Asks the forwarding plane to uninstall every installed route of `rib`.
fn uninstall_all(rib: &Vec<RouteNet>, sb: &mut Vec<SouthboundMsg>)
    ensures
        sb_views(final(sb)@) == sb_views(old(sb)@) + uninstall_views(installed_routes(routes_view(rib@))),
{
    let ghost sb0 = sb@;
    let ghost rv = routes_view(rib@);
    let mut i: usize = 0;
    while i < rib.len()
        invariant
            i <= rib@.len(),
            rv == routes_view(rib@),
            sb_views(sb@) == sb_views(sb0) + uninstall_views(installed_routes(rv.subrange(0, i as int))),
        decreases rib@.len() - i,
    {
        assert(rv.subrange(0, i + 1).drop_last() =~= rv.subrange(0, i as int));
        if rib[i].installed {
            let r = rib[i].copy();
            let ghost before = sb@;
            sb.push(SouthboundMsg::RouteUninstall(r));
            assert(sb_views(sb@) =~= sb_views(before).push(sb_view(SouthboundMsg::RouteUninstall(r))));
            assert(uninstall_views(installed_routes(rv.subrange(0, i + 1))) =~= uninstall_views(
                installed_routes(rv.subrange(0, i as int)),
            ).push((false, rv[i as int])));
        }
        assert(sb_views(sb@) =~= sb_views(sb0) + uninstall_views(installed_routes(rv.subrange(0, i + 1))));
        i += 1;
    }
    assert(rv.subrange(0, rib@.len() as int) =~= rv);
}

impl InstanceArenas {
    /// The first area that holds interface `i`.
    pub fn find_area(&self, i: usize) -> (r: Option<usize>)
        ensures
            r == area_of(self.areas@, i, self.areas@.len() as int),
            r matches Some(a) ==> iface_lookup(*self, a, i) is Ok,
    {
        let mut a: usize = 0;
        while a < self.areas.len()
            invariant
                a <= self.areas@.len(),
                area_of(self.areas@, i, a as int) is None,
            decreases self.areas@.len() - a,
        {
            if self.lookup_iface(a, i).is_ok() {
                assert(area_of(self.areas@, i, a + 1) == Some(a));
                proof { lemma_area_of_found(self.areas@, i, a as int, self.areas@.len() as int); }
                return Some(a);
            }
            assert(area_of(self.areas@, i, a + 1) is None);
            a += 1;
        }
        None
    }

    /// Takes the arenas down with the instance: every area's derived state
    /// cleared; every interface that is up and runs the protocol sends the
    /// LS Update it still has queued, then goes down, and so do its
    /// neighbors.
    pub fn stop_all(&mut self, net: &mut Vec<NetTxMsg>)
        requires
            old(self).wf(),
        ensures
            arenas_stopped(*old(self), *final(self)),
            final(net)@ == old(net)@ + lsupd_msgs(old(self).interfaces@),
    {
        let ghost net0 = net@;
        let ghost o = *self;
        let mut a: usize = 0;
        while a < self.areas.len()
            invariant
                a <= self.areas@.len(),
                self.wf(),
                same_shape(o, *self),
                self.interfaces == o.interfaces,
                self.neighbors == o.neighbors,
                forall|b: int| 0 <= b < a ==> (#[trigger] self.areas@[b]).state == (AreaState { transit_capability: false }),
            decreases self.areas@.len() - a,
        {
            self.areas[a].state = AreaState { transit_capability: false };
            a += 1;
        }
        let mut k: usize = 0;
        while k < self.interfaces.len()
            invariant
                k <= self.interfaces@.len(),
                self.wf(),
                same_shape(o, *self),
                forall|b: int| 0 <= b < self.areas@.len() ==> (#[trigger] self.areas@[b]).state == (AreaState { transit_capability: false }),
                forall|i: int| 0 <= i < o.interfaces@.len() ==> if i < k && goes_down(o.interfaces@[i]) {
                    &&& (#[trigger] self.interfaces@[i]).state == IfState::Down
                    &&& self.interfaces@[i].ls_update_pending@.len() == 0
                } else {
                    self.interfaces@[i] == o.interfaces@[i]
                },
                forall|m: int| 0 <= m < o.neighbors@.len() ==> #[trigger] self.neighbors@[m] == if o.neighbors@[m].iface_id < k
                    && goes_down(o.interfaces@[o.neighbors@[m].iface_id as int]) {
                    Neighbor { state: NbrState::Down, ..o.neighbors@[m] }
                } else {
                    o.neighbors@[m]
                },
                net@ == net0 + lsupd_msgs(o.interfaces@.subrange(0, k as int)),
            decreases self.interfaces@.len() - k,
        {
            assert(o.interfaces@.subrange(0, k + 1).drop_last() =~= o.interfaces@.subrange(0, k as int));
            assert(self.interfaces@[k as int] == o.interfaces@[k as int]);
            if !self.interfaces[k].passive && self.interfaces[k].state == IfState::Up {
                let mut pending: Vec<LsaKey> = Vec::new();
                std::mem::swap(&mut pending, &mut self.interfaces[k].ls_update_pending);
                if pending.len() > 0 {
                    net.push(NetTxMsg::LsUpdate { iface_id: k, nbr_id: None, lsas: pending });
                }
                self.interfaces[k].state = IfState::Down;
                let ghost before = *self;
                self.kill_neighbors(k);
                assert forall|m: int| 0 <= m < o.neighbors@.len() implies #[trigger] self.neighbors@[m] == if o.neighbors@[m].iface_id < k + 1
                    && goes_down(o.interfaces@[o.neighbors@[m].iface_id as int]) {
                    Neighbor { state: NbrState::Down, ..o.neighbors@[m] }
                } else {
                    o.neighbors@[m]
                } by {
                    assert(before.neighbors@[m].iface_id == o.neighbors@[m].iface_id);
                    assert(self.neighbors@[m].iface_id == o.neighbors@[m].iface_id);
                    assert(self.neighbors@[m].router_id == o.neighbors@[m].router_id);
                    assert(self.neighbors@[m].addr == o.neighbors@[m].addr);
                }
            }
            assert(net@ =~= net0 + lsupd_msgs(o.interfaces@.subrange(0, k + 1)));
            k += 1;
        }
        assert(o.interfaces@.subrange(0, k as int) =~= o.interfaces@);
    }
}

impl Instance {
    /// Deactivates the instance: flushes every self-originated LSA while the
    /// operational state is still there, uninstalls every installed route,
    /// takes the arenas down, then drops the operational state. Nothing
    /// happens to an inactive instance.
    pub fn stop(&mut self, _reason: InstanceInactiveReason)
        requires
            old(self).wf(),
        ensures
            final(self).wf(),
            old(self).state is None ==> *final(self) == *old(self),
            old(self).state is Some ==> stopped(*old(self), *final(self)),
    {
        if !self.is_active() {
            return;
        }
        if let Some(st) = &self.state {
            flush_all_self_originated(st, &mut self.tx.net);
            uninstall_all(&st.rib, &mut self.tx.sb);
        }
        self.arenas.stop_all(&mut self.tx.net);
        self.state = None;
    }
}

} // verus!

verus! {

impl Instance {
    /// Starts or stops the instance as its readiness asks: starts a ready,
    /// inactive instance, stops an active one that is no longer ready, and
    /// does nothing otherwise. `now_ms` is the current time, in milliseconds
    /// since the Unix epoch.
    pub fn update(&mut self, now_ms: i64)
        requires
            old(self).wf(),
        ensures
            final(self).wf(),
            updated(*old(self), *final(self), now_ms),
            final(self).state is Some <==> readiness(
                old(self).config,
                old(self).arenas.interfaces@.len(),
                router_id_of(old(self).config, old(self).system),
            ) is Ok,
    {
        let router_id = self.get_router_id();
        match self.is_ready(router_id) {
            Ok(()) => {
                if !self.is_active() {
                    self.start(router_id.unwrap(), now_ms);
                }
            },
            Err(reason) => {
                if self.is_active() {
                    self.stop(reason);
                }
            },
        }
    }

    /// Restarts an active instance from a clean slate: a deactivation
    /// followed by a new admission check at `now_ms`. An inactive instance
    /// stays as it is.
    pub fn reset(&mut self, now_ms: i64)
        requires
            old(self).wf(),
        ensures
            final(self).wf(),
            old(self).state is None ==> *final(self) == *old(self),
            old(self).state is Some ==> exists|mid: Instance| #[trigger] stopped(*old(self), mid)
                && updated(mid, *final(self), now_ms),
    {
        if self.is_active() {
            self.stop(InstanceInactiveReason::Resetting);
            let ghost mid = *self;
            self.update(now_ms);
            assert(stopped(*old(self), mid));
        }
    }

    /// Takes the instance down before it goes away.
    pub fn shutdown(&mut self)
        requires
            old(self).wf(),
        ensures
            final(self).wf(),
            old(self).state is None ==> *final(self) == *old(self),
            old(self).state is Some ==> stopped(*old(self), *final(self)),
    {
        self.stop(InstanceInactiveReason::AdminDown);
    }
}

/// Activation idempotence: once `update` has brought the instance in line
/// with its readiness, a second `update` in the same readiness state starts
/// nothing, stops nothing and changes nothing.
pub proof fn lemma_update_idempotent(a: Instance, b: Instance, c: Instance, t1: i64, t2: i64)
    requires
        updated(a, b, t1),
        updated(b, c, t2),
    ensures
        c == b,
{
}

} // verus!

verus! {

/// First area, among the first `n`, that holds interface `i`.
pub open spec fn area_of(areas: Seq<Area>, i: usize, n: int) -> Option<usize>
    decreases n,
{
    if n <= 0 {
        None
    } else {
        match area_of(areas, i, n - 1) {
            Some(a) => Some(a),
            None => if areas[n - 1].interfaces@.contains(i) { Some((n - 1) as usize) } else { None },
        }
    }
}

proof fn lemma_area_of_found(areas: Seq<Area>, i: usize, a: int, m: int)
    requires
        0 <= a < m,
        area_of(areas, i, a + 1) == Some(a as usize),
    ensures
        area_of(areas, i, m) == Some(a as usize),
    decreases m,
{
    if m > a + 1 {
        lemma_area_of_found(areas, i, a, m - 1);
    }
}

/// Whether a BFD session down at address `key` kills neighbor `nb`: it is
/// at that address and its interface belongs to an area.
pub open spec fn bfd_kills(ar: InstanceArenas, nb: Neighbor, key: u32) -> bool {
    nb.addr == key && area_of(ar.areas@, nb.iface_id, ar.areas@.len() as int) is Some
}

/// The origination events that killing the first `n` neighbors at `key`
/// queues: one for each of them that was full.
pub open spec fn bfd_msgs(ar: InstanceArenas, key: u32, n: int) -> Seq<ProtocolInputMsg>
    decreases n,
{
    if n <= 0 {
        Seq::empty()
    } else {
        let p = bfd_msgs(ar, key, n - 1);
        let nb = ar.neighbors@[n - 1];
        if bfd_kills(ar, nb, key) && nb.state == NbrState::Full {
            p.push(ProtocolInputMsg::LsaOrigEvent {
                event: LsaOriginateEvent::NeighborToFromFull {
                    area_id: area_of(ar.areas@, nb.iface_id, ar.areas@.len() as int)->Some_0,
                    iface_id: nb.iface_id,
                },
            })
        } else {
            p
        }
    }
}

/// The first `n` neighbors at `key` went through the neighbor state
/// machine's kill event.
pub open spec fn bfd_down_prefix(old: Instance, new: Instance, key: u32, n: int) -> bool {
    &&& new.state == old.state
    &&& new.name == old.name && new.system == old.system && new.config == old.config
    &&& new.tx.sb == old.tx.sb && new.tx.net == old.tx.net && new.tx.timers == old.tx.timers
    &&& new.arenas.areas == old.arenas.areas
    &&& new.arenas.interfaces == old.arenas.interfaces
    &&& new.arenas.neighbors@.len() == old.arenas.neighbors@.len()
    &&& forall|m: int| 0 <= m < old.arenas.neighbors@.len() ==> #[trigger] new.arenas.neighbors@[m]
        == if m < n && bfd_kills(old.arenas, old.arenas.neighbors@[m], key) {
            Neighbor { state: NbrState::Down, ..old.arenas.neighbors@[m] }
        } else {
            old.arenas.neighbors@[m]
        }
    &&& new.tx.protocol_input.sent@ == old.tx.protocol_input.sent@ + bfd_msgs(old.arenas, key, n)
}

/// Effect of a BFD session going down at address `key`.
pub open spec fn bfd_down_applied(old: Instance, new: Instance, key: u32) -> bool {
    bfd_down_prefix(old, new, key, old.arenas.neighbors@.len() as int)
}

proof fn lemma_bfd_step(o: Instance, mid: Instance, new: Instance, key: u32, n: int)
    requires
        0 <= n < o.arenas.neighbors@.len(),
        n <= usize::MAX,
        bfd_down_prefix(o, mid, key, n),
        if bfd_kills(o.arenas, o.arenas.neighbors@[n], key) {
            let a = area_of(o.arenas.areas@, o.arenas.neighbors@[n].iface_id, o.arenas.areas@.len() as int)->Some_0;
            nsm_applied(mid, new, a, o.arenas.neighbors@[n].iface_id, n as usize, NsmEvent::Kill)
        } else {
            new == mid
        },
    ensures
        bfd_down_prefix(o, new, key, n + 1),
{
    assert(mid.arenas.neighbors@[n] == o.arenas.neighbors@[n]);
    let nu = n as usize;
    assert(nu as int == n);
    let p = bfd_msgs(o.arenas, key, n);
    let nb = o.arenas.neighbors@[n];
    if bfd_kills(o.arenas, nb, key) {
        let a = area_of(o.arenas.areas@, nb.iface_id, o.arenas.areas@.len() as int)->Some_0;
        assert(nsm_applied(mid, new, a, nb.iface_id, nu, NsmEvent::Kill));
        assert(mid.arenas.neighbors@[nu as int] == nb);
        if nb.state == NbrState::Full {
            assert(bfd_msgs(o.arenas, key, n + 1) == p.push(ProtocolInputMsg::LsaOrigEvent {
                event: LsaOriginateEvent::NeighborToFromFull { area_id: a, iface_id: nb.iface_id },
            }));
        } else {
            assert(bfd_msgs(o.arenas, key, n + 1) == p);
        }
        assert(new.tx.protocol_input.sent@ =~= o.tx.protocol_input.sent@ + bfd_msgs(o.arenas, key, n + 1));
    } else {
        assert(bfd_msgs(o.arenas, key, n + 1) == p);
    }
}

/// A handler's result as the dispatcher returns it.
pub open spec fn no_spf(r: Result<(), Error>) -> Result<Option<SpfOutcome>, Error> {
    match r {
        Ok(_) => Ok(None),
        Err(e) => Err(e),
    }
}

/// Lookup done for a send request: the neighbor's, or the interface's.
pub open spec fn send_lookup(ar: InstanceArenas, a: usize, i: usize, nbr: Option<usize>) -> Result<(), Error> {
    match nbr {
        Some(n) => nbr_lookup(ar, a, i, n),
        None => iface_lookup(ar, a, i),
    }
}

/// Effect of one input message on an active instance, with the
/// dispatcher's result `r`.
pub open spec fn dispatched(old: Instance, new: Instance, msg: ProtocolInputMsg, r: Result<Option<SpfOutcome>, Error>) -> bool {
    match msg {
        ProtocolInputMsg::IsmEvent { area_key, iface_key, event } =>
            r == no_spf(iface_lookup(old.arenas, area_key, iface_key))
            && (r is Ok ==> ism_applied(old, new, area_key, iface_key, event)),
        ProtocolInputMsg::NsmEvent { area_key, iface_key, nbr_key, event } =>
            r == no_spf(nbr_lookup(old.arenas, area_key, iface_key, nbr_key))
            && (r is Ok ==> nsm_applied(old, new, area_key, iface_key, nbr_key, event)),
        ProtocolInputMsg::NetRxPacket { area_key, iface_key, .. } =>
            r == no_spf(iface_lookup(old.arenas, area_key, iface_key)) && new == old,
        ProtocolInputMsg::DbDescFree { area_key, iface_key, nbr_key } =>
            r == no_spf(nbr_lookup(old.arenas, area_key, iface_key, nbr_key)) && new == old,
        ProtocolInputMsg::SendLsUpdate { area_key, iface_key, nbr_key } =>
            r == no_spf(send_lookup(old.arenas, area_key, iface_key, nbr_key))
            && (r is Ok ==> send_lsupd_applied(old, new, iface_key, nbr_key)),
        ProtocolInputMsg::RxmtInterval { area_key, iface_key, nbr_key, packet_type } =>
            r == no_spf(nbr_lookup(old.arenas, area_key, iface_key, nbr_key))
            && (r is Ok ==> packet_timer_applied(old, new, iface_key, Some(nbr_key), packet_type)),
        ProtocolInputMsg::DelayedAck { area_key, iface_key } =>
            r == no_spf(iface_lookup(old.arenas, area_key, iface_key))
            && (r is Ok ==> packet_timer_applied(old, new, iface_key, None, PacketType::LsAck)),
        ProtocolInputMsg::LsaOrigEvent { event } =>
            r == no_spf(orig_event_lookup(old.arenas, event))
            && (r is Ok ==> orig_event_applied(old, new, event)),
        ProtocolInputMsg::LsaOrigCheck { lsdb_key, lsa_key, lsa_body } =>
            r == no_spf(lsdb_lookup(old.arenas, lsdb_key))
            && (r is Ok ==> orig_check_applied(old, new, lsdb_key, lsa_key, lsa_body@)),
        ProtocolInputMsg::LsaOrigDelayed { lsdb_key, .. } =>
            r == no_spf(lsdb_lookup(old.arenas, lsdb_key))
            && (r is Ok ==> orig_delayed_applied(old, new, lsdb_key)),
        ProtocolInputMsg::LsaFlush { lsdb_key, lse_key, .. } =>
            r == no_spf(lse_lookup(old.arenas, st(old), lsdb_key, lse_key))
            && (r is Ok ==> flush_applied(old, new, lsdb_key, lse_key)),
        ProtocolInputMsg::LsaRefresh { lsdb_key, lse_key } =>
            r == no_spf(refresh_lookup(old.arenas, st(old), lsdb_key, lse_key))
            && (r is Ok ==> refresh_applied(old, new, lsdb_key, lse_key)),
        ProtocolInputMsg::LsdbMaxAgeSweep { lsdb_key } =>
            r == no_spf(lsdb_lookup(old.arenas, lsdb_key))
            && (r is Ok ==> sweep_applied(old, new, lsdb_key)),
        ProtocolInputMsg::SpfDelayEvent { event } =>
            r matches Ok(Some(out)) && spf_event_applied(old, new, event, out),
    }
}

proof fn lemma_mark_installed_unique(s: Seq<RouteModel>)
    requires
        unique_dests(s),
    ensures
        unique_dests(mark_installed(s)),
{
    let m = mark_installed(s);
    assert forall|i: int, j: int| 0 <= i < j < m.len() implies !same_dest(#[trigger] m[i], #[trigger] m[j]) by {
        assert(!same_dest(s[i], s[j]));
    }
}

/// Routes as they stand once handed to the forwarding plane.
pub open spec fn mark_installed(s: Seq<RouteModel>) -> Seq<RouteModel> {
    s.map_values(|r: RouteModel| RouteModel { installed: true, ..r })
}

impl Instance {
    /// Processes one input message, to completion, and returns the
    /// handler's result. An inactive instance ignores them all. For an SPF
    /// delay event the result says whether SPF must run now and what to do
    /// with each SPF timer.
    pub fn process_protocol_msg(&mut self, msg: ProtocolInputMsg) -> (r: Result<Option<SpfOutcome>, Error>)
        requires
            old(self).wf(),
        ensures
            final(self).wf(),
            old(self).state is None ==> *final(self) == *old(self) && r == Ok::<Option<SpfOutcome>, Error>(None),
            old(self).state is Some ==> final(self).state is Some,
            old(self).state is Some ==> dispatched(*old(self), *final(self), msg, r),
    {
        if !self.is_active() {
            return Ok(None);
        }
        match msg {
            ProtocolInputMsg::IsmEvent { area_key, iface_key, event } => {
                self.process_ism_event(area_key, iface_key, event)?;
            },
            ProtocolInputMsg::NsmEvent { area_key, iface_key, nbr_key, event } => {
                self.process_nsm_event(area_key, iface_key, nbr_key, event)?;
            },
            ProtocolInputMsg::NetRxPacket { area_key, iface_key, .. } => {
                // Decoding and handling the packet is up to the packet layer;
                // the instance only checks that the interface is known.
                self.arenas.lookup_iface(area_key, iface_key)?;
            },
            ProtocolInputMsg::DbDescFree { area_key, iface_key, nbr_key } => {
                self.arenas.lookup_nbr(area_key, iface_key, nbr_key)?;
            },
            ProtocolInputMsg::SendLsUpdate { area_key, iface_key, nbr_key } => {
                self.process_send_lsupd(area_key, iface_key, nbr_key)?;
            },
            ProtocolInputMsg::RxmtInterval { area_key, iface_key, nbr_key, packet_type } => {
                self.process_packet_timer(area_key, iface_key, Some(nbr_key), packet_type)?;
            },
            ProtocolInputMsg::DelayedAck { area_key, iface_key } => {
                self.process_packet_timer(area_key, iface_key, None, PacketType::LsAck)?;
            },
            ProtocolInputMsg::LsaOrigEvent { event } => {
                self.process_lsa_orig_event(event)?;
            },
            ProtocolInputMsg::LsaOrigCheck { lsdb_key, lsa_key, lsa_body } => {
                self.process_lsa_orig_check(lsdb_key, lsa_key, lsa_body)?;
            },
            ProtocolInputMsg::LsaOrigDelayed { lsdb_key, .. } => {
                self.process_lsa_orig_delayed(lsdb_key)?;
            },
            ProtocolInputMsg::LsaFlush { lsdb_key, lse_key, .. } => {
                self.process_lsa_flush(lsdb_key, lse_key)?;
            },
            ProtocolInputMsg::LsaRefresh { lsdb_key, lse_key } => {
                self.process_lsa_refresh(lsdb_key, lse_key)?;
            },
            ProtocolInputMsg::LsdbMaxAgeSweep { lsdb_key } => {
                self.process_lsdb_maxage_sweep(lsdb_key)?;
            },
            ProtocolInputMsg::SpfDelayEvent { event } => {
                let out = self.process_spf_delay_event(event);
                return Ok(Some(out));
            },
        }
        Ok(None)
    }
}

} // verus!

verus! {

/// Hands `routes` to the forwarding plane, in order: to install when
/// `install`, else to uninstall.
fn push_route_msgs(sb: &mut Vec<SouthboundMsg>, routes: Vec<RouteNet>, install: bool)
    ensures
        sb_views(final(sb)@) == sb_views(old(sb)@) + if install {
            install_views(routes_view(routes@))
        } else {
            uninstall_views(routes_view(routes@))
        },
{
    let ghost sb0 = sb@;
    let ghost rv = routes_view(routes@);
    let mut routes = routes;
    let total = routes.len();
    let mut k: usize = 0;
    while routes.len() > 0
        invariant
            rv.len() == total,
            routes@.len() + k == rv.len(),
            routes_view(routes@) == rv.subrange(k as int, rv.len() as int),
            sb_views(sb@) == sb_views(sb0) + if install {
                install_views(rv.subrange(0, k as int))
            } else {
                uninstall_views(rv.subrange(0, k as int))
            },
        decreases routes@.len(),
    {
        let ghost rb = routes@;
        let r = routes.remove(0);
        assert(routes@ =~= rb.subrange(1, rb.len() as int));
        assert(routes_view(rb)[0] == r@);
        assert(rv[k as int] == r@);
        let ghost before = sb@;
        if install {
            sb.push(SouthboundMsg::RouteInstall(r));
        } else {
            sb.push(SouthboundMsg::RouteUninstall(r));
        }
        assert(sb_views(sb@) =~= sb_views(before).push((install, r@)));
        assert(rv.subrange(0, k + 1) =~= rv.subrange(0, k as int).push(r@));
        assert(install_views(rv.subrange(0, k + 1)) =~= install_views(rv.subrange(0, k as int)).push((true, r@)));
        assert(uninstall_views(rv.subrange(0, k + 1)) =~= uninstall_views(rv.subrange(0, k as int)).push((false, r@)));
        assert forall|j: int| 0 <= j < routes@.len() implies #[trigger] routes_view(routes@)[j]
            == rv.subrange(k + 1, rv.len() as int)[j] by {
            assert(routes@[j] == rb[j + 1]);
            assert(routes_view(rb)[j + 1] == rv.subrange(k as int, rv.len() as int)[j + 1]);
        }
        assert(routes_view(routes@) =~= rv.subrange(k + 1, rv.len() as int));
        k += 1;
    }
    assert(rv.subrange(0, k as int) =~= rv);
}

/// Copies of `routes`, each marked as installed.
fn installed_copy(routes: &Vec<RouteNet>) -> (rib: Vec<RouteNet>)
    ensures
        routes_view(rib@) == mark_installed(routes_view(routes@)),
{
    let mut rib: Vec<RouteNet> = Vec::new();
    let mut i: usize = 0;
    while i < routes.len()
        invariant
            i <= routes@.len(),
            routes_view(rib@) == mark_installed(routes_view(routes@)).subrange(0, i as int),
        decreases routes@.len() - i,
    {
        let mut c = routes[i].copy();
        c.installed = true;
        assert(c@ == RouteModel { installed: true, ..routes@[i as int]@ });
        let ghost rb = rib@;
        let ghost cv = c;
        assert(routes_view(rb).len() == rb.len());
        assert(rb.len() == i);
        rib.push(c);
        assert(rib@ == rb.push(cv));
        assert forall|m: int| 0 <= m <= i implies #[trigger] routes_view(rib@)[m]
            == mark_installed(routes_view(routes@)).subrange(0, i + 1)[m] by {
            if m < i {
                assert(rib@[m] == rb[m]);
                assert(routes_view(rb)[m] == mark_installed(routes_view(routes@)).subrange(0, i as int)[m]);
            } else {
                assert(rib@[m] == cv);
            }
        }
        assert(routes_view(rib@) =~= mark_installed(routes_view(routes@)).subrange(0, i + 1));
        i += 1;
    }
    assert(routes_view(rib@) =~= mark_installed(routes_view(routes@)));
    rib
}

impl Instance {
    /// Completes an SPF run with the routing table that the shortest-path
    /// computation produced: the forwarding plane gets only the changes
    /// (installs first, then uninstalls), the new table replaces the old
    /// one, every accumulated trigger is consumed at once, and the run is
    /// logged with the computation's duration; `now_ms` becomes the time of
    /// the last run. An inactive instance, or a table with two routes to one
    /// destination, is refused and nothing changes.
    pub fn spf_run(&mut self, routes: Vec<RouteNet>, now_ms: i64, duration_ms: u64) -> (r: Result<(), Error>)
        requires
            old(self).wf(),
        ensures
            final(self).wf(),
            r == if old(self).state is None {
                Err(Error::InstanceInactive)
            } else if !unique_dests(routes_view(routes@)) {
                Err(Error::DuplicateRoute)
            } else {
                Ok::<(), Error>(())
            },
            r is Err ==> *final(self) == *old(self),
            r is Ok ==> {
                let (s0, s1) = (st(*old(self)), st(*final(self)));
                let ins = route_installs(routes_view(s0.rib@), routes_view(routes@));
                let outs = route_uninstalls(routes_view(s0.rib@), routes_view(routes@));
                &&& sb_views(final(self).tx.sb@) == sb_views(old(self).tx.sb@) + install_views(ins) + uninstall_views(outs)
                &&& routes_view(s1.rib@) == mark_installed(routes_view(routes@))
                &&& s1.spf_trigger_lsas@.len() == 0
                &&& log_pushed(s0.spf_log, s1.spf_log, SpfLogEntry {
                    trigger_lsas: s0.spf_trigger_lsas,
                    duration_ms,
                    installs: ins.len() as usize,
                    uninstalls: outs.len() as usize,
                })
                &&& s1 == InstanceState {
                    rib: s1.rib,
                    spf_trigger_lsas: s1.spf_trigger_lsas,
                    spf_log: s1.spf_log,
                    spf_last_time: Some(now_ms),
                    ..s0
                }
                &&& final(self).arenas == old(self).arenas
                &&& final(self).tx.protocol_input == old(self).tx.protocol_input
                &&& final(self).tx.net == old(self).tx.net
                &&& final(self).tx.timers == old(self).tx.timers
            },
    {
        if !crate::route::dests_unique(&routes) {
            return if self.state.is_none() { Err(Error::InstanceInactive) } else { Err(Error::DuplicateRoute) };
        }
        match &mut self.state {
            None => Err(Error::InstanceInactive),
            Some(st) => {
                let (installs, uninstalls) = crate::route::route_delta(&st.rib, &routes);
                let n_installs = installs.len();
                let n_uninstalls = uninstalls.len();
                push_route_msgs(&mut self.tx.sb, installs, true);
                push_route_msgs(&mut self.tx.sb, uninstalls, false);
                let rib = installed_copy(&routes);
                st.rib = rib;
                let mut triggers: Vec<SpfTriggerLsa> = Vec::new();
                std::mem::swap(&mut triggers, &mut st.spf_trigger_lsas);
                st.spf_log.push(SpfLogEntry { trigger_lsas: triggers, duration_ms, installs: n_installs, uninstalls: n_uninstalls });
                st.spf_last_time = Some(now_ms);
                proof { lemma_mark_installed_unique(routes_view(routes@)); }
                Ok(())
            },
        }
    }

    /// Processes a message of the internal bus, whether the instance is
    /// active or not. A Segment Routing change of an active instance with
    /// Segment Routing enabled asks for LSAs to be originated again; a BFD
    /// session that went down takes down the neighbors at its address.
    /// Other messages are ignored.
    pub fn process_ibus_msg(&mut self, msg: IbusMsg)
        requires
            old(self).wf(),
        ensures
            final(self).wf(),
            match msg {
                IbusMsg::SrCfgEvent(ev) => {
                    let applies = old(self).state is Some && old(self).config.sr_enabled && match ev {
                        SrCfgEvent::LabelRangeUpdate => true,
                        SrCfgEvent::PrefixSidUpdate(af) => af == st(*old(self)).af,
                    };
                    if applies {
                        &&& final(self).tx.protocol_input.sent@ == old(self).tx.protocol_input.sent@.push(
                            ProtocolInputMsg::LsaOrigEvent { event: LsaOriginateEvent::SrCfgChange })
                        &&& final(self).state == old(self).state
                        &&& final(self).arenas == old(self).arenas
                        &&& final(self).tx.sb == old(self).tx.sb && final(self).tx.net == old(self).tx.net
                        &&& final(self).tx.timers == old(self).tx.timers
                    } else {
                        *final(self) == *old(self)
                    }
                },
                IbusMsg::BfdStateUpd { sess_key, state } => if state == BfdState::Down && old(self).state is Some {
                    bfd_down_applied(*old(self), *final(self), sess_key)
                } else {
                    *final(self) == *old(self)
                },
                _ => *final(self) == *old(self),
            },
    {
        match msg {
            IbusMsg::SrCfgEvent(ev) => {
                let applies = match &self.state {
                    Some(st) => self.config.sr_enabled && match ev {
                        SrCfgEvent::LabelRangeUpdate => true,
                        SrCfgEvent::PrefixSidUpdate(af) => af == st.af,
                    },
                    None => false,
                };
                if applies {
                    self.tx.protocol_input.lsa_orig_event(LsaOriginateEvent::SrCfgChange);
                }
            },
            IbusMsg::BfdStateUpd { sess_key, state } => {
                if state == BfdState::Down && self.is_active() {
                    let ghost o = *old(self);
                    let mut n: usize = 0;
                    while n < self.arenas.neighbors.len()
                        invariant
                            n <= self.arenas.neighbors@.len(),
                            o == *old(self),
                            o.state is Some,
                            self.wf(),
                            bfd_down_prefix(o, *self, sess_key, n as int),
                        decreases self.arenas.neighbors@.len() - n,
                    {
                        let ghost mid = *self;
                        if self.arenas.neighbors[n].addr == sess_key {
                            let i = self.arenas.neighbors[n].iface_id;
                            if let Some(a) = self.arenas.find_area(i) {
                                let r = self.process_nsm_event(a, i, n, NsmEvent::Kill);
                                assert(r is Ok);
                            }
                        }
                        proof { lemma_bfd_step(o, mid, *self, sess_key, n as int); }
                        n += 1;
                    }
                }
            },
            _ => {},
        }
    }
}

} // verus!

verus! {

/// Delta minimality across runs: once an SPF run has installed `routes`
/// (its table is then `mark_installed(routes)`), a run that recomputes the
/// same routes installs nothing and uninstalls nothing.
pub proof fn lemma_spf_rerun_unchanged(routes: Seq<RouteModel>)
    ensures
        route_installs(mark_installed(routes), routes).len() == 0,
        route_uninstalls(mark_installed(routes), routes).len() == 0,
{
    let old = mark_installed(routes);
    assert forall|i: int| 0 <= i < old.len() implies crate::route::same_route(#[trigger] old[i], routes[i]) by {
        assert(old[i].nexthops == routes[i].nexthops);
    }
    crate::route::lemma_route_delta_unchanged(old, routes);
}

} // verus!

verus! {

/// Deactivation completeness: deactivating an instance that holds N
/// installed routes and M self-originated LSAs makes exactly N requests to
/// the forwarding plane, each an uninstall, and floods exactly M flushes,
/// one per self-originated LSA with its database, key and sequence number,
/// before the LS Updates still queued; it leaves no operational state, and
/// every interface that runs the protocol down, as in an instance that
/// never started, with the configuration kept.
pub proof fn lemma_deactivation_complete(old: Instance, new: Instance)
    requires
        old.state is Some,
        stopped(old, new),
    ensures
        ({
            let st = old.state->Some_0;
            let n = installed_routes(routes_view(st.rib@)).len();
            let m = self_originated_count(st.lsdb.entries@) as int;
            let l = old.tx.net@.len() as int;
            &&& new.tx.sb@.len() == old.tx.sb@.len() + n
            &&& forall|k: int| old.tx.sb@.len() <= k < new.tx.sb@.len()
                ==> (#[trigger] new.tx.sb@[k]) is RouteUninstall
            &&& new.tx.net@.subrange(l, l + m) == flush_msgs(self_originated_list(st.lsdb.entries@))
            &&& forall|k: int| l + m <= k < new.tx.net@.len() ==> (#[trigger] new.tx.net@[k]) is LsUpdate
        }),
        new.state is None,
        arenas_at_rest(new.arenas),
        new.config == old.config,
        new.system == old.system,
{
    let st = old.state->Some_0;
    let u = uninstall_views(installed_routes(routes_view(st.rib@)));
    assert(sb_views(new.tx.sb@).len() == new.tx.sb@.len());
    assert forall|k: int| old.tx.sb@.len() <= k < new.tx.sb@.len()
        implies (#[trigger] new.tx.sb@[k]) is RouteUninstall by {
        assert(sb_views(new.tx.sb@)[k] == u[k - old.tx.sb@.len()]);
        assert(sb_view(new.tx.sb@[k]).0 == false);
    }
    lemma_self_originated_count(st.lsdb.entries@);
    let f = flush_msgs(self_originated_list(st.lsdb.entries@));
    let l = old.tx.net@.len() as int;
    assert(new.tx.net@.subrange(l, l + f.len() as int) =~= f);
    lemma_lsupd_msgs(old.arenas.interfaces@);
    assert forall|k: int| l + f.len() <= k < new.tx.net@.len() implies (#[trigger] new.tx.net@[k]) is LsUpdate by {
        assert(new.tx.net@[k] == lsupd_msgs(old.arenas.interfaces@)[k - l - f.len()]);
    }
    assert forall|k: int| 0 <= k < new.arenas.interfaces@.len() && !(#[trigger] new.arenas.interfaces@[k]).passive
        implies new.arenas.interfaces@[k].state == IfState::Down by {
        assert(new.arenas.interfaces@[k].passive == old.arenas.interfaces@[k].passive);
    }
}

proof fn lemma_lsupd_msgs(ifaces: Seq<Interface>)
    ensures
        forall|k: int| 0 <= k < lsupd_msgs(ifaces).len() ==> (#[trigger] lsupd_msgs(ifaces)[k]) is LsUpdate,
    decreases ifaces.len(),
{
    if ifaces.len() > 0 {
        lemma_lsupd_msgs(ifaces.drop_last());
        let p = lsupd_msgs(ifaces.drop_last());
        assert forall|k: int| 0 <= k < lsupd_msgs(ifaces).len() implies (#[trigger] lsupd_msgs(ifaces)[k]) is LsUpdate by {
            if k < p.len() {
                assert(lsupd_msgs(ifaces)[k] == p[k]);
            }
        }
    }
}

} // verus!

verus! {

proof fn lemma_burst_prefix(insts: Seq<Instance>, outs: Seq<SpfOutcome>, j: int)
    requires
        1 <= j,
        j < insts.len(),
        j <= outs.len(),
        insts[0].state is Some,
        st(insts[0]).spf_delay == spf_quiet(),
        forall|m: int| 0 <= m < j ==> spf_event_applied(#[trigger] insts[m], insts[m + 1], SpfEvent::Igp, outs[m]),
    ensures
        st(insts[j]).spf_delay.state == SpfState::ShortWait,
        st(insts[j]).spf_delay.delay_timer == Some(insts[0].config.spf_initial_delay),
        st(insts[j]).spf_trigger_lsas == st(insts[0]).spf_trigger_lsas,
        st(insts[j]).spf_log == st(insts[0]).spf_log,
        insts[j].state is Some,
        insts[j].config == insts[0].config,
        insts[j].tx == insts[0].tx,
        insts[j].arenas == insts[0].arenas,
        forall|m: int| 0 <= m < j ==> !(#[trigger] outs[m]).run,
        outs[0].timers.delay == TimerAction::Start(insts[0].config.spf_initial_delay),
        forall|m: int| 1 <= m < j ==> (#[trigger] outs[m]).timers.delay == TimerAction::Keep,
    decreases j,
{
    assert(spf_event_applied(insts[j - 1], insts[j], SpfEvent::Igp, outs[j - 1]));
    if j > 1 {
        lemma_burst_prefix(insts, outs, j - 1);
    }
}

/// Damping law, through the dispatcher: starting quiet, a burst of `k >= 1`
/// SPF triggers (`insts[m + 1]` is `insts[m]` after the `m`-th) asks for no
/// run and starts the delay timer once, with the initial delay, then keeps
/// it; the burst leaves the accumulated triggers and the SPF log alone; the
/// delay timer's expiry then asks for exactly one run, which `spf_run`
/// completes with all the accumulated triggers in one log record.
pub proof fn lemma_spf_burst_one_run(insts: Seq<Instance>, outs: Seq<SpfOutcome>, k: int)
    requires
        k >= 1,
        insts.len() == k + 2,
        outs.len() == k + 1,
        insts[0].state is Some,
        st(insts[0]).spf_delay == spf_quiet(),
        forall|m: int| 0 <= m < k ==> spf_event_applied(#[trigger] insts[m], insts[m + 1], SpfEvent::Igp, outs[m]),
        spf_event_applied(insts[k], insts[k + 1], SpfEvent::DelayTimer, outs[k]),
    ensures
        forall|m: int| 0 <= m < k ==> !(#[trigger] outs[m]).run,
        outs[k].run,
        outs[0].timers.delay == TimerAction::Start(insts[0].config.spf_initial_delay),
        forall|m: int| 1 <= m < k ==> (#[trigger] outs[m]).timers.delay == TimerAction::Keep,
        st(insts[k + 1]).spf_trigger_lsas == st(insts[0]).spf_trigger_lsas,
        st(insts[k + 1]).spf_log == st(insts[0]).spf_log,
{
    lemma_burst_prefix(insts, outs, k);
}

} // verus!
