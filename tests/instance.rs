use ospf_core::channels::{
    protocol_input_channels, IsmEvent, LsaOriginateEvent, NsmEvent, PacketType,
    ProtocolInputChannelsRx, ProtocolInputMsg,
};
use ospf_core::ibus::{AddressFamily, BfdState, IbusMsg, SrCfgEvent};
use ospf_core::instance::{
    Area, AreaState, Error, IfState, Instance, InstanceChannelsTx, InstanceInactiveReason,
    Interface, NbrState, Neighbor, NetTxMsg, SouthboundMsg, TimerRequest, DFLT_SPF_INITIAL_DELAY,
};
use ospf_core::lsdb::{LsaKey, LsdbId};
use ospf_core::route::{PathType, RouteNet};
use ospf_core::spf::{SpfEvent, TimerAction};

const RID: u32 = 0x0101_0101;

fn new_instance() -> (Instance, ProtocolInputChannelsRx) {
    let (tx, rx) = protocol_input_channels();
    let tx = InstanceChannelsTx { protocol_input: tx, sb: Vec::new(), net: Vec::new(), timers: Vec::new() };
    (Instance::new("ospfv2".to_string(), tx), rx)
}

fn add_iface(inst: &mut Instance, name: &str) -> usize {
    inst.arenas.interfaces.push(Interface {
        name: name.to_string(),
        enabled: true,
        passive: false,
        state: IfState::Down,
        ls_update_pending: Vec::new(),
    });
    inst.arenas.interfaces.len() - 1
}

fn add_area(inst: &mut Instance, area_id: u32, ifaces: Vec<usize>) {
    inst.arenas.areas.push(Area {
        area_id,
        interfaces: ifaces,
        state: AreaState { transit_capability: false },
    });
}

fn route(prefix: u32, cost: u32) -> RouteNet {
    RouteNet {
        prefix,
        prefix_len: 24,
        path_type: PathType::IntraArea,
        cost,
        nexthops: vec![0x0a00_0001],
        installed: false,
    }
}

/// Moves what the instance sent to its input channels, then processes
/// every queued input; returns how many SPF runs were due.
fn drain(inst: &mut Instance, rx: &mut ProtocolInputChannelsRx, routes: &[RouteNet]) -> usize {
    let mut runs = 0;
    loop {
        assert!(rx.forward(&mut inst.tx.protocol_input).is_empty());
        // The delayed-origination timers fire.
        for TimerRequest::LsaOrigDelay { lsdb_key, lsa_key } in std::mem::take(&mut inst.tx.timers) {
            assert!(rx.send(ProtocolInputMsg::LsaOrigDelayed { lsdb_key, lsa_key }));
        }
        match rx.recv() {
            None => return runs,
            Some(m) => {
                if let Some(out) = inst.process_protocol_msg(m).unwrap() {
                    if out.run {
                        runs += 1;
                        let rs: Vec<RouteNet> = routes.iter().map(|r| r.copy()).collect();
                        assert_eq!(inst.spf_run(rs, 1000, 3), Ok(()));
                    }
                }
            }
        }
    }
}

#[test]
fn end_to_end_enable_then_disable() {
    let (mut inst, mut rx) = new_instance();
    let eth0 = add_iface(&mut inst, "eth0");
    add_area(&mut inst, 0, vec![eth0]);
    inst.config.enabled = false;
    inst.update(0);
    assert!(!inst.is_active());

    inst.config.enabled = true;
    inst.config.router_id = Some(RID);
    inst.update(0);
    assert!(inst.is_active());
    let sent = &inst.tx.protocol_input.sent;
    assert_eq!(sent.len(), 2);
    assert!(matches!(
        sent[0],
        ProtocolInputMsg::IsmEvent { area_key: 0, iface_key: 0, event: IsmEvent::InterfaceUp }
    ));
    assert!(matches!(
        sent[1],
        ProtocolInputMsg::LsaOrigEvent { event: LsaOriginateEvent::AreaStart { area_id: 0 } }
    ));

    // Run everything queued, then let the SPF delay timer fire.
    let routes = vec![route(0x0a01_0000, 10)];
    assert_eq!(drain(&mut inst, &mut rx, &routes), 0);
    assert_eq!(inst.arenas.interfaces[eth0].state, IfState::Up);
    let st = inst.state.as_ref().unwrap();
    assert_eq!(st.lsdb.entries.len(), 1);
    assert!(st.lsdb.entries[0].self_originated);
    assert_eq!(st.lsdb.entries[0].body, vec![1u8]);
    assert_eq!(st.orig_lsa_count, 1);
    assert!(rx.send(ProtocolInputMsg::SpfDelayEvent { event: SpfEvent::DelayTimer }));
    assert_eq!(drain(&mut inst, &mut rx, &routes), 1);
    assert_eq!(inst.tx.sb.len(), 1);
    assert!(matches!(inst.tx.sb[0], SouthboundMsg::RouteInstall(ref r) if r.prefix == 0x0a01_0000));

    let net_before = inst.tx.net.len();
    inst.config.enabled = false;
    inst.update(0);
    assert!(!inst.is_active());
    assert_eq!(inst.tx.sb.len(), 2);
    assert!(matches!(inst.tx.sb[1], SouthboundMsg::RouteUninstall(ref r) if r.prefix == 0x0a01_0000));
    let flushes: Vec<&NetTxMsg> = inst.tx.net[net_before..]
        .iter()
        .filter(|m| matches!(m, NetTxMsg::LsaFlush { .. }))
        .collect();
    assert_eq!(flushes.len(), 1);
    assert!(matches!(
        flushes[0],
        NetTxMsg::LsaFlush { lsdb_key: LsdbId::Area(0), lsa, .. } if lsa.adv_rtr == RID
    ));
    assert_eq!(inst.arenas.interfaces[eth0].state, IfState::Down);
}

#[test]
fn update_twice_is_idempotent() {
    let (mut inst, _rx) = new_instance();
    let eth0 = add_iface(&mut inst, "eth0");
    add_area(&mut inst, 0, vec![eth0]);
    inst.system.router_id = Some(RID);
    inst.update(0);
    assert!(inst.is_active());
    let sent = inst.tx.protocol_input.sent.len();
    inst.update(0);
    assert!(inst.is_active());
    assert_eq!(inst.tx.protocol_input.sent.len(), sent);

    inst.config.enabled = false;
    inst.update(0);
    let (sb, net) = (inst.tx.sb.len(), inst.tx.net.len());
    inst.update(0);
    assert!(!inst.is_active());
    assert_eq!((inst.tx.sb.len(), inst.tx.net.len()), (sb, net));
}

#[test]
fn readiness_conditions() {
    let (mut inst, _rx) = new_instance();
    assert_eq!(inst.is_ready(Some(RID)), Err(InstanceInactiveReason::AdminDown));
    add_iface(&mut inst, "eth0");
    assert_eq!(inst.is_ready(None), Err(InstanceInactiveReason::MissingRouterId));
    assert_eq!(inst.is_ready(Some(RID)), Ok(()));
    inst.config.enabled = false;
    assert_eq!(inst.is_ready(Some(RID)), Err(InstanceInactiveReason::AdminDown));
}

#[test]
fn configured_router_id_wins() {
    let (mut inst, _rx) = new_instance();
    assert_eq!(inst.get_router_id(), None);
    inst.system.router_id = Some(2);
    assert_eq!(inst.get_router_id(), Some(2));
    inst.config.router_id = Some(7);
    assert_eq!(inst.get_router_id(), Some(7));
}

#[test]
fn deactivation_uninstalls_and_flushes_everything() {
    let (mut inst, mut rx) = new_instance();
    let eth0 = add_iface(&mut inst, "eth0");
    let eth1 = add_iface(&mut inst, "eth1");
    add_area(&mut inst, 0, vec![eth0]);
    add_area(&mut inst, 1, vec![eth1]);
    inst.config.router_id = Some(RID);
    inst.update(0);
    let routes = vec![route(0x0a01_0000, 10), route(0x0a02_0000, 20)];
    drain(&mut inst, &mut rx, &routes);
    assert!(rx.send(ProtocolInputMsg::SpfDelayEvent { event: SpfEvent::DelayTimer }));
    assert_eq!(drain(&mut inst, &mut rx, &routes), 1);
    assert_eq!(inst.state.as_ref().unwrap().lsdb.entries.len(), 2);
    assert_eq!(inst.tx.sb.len(), 2);
    inst.arenas.neighbors.push(Neighbor { iface_id: eth0, router_id: 9, addr: 9, state: NbrState::Full });

    let net_before = inst.tx.net.len();
    inst.shutdown();
    assert!(inst.state.is_none());
    let uninstalls = inst.tx.sb[2..].iter().filter(|m| matches!(m, SouthboundMsg::RouteUninstall(_))).count();
    assert_eq!(uninstalls, 2);
    assert_eq!(inst.tx.sb.len(), 4);
    let flushes = inst.tx.net[net_before..].iter().filter(|m| matches!(m, NetTxMsg::LsaFlush { .. })).count();
    assert_eq!(flushes, 2);
    for iface in &inst.arenas.interfaces {
        assert_eq!(iface.state, IfState::Down);
        assert!(iface.ls_update_pending.is_empty());
    }
    assert_eq!(inst.arenas.neighbors[0].state, NbrState::Down);
    assert_eq!(inst.config.router_id, Some(RID));
}

#[test]
fn reset_restarts_from_clean_slate() {
    let (mut inst, mut rx) = new_instance();
    let eth0 = add_iface(&mut inst, "eth0");
    add_area(&mut inst, 0, vec![eth0]);
    inst.config.router_id = Some(RID);
    inst.update(0);
    drain(&mut inst, &mut rx, &[]);
    assert_eq!(inst.state.as_ref().unwrap().lsdb.entries.len(), 1);
    inst.reset(0);
    assert!(inst.is_active());
    let st = inst.state.as_ref().unwrap();
    assert!(st.lsdb.entries.is_empty());
    assert_eq!(st.orig_lsa_count, 0);
    assert_eq!(inst.arenas.interfaces[eth0].state, IfState::Down);
}

#[test]
fn inactive_instance_ignores_protocol_messages() {
    let (mut inst, _rx) = new_instance();
    let r = inst.process_protocol_msg(ProtocolInputMsg::IsmEvent {
        area_key: 5,
        iface_key: 5,
        event: IsmEvent::InterfaceUp,
    });
    assert_eq!(r, Ok(None));
}

fn active_instance() -> Instance {
    let (mut inst, _rx) = new_instance();
    let eth0 = add_iface(&mut inst, "eth0");
    add_area(&mut inst, 0, vec![eth0]);
    inst.config.router_id = Some(RID);
    inst.update(0);
    inst.tx.protocol_input.take();
    inst
}

#[test]
fn unknown_keys_are_errors() {
    let mut inst = active_instance();
    let ism = |a, i| ProtocolInputMsg::IsmEvent { area_key: a, iface_key: i, event: IsmEvent::InterfaceUp };
    assert_eq!(inst.process_protocol_msg(ism(3, 0)), Err(Error::AreaIdNotFound(3)));
    assert_eq!(inst.process_protocol_msg(ism(0, 4)), Err(Error::InterfaceIdNotFound(4)));
    let nsm = ProtocolInputMsg::NsmEvent { area_key: 0, iface_key: 0, nbr_key: 2, event: NsmEvent::HelloRcvd };
    assert_eq!(inst.process_protocol_msg(nsm), Err(Error::NeighborIdNotFound(2)));
    let flush = ProtocolInputMsg::LsaFlush {
        lsdb_key: LsdbId::As,
        lse_key: 77,
        reason: ospf_core::channels::LsaFlushReason::PrematureAging,
    };
    assert_eq!(inst.process_protocol_msg(flush), Err(Error::LsaEntryIdNotFound(77)));
    let sweep = ProtocolInputMsg::LsdbMaxAgeSweep { lsdb_key: LsdbId::Area(9) };
    assert_eq!(inst.process_protocol_msg(sweep), Err(Error::AreaIdNotFound(9)));
}

#[test]
fn neighbor_fsm_reaches_full_and_asks_for_origination() {
    let mut inst = active_instance();
    inst.arenas.neighbors.push(Neighbor { iface_id: 0, router_id: 2, addr: 0x0a00_0002, state: NbrState::Down });
    for ev in [NsmEvent::HelloRcvd, NsmEvent::TwoWayRcvd, NsmEvent::AdjOk] {
        let m = ProtocolInputMsg::NsmEvent { area_key: 0, iface_key: 0, nbr_key: 0, event: ev };
        assert_eq!(inst.process_protocol_msg(m), Ok(None));
    }
    assert_eq!(inst.arenas.neighbors[0].state, NbrState::Full);
    let sent = inst.tx.protocol_input.take();
    assert_eq!(sent.len(), 1);
    assert!(matches!(
        sent[0],
        ProtocolInputMsg::LsaOrigEvent { event: LsaOriginateEvent::NeighborToFromFull { area_id: 0, iface_id: 0 } }
    ));
    inst.process_ibus_msg(IbusMsg::BfdStateUpd { sess_key: 0x0a00_0002, state: BfdState::Up });
    assert_eq!(inst.arenas.neighbors[0].state, NbrState::Full);
    inst.process_ibus_msg(IbusMsg::BfdStateUpd { sess_key: 0x0a00_0002, state: BfdState::Down });
    assert_eq!(inst.arenas.neighbors[0].state, NbrState::Down);
    let sent = inst.tx.protocol_input.take();
    assert_eq!(sent.len(), 1);
    assert!(matches!(
        sent[0],
        ProtocolInputMsg::LsaOrigEvent { event: LsaOriginateEvent::NeighborToFromFull { area_id: 0, iface_id: 0 } }
    ));
}

#[test]
fn interface_down_kills_neighbors_and_pending_updates() {
    let mut inst = active_instance();
    let up = ProtocolInputMsg::IsmEvent { area_key: 0, iface_key: 0, event: IsmEvent::InterfaceUp };
    assert_eq!(inst.process_protocol_msg(up), Ok(None));
    inst.arenas.neighbors.push(Neighbor { iface_id: 0, router_id: 2, addr: 2, state: NbrState::TwoWay });
    inst.arenas.interfaces[0].ls_update_pending.push(LsaKey { lsa_type: 1, adv_rtr: 2, lsa_id: 2 });
    let down = ProtocolInputMsg::IsmEvent { area_key: 0, iface_key: 0, event: IsmEvent::InterfaceDown };
    assert_eq!(inst.process_protocol_msg(down), Ok(None));
    assert_eq!(inst.arenas.interfaces[0].state, IfState::Down);
    assert!(inst.arenas.interfaces[0].ls_update_pending.is_empty());
    assert_eq!(inst.arenas.neighbors[0].state, NbrState::Down);
}

#[test]
fn retransmission_and_delayed_ack_go_out_on_up_interfaces() {
    let mut inst = active_instance();
    inst.arenas.neighbors.push(Neighbor { iface_id: 0, router_id: 2, addr: 2, state: NbrState::Full });
    let ack = ProtocolInputMsg::DelayedAck { area_key: 0, iface_key: 0 };
    assert_eq!(inst.process_protocol_msg(ack), Ok(None));
    assert!(inst.tx.net.is_empty());
    let up = ProtocolInputMsg::IsmEvent { area_key: 0, iface_key: 0, event: IsmEvent::InterfaceUp };
    inst.process_protocol_msg(up).unwrap();
    let rxmt = ProtocolInputMsg::RxmtInterval { area_key: 0, iface_key: 0, nbr_key: 0, packet_type: PacketType::LsUpdate };
    assert_eq!(inst.process_protocol_msg(rxmt), Ok(None));
    assert!(matches!(
        inst.tx.net[0],
        NetTxMsg::Packet { iface_id: 0, nbr_id: Some(0), packet_type: PacketType::LsUpdate }
    ));
}

#[test]
fn lsa_lifecycle_refresh_flush_sweep() {
    let mut inst = active_instance();
    let key = LsaKey { lsa_type: 5, adv_rtr: RID, lsa_id: 0x0a09_0000 };
    let check = ProtocolInputMsg::LsaOrigCheck { lsdb_key: LsdbId::As, lsa_key: key, lsa_body: vec![1, 2, 3] };
    assert_eq!(inst.process_protocol_msg(check), Ok(None));
    let id = inst.state.as_ref().unwrap().lsdb.entries[0].id;
    let seq0 = inst.state.as_ref().unwrap().lsdb.entries[0].seq_no;
    assert_eq!(seq0, ospf_core::lsdb::INITIAL_SEQ_NO);

    // The same body again is discarded.
    let again = ProtocolInputMsg::LsaOrigCheck { lsdb_key: LsdbId::As, lsa_key: key, lsa_body: vec![1, 2, 3] };
    inst.process_protocol_msg(again).unwrap();
    assert_eq!(inst.state.as_ref().unwrap().lsdb.entries[0].seq_no, seq0);
    assert_eq!(inst.state.as_ref().unwrap().orig_lsa_count, 1);

    let refresh = ProtocolInputMsg::LsaRefresh { lsdb_key: LsdbId::As, lse_key: id };
    assert_eq!(inst.process_protocol_msg(refresh), Ok(None));
    assert_eq!(inst.state.as_ref().unwrap().lsdb.entries[0].seq_no, seq0 + 1);

    let flush = ProtocolInputMsg::LsaFlush {
        lsdb_key: LsdbId::As,
        lse_key: id,
        reason: ospf_core::channels::LsaFlushReason::PrematureAging,
    };
    assert_eq!(inst.process_protocol_msg(flush), Ok(None));
    assert_eq!(inst.state.as_ref().unwrap().lsdb.entries[0].age, ospf_core::lsdb::MAX_AGE);
    let st = inst.state.as_ref().unwrap();
    assert_eq!(st.spf_trigger_lsas.len(), 2);
    let reasons: Vec<_> = st.lsa_log.entries.iter().map(|e| e.data.reason).collect();
    assert_eq!(reasons.len(), 3);

    // Held on a retransmission list: the sweep keeps it.
    inst.state.as_mut().unwrap().lsdb.entries[0].rxmt_count = 1;
    let sweep = ProtocolInputMsg::LsdbMaxAgeSweep { lsdb_key: LsdbId::As };
    inst.process_protocol_msg(sweep).unwrap();
    assert_eq!(inst.state.as_ref().unwrap().lsdb.entries.len(), 1);
    inst.state.as_mut().unwrap().lsdb.entries[0].rxmt_count = 0;
    let sweep = ProtocolInputMsg::LsdbMaxAgeSweep { lsdb_key: LsdbId::As };
    inst.process_protocol_msg(sweep).unwrap();
    assert!(inst.state.as_ref().unwrap().lsdb.entries.is_empty());
}

#[test]
fn spf_run_consumes_all_triggers_and_logs() {
    let mut inst = active_instance();
    for i in 0..3u32 {
        let key = LsaKey { lsa_type: 5, adv_rtr: RID, lsa_id: i };
        let m = ProtocolInputMsg::LsaOrigCheck { lsdb_key: LsdbId::As, lsa_key: key, lsa_body: vec![i as u8] };
        inst.process_protocol_msg(m).unwrap();
    }
    // Three triggers within the initial delay: the timer is armed once.
    for i in 0..3 {
        let m = ProtocolInputMsg::SpfDelayEvent { event: SpfEvent::Igp };
        let out = inst.process_protocol_msg(m).unwrap().unwrap();
        assert!(!out.run);
        let expected = if i == 0 { TimerAction::Start(DFLT_SPF_INITIAL_DELAY) } else { TimerAction::Keep };
        assert_eq!(out.timers.delay, expected);
        assert_eq!(inst.state.as_ref().unwrap().spf_trigger_lsas.len(), 3);
    }
    assert_eq!(inst.state.as_ref().unwrap().spf_delay.delay_timer, Some(DFLT_SPF_INITIAL_DELAY));
    let fire = ProtocolInputMsg::SpfDelayEvent { event: SpfEvent::DelayTimer };
    assert!(inst.process_protocol_msg(fire).unwrap().unwrap().run);
    assert_eq!(inst.spf_run(vec![route(1 << 24, 5)], 1000, 7), Ok(()));
    let st = inst.state.as_ref().unwrap();
    assert!(st.spf_trigger_lsas.is_empty());
    assert_eq!(st.spf_log.entries.len(), 1);
    assert_eq!(st.spf_log.entries[0].id, 0);
    assert_eq!(st.spf_log.next_id, 1);
    assert_eq!(st.spf_log.entries[0].data.duration_ms, 7);
    assert_eq!(st.spf_last_time, Some(1000));
    assert_eq!(st.spf_log.entries[0].data.trigger_lsas.len(), 3);
    assert_eq!(st.spf_log.entries[0].data.trigger_lsas[2].lsa.lsa_id, 2);
    assert_eq!(st.spf_log.entries[0].data.installs, 1);
    assert_eq!(st.spf_log.entries[0].data.uninstalls, 0);
}

#[test]
fn spf_rerun_without_change_is_silent() {
    let mut inst = active_instance();
    let routes = || vec![route(0x0a01_0000, 10), route(0x0a02_0000, 20)];
    assert_eq!(inst.spf_run(routes(), 1000, 0), Ok(()));
    assert_eq!(inst.tx.sb.len(), 2);
    assert_eq!(inst.spf_run(routes(), 1000, 0), Ok(()));
    assert_eq!(inst.tx.sb.len(), 2);
    // One route changes cost, one disappears.
    assert_eq!(inst.spf_run(vec![route(0x0a01_0000, 11)], 1000, 0), Ok(()));
    assert_eq!(inst.tx.sb.len(), 4);
    assert!(matches!(inst.tx.sb[2], SouthboundMsg::RouteInstall(ref r) if r.cost == 11));
    assert!(matches!(inst.tx.sb[3], SouthboundMsg::RouteUninstall(ref r) if r.prefix == 0x0a02_0000));
}

#[test]
fn spf_run_on_inactive_instance_does_nothing() {
    let (mut inst, _rx) = new_instance();
    assert_eq!(inst.spf_run(vec![route(1, 1)], 1000, 0), Err(Error::InstanceInactive));
    assert!(inst.tx.sb.is_empty());
}

#[test]
fn sr_config_events() {
    let mut inst = active_instance();
    inst.process_ibus_msg(IbusMsg::SrCfgEvent(SrCfgEvent::LabelRangeUpdate));
    assert!(inst.tx.protocol_input.sent.is_empty());
    inst.config.sr_enabled = true;
    inst.process_ibus_msg(IbusMsg::SrCfgEvent(SrCfgEvent::PrefixSidUpdate(AddressFamily::Ipv6)));
    assert!(inst.tx.protocol_input.sent.is_empty());
    inst.process_ibus_msg(IbusMsg::SrCfgEvent(SrCfgEvent::PrefixSidUpdate(AddressFamily::Ipv4)));
    assert_eq!(inst.tx.protocol_input.sent.len(), 1);
    inst.process_ibus_msg(IbusMsg::KeychainDel("k".to_string()));
    assert_eq!(inst.tx.protocol_input.sent.len(), 1);
    let sr = inst.tx.protocol_input.take().pop().unwrap();
    inst.process_protocol_msg(sr).unwrap();
    assert_eq!(inst.tx.timers.len(), 1);
    let TimerRequest::LsaOrigDelay { lsdb_key, lsa_key } = inst.tx.timers[0];
    assert_eq!(lsdb_key, LsdbId::Area(0));
    assert_eq!(lsa_key.adv_rtr, RID);
    let fired = ProtocolInputMsg::LsaOrigDelayed { lsdb_key, lsa_key };
    inst.process_protocol_msg(fired).unwrap();
    let sent = inst.tx.protocol_input.take();
    assert_eq!(sent.len(), 1);
    assert!(matches!(
        sent[0],
        ProtocolInputMsg::LsaOrigCheck { lsdb_key: LsdbId::Area(0), lsa_key, ref lsa_body }
            if lsa_key.adv_rtr == RID && lsa_body == &vec![0u8]
    ));
}

#[test]
fn origination_triggers_are_batched() {
    let mut inst = active_instance();
    let ev = |e| ProtocolInputMsg::LsaOrigEvent { event: e };
    inst.process_protocol_msg(ev(LsaOriginateEvent::AreaStart { area_id: 0 })).unwrap();
    inst.process_protocol_msg(ev(LsaOriginateEvent::InterfaceStateChange { area_id: 0, iface_id: 0 })).unwrap();
    inst.process_protocol_msg(ev(LsaOriginateEvent::SrCfgChange)).unwrap();
    // One timer for the three triggers, nothing originated yet.
    assert_eq!(inst.tx.timers.len(), 1);
    assert!(inst.tx.protocol_input.sent.is_empty());
    let TimerRequest::LsaOrigDelay { lsdb_key, lsa_key } = inst.tx.timers[0];
    inst.process_protocol_msg(ProtocolInputMsg::LsaOrigDelayed { lsdb_key, lsa_key }).unwrap();
    assert_eq!(inst.tx.protocol_input.sent.len(), 1);
    // A second expiry finds nothing waiting.
    inst.process_protocol_msg(ProtocolInputMsg::LsaOrigDelayed { lsdb_key, lsa_key }).unwrap();
    assert_eq!(inst.tx.protocol_input.sent.len(), 1);
    assert_eq!(
        inst.process_protocol_msg(ev(LsaOriginateEvent::AreaStart { area_id: 4 })),
        Err(Error::AreaIdNotFound(4))
    );
}

#[test]
fn hold_down_expiry_with_pending_changes_starts_a_new_cycle() {
    let mut inst = active_instance();
    let spf = |e| ProtocolInputMsg::SpfDelayEvent { event: e };
    inst.process_protocol_msg(spf(SpfEvent::Igp)).unwrap();
    let key = LsaKey { lsa_type: 5, adv_rtr: RID, lsa_id: 1 };
    inst.process_protocol_msg(ProtocolInputMsg::LsaOrigCheck { lsdb_key: LsdbId::As, lsa_key: key, lsa_body: vec![1] })
        .unwrap();
    let out = inst.process_protocol_msg(spf(SpfEvent::HoldDownTimer)).unwrap().unwrap();
    let d = inst.state.as_ref().unwrap().spf_delay;
    assert_eq!(d.state, ospf_core::spf::SpfState::ShortWait);
    assert_eq!(out.timers.learn, TimerAction::Start(inst.config.spf_time_to_learn));
}

#[test]
fn deactivation_flushes_each_lsa_with_its_sequence_number() {
    let mut inst = active_instance();
    let up = ProtocolInputMsg::IsmEvent { area_key: 0, iface_key: 0, event: IsmEvent::InterfaceUp };
    inst.process_protocol_msg(up).unwrap();
    let eth1 = add_iface(&mut inst, "eth1");
    inst.arenas.interfaces[eth1].ls_update_pending.push(LsaKey { lsa_type: 1, adv_rtr: 3, lsa_id: 3 });
    for (i, body) in [(1u32, vec![1u8]), (2, vec![2])] {
        let key = LsaKey { lsa_type: 5, adv_rtr: RID, lsa_id: i };
        let m = ProtocolInputMsg::LsaOrigCheck { lsdb_key: LsdbId::As, lsa_key: key, lsa_body: body };
        inst.process_protocol_msg(m).unwrap();
    }
    inst.state.as_mut().unwrap().lsdb.entries[1].seq_no = 42;
    inst.update(0);
    inst.config.enabled = false;
    inst.update(0);
    assert!(!inst.is_active());
    assert_eq!(inst.tx.net.len(), 3);
    assert!(matches!(inst.tx.net[0], NetTxMsg::LsaFlush { lsdb_key: LsdbId::As, lsa, seq_no }
        if lsa.lsa_id == 1 && seq_no == ospf_core::lsdb::INITIAL_SEQ_NO));
    assert!(matches!(inst.tx.net[1], NetTxMsg::LsaFlush { lsa, seq_no: 42, .. } if lsa.lsa_id == 2));
    // The queued update of the up interface goes out before it goes down.
    assert!(matches!(inst.tx.net[2], NetTxMsg::LsUpdate { iface_id: 0, nbr_id: None, ref lsas } if lsas.len() == 2));
    // An interface that was already down keeps its queue.
    assert_eq!(inst.arenas.interfaces[eth1].ls_update_pending.len(), 1);
}

#[test]
fn spf_run_refuses_two_routes_to_one_destination() {
    let mut inst = active_instance();
    let r = inst.spf_run(vec![route(0x0a01_0000, 10), route(0x0a01_0000, 20)], 1000, 0);
    assert_eq!(r, Err(Error::DuplicateRoute));
    assert!(inst.tx.sb.is_empty());
    assert!(inst.state.as_ref().unwrap().spf_log.entries.is_empty());
}

#[test]
fn activation_records_the_start_time() {
    let (mut inst, _rx) = new_instance();
    let eth0 = add_iface(&mut inst, "eth0");
    add_area(&mut inst, 0, vec![eth0]);
    inst.config.router_id = Some(RID);
    inst.update(1_700_000_000_000);
    assert_eq!(inst.state.as_ref().unwrap().discontinuity_time, 1_700_000_000_000);
    inst.reset(1_700_000_000_500);
    assert_eq!(inst.state.as_ref().unwrap().discontinuity_time, 1_700_000_000_500);
}
