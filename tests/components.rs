use ospf_core::channels::{
    protocol_input_channels, IsmEvent, LsaOriginateEvent, ProtocolInputMsg, BOUNDED_CAPACITY,
};
use ospf_core::log::EventLog;
use ospf_core::lsdb::{next_seq, LsaKey, Lsdb, LsdbId, OrigOutcome, INITIAL_SEQ_NO, MAX_SEQ_NO};
use ospf_core::route::{route_delta, PathType, RouteNet};
use ospf_core::spf::{SpfDelay, SpfDelayCfg, SpfEvent, SpfState, TimerAction};

fn cfg() -> SpfDelayCfg {
    SpfDelayCfg { initial_delay: 50, short_delay: 200, long_delay: 5000, hold_down: 10000, time_to_learn: 500 }
}

#[test]
fn ism_event_is_served_before_earlier_spf_event() {
    let (_tx, mut rx) = protocol_input_channels();
    assert!(rx.send(ProtocolInputMsg::SpfDelayEvent { event: SpfEvent::Igp }));
    assert!(rx.send(ProtocolInputMsg::IsmEvent { area_key: 0, iface_key: 1, event: IsmEvent::InterfaceUp }));
    assert!(matches!(rx.recv(), Some(ProtocolInputMsg::IsmEvent { iface_key: 1, .. })));
    assert!(matches!(rx.recv(), Some(ProtocolInputMsg::SpfDelayEvent { event: SpfEvent::Igp })));
    assert!(rx.recv().is_none());
}

#[test]
fn one_channel_is_first_in_first_out() {
    let (_tx, mut rx) = protocol_input_channels();
    for a in 0..3 {
        let ev = LsaOriginateEvent::AreaStart { area_id: a };
        assert!(rx.send(ProtocolInputMsg::LsaOrigEvent { event: ev }));
    }
    for a in 0..3 {
        assert!(matches!(
            rx.recv(),
            Some(ProtocolInputMsg::LsaOrigEvent { event: LsaOriginateEvent::AreaStart { area_id } }) if area_id == a
        ));
    }
}

#[test]
fn bounded_channel_refuses_past_capacity() {
    let (_tx, mut rx) = protocol_input_channels();
    for _ in 0..BOUNDED_CAPACITY {
        assert!(rx.send(ProtocolInputMsg::DelayedAck { area_key: 0, iface_key: 0 }));
        assert!(rx.send(ProtocolInputMsg::LsdbMaxAgeSweep { lsdb_key: LsdbId::As }));
        assert!(rx.send(ProtocolInputMsg::SpfDelayEvent { event: SpfEvent::Igp }));
    }
    assert!(!rx.send(ProtocolInputMsg::LsdbMaxAgeSweep { lsdb_key: LsdbId::As }));
    assert!(!rx.send(ProtocolInputMsg::DelayedAck { area_key: 0, iface_key: 0 }));
    // Unbounded channels take more.
    assert!(rx.send(ProtocolInputMsg::SpfDelayEvent { event: SpfEvent::Igp }));
    assert_eq!(rx.pending.len(), 3 * BOUNDED_CAPACITY + 1);
}

#[test]
fn tx_records_in_order() {
    let (mut tx, _rx) = protocol_input_channels();
    tx.ism_event(1, 2, IsmEvent::InterfaceDown);
    tx.nsm_event(1, 2, 3, ospf_core::channels::NsmEvent::Kill);
    tx.send_lsupd(1, 2, None);
    tx.lsa_flush(LsdbId::As, 4, ospf_core::channels::LsaFlushReason::Expiry);
    tx.spf_delay_event(SpfEvent::Igp);
    let sent = tx.take();
    assert_eq!(sent.iter().map(|m| m.rank()).collect::<Vec<_>>(), vec![0, 1, 4, 10, 13]);
    assert!(tx.sent.is_empty());
}

#[test]
fn log_keeps_the_most_recent_entries() {
    let mut log: EventLog<u32> = EventLog::new(3);
    for i in 0..5u32 {
        assert_eq!(log.push(i * 10), i);
    }
    assert_eq!(log.len(), 3);
    let ids: Vec<u32> = log.entries.iter().map(|e| e.id).collect();
    assert_eq!(ids, vec![2, 3, 4]);
    let data: Vec<u32> = log.entries.iter().map(|e| e.data).collect();
    assert_eq!(data, vec![20, 30, 40]);
    assert_eq!(log.next_id, 5);
}

#[test]
fn spf_burst_runs_once() {
    let mut d = SpfDelay::new();
    for _ in 0..5 {
        assert!(!d.fsm(SpfEvent::Igp, &cfg(), false).0);
    }
    assert_eq!(d.state, SpfState::ShortWait);
    assert_eq!(d.delay_timer, Some(50));
    assert!(d.fsm(SpfEvent::DelayTimer, &cfg(), false).0);
    assert_eq!(d.delay_timer, None);
    // The next trigger waits the short delay.
    assert!(!d.fsm(SpfEvent::Igp, &cfg(), false).0);
    assert_eq!(d.delay_timer, Some(200));
}

#[test]
fn spf_escalates_to_long_delay() {
    let mut d = SpfDelay::new();
    d.fsm(SpfEvent::Igp, &cfg(), false).0;
    assert_eq!(d.delay_timer, Some(50));
    let (run, actions) = d.fsm(SpfEvent::LearnTimer, &cfg(), false);
    assert!(!run);
    assert_eq!(d.state, SpfState::LongWait);
    // The pending delay timer restarts with the long delay.
    assert_eq!(d.delay_timer, Some(5000));
    assert_eq!(actions.delay, TimerAction::Start(5000));
    assert!(d.fsm(SpfEvent::DelayTimer, &cfg(), false).0);
    d.fsm(SpfEvent::Igp, &cfg(), false).0;
    assert_eq!(d.delay_timer, Some(5000));
    assert!(!d.fsm(SpfEvent::HoldDownTimer, &cfg(), false).0);
    assert_eq!(d.state, SpfState::Quiet);
    assert_eq!(d.hold_down_timer, None);
}

fn route(prefix: u32, cost: u32, installed: bool) -> RouteNet {
    RouteNet { prefix, prefix_len: 16, path_type: PathType::InterArea, cost, nexthops: vec![1, 2], installed }
}

#[test]
fn route_delta_of_unchanged_table_is_empty() {
    let old = vec![route(1, 5, true), route(2, 6, true)];
    let new = vec![route(1, 5, false), route(2, 6, false)];
    let (ins, outs) = route_delta(&old, &new);
    assert!(ins.is_empty());
    assert!(outs.is_empty());
}

#[test]
fn route_delta_reports_changes_only() {
    let old = vec![route(1, 5, true), route(2, 6, true), route(3, 7, false)];
    let mut changed = route(2, 6, false);
    changed.nexthops = vec![2];
    let new = vec![route(1, 5, false), changed, route(4, 1, false)];
    let (ins, outs) = route_delta(&old, &new);
    assert_eq!(ins.iter().map(|r| r.prefix).collect::<Vec<_>>(), vec![2, 4]);
    // Route 3 was never installed: nothing to uninstall.
    assert!(outs.is_empty());
    let (_, outs) = route_delta(&old, &vec![]);
    assert_eq!(outs.iter().map(|r| r.prefix).collect::<Vec<_>>(), vec![1, 2]);
}

#[test]
fn route_copy_keeps_fields() {
    let r = route(9, 3, true);
    let c = r.copy();
    assert_eq!((c.prefix, c.prefix_len, c.cost, c.installed), (9, 16, 3, true));
    assert_eq!(c.nexthops, vec![1, 2]);
    assert!(r.same_as(&c));
    assert!(!r.same_as(&route(9, 4, true)));
}

#[test]
fn sequence_numbers_wrap_to_initial() {
    assert_eq!(next_seq(INITIAL_SEQ_NO), INITIAL_SEQ_NO + 1);
    assert_eq!(next_seq(-1), 0);
    assert_eq!(next_seq(MAX_SEQ_NO), INITIAL_SEQ_NO);
}

#[test]
fn orig_check_originates_updates_and_discards() {
    let mut db = Lsdb::new();
    let key = LsaKey { lsa_type: 1, adv_rtr: 1, lsa_id: 1 };
    assert_eq!(db.orig_check(LsdbId::Area(0), key, vec![1]), OrigOutcome::Originated(0, INITIAL_SEQ_NO));
    assert_eq!(db.orig_check(LsdbId::Area(0), key, vec![1]), OrigOutcome::Unchanged);
    assert_eq!(db.orig_check(LsdbId::Area(0), key, vec![2]), OrigOutcome::Originated(0, INITIAL_SEQ_NO + 1));
    assert_eq!(db.entries[0].seq_no, INITIAL_SEQ_NO + 1);
    assert_eq!(db.entries[0].body, vec![2]);
    // The same key in another database is another LSA.
    assert_eq!(db.orig_check(LsdbId::Area(1), key, vec![2]), OrigOutcome::Originated(1, INITIAL_SEQ_NO));
    assert_eq!(db.entries.len(), 2);
    assert_eq!(db.find(LsdbId::Area(1), key), Some(1));
    assert_eq!(db.self_originated().len(), 2);
    // A flushed LSA is originated anew even with the same body.
    assert!(db.flush(LsdbId::Area(0), 0));
    assert_eq!(db.orig_check(LsdbId::Area(0), key, vec![2]), OrigOutcome::Originated(0, INITIAL_SEQ_NO + 2));
    assert_eq!(db.entries[0].age, 0);
    assert!(!db.flush(LsdbId::As, 0));
    assert!(!db.refresh(LsdbId::As, 0));
}

#[test]
fn maxage_sweep_removes_only_timed_out_unreferenced_entries() {
    let mut db = Lsdb::new();
    for i in 0..4u32 {
        db.orig_check(LsdbId::As, LsaKey { lsa_type: 5, adv_rtr: 1, lsa_id: i }, vec![]);
    }
    db.flush(LsdbId::As, 0);
    db.flush(LsdbId::As, 2);
    db.entries[2].rxmt_count = 1;
    assert_eq!(db.maxage_sweep(LsdbId::Area(0), &vec![]), 0);
    // Still queued for sending: kept.
    let queued = vec![LsaKey { lsa_type: 5, adv_rtr: 1, lsa_id: 0 }];
    assert_eq!(db.maxage_sweep(LsdbId::As, &queued), 0);
    assert_eq!(db.maxage_sweep(LsdbId::As, &vec![]), 1);
    assert_eq!(db.entries.iter().map(|e| e.id).collect::<Vec<_>>(), vec![1, 2, 3]);
}

#[test]
fn default_configuration() {
    let c = ospf_core::instance::InstanceCfg::default();
    assert!(c.enabled);
    assert_eq!(c.router_id, None);
    assert_eq!(c.max_paths, 16);
    assert_eq!((c.spf_initial_delay, c.spf_short_delay, c.spf_long_delay), (50, 200, 5000));
    assert_eq!((c.spf_hold_down, c.spf_time_to_learn), (10000, 500));
    assert_eq!(c.preference.intra_area, 110);
    assert_eq!(c.preference.external, 110);
}

#[test]
fn hold_down_expiry_without_pending_changes_goes_quiet() {
    let mut d = SpfDelay::new();
    d.fsm(SpfEvent::Igp, &cfg(), true);
    let (_, actions) = d.fsm(SpfEvent::HoldDownTimer, &cfg(), false);
    assert_eq!(d.state, SpfState::Quiet);
    assert_eq!(actions.hold_down, TimerAction::Cancel);
    assert_eq!(actions.learn, TimerAction::Cancel);
    d.fsm(SpfEvent::Igp, &cfg(), true);
    let (_, actions) = d.fsm(SpfEvent::HoldDownTimer, &cfg(), true);
    assert_eq!(d.state, SpfState::ShortWait);
    assert_eq!(d.learn_timer, Some(500));
    assert_eq!(actions.learn, TimerAction::Start(500));
    assert_eq!(actions.hold_down, TimerAction::Start(10000));
}

#[test]
fn forward_moves_sent_inputs_in_order() {
    let (mut tx, mut rx) = protocol_input_channels();
    tx.spf_delay_event(SpfEvent::Igp);
    tx.ism_event(0, 0, IsmEvent::InterfaceUp);
    assert!(rx.forward(&mut tx).is_empty());
    assert!(tx.sent.is_empty());
    assert_eq!(rx.pending.iter().map(|m| m.rank()).collect::<Vec<_>>(), vec![13, 0]);
}
