use vstd::prelude::*;
use crate::channels::{IsmEvent, LsaOriginateEvent, NsmEvent};
use crate::channels::{PacketType, ProtocolInputMsg};
use crate::instance::{
    Error, IfState, Instance, Interface, InstanceArenas, InstanceState, LsaLogEntry, LsaLogReason, NbrState,
    NetTxMsg, SpfTriggerLsa, TimerRequest, same_shape,
};
use crate::log::{EventLog, log_pushed};
use crate::lsdb::{
    LsaKey, LsdbId, OrigOutcome, first_with_id, flushed, lemma_first_with_id, next_seq_no,
    orig_checked, refreshed, sweep_survivors,
};
use crate::spf::{SpfDelayCfg, SpfEvent, SpfTimerActions, TimerAction, spf_actions, spf_step};

verus! {

/// Finds interface `i` in area `a`.
pub open spec fn iface_lookup(ar: InstanceArenas, a: usize, i: usize) -> Result<(), Error> {
    if a >= ar.areas@.len() {
        Err(Error::AreaIdNotFound(a))
    } else if !ar.areas@[a as int].interfaces@.contains(i) {
        Err(Error::InterfaceIdNotFound(i))
    } else {
        Ok(())
    }
}

/// Finds neighbor `n` of interface `i` in area `a`.
pub open spec fn nbr_lookup(ar: InstanceArenas, a: usize, i: usize, n: usize) -> Result<(), Error> {
    match iface_lookup(ar, a, i) {
        Err(e) => Err(e),
        Ok(_) => if n >= ar.neighbors@.len() || ar.neighbors@[n as int].iface_id != i {
            Err(Error::NeighborIdNotFound(n))
        } else {
            Ok(())
        },
    }
}

/// Interface state after an interface state machine event.
pub open spec fn ism_next(state: IfState, enabled: bool, ev: IsmEvent) -> IfState {
    match ev {
        IsmEvent::InterfaceUp => if enabled { IfState::Up } else { state },
        IsmEvent::NbrChange => state,
        IsmEvent::InterfaceDown => IfState::Down,
    }
}

/// Neighbor state after a neighbor state machine event.
pub open spec fn nsm_next(state: NbrState, ev: NsmEvent) -> NbrState {
    match ev {
        NsmEvent::HelloRcvd => if state == NbrState::Down { NbrState::Init } else { state },
        NsmEvent::TwoWayRcvd => if state == NbrState::Init { NbrState::TwoWay } else { state },
        NsmEvent::AdjOk => if state == NbrState::TwoWay { NbrState::Full } else { state },
        NsmEvent::Kill | NsmEvent::InactivityTimer => NbrState::Down,
    }
}

impl InstanceArenas {
    pub fn lookup_iface(&self, a: usize, i: usize) -> (r: Result<(), Error>)
        ensures
            r == iface_lookup(*self, a, i),
    {
        if a >= self.areas.len() {
            return Err(Error::AreaIdNotFound(a));
        }
        let mut j: usize = 0;
        while j < self.areas[a].interfaces.len()
            invariant
                a < self.areas@.len(),
                j <= self.areas@[a as int].interfaces@.len(),
                forall|m: int| 0 <= m < j ==> self.areas@[a as int].interfaces@[m] != i,
            decreases self.areas@[a as int].interfaces@.len() - j,
        {
            if self.areas[a].interfaces[j] == i {
                assert(self.areas@[a as int].interfaces@[j as int] == i);
                return Ok(());
            }
            j += 1;
        }
        Err(Error::InterfaceIdNotFound(i))
    }

    pub fn lookup_nbr(&self, a: usize, i: usize, n: usize) -> (r: Result<(), Error>)
        ensures
            r == nbr_lookup(*self, a, i, n),
    {
        match self.lookup_iface(a, i) {
            Err(e) => Err(e),
            Ok(()) => {
                if n >= self.neighbors.len() || self.neighbors[n].iface_id != i {
                    Err(Error::NeighborIdNotFound(n))
                } else {
                    Ok(())
                }
            },
        }
    }

    /// Takes every neighbor of interface `i` down.
    pub fn kill_neighbors(&mut self, i: usize)
        requires
            old(self).wf(),
        ensures
            final(self).wf(),
            same_shape(*old(self), *final(self)),
            final(self).areas == old(self).areas,
            final(self).interfaces == old(self).interfaces,
            forall|n: int| 0 <= n < final(self).neighbors@.len() ==> (#[trigger] final(self).neighbors@[n]).state
                == if old(self).neighbors@[n].iface_id == i { NbrState::Down } else { old(self).neighbors@[n].state },
    {
        let mut n: usize = 0;
        while n < self.neighbors.len()
            invariant
                n <= self.neighbors@.len(),
                self.wf(),
                same_shape(*old(self), *self),
                self.areas == old(self).areas,
                self.interfaces == old(self).interfaces,
                forall|m: int| 0 <= m < self.neighbors@.len() ==> (#[trigger] self.neighbors@[m]).state
                    == if m < n && old(self).neighbors@[m].iface_id == i { NbrState::Down } else { old(self).neighbors@[m].state },
            decreases self.neighbors@.len() - n,
        {
            if self.neighbors[n].iface_id == i {
                self.neighbors[n].state = NbrState::Down;
            }
            n += 1;
        }
    }
}

/// Only the arenas and the queued inputs may have changed.
pub open spec fn rest_same(old: Instance, new: Instance) -> bool {
    &&& new.name == old.name && new.system == old.system && new.config == old.config
    &&& new.state == old.state
    &&& new.tx.sb == old.tx.sb && new.tx.net == old.tx.net && new.tx.timers == old.tx.timers
}

/// Effect of an interface state machine event on interface `i` of area `a`.
pub open spec fn ism_applied(old: Instance, new: Instance, a: usize, i: usize, ev: IsmEvent) -> bool {
    let o = old.arenas.interfaces@[i as int];
    let st = ism_next(o.state, o.enabled, ev);
    let went_down = o.state == IfState::Up && st == IfState::Down;
    &&& rest_same(old, new)
    &&& same_shape(old.arenas, new.arenas)
    &&& new.arenas.areas == old.arenas.areas
    &&& new.arenas.interfaces@[i as int].state == st
    &&& new.arenas.interfaces@[i as int].ls_update_pending@ == if went_down {
        Seq::empty()
    } else {
        o.ls_update_pending@
    }
    &&& forall|k: int| 0 <= k < old.arenas.interfaces@.len() && k != i
        ==> #[trigger] new.arenas.interfaces@[k] == old.arenas.interfaces@[k]
    &&& forall|n: int| 0 <= n < new.arenas.neighbors@.len() ==> (#[trigger] new.arenas.neighbors@[n]).state
        == if went_down && old.arenas.neighbors@[n].iface_id == i { NbrState::Down } else { old.arenas.neighbors@[n].state }
    &&& new.tx.protocol_input.sent@ == if st != o.state {
        old.tx.protocol_input.sent@.push(ProtocolInputMsg::LsaOrigEvent {
            event: LsaOriginateEvent::InterfaceStateChange { area_id: a, iface_id: i },
        })
    } else {
        old.tx.protocol_input.sent@
    }
}

/// Effect of a neighbor state machine event on neighbor `n` of interface
/// `i` in area `a`.
pub open spec fn nsm_applied(old: Instance, new: Instance, a: usize, i: usize, n: usize, ev: NsmEvent) -> bool {
    let o = old.arenas.neighbors@[n as int].state;
    let st = nsm_next(o, ev);
    &&& rest_same(old, new)
    &&& new.arenas.areas == old.arenas.areas
    &&& new.arenas.interfaces == old.arenas.interfaces
    &&& new.arenas.neighbors@ == old.arenas.neighbors@.update(
        n as int,
        crate::instance::Neighbor { state: st, ..old.arenas.neighbors@[n as int] },
    )
    &&& new.tx.protocol_input.sent@ == if (o == NbrState::Full) != (st == NbrState::Full) {
        old.tx.protocol_input.sent@.push(ProtocolInputMsg::LsaOrigEvent {
            event: LsaOriginateEvent::NeighborToFromFull { area_id: a, iface_id: i },
        })
    } else {
        old.tx.protocol_input.sent@
    }
}

impl Instance {
    /// Runs an interface state machine event.
    pub fn process_ism_event(&mut self, a: usize, i: usize, ev: IsmEvent) -> (r: Result<(), Error>)
        requires
            old(self).wf(),
        ensures
            final(self).wf(),
            r == iface_lookup(old(self).arenas, a, i),
            r is Err ==> *final(self) == *old(self),
            r is Ok ==> ism_applied(*old(self), *final(self), a, i, ev),
    {
        match self.arenas.lookup_iface(a, i) {
            Err(e) => return Err(e),
            Ok(()) => {},
        }
        proof {
            let idxs = self.arenas.areas@[a as int].interfaces@;
            let j = choose|j: int| 0 <= j < idxs.len() && idxs[j] == i;
            assert(self.arenas.areas@[a as int].interfaces@[j] < self.arenas.interfaces@.len());
        }
        let old_state = self.arenas.interfaces[i].state;
        let new_state = match ev {
            IsmEvent::InterfaceUp => if self.arenas.interfaces[i].enabled { IfState::Up } else { old_state },
            IsmEvent::NbrChange => old_state,
            IsmEvent::InterfaceDown => IfState::Down,
        };
        if new_state == old_state {
            return Ok(());
        }
        self.arenas.interfaces[i].state = new_state;
        if new_state == IfState::Down {
            self.arenas.interfaces[i].ls_update_pending = Vec::new();
            self.arenas.kill_neighbors(i);
        }
        self.tx.protocol_input.lsa_orig_event(
            LsaOriginateEvent::InterfaceStateChange { area_id: a, iface_id: i },
        );
        Ok(())
    }

    /// Runs a neighbor state machine event.
    pub fn process_nsm_event(&mut self, a: usize, i: usize, n: usize, ev: NsmEvent) -> (r: Result<(), Error>)
        requires
            old(self).wf(),
        ensures
            final(self).wf(),
            r == nbr_lookup(old(self).arenas, a, i, n),
            r is Err ==> *final(self) == *old(self),
            r is Ok ==> nsm_applied(*old(self), *final(self), a, i, n, ev),
    {
        match self.arenas.lookup_nbr(a, i, n) {
            Err(e) => return Err(e),
            Ok(()) => {},
        }
        let old_state = self.arenas.neighbors[n].state;
        let new_state = match ev {
            NsmEvent::HelloRcvd => if old_state == NbrState::Down { NbrState::Init } else { old_state },
            NsmEvent::TwoWayRcvd => if old_state == NbrState::Init { NbrState::TwoWay } else { old_state },
            NsmEvent::AdjOk => if old_state == NbrState::TwoWay { NbrState::Full } else { old_state },
            NsmEvent::Kill | NsmEvent::InactivityTimer => NbrState::Down,
        };
        self.arenas.neighbors[n].state = new_state;
        assert(self.arenas.neighbors@ =~= old(self).arenas.neighbors@.update(
            n as int,
            crate::instance::Neighbor { state: new_state, ..old(self).arenas.neighbors@[n as int] },
        ));
        if (old_state == NbrState::Full) != (new_state == NbrState::Full) {
            self.tx.protocol_input.lsa_orig_event(
                LsaOriginateEvent::NeighborToFromFull { area_id: a, iface_id: i },
            );
        }
        Ok(())
    }
}

/// Flooding keeps the arenas' shape and states, and only appends to the
/// interfaces' pending LS Updates and to the queued inputs.
pub open spec fn flood_frame(old: Instance, new: Instance) -> bool {
    &&& new.name == old.name && new.system == old.system && new.config == old.config
    &&& new.tx.sb == old.tx.sb && new.tx.net == old.tx.net && new.tx.timers == old.tx.timers
    &&& new.arenas.wf()
    &&& same_shape(old.arenas, new.arenas)
    &&& new.arenas.areas == old.arenas.areas
    &&& new.arenas.neighbors == old.arenas.neighbors
    &&& forall|k: int| 0 <= k < old.arenas.interfaces@.len() ==> {
        let (o, f) = (old.arenas.interfaces@[k], #[trigger] new.arenas.interfaces@[k]);
        &&& f.state == o.state
        &&& f.ls_update_pending@.len() >= o.ls_update_pending@.len()
        &&& f.ls_update_pending@.subrange(0, o.ls_update_pending@.len() as int) == o.ls_update_pending@
    }
    &&& new.tx.protocol_input.sent@.len() >= old.tx.protocol_input.sent@.len()
    &&& new.tx.protocol_input.sent@.subrange(0, old.tx.protocol_input.sent@.len() as int)
        == old.tx.protocol_input.sent@
}

/// Flooding: the flood frame, with the operational state untouched.
pub open spec fn flood_kept(old: Instance, new: Instance) -> bool {
    &&& flood_frame(old, new)
    &&& new.state == old.state
}

/// `n` copies of `key`.
pub open spec fn key_repeat(key: LsaKey, n: nat) -> Seq<LsaKey> {
    Seq::new(n, |_j: int| key)
}

/// Occurrences of interface `k` in `idxs`.
pub open spec fn hits(idxs: Seq<usize>, k: int) -> nat
    decreases idxs.len(),
{
    if idxs.len() == 0 {
        0
    } else {
        hits(idxs.drop_last(), k) + if idxs.last() as int == k { 1nat } else { 0nat }
    }
}

/// How many times flooding over the interface list `idxs` queues the LSA on
/// interface `i`: once per occurrence, if the interface is up.
pub open spec fn up_hits(ar: InstanceArenas, idxs: Seq<usize>, i: int) -> nat {
    if ar.interfaces@[i].state == IfState::Up { hits(idxs, i) } else { 0 }
}

/// The send requests that flooding over the interface list `idxs` of area
/// `a` queues: one per up interface, in order.
pub open spec fn area_reqs(ar: InstanceArenas, a: usize, idxs: Seq<usize>) -> Seq<ProtocolInputMsg>
    decreases idxs.len(),
{
    if idxs.len() == 0 {
        Seq::empty()
    } else {
        let p = area_reqs(ar, a, idxs.drop_last());
        let k = idxs.last();
        if k < ar.interfaces@.len() && ar.interfaces@[k as int].state == IfState::Up {
            p.push(ProtocolInputMsg::SendLsUpdate { area_key: a, iface_key: k, nbr_key: None })
        } else {
            p
        }
    }
}

pub open spec fn as_hits(ar: InstanceArenas, n: int, i: int) -> nat
    decreases n,
{
    if n <= 0 { 0 } else { as_hits(ar, n - 1, i) + up_hits(ar, ar.areas@[n - 1].interfaces@, i) }
}

pub open spec fn as_reqs(ar: InstanceArenas, n: int) -> Seq<ProtocolInputMsg>
    decreases n,
{
    if n <= 0 {
        Seq::empty()
    } else {
        as_reqs(ar, n - 1) + area_reqs(ar, (n - 1) as usize, ar.areas@[n - 1].interfaces@)
    }
}

/// How many times flooding over the scope of `lsdb` queues the LSA on
/// interface `i`.
pub open spec fn scope_hits(ar: InstanceArenas, lsdb: LsdbId, i: int) -> nat {
    match lsdb {
        LsdbId::Area(a) => up_hits(ar, ar.areas@[a as int].interfaces@, i),
        LsdbId::As => as_hits(ar, ar.areas@.len() as int, i),
    }
}

/// The send requests that flooding over the scope of `lsdb` queues.
pub open spec fn scope_reqs(ar: InstanceArenas, lsdb: LsdbId) -> Seq<ProtocolInputMsg> {
    match lsdb {
        LsdbId::Area(a) => area_reqs(ar, a, ar.areas@[a as int].interfaces@),
        LsdbId::As => as_reqs(ar, ar.areas@.len() as int),
    }
}

/// Exactly what flooding `key` over the scope of `lsdb` adds, after the
/// inputs `pre` queued first: the key once per up interface of the scope
/// (per occurrence in an area's list), and one send request for each.
pub open spec fn flood_exact(old: Instance, new: Instance, lsdb: LsdbId, key: LsaKey, pre: Seq<ProtocolInputMsg>) -> bool {
    &&& forall|i: int| 0 <= i < old.arenas.interfaces@.len() ==> (#[trigger] new.arenas.interfaces@[i]).ls_update_pending@
        == old.arenas.interfaces@[i].ls_update_pending@ + key_repeat(key, scope_hits(old.arenas, lsdb, i))
    &&& new.tx.protocol_input.sent@ == old.tx.protocol_input.sent@ + pre + scope_reqs(old.arenas, lsdb)
}

proof fn lemma_area_reqs_same(x: InstanceArenas, y: InstanceArenas, a: usize, idxs: Seq<usize>)
    requires
        x.interfaces@.len() == y.interfaces@.len(),
        forall|i: int| 0 <= i < x.interfaces@.len() ==> (#[trigger] x.interfaces@[i]).state == y.interfaces@[i].state,
    ensures
        area_reqs(x, a, idxs) == area_reqs(y, a, idxs),
    decreases idxs.len(),
{
    if idxs.len() > 0 {
        lemma_area_reqs_same(x, y, a, idxs.drop_last());
    }
}

/// Every up interface of area `a` has `key` pending in `ar`.
pub open spec fn flooded_area(ar: InstanceArenas, a: int, key: LsaKey) -> bool {
    forall|j: int| 0 <= j < ar.areas@[a].interfaces@.len()
        && ar.interfaces@[(#[trigger] ar.areas@[a].interfaces@[j]) as int].state == IfState::Up
        ==> ar.interfaces@[ar.areas@[a].interfaces@[j] as int].ls_update_pending@.contains(key)
}

impl Instance {
    /// Floods LSA `key` over area `a`: it joins the pending LS Update of
    /// every up interface of the area, and each such interface is asked to
    /// send its update.
    pub fn flood_area(&mut self, a: usize, key: LsaKey)
        requires
            old(self).wf(),
            a < old(self).arenas.areas@.len(),
        ensures
            final(self).wf(),
            flood_kept(*old(self), *final(self)),
            flooded_area(final(self).arenas, a as int, key),
            flood_exact(*old(self), *final(self), LsdbId::Area(a), key, Seq::empty()),
    {
        let n = self.arenas.areas[a].interfaces.len();
        let ghost idxs = self.arenas.areas@[a as int].interfaces@;
        let mut j: usize = 0;
        proof {
            lemma_flood_kept_refl(*self);
            assert(idxs.subrange(0, 0) =~= Seq::<usize>::empty());
            assert forall|i: int| 0 <= i < old(self).arenas.interfaces@.len() implies (#[trigger] self.arenas.interfaces@[i]).ls_update_pending@
                == old(self).arenas.interfaces@[i].ls_update_pending@ + key_repeat(key, up_hits(old(self).arenas, idxs.subrange(0, 0), i)) by {
                assert(self.arenas.interfaces@[i].ls_update_pending@ =~= old(self).arenas.interfaces@[i].ls_update_pending@ + key_repeat(key, 0));
            }
            assert(self.tx.protocol_input.sent@ =~= old(self).tx.protocol_input.sent@ + area_reqs(old(self).arenas, a, idxs.subrange(0, 0)));
        }
        while j < n
            invariant
                j <= n,
                a < self.arenas.areas@.len(),
                n == idxs.len(),
                idxs == self.arenas.areas@[a as int].interfaces@,
                self.wf(),
                flood_kept(*old(self), *self),
                forall|m: int| 0 <= m < j && self.arenas.interfaces@[idxs[m] as int].state == IfState::Up
                    ==> self.arenas.interfaces@[idxs[m] as int].ls_update_pending@.contains(key),
                forall|i: int| 0 <= i < old(self).arenas.interfaces@.len() ==> (#[trigger] self.arenas.interfaces@[i]).ls_update_pending@
                    == old(self).arenas.interfaces@[i].ls_update_pending@ + key_repeat(key, up_hits(old(self).arenas, idxs.subrange(0, j as int), i)),
                self.tx.protocol_input.sent@ == old(self).tx.protocol_input.sent@ + area_reqs(old(self).arenas, a, idxs.subrange(0, j as int)),
            decreases n - j,
        {
            let k = self.arenas.areas[a].interfaces[j];
            assert(self.arenas.areas@[a as int].interfaces@[j as int] == k);
            let ghost s0 = idxs.subrange(0, j as int);
            let ghost s1 = idxs.subrange(0, j + 1);
            assert(s1.drop_last() =~= s0);
            assert(k < old(self).arenas.interfaces@.len());
            assert(old(self).arenas.interfaces@[k as int].state == self.arenas.interfaces@[k as int].state);
            let ghost pend0 = self.arenas.interfaces@;
            if self.arenas.interfaces[k].state == IfState::Up {
                let ghost before = self.arenas.interfaces@;
                let ghost sent_before = self.tx.protocol_input.sent@;
                self.arenas.interfaces[k].ls_update_pending.push(key);
                assert(self.arenas.interfaces@[k as int].ls_update_pending@.last() == key);
                assert forall|m: int| 0 <= m <= j && self.arenas.interfaces@[idxs[m] as int].state == IfState::Up
                    implies self.arenas.interfaces@[idxs[m] as int].ls_update_pending@.contains(key) by {
                    if idxs[m] == k {
                        let p = self.arenas.interfaces@[k as int].ls_update_pending@;
                        assert(p[p.len() - 1] == key);
                    } else {
                        let q = before[idxs[m] as int].ls_update_pending@;
                        assert(q.contains(key));
                        assert(self.arenas.interfaces@[idxs[m] as int] == before[idxs[m] as int]);
                    }
                }
                assert forall|i: int| 0 <= i < old(self).arenas.interfaces@.len() implies {
                    let (o, f) = (old(self).arenas.interfaces@[i], #[trigger] self.arenas.interfaces@[i]);
                    f.ls_update_pending@.subrange(0, o.ls_update_pending@.len() as int) == o.ls_update_pending@
                } by {
                    if i == k {
                        let o = old(self).arenas.interfaces@[i].ls_update_pending@;
                        assert(self.arenas.interfaces@[i].ls_update_pending@.subrange(0, o.len() as int)
                            =~= before[i].ls_update_pending@.subrange(0, o.len() as int));
                    }
                }
                self.tx.protocol_input.send_lsupd(a, k, None);
                assert(self.tx.protocol_input.sent@.subrange(0, old(self).tx.protocol_input.sent@.len() as int)
                    =~= sent_before.subrange(0, old(self).tx.protocol_input.sent@.len() as int));
            }
            assert forall|i: int| 0 <= i < old(self).arenas.interfaces@.len() implies (#[trigger] self.arenas.interfaces@[i]).ls_update_pending@
                == old(self).arenas.interfaces@[i].ls_update_pending@ + key_repeat(key, up_hits(old(self).arenas, s1, i)) by {
                let o = old(self).arenas.interfaces@[i].ls_update_pending@;
                if i == k as int && old(self).arenas.interfaces@[i].state == IfState::Up {
                    assert(key_repeat(key, up_hits(old(self).arenas, s1, i)) =~= key_repeat(key, up_hits(old(self).arenas, s0, i)).push(key));
                    assert(self.arenas.interfaces@[i].ls_update_pending@ =~= (o + key_repeat(key, up_hits(old(self).arenas, s0, i))).push(key));
                } else {
                    assert(up_hits(old(self).arenas, s1, i) == up_hits(old(self).arenas, s0, i));
                    assert(self.arenas.interfaces@[i] == pend0[i]);
                }
            }
            assert(self.tx.protocol_input.sent@ =~= old(self).tx.protocol_input.sent@ + area_reqs(old(self).arenas, a, s1));
            j += 1;
        }
        assert(idxs.subrange(0, j as int) =~= idxs);
    }

    /// Floods LSA `key` over the scope of database `lsdb`: its area, or every
    /// area for the AS-scope database.
    pub fn flood(&mut self, lsdb: LsdbId, key: LsaKey)
        requires
            old(self).wf(),
            lsdb matches LsdbId::Area(a) ==> a < old(self).arenas.areas@.len(),
        ensures
            final(self).wf(),
            flood_kept(*old(self), *final(self)),
            lsdb matches LsdbId::Area(a) ==> flooded_area(final(self).arenas, a as int, key),
            lsdb is As ==> forall|a: int| 0 <= a < final(self).arenas.areas@.len()
                ==> #[trigger] flooded_area(final(self).arenas, a, key),
            flood_exact(*old(self), *final(self), lsdb, key, Seq::empty()),
    {
        match lsdb {
            LsdbId::Area(a) => {
                self.flood_area(a, key);
                assert(self.tx.protocol_input.sent@ =~= old(self).tx.protocol_input.sent@
                    + Seq::<ProtocolInputMsg>::empty() + scope_reqs(old(self).arenas, lsdb));
            },
            LsdbId::As => {
                let mut a: usize = 0;
                proof {
                    lemma_flood_kept_refl(*self);
                    assert forall|i: int| 0 <= i < old(self).arenas.interfaces@.len() implies (#[trigger] self.arenas.interfaces@[i]).ls_update_pending@
                        == old(self).arenas.interfaces@[i].ls_update_pending@ + key_repeat(key, as_hits(old(self).arenas, 0, i)) by {
                        assert(self.arenas.interfaces@[i].ls_update_pending@ =~= old(self).arenas.interfaces@[i].ls_update_pending@ + key_repeat(key, 0));
                    }
                    assert(self.tx.protocol_input.sent@ =~= old(self).tx.protocol_input.sent@ + as_reqs(old(self).arenas, 0));
                }
                while a < self.arenas.areas.len()
                    invariant
                        self.wf(),
                        flood_kept(*old(self), *self),
                        lsdb is As,
                        forall|i: int| 0 <= i < old(self).arenas.interfaces@.len() ==> (#[trigger] self.arenas.interfaces@[i]).ls_update_pending@
                            == old(self).arenas.interfaces@[i].ls_update_pending@ + key_repeat(key, as_hits(old(self).arenas, a as int, i)),
                        self.tx.protocol_input.sent@ == old(self).tx.protocol_input.sent@ + as_reqs(old(self).arenas, a as int),
                        a <= self.arenas.areas@.len(),
                        forall|b: int| 0 <= b < a ==> #[trigger] flooded_area(self.arenas, b, key),
                    decreases self.arenas.areas@.len() - a,
                {
                    let ghost mid = *self;
                    self.flood_area(a, key);
                    proof {
                        lemma_flood_kept_trans(*old(self), mid, *self);
                        assert forall|b: int| 0 <= b < a + 1 implies #[trigger] flooded_area(self.arenas, b, key) by {
                            if b < a {
                                lemma_flooded_kept(mid, *self, b, key);
                            }
                        }
                        let o = old(self).arenas;
                        let idxs = o.areas@[a as int].interfaces@;
                        assert(mid.arenas.areas == o.areas);
                        assert forall|i: int| 0 <= i < o.interfaces@.len() implies (#[trigger] self.arenas.interfaces@[i]).ls_update_pending@
                            == o.interfaces@[i].ls_update_pending@ + key_repeat(key, as_hits(o, a + 1, i)) by {
                            assert(mid.arenas.interfaces@[i].state == o.interfaces@[i].state);
                            assert(up_hits(mid.arenas, idxs, i) == up_hits(o, idxs, i));
                            assert(key_repeat(key, as_hits(o, a as int, i)) + key_repeat(key, up_hits(o, idxs, i))
                                =~= key_repeat(key, as_hits(o, a + 1, i)));
                            assert(self.arenas.interfaces@[i].ls_update_pending@ =~= o.interfaces@[i].ls_update_pending@ + key_repeat(key, as_hits(o, a + 1, i)));
                        }
                        assert forall|i: int| 0 <= i < o.interfaces@.len() implies (#[trigger] mid.arenas.interfaces@[i]).state == o.interfaces@[i].state by {}
                        lemma_area_reqs_same(mid.arenas, o, a, idxs);
                        assert(self.tx.protocol_input.sent@ =~= old(self).tx.protocol_input.sent@ + as_reqs(o, a + 1));
                    }
                    a += 1;
                }
                assert(self.tx.protocol_input.sent@ =~= old(self).tx.protocol_input.sent@
                    + Seq::<ProtocolInputMsg>::empty() + scope_reqs(old(self).arenas, lsdb));
            },
        }
    }
}

proof fn lemma_flooded_kept(x: Instance, y: Instance, a: int, key: LsaKey)
    requires
        x.arenas.wf(),
        flood_kept(x, y),
        0 <= a < x.arenas.areas@.len(),
        flooded_area(x.arenas, a, key),
    ensures
        flooded_area(y.arenas, a, key),
{
    assert forall|j: int| 0 <= j < y.arenas.areas@[a].interfaces@.len()
        && y.arenas.interfaces@[(#[trigger] y.arenas.areas@[a].interfaces@[j]) as int].state == IfState::Up
        implies y.arenas.interfaces@[y.arenas.areas@[a].interfaces@[j] as int].ls_update_pending@.contains(key) by {
        let k = x.arenas.areas@[a].interfaces@[j] as int;
        assert(x.arenas.areas@[a].interfaces@[j] < x.arenas.interfaces@.len());
        let p = x.arenas.interfaces@[k].ls_update_pending@;
        let q = y.arenas.interfaces@[k].ls_update_pending@;
        assert(y.arenas.interfaces@[k].state == x.arenas.interfaces@[k].state);
        assert(p.contains(key));
        let t = choose|t: int| 0 <= t < p.len() && p[t] == key;
        assert(q.subrange(0, p.len() as int)[t] == q[t]);
    }
}

proof fn lemma_flood_exact_from(
    old: Instance,
    mid: Instance,
    new: Instance,
    lsdb: LsdbId,
    key: LsaKey,
    pre: Seq<ProtocolInputMsg>,
)
    requires
        mid.arenas == old.arenas,
        mid.tx.protocol_input.sent@ == old.tx.protocol_input.sent@ + pre,
        flood_exact(mid, new, lsdb, key, Seq::empty()),
    ensures
        flood_exact(old, new, lsdb, key, pre),
{
    assert(new.tx.protocol_input.sent@ =~= old.tx.protocol_input.sent@ + pre + scope_reqs(old.arenas, lsdb));
}

proof fn lemma_flood_kept_refl(a: Instance)
    requires
        a.arenas.wf(),
    ensures
        flood_kept(a, a),
{
    assert forall|k: int| 0 <= k < a.arenas.interfaces@.len() implies {
        let (o, f) = (a.arenas.interfaces@[k], #[trigger] a.arenas.interfaces@[k]);
        f.ls_update_pending@.subrange(0, o.ls_update_pending@.len() as int) == o.ls_update_pending@
    } by {
        let o = a.arenas.interfaces@[k].ls_update_pending@;
        assert(o.subrange(0, o.len() as int) =~= o);
    }
    let s = a.tx.protocol_input.sent@;
    assert(s.subrange(0, s.len() as int) =~= s);
}

proof fn lemma_flood_kept_prefix(a: Instance, b: Instance, c: Instance)
    requires
        b.arenas.wf(),
        a.arenas == b.arenas,
        a.name == b.name && a.system == b.system && a.config == b.config,
        a.tx.sb == b.tx.sb && a.tx.net == b.tx.net && a.tx.timers == b.tx.timers,
        b.tx.protocol_input.sent@.len() >= a.tx.protocol_input.sent@.len(),
        b.tx.protocol_input.sent@.subrange(0, a.tx.protocol_input.sent@.len() as int) == a.tx.protocol_input.sent@,
        flood_kept(b, c),
    ensures
        flood_frame(a, c),
{
    let s = a.tx.protocol_input.sent@;
    assert(c.tx.protocol_input.sent@.subrange(0, s.len() as int)
        =~= b.tx.protocol_input.sent@.subrange(0, s.len() as int));
}

proof fn lemma_flood_kept_trans(a: Instance, b: Instance, c: Instance)
    requires
        flood_kept(a, b),
        flood_kept(b, c),
    ensures
        flood_kept(a, c),
{
    assert forall|k: int| 0 <= k < a.arenas.interfaces@.len() implies {
        let (o, f) = (a.arenas.interfaces@[k], #[trigger] c.arenas.interfaces@[k]);
        &&& f.state == o.state
        &&& f.ls_update_pending@.len() >= o.ls_update_pending@.len()
        &&& f.ls_update_pending@.subrange(0, o.ls_update_pending@.len() as int) == o.ls_update_pending@
    } by {
        let m = b.arenas.interfaces@[k];
        let o = a.arenas.interfaces@[k].ls_update_pending@;
        assert(c.arenas.interfaces@[k].ls_update_pending@.subrange(0, o.len() as int)
            =~= m.ls_update_pending@.subrange(0, o.len() as int));
    }
    let s = a.tx.protocol_input.sent@;
    assert(c.tx.protocol_input.sent@.subrange(0, s.len() as int)
        =~= b.tx.protocol_input.sent@.subrange(0, s.len() as int));
}

/// Finds database `lsdb`.
pub open spec fn lsdb_lookup(ar: InstanceArenas, lsdb: LsdbId) -> Result<(), Error> {
    match lsdb {
        LsdbId::Area(a) => if a >= ar.areas@.len() { Err(Error::AreaIdNotFound(a)) } else { Ok(()) },
        LsdbId::As => Ok(()),
    }
}

/// Finds entry `id` of database `lsdb`.
pub open spec fn lse_lookup(ar: InstanceArenas, st: InstanceState, lsdb: LsdbId, id: u32) -> Result<(), Error> {
    match lsdb_lookup(ar, lsdb) {
        Err(e) => Err(e),
        Ok(_) => if first_with_id(st.lsdb.entries@, lsdb, id) < st.lsdb.entries@.len() {
            Ok(())
        } else {
            Err(Error::LsaEntryIdNotFound(id))
        },
    }
}

pub open spec fn wrapping_inc(x: u32) -> u32 {
    if x == u32::MAX { 0 } else { (x + 1) as u32 }
}

pub open spec fn st(i: Instance) -> InstanceState {
    i.state->Some_0
}

/// The SPF delay durations of a configuration.
pub open spec fn spf_cfg(i: Instance) -> SpfDelayCfg {
    SpfDelayCfg {
        initial_delay: i.config.spf_initial_delay,
        short_delay: i.config.spf_short_delay,
        long_delay: i.config.spf_long_delay,
        hold_down: i.config.spf_hold_down,
        time_to_learn: i.config.spf_time_to_learn,
    }
}

/// A changed LSA `key` of `lsdb` scheduled for SPF: it joins the triggers of
/// the next run, and an SPF delay event follows the inputs queued before.
pub open spec fn spf_scheduled(old: Instance, new: Instance, lsdb: LsdbId, key: LsaKey) -> bool {
    &&& st(new).spf_trigger_lsas@ == st(old).spf_trigger_lsas@.push(SpfTriggerLsa { lsdb, lsa: key })
    &&& new.tx.protocol_input.sent@.len() > old.tx.protocol_input.sent@.len()
    &&& new.tx.protocol_input.sent@[old.tx.protocol_input.sent@.len() as int]
        == ProtocolInputMsg::SpfDelayEvent { event: SpfEvent::Igp }
}

/// Flooded over the scope of `lsdb`: its area, or every area.
pub open spec fn flooded(new: Instance, lsdb: LsdbId, key: LsaKey) -> bool {
    match lsdb {
        LsdbId::Area(a) => flooded_area(new.arenas, a as int, key),
        LsdbId::As => forall|a: int| 0 <= a < new.arenas.areas@.len() ==> #[trigger] flooded_area(new.arenas, a, key),
    }
}

/// The operational state changed only in its database, LSA log, SPF
/// triggers and origination counter.
pub open spec fn lsa_frame(old: Instance, new: Instance) -> bool {
    &&& new.state is Some
    &&& st(new) == InstanceState {
        lsdb: st(new).lsdb,
        lsa_log: st(new).lsa_log,
        spf_trigger_lsas: st(new).spf_trigger_lsas,
        orig_lsa_count: st(new).orig_lsa_count,
        ..st(old)
    }
}

/// Effect of an origination check of `key` in `lsdb` with body `body`.
pub open spec fn orig_check_applied(old: Instance, new: Instance, lsdb: LsdbId, key: LsaKey, body: Seq<u8>) -> bool {
    exists|o: OrigOutcome| #[trigger] orig_checked(st(old).lsdb, st(new).lsdb, lsdb, key, body, o)
        && match o {
            OrigOutcome::Unchanged => new == old,
            OrigOutcome::Originated(_, seq_no) => {
                &&& lsa_frame(old, new)
                &&& flood_frame(old, new)
                &&& st(new).orig_lsa_count == wrapping_inc(st(old).orig_lsa_count)
                &&& log_pushed(st(old).lsa_log, st(new).lsa_log,
                    LsaLogEntry { lsdb, lsa: key, seq_no, reason: LsaLogReason::Originated })
                &&& spf_scheduled(old, new, lsdb, key)
                &&& flooded(new, lsdb, key)
                &&& flood_exact(old, new, lsdb, key, seq![ProtocolInputMsg::SpfDelayEvent { event: SpfEvent::Igp }])
            },
        }
}

/// Index of entry `id` of `lsdb` in the old database.
pub open spec fn lse_index(old: Instance, lsdb: LsdbId, id: u32) -> int {
    first_with_id(st(old).lsdb.entries@, lsdb, id)
}

/// Effect of the flush of entry `id` of `lsdb`.
pub open spec fn flush_applied(old: Instance, new: Instance, lsdb: LsdbId, id: u32) -> bool {
    let e = st(old).lsdb.entries@[lse_index(old, lsdb, id)];
    &&& lsa_frame(old, new)
    &&& flood_frame(old, new)
    &&& flushed(st(old).lsdb, st(new).lsdb, lsdb, id, true)
    &&& st(new).orig_lsa_count == st(old).orig_lsa_count
    &&& log_pushed(st(old).lsa_log, st(new).lsa_log,
        LsaLogEntry { lsdb, lsa: e.key, seq_no: e.seq_no, reason: LsaLogReason::Flushed })
    &&& spf_scheduled(old, new, lsdb, e.key)
    &&& flooded(new, lsdb, e.key)
    &&& flood_exact(old, new, lsdb, e.key, seq![ProtocolInputMsg::SpfDelayEvent { event: SpfEvent::Igp }])
}

/// Finds a self-originated entry `id` of `lsdb` to refresh.
pub open spec fn refresh_lookup(ar: InstanceArenas, s: InstanceState, lsdb: LsdbId, id: u32) -> Result<(), Error> {
    match lse_lookup(ar, s, lsdb, id) {
        Err(e) => Err(e),
        Ok(_) => if s.lsdb.entries@[first_with_id(s.lsdb.entries@, lsdb, id)].self_originated {
            Ok(())
        } else {
            Err(Error::LsaEntryIdNotFound(id))
        },
    }
}

/// Effect of the refresh of entry `id` of `lsdb`.
pub open spec fn refresh_applied(old: Instance, new: Instance, lsdb: LsdbId, id: u32) -> bool {
    let e = st(old).lsdb.entries@[lse_index(old, lsdb, id)];
    &&& lsa_frame(old, new)
    &&& flood_frame(old, new)
    &&& refreshed(st(old).lsdb, st(new).lsdb, lsdb, id, true)
    &&& st(new).orig_lsa_count == st(old).orig_lsa_count
    &&& st(new).spf_trigger_lsas == st(old).spf_trigger_lsas
    &&& log_pushed(st(old).lsa_log, st(new).lsa_log,
        LsaLogEntry { lsdb, lsa: e.key, seq_no: next_seq_no(e.seq_no), reason: LsaLogReason::Refreshed })
    &&& flooded(new, lsdb, e.key)
    &&& flood_exact(old, new, lsdb, e.key, Seq::empty())
}

/// The LSAs still queued for sending on the interfaces, interface by
/// interface.
pub open spec fn held_keys(ifaces: Seq<Interface>) -> Seq<LsaKey>
    decreases ifaces.len(),
{
    if ifaces.len() == 0 {
        Seq::empty()
    } else {
        held_keys(ifaces.drop_last()) + ifaces.last().ls_update_pending@
    }
}

/// Effect of a MaxAge sweep of `lsdb`.
pub open spec fn sweep_applied(old: Instance, new: Instance, lsdb: LsdbId) -> bool {
    &&& new.state is Some
    &&& st(new).lsdb.entries@ == sweep_survivors(st(old).lsdb.entries@, lsdb, held_keys(old.arenas.interfaces@))
    &&& st(new) == InstanceState { lsdb: st(new).lsdb, ..st(old) }
    &&& new.name == old.name && new.system == old.system && new.config == old.config
    &&& new.arenas == old.arenas
    &&& new.tx == old.tx
}

/// What an SPF delay event asks of the caller: whether SPF must run now, and
/// what to do with each timer.
#[derive(Clone, Copy, Debug, PartialEq, Eq, Structural)]
pub struct SpfOutcome {
    pub run: bool,
    pub timers: SpfTimerActions,
}

/// Effect of an SPF delay event: only the algorithm's state changes.
pub open spec fn spf_event_applied(old: Instance, new: Instance, ev: SpfEvent, out: SpfOutcome) -> bool {
    let pending = st(old).spf_trigger_lsas@.len() > 0;
    &&& (st(new).spf_delay, out.run) == spf_step(st(old).spf_delay, ev, spf_cfg(old), pending)
    &&& out.timers == spf_actions(st(old).spf_delay, ev, spf_cfg(old), pending)
    &&& new.state == Some(InstanceState { spf_delay: st(new).spf_delay, ..st(old) })
    &&& new.name == old.name && new.system == old.system && new.config == old.config
    &&& new.arenas == old.arenas
    &&& new.tx == old.tx
}

impl InstanceArenas {
    /// The LSAs still queued for sending on the interfaces.
    pub fn held_keys(&self) -> (r: Vec<LsaKey>)
        ensures
            r@ == held_keys(self.interfaces@),
    {
        let mut r: Vec<LsaKey> = Vec::new();
        let mut k: usize = 0;
        while k < self.interfaces.len()
            invariant
                k <= self.interfaces@.len(),
                r@ == held_keys(self.interfaces@.subrange(0, k as int)),
            decreases self.interfaces@.len() - k,
        {
            let ghost base = r@;
            let mut j: usize = 0;
            while j < self.interfaces[k].ls_update_pending.len()
                invariant
                    k < self.interfaces@.len(),
                    j <= self.interfaces@[k as int].ls_update_pending@.len(),
                    r@ == base + self.interfaces@[k as int].ls_update_pending@.subrange(0, j as int),
                decreases self.interfaces@[k as int].ls_update_pending@.len() - j,
            {
                r.push(self.interfaces[k].ls_update_pending[j]);
                assert(r@ =~= base + self.interfaces@[k as int].ls_update_pending@.subrange(0, j + 1));
                j += 1;
            }
            assert(self.interfaces@.subrange(0, k + 1).drop_last() =~= self.interfaces@.subrange(0, k as int));
            assert(r@ =~= held_keys(self.interfaces@.subrange(0, k + 1)));
            k += 1;
        }
        assert(self.interfaces@.subrange(0, k as int) =~= self.interfaces@);
        r
    }

    pub fn lookup_lsdb(&self, lsdb: LsdbId) -> (r: Result<(), Error>)
        ensures
            r == lsdb_lookup(*self, lsdb),
    {
        match lsdb {
            LsdbId::Area(a) => if a >= self.areas.len() { Err(Error::AreaIdNotFound(a)) } else { Ok(()) },
            LsdbId::As => Ok(()),
        }
    }
}

impl Instance {
    /// Origination check of a proposed self-originated LSA. Unless the body
    /// is unchanged, the LSA is (re)originated, counted, logged, scheduled
    /// for SPF and flooded.
    pub fn process_lsa_orig_check(&mut self, lsdb: LsdbId, key: LsaKey, body: Vec<u8>) -> (r: Result<(), Error>)
        requires
            old(self).wf(),
            old(self).state is Some,
        ensures
            final(self).wf(),
            final(self).state is Some,
            r == lsdb_lookup(old(self).arenas, lsdb),
            r is Err ==> *final(self) == *old(self),
            r is Ok ==> orig_check_applied(*old(self), *final(self), lsdb, key, body@),
    {
        match self.arenas.lookup_lsdb(lsdb) {
            Err(e) => return Err(e),
            Ok(()) => {},
        }
        let ghost body_v = body@;
        let mut outcome = OrigOutcome::Unchanged;
        match &mut self.state {
            Some(st) => {
                outcome = st.lsdb.orig_check(lsdb, key, body);
                if let OrigOutcome::Originated(_, seq_no) = outcome {
                    st.orig_lsa_count = st.orig_lsa_count.wrapping_add(1);
                    st.lsa_log.push(LsaLogEntry { lsdb, lsa: key, seq_no, reason: LsaLogReason::Originated });
                    st.spf_trigger_lsas.push(SpfTriggerLsa { lsdb, lsa: key });
                }
            },
            None => {},
        }
        if let OrigOutcome::Originated(_, _) = outcome {
            let ghost before = self.tx.protocol_input.sent@;
            let ghost s0 = *self;
            self.tx.protocol_input.spf_delay_event(SpfEvent::Igp);
            let ghost mid = *self;
            proof {
                lemma_flood_kept_refl(s0);
                assert(s0.tx.protocol_input.sent@ == before);
                assert(mid.tx.protocol_input.sent@.subrange(0, before.len() as int) =~= before);
            }
            self.flood(lsdb, key);
            proof {
                lemma_flood_kept_prefix(*old(self), mid, *self);
                let pre = seq![ProtocolInputMsg::SpfDelayEvent { event: SpfEvent::Igp }];
                assert(mid.tx.protocol_input.sent@ =~= old(self).tx.protocol_input.sent@ + pre);
                lemma_flood_exact_from(*old(self), mid, *self, lsdb, key, pre);
            }
            assert(self.tx.protocol_input.sent@[before.len() as int] == mid.tx.protocol_input.sent@[before.len() as int]);
        }
        assert(orig_checked(st(*old(self)).lsdb, st(*self).lsdb, lsdb, key, body_v, outcome));
        Ok(())
    }

    /// Flushes an LSA entry: MaxAge, logged, scheduled for SPF and flooded.
    pub fn process_lsa_flush(&mut self, lsdb: LsdbId, id: u32) -> (r: Result<(), Error>)
        requires
            old(self).wf(),
            old(self).state is Some,
        ensures
            final(self).wf(),
            final(self).state is Some,
            r == lse_lookup(old(self).arenas, st(*old(self)), lsdb, id),
            r is Err ==> *final(self) == *old(self),
            r is Ok ==> flush_applied(*old(self), *final(self), lsdb, id),
    {
        match self.arenas.lookup_lsdb(lsdb) {
            Err(e) => return Err(e),
            Ok(()) => {},
        }
        let key;
        match &mut self.state {
            Some(st) => {
                match st.lsdb.find_by_id(lsdb, id) {
                    None => {
                        proof { crate::lsdb::lemma_no_id(st.lsdb.entries@, lsdb, id); }
                        return Err(Error::LsaEntryIdNotFound(id));
                    },
                    Some(i) => {
                        proof { lemma_first_with_id(st.lsdb.entries@, lsdb, id, i as int); }
                        key = st.lsdb.entries[i].key;
                        let seq_no = st.lsdb.entries[i].seq_no;
                        st.lsdb.flush(lsdb, id);
                        st.lsa_log.push(LsaLogEntry { lsdb, lsa: key, seq_no, reason: LsaLogReason::Flushed });
                        st.spf_trigger_lsas.push(SpfTriggerLsa { lsdb, lsa: key });
                    },
                }
            },
            None => {
                return Ok(());
            },
        }
        let ghost before = self.tx.protocol_input.sent@;
        let ghost s0 = *self;
        self.tx.protocol_input.spf_delay_event(SpfEvent::Igp);
        let ghost mid = *self;
        proof {
            lemma_flood_kept_refl(s0);
            assert(mid.tx.protocol_input.sent@.subrange(0, before.len() as int) =~= before);
        }
        self.flood(lsdb, key);
        proof {
            lemma_flood_kept_prefix(*old(self), mid, *self);
            let pre = seq![ProtocolInputMsg::SpfDelayEvent { event: SpfEvent::Igp }];
            assert(mid.tx.protocol_input.sent@ =~= old(self).tx.protocol_input.sent@ + pre);
            lemma_flood_exact_from(*old(self), mid, *self, lsdb, key, pre);
        }
        assert(self.tx.protocol_input.sent@[before.len() as int] == mid.tx.protocol_input.sent@[before.len() as int]);
        Ok(())
    }

    /// Refreshes a self-originated LSA entry: next sequence number, logged
    /// and flooded. An entry that is not self-originated is not refreshed.
    pub fn process_lsa_refresh(&mut self, lsdb: LsdbId, id: u32) -> (r: Result<(), Error>)
        requires
            old(self).wf(),
            old(self).state is Some,
        ensures
            final(self).wf(),
            final(self).state is Some,
            r == refresh_lookup(old(self).arenas, st(*old(self)), lsdb, id),
            r is Err ==> *final(self) == *old(self),
            r is Ok ==> refresh_applied(*old(self), *final(self), lsdb, id),
    {
        match self.arenas.lookup_lsdb(lsdb) {
            Err(e) => return Err(e),
            Ok(()) => {},
        }
        let key;
        match &mut self.state {
            Some(st) => {
                match st.lsdb.find_by_id(lsdb, id) {
                    None => {
                        proof { crate::lsdb::lemma_no_id(st.lsdb.entries@, lsdb, id); }
                        return Err(Error::LsaEntryIdNotFound(id));
                    },
                    Some(i) => {
                        proof { lemma_first_with_id(st.lsdb.entries@, lsdb, id, i as int); }
                        if !st.lsdb.entries[i].self_originated {
                            return Err(Error::LsaEntryIdNotFound(id));
                        }
                        key = st.lsdb.entries[i].key;
                        st.lsdb.refresh(lsdb, id);
                        let seq_no = st.lsdb.entries[i].seq_no;
                        st.lsa_log.push(LsaLogEntry { lsdb, lsa: key, seq_no, reason: LsaLogReason::Refreshed });
                    },
                }
            },
            None => {
                return Ok(());
            },
        }
        let ghost s0 = *self;
        proof {
            lemma_flood_kept_refl(s0);
            let p = s0.tx.protocol_input.sent@;
            assert(p.subrange(0, p.len() as int) =~= p);
        }
        self.flood(lsdb, key);
        proof {
            lemma_flood_kept_prefix(*old(self), s0, *self);
            assert(s0.tx.protocol_input.sent@ =~= old(self).tx.protocol_input.sent@ + Seq::<ProtocolInputMsg>::empty());
            lemma_flood_exact_from(*old(self), s0, *self, lsdb, key, Seq::empty());
        }
        Ok(())
    }

    /// MaxAge sweep of database `lsdb`.
    pub fn process_lsdb_maxage_sweep(&mut self, lsdb: LsdbId) -> (r: Result<(), Error>)
        requires
            old(self).wf(),
            old(self).state is Some,
        ensures
            final(self).wf(),
            r == lsdb_lookup(old(self).arenas, lsdb),
            r is Err ==> *final(self) == *old(self),
            r is Ok ==> sweep_applied(*old(self), *final(self), lsdb),
    {
        match self.arenas.lookup_lsdb(lsdb) {
            Err(e) => return Err(e),
            Ok(()) => {},
        }
        let held = self.arenas.held_keys();
        if let Some(st) = &mut self.state {
            st.lsdb.maxage_sweep(lsdb, &held);
        }
        Ok(())
    }

    /// Feeds an event to the SPF delay algorithm, telling it whether LSA
    /// changes wait for a run.
    pub fn process_spf_delay_event(&mut self, ev: SpfEvent) -> (out: SpfOutcome)
        requires
            old(self).wf(),
            old(self).state is Some,
        ensures
            final(self).wf(),
            spf_event_applied(*old(self), *final(self), ev, out),
    {
        let cfg = SpfDelayCfg {
            initial_delay: self.config.spf_initial_delay,
            short_delay: self.config.spf_short_delay,
            long_delay: self.config.spf_long_delay,
            hold_down: self.config.spf_hold_down,
            time_to_learn: self.config.spf_time_to_learn,
        };
        match &mut self.state {
            Some(st) => {
                let pending = st.spf_trigger_lsas.len() > 0;
                let (run, timers) = st.spf_delay.fsm(ev, &cfg, pending);
                SpfOutcome { run, timers }
            },
            None => SpfOutcome {
                run: false,
                timers: SpfTimerActions { delay: TimerAction::Keep, hold_down: TimerAction::Keep, learn: TimerAction::Keep },
            },
        }
    }
}

/// Key of this router's Router-LSA.
pub open spec fn router_lsa_key(router_id: u32) -> LsaKey {
    LsaKey { lsa_type: 1, adv_rtr: router_id, lsa_id: router_id }
}

/// Body of this router's Router-LSA for area `a`: one byte per interface of
/// the area, 1 when it is up.
pub open spec fn router_lsa_body(ar: InstanceArenas, a: int) -> Seq<u8> {
    ar.areas@[a].interfaces@.map_values(
        |k: usize| if k < ar.interfaces@.len() && ar.interfaces@[k as int].state == IfState::Up { 1u8 } else { 0u8 },
    )
}

/// The message that asks for the Router-LSA of area `a` to be checked.
pub open spec fn is_router_lsa_check(m: ProtocolInputMsg, ar: InstanceArenas, a: int, router_id: u32) -> bool {
    match m {
        ProtocolInputMsg::LsaOrigCheck { lsdb_key, lsa_key, lsa_body } => lsdb_key == LsdbId::Area(a as usize)
            && lsa_key == router_lsa_key(router_id) && lsa_body@ == router_lsa_body(ar, a),
        _ => false,
    }
}

/// Effect of a request to send the pending LS Update of interface `i`.
pub open spec fn send_lsupd_applied(old: Instance, new: Instance, i: usize, nbr: Option<usize>) -> bool {
    let o = old.arenas.interfaces@[i as int];
    if o.state == IfState::Up && o.ls_update_pending@.len() > 0 {
        &&& new.tx.net@.drop_last() == old.tx.net@
        &&& new.tx.net@.len() == old.tx.net@.len() + 1
        &&& (new.tx.net@.last() matches NetTxMsg::LsUpdate { iface_id, nbr_id, lsas }
            && iface_id == i && nbr_id == nbr && lsas@ == o.ls_update_pending@)
        &&& new.arenas.interfaces@[i as int].ls_update_pending@.len() == 0
        &&& new.arenas.interfaces@[i as int].state == o.state
        &&& forall|k: int| 0 <= k < old.arenas.interfaces@.len() && k != i
            ==> #[trigger] new.arenas.interfaces@[k] == old.arenas.interfaces@[k]
        &&& same_shape(old.arenas, new.arenas)
        &&& new.arenas.areas == old.arenas.areas
        &&& new.arenas.neighbors == old.arenas.neighbors
        &&& new.state == old.state
        &&& new.tx.sb == old.tx.sb
        &&& new.tx.protocol_input == old.tx.protocol_input
        &&& new.tx.timers == old.tx.timers
        &&& new.name == old.name && new.system == old.system && new.config == old.config
    } else {
        new == old
    }
}

/// Effect of a retransmission or delayed-acknowledgment timer of interface `i`.
pub open spec fn packet_timer_applied(old: Instance, new: Instance, i: usize, nbr: Option<usize>, packet_type: PacketType) -> bool {
    if old.arenas.interfaces@[i as int].state == IfState::Up {
        &&& new.tx.net@ == old.tx.net@.push(NetTxMsg::Packet { iface_id: i, nbr_id: nbr, packet_type })
        &&& new.arenas == old.arenas
        &&& new.state == old.state
        &&& new.tx.sb == old.tx.sb
        &&& new.tx.protocol_input == old.tx.protocol_input
        &&& new.tx.timers == old.tx.timers
        &&& new.name == old.name && new.system == old.system && new.config == old.config
    } else {
        new == old
    }
}

/// Area whose Router-LSA an origination event concerns; `None` for every
/// area.
pub open spec fn orig_event_area(ev: LsaOriginateEvent) -> Option<usize> {
    match ev {
        LsaOriginateEvent::AreaStart { area_id } => Some(area_id),
        LsaOriginateEvent::InterfaceStateChange { area_id, .. } => Some(area_id),
        LsaOriginateEvent::NeighborToFromFull { area_id, .. } => Some(area_id),
        LsaOriginateEvent::SrCfgChange => None,
    }
}

pub open spec fn orig_event_lookup(ar: InstanceArenas, ev: LsaOriginateEvent) -> Result<(), Error> {
    match orig_event_area(ev) {
        Some(a) => if a < ar.areas@.len() { Ok(()) } else { Err(Error::AreaIdNotFound(a)) },
        None => Ok(()),
    }
}

/// The timer request for the Router-LSA of area `a`.
pub open spec fn orig_delay_request(a: usize, router_id: u32) -> TimerRequest {
    TimerRequest::LsaOrigDelay { lsdb_key: LsdbId::Area(a), lsa_key: router_lsa_key(router_id) }
}

/// Effect of putting area `a` on the delayed-origination list.
pub open spec fn delay_applied(old: Instance, new: Instance, a: usize) -> bool {
    if st(old).lsa_orig_delayed@.contains(a) {
        new == old
    } else {
        &&& new.state == Some(InstanceState {
            lsa_orig_delayed: st(new).lsa_orig_delayed,
            ..st(old)
        })
        &&& st(new).lsa_orig_delayed@ == st(old).lsa_orig_delayed@.push(a)
        &&& new.tx.timers@ == old.tx.timers@.push(orig_delay_request(a, st(old).router_id))
        &&& new.tx.protocol_input == old.tx.protocol_input
        &&& new.tx.sb == old.tx.sb && new.tx.net == old.tx.net
        &&& new.arenas == old.arenas
        &&& new.name == old.name && new.system == old.system && new.config == old.config
    }
}

/// Areas below `n` that are not on the list `pending`, in order.
pub open spec fn fresh_areas(pending: Seq<usize>, n: int) -> Seq<usize>
    decreases n,
{
    if n <= 0 {
        Seq::empty()
    } else {
        let p = fresh_areas(pending, n - 1);
        if pending.contains((n - 1) as usize) { p } else { p.push((n - 1) as usize) }
    }
}

/// Effect of putting the areas below `n` on the delayed-origination list.
pub open spec fn delays_applied(old: Instance, new: Instance, n: int) -> bool {
    let added = fresh_areas(st(old).lsa_orig_delayed@, n);
    &&& new.state == Some(InstanceState {
        lsa_orig_delayed: st(new).lsa_orig_delayed,
        ..st(old)
    })
    &&& st(new).lsa_orig_delayed@ == st(old).lsa_orig_delayed@ + added
    &&& new.tx.timers@ == old.tx.timers@ + added.map_values(|a: usize| orig_delay_request(a, st(old).router_id))
    &&& new.tx.protocol_input == old.tx.protocol_input
    &&& new.tx.sb == old.tx.sb && new.tx.net == old.tx.net
    &&& new.arenas == old.arenas
    &&& new.name == old.name && new.system == old.system && new.config == old.config
}

/// Effect of an origination event.
pub open spec fn orig_event_applied(old: Instance, new: Instance, ev: LsaOriginateEvent) -> bool {
    match orig_event_area(ev) {
        Some(a) => delay_applied(old, new, a),
        None => delays_applied(old, new, old.arenas.areas@.len() as int),
    }
}

/// `s` without `a`.
pub open spec fn without(s: Seq<usize>, a: usize) -> Seq<usize>
    decreases s.len(),
{
    if s.len() == 0 {
        s
    } else {
        let p = without(s.drop_last(), a);
        if s.last() == a { p } else { p.push(s.last()) }
    }
}

/// Effect of the delayed-origination timer of `lsdb` firing.
pub open spec fn orig_delayed_applied(old: Instance, new: Instance, lsdb: LsdbId) -> bool {
    match lsdb {
        LsdbId::Area(a) => if st(old).lsa_orig_delayed@.contains(a) {
            let s = new.tx.protocol_input.sent@;
            &&& new.state == Some(InstanceState {
                lsa_orig_delayed: st(new).lsa_orig_delayed,
                ..st(old)
            })
            &&& st(new).lsa_orig_delayed@ == without(st(old).lsa_orig_delayed@, a)
            &&& s.len() == old.tx.protocol_input.sent@.len() + 1
            &&& s.drop_last() == old.tx.protocol_input.sent@
            &&& is_router_lsa_check(s.last(), old.arenas, a as int, st(old).router_id)
            &&& new.tx.sb == old.tx.sb && new.tx.net == old.tx.net && new.tx.timers == old.tx.timers
            &&& new.arenas == old.arenas
            &&& new.name == old.name && new.system == old.system && new.config == old.config
        } else {
            new == old
        },
        LsdbId::As => new == old,
    }
}

proof fn lemma_fresh_below(pending: Seq<usize>, n: int)
    ensures
        forall|j: int| 0 <= j < fresh_areas(pending, n).len() ==> (#[trigger] fresh_areas(pending, n)[j]) < n,
        forall|j: int| 0 <= j < fresh_areas(pending, n).len() ==> !pending.contains(#[trigger] fresh_areas(pending, n)[j]),
    decreases n,
{
    if n > 0 {
        lemma_fresh_below(pending, n - 1);
        let p = fresh_areas(pending, n - 1);
        let f = fresh_areas(pending, n);
        assert forall|j: int| 0 <= j < f.len() implies (#[trigger] f[j]) < n && !pending.contains(f[j]) by {
            if j < p.len() {
                assert(f[j] == p[j]);
            }
        }
    }
}

proof fn lemma_delays_step(old: Instance, mid: Instance, new: Instance, a: int)
    requires
        0 <= a < usize::MAX,
        old.state is Some,
        delays_applied(old, mid, a),
        delay_applied(mid, new, a as usize),
    ensures
        delays_applied(old, new, a + 1),
{
    let p0 = st(old).lsa_orig_delayed@;
    let added = fresh_areas(p0, a);
    lemma_fresh_below(p0, a);
    let pm = st(mid).lsa_orig_delayed@;
    assert(pm.contains(a as usize) <==> p0.contains(a as usize)) by {
        if pm.contains(a as usize) {
            let j = choose|j: int| 0 <= j < pm.len() && pm[j] == a as usize;
            if j >= p0.len() {
                assert(added[j - p0.len()] < a);
            }
        }
        if p0.contains(a as usize) {
            let j = choose|j: int| 0 <= j < p0.len() && p0[j] == a as usize;
            assert(pm[j] == a as usize);
        }
    }
    let f = |x: usize| orig_delay_request(x, st(old).router_id);
    if !p0.contains(a as usize) {
        assert(fresh_areas(p0, a + 1) == added.push(a as usize));
        assert(added.push(a as usize).map_values(f) =~= added.map_values(f).push(f(a as usize)));
        assert(st(new).lsa_orig_delayed@ =~= p0 + fresh_areas(p0, a + 1));
        assert(new.tx.timers@ =~= old.tx.timers@ + fresh_areas(p0, a + 1).map_values(f));
    } else {
        assert(fresh_areas(p0, a + 1) == added);
    }
}

impl Instance {
    fn router_lsa_body(&self, a: usize) -> (r: Vec<u8>)
        requires
            a < self.arenas.areas@.len(),
        ensures
            r@ == router_lsa_body(self.arenas, a as int),
    {
        let mut r: Vec<u8> = Vec::new();
        let mut j: usize = 0;
        while j < self.arenas.areas[a].interfaces.len()
            invariant
                a < self.arenas.areas@.len(),
                j <= self.arenas.areas@[a as int].interfaces@.len(),
                r@ == router_lsa_body(self.arenas, a as int).subrange(0, j as int),
            decreases self.arenas.areas@[a as int].interfaces@.len() - j,
        {
            let k = self.arenas.areas[a].interfaces[j];
            let b: u8 = if k < self.arenas.interfaces.len() && self.arenas.interfaces[k].state == IfState::Up { 1 } else { 0 };
            r.push(b);
            assert(r@ =~= router_lsa_body(self.arenas, a as int).subrange(0, j + 1));
            j += 1;
        }
        assert(r@ =~= router_lsa_body(self.arenas, a as int));
        r
    }

    /// Puts area `a`'s Router-LSA on the delayed-origination list, asking
    /// for the timer, unless it is already there: then the trigger is
    /// batched with the earlier one.
    fn delay_area_orig(&mut self, a: usize)
        requires
            old(self).wf(),
            old(self).state is Some,
        ensures
            final(self).wf(),
            delay_applied(*old(self), *final(self), a),
    {
        let mut r: Option<u32> = None;
        if let Some(st) = &mut self.state {
            let mut found = false;
            let mut j: usize = 0;
            while j < st.lsa_orig_delayed.len()
                invariant
                    j <= st.lsa_orig_delayed@.len(),
                    found == exists|k: int| 0 <= k < j && st.lsa_orig_delayed@[k] == a,
                decreases st.lsa_orig_delayed@.len() - j,
            {
                if st.lsa_orig_delayed[j] == a {
                    found = true;
                }
                j += 1;
            }
            if !found {
                st.lsa_orig_delayed.push(a);
                r = Some(st.router_id);
            }
        }
        if let Some(rid) = r {
            self.tx.timers.push(TimerRequest::LsaOrigDelay {
                lsdb_key: LsdbId::Area(a),
                lsa_key: LsaKey { lsa_type: 1, adv_rtr: rid, lsa_id: rid },
            });
        }
    }

    /// An LSA origination event: the Router-LSA of the area concerned (of
    /// every area, for a Segment Routing change) waits for the
    /// delayed-origination timer, so that triggers close in time give one
    /// origination.
    pub fn process_lsa_orig_event(&mut self, ev: LsaOriginateEvent) -> (r: Result<(), Error>)
        requires
            old(self).wf(),
            old(self).state is Some,
        ensures
            final(self).wf(),
            r == orig_event_lookup(old(self).arenas, ev),
            r is Err ==> *final(self) == *old(self),
            r is Ok ==> orig_event_applied(*old(self), *final(self), ev),
    {
        let area = match ev {
            LsaOriginateEvent::AreaStart { area_id } => Some(area_id),
            LsaOriginateEvent::InterfaceStateChange { area_id, .. } => Some(area_id),
            LsaOriginateEvent::NeighborToFromFull { area_id, .. } => Some(area_id),
            LsaOriginateEvent::SrCfgChange => None,
        };
        match area {
            Some(a) => {
                if a >= self.arenas.areas.len() {
                    return Err(Error::AreaIdNotFound(a));
                }
                self.delay_area_orig(a);
            },
            None => {
                let mut a: usize = 0;
                proof {
                    let f = |x: usize| orig_delay_request(x, st(*old(self)).router_id);
                    assert(st(*self).lsa_orig_delayed@ =~= st(*old(self)).lsa_orig_delayed@ + fresh_areas(st(*old(self)).lsa_orig_delayed@, 0));
                    assert(self.tx.timers@ =~= old(self).tx.timers@ + fresh_areas(st(*old(self)).lsa_orig_delayed@, 0).map_values(f));
                }
                while a < self.arenas.areas.len()
                    invariant
                        a <= self.arenas.areas@.len(),
                        self.wf(),
                        self.state is Some,
                        old(self).state is Some,
                        delays_applied(*old(self), *self, a as int),
                    decreases self.arenas.areas@.len() - a,
                {
                    let ghost mid = *self;
                    self.delay_area_orig(a);
                    proof { lemma_delays_step(*old(self), mid, *self, a as int); }
                    a += 1;
                }
            },
        }
        Ok(())
    }

    /// The delayed-origination timer of `lsdb` fired: the Router-LSA of an
    /// area waiting for it is rebuilt and queued for an origination check,
    /// and the area leaves the waiting list. A timer that nothing waits for
    /// any more is ignored.
    pub fn process_lsa_orig_delayed(&mut self, lsdb: LsdbId) -> (r: Result<(), Error>)
        requires
            old(self).wf(),
            old(self).state is Some,
        ensures
            final(self).wf(),
            r == lsdb_lookup(old(self).arenas, lsdb),
            r is Err ==> *final(self) == *old(self),
            r is Ok ==> orig_delayed_applied(*old(self), *final(self), lsdb),
    {
        match self.arenas.lookup_lsdb(lsdb) {
            Err(e) => return Err(e),
            Ok(()) => {},
        }
        let a = match lsdb {
            LsdbId::Area(a) => a,
            LsdbId::As => return Ok(()),
        };
        let mut rid: Option<u32> = None;
        if let Some(st) = &mut self.state {
            let mut kept: Vec<usize> = Vec::new();
            let mut j: usize = 0;
            while j < st.lsa_orig_delayed.len()
                invariant
                    j <= st.lsa_orig_delayed@.len(),
                    kept@ == without(st.lsa_orig_delayed@.subrange(0, j as int), a),
                    rid == (if exists|k: int| 0 <= k < j && st.lsa_orig_delayed@[k] == a { Some(st.router_id) } else { None::<u32> }),
                decreases st.lsa_orig_delayed@.len() - j,
            {
                let x = st.lsa_orig_delayed[j];
                assert(st.lsa_orig_delayed@.subrange(0, j + 1).drop_last() =~= st.lsa_orig_delayed@.subrange(0, j as int));
                assert(st.lsa_orig_delayed@.subrange(0, j + 1) =~= st.lsa_orig_delayed@.subrange(0, j as int).push(x));
                if x == a {
                    rid = Some(st.router_id);
                } else {
                    kept.push(x);
                }
                j += 1;
            }
            assert(st.lsa_orig_delayed@.subrange(0, j as int) =~= st.lsa_orig_delayed@);
            if rid.is_some() {
                st.lsa_orig_delayed = kept;
            }
        }
        if let Some(router_id) = rid {
            let body = self.router_lsa_body(a);
            self.tx.protocol_input.lsa_orig_check(
                LsdbId::Area(a),
                LsaKey { lsa_type: 1, adv_rtr: router_id, lsa_id: router_id },
                body,
            );
        }
        Ok(())
    }

    /// Sends the pending LS Update of an interface that is up, to one
    /// neighbor or to all.
    pub fn process_send_lsupd(&mut self, a: usize, i: usize, nbr: Option<usize>) -> (r: Result<(), Error>)
        requires
            old(self).wf(),
        ensures
            final(self).wf(),
            r == match nbr {
                Some(n) => nbr_lookup(old(self).arenas, a, i, n),
                None => iface_lookup(old(self).arenas, a, i),
            },
            r is Err ==> *final(self) == *old(self),
            r is Ok ==> send_lsupd_applied(*old(self), *final(self), i, nbr),
    {
        let found = match nbr {
            Some(n) => self.arenas.lookup_nbr(a, i, n),
            None => self.arenas.lookup_iface(a, i),
        };
        if let Err(e) = found {
            return Err(e);
        }
        proof {
            let idxs = self.arenas.areas@[a as int].interfaces@;
            let j = choose|j: int| 0 <= j < idxs.len() && idxs[j] == i;
            assert(self.arenas.areas@[a as int].interfaces@[j] < self.arenas.interfaces@.len());
        }
        if self.arenas.interfaces[i].state == IfState::Up && self.arenas.interfaces[i].ls_update_pending.len() > 0 {
            let mut lsas: Vec<LsaKey> = Vec::new();
            std::mem::swap(&mut lsas, &mut self.arenas.interfaces[i].ls_update_pending);
            self.tx.net.push(NetTxMsg::LsUpdate { iface_id: i, nbr_id: nbr, lsas });
            assert(self.tx.net@.drop_last() =~= old(self).tx.net@);
        }
        Ok(())
    }

    /// Retransmission interval of neighbor `n`, or delayed acknowledgment of
    /// an interface (`n` is `None`): the packet goes out if the interface is up.
    pub fn process_packet_timer(&mut self, a: usize, i: usize, nbr: Option<usize>, packet_type: PacketType) -> (r: Result<(), Error>)
        requires
            old(self).wf(),
        ensures
            final(self).wf(),
            r == match nbr {
                Some(n) => nbr_lookup(old(self).arenas, a, i, n),
                None => iface_lookup(old(self).arenas, a, i),
            },
            r is Err ==> *final(self) == *old(self),
            r is Ok ==> packet_timer_applied(*old(self), *final(self), i, nbr, packet_type),
    {
        let found = match nbr {
            Some(n) => self.arenas.lookup_nbr(a, i, n),
            None => self.arenas.lookup_iface(a, i),
        };
        if let Err(e) = found {
            return Err(e);
        }
        proof {
            let idxs = self.arenas.areas@[a as int].interfaces@;
            let j = choose|j: int| 0 <= j < idxs.len() && idxs[j] == i;
            assert(self.arenas.areas@[a as int].interfaces@[j] < self.arenas.interfaces@.len());
        }
        if self.arenas.interfaces[i].state == IfState::Up {
            self.tx.net.push(NetTxMsg::Packet { iface_id: i, nbr_id: nbr, packet_type });
        }
        Ok(())
    }
}

} // verus!
