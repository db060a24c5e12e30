use vstd::prelude::*;
use crate::lsdb::{LsaKey, LsdbId};
use crate::spf::SpfEvent;

verus! {

/// Capacity of each bounded input channel.
pub const BOUNDED_CAPACITY: usize = 4;

/// Interface state machine event.
#[derive(Clone, Copy, Debug, PartialEq, Eq, Structural)]
pub enum IsmEvent {
    InterfaceUp,
    NbrChange,
    InterfaceDown,
}

/// Neighbor state machine event.
#[derive(Clone, Copy, Debug, PartialEq, Eq, Structural)]
pub enum NsmEvent {
    HelloRcvd,
    TwoWayRcvd,
    AdjOk,
    Kill,
    InactivityTimer,
}

/// Packet kinds of the protocol.
#[derive(Clone, Copy, Debug, PartialEq, Eq, Structural)]
pub enum PacketType {
    Hello,
    DbDesc,
    LsRequest,
    LsUpdate,
    LsAck,
}

/// Structural change that asks for LSAs to be originated again.
#[derive(Clone, Copy, Debug, PartialEq, Eq, Structural)]
pub enum LsaOriginateEvent {
    AreaStart { area_id: usize },
    InterfaceStateChange { area_id: usize, iface_id: usize },
    NeighborToFromFull { area_id: usize, iface_id: usize },
    SrCfgChange,
}

/// Why an LSA is flushed.
#[derive(Clone, Copy, Debug, PartialEq, Eq, Structural)]
pub enum LsaFlushReason {
    Expiry,
    PrematureAging,
}

/// An input of the protocol instance. Objects are named by their keys in the
/// instance's arenas.
#[derive(Debug)]
pub enum ProtocolInputMsg {
    IsmEvent { area_key: usize, iface_key: usize, event: IsmEvent },
    NsmEvent { area_key: usize, iface_key: usize, nbr_key: usize, event: NsmEvent },
    NetRxPacket { area_key: usize, iface_key: usize, src: u32, dst: u32, packet: Vec<u8> },
    DbDescFree { area_key: usize, iface_key: usize, nbr_key: usize },
    SendLsUpdate { area_key: usize, iface_key: usize, nbr_key: Option<usize> },
    RxmtInterval { area_key: usize, iface_key: usize, nbr_key: usize, packet_type: PacketType },
    DelayedAck { area_key: usize, iface_key: usize },
    LsaOrigEvent { event: LsaOriginateEvent },
    LsaOrigCheck { lsdb_key: LsdbId, lsa_key: LsaKey, lsa_body: Vec<u8> },
    LsaOrigDelayed { lsdb_key: LsdbId, lsa_key: LsaKey },
    LsaFlush { lsdb_key: LsdbId, lse_key: u32, reason: LsaFlushReason },
    LsaRefresh { lsdb_key: LsdbId, lse_key: u32 },
    LsdbMaxAgeSweep { lsdb_key: LsdbId },
    SpfDelayEvent { event: SpfEvent },
}

/// Channel of a message, which is also its rank: a lower rank is served
/// first.
pub open spec fn rank(m: ProtocolInputMsg) -> nat {
    match m {
        ProtocolInputMsg::IsmEvent { .. } => 0,
        ProtocolInputMsg::NsmEvent { .. } => 1,
        ProtocolInputMsg::NetRxPacket { .. } => 2,
        ProtocolInputMsg::DbDescFree { .. } => 3,
        ProtocolInputMsg::SendLsUpdate { .. } => 4,
        ProtocolInputMsg::RxmtInterval { .. } => 5,
        ProtocolInputMsg::DelayedAck { .. } => 6,
        ProtocolInputMsg::LsaOrigEvent { .. } => 7,
        ProtocolInputMsg::LsaOrigCheck { .. } => 8,
        ProtocolInputMsg::LsaOrigDelayed { .. } => 9,
        ProtocolInputMsg::LsaFlush { .. } => 10,
        ProtocolInputMsg::LsaRefresh { .. } => 11,
        ProtocolInputMsg::LsdbMaxAgeSweep { .. } => 12,
        ProtocolInputMsg::SpfDelayEvent { .. } => 13,
    }
}

/// Channels with a bounded queue: received packets and the ticks of the
/// retransmission, delayed-ack, delayed-origination and MaxAge-sweep timers.
pub open spec fn is_bounded(c: nat) -> bool {
    c == 2 || c == 3 || c == 5 || c == 6 || c == 9 || c == 12
}

/// Number of messages of channel `c` in `s`.
pub open spec fn count_rank(s: Seq<ProtocolInputMsg>, c: nat) -> nat
    decreases s.len(),
{
    if s.len() == 0 {
        0
    } else {
        count_rank(s.drop_last(), c) + if rank(s.last()) == c { 1nat } else { 0nat }
    }
}

impl ProtocolInputMsg {
    pub fn rank(&self) -> (r: usize)
        ensures
            r == rank(*self),
    {
        match self {
            ProtocolInputMsg::IsmEvent { .. } => 0,
            ProtocolInputMsg::NsmEvent { .. } => 1,
            ProtocolInputMsg::NetRxPacket { .. } => 2,
            ProtocolInputMsg::DbDescFree { .. } => 3,
            ProtocolInputMsg::SendLsUpdate { .. } => 4,
            ProtocolInputMsg::RxmtInterval { .. } => 5,
            ProtocolInputMsg::DelayedAck { .. } => 6,
            ProtocolInputMsg::LsaOrigEvent { .. } => 7,
            ProtocolInputMsg::LsaOrigCheck { .. } => 8,
            ProtocolInputMsg::LsaOrigDelayed { .. } => 9,
            ProtocolInputMsg::LsaFlush { .. } => 10,
            ProtocolInputMsg::LsaRefresh { .. } => 11,
            ProtocolInputMsg::LsdbMaxAgeSweep { .. } => 12,
            ProtocolInputMsg::SpfDelayEvent { .. } => 13,
        }
    }
}

/// Sending side of the input channels: the messages sent, in order.
#[derive(Debug)]
pub struct ProtocolInputChannelsTx {
    pub sent: Vec<ProtocolInputMsg>,
}

/// Receiving side of the input channels: the queued messages, in order of
/// arrival.
#[derive(Debug)]
pub struct ProtocolInputChannelsRx {
    pub pending: Vec<ProtocolInputMsg>,
}

/// A pair of connected, empty input channel sets.
pub fn protocol_input_channels() -> (r: (ProtocolInputChannelsTx, ProtocolInputChannelsRx))
    ensures
        r.0.sent@.len() == 0,
        r.1.pending@.len() == 0,
{
    (ProtocolInputChannelsTx { sent: Vec::new() }, ProtocolInputChannelsRx { pending: Vec::new() })
}

impl ProtocolInputChannelsTx {
    /// Queues an interface state machine event.
    pub fn ism_event(&mut self, area_id: usize, iface_id: usize, event: IsmEvent)
        ensures
            final(self).sent@ == old(self).sent@.push(
                ProtocolInputMsg::IsmEvent { area_key: area_id, iface_key: iface_id, event },
            ),
    {
        self.sent.push(ProtocolInputMsg::IsmEvent { area_key: area_id, iface_key: iface_id, event });
    }

    /// Queues a neighbor state machine event.
    pub fn nsm_event(&mut self, area_id: usize, iface_id: usize, nbr_id: usize, event: NsmEvent)
        ensures
            final(self).sent@ == old(self).sent@.push(
                ProtocolInputMsg::NsmEvent {
                    area_key: area_id,
                    iface_key: iface_id,
                    nbr_key: nbr_id,
                    event,
                },
            ),
    {
        self.sent.push(
            ProtocolInputMsg::NsmEvent { area_key: area_id, iface_key: iface_id, nbr_key: nbr_id, event },
        );
    }

    /// Queues a request to send the pending LS Updates of an interface (to
    /// one neighbor, or to all of them).
    pub fn send_lsupd(&mut self, area_id: usize, iface_id: usize, nbr_id: Option<usize>)
        ensures
            final(self).sent@ == old(self).sent@.push(
                ProtocolInputMsg::SendLsUpdate { area_key: area_id, iface_key: iface_id, nbr_key: nbr_id },
            ),
    {
        self.sent.push(
            ProtocolInputMsg::SendLsUpdate { area_key: area_id, iface_key: iface_id, nbr_key: nbr_id },
        );
    }

    /// Queues an LSA origination event.
    pub fn lsa_orig_event(&mut self, event: LsaOriginateEvent)
        ensures
            final(self).sent@ == old(self).sent@.push(ProtocolInputMsg::LsaOrigEvent { event }),
    {
        self.sent.push(ProtocolInputMsg::LsaOrigEvent { event });
    }

    /// Queues an origination check of a proposed LSA body.
    pub fn lsa_orig_check(&mut self, lsdb_id: LsdbId, lsa_key: LsaKey, lsa_body: Vec<u8>)
        ensures
            final(self).sent@.len() == old(self).sent@.len() + 1,
            final(self).sent@.drop_last() == old(self).sent@,
            match final(self).sent@.last() {
                ProtocolInputMsg::LsaOrigCheck { lsdb_key, lsa_key: k, lsa_body: b } =>
                    lsdb_key == lsdb_id && k == lsa_key && b@ == lsa_body@,
                _ => false,
            },
    {
        self.sent.push(ProtocolInputMsg::LsaOrigCheck { lsdb_key: lsdb_id, lsa_key, lsa_body });
        assert(self.sent@.drop_last() =~= old(self).sent@);
    }

    /// Queues the flush of an LSA entry.
    pub fn lsa_flush(&mut self, lsdb_id: LsdbId, lse_id: u32, reason: LsaFlushReason)
        ensures
            final(self).sent@ == old(self).sent@.push(
                ProtocolInputMsg::LsaFlush { lsdb_key: lsdb_id, lse_key: lse_id, reason },
            ),
    {
        self.sent.push(ProtocolInputMsg::LsaFlush { lsdb_key: lsdb_id, lse_key: lse_id, reason });
    }

    /// Queues an SPF delay event.
    pub fn spf_delay_event(&mut self, event: SpfEvent)
        ensures
            final(self).sent@ == old(self).sent@.push(ProtocolInputMsg::SpfDelayEvent { event }),
    {
        self.sent.push(ProtocolInputMsg::SpfDelayEvent { event });
    }

    /// Hands over every message sent so far, in order, leaving none.
    pub fn take(&mut self) -> (r: Vec<ProtocolInputMsg>)
        ensures
            r@ == old(self).sent@,
            final(self).sent@.len() == 0,
    {
        let mut r: Vec<ProtocolInputMsg> = Vec::new();
        std::mem::swap(&mut r, &mut self.sent);
        r
    }
}

impl ProtocolInputChannelsRx {
    fn count_rank(&self, c: usize) -> (n: usize)
        ensures
            n == count_rank(self.pending@, c as nat),
    {
        let mut n: usize = 0;
        let mut i: usize = 0;
        while i < self.pending.len()
            invariant
                i <= self.pending@.len(),
                n == count_rank(self.pending@.subrange(0, i as int), c as nat),
                n <= i,
            decreases self.pending@.len() - i,
        {
            assert(self.pending@.subrange(0, i + 1).drop_last() =~= self.pending@.subrange(0, i as int));
            if self.pending[i].rank() == c {
                n += 1;
            }
            i += 1;
        }
        assert(self.pending@.subrange(0, i as int) =~= self.pending@);
        n
    }

    /// Whether the channel of `msg` has room for it.
    pub fn accepts(&self, msg: &ProtocolInputMsg) -> (r: bool)
        ensures
            r == !(is_bounded(rank(*msg)) && count_rank(self.pending@, rank(*msg)) >= BOUNDED_CAPACITY),
    {
        let c = msg.rank();
        !((c == 2 || c == 3 || c == 5 || c == 6 || c == 9 || c == 12) && self.count_rank(c) >= BOUNDED_CAPACITY)
    }

    /// Queues a message on its channel. A bounded channel that already holds
    /// its capacity refuses the message (the sender must back off): then the
    /// result is `false` and nothing is queued.
    pub fn send(&mut self, msg: ProtocolInputMsg) -> (accepted: bool)
        ensures
            accepted == !(is_bounded(rank(msg)) && count_rank(old(self).pending@, rank(msg))
                >= BOUNDED_CAPACITY),
            final(self).pending@ == if accepted { old(self).pending@.push(msg) } else { old(self).pending@ },
    {
        if !self.accepts(&msg) {
            return false;
        }
        self.pending.push(msg);
        true
    }

    /// Hands every message sent on `tx` to these channels, in order, leaving
    /// `tx` empty. Returns those that a full bounded channel refused. The
    /// instance only sends itself control events, whose channels are
    /// unbounded: then every message is queued and none is refused.
    pub fn forward(&mut self, tx: &mut ProtocolInputChannelsTx) -> (refused: Vec<ProtocolInputMsg>)
        ensures
            final(tx).sent@.len() == 0,
            (forall|i: int| 0 <= i < old(tx).sent@.len() ==> !is_bounded(rank(#[trigger] old(tx).sent@[i])))
                ==> final(self).pending@ == old(self).pending@ + old(tx).sent@ && refused@.len() == 0,
    {
        let mut msgs = tx.take();
        let ghost all = msgs@;
        let total = msgs.len();
        let mut refused: Vec<ProtocolInputMsg> = Vec::new();
        let mut k: usize = 0;
        while msgs.len() > 0
            invariant
                all == old(tx).sent@,
                all.len() == total,
                msgs@.len() + k == total,
                msgs@ == all.subrange(k as int, total as int),
                tx.sent@.len() == 0,
                (forall|i: int| 0 <= i < all.len() ==> !is_bounded(rank(#[trigger] all[i])))
                    ==> self.pending@ == old(self).pending@ + all.subrange(0, k as int) && refused@.len() == 0,
            decreases msgs@.len(),
        {
            let ghost before = msgs@;
            let m = msgs.remove(0);
            assert(m == all[k as int]);
            assert(msgs@ =~= all.subrange(k + 1, total as int));
            let ghost p0 = self.pending@;
            if self.accepts(&m) {
                self.pending.push(m);
            } else {
                refused.push(m);
            }
            assert(all.subrange(0, k + 1) =~= all.subrange(0, k as int).push(all[k as int]));
            k += 1;
        }
        assert(all.subrange(0, k as int) =~= all);
        refused
    }

    /// Takes the next message to process: the oldest message of the
    /// highest-priority channel that holds any, whatever arrived before it on
    /// other channels. `None` when every channel is empty.
    pub fn recv(&mut self) -> (r: Option<ProtocolInputMsg>)
        ensures
            old(self).pending@.len() == 0 <==> r is None,
            r is Some ==> exists|i: int| #![trigger old(self).pending@[i]]
                0 <= i < old(self).pending@.len()
                && r == Some(old(self).pending@[i])
                && final(self).pending@ == old(self).pending@.remove(i)
                && (forall|j: int| 0 <= j < old(self).pending@.len()
                    ==> rank(old(self).pending@[i]) <= rank(#[trigger] old(self).pending@[j]))
                && (forall|j: int| 0 <= j < i
                    ==> rank(old(self).pending@[i]) < rank(#[trigger] old(self).pending@[j])),
            r is None ==> final(self).pending@ == old(self).pending@,
    {
        if self.pending.len() == 0 {
            return None;
        }
        let mut best: usize = 0;
        let mut best_rank: usize = self.pending[0].rank();
        let mut i: usize = 1;
        while i < self.pending.len()
            invariant
                1 <= i <= self.pending@.len(),
                best < i,
                best_rank == rank(self.pending@[best as int]),
                forall|j: int| 0 <= j < i ==> best_rank <= rank(#[trigger] self.pending@[j]),
                forall|j: int| 0 <= j < best ==> best_rank < rank(#[trigger] self.pending@[j]),
            decreases self.pending@.len() - i,
        {
            let c = self.pending[i].rank();
            if c < best_rank {
                best = i;
                best_rank = c;
            }
            i += 1;
        }
        let ghost before = self.pending@;
        let m = self.pending.remove(best);
        assert(before[best as int] == m);
        Some(m)
    }
}

} // verus!
