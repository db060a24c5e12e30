use std::collections::VecDeque;
use vstd::prelude::*;

verus! {

/// One record of a bounded log, keyed by its sequence id.
#[derive(Clone, Debug)]
pub struct LogEntry<T> {
    pub id: u32,
    pub data: T,
}

/// A bounded log: the newest `capacity` records, oldest first.
#[derive(Clone, Debug)]
pub struct EventLog<T> {
    pub entries: VecDeque<LogEntry<T>>,
    pub next_id: u32,
    pub capacity: usize,
}

/// The last `n` elements of `s` (all of `s` when it is shorter).
pub open spec fn keep_last<A>(s: Seq<A>, n: nat) -> Seq<A> {
    if s.len() <= n {
        s
    } else {
        s.subrange(s.len() - n, s.len() as int)
    }
}

/// The id that follows `id`; ids wrap around after `u32::MAX`.
pub open spec fn next_log_id(id: u32) -> u32 {
    if id == u32::MAX {
        0
    } else {
        (id + 1) as u32
    }
}

/// Ids of the records strictly increase from oldest to newest.
pub open spec fn ids_increasing<T>(s: Seq<LogEntry<T>>) -> bool {
    forall|i: int, j: int| 0 <= i < j < s.len() ==> s[i].id < s[j].id
}

impl<T> EventLog<T> {
    pub open spec fn wf(&self) -> bool {
        &&& self.capacity > 0
        &&& self.entries.len() <= self.capacity
    }

    /// An empty log that keeps at most `capacity` records.
    pub fn new(capacity: usize) -> (r: EventLog<T>)
        requires
            capacity > 0,
        ensures
            r.wf(),
            r.entries@.len() == 0,
            r.next_id == 0,
            r.capacity == capacity,
    {
        EventLog { entries: VecDeque::new(), next_id: 0, capacity }
    }

    pub fn len(&self) -> (r: usize)
        ensures
            r == self.entries@.len(),
    {
        self.entries.len()
    }

    /// Appends a record under the next id, evicting the oldest record once
    /// the log would exceed its capacity. Returns the id given.
    pub fn push(&mut self, data: T) -> (id: u32)
        requires
            old(self).wf(),
        ensures
            final(self).wf(),
            id == old(self).next_id,
            final(self).next_id == next_log_id(old(self).next_id),
            final(self).capacity == old(self).capacity,
            final(self).entries@ == keep_last(
                old(self).entries@.push(LogEntry { id, data }),
                old(self).capacity as nat,
            ),
    {
        let id = self.next_id;
        self.next_id = self.next_id.wrapping_add(1);
        let ghost pushed = self.entries@.push(LogEntry { id, data });
        self.entries.push_back(LogEntry { id, data });
        assert(self.entries@ == pushed);
        if self.entries.len() > self.capacity {
            self.entries.pop_front();
            assert(self.entries@ =~= keep_last(pushed, self.capacity as nat));
        }
        id
    }
}

/// Bounding law: pushing records one after another keeps exactly the most
/// recent `capacity` of them, never more, with strictly increasing ids as
/// long as the id counter does not wrap around.
pub proof fn lemma_log_bounded<T>(log: EventLog<T>, data: T)
    requires
        log.wf(),
        ids_increasing(log.entries@),
        forall|i: int| 0 <= i < log.entries@.len() ==> log.entries@[i].id < log.next_id,
        log.next_id < u32::MAX,
    ensures
        ({
            let s = keep_last(log.entries@.push(LogEntry { id: log.next_id, data }), log.capacity as nat);
            &&& s.len() <= log.capacity
            &&& (log.entries@.len() == log.capacity ==> s.len() == log.capacity)
            &&& s.last() == LogEntry { id: log.next_id, data }
            &&& ids_increasing(s)
            &&& forall|i: int| 0 <= i < s.len() ==> s[i].id < next_log_id(log.next_id)
        }),
{
    let p = log.entries@.push(LogEntry { id: log.next_id, data });
    assert(ids_increasing(p));
}

/// `new` is `old` with one more record, `data`, under the next id: the oldest
/// record goes once the log would exceed its capacity. This is what `push`
/// does.
pub open spec fn log_pushed<T>(old: EventLog<T>, new: EventLog<T>, data: T) -> bool {
    &&& new.entries@ == keep_last(old.entries@.push(LogEntry { id: old.next_id, data }), old.capacity as nat)
    &&& new.next_id == next_log_id(old.next_id)
    &&& new.capacity == old.capacity
}

/// The records that pushing `data` in order creates, ids from `start` on.
pub open spec fn records<T>(start: u32, data: Seq<T>) -> Seq<LogEntry<T>> {
    Seq::new(data.len(), |k: int| LogEntry { id: (start + k) as u32, data: data[k] })
}

proof fn lemma_keep_last_push<A>(s: Seq<A>, x: A, c: nat)
    requires
        c > 0,
    ensures
        keep_last(keep_last(s, c).push(x), c) == keep_last(s.push(x), c),
{
    assert(keep_last(keep_last(s, c).push(x), c) =~= keep_last(s.push(x), c));
}

/// Bounding law over many insertions: after the records of `data` are
/// pushed one by one (`logs[k + 1]` is `logs[k]` after the `k`-th push), the
/// log holds exactly the most recent `capacity` of all its records, oldest
/// first, never more; and, the id counter not wrapping around, the ids
/// strictly increase and the newest is the one before the next id.
pub proof fn lemma_log_keeps_recent<T>(logs: Seq<EventLog<T>>, data: Seq<T>)
    requires
        logs.len() == data.len() + 1,
        logs[0].wf(),
        forall|k: int| 0 <= k < data.len() ==> log_pushed(#[trigger] logs[k], logs[k + 1], data[k]),
        logs[0].next_id + data.len() < u32::MAX,
    ensures
        ({
            let (first, last) = (logs[0], logs[data.len() as int]);
            &&& last.wf()
            &&& last.capacity == first.capacity
            &&& last.next_id == first.next_id + data.len()
            &&& last.entries@ == keep_last(first.entries@ + records(first.next_id, data), first.capacity as nat)
            &&& last.entries@.len() == if first.entries@.len() + data.len() <= first.capacity {
                first.entries@.len() + data.len()
            } else {
                first.capacity as nat
            }
            &&& (ids_increasing(first.entries@)
                && (forall|i: int| 0 <= i < first.entries@.len() ==> first.entries@[i].id < first.next_id))
                ==> ids_increasing(last.entries@)
                && (data.len() > 0 ==> last.entries@.last().id == last.next_id - 1)
        }),
    decreases data.len(),
{
    let first = logs[0];
    let n = data.len() as int;
    if n == 0 {
        assert(first.entries@ + records(first.next_id, data) =~= first.entries@);
    } else {
        let pl = logs.subrange(0, n);
        let pd = data.subrange(0, n - 1);
        assert forall|k: int| 0 <= k < pd.len() implies log_pushed(#[trigger] pl[k], pl[k + 1], pd[k]) by {
            assert(pl[k] == logs[k] && pl[k + 1] == logs[k + 1] && pd[k] == data[k]);
        }
        lemma_log_keeps_recent(pl, pd);
        let prev = logs[n - 1];
        assert(pl[n - 1] == prev);
        assert(log_pushed(logs[n - 1], logs[n], data[n - 1]));
        let all_prev = first.entries@ + records(first.next_id, pd);
        let rec = LogEntry { id: prev.next_id, data: data[n - 1] };
        assert(prev.next_id == first.next_id + (n - 1));
        assert(first.entries@ + records(first.next_id, data) =~= all_prev.push(rec));
        lemma_keep_last_push(all_prev, rec, first.capacity as nat);
        if ids_increasing(first.entries@)
            && (forall|i: int| 0 <= i < first.entries@.len() ==> first.entries@[i].id < first.next_id) {
            if n > 1 {
                assert(prev.entries@.last().id == prev.next_id - 1);
                assert forall|i: int| 0 <= i < prev.entries@.len() implies prev.entries@[i].id < prev.next_id by {
                    if i < prev.entries@.len() - 1 {
                        assert(prev.entries@[i].id < prev.entries@[prev.entries@.len() - 1].id);
                    }
                }
            }
            lemma_log_bounded(prev, data[n - 1]);
        }
    }
}

} // verus!
