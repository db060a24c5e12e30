use vstd::prelude::*;

verus! {

/// Age at which an LSA is flushed from every router's database.
pub const MAX_AGE: u16 = 3600;
/// First sequence number of a newly originated LSA.
pub const INITIAL_SEQ_NO: i32 = -2147483647;
/// Last sequence number before the sequence starts over.
pub const MAX_SEQ_NO: i32 = 2147483647;

/// Which database an LSA belongs to: that of one area (by its index in the
/// area arena) or the AS-scope one.
#[derive(Clone, Copy, Debug, PartialEq, Eq, Structural)]
pub enum LsdbId {
    Area(usize),
    As,
}

/// What identifies an LSA within its database.
#[derive(Clone, Copy, Debug, PartialEq, Eq, Structural)]
pub struct LsaKey {
    pub lsa_type: u16,
    pub adv_rtr: u32,
    pub lsa_id: u32,
}

/// One LSA held in a database.
#[derive(Debug)]
pub struct LsaEntry {
    /// Stable identifier of the entry.
    pub id: u32,
    pub lsdb: LsdbId,
    pub key: LsaKey,
    pub seq_no: i32,
    pub age: u16,
    /// Version-specific body, encoded.
    pub body: Vec<u8>,
    pub self_originated: bool,
    /// Number of retransmission lists that still hold the LSA.
    pub rxmt_count: u32,
}

/// Link-state database: the LSAs of every scope, each tagged with its own.
#[derive(Debug)]
pub struct Lsdb {
    pub entries: Vec<LsaEntry>,
    pub next_id: u32,
}

/// The sequence number that follows `s`; past the last one the sequence
/// starts over.
pub open spec fn next_seq_no(s: i32) -> i32 {
    if s == MAX_SEQ_NO {
        INITIAL_SEQ_NO
    } else {
        (s + 1) as i32
    }
}

pub open spec fn entry_is(e: LsaEntry, lsdb: LsdbId, key: LsaKey) -> bool {
    e.lsdb == lsdb && e.key == key
}

/// An entry that the MaxAge sweep of `lsdb` removes: timed out, held by no
/// retransmission list, and not among the LSAs `held` still queued for
/// sending.
pub open spec fn swept(e: LsaEntry, lsdb: LsdbId, held: Seq<LsaKey>) -> bool {
    e.lsdb == lsdb && e.age == MAX_AGE && e.rxmt_count == 0 && !held.contains(e.key)
}

/// The entries that survive a MaxAge sweep of `lsdb`, in order.
pub open spec fn sweep_survivors(s: Seq<LsaEntry>, lsdb: LsdbId, held: Seq<LsaKey>) -> Seq<LsaEntry>
    decreases s.len(),
{
    if s.len() == 0 {
        Seq::empty()
    } else {
        let p = sweep_survivors(s.drop_last(), lsdb, held);
        if swept(s.last(), lsdb, held) {
            p
        } else {
            p.push(s.last())
        }
    }
}

/// Number of self-originated entries.
pub open spec fn self_originated_count(s: Seq<LsaEntry>) -> nat
    decreases s.len(),
{
    if s.len() == 0 {
        0
    } else {
        self_originated_count(s.drop_last()) + if s.last().self_originated { 1nat } else { 0nat }
    }
}

/// Outcome of an origination check.
#[derive(Clone, Copy, Debug, PartialEq, Eq, Structural)]
pub enum OrigOutcome {
    /// The proposed body equals the one in place: nothing to do.
    Unchanged,
    /// The LSA was (re)originated in the entry with this id, under this
    /// sequence number.
    Originated(u32, i32),
}

pub fn next_seq(s: i32) -> (r: i32)
    ensures
        r == next_seq_no(s),
{
    if s == MAX_SEQ_NO {
        INITIAL_SEQ_NO
    } else {
        s + 1
    }
}

fn bytes_eq(a: &Vec<u8>, b: &Vec<u8>) -> (r: bool)
    ensures
        r == (a@ == b@),
{
    if a.len() != b.len() {
        assert(a@.len() != b@.len());
        return false;
    }
    let mut i: usize = 0;
    while i < a.len()
        invariant
            i <= a@.len(),
            a@.len() == b@.len(),
            forall|j: int| 0 <= j < i ==> a@[j] == b@[j],
        decreases a@.len() - i,
    {
        if a[i] != b[i] {
            return false;
        }
        i += 1;
    }
    assert(a@ =~= b@);
    true
}

impl Lsdb {
    pub fn new() -> (r: Lsdb)
        ensures
            r.entries@.len() == 0,
            r.next_id == 0,
    {
        Lsdb { entries: Vec::new(), next_id: 0 }
    }

    /// Index of the first entry of database `lsdb` with key `key`.
    pub fn find(&self, lsdb: LsdbId, key: LsaKey) -> (r: Option<usize>)
        ensures
            match r {
                Some(i) => i < self.entries@.len() && entry_is(self.entries@[i as int], lsdb, key)
                    && forall|j: int| 0 <= j < i ==> !entry_is(#[trigger] self.entries@[j], lsdb, key),
                None => forall|j: int|
                    0 <= j < self.entries@.len() ==> !entry_is(#[trigger] self.entries@[j], lsdb, key),
            },
    {
        let mut i: usize = 0;
        while i < self.entries.len()
            invariant
                i <= self.entries@.len(),
                forall|j: int| 0 <= j < i ==> !entry_is(#[trigger] self.entries@[j], lsdb, key),
            decreases self.entries@.len() - i,
        {
            if self.entries[i].lsdb == lsdb && self.entries[i].key == key {
                return Some(i);
            }
            i += 1;
        }
        None
    }

    /// Index of the first entry of database `lsdb` with id `id`.
    pub fn find_by_id(&self, lsdb: LsdbId, id: u32) -> (r: Option<usize>)
        ensures
            match r {
                Some(i) => i < self.entries@.len() && self.entries@[i as int].id == id
                    && self.entries@[i as int].lsdb == lsdb
                    && forall|j: int| 0 <= j < i ==> !(#[trigger] self.entries@[j].id == id
                        && self.entries@[j].lsdb == lsdb),
                None => forall|j: int| 0 <= j < self.entries@.len()
                    ==> !(#[trigger] self.entries@[j].id == id && self.entries@[j].lsdb == lsdb),
            },
    {
        let mut i: usize = 0;
        while i < self.entries.len()
            invariant
                i <= self.entries@.len(),
                forall|j: int| 0 <= j < i ==> !(#[trigger] self.entries@[j].id == id
                    && self.entries@[j].lsdb == lsdb),
            decreases self.entries@.len() - i,
        {
            if self.entries[i].id == id && self.entries[i].lsdb == lsdb {
                return Some(i);
            }
            i += 1;
        }
        None
    }

    /// Origination check of a self-originated LSA: a body equal to the one
    /// in place (and not flushed) is discarded; a changed one replaces it
    /// under the next sequence number; a new one is added with the initial
    /// sequence number.
    pub fn orig_check(&mut self, lsdb: LsdbId, key: LsaKey, body: Vec<u8>) -> (r: OrigOutcome)
        ensures
            orig_checked(*old(self), *final(self), lsdb, key, body@, r),
    {
        let found = self.find(lsdb, key);
        proof {
            if let Some(i) = found {
                assert(entry_is(self.entries@[i as int], lsdb, key));
                let k = self_find(self.entries@, lsdb, key)->Some_0;
                assert(k == i as int);
            } else {
                assert(self_find(self.entries@, lsdb, key) is None);
            }
        }
        match found {
            Some(i) => {
                if self.entries[i].self_originated && bytes_eq(&self.entries[i].body, &body)
                    && self.entries[i].age < MAX_AGE {
                    return OrigOutcome::Unchanged;
                }
                // A changed body, a flushed LSA, or a copy of our own LSA
                // that a peer sent: (re)originate it with a newer sequence
                // number.
                let old_e = self.entries.remove(i);
                let seq_no = next_seq(old_e.seq_no);
                let e = LsaEntry {
                    id: old_e.id,
                    lsdb,
                    key,
                    seq_no,
                    age: 0,
                    body,
                    self_originated: true,
                    rxmt_count: old_e.rxmt_count,
                };
                self.entries.insert(i, e);
                OrigOutcome::Originated(old_e.id, seq_no)
            },
            None => {
                let id = self.next_id;
                self.next_id = self.next_id.wrapping_add(1);
                let e = LsaEntry {
                    id,
                    lsdb,
                    key,
                    seq_no: INITIAL_SEQ_NO,
                    age: 0,
                    body,
                    self_originated: true,
                    rxmt_count: 0,
                };
                let ghost before = self.entries@;
                self.entries.push(e);
                assert(self.entries@.subrange(0, before.len() as int) =~= before);
                OrigOutcome::Originated(id, INITIAL_SEQ_NO)
            },
        }
    }
}

impl Lsdb {
    /// Flushes the entry with id `id` of database `lsdb`: its age becomes
    /// MaxAge, so that peers drop it, and the MaxAge sweep removes it once no
    /// retransmission list holds it. Returns whether such an entry exists.
    pub fn flush(&mut self, lsdb: LsdbId, id: u32) -> (r: bool)
        ensures
            flushed(*old(self), *final(self), lsdb, id, r),
    {
        match self.find_by_id(lsdb, id) {
            Some(i) => {
                proof { lemma_first_with_id(self.entries@, lsdb, id, i as int); }
                let old_e = self.entries.remove(i);
                let e = LsaEntry { age: MAX_AGE, ..old_e };
                self.entries.insert(i, e);
                true
            },
            None => false,
        }
    }

    /// Refreshes the self-originated entry with id `id` of database `lsdb`:
    /// the same body under the next sequence number, with its age reset.
    /// Returns whether such an entry exists.
    pub fn refresh(&mut self, lsdb: LsdbId, id: u32) -> (r: bool)
        ensures
            refreshed(*old(self), *final(self), lsdb, id, r),
    {
        match self.find_by_id(lsdb, id) {
            Some(i) => {
                proof { lemma_first_with_id(self.entries@, lsdb, id, i as int); }
                if !self.entries[i].self_originated {
                    return false;
                }
                let old_e = self.entries.remove(i);
                let e = LsaEntry { age: 0, seq_no: next_seq(old_e.seq_no), ..old_e };
                self.entries.insert(i, e);
                true
            },
            None => false,
        }
    }

    /// MaxAge sweep of database `lsdb`: removes every entry that reached
    /// MaxAge, that no retransmission list holds and whose key is not among
    /// `held`, the LSAs still queued for sending. Returns how many went.
    pub fn maxage_sweep(&mut self, lsdb: LsdbId, held: &Vec<LsaKey>) -> (n: usize)
        ensures
            final(self).entries@ == sweep_survivors(old(self).entries@, lsdb, held@),
            n == old(self).entries@.len() - final(self).entries@.len(),
            final(self).next_id == old(self).next_id,
    {
        let ghost s0 = self.entries@;
        let total = self.entries.len();
        let mut kept: Vec<LsaEntry> = Vec::new();
        let mut rest: Vec<LsaEntry> = Vec::new();
        std::mem::swap(&mut rest, &mut self.entries);
        let mut removed: usize = 0;
        proof { lemma_survivors_len(s0, lsdb, held@); }
        while rest.len() > 0
            invariant
                rest@ == s0.subrange(s0.len() - rest@.len(), s0.len() as int),
                s0.len() == total,
                kept@ == sweep_survivors(s0.subrange(0, s0.len() - rest@.len()), lsdb, held@),
                removed + kept@.len() == s0.len() - rest@.len(),
                self.next_id == old(self).next_id,
            decreases rest@.len(),
        {
            let ghost k = s0.len() - rest@.len();
            let e = rest.remove(0);
            assert(e == s0[k]);
            assert(s0.subrange(0, k + 1).drop_last() =~= s0.subrange(0, k));
            if e.lsdb == lsdb && e.age == MAX_AGE && e.rxmt_count == 0 && !holds_key(held, e.key) {
                removed += 1;
            } else {
                kept.push(e);
            }
            assert(rest@ =~= s0.subrange(s0.len() - rest@.len(), s0.len() as int));
        }
        assert(s0.subrange(0, s0.len() as int) =~= s0);
        self.entries = kept;
        removed
    }

    /// The self-originated entries, in the order they are stored: database,
    /// id, key and sequence number of each.
    pub fn self_originated(&self) -> (r: Vec<(LsdbId, u32, LsaKey, i32)>)
        ensures
            r@ == self_originated_list(self.entries@),
    {
        let mut r: Vec<(LsdbId, u32, LsaKey, i32)> = Vec::new();
        let mut i: usize = 0;
        while i < self.entries.len()
            invariant
                i <= self.entries@.len(),
                r@ == self_originated_list(self.entries@.subrange(0, i as int)),
            decreases self.entries@.len() - i,
        {
            assert(self.entries@.subrange(0, i + 1).drop_last() =~= self.entries@.subrange(0, i as int));
            if self.entries[i].self_originated {
                r.push((self.entries[i].lsdb, self.entries[i].id, self.entries[i].key, self.entries[i].seq_no));
            }
            i += 1;
        }
        assert(self.entries@.subrange(0, i as int) =~= self.entries@);
        r
    }
}

/// Database, id, key and sequence number of each self-originated entry of
/// `s`, in order.
pub open spec fn self_originated_list(s: Seq<LsaEntry>) -> Seq<(LsdbId, u32, LsaKey, i32)>
    decreases s.len(),
{
    if s.len() == 0 {
        Seq::empty()
    } else {
        let p = self_originated_list(s.drop_last());
        let e = s.last();
        if e.self_originated { p.push((e.lsdb, e.id, e.key, e.seq_no)) } else { p }
    }
}

/// There are as many self-originated entries as the list has items.
pub proof fn lemma_self_originated_count(s: Seq<LsaEntry>)
    ensures
        self_originated_list(s).len() == self_originated_count(s),
    decreases s.len(),
{
    if s.len() > 0 {
        lemma_self_originated_count(s.drop_last());
    }
}

/// Index of the first entry of `lsdb` with id `id` (the length when none).
pub open spec fn first_with_id(s: Seq<LsaEntry>, lsdb: LsdbId, id: u32) -> int
    decreases s.len(),
{
    if s.len() == 0 {
        0
    } else {
        let k = first_with_id(s.drop_last(), lsdb, id);
        if k < s.len() - 1 {
            k
        } else if s.last().id == id && s.last().lsdb == lsdb {
            s.len() - 1
        } else {
            s.len() as int
        }
    }
}

pub proof fn lemma_first_with_id(s: Seq<LsaEntry>, lsdb: LsdbId, id: u32, i: int)
    requires
        0 <= i < s.len(),
        s[i].id == id && s[i].lsdb == lsdb,
        forall|j: int| 0 <= j < i ==> !(#[trigger] s[j].id == id && s[j].lsdb == lsdb),
    ensures
        first_with_id(s, lsdb, id) == i,
    decreases s.len(),
{
    if i < s.len() - 1 {
        lemma_first_with_id(s.drop_last(), lsdb, id, i);
    } else {
        lemma_no_id(s.drop_last(), lsdb, id);
    }
}

/// No entry of `lsdb` has id `id`: the first one sits past the end.
pub proof fn lemma_no_id(s: Seq<LsaEntry>, lsdb: LsdbId, id: u32)
    requires
        forall|j: int| 0 <= j < s.len() ==> !(#[trigger] s[j].id == id && s[j].lsdb == lsdb),
    ensures
        first_with_id(s, lsdb, id) == s.len(),
    decreases s.len(),
{
    if s.len() > 0 {
        lemma_no_id(s.drop_last(), lsdb, id);
    }
}

proof fn lemma_survivors_len(s: Seq<LsaEntry>, lsdb: LsdbId, held: Seq<LsaKey>)
    ensures
        sweep_survivors(s, lsdb, held).len() <= s.len(),
    decreases s.len(),
{
    if s.len() > 0 {
        lemma_survivors_len(s.drop_last(), lsdb, held);
    }
}

/// Whether `held` holds `key`.
pub fn holds_key(held: &Vec<LsaKey>, key: LsaKey) -> (r: bool)
    ensures
        r == held@.contains(key),
{
    let mut i: usize = 0;
    while i < held.len()
        invariant
            i <= held@.len(),
            forall|j: int| 0 <= j < i ==> held@[j] != key,
        decreases held@.len() - i,
    {
        if held[i] == key {
            assert(held@[i as int] == key);
            return true;
        }
        i += 1;
    }
    false
}

/// Effect of an origination check that returned `r`.
pub open spec fn orig_checked(old: Lsdb, new: Lsdb, lsdb: LsdbId, key: LsaKey, body: Seq<u8>, r: OrigOutcome) -> bool {
    match self_find(old.entries@, lsdb, key) {
        Some(i) => {
            let e = old.entries@[i];
            if e.self_originated && e.body@ == body && e.age < MAX_AGE {
                &&& r == OrigOutcome::Unchanged
                &&& new == old
            } else {
                &&& r == OrigOutcome::Originated(e.id, next_seq_no(e.seq_no))
                &&& new.next_id == old.next_id
                &&& new.entries@.len() == old.entries@.len()
                &&& forall|j: int| 0 <= j < old.entries@.len() && j != i
                    ==> new.entries@[j] == old.entries@[j]
                &&& new.entries@[i].id == e.id
                &&& new.entries@[i].lsdb == lsdb
                &&& new.entries@[i].key == key
                &&& new.entries@[i].seq_no == next_seq_no(e.seq_no)
                &&& new.entries@[i].age == 0
                &&& new.entries@[i].body@ == body
                &&& new.entries@[i].self_originated
                &&& new.entries@[i].rxmt_count == e.rxmt_count
            }
        },
        None => {
            let n = old.entries@.len();
            &&& r == OrigOutcome::Originated(old.next_id, INITIAL_SEQ_NO)
            &&& new.next_id == (if old.next_id == u32::MAX { 0 } else { old.next_id + 1 })
            &&& new.entries@.len() == n + 1
            &&& new.entries@.subrange(0, n as int) == old.entries@
            &&& new.entries@[n as int].id == old.next_id
            &&& new.entries@[n as int].lsdb == lsdb
            &&& new.entries@[n as int].key == key
            &&& new.entries@[n as int].seq_no == INITIAL_SEQ_NO
            &&& new.entries@[n as int].age == 0
            &&& new.entries@[n as int].body@ == body
            &&& new.entries@[n as int].self_originated
            &&& new.entries@[n as int].rxmt_count == 0
        },
    }
}

/// Effect of a flush that returned `r`.
pub open spec fn flushed(old: Lsdb, new: Lsdb, lsdb: LsdbId, id: u32, r: bool) -> bool {
    &&& r == (exists|j: int| 0 <= j < old.entries@.len()
        && (#[trigger] old.entries@[j].id == id && old.entries@[j].lsdb == lsdb))
    &&& new.next_id == old.next_id
    &&& new.entries@.len() == old.entries@.len()
    &&& forall|j: int| 0 <= j < old.entries@.len() ==> {
        let (o, f) = (old.entries@[j], #[trigger] new.entries@[j]);
        &&& f.id == o.id && f.lsdb == o.lsdb && f.key == o.key && f.seq_no == o.seq_no
        &&& f.body@ == o.body@ && f.self_originated == o.self_originated
        &&& f.rxmt_count == o.rxmt_count
        &&& f.age == if r && j == first_with_id(old.entries@, lsdb, id) { MAX_AGE } else { o.age }
    }
}

/// Effect of a refresh that returned `r`.
pub open spec fn refreshed(old: Lsdb, new: Lsdb, lsdb: LsdbId, id: u32, r: bool) -> bool {
    &&& r == (exists|j: int| 0 <= j < old.entries@.len()
        && (#[trigger] old.entries@[j].id == id && old.entries@[j].lsdb == lsdb)
        && j == first_with_id(old.entries@, lsdb, id)
        && old.entries@[j].self_originated)
    &&& new.next_id == old.next_id
    &&& new.entries@.len() == old.entries@.len()
    &&& forall|j: int| 0 <= j < old.entries@.len() ==> {
        let (o, f) = (old.entries@[j], #[trigger] new.entries@[j]);
        &&& f.id == o.id && f.lsdb == o.lsdb && f.key == o.key
        &&& f.body@ == o.body@ && f.self_originated == o.self_originated
        &&& f.rxmt_count == o.rxmt_count
        &&& f.seq_no == if r && j == first_with_id(old.entries@, lsdb, id) { next_seq_no(o.seq_no) } else { o.seq_no }
        &&& f.age == if r && j == first_with_id(old.entries@, lsdb, id) { 0 } else { o.age }
    }
}

/// Index of the entry of `lsdb` with key `key`, the first one if any.
pub open spec fn self_find(s: Seq<LsaEntry>, lsdb: LsdbId, key: LsaKey) -> Option<int> {
    if exists|i: int| 0 <= i < s.len() && entry_is(#[trigger] s[i], lsdb, key) {
        Some(choose|i: int| 0 <= i < s.len() && entry_is(#[trigger] s[i], lsdb, key)
            && forall|j: int| 0 <= j < i ==> !entry_is(#[trigger] s[j], lsdb, key))
    } else {
        None
    }
}

} // verus!
