//! The client registry: identity-keyed records with time-based liveness.
//!
//! The store is a sequence of uniquely-keyed entries viewed as a map from
//! identity to record. Every operation is a whole-record transaction: callers
//! serialize access (one exclusive lock around the store), and each call
//! leaves every surviving record exactly as some single write produced it.

use vstd::prelude::*;
use crate::protocol::{ClientInfo, ClientRecord};

verus! {

/// Whether a record's last sign of life is within `ttl` of `now`.
pub open spec fn spec_alive(rec: ClientRecord, ttl: u64, now: u64) -> bool {
    now as int - rec.last_seen as int <= ttl as int
}

/// The registry after refreshing `id`'s liveness stamp to `now`.
pub open spec fn spec_touched(m: Map<u128, ClientRecord>, id: u128, now: u64) -> Map<
    u128,
    ClientRecord,
> {
    m.insert(
        id,
        ClientRecord { address: m[id].address, device_type: m[id].device_type, last_seen: now },
    )
}

/// The registry after evicting every record older than `ttl` at `now`.
pub open spec fn spec_swept(m: Map<u128, ClientRecord>, ttl: u64, now: u64) -> Map<
    u128,
    ClientRecord,
> {
    Map::new(|k: u128| m.dom().contains(k) && spec_alive(m[k], ttl, now), |k: u128| m[k])
}

/// Liveness eviction: after a sweep at `now` with window `ttl`, a record
/// whose last sign of life is older than the window is absent, and one
/// touched within the window survives unchanged.
pub proof fn lemma_liveness_eviction(m: Map<u128, ClientRecord>, id: u128, ttl: u64, now: u64)
    requires
        m.dom().contains(id),
    ensures
        !spec_alive(m[id], ttl, now) ==> !spec_swept(m, ttl, now).dom().contains(id),
        spec_alive(m[id], ttl, now) ==> spec_swept(m, ttl, now).dom().contains(id) && spec_swept(
            m,
            ttl,
            now,
        )[id] == m[id],
{
}

/// Idempotent touch: refreshing a known identity never changes the key set,
/// changes nothing of other records, changes only the liveness stamp of its
/// own, and refreshing twice is the same as refreshing once.
pub proof fn lemma_touch_idempotent(m: Map<u128, ClientRecord>, id: u128, t1: u64, t2: u64)
    requires
        m.dom().contains(id),
    ensures
        spec_touched(m, id, t1).dom() == m.dom(),
        spec_touched(m, id, t1)[id].address == m[id].address,
        spec_touched(m, id, t1)[id].device_type == m[id].device_type,
        spec_touched(m, id, t1)[id].last_seen == t1,
        forall|k: u128|
            k != id && m.dom().contains(k) ==> spec_touched(m, id, t1)[k] == m[k],
        spec_touched(spec_touched(m, id, t1), id, t2) == spec_touched(m, id, t2),
{
    assert(spec_touched(m, id, t1).dom() =~= m.dom());
    assert(spec_touched(spec_touched(m, id, t1), id, t2) =~= spec_touched(m, id, t2));
}

/// One atomic operation on the store, as a value: what an interleaving of
/// concurrent callers serializes into.
pub ghost enum StoreOp {
    Insert { id: u128, record: ClientRecord },
    Touch { id: u128, now: u64 },
    Sweep { ttl: u64, now: u64 },
}

/// The registry after one store operation.
pub open spec fn spec_apply(m: Map<u128, ClientRecord>, op: StoreOp) -> Map<u128, ClientRecord> {
    match op {
        StoreOp::Insert { id, record } => m.insert(id, record),
        StoreOp::Touch { id, now } => if m.dom().contains(id) {
            spec_touched(m, id, now)
        } else {
            m
        },
        StoreOp::Sweep { ttl, now } => spec_swept(m, ttl, now),
    }
}

/// The registry after a serialized run of store operations.
pub open spec fn spec_apply_all(m: Map<u128, ClientRecord>, ops: Seq<StoreOp>) -> Map<
    u128,
    ClientRecord,
>
    decreases ops.len(),
{
    if ops.len() == 0 {
        m
    } else {
        spec_apply(spec_apply_all(m, ops.drop_last()), ops.last())
    }
}

/// A record is whole with respect to an initial registry and a run of
/// operations: its address and label come from exactly one write — an
/// initial record or one insert — and its liveness stamp from that write or
/// from one touch.
pub open spec fn spec_whole_record(
    rec: ClientRecord,
    m0: Map<u128, ClientRecord>,
    ops: Seq<StoreOp>,
) -> bool {
    exists|base: ClientRecord|
        {
            &&& #[trigger] spec_written_record(base, m0, ops)
            &&& (rec == base || exists|i: int|
                0 <= i < ops.len() && (#[trigger] ops[i] matches StoreOp::Touch { now, .. } && rec
                    == ClientRecord {
                    address: base.address,
                    device_type: base.device_type,
                    last_seen: now,
                }))
        }
}

/// `base` is a record some single write produced: one held initially, or one
/// handed whole to an insert.
pub open spec fn spec_written_record(
    base: ClientRecord,
    m0: Map<u128, ClientRecord>,
    ops: Seq<StoreOp>,
) -> bool {
    (exists|k: u128| #[trigger] m0.dom().contains(k) && m0[k] == base) || (exists|i: int|
        0 <= i < ops.len() && (#[trigger] ops[i] matches StoreOp::Insert { record, .. } && record
            == base))
}

/// Concurrent safety, as the store's linearization leaves it: after any
/// serialized run of insert, touch and sweep operations, every readable
/// record is internally consistent — address, label and stamp all from
/// single whole writes, never mixed from two.
pub proof fn lemma_no_torn_records(m0: Map<u128, ClientRecord>, ops: Seq<StoreOp>, id: u128)
    requires
        spec_apply_all(m0, ops).dom().contains(id),
    ensures
        spec_whole_record(spec_apply_all(m0, ops)[id], m0, ops),
    decreases ops.len(),
{
    let m1 = spec_apply_all(m0, ops);
    if ops.len() == 0 {
        let base = m0[id];
        assert(m0.dom().contains(id) && m0[id] == base);
        assert(spec_written_record(base, m0, ops));
    } else {
        let front = ops.drop_last();
        let prev = spec_apply_all(m0, front);
        assert(front.push(ops.last()) =~= ops);
        match ops.last() {
            StoreOp::Insert { id: k, record } => {
                if id == k {
                    assert(ops[ops.len() - 1] matches StoreOp::Insert { record: r2, .. } && r2
                        == record);
                    assert(spec_written_record(record, m0, ops));
                    assert(m1[id] == record);
                } else {
                    lemma_no_torn_records(m0, front, id);
                    lemma_whole_record_extend(prev[id], m0, front, ops.last());
                    assert(m1[id] == prev[id]);
                }
            },
            StoreOp::Touch { id: k, now } => {
                if prev.dom().contains(k) && id == k {
                    lemma_no_torn_records(m0, front, id);
                    let base = choose|base: ClientRecord|
                        #[trigger] spec_written_record(base, m0, front) && (prev[id] == base
                            || exists|i: int|
                            0 <= i < front.len() && (#[trigger] front[i] matches StoreOp::Touch { now, .. }
                                && prev[id] == ClientRecord {
                                address: base.address,
                                device_type: base.device_type,
                                last_seen: now,
                            }));
                    lemma_written_record_extend(base, m0, front, ops.last());
                    assert(m1[id] == ClientRecord {
                        address: prev[id].address,
                        device_type: prev[id].device_type,
                        last_seen: now,
                    });
                    assert(prev[id].address == base.address && prev[id].device_type
                        == base.device_type);
                    assert(ops[ops.len() - 1] matches StoreOp::Touch { now: n2, .. } && n2 == now);
                    assert(m1[id] == ClientRecord {
                        address: base.address,
                        device_type: base.device_type,
                        last_seen: now,
                    });
                    assert(spec_whole_record(m1[id], m0, ops));
                } else {
                    lemma_no_torn_records(m0, front, id);
                    lemma_whole_record_extend(prev[id], m0, front, ops.last());
                    assert(m1[id] == prev[id]);
                }
            },
            StoreOp::Sweep { .. } => {
                lemma_no_torn_records(m0, front, id);
                lemma_whole_record_extend(prev[id], m0, front, ops.last());
                assert(m1[id] == prev[id]);
            },
        }
    }
}

/// A single-write record stays one when an operation is appended to the run.
proof fn lemma_written_record_extend(
    base: ClientRecord,
    m0: Map<u128, ClientRecord>,
    front: Seq<StoreOp>,
    op: StoreOp,
)
    requires
        spec_written_record(base, m0, front),
    ensures
        spec_written_record(base, m0, front.push(op)),
{
    let ops = front.push(op);
    if exists|k: u128| #[trigger] m0.dom().contains(k) && m0[k] == base {
    } else {
        let i = choose|i: int|
            0 <= i < front.len() && (#[trigger] front[i] matches StoreOp::Insert { record, .. } && record
                == base);
        assert(ops[i] matches StoreOp::Insert { record, .. } && record == base);
    }
}

/// A whole record stays whole when an operation is appended to the run.
proof fn lemma_whole_record_extend(
    rec: ClientRecord,
    m0: Map<u128, ClientRecord>,
    front: Seq<StoreOp>,
    op: StoreOp,
)
    requires
        spec_whole_record(rec, m0, front),
    ensures
        spec_whole_record(rec, m0, front.push(op)),
{
    let ops = front.push(op);
    let base = choose|base: ClientRecord|
        #[trigger] spec_written_record(base, m0, front) && (rec == base || exists|i: int|
            0 <= i < front.len() && (#[trigger] front[i] matches StoreOp::Touch { now, .. } && rec
                == ClientRecord {
                address: base.address,
                device_type: base.device_type,
                last_seen: now,
            }));
    lemma_written_record_extend(base, m0, front, op);
    if rec == base {
        assert(spec_whole_record(rec, m0, ops));
    } else {
        let i = choose|i: int|
            0 <= i < front.len() && (#[trigger] front[i] matches StoreOp::Touch { now, .. } && rec
                == ClientRecord {
                address: base.address,
                device_type: base.device_type,
                last_seen: now,
            });
        assert(ops[i] matches StoreOp::Touch { now, .. } && rec == ClientRecord {
            address: base.address,
            device_type: base.device_type,
            last_seen: now,
        });
        assert(spec_whole_record(rec, m0, ops));
    }
}

/// Entry `i` of `s` carries key `k`.
pub open spec fn key_at(s: Seq<(u128, ClientInfo)>, i: int, k: u128) -> bool {
    0 <= i < s.len() && s[i].0 == k
}

/// Some entry of `s` carries key `k`.
pub open spec fn has_key(s: Seq<(u128, ClientInfo)>, k: u128) -> bool {
    exists|i: int| key_at(s, i, k)
}

/// No two entries of `s` carry the same key.
pub open spec fn unique_keys(s: Seq<(u128, ClientInfo)>) -> bool {
    forall|i: int, j: int| 0 <= i < j < s.len() ==> (#[trigger] s[i].0) != (#[trigger] s[j].0)
}

/// The map held by a sequence of keyed entries, later entries winning.
pub open spec fn map_of(s: Seq<(u128, ClientInfo)>) -> Map<u128, ClientRecord>
    decreases s.len(),
{
    if s.len() == 0 {
        Map::empty()
    } else {
        map_of(s.drop_last()).insert(s.last().0, s.last().1@)
    }
}

/// A key is in the map exactly when some entry carries it.
pub proof fn lemma_map_of_dom(s: Seq<(u128, ClientInfo)>, k: u128)
    ensures
        map_of(s).dom().contains(k) <==> has_key(s, k),
    decreases s.len(),
{
    if s.len() > 0 {
        lemma_map_of_dom(s.drop_last(), k);
        if s.last().0 == k {
            assert(key_at(s, s.len() - 1, k));
        } else {
            if has_key(s.drop_last(), k) {
                let i = choose|i: int| key_at(s.drop_last(), i, k);
                assert(key_at(s, i, k));
            }
            if has_key(s, k) {
                let i = choose|i: int| key_at(s, i, k);
                assert(key_at(s.drop_last(), i, k));
            }
        }
    }
}

/// With unique keys, the map's value at a key is the record of the entry that
/// carries it.
pub proof fn lemma_map_of_index(s: Seq<(u128, ClientInfo)>, i: int, k: u128)
    requires
        unique_keys(s),
        key_at(s, i, k),
    ensures
        map_of(s).dom().contains(k),
        map_of(s)[k] == s[i].1@,
    decreases s.len(),
{
    lemma_map_of_dom(s, k);
    if i < s.len() - 1 {
        assert(s.last().0 != k);
        assert(unique_keys(s.drop_last()));
        assert(key_at(s.drop_last(), i, k));
        lemma_map_of_index(s.drop_last(), i, k);
    }
}

/// With unique keys, replacing the entry that carries a key updates the map
/// at that key alone.
pub proof fn lemma_map_of_update(s: Seq<(u128, ClientInfo)>, i: int, e: (u128, ClientInfo))
    requires
        unique_keys(s),
        0 <= i < s.len(),
        s[i].0 == e.0,
    ensures
        map_of(s.update(i, e)) == map_of(s).insert(e.0, e.1@),
    decreases s.len(),
{
    let t = s.update(i, e);
    if i == s.len() - 1 {
        assert(t.drop_last() =~= s.drop_last());
        assert(map_of(t) =~= map_of(s).insert(e.0, e.1@));
    } else {
        assert(t.drop_last() =~= s.drop_last().update(i, e));
        assert(unique_keys(s.drop_last()));
        lemma_map_of_update(s.drop_last(), i, e);
        assert(s.last().0 != e.0);
        assert(map_of(t) =~= map_of(s).insert(e.0, e.1@));
    }
}

/// Appending an entry with a fresh key inserts it into the map.
pub proof fn lemma_map_of_push(s: Seq<(u128, ClientInfo)>, e: (u128, ClientInfo))
    ensures
        map_of(s.push(e)) == map_of(s).insert(e.0, e.1@),
{
    assert(s.push(e).drop_last() =~= s);
}

/// A copy of a client record, field for field.
pub fn clone_info(info: &ClientInfo) -> (out: ClientInfo)
    ensures
        out@ == info@,
{
    let mut device_type: Vec<u8> = Vec::new();
    let mut i: usize = 0;
    while i < info.device_type.len()
        invariant
            i <= info.device_type@.len(),
            device_type@ == info.device_type@.take(i as int),
        decreases info.device_type@.len() - i,
    {
        device_type.push(info.device_type[i]);
        i = i + 1;
        proof {
            assert(device_type@ =~= info.device_type@.take(i as int));
        }
    }
    proof {
        assert(device_type@ =~= info.device_type@);
    }
    ClientInfo { address: info.address, device_type, last_seen: info.last_seen }
}

/// The registry: a consistent map from client identity to record. Created
/// empty at server start; entries appear at connect time, are refreshed by
/// `touch`, and are removed by `sweep`.
pub struct Registry {
    entries: Vec<(u128, ClientInfo)>,
}

impl View for Registry {
    type V = Map<u128, ClientRecord>;

    closed spec fn view(&self) -> Map<u128, ClientRecord> {
        map_of(self.entries@)
    }
}

impl Registry {
    /// Internal consistency: no identity is carried by two entries.
    pub closed spec fn wf(&self) -> bool {
        unique_keys(self.entries@)
    }

    /// An empty registry.
    pub fn new() -> (r: Registry)
        ensures
            r.wf(),
            r@ == Map::<u128, ClientRecord>::empty(),
    {
        Registry { entries: Vec::new() }
    }

    /// Add or overwrite the record for `id`. Always succeeds; a prior record
    /// under the same identity is replaced wholesale.
    pub fn insert(&mut self, id: u128, info: ClientInfo)
        requires
            old(self).wf(),
        ensures
            final(self).wf(),
            final(self)@ == old(self)@.insert(id, info@),
    {
        let ghost s0 = self.entries@;
        let mut i: usize = 0;
        while i < self.entries.len()
            invariant
                i <= s0.len(),
                self.entries@ == s0,
                s0 == old(self).entries@,
                unique_keys(s0),
                forall|j: int| 0 <= j < i ==> (#[trigger] s0[j].0) != id,
            decreases s0.len() - i,
        {
            if self.entries[i].0 == id {
                self.entries[i] = (id, info);
                proof {
                    let e = self.entries@[i as int];
                    assert(self.entries@ =~= s0.update(i as int, e));
                    lemma_map_of_update(s0, i as int, e);
                    assert forall|a: int, b: int|
                        0 <= a < b < self.entries@.len() implies (#[trigger] self.entries@[a].0)
                        != (#[trigger] self.entries@[b].0) by {
                        assert(s0[a].0 != s0[b].0);
                    }
                }
                return ;
            }
            i = i + 1;
        }
        proof {
            assert(!has_key(s0, id)) by {
                if has_key(s0, id) {
                    let j = choose|j: int| key_at(s0, j, id);
                    assert(s0[j].0 != id);
                }
            }
        }
        self.entries.push((id, info));
        proof {
            let e = self.entries@.last();
            lemma_map_of_push(s0, e);
            assert forall|a: int, b: int|
                0 <= a < b < self.entries@.len() implies (#[trigger] self.entries@[a].0)
                != (#[trigger] self.entries@[b].0) by {
                if b < s0.len() {
                    assert(s0[a].0 != s0[b].0);
                } else {
                    assert(key_at(s0, a, s0[a].0));
                }
            }
        }
    }

    /// Find the record for `id`, if the identity is known.
    pub fn lookup(&self, id: u128) -> (r: Option<&ClientInfo>)
        requires
            self.wf(),
        ensures
            (match r {
                Some(info) => self@.dom().contains(id) && info@ == self@[id],
                None => !self@.dom().contains(id),
            }),
    {
        let mut i: usize = 0;
        while i < self.entries.len()
            invariant
                i <= self.entries@.len(),
                self.wf(),
                forall|j: int| 0 <= j < i ==> (#[trigger] self.entries@[j].0) != id,
            decreases self.entries@.len() - i,
        {
            if self.entries[i].0 == id {
                proof {
                    lemma_map_of_index(self.entries@, i as int, id);
                }
                return Some(&self.entries[i].1);
            }
            i = i + 1;
        }
        proof {
            lemma_map_of_dom(self.entries@, id);
            if has_key(self.entries@, id) {
                let j = choose|j: int| key_at(self.entries@, j, id);
                assert(self.entries@[j].0 != id);
            }
        }
        None
    }

    /// Refresh `id`'s liveness stamp to `now`; report whether it was known.
    /// A miss changes nothing.
    pub fn touch(&mut self, id: u128, now: u64) -> (found: bool)
        requires
            old(self).wf(),
        ensures
            final(self).wf(),
            found == old(self)@.dom().contains(id),
            final(self)@ == if found {
                spec_touched(old(self)@, id, now)
            } else {
                old(self)@
            },
    {
        let ghost s0 = self.entries@;
        let mut i: usize = 0;
        while i < self.entries.len()
            invariant
                i <= s0.len(),
                self.entries@ == s0,
                s0 == old(self).entries@,
                unique_keys(s0),
                forall|j: int| 0 <= j < i ==> (#[trigger] s0[j].0) != id,
            decreases s0.len() - i,
        {
            if self.entries[i].0 == id {
                proof {
                    lemma_map_of_index(s0, i as int, id);
                }
                self.entries[i].1.last_seen = now;
                proof {
                    let e = self.entries@[i as int];
                    assert(self.entries@ =~= s0.update(i as int, e));
                    lemma_map_of_update(s0, i as int, e);
                    lemma_map_of_dom(s0, id);
                    assert(key_at(s0, i as int, id));
                    assert forall|a: int, b: int|
                        0 <= a < b < self.entries@.len() implies (#[trigger] self.entries@[a].0)
                        != (#[trigger] self.entries@[b].0) by {
                        assert(s0[a].0 != s0[b].0);
                    }
                }
                return true;
            }
            i = i + 1;
        }
        proof {
            lemma_map_of_dom(s0, id);
            if has_key(s0, id) {
                let j = choose|j: int| key_at(s0, j, id);
                assert(s0[j].0 != id);
            }
        }
        false
    }

    /// A consistent point-in-time copy of the registered identities, free of
    /// duplicates; safe to walk without holding the store's lock.
    pub fn snapshot_identities(&self) -> (ids: Vec<u128>)
        requires
            self.wf(),
        ensures
            forall|id: u128| ids@.contains(id) <==> self@.dom().contains(id),
            forall|a: int, b: int| 0 <= a < b < ids@.len() ==> ids@[a] != ids@[b],
    {
        let mut ids: Vec<u128> = Vec::new();
        let mut i: usize = 0;
        while i < self.entries.len()
            invariant
                i <= self.entries@.len(),
                self.wf(),
                ids@.len() == i,
                forall|j: int| 0 <= j < i ==> ids@[j] == (#[trigger] self.entries@[j].0),
            decreases self.entries@.len() - i,
        {
            ids.push(self.entries[i].0);
            i = i + 1;
        }
        proof {
            let s = self.entries@;
            assert forall|id: u128| ids@.contains(id) <==> self@.dom().contains(id) by {
                lemma_map_of_dom(s, id);
                if ids@.contains(id) {
                    let j = choose|j: int| 0 <= j < ids@.len() && ids@[j] == id;
                    assert(key_at(s, j, id));
                }
                if has_key(s, id) {
                    let j = choose|j: int| key_at(s, j, id);
                    assert(ids@[j] == id);
                }
            }
            assert forall|a: int, b: int|
                0 <= a < b < ids@.len() implies ids@[a] != ids@[b] by {
                assert(self.entries@[a].0 != self.entries@[b].0);
            }
        }
        ids
    }

    /// Evict every record whose age exceeds `ttl` at `now`; report exactly the
    /// evicted identities. Records touched within the window survive
    /// unchanged.
    pub fn sweep(&mut self, ttl: u64, now: u64) -> (removed: Vec<u128>)
        requires
            old(self).wf(),
        ensures
            final(self).wf(),
            final(self)@ == spec_swept(old(self)@, ttl, now),
            forall|id: u128|
                removed@.contains(id) <==> (old(self)@.dom().contains(id) && !spec_alive(
                    old(self)@[id],
                    ttl,
                    now,
                )),
            forall|a: int, b: int| 0 <= a < b < removed@.len() ==> removed@[a] != removed@[b],
    {
        let ghost s0 = self.entries@;
        let mut kept: Vec<(u128, ClientInfo)> = Vec::new();
        let mut removed: Vec<u128> = Vec::new();
        let mut i: usize = 0;
        while i < self.entries.len()
            invariant
                i <= s0.len(),
                self.entries@ == s0,
                s0 == old(self).entries@,
                unique_keys(s0),
                unique_keys(kept@),
                map_of(kept@) == spec_swept(map_of(s0.take(i as int)), ttl, now),
                forall|j: int|
                    0 <= j < kept@.len() ==> has_key(s0.take(i as int), (#[trigger] kept@[j]).0),
                forall|j: int|
                    0 <= j < removed@.len() ==> has_key(s0.take(i as int), #[trigger] removed@[j]),
                forall|id: u128|
                    removed@.contains(id) <==> (map_of(s0.take(i as int)).dom().contains(id)
                        && !spec_alive(map_of(s0.take(i as int))[id], ttl, now)),
                forall|a: int, b: int| 0 <= a < b < removed@.len() ==> removed@[a] != removed@[b],
            decreases s0.len() - i,
        {
            let ghost m_pre = map_of(s0.take(i as int));
            let ghost k = s0[i as int].0;
            proof {
                // the key at position i is fresh among the first i entries
                assert forall|j: int| 0 <= j < i implies (#[trigger] s0[j].0) != k by {
                    assert(s0[j].0 != s0[i as int].0);
                }
                assert(!has_key(s0.take(i as int), k)) by {
                    if has_key(s0.take(i as int), k) {
                        let j = choose|j: int| key_at(s0.take(i as int), j, k);
                        assert(s0[j].0 != k);
                    }
                }
                lemma_map_of_dom(s0.take(i as int), k);
                assert(s0.take(i as int + 1).drop_last() =~= s0.take(i as int));
                assert(map_of(s0.take(i as int + 1)) == m_pre.insert(k, s0[i as int].1@));
            }
            let ghost v = s0[i as int].1@;
            let ghost m_post = m_pre.insert(k, v);
            let alive: bool = if now >= self.entries[i].1.last_seen {
                now - self.entries[i].1.last_seen <= ttl
            } else {
                true
            };
            proof {
                assert(alive == spec_alive(v, ttl, now));
            }
            if alive {
                let ghost kept0 = kept@;
                let entry_copy = clone_info(&self.entries[i].1);
                kept.push((self.entries[i].0, entry_copy));
                proof {
                    assert(kept@ == kept0.push((s0[i as int].0, entry_copy)));
                    lemma_map_of_push(kept0, (s0[i as int].0, entry_copy));
                    assert(map_of(kept@) == map_of(kept0).insert(k, v));
                    assert(map_of(kept@) =~= spec_swept(m_post, ttl, now));
                    assert forall|a: int, b: int|
                        0 <= a < b < kept@.len() implies (#[trigger] kept@[a].0)
                        != (#[trigger] kept@[b].0) by {
                        if b == kept@.len() - 1 {
                            assert(has_key(s0.take(i as int), kept@[a].0));
                            let w = choose|w: int| key_at(s0.take(i as int), w, kept@[a].0);
                            assert(s0[w].0 != k);
                        } else {
                            assert(kept0[a].0 != kept0[b].0);
                        }
                    }
                    assert forall|j: int|
                        0 <= j < kept@.len() implies has_key(
                        s0.take(i as int + 1),
                        (#[trigger] kept@[j]).0,
                    ) by {
                        if j < kept@.len() - 1 {
                            let w = choose|w: int| key_at(s0.take(i as int), w, kept0[j].0);
                            assert(key_at(s0.take(i as int + 1), w, kept@[j].0));
                        } else {
                            assert(key_at(s0.take(i as int + 1), i as int, k));
                        }
                    }
                    assert forall|id: u128|
                        removed@.contains(id) <==> (m_post.dom().contains(id) && !spec_alive(
                            m_post[id],
                            ttl,
                            now,
                        )) by {
                        if removed@.contains(id) {
                            assert(m_pre.dom().contains(id));
                        }
                    }
                    assert forall|j: int|
                        0 <= j < removed@.len() implies has_key(
                        s0.take(i as int + 1),
                        #[trigger] removed@[j],
                    ) by {
                        let w = choose|w: int| key_at(s0.take(i as int), w, removed@[j]);
                        assert(key_at(s0.take(i as int + 1), w, removed@[j]));
                    }
                }
            } else {
                let ghost removed0 = removed@;
                removed.push(self.entries[i].0);
                proof {
                    assert(removed@ == removed0.push(k));
                    assert(map_of(kept@) =~= spec_swept(m_post, ttl, now));
                    assert forall|j: int|
                        0 <= j < kept@.len() implies has_key(
                        s0.take(i as int + 1),
                        (#[trigger] kept@[j]).0,
                    ) by {
                        let w = choose|w: int| key_at(s0.take(i as int), w, kept@[j].0);
                        assert(key_at(s0.take(i as int + 1), w, kept@[j].0));
                    }
                    assert forall|j: int|
                        0 <= j < removed@.len() implies has_key(
                        s0.take(i as int + 1),
                        #[trigger] removed@[j],
                    ) by {
                        if j < removed@.len() - 1 {
                            assert(removed0[j] == removed@[j]);
                            let w = choose|w: int| key_at(s0.take(i as int), w, removed0[j]);
                            assert(key_at(s0.take(i as int + 1), w, removed@[j]));
                        } else {
                            assert(key_at(s0.take(i as int + 1), i as int, k));
                        }
                    }
                    assert forall|id: u128|
                        removed@.contains(id) <==> (m_post.dom().contains(id) && !spec_alive(
                            m_post[id],
                            ttl,
                            now,
                        )) by {
                        if removed@.contains(id) {
                            let j = choose|j: int| 0 <= j < removed@.len() && removed@[j] == id;
                            if j < removed@.len() - 1 {
                                assert(removed0[j] == id);
                                assert(removed0.contains(id));
                                assert(m_pre.dom().contains(id));
                            } else {
                                assert(id == k);
                            }
                        }
                        if m_post.dom().contains(id) && !spec_alive(m_post[id], ttl, now) {
                            if id != k {
                                assert(m_pre.dom().contains(id));
                                assert(removed0.contains(id));
                                let j = choose|j: int| 0 <= j < removed0.len() && removed0[j]
                                    == id;
                                assert(removed@[j] == id);
                                assert(removed@.contains(id));
                            } else {
                                assert(removed@[removed@.len() - 1] == id);
                                assert(removed@.contains(id));
                            }
                        }
                    }
                    assert forall|a: int, b: int|
                        0 <= a < b < removed@.len() implies removed@[a] != removed@[b] by {
                        if b == removed@.len() - 1 {
                            assert(has_key(s0.take(i as int), removed0[a]));
                            let w = choose|w: int| key_at(s0.take(i as int), w, removed0[a]);
                            assert(s0[w].0 != k);
                        } else {
                            assert(removed0[a] != removed0[b]);
                        }
                    }
                }
            }
            i = i + 1;
        }
        proof {
            assert(s0.take(s0.len() as int) =~= s0);
        }
        self.entries = kept;
        removed
    }
}

} // verus!
