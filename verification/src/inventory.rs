//! The content-addressed, TTL-limited message inventory.
//!
//! Rows are addressed by the derived 64-byte hash of their payload and
//! expiration time; the store never holds two rows with one hash, inserting
//! an existing hash is a no-op, every insert first purges expired rows, and
//! expiry is also enforced at read time. The store validates no proof of
//! work: that is its callers' responsibility.

use vstd::prelude::*;
use crate::bytes::{bytes_eq, clone_bytes};
use crate::digest::{message_hash, spec_message_hash};

verus! {

/// The unit of storage and exchange.
pub struct Message {
    pub payload: Vec<u8>,
    pub nonce: i64,
    pub expiration_time: i64,
}

/// The mathematical value of a message.
pub struct MessageModel {
    pub payload: Seq<u8>,
    pub nonce: i64,
    pub expiration_time: i64,
}

impl View for Message {
    type V = MessageModel;

    open spec fn view(&self) -> MessageModel {
        MessageModel {
            payload: self.payload@,
            nonce: self.nonce,
            expiration_time: self.expiration_time,
        }
    }
}

/// One stored row: a message together with its derived hash.
pub struct Row {
    pub hash: Vec<u8>,
    pub payload: Vec<u8>,
    pub nonce: i64,
    pub expiration_time: i64,
}

/// The mathematical value of a stored row.
pub struct RowModel {
    pub hash: Seq<u8>,
    pub payload: Seq<u8>,
    pub nonce: i64,
    pub expiration_time: i64,
}

impl View for Row {
    type V = RowModel;

    open spec fn view(&self) -> RowModel {
        RowModel {
            hash: self.hash@,
            payload: self.payload@,
            nonce: self.nonce,
            expiration_time: self.expiration_time,
        }
    }
}

/// The row that storing a message produces.
pub open spec fn spec_row_of_message(m: MessageModel) -> RowModel {
    RowModel {
        hash: spec_message_hash(m.payload, m.expiration_time),
        payload: m.payload,
        nonce: m.nonce,
        expiration_time: m.expiration_time,
    }
}

/// The message a stored row holds.
pub open spec fn spec_message_of_row(r: RowModel) -> MessageModel {
    MessageModel { payload: r.payload, nonce: r.nonce, expiration_time: r.expiration_time }
}

/// Whether some row of `s` carries the hash `h`, expired or not.
pub open spec fn has_hash(s: Seq<RowModel>, h: Seq<u8>) -> bool {
    exists|i: int| 0 <= i < s.len() && (#[trigger] s[i]).hash == h
}

/// Whether some unexpired row of `s` carries the hash `h` at time `now`.
pub open spec fn has_live_hash(s: Seq<RowModel>, h: Seq<u8>, now: i64) -> bool {
    exists|i: int|
        0 <= i < s.len() && (#[trigger] s[i]).hash == h && s[i].expiration_time > now
}

/// No two rows carry the same hash.
pub open spec fn unique_hashes(s: Seq<RowModel>) -> bool {
    forall|i: int, j: int| 0 <= i < j < s.len() ==> s[i].hash != s[j].hash
}

/// Every row's hash is derived from its payload and expiration time.
pub open spec fn rows_derived(s: Seq<RowModel>) -> bool {
    forall|i: int|
        0 <= i < s.len() ==> (#[trigger] s[i]).hash == spec_message_hash(
            s[i].payload,
            s[i].expiration_time,
        )
}

/// Every row of `s` is unexpired at `now`.
pub open spec fn rows_live(s: Seq<RowModel>, now: i64) -> bool {
    forall|i: int| 0 <= i < s.len() ==> (#[trigger] s[i]).expiration_time > now
}

/// `s` with every row whose expiration time has passed removed, keeping
/// order.
pub open spec fn spec_purge(s: Seq<RowModel>, now: i64) -> Seq<RowModel>
    decreases s.len(),
{
    if s.len() == 0 {
        s
    } else {
        let rest = spec_purge(s.drop_last(), now);
        if s.last().expiration_time > now {
            rest.push(s.last())
        } else {
            rest
        }
    }
}

/// The store's contents after inserting `m` at time `now`: expired rows are
/// purged first, then the derived row is appended unless its hash is already
/// present.
pub open spec fn spec_insert(s: Seq<RowModel>, m: MessageModel, now: i64) -> Seq<RowModel> {
    let purged = spec_purge(s, now);
    if has_hash(purged, spec_row_of_message(m).hash) {
        purged
    } else {
        purged.push(spec_row_of_message(m))
    }
}

/// Purged rows are exactly the unexpired rows of `s`, in order; purging
/// preserves hash uniqueness and hash derivation.
pub proof fn lemma_purge_properties(s: Seq<RowModel>, now: i64)
    ensures
        rows_live(spec_purge(s, now), now),
        unique_hashes(s) ==> unique_hashes(spec_purge(s, now)),
        rows_derived(s) ==> rows_derived(spec_purge(s, now)),
        forall|h: Seq<u8>| #[trigger]
            has_hash(spec_purge(s, now), h) <==> has_live_hash(s, h, now),
        forall|r: RowModel| #[trigger]
            spec_purge(s, now).contains(r) ==> s.contains(r),
    decreases s.len(),
{
    if s.len() > 0 {
        let rest = s.drop_last();
        lemma_purge_properties(rest, now);
        let p_rest = spec_purge(rest, now);
        let p = spec_purge(s, now);
        assert(forall|i: int| 0 <= i < rest.len() ==> rest[i] == s[i]);
        assert(unique_hashes(s) ==> unique_hashes(rest));
        assert(rows_derived(s) ==> rows_derived(rest));
        assert forall|r: RowModel| #[trigger] p.contains(r) implies s.contains(r) by {
            if p_rest.contains(r) {
                assert(rest.contains(r));
                let i = choose|i: int| 0 <= i < rest.len() && rest[i] == r;
                assert(s[i] == r);
            } else {
                assert(r == s.last());
                assert(s[s.len() - 1] == r);
            }
        }
        if unique_hashes(s) {
            assert forall|i: int, j: int| 0 <= i < j < p.len() implies p[i].hash != p[j].hash by {
                if j == p.len() - 1 && s.last().expiration_time > now {
                    assert(p[j] == s.last());
                    assert(p_rest.contains(p[i]));
                    assert(rest.contains(p[i]));
                    let k = choose|k: int| 0 <= k < rest.len() && rest[k] == p[i];
                    assert(s[k] == p[i]);
                    assert(s[k].hash != s[s.len() - 1].hash);
                }
            }
        }
        if rows_derived(s) {
            assert forall|i: int| 0 <= i < p.len() implies (#[trigger] p[i]).hash
                == spec_message_hash(p[i].payload, p[i].expiration_time) by {
                if i == p.len() - 1 && s.last().expiration_time > now {
                    assert(p[i] == s.last());
                    assert(s[s.len() - 1].hash == spec_message_hash(
                        s[s.len() - 1].payload,
                        s[s.len() - 1].expiration_time,
                    ));
                } else {
                    assert(p_rest.contains(p[i]));
                    assert(rest.contains(p[i]));
                    let k = choose|k: int| 0 <= k < rest.len() && rest[k] == p[i];
                    assert(s[k] == p[i]);
                }
            }
        }
        assert forall|h: Seq<u8>| #[trigger] has_hash(p, h) <==> has_live_hash(s, h, now) by {
            if has_hash(p, h) {
                let i = choose|i: int| 0 <= i < p.len() && (#[trigger] p[i]).hash == h;
                if s.last().expiration_time > now && i == p.len() - 1 {
                    assert(s[s.len() - 1].hash == h && s[s.len() - 1].expiration_time > now);
                } else {
                    assert(has_hash(p_rest, h));
                    assert(has_live_hash(rest, h, now));
                    let k = choose|k: int|
                        0 <= k < rest.len() && (#[trigger] rest[k]).hash == h
                            && rest[k].expiration_time > now;
                    assert(s[k].hash == h && s[k].expiration_time > now);
                }
            }
            if has_live_hash(s, h, now) {
                let i = choose|i: int|
                    0 <= i < s.len() && (#[trigger] s[i]).hash == h && s[i].expiration_time
                        > now;
                if i == s.len() - 1 {
                    assert(p[p.len() - 1] == s.last());
                } else {
                    assert(rest[i].hash == h && rest[i].expiration_time > now);
                    assert(has_live_hash(rest, h, now));
                    assert(has_hash(p_rest, h));
                    let k = choose|k: int|
                        0 <= k < p_rest.len() && (#[trigger] p_rest[k]).hash == h;
                    assert(p[k] == p_rest[k]);
                }
            }
        }
    }
}

/// Purging a sequence of unexpired rows changes nothing.
pub proof fn lemma_purge_of_live(s: Seq<RowModel>, now: i64)
    requires
        rows_live(s, now),
    ensures
        spec_purge(s, now) == s,
    decreases s.len(),
{
    if s.len() > 0 {
        let rest = s.drop_last();
        assert(forall|i: int| 0 <= i < rest.len() ==> rest[i] == s[i]);
        lemma_purge_of_live(rest, now);
        assert(spec_purge(s, now) =~= s);
    } else {
        assert(spec_purge(s, now) =~= s);
    }
}

/// Inserting one message twice leaves exactly what inserting it once leaves:
/// there is never more than one row for a hash.
pub proof fn lemma_insert_idempotent(s: Seq<RowModel>, m: MessageModel, now: i64)
    ensures
        spec_insert(spec_insert(s, m, now), m, now) == spec_insert(s, m, now),
{
    let p = spec_purge(s, now);
    let row = spec_row_of_message(m);
    lemma_purge_properties(s, now);
    lemma_purge_of_live(p, now);
    if has_hash(p, row.hash) {
        assert(spec_insert(s, m, now) == p);
    } else {
        let once = p.push(row);
        assert(spec_insert(s, m, now) == once);
        assert(once.drop_last() =~= p);
        assert(once.last() == row);
        if row.expiration_time > now {
            assert(spec_purge(once, now) == p.push(row));
            assert(once[once.len() - 1].hash == row.hash);
            assert(has_hash(once, row.hash));
            assert(spec_insert(once, m, now) == once);
        } else {
            assert(spec_purge(once, now) == p);
            assert(spec_insert(once, m, now) == once);
        }
    }
}

/// Self-consistency of a local submission: inserting a message whose hash is
/// absent leaves its hash live, and every row stored under that hash is
/// exactly the derived row, so an immediate retrieval returns the identical
/// payload, nonce and expiration time.
pub proof fn lemma_insert_then_retrieve(s: Seq<RowModel>, m: MessageModel, now: i64)
    requires
        m.expiration_time > now,
        !has_hash(s, spec_message_hash(m.payload, m.expiration_time)),
    ensures
        has_live_hash(
            spec_insert(s, m, now),
            spec_message_hash(m.payload, m.expiration_time),
            now,
        ),
        forall|i: int|
            0 <= i < spec_insert(s, m, now).len() && (#[trigger] spec_insert(s, m, now)[i]).hash
                == spec_message_hash(m.payload, m.expiration_time) ==> spec_insert(s, m, now)[i]
                == spec_row_of_message(m),
        spec_message_of_row(spec_row_of_message(m)) == m,
{
    let hm = spec_message_hash(m.payload, m.expiration_time);
    let p = spec_purge(s, now);
    lemma_purge_properties(s, now);
    assert(!has_hash(p, hm)) by {
        if has_hash(p, hm) {
            assert(has_live_hash(s, hm, now));
        }
    }
    let out = p.push(spec_row_of_message(m));
    assert(spec_insert(s, m, now) == out);
    assert(out[out.len() - 1].hash == hm && out[out.len() - 1].expiration_time > now);
    assert forall|i: int|
        0 <= i < out.len() && (#[trigger] out[i]).hash == hm implies out[i]
        == spec_row_of_message(m) by {
        if i < p.len() {
            assert(p[i].hash == hm);
            assert(has_hash(p, hm));
        }
    }
}

/// The shared inventory.
pub struct InventoryStore {
    rows: Vec<Row>,
}

impl View for InventoryStore {
    type V = Seq<RowModel>;

    closed spec fn view(&self) -> Seq<RowModel> {
        self.rows@.map_values(|r: Row| r@)
    }
}

impl InventoryStore {
    /// The store's structural invariant: hashes are unique and derived.
    pub open spec fn wf(self) -> bool {
        unique_hashes(self@) && rows_derived(self@)
    }

    /// An empty store.
    pub fn new() -> (r: InventoryStore)
        ensures
            r.wf(),
            r@ == Seq::<RowModel>::empty(),
    {
        let r = InventoryStore { rows: Vec::new() };
        proof {
            assert(r@ =~= Seq::<RowModel>::empty());
        }
        r
    }

    /// Whether a row with this hash is stored, expired or not.
    pub fn contains(&self, hash: &Vec<u8>) -> (r: bool)
        ensures
            r == has_hash(self@, hash@),
    {
        let n = self.rows.len();
        for i in 0..n
            invariant
                n == self.rows@.len(),
                forall|j: int| 0 <= j < i ==> self@[j].hash != hash@,
        {
            if bytes_eq(&self.rows[i].hash, hash) {
                assert(self@[i as int].hash == hash@);
                return true;
            }
        }
        false
    }

    /// Inserts a message at time `now`: purges every expired row, then
    /// appends the derived row unless its hash is already present. A
    /// duplicate is a no-op, never an error.
    pub fn insert(&mut self, payload: &Vec<u8>, nonce: i64, expiration_time: i64, now: i64)
        requires
            old(self).wf(),
        ensures
            final(self).wf(),
            final(self)@ == spec_insert(
                old(self)@,
                MessageModel { payload: payload@, nonce, expiration_time },
                now,
            ),
    {
        let ghost s = self@;
        let ghost m = MessageModel { payload: payload@, nonce, expiration_time };
        let mut kept: Vec<Row> = Vec::new();
        let n = self.rows.len();
        for i in 0..n
            invariant
                n == self.rows@.len(),
                s == self@,
                kept@.map_values(|r: Row| r@) == spec_purge(s.take(i as int), now),
        {
            proof {
                assert(s.take(i + 1).drop_last() =~= s.take(i as int));
                assert(s.take(i + 1).last() == s[i as int]);
            }
            if self.rows[i].expiration_time > now {
                let row = Row {
                    hash: clone_bytes(&self.rows[i].hash),
                    payload: clone_bytes(&self.rows[i].payload),
                    nonce: self.rows[i].nonce,
                    expiration_time: self.rows[i].expiration_time,
                };
                proof {
                    assert(row@ == s[i as int]);
                }
                kept.push(row);
                proof {
                    assert(kept@.map_values(|r: Row| r@) =~= spec_purge(s.take(i as int), now)
                        .push(s[i as int]));
                }
            }
        }
        proof {
            assert(s.take(n as int) =~= s);
        }
        let hash = message_hash(payload, expiration_time);
        let purged = InventoryStore { rows: kept };
        proof {
            assert(purged@ == spec_purge(s, now));
        }
        let already = purged.contains(&hash);
        let mut rows = purged.rows;
        if !already {
            let row = Row {
                hash,
                payload: clone_bytes(payload),
                nonce,
                expiration_time,
            };
            proof {
                assert(row@ == spec_row_of_message(m));
            }
            rows.push(row);
            proof {
                assert(rows@.map_values(|r: Row| r@) =~= spec_purge(s, now).push(
                    spec_row_of_message(m),
                ));
            }
        }
        self.rows = rows;
        proof {
            lemma_purge_properties(s, now);
            let p = spec_purge(s, now);
            if !has_hash(p, spec_row_of_message(m).hash) {
                let out = p.push(spec_row_of_message(m));
                assert forall|i: int, j: int| 0 <= i < j < out.len() implies out[i].hash
                    != out[j].hash by {
                    if j == out.len() - 1 {
                        assert(out[i] == p[i]);
                        assert(!(p[i].hash == out[j].hash)) by {
                            if p[i].hash == out[j].hash {
                                assert(has_hash(p, spec_row_of_message(m).hash));
                            }
                        }
                    }
                }
            }
        }
    }

    /// Retrieves the message stored under `hash`, unless it is absent or has
    /// expired at `now`; expiry is enforced here even for rows no insert has
    /// purged yet.
    pub fn retrieve(&self, hash: &Vec<u8>, now: i64) -> (r: Option<Message>)
        requires
            self.wf(),
        ensures
            r is Some <==> has_live_hash(self@, hash@, now),
            r matches Some(m) ==> exists|i: int|
                0 <= i < self@.len() && (#[trigger] self@[i]).hash == hash@
                    && self@[i].expiration_time > now && m@ == spec_message_of_row(self@[i]),
    {
        let n = self.rows.len();
        for i in 0..n
            invariant
                n == self.rows@.len(),
                self.wf(),
                forall|j: int| 0 <= j < i ==> self@[j].hash != hash@,
        {
            if bytes_eq(&self.rows[i].hash, hash) {
                assert(self@[i as int].hash == hash@);
                if self.rows[i].expiration_time > now {
                    let m = Message {
                        payload: clone_bytes(&self.rows[i].payload),
                        nonce: self.rows[i].nonce,
                        expiration_time: self.rows[i].expiration_time,
                    };
                    proof {
                        assert(m@ == spec_message_of_row(self@[i as int]));
                    }
                    return Some(m);
                } else {
                    proof {
                        assert forall|j: int|
                            0 <= j < self@.len() && (#[trigger] self@[j]).hash == hash@
                            implies self@[j].expiration_time <= now by {
                            if j != i {
                                assert(self@[i as int].hash != self@[j].hash);
                            }
                        }
                    }
                    return None;
                }
            }
        }
        None
    }

    /// A snapshot of every stored hash, in row order, expired rows included.
    pub fn hashes(&self) -> (r: Vec<Vec<u8>>)
        ensures
            r@.len() == self@.len(),
            forall|i: int| 0 <= i < self@.len() ==> r@[i]@ == (#[trigger] self@[i]).hash,
    {
        let n = self.rows.len();
        let mut r: Vec<Vec<u8>> = Vec::new();
        for i in 0..n
            invariant
                n == self.rows@.len(),
                r@.len() == i,
                forall|j: int| 0 <= j < i ==> r@[j]@ == (#[trigger] self@[j]).hash,
        {
            r.push(clone_bytes(&self.rows[i].hash));
        }
        r
    }
}

} // verus!
