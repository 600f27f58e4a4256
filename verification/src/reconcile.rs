//! The reconciliation protocol core.
//!
//! The passive role serves three remote procedures against the shared store;
//! the active role drives rounds of pull (query every advertised hash that is
//! locally absent) and push (submit every local message the peer did not
//! advertise). Every mutating step independently re-validates proof of work
//! and existence immediately before acting; nothing trusts a peer's implicit
//! claim of validity.

use vstd::prelude::*;
use crate::bytes::bytes_eq;
use crate::digest::{message_hash, spec_message_hash};
use crate::inventory::{
    has_hash, has_live_hash, rows_derived, rows_live, spec_insert, spec_message_of_row,
    spec_row_of_message, InventoryStore, Message, MessageModel, RowModel,
};
use crate::inventory::lemma_purge_of_live;
use crate::mpmc_manual_reset_event::{
    spec_set_all, spec_set_all_except, MPMCManualResetEvent,
};
use crate::proof_of_work::{compute_target, prove, spec_verify, verify_at};
use core::sync::atomic::AtomicBool;

verus! {

/// The set of hashes a store's rows carry, expired rows included: what
/// `hashes` advertises.
pub open spec fn hash_set_of(s: Seq<RowModel>) -> Set<Seq<u8>> {
    Set::new(|h: Seq<u8>| has_hash(s, h))
}

/// Every row of `s` passes the proof-of-work admission rule at `now` (which includes
/// being unexpired).
pub open spec fn rows_valid(s: Seq<RowModel>, now: i64) -> bool {
    forall|i: int|
        0 <= i < s.len() ==> spec_verify(
            (#[trigger] s[i]).payload,
            s[i].nonce,
            s[i].expiration_time,
            now,
        )
}

/// A valid row has not expired.
pub proof fn lemma_valid_implies_live(s: Seq<RowModel>, now: i64)
    requires
        rows_valid(s, now),
    ensures
        rows_live(s, now),
{
    assert forall|i: int| 0 <= i < s.len() implies (#[trigger] s[i]).expiration_time > now by {
        assert(spec_verify(s[i].payload, s[i].nonce, s[i].expiration_time, now));
    }
}

/// Whether the hash `h` occurs in an advertised hash list.
pub open spec fn in_hash_list(hs: Seq<Seq<u8>>, h: Seq<u8>) -> bool {
    exists|i: int| 0 <= i < hs.len() && hs[i] == h
}

/// Whether the hash `h` occurs in `hs`.
pub fn hash_in_list(hs: &Vec<Vec<u8>>, h: &Vec<u8>) -> (r: bool)
    ensures
        r == in_hash_list(hs@.map_values(|x: Vec<u8>| x@), h@),
{
    let ghost m = hs@.map_values(|x: Vec<u8>| x@);
    let n = hs.len();
    for i in 0..n
        invariant
            n == hs@.len(),
            m == hs@.map_values(|x: Vec<u8>| x@),
            forall|j: int| 0 <= j < i ==> m[j] != h@,
    {
        if bytes_eq(&hs[i], h) {
            assert(m[i as int] == h@);
            return true;
        }
    }
    false
}

/// The passive side of `Submit`, and the admission rule either role applies
/// before storing anything a peer offers: the message is stored only if its
/// hash is absent and its proof of work verifies at `now`; admission sets
/// every wakeup flag so all sessions re-synchronize.
pub fn serve_submit(
    store: &mut InventoryStore,
    wakeups: &mut MPMCManualResetEvent,
    message: &Message,
    now: i64,
) -> (admitted: bool)
    requires
        old(store).wf(),
        old(wakeups).wf(),
    ensures
        final(store).wf(),
        final(wakeups).wf(),
        admitted == (!has_hash(
            old(store)@,
            spec_message_hash(message@.payload, message@.expiration_time),
        ) && spec_verify(message@.payload, message@.nonce, message@.expiration_time, now)),
        final(store)@ == (if admitted {
            spec_insert(old(store)@, message@, now)
        } else {
            old(store)@
        }),
        final(wakeups)@ == (if admitted {
            spec_set_all(old(wakeups)@)
        } else {
            old(wakeups)@
        }),
        final(wakeups).spec_counter() == old(wakeups).spec_counter(),
{
    let hash = message_hash(&message.payload, message.expiration_time);
    let message_exists = store.contains(&hash);
    let proof_of_work_valid = verify_at(
        &message.payload,
        message.nonce,
        message.expiration_time,
        now,
    );
    if !message_exists && proof_of_work_valid {
        store.insert(&message.payload, message.nonce, message.expiration_time, now);
        wakeups.broadcast();
        true
    } else {
        false
    }
}

/// The active side's handling of one `Query` answer: an explicitly absent
/// answer is a normal outcome and changes nothing; a returned message is
/// re-verified and re-checked for existence, and only then inserted, waking
/// every session but the caller's own.
pub fn admit_pulled(
    store: &mut InventoryStore,
    wakeups: &mut MPMCManualResetEvent,
    handle: u128,
    result: &Option<Message>,
    now: i64,
) -> (admitted: bool)
    requires
        old(store).wf(),
        old(wakeups).wf(),
    ensures
        final(store).wf(),
        final(wakeups).wf(),
        admitted == (result matches Some(m) && !has_hash(
            old(store)@,
            spec_message_hash(m@.payload, m@.expiration_time),
        ) && spec_verify(m@.payload, m@.nonce, m@.expiration_time, now)),
        admitted ==> (result matches Some(m) && final(store)@ == spec_insert(
            old(store)@,
            m@,
            now,
        )),
        !admitted ==> final(store)@ == old(store)@,
        final(wakeups)@ == (if admitted {
            spec_set_all_except(old(wakeups)@, handle)
        } else {
            old(wakeups)@
        }),
        final(wakeups).spec_counter() == old(wakeups).spec_counter(),
{
    match result {
        None => false,
        Some(message) => {
            let hash = message_hash(&message.payload, message.expiration_time);
            let message_exists = store.contains(&hash);
            let proof_of_work_valid = verify_at(
                &message.payload,
                message.nonce,
                message.expiration_time,
                now,
            );
            if !message_exists && proof_of_work_valid {
                store.insert(&message.payload, message.nonce, message.expiration_time, now);
                wakeups.broadcast_to_others(handle);
                true
            } else {
                false
            }
        },
    }
}

/// The messages one gap-fill push offers a peer that advertised `theirs`:
/// every unexpired local row whose hash the peer did not advertise, in row
/// order.
pub open spec fn spec_plan_push(
    s: Seq<RowModel>,
    theirs: Seq<Seq<u8>>,
    now: i64,
) -> Seq<MessageModel>
    decreases s.len(),
{
    if s.len() == 0 {
        Seq::empty()
    } else {
        let rest = spec_plan_push(s.drop_last(), theirs, now);
        let r = s.last();
        if r.expiration_time > now && !in_hash_list(theirs, r.hash) {
            rest.push(spec_message_of_row(r))
        } else {
            rest
        }
    }
}

/// Computes the gap-fill push plan: the local messages to submit to a peer
/// whose advertised snapshot is `theirs`. Expiry is re-checked per message,
/// so an expired but not yet purged row is never offered.
pub fn plan_push(store: &InventoryStore, theirs: &Vec<Vec<u8>>, now: i64) -> (r: Vec<Message>)
    requires
        store.wf(),
    ensures
        r@.map_values(|m: Message| m@) == spec_plan_push(
            store@,
            theirs@.map_values(|x: Vec<u8>| x@),
            now,
        ),
{
    let ghost s = store@;
    let ghost theirs_m = theirs@.map_values(|x: Vec<u8>| x@);
    let local_hashes = store.hashes();
    let mut out: Vec<Message> = Vec::new();
    let n = local_hashes.len();
    for i in 0..n
        invariant
            n == s.len(),
            s == store@,
            store.wf(),
            theirs_m == theirs@.map_values(|x: Vec<u8>| x@),
            local_hashes@.len() == s.len(),
            forall|j: int| 0 <= j < s.len() ==> local_hashes@[j]@ == (#[trigger] s[j]).hash,
            out@.map_values(|m: Message| m@) == spec_plan_push(s.take(i as int), theirs_m, now),
    {
        proof {
            assert(s.take(i + 1).drop_last() =~= s.take(i as int));
            assert(s.take(i + 1).last() == s[i as int]);
        }
        if !hash_in_list(theirs, &local_hashes[i]) {
            match store.retrieve(&local_hashes[i], now) {
                Some(message) => {
                    proof {
                        let j = choose|j: int|
                            0 <= j < s.len() && (#[trigger] s[j]).hash == s[i as int].hash
                                && s[j].expiration_time > now && message@ == spec_message_of_row(
                                s[j],
                            );
                        if j != i {
                            assert(false) by {
                                if j < i {
                                    assert(s[j].hash != s[i as int].hash);
                                } else {
                                    assert(s[i as int].hash != s[j].hash);
                                }
                            }
                        }
                        assert(message@ == spec_message_of_row(s[i as int]));
                    }
                    out.push(message);
                    proof {
                        assert(out@.map_values(|m: Message| m@) =~= spec_plan_push(
                            s.take(i as int),
                            theirs_m,
                            now,
                        ).push(spec_message_of_row(s[i as int])));
                    }
                },
                None => {
                    proof {
                        assert(!(s[i as int].expiration_time > now)) by {
                            if s[i as int].expiration_time > now {
                                assert(has_live_hash(s, s[i as int].hash, now));
                            }
                        }
                    }
                },
            }
        }
    }
    proof {
        assert(s.take(n as int) =~= s);
    }
    out
}

/// Every planned message is an unexpired, unadvertised row of `s`, and every
/// such row is planned; when `s` carries derived hashes, the planned hashes
/// are exactly the live local hashes the peer lacks.
pub proof fn lemma_plan_push_properties(s: Seq<RowModel>, theirs: Seq<Seq<u8>>, now: i64)
    ensures
        forall|k: int|
            0 <= k < spec_plan_push(s, theirs, now).len() ==> exists|i: int|
                0 <= i < s.len() && #[trigger] spec_plan_push(s, theirs, now)[k]
                    == spec_message_of_row(s[i]) && s[i].expiration_time > now && !in_hash_list(
                    theirs,
                    s[i].hash,
                ),
        forall|i: int|
            0 <= i < s.len() && (#[trigger] s[i]).expiration_time > now && !in_hash_list(
                theirs,
                s[i].hash,
            ) ==> exists|k: int|
                0 <= k < spec_plan_push(s, theirs, now).len() && spec_plan_push(s, theirs, now)[k]
                    == spec_message_of_row(s[i]),
    decreases s.len(),
{
    if s.len() > 0 {
        let rest = s.drop_last();
        lemma_plan_push_properties(rest, theirs, now);
        let p_rest = spec_plan_push(rest, theirs, now);
        let p = spec_plan_push(s, theirs, now);
        assert(forall|i: int| 0 <= i < rest.len() ==> rest[i] == s[i]);
        assert forall|k: int| 0 <= k < p.len() implies exists|i: int|
            0 <= i < s.len() && #[trigger] p[k] == spec_message_of_row(s[i])
                && s[i].expiration_time > now && !in_hash_list(theirs, s[i].hash) by {
            if k < p_rest.len() {
                let i = choose|i: int|
                    0 <= i < rest.len() && #[trigger] p_rest[k] == spec_message_of_row(rest[i])
                        && rest[i].expiration_time > now && !in_hash_list(theirs, rest[i].hash);
                assert(p[k] == spec_message_of_row(s[i]));
            } else {
                assert(p[k] == spec_message_of_row(s[s.len() - 1]));
            }
        }
        assert forall|i: int|
            0 <= i < s.len() && (#[trigger] s[i]).expiration_time > now && !in_hash_list(
                theirs,
                s[i].hash,
            ) implies exists|k: int|
            0 <= k < p.len() && p[k] == spec_message_of_row(s[i]) by {
            if i == s.len() - 1 {
                assert(p[p.len() - 1] == spec_message_of_row(s[i]));
            } else {
                let k = choose|k: int|
                    0 <= k < p_rest.len() && p_rest[k] == spec_message_of_row(rest[i]);
                assert(p[k] == spec_message_of_row(s[i]));
            }
        }
    }
}

/// Inserting a valid message into a store of valid rows keeps every row
/// valid and adds exactly the message's hash to the stored hash set.
proof fn lemma_insert_valid(s: Seq<RowModel>, m: MessageModel, now: i64)
    requires
        rows_valid(s, now),
        spec_verify(m.payload, m.nonce, m.expiration_time, now),
    ensures
        rows_valid(spec_insert(s, m, now), now),
        hash_set_of(spec_insert(s, m, now)) == hash_set_of(s).insert(
            spec_message_hash(m.payload, m.expiration_time),
        ),
{
    lemma_valid_implies_live(s, now);
    lemma_purge_of_live(s, now);
    let row = spec_row_of_message(m);
    let hm = spec_message_hash(m.payload, m.expiration_time);
    let out = spec_insert(s, m, now);
    if has_hash(s, hm) {
        assert(out == s);
        assert(hash_set_of(s).contains(hm));
        assert(hash_set_of(out) =~= hash_set_of(s).insert(hm));
    } else {
        assert(out == s.push(row));
        assert forall|i: int| 0 <= i < out.len() implies spec_verify(
            (#[trigger] out[i]).payload,
            out[i].nonce,
            out[i].expiration_time,
            now,
        ) by {
            if i < s.len() {
                assert(out[i] == s[i]);
            } else {
                assert(out[i] == row);
            }
        }
        assert forall|h: Seq<u8>| hash_set_of(out).contains(h) implies hash_set_of(s).insert(
            hm,
        ).contains(h) by {
            let i = choose|i: int| 0 <= i < out.len() && (#[trigger] out[i]).hash == h;
            if i < s.len() {
                assert(s[i].hash == h);
            }
        }
        assert forall|h: Seq<u8>| hash_set_of(s).insert(hm).contains(h) implies hash_set_of(
            out,
        ).contains(h) by {
            if h == hm {
                assert(out[s.len() as int].hash == hm);
            } else {
                let i = choose|i: int| 0 <= i < s.len() && (#[trigger] s[i]).hash == h;
                assert(out[i].hash == h);
            }
        }
        assert(hash_set_of(out) =~= hash_set_of(s).insert(hm));
    }
}

/// The hashes among the first `i` entries of an advertised hash list.
spec fn list_prefix_set(hs: Seq<Seq<u8>>, i: int) -> Set<Seq<u8>> {
    Set::new(|h: Seq<u8>| exists|k: int| 0 <= k < i && hs[k] == h)
}

/// The hashes of the first `j` planned messages.
spec fn plan_prefix_set(plan: Seq<MessageModel>, j: int) -> Set<Seq<u8>> {
    Set::new(
        |h: Seq<u8>|
            exists|k: int|
                0 <= k < j && spec_message_hash(
                    (#[trigger] plan[k]).payload,
                    plan[k].expiration_time,
                ) == h,
    )
}

/// The set of hashes of `s`'s unexpired rows that `theirs` does not
/// advertise: what one gap-fill push offers.
pub open spec fn pushable_set(s: Seq<RowModel>, theirs: Seq<Seq<u8>>, now: i64) -> Set<Seq<u8>> {
    Set::new(
        |h: Seq<u8>|
            exists|i: int|
                0 <= i < s.len() && (#[trigger] s[i]).hash == h && s[i].expiration_time > now
                    && !in_hash_list(theirs, s[i].hash),
    )
}

/// The pull half of an active round: walks the peer's advertised snapshot,
/// queries every hash that is locally absent, and admits each answer through
/// the re-verifying admission rule. When both inventories are valid, the local hash set
/// afterwards is exactly the union of the two.
#[verifier::rlimit(60)]
#[verifier::spinoff_prover]
fn pull_phase(
    active: &mut InventoryStore,
    active_wakeups: &mut MPMCManualResetEvent,
    handle: u128,
    passive: &InventoryStore,
    now: i64,
) -> (theirs: Vec<Vec<u8>>)
    requires
        old(active).wf(),
        old(active_wakeups).wf(),
        passive.wf(),
    ensures
        final(active).wf(),
        final(active_wakeups).wf(),
        theirs@.len() == passive@.len(),
        forall|i: int| 0 <= i < passive@.len() ==> theirs@[i]@ == (#[trigger] passive@[i]).hash,
        rows_valid(old(active)@, now) && rows_valid(passive@, now) ==> (rows_valid(
            final(active)@,
            now,
        ) && hash_set_of(final(active)@) == hash_set_of(old(active)@).union(
            hash_set_of(passive@),
        )),
{
    let ghost a0 = active@;
    let ghost b0 = passive@;
    let ghost valid = rows_valid(a0, now) && rows_valid(b0, now);
    let theirs = passive.hashes();
    let ghost theirs_m = theirs@.map_values(|x: Vec<u8>| x@);
    let n = theirs.len();
    for i in 0..n
        invariant
            n == theirs@.len(),
            theirs_m == theirs@.map_values(|x: Vec<u8>| x@),
            theirs_m.len() == b0.len(),
            forall|k: int| 0 <= k < b0.len() ==> theirs@[k]@ == (#[trigger] b0[k]).hash,
            passive@ == b0,
            passive.wf(),
            active.wf(),
            active_wakeups.wf(),
            valid == (rows_valid(a0, now) && rows_valid(b0, now)),
            valid ==> rows_valid(active@, now),
            valid ==> hash_set_of(active@) == hash_set_of(a0).union(
                list_prefix_set(theirs_m, i as int),
            ),
    {
        proof {
            assert(theirs_m[i as int] == theirs@[i as int]@);
        }
        let ghost a_pre = active@;
        if !active.contains(&theirs[i]) {
            let result = passive.retrieve(&theirs[i], now);
            proof {
                if valid {
                    assert(b0[i as int].hash == theirs_m[i as int]);
                    assert(spec_verify(
                        b0[i as int].payload,
                        b0[i as int].nonce,
                        b0[i as int].expiration_time,
                        now,
                    ));
                    assert(has_live_hash(b0, theirs@[i as int]@, now));
                }
            }
            let admitted = admit_pulled(active, active_wakeups, handle, &result, now);
            proof {
                if valid {
                    assert(result is Some);
                    let m = result->0;
                    let j = choose|j: int|
                        0 <= j < b0.len() && (#[trigger] b0[j]).hash == theirs@[i as int]@
                            && b0[j].expiration_time > now && m@ == spec_message_of_row(b0[j]);
                    assert(spec_verify(m@.payload, m@.nonce, m@.expiration_time, now));
                    assert(spec_message_hash(m@.payload, m@.expiration_time) == b0[j].hash);
                    assert(admitted);
                    lemma_insert_valid(a_pre, m@, now);
                    assert(hash_set_of(active@) == hash_set_of(a_pre).insert(
                        theirs_m[i as int],
                    ));
                    assert(hash_set_of(active@) =~= hash_set_of(a0).union(
                        list_prefix_set(theirs_m, i + 1),
                    ));
                }
            }
        } else {
            proof {
                if valid {
                    assert(hash_set_of(active@).contains(theirs_m[i as int]));
                    assert(hash_set_of(active@) =~= hash_set_of(a0).union(
                        list_prefix_set(theirs_m, i + 1),
                    ));
                }
            }
        }
    }
    proof {
        if valid {
            assert forall|h: Seq<u8>|
                list_prefix_set(theirs_m, n as int).contains(h) <==> hash_set_of(b0).contains(
                    h,
                ) by {
                if list_prefix_set(theirs_m, n as int).contains(h) {
                    let k = choose|k: int| 0 <= k < n && theirs_m[k] == h;
                    assert(theirs@[k]@ == b0[k].hash);
                    assert(b0[k].hash == h);
                }
                if hash_set_of(b0).contains(h) {
                    let k = choose|k: int| 0 <= k < b0.len() && (#[trigger] b0[k]).hash == h;
                    assert(theirs@[k]@ == h);
                    assert(theirs_m[k] == h);
                }
            }
            assert(list_prefix_set(theirs_m, n as int) =~= hash_set_of(b0));
        }
    }
    theirs
}

/// The push half of an active round: submits every unexpired local message
/// the peer's snapshot `theirs` did not advertise; the peer re-verifies each.
/// When both inventories are valid, the peer's hash set afterwards gains
/// exactly the pushable hashes.
#[verifier::rlimit(60)]
#[verifier::spinoff_prover]
fn push_phase(
    active: &InventoryStore,
    theirs: &Vec<Vec<u8>>,
    passive: &mut InventoryStore,
    passive_wakeups: &mut MPMCManualResetEvent,
    now: i64,
)
    requires
        active.wf(),
        old(passive).wf(),
        old(passive_wakeups).wf(),
    ensures
        final(passive).wf(),
        final(passive_wakeups).wf(),
        rows_valid(active@, now) && rows_valid(old(passive)@, now) ==> (rows_valid(
            final(passive)@,
            now,
        ) && hash_set_of(final(passive)@) == hash_set_of(old(passive)@).union(
            pushable_set(active@, theirs@.map_values(|x: Vec<u8>| x@), now),
        )),
{
    let ghost a1 = active@;
    let ghost b0 = passive@;
    let ghost theirs_m = theirs@.map_values(|x: Vec<u8>| x@);
    let ghost valid = rows_valid(a1, now) && rows_valid(b0, now);
    let to_push = plan_push(active, theirs, now);
    let ghost plan = spec_plan_push(a1, theirs_m, now);
    proof {
        lemma_plan_push_properties(a1, theirs_m, now);
        assert forall|k: int| 0 <= k < plan.len() implies exists|i: int|
            0 <= i < a1.len() && #[trigger] plan[k] == spec_message_of_row(a1[i])
                && a1[i].expiration_time > now && !in_hash_list(theirs_m, a1[i].hash) by {
            assert(plan[k] == spec_plan_push(a1, theirs_m, now)[k]);
        }
    }
    let m_count = to_push.len();
    for j in 0..m_count
        invariant
            m_count == to_push@.len(),
            to_push@.map_values(|m: Message| m@) == plan,
            active.wf(),
            active@ == a1,
            theirs_m == theirs@.map_values(|x: Vec<u8>| x@),
            plan == spec_plan_push(a1, theirs_m, now),
            passive.wf(),
            passive_wakeups.wf(),
            valid == (rows_valid(a1, now) && rows_valid(b0, now)),
            valid ==> rows_valid(passive@, now),
            valid ==> hash_set_of(passive@) == hash_set_of(b0).union(
                plan_prefix_set(plan, j as int),
            ),
            forall|k: int|
                0 <= k < plan.len() ==> exists|i: int|
                    0 <= i < a1.len() && #[trigger] plan[k] == spec_message_of_row(a1[i])
                        && a1[i].expiration_time > now && !in_hash_list(theirs_m, a1[i].hash),
    {
        let ghost b_pre = passive@;
        proof {
            assert(to_push@.map_values(|m: Message| m@)[j as int] == plan[j as int]);
        }
        let admitted = serve_submit(passive, passive_wakeups, &to_push[j], now);
        proof {
            if valid {
                let mm = plan[j as int];
                let i = choose|i: int|
                    0 <= i < a1.len() && #[trigger] plan[j as int] == spec_message_of_row(a1[i])
                        && a1[i].expiration_time > now && !in_hash_list(theirs_m, a1[i].hash);
                assert(spec_verify(mm.payload, mm.nonce, mm.expiration_time, now));
                let hm = spec_message_hash(mm.payload, mm.expiration_time);
                if admitted {
                    lemma_insert_valid(b_pre, mm, now);
                    assert(hash_set_of(passive@) == hash_set_of(b_pre).insert(hm));
                } else {
                    assert(has_hash(b_pre, hm));
                    assert(hash_set_of(passive@).contains(hm));
                }
                assert(hash_set_of(passive@) =~= hash_set_of(b0).union(
                    plan_prefix_set(plan, j + 1),
                ));
            }
        }
    }
    proof {
        if valid {
            lemma_plan_hashes_are_pushable(a1, theirs_m, now);
        }
    }
}

/// The hashes of the full push plan are exactly the pushable hashes: the
/// unexpired local hashes the peer did not advertise.
proof fn lemma_plan_hashes_are_pushable(s: Seq<RowModel>, theirs: Seq<Seq<u8>>, now: i64)
    requires
        rows_derived(s),
    ensures
        plan_prefix_set(spec_plan_push(s, theirs, now), spec_plan_push(s, theirs, now).len() as int)
            == pushable_set(s, theirs, now),
{
    let plan = spec_plan_push(s, theirs, now);
    let full = plan_prefix_set(plan, plan.len() as int);
    lemma_plan_push_properties(s, theirs, now);
    assert forall|h: Seq<u8>| full.contains(h) <==> pushable_set(s, theirs, now).contains(h) by {
        if full.contains(h) {
            let k = choose|k: int|
                0 <= k < plan.len() && spec_message_hash(
                    (#[trigger] plan[k]).payload,
                    plan[k].expiration_time,
                ) == h;
            let i = choose|i: int|
                0 <= i < s.len() && #[trigger] plan[k] == spec_message_of_row(s[i])
                    && s[i].expiration_time > now && !in_hash_list(theirs, s[i].hash);
            assert(s[i].hash == spec_message_hash(s[i].payload, s[i].expiration_time));
            assert(s[i].hash == h);
        }
        if pushable_set(s, theirs, now).contains(h) {
            let i = choose|i: int|
                0 <= i < s.len() && (#[trigger] s[i]).hash == h && s[i].expiration_time > now
                    && !in_hash_list(theirs, s[i].hash);
            let k = choose|k: int|
                0 <= k < plan.len() && plan[k] == spec_message_of_row(s[i]);
            assert(spec_message_hash(plan[k].payload, plan[k].expiration_time) == s[i].hash);
        }
    }
    assert(full =~= pushable_set(s, theirs, now));
}

/// One full active-role reconciliation pass, run against a directly reachable
/// peer: pull every advertised message that is locally absent, re-verifying
/// each, then push every local message the peer did not advertise, which the
/// peer re-verifies in turn. When both inventories hold only valid
/// (admission-passing, unexpired) messages, one pass in either direction leaves
/// both holding exactly the union of the two hash sets.
#[verifier::rlimit(60)]
#[verifier::spinoff_prover]
pub fn reconcile_pass(
    active: &mut InventoryStore,
    active_wakeups: &mut MPMCManualResetEvent,
    handle: u128,
    passive: &mut InventoryStore,
    passive_wakeups: &mut MPMCManualResetEvent,
    now: i64,
)
    requires
        old(active).wf(),
        old(passive).wf(),
        old(active_wakeups).wf(),
        old(passive_wakeups).wf(),
    ensures
        final(active).wf(),
        final(passive).wf(),
        final(active_wakeups).wf(),
        final(passive_wakeups).wf(),
        rows_valid(old(active)@, now) && rows_valid(old(passive)@, now) ==> (hash_set_of(
            final(active)@,
        ) == hash_set_of(old(active)@).union(hash_set_of(old(passive)@)) && hash_set_of(
            final(passive)@,
        ) == hash_set_of(old(active)@).union(hash_set_of(old(passive)@))),
{
    let ghost a0 = active@;
    let ghost b0 = passive@;
    let ghost valid = rows_valid(a0, now) && rows_valid(b0, now);
    let theirs = pull_phase(active, active_wakeups, handle, passive, now);
    let ghost a1 = active@;
    let ghost theirs_m = theirs@.map_values(|x: Vec<u8>| x@);
    push_phase(active, &theirs, passive, passive_wakeups, now);
    proof {
        if valid {
            let union = hash_set_of(a0).union(hash_set_of(b0));
            assert(hash_set_of(a1) == union);
            let pushed = pushable_set(a1, theirs_m, now);
            assert forall|h: Seq<u8>| hash_set_of(passive@).contains(h) implies union.contains(
                h,
            ) by {
                if pushed.contains(h) {
                    let i = choose|i: int|
                        0 <= i < a1.len() && (#[trigger] a1[i]).hash == h
                            && a1[i].expiration_time > now && !in_hash_list(
                            theirs_m,
                            a1[i].hash,
                        );
                    assert(hash_set_of(a1).contains(h));
                }
            }
            assert forall|h: Seq<u8>| union.contains(h) implies hash_set_of(
                passive@,
            ).contains(h) by {
                if !hash_set_of(b0).contains(h) {
                    assert(hash_set_of(a1).contains(h));
                    let i = choose|i: int| 0 <= i < a1.len() && (#[trigger] a1[i]).hash == h;
                    assert(!in_hash_list(theirs_m, h)) by {
                        if in_hash_list(theirs_m, h) {
                            let k = choose|k: int| 0 <= k < theirs_m.len() && theirs_m[k] == h;
                            assert(theirs@[k]@ == b0[k].hash);
                            assert(b0[k].hash == h);
                            assert(hash_set_of(b0).contains(h));
                        }
                    }
                    assert(a1[i].expiration_time > now) by {
                        assert(spec_verify(
                            a1[i].payload,
                            a1[i].nonce,
                            a1[i].expiration_time,
                            now,
                        ));
                    }
                    assert(pushed.contains(h));
                }
            }
            assert(hash_set_of(passive@) =~= union);
        }
    }
}

/// The local submission path: mines a proof of work for `payload` against
/// the target for its remaining time to live, and on success stores the
/// message and wakes every session. Mining is cancellable through the shared
/// flag; a cancelled submission changes nothing.
pub fn submit_local(
    store: &mut InventoryStore,
    wakeups: &mut MPMCManualResetEvent,
    payload: &Vec<u8>,
    expiration_time: i64,
    cancelled: &AtomicBool,
    now: i64,
) -> (r: Option<i64>)
    requires
        old(store).wf(),
        old(wakeups).wf(),
        now < expiration_time,
    ensures
        final(store).wf(),
        final(wakeups).wf(),
        r matches Some(nonce) ==> spec_verify(payload@, nonce, expiration_time, now)
            && final(store)@ == spec_insert(
            old(store)@,
            MessageModel { payload: payload@, nonce, expiration_time },
            now,
        ) && final(wakeups)@ == spec_set_all(old(wakeups)@),
        r is None ==> final(store)@ == old(store)@ && final(wakeups)@ == old(wakeups)@,
        final(wakeups).spec_counter() == old(wakeups).spec_counter(),
{
    let ttl_wide: i128 = expiration_time as i128 - now as i128;
    let time_to_live: u64 = ttl_wide as u64;
    let target = compute_target(payload.len() as u64, time_to_live);
    match prove(payload, target, cancelled) {
        None => None,
        Some(nonce) => {
            store.insert(payload, nonce, expiration_time, now);
            wakeups.broadcast();
            Some(nonce)
        },
    }
}

} // verus!
