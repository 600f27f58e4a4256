//! The coalescing wakeup registry: one manual-reset, single-waiter boolean
//! flag per registered handle.
//!
//! A broadcast sets flags; a waiter consumes its own flag, which clears it.
//! Because the pending state is a boolean and not a counter, any number of
//! broadcasts before one wait coalesce into a single wakeup. Blocking itself
//! is left to the caller: this type decides only what every flag holds.

use vstd::prelude::*;

verus! {

/// The registry. Each entry pairs a handle with its pending flag; handles
/// come from a monotonically increasing counter and are never reused.
pub struct MPMCManualResetEvent {
    counter: u128,
    entries: Vec<(u128, bool)>,
}

/// Whether some entry of `s` is registered under handle `h`.
pub open spec fn has_handle(s: Seq<(u128, bool)>, h: u128) -> bool {
    exists|i: int| 0 <= i < s.len() && (#[trigger] s[i]).0 == h
}

/// No two entries share a handle.
pub open spec fn unique_handles(s: Seq<(u128, bool)>) -> bool {
    forall|i: int, j: int| 0 <= i < j < s.len() ==> s[i].0 != s[j].0
}

/// `s` with every flag set: what one broadcast leaves behind, however many
/// times it is repeated.
pub open spec fn spec_set_all(s: Seq<(u128, bool)>) -> Seq<(u128, bool)> {
    Seq::new(s.len(), |i: int| (s[i].0, true))
}

/// `s` with every flag set except the one registered under `h`.
pub open spec fn spec_set_all_except(s: Seq<(u128, bool)>, h: u128) -> Seq<(u128, bool)> {
    Seq::new(s.len(), |i: int| (s[i].0, if s[i].0 == h { s[i].1 } else { true }))
}

/// `s` without the entry registered under `h`.
pub open spec fn spec_deregister(s: Seq<(u128, bool)>, h: u128) -> Seq<(u128, bool)>
    decreases s.len(),
{
    if s.len() == 0 {
        s
    } else {
        let rest = spec_deregister(s.drop_last(), h);
        if s.last().0 == h {
            rest
        } else {
            rest.push(s.last())
        }
    }
}

/// `s` with the flag registered under `h` cleared.
pub open spec fn spec_clear(s: Seq<(u128, bool)>, h: u128) -> Seq<(u128, bool)> {
    Seq::new(s.len(), |i: int| (s[i].0, if s[i].0 == h { false } else { s[i].1 }))
}

/// The flag registered under `h`.
pub open spec fn spec_flag_of(s: Seq<(u128, bool)>, h: u128) -> bool
    recommends
        has_handle(s, h),
{
    s[choose|i: int| 0 <= i < s.len() && (#[trigger] s[i]).0 == h].1
}

/// Broadcasting is idempotent: a second broadcast on an already-broadcast
/// registry changes nothing, so any number of broadcasts before a single
/// wait coalesce into one pending wakeup.
pub proof fn lemma_broadcast_coalesces(s: Seq<(u128, bool)>)
    ensures
        spec_set_all(spec_set_all(s)) == spec_set_all(s),
{
    assert(spec_set_all(spec_set_all(s)) =~= spec_set_all(s));
}

impl View for MPMCManualResetEvent {
    type V = Seq<(u128, bool)>;

    closed spec fn view(&self) -> Seq<(u128, bool)> {
        self.entries@
    }
}

impl MPMCManualResetEvent {
    /// The registry's structural invariant: handles are unique and below the
    /// counter that fresh handles are drawn from.
    pub closed spec fn wf(self) -> bool {
        unique_handles(self@) && (forall|i: int|
            0 <= i < self@.len() ==> (#[trigger] self@[i]).0 < self.counter)
    }

    /// How many handles were ever registered; fresh handles exist as long as
    /// this has not exhausted the 128-bit space.
    pub closed spec fn spec_counter(self) -> u128 {
        self.counter
    }

    /// An empty registry.
    pub fn new() -> (r: MPMCManualResetEvent)
        ensures
            r.wf(),
            r@ == Seq::<(u128, bool)>::empty(),
            r.spec_counter() == 0,
    {
        let r = MPMCManualResetEvent { counter: 0, entries: Vec::new() };
        proof {
            assert(r@ =~= Seq::<(u128, bool)>::empty());
        }
        r
    }

    /// Whether the 128-bit handle space is exhausted, after which no further
    /// handle can be registered. Callers check this before registering.
    pub fn at_capacity(&self) -> (r: bool)
        ensures
            r == (self.spec_counter() == u128::MAX),
    {
        self.counter == u128::MAX
    }

    /// Whether `h` is currently registered.
    pub fn is_registered(&self, h: u128) -> (r: bool)
        ensures
            r == has_handle(self@, h),
    {
        let n = self.entries.len();
        for i in 0..n
            invariant
                n == self@.len(),
                forall|j: int| 0 <= j < i ==> (#[trigger] self@[j]).0 != h,
        {
            if self.entries[i].0 == h {
                assert(self@[i as int].0 == h);
                return true;
            }
        }
        false
    }

    /// Registers a fresh, never-reused handle with an initially clear flag.
    pub fn get_handle(&mut self) -> (h: u128)
        requires
            old(self).wf(),
            old(self).spec_counter() < u128::MAX,
        ensures
            final(self).wf(),
            !has_handle(old(self)@, h),
            final(self)@ == old(self)@.push((h, false)),
            has_handle(final(self)@, h),
            spec_flag_of(final(self)@, h) == false,
            final(self).spec_counter() == old(self).spec_counter() + 1,
    {
        let ghost s = self@;
        let h = self.counter;
        self.entries.push((h, false));
        self.counter = self.counter + 1;
        proof {
            assert forall|i: int| 0 <= i < s.len() implies (#[trigger] s[i]).0 != h by {}
            assert(self@[s.len() as int].0 == h);
            let c = choose|i: int| 0 <= i < self@.len() && (#[trigger] self@[i]).0 == h;
            assert(self@[c].1 == false);
        }
        h
    }

    /// Deregisters a handle; its flag is discarded. Safe to call for a handle
    /// that is not registered.
    pub fn drop_handle(&mut self, h: u128)
        requires
            old(self).wf(),
        ensures
            final(self).wf(),
            final(self)@ == spec_deregister(old(self)@, h),
            !has_handle(final(self)@, h),
            forall|x: u128| x != h ==> has_handle(final(self)@, x) == has_handle(old(self)@, x),
            final(self).spec_counter() == old(self).spec_counter(),
    {
        let ghost s = self@;
        let mut kept: Vec<(u128, bool)> = Vec::new();
        let n = self.entries.len();
        for i in 0..n
            invariant
                n == s.len(),
                s == self@,
                kept@ == spec_deregister(s.take(i as int), h),
        {
            proof {
                assert(s.take(i + 1).drop_last() =~= s.take(i as int));
                assert(s.take(i + 1).last() == s[i as int]);
            }
            let entry = self.entries[i];
            if entry.0 != h {
                kept.push(entry);
            }
        }
        proof {
            assert(s.take(n as int) =~= s);
        }
        self.entries = kept;
        proof {
            lemma_deregister_properties(s, h);
            assert forall|i: int| 0 <= i < self@.len() implies (#[trigger] self@[i]).0
                < self.counter by {
                assert(self@.contains(self@[i]));
                assert(s.contains(self@[i]));
                let k = choose|k: int| 0 <= k < s.len() && s[k] == self@[i];
                assert(s[k].0 < self.counter);
            }
            assert forall|x: u128| x != h implies has_handle(self@, x) == has_handle(s, x) by {
                if has_handle(self@, x) {
                    let i = choose|i: int| 0 <= i < self@.len() && (#[trigger] self@[i]).0 == x;
                    assert(self@.contains(self@[i]));
                    assert(s.contains(self@[i]));
                    let k = choose|k: int| 0 <= k < s.len() && s[k] == self@[i];
                    assert(s[k].0 == x);
                }
                if has_handle(s, x) {
                    let i = choose|i: int| 0 <= i < s.len() && (#[trigger] s[i]).0 == x;
                    assert(s.contains(s[i]));
                    assert(self@.contains(s[i]));
                    let k = choose|k: int| 0 <= k < self@.len() && self@[k] == s[i];
                    assert(self@[k].0 == x);
                }
            }
        }
    }

    /// Sets every registered flag.
    pub fn broadcast(&mut self)
        requires
            old(self).wf(),
        ensures
            final(self).wf(),
            final(self)@ == spec_set_all(old(self)@),
            forall|x: u128| has_handle(final(self)@, x) == has_handle(old(self)@, x),
            forall|x: u128| #[trigger] has_handle(final(self)@, x) ==> spec_flag_of(
                final(self)@,
                x,
            ) == true,
            final(self).spec_counter() == old(self).spec_counter(),
    {
        let ghost s = self@;
        let n = self.entries.len();
        for i in 0..n
            invariant
                n == self@.len(),
                self@.len() == s.len(),
                self.counter == old(self).counter,
                forall|j: int| 0 <= j < s.len() ==> (#[trigger] self@[j]).0 == s[j].0,
                forall|j: int| 0 <= j < i ==> (#[trigger] self@[j]).1 == true,
                forall|j: int| i <= j < s.len() ==> (#[trigger] self@[j]).1 == s[j].1,
        {
            let handle_id = self.entries[i].0;
            self.entries.set(i, (handle_id, true));
        }
        proof {
            assert(self@ =~= spec_set_all(s));
            assert forall|i: int, j: int| 0 <= i < j < self@.len() implies self@[i].0
                != self@[j].0 by {
                assert(s[i].0 != s[j].0);
            }
            assert forall|x: u128| has_handle(self@, x) == has_handle(s, x) by {
                if has_handle(self@, x) {
                    let i = choose|i: int| 0 <= i < self@.len() && (#[trigger] self@[i]).0 == x;
                    assert(s[i].0 == x);
                }
                if has_handle(s, x) {
                    let i = choose|i: int| 0 <= i < s.len() && (#[trigger] s[i]).0 == x;
                    assert(self@[i].0 == x);
                }
            }
            assert forall|x: u128| #[trigger] has_handle(self@, x) implies spec_flag_of(self@, x)
                == true by {
                let c = choose|i: int| 0 <= i < self@.len() && (#[trigger] self@[i]).0 == x;
                assert(self@[c].1 == true);
            }
        }
    }

    /// Sets every registered flag except the caller's own: the caller already
    /// knows what it just did.
    pub fn broadcast_to_others(&mut self, h: u128)
        requires
            old(self).wf(),
        ensures
            final(self).wf(),
            final(self)@ == spec_set_all_except(old(self)@, h),
            forall|x: u128| has_handle(final(self)@, x) == has_handle(old(self)@, x),
            forall|x: u128|
                x != h && #[trigger] has_handle(final(self)@, x) ==> spec_flag_of(
                    final(self)@,
                    x,
                ) == true,
            has_handle(old(self)@, h) ==> spec_flag_of(final(self)@, h) == spec_flag_of(
                old(self)@,
                h,
            ),
            final(self).spec_counter() == old(self).spec_counter(),
    {
        let ghost s = self@;
        let n = self.entries.len();
        for i in 0..n
            invariant
                n == self@.len(),
                self@.len() == s.len(),
                self.counter == old(self).counter,
                forall|j: int| 0 <= j < s.len() ==> (#[trigger] self@[j]).0 == s[j].0,
                forall|j: int|
                    0 <= j < i ==> (#[trigger] self@[j]).1 == (if s[j].0 == h {
                        s[j].1
                    } else {
                        true
                    }),
                forall|j: int| i <= j < s.len() ==> (#[trigger] self@[j]).1 == s[j].1,
        {
            let entry = self.entries[i];
            if entry.0 != h {
                self.entries.set(i, (entry.0, true));
            }
        }
        proof {
            assert(self@ =~= spec_set_all_except(s, h));
            assert forall|i: int, j: int| 0 <= i < j < self@.len() implies self@[i].0
                != self@[j].0 by {
                assert(s[i].0 != s[j].0);
            }
            assert forall|x: u128| has_handle(self@, x) == has_handle(s, x) by {
                if has_handle(self@, x) {
                    let i = choose|i: int| 0 <= i < self@.len() && (#[trigger] self@[i]).0 == x;
                    assert(s[i].0 == x);
                }
                if has_handle(s, x) {
                    let i = choose|i: int| 0 <= i < s.len() && (#[trigger] s[i]).0 == x;
                    assert(self@[i].0 == x);
                }
            }
            assert forall|x: u128|
                x != h && #[trigger] has_handle(self@, x) implies spec_flag_of(self@, x)
                == true by {
                let c = choose|i: int| 0 <= i < self@.len() && (#[trigger] self@[i]).0 == x;
                assert(self@[c].1 == true);
            }
            if has_handle(s, h) {
                let c1 = choose|i: int| 0 <= i < self@.len() && (#[trigger] self@[i]).0 == h;
                let c2 = choose|i: int| 0 <= i < s.len() && (#[trigger] s[i]).0 == h;
                assert(s[c1].0 == h);
                assert(c1 == c2) by {
                    if c1 < c2 {
                        assert(s[c1].0 != s[c2].0);
                    } else if c2 < c1 {
                        assert(s[c2].0 != s[c1].0);
                    }
                }
                assert(self@[c1].1 == s[c2].1);
            }
        }
    }

    /// Takes the pending flag registered under `h` and clears it: the
    /// synchronous core of a wait. A caller that gets `false` suspends and
    /// retries after the next broadcast; one that gets `true` proceeds, and
    /// however many broadcasts preceded it, the flag now holds a single
    /// cleared state.
    pub fn consume(&mut self, h: u128) -> (r: bool)
        requires
            old(self).wf(),
            has_handle(old(self)@, h),
        ensures
            final(self).wf(),
            r == spec_flag_of(old(self)@, h),
            final(self)@ == spec_clear(old(self)@, h),
            forall|x: u128| has_handle(final(self)@, x) == has_handle(old(self)@, x),
            spec_flag_of(final(self)@, h) == false,
            final(self).spec_counter() == old(self).spec_counter(),
    {
        let ghost s = self@;
        let n = self.entries.len();
        let mut r = false;
        for i in 0..n
            invariant
                n == self@.len(),
                self@.len() == s.len(),
                self.counter == old(self).counter,
                unique_handles(s),
                forall|j: int| 0 <= j < s.len() ==> (#[trigger] self@[j]).0 == s[j].0,
                forall|j: int|
                    0 <= j < i ==> (#[trigger] self@[j]).1 == (if s[j].0 == h {
                        false
                    } else {
                        s[j].1
                    }),
                forall|j: int| i <= j < s.len() ==> (#[trigger] self@[j]).1 == s[j].1,
                forall|j: int| 0 <= j < i && (#[trigger] s[j]).0 == h ==> r == s[j].1,
                (exists|j: int| 0 <= j < i && (#[trigger] s[j]).0 == h) || r == false,
        {
            let entry = self.entries[i];
            if entry.0 == h {
                r = entry.1;
                self.entries.set(i, (h, false));
                proof {
                    assert forall|j: int| 0 <= j < s.len() && j != i implies (#[trigger] s[j]).0
                        != h by {
                        if j < i {
                            assert(s[j].0 != s[i as int].0);
                        } else {
                            assert(s[i as int].0 != s[j].0);
                        }
                    }
                }
            }
        }
        proof {
            assert(self@ =~= spec_clear(s, h));
            let w = choose|i: int| 0 <= i < s.len() && (#[trigger] s[i]).0 == h;
            assert(r == s[w].1);
            assert(r == spec_flag_of(s, h));
            assert forall|i: int, j: int| 0 <= i < j < self@.len() implies self@[i].0
                != self@[j].0 by {
                assert(s[i].0 != s[j].0);
            }
            assert forall|x: u128| has_handle(self@, x) == has_handle(s, x) by {
                if has_handle(self@, x) {
                    let i = choose|i: int| 0 <= i < self@.len() && (#[trigger] self@[i]).0 == x;
                    assert(s[i].0 == x);
                }
                if has_handle(s, x) {
                    let i = choose|i: int| 0 <= i < s.len() && (#[trigger] s[i]).0 == x;
                    assert(self@[i].0 == x);
                }
            }
            assert(spec_flag_of(self@, h) == false) by {
                assert(has_handle(self@, h));
                let c = choose|i: int| 0 <= i < self@.len() && (#[trigger] self@[i]).0 == h;
                assert(self@[c].1 == false);
            }
        }
        r
    }
}

/// Deregistering removes exactly the entries under `h` and keeps every other
/// entry, its flag untouched; uniqueness survives.
pub proof fn lemma_deregister_properties(s: Seq<(u128, bool)>, h: u128)
    ensures
        !has_handle(spec_deregister(s, h), h),
        unique_handles(s) ==> unique_handles(spec_deregister(s, h)),
        forall|r: (u128, bool)| #[trigger]
            spec_deregister(s, h).contains(r) ==> s.contains(r) && r.0 != h,
        forall|r: (u128, bool)| #[trigger] s.contains(r) && r.0 != h ==> spec_deregister(
            s,
            h,
        ).contains(r),
    decreases s.len(),
{
    if s.len() > 0 {
        let rest = s.drop_last();
        lemma_deregister_properties(rest, h);
        let d_rest = spec_deregister(rest, h);
        let d = spec_deregister(s, h);
        assert(forall|i: int| 0 <= i < rest.len() ==> rest[i] == s[i]);
        assert(unique_handles(s) ==> unique_handles(rest));
        assert forall|r: (u128, bool)| #[trigger] d.contains(r) implies s.contains(r) && r.0
            != h by {
            if d_rest.contains(r) {
                assert(rest.contains(r));
                let i = choose|i: int| 0 <= i < rest.len() && rest[i] == r;
                assert(s[i] == r);
            } else {
                assert(r == s.last());
                assert(s[s.len() - 1] == r);
            }
        }
        assert forall|r: (u128, bool)| #[trigger] s.contains(r) && r.0 != h implies d.contains(
            r,
        ) by {
            let i = choose|i: int| 0 <= i < s.len() && s[i] == r;
            if i == s.len() - 1 {
                if s.last().0 != h {
                    assert(d[d.len() - 1] == r);
                }
            } else {
                assert(rest[i] == r);
                assert(rest.contains(r));
                assert(d_rest.contains(r));
                let k = choose|k: int| 0 <= k < d_rest.len() && d_rest[k] == r;
                if s.last().0 == h {
                    assert(d == d_rest);
                } else {
                    assert(d[k] == d_rest[k]);
                }
            }
        }
        assert forall|i: int| 0 <= i < d.len() implies (#[trigger] d[i]).0 != h by {
            assert(d.contains(d[i]));
        }
        if unique_handles(s) {
            assert forall|i: int, j: int| 0 <= i < j < d.len() implies d[i].0 != d[j].0 by {
                if s.last().0 != h && j == d.len() - 1 {
                    assert(d[j] == s.last());
                    assert(d_rest.contains(d[i]));
                    assert(rest.contains(d[i]));
                    let k = choose|k: int| 0 <= k < rest.len() && rest[k] == d[i];
                    assert(s[k] == d[i]);
                    assert(s[k].0 != s[s.len() - 1].0);
                }
            }
        }
    }
}

} // verus!
