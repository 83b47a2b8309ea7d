//! The event bus: the registry of subscribers an inbound frame is relayed to.
//!
//! The bus keeps one handle per live subscription, in registration order.
//! A publish works from the dispatch snapshot taken at its start, so a
//! subscriber added during a dispatch does not receive the frame being
//! dispatched, and delivery to one subscriber is independent of the others:
//! the host invokes each callback of the snapshot in turn.

use vstd::prelude::*;

verus! {

/// The subscriber registry.
pub struct EventBus {
    subs: Vec<u64>,
    next_id: u64,
}

/// The registry with every entry equal to `h` removed, order kept.
pub open spec fn without(s: Seq<u64>, h: u64) -> Seq<u64>
    decreases s.len(),
{
    if s.len() == 0 {
        seq![]
    } else {
        (if s[0] == h {
            Seq::empty()
        } else {
            seq![s[0]]
        }) + without(s.skip(1), h)
    }
}

/// How often `x` occurs in a registry.
pub open spec fn occurrences(s: Seq<u64>, x: u64) -> nat
    decreases s.len(),
{
    if s.len() == 0 {
        0
    } else {
        (if s[0] == x {
            1nat
        } else {
            0nat
        }) + occurrences(s.skip(1), x)
    }
}

proof fn lemma_occurrences_push(s: Seq<u64>, y: u64, x: u64)
    ensures
        occurrences(s.push(y), x) == occurrences(s, x) + (if x == y {
            1nat
        } else {
            0nat
        }),
    decreases s.len(),
{
    if s.len() == 0 {
        assert(s.push(y).skip(1) =~= Seq::<u64>::empty());
        assert(occurrences(s.push(y).skip(1), x) == 0);
    } else {
        assert(s.push(y).skip(1) =~= s.skip(1).push(y));
        lemma_occurrences_push(s.skip(1), y, x);
        assert(s.push(y)[0] == s[0]);
    }
}

proof fn lemma_occurrences_absent(s: Seq<u64>, x: u64)
    requires
        !s.contains(x),
    ensures
        occurrences(s, x) == 0,
    decreases s.len(),
{
    if s.len() > 0 {
        assert(!s.skip(1).contains(x)) by {
            if s.skip(1).contains(x) {
                let i = choose|i: int| 0 <= i < s.skip(1).len() && s.skip(1)[i] == x;
                assert(s[i + 1] == x);
            }
        }
        lemma_occurrences_absent(s.skip(1), x);
    }
}

proof fn lemma_without_props(s: Seq<u64>, h: u64)
    ensures
        forall|x: u64| #[trigger] without(s, h).contains(x) <==> (s.contains(x) && x != h),
        (forall|i: int, j: int| 0 <= i < j < s.len() ==> s[i] != s[j]) ==> (forall|i: int, j: int|
            0 <= i < j < without(s, h).len() ==> without(s, h)[i] != without(s, h)[j]),
    decreases s.len(),
{
    if s.len() == 0 {
        assert(without(s, h) =~= Seq::<u64>::empty());
        assert forall|x: u64| #[trigger] without(s, h).contains(x) <==> (s.contains(x) && x != h)
        by {
            if s.contains(x) {
                let i = choose|i: int| 0 <= i < s.len() && s[i] == x;
            }
        }
    } else {
        let rest = s.skip(1);
        lemma_without_props(rest, h);
        assert forall|x: u64| #[trigger] without(s, h).contains(x) <==> (s.contains(x) && x != h)
        by {
            let head: Seq<u64> = if s[0] == h {
                Seq::empty()
            } else {
                seq![s[0]]
            };
            assert(without(s, h) == head + without(rest, h));
            if without(s, h).contains(x) {
                let i = choose|i: int| 0 <= i < without(s, h).len() && without(s, h)[i] == x;
                if i < head.len() {
                    assert(x == s[0] && x != h);
                    assert(s.contains(x)) by {
                        assert(s[0] == x);
                    }
                } else {
                    assert(without(rest, h)[i - head.len()] == x);
                    assert(without(rest, h).contains(x));
                    assert(rest.contains(x) && x != h);
                    let j = choose|j: int| 0 <= j < rest.len() && rest[j] == x;
                    assert(s[j + 1] == x);
                }
            }
            if s.contains(x) && x != h {
                let i = choose|i: int| 0 <= i < s.len() && s[i] == x;
                if i == 0 {
                    assert(head.len() == 1 && head[0] == x);
                    assert(without(s, h)[0] == x);
                } else {
                    assert(rest[i - 1] == x);
                    assert(rest.contains(x));
                    assert(without(rest, h).contains(x));
                    let j = choose|j: int|
                        0 <= j < without(rest, h).len() && without(rest, h)[j] == x;
                    assert(without(s, h)[head.len() + j] == x);
                }
            }
        }
        if forall|i: int, j: int| 0 <= i < j < s.len() ==> s[i] != s[j] {
            assert(forall|i: int, j: int| 0 <= i < j < rest.len() ==> rest[i] != rest[j]) by {
                assert(forall|i: int| 0 <= i < rest.len() ==> rest[i] == s[i + 1]);
            }
            let head: Seq<u64> = if s[0] == h {
                Seq::empty()
            } else {
                seq![s[0]]
            };
            assert(without(s, h) == head + without(rest, h));
            assert forall|i: int, j: int|
                0 <= i < j < without(s, h).len() implies without(s, h)[i] != without(s, h)[j] by {
                if i < head.len() {
                    // the head is s[0]; the tail holds only entries of `rest`
                    assert(without(rest, h)[j - head.len()] == without(s, h)[j]);
                    assert(without(rest, h).contains(without(s, h)[j]));
                    assert(rest.contains(without(s, h)[j]));
                    let k = choose|k: int| 0 <= k < rest.len() && rest[k] == without(s, h)[j];
                    assert(s[k + 1] == without(s, h)[j]);
                    assert(s[0] != s[k + 1]);
                } else {
                    assert(without(rest, h)[i - head.len()] != without(rest, h)[j - head.len()]);
                }
            }
        }
    }
}

impl EventBus {
    /// The live subscriptions, in registration order: the order one publish
    /// delivers in.
    pub closed spec fn order(self) -> Seq<u64> {
        self.subs@
    }

    pub closed spec fn spec_next(self) -> u64 {
        self.next_id
    }

    /// Handles are distinct and below the next to be handed out.
    pub closed spec fn wf(self) -> bool {
        (forall|i: int| 0 <= i < self.subs@.len() ==> self.subs@[i] < self.next_id) && (forall|
            i: int,
            j: int,
        |
            0 <= i < j < self.subs@.len() ==> self.subs@[i] != self.subs@[j])
    }

    /// A fresh bus with no subscriber.
    pub fn new() -> (b: EventBus)
        ensures
            b.wf(),
            b.order().len() == 0,
    {
        EventBus { subs: Vec::new(), next_id: 0 }
    }

    /// Whether another subscriber can still be registered.
    pub fn can_subscribe(&self) -> (r: bool)
        ensures
            r == (self.spec_next() < u64::MAX),
    {
        self.next_id < u64::MAX
    }

    /// Registers a subscriber; returns its handle, fresh against every
    /// handle this bus ever handed out.
    pub fn subscribe(&mut self) -> (h: u64)
        requires
            old(self).wf(),
            old(self).spec_next() < u64::MAX,
        ensures
            final(self).wf(),
            final(self).order() == old(self).order().push(h),
            !old(self).order().contains(h),
            final(self).spec_next() == old(self).spec_next() + 1,
    {
        let h = self.next_id;
        self.next_id = self.next_id + 1;
        self.subs.push(h);
        proof {
            assert(!old(self).order().contains(h)) by {
                if old(self).order().contains(h) {
                    let i = choose|i: int|
                        0 <= i < old(self).order().len() && old(self).order()[i] == h;
                }
            }
        }
        h
    }

    /// Removes a subscription. A handle never issued, or already removed, is
    /// a no-op, not an error.
    pub fn unsubscribe(&mut self, h: u64)
        requires
            old(self).wf(),
        ensures
            final(self).wf(),
            final(self).order() == without(old(self).order(), h),
            final(self).spec_next() == old(self).spec_next(),
            forall|x: u64|
                #[trigger] final(self).order().contains(x) <==> (old(self).order().contains(x)
                    && x != h),
    {
        let ghost s0 = self.subs@;
        let mut kept: Vec<u64> = Vec::new();
        let mut idx: usize = 0;
        proof {
            assert(kept@ + without(s0.skip(0), h) =~= without(s0, h)) by {
                assert(s0.skip(0) =~= s0);
                assert(kept@ + without(s0, h) =~= without(s0, h));
            }
        }
        while idx < self.subs.len()
            invariant
                idx <= self.subs.len(),
                s0 == self.subs@,
                kept@ + without(s0.skip(idx as int), h) == without(s0, h),
            decreases self.subs.len() - idx,
        {
            let ghost k0 = kept@;
            let e = self.subs[idx];
            if e != h {
                kept.push(e);
            }
            proof {
                let tail = s0.skip(idx as int);
                assert(tail[0] == s0[idx as int]);
                assert(tail.skip(1) =~= s0.skip(idx as int + 1));
                if e != h {
                    assert(k0.push(e) + without(s0.skip(idx as int + 1), h) =~= k0 + (seq![e]
                        + without(tail.skip(1), h)));
                } else {
                    assert(k0 + without(s0.skip(idx as int + 1), h) =~= k0 + (Seq::empty()
                        + without(tail.skip(1), h)));
                }
            }
            idx = idx + 1;
        }
        proof {
            assert(s0.skip(s0.len() as int) =~= Seq::<u64>::empty());
            assert(kept@ + without(s0.skip(s0.len() as int), h) =~= kept@);
        }
        self.subs = kept;
        proof {
            lemma_without_props(s0, h);
            assert forall|i: int| 0 <= i < self.subs@.len() implies self.subs@[i]
                < self.next_id by {
                let x = self.subs@[i];
                assert(self.subs@.contains(x));
                assert(s0.contains(x));
                let j = choose|j: int| 0 <= j < s0.len() && s0[j] == x;
            }
        }
    }

    /// The dispatch snapshot for one publish: the handles to deliver to, in
    /// registration order. It is a copy: subscribing or unsubscribing during
    /// the dispatch leaves it as it was taken.
    pub fn dispatch_order(&self) -> (v: Vec<u64>)
        ensures
            v@ == self.order(),
    {
        let mut v: Vec<u64> = Vec::new();
        let mut idx: usize = 0;
        while idx < self.subs.len()
            invariant
                idx <= self.subs.len(),
                v@ == self.subs@.take(idx as int),
            decreases self.subs.len() - idx,
        {
            v.push(self.subs[idx]);
            proof {
                assert(self.subs@.take(idx as int + 1) =~= self.subs@.take(idx as int).push(
                    self.subs@[idx as int],
                ));
            }
            idx = idx + 1;
        }
        proof {
            assert(self.subs@.take(self.subs@.len() as int) =~= self.subs@);
        }
        v
    }
}

/// Law: unsubscribing a handle that is not registered — never issued, or
/// already removed — changes nothing.
pub proof fn lemma_unsubscribe_unknown_is_noop(s: Seq<u64>, h: u64)
    requires
        !s.contains(h),
    ensures
        without(s, h) == s,
    decreases s.len(),
{
    if s.len() > 0 {
        assert(s[0] != h) by {
            assert(s.contains(s[0]));
        }
        assert(!s.skip(1).contains(h)) by {
            if s.skip(1).contains(h) {
                let i = choose|i: int| 0 <= i < s.skip(1).len() && s.skip(1)[i] == h;
                assert(s[i + 1] == h);
            }
        }
        lemma_unsubscribe_unknown_is_noop(s.skip(1), h);
        assert(seq![s[0]] + s.skip(1) =~= s);
    } else {
        assert(without(s, h) =~= s);
    }
}

/// Law: two subscribers registered in that order on any bus stand at the end
/// of the dispatch snapshot in the same order, each exactly once — so one
/// publish invokes the first, then the second, once each, and delivery to
/// either does not depend on the other.
pub proof fn lemma_dispatch_order(b0: EventBus, b1: EventBus, b2: EventBus, h1: u64, h2: u64)
    requires
        b1.order() == b0.order().push(h1),
        !b0.order().contains(h1),
        b2.order() == b1.order().push(h2),
        !b1.order().contains(h2),
    ensures
        b2.order().len() >= 2,
        b2.order()[b2.order().len() - 2] == h1,
        b2.order()[b2.order().len() - 1] == h2,
        occurrences(b2.order(), h1) == 1,
        occurrences(b2.order(), h2) == 1,
        h1 != h2,
{
    lemma_occurrences_absent(b0.order(), h1);
    lemma_occurrences_push(b0.order(), h1, h1);
    lemma_occurrences_push(b1.order(), h2, h1);
    lemma_occurrences_absent(b1.order(), h2);
    lemma_occurrences_push(b1.order(), h2, h2);
    assert(b1.order()[b1.order().len() - 1] == h1);
    assert(b1.order().contains(h1));
    assert(b2.order()[b2.order().len() - 2] == h1);
}

} // verus!
