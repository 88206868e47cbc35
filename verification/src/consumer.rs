//! Handing items over to a consumer one by one, until it wants no more.
use vstd::prelude::*;

verus! {

/// A consumer of items handed over one by one, which says after each one
/// whether it wants more.
pub trait Consumer<T> {
    /// The items handed over so far, each with the answer the consumer gave.
    spec fn taken(&self) -> Seq<(T, bool)>;

    /// Takes `item`; returns whether to hand over more.
    fn take(&mut self, item: T) -> (more: bool)
        ensures
            final(self).taken() == old(self).taken().push((item, more)),
    ;
}

/// Whether `calls`, the items handed over with the answers given, are the
/// first items of `full` in order, up to and including the first one after
/// which the consumer wanted no more, or all of `full` if there was none.
pub open spec fn handed_until_stop<T>(full: Seq<T>, calls: Seq<(T, bool)>) -> bool {
    &&& calls.len() <= full.len()
    &&& forall|i: int| 0 <= i < calls.len() ==> (#[trigger] calls[i]).0 == full[i]
    &&& forall|i: int| 0 <= i < calls.len() - 1 ==> (#[trigger] calls[i]).1
    &&& calls.len() < full.len() ==> calls.len() > 0 && !calls.last().1
}

/// What `consumer` was handed during a call, from the state `before`.
pub open spec fn handed_since<T>(before: Seq<(T, bool)>, after: Seq<(T, bool)>) -> Seq<(T, bool)> {
    after.skip(before.len() as int)
}

/// Whether `after` extends `before`.
pub open spec fn extends<T>(before: Seq<(T, bool)>, after: Seq<(T, bool)>) -> bool {
    before.len() <= after.len() && after.take(before.len() as int) == before
}

/// Hands the items of `items` to `consumer` in order, and stops after the
/// first one after which it wants no more.
pub fn hand_over<T, C: Consumer<T>>(items: Vec<T>, consumer: &mut C)
    ensures
        extends(old(consumer).taken(), final(consumer).taken()),
        handed_until_stop(items@, handed_since(old(consumer).taken(), final(consumer).taken())),
{
    let ghost full = items@;
    let ghost start = consumer.taken();
    let count = items.len();
    let mut rest = items;
    let mut stack: Vec<T> = Vec::new();
    while rest.len() > 0
        invariant
            rest@.len() + stack@.len() == full.len(),
            full.len() == count,
            forall|k: int| 0 <= k < rest@.len() ==> #[trigger] rest@[k] == full[k],
            forall|k: int|
                0 <= k < stack@.len() ==> (#[trigger] stack@[k]) == full[full.len() - 1 - k],
        decreases rest@.len(),
    {
        match rest.pop() {
            Some(t) => stack.push(t),
            None => {},
        }
    }
    let mut handed: usize = 0;
    let mut more = true;
    proof {
        assert(consumer.taken().skip(start.len() as int) =~= Seq::<(T, bool)>::empty());
        assert(consumer.taken().take(start.len() as int) =~= start);
    }
    while more && stack.len() > 0
        invariant
            handed + stack@.len() == full.len(),
            full.len() == count,
            forall|k: int|
                0 <= k < stack@.len() ==> (#[trigger] stack@[k]) == full[full.len() - 1 - k],
            extends(start, consumer.taken()),
            consumer.taken().len() == start.len() + handed,
            forall|i: int|
                0 <= i < handed ==> (#[trigger] consumer.taken()[start.len() + i]).0 == full[i],
            forall|i: int|
                0 <= i < handed - 1 ==> (#[trigger] consumer.taken()[start.len() + i]).1,
            handed > 0 ==> consumer.taken().last().1 == more,
            handed == 0 ==> more,
        decreases stack@.len(),
    {
        let item = match stack.pop() {
            Some(t) => t,
            None => {
                assert(false);
                return;
            },
        };
        let ghost before = consumer.taken();
        proof {
            assert(item == full[handed as int]);
            if handed > 0 {
                assert(before.last() == before[start.len() + handed - 1]);
            }
        }
        more = consumer.take(item);
        proof {
            assert(consumer.taken().take(start.len() as int) =~= before.take(start.len() as int));
            assert forall|i: int| 0 <= i < handed + 1 implies (#[trigger] consumer.taken()[start.len() + i]).0 == full[i] by {
                if i < handed {
                    assert(consumer.taken()[start.len() + i] == before[start.len() + i]);
                }
            }
            assert forall|i: int| 0 <= i < handed implies (#[trigger] consumer.taken()[start.len() + i]).1 by {
                assert(consumer.taken()[start.len() + i] == before[start.len() + i]);
                if i == handed - 1 {
                    assert(before.last() == before[start.len() + i]);
                }
            }
        }
        handed = handed + 1;
    }
    proof {
        let calls = consumer.taken().skip(start.len() as int);
        assert(calls.len() == handed);
        assert forall|i: int| 0 <= i < calls.len() implies (#[trigger] calls[i]).0 == full[i] by {
            assert(calls[i] == consumer.taken()[start.len() + i]);
        }
        assert forall|i: int| 0 <= i < calls.len() - 1 implies (#[trigger] calls[i]).1 by {
            assert(calls[i] == consumer.taken()[start.len() + i]);
        }
        if calls.len() > 0 {
            assert(calls.last() == consumer.taken().last());
        }
    }
}

/// A consumer that keeps the first `limit` items handed to it (at least
/// one) and then wants no more.
pub struct FirstItems<T> {
    limit: usize,
    items: Vec<T>,
}

impl<T> FirstItems<T> {
    /// A consumer of the first `limit` items.
    pub fn new(limit: usize) -> (c: Self)
        ensures
            c.taken() == Seq::<(T, bool)>::empty(),
            c.spec_limit() == limit,
    {
        let c = FirstItems { limit, items: Vec::new() };
        assert(c.taken() =~= Seq::<(T, bool)>::empty());
        c
    }

    /// How many items it keeps.
    pub closed spec fn spec_limit(&self) -> nat {
        self.limit as nat
    }

    /// The items kept, in the order they came.
    pub fn into_items(self) -> (v: Vec<T>)
        ensures
            v@ == self.taken().map_values(|p: (T, bool)| p.0),
    {
        let v = self.items;
        assert(v@ =~= self.taken().map_values(|p: (T, bool)| p.0));
        v
    }
}

impl<T> Consumer<T> for FirstItems<T> {
    /// Each item kept, with whether fewer than `limit` had come with it.
    closed spec fn taken(&self) -> Seq<(T, bool)> {
        Seq::new(self.items@.len(), |i: int| (self.items@[i], i + 1 < self.limit))
    }

    fn take(&mut self, item: T) -> (more: bool) {
        self.items.push(item);
        let more = self.items.len() < self.limit;
        assert(self.taken() =~= old(self).taken().push((item, more)));
        more
    }
}

} // verus!
