//! How instances come into being, are shared and are read.

use crate::collectible::{Collectible, Link};
use crate::domain;
use crate::domain::Domain;
use crate::heap::Body;
use crate::model::{Model, Payload};
use crate::ref_counted;
use crate::ref_counted::RefCounted;
use std::sync::atomic::Ordering;
use vstd::prelude::*;

verus! {

/// The counter value of an instance that has just been created.
pub open spec fn initial_link(shared: bool) -> Link {
    Link {
        ref_cnt: if shared {
            1
        } else {
            0
        },
        ptr: 0,
    }
}

impl<T, F> Model<T, F> {
    /// There is room for another strong reference to the instance.
    pub open spec fn shareable(self, x: usize) -> bool {
        2 * self.instances[x].refs.len() + 1 <= usize::MAX
    }

    /// The instance has not been retired, and has a strong reference.
    pub open spec fn live(self, x: usize) -> bool {
        &&& self.instances.contains_key(x)
        &&& self.instances[x].retirement is None
        &&& self.instances[x].refs.len() > 0
    }

    /// The instance is of the payload type.
    pub open spec fn readable(self, x: usize) -> bool {
        self.instances.contains_key(x) && self.instances[x].body is Instance
    }

    /// The value of the instance.
    pub open spec fn value(self, x: usize) -> T {
        self.instances[x].body->Instance_0
    }
}

impl<T, F> Domain<T, F> {
    /// Something that has not been retired is replaced in memory.
    proof fn lemma_rep_instance(self, post: Self, x: usize, body: Body<T, F>)
        requires
            self.rep(),
            self@.structure(),
            self@.instances.contains_key(x),
            self@.instances[x].retirement is None,
            post.heap.wf(),
            post.heap@ == self.heap@.insert(x, body),
            post@.instances.contains_key(x),
            domain::instance_rep(body, post@.instances[x]),
            post@.instances == self@.instances.insert(x, post@.instances[x]),
            post@.collectors == self@.collectors,
            post@.chain == self@.chain,
            post@.epoch == self@.epoch,
            post@.tag == self@.tag,
            post@.locals == self@.locals,
            post@.dropped == self@.dropped,
            post.root == self.root,
            post.locals@ == self.locals@,
            post.dropped@ == self.dropped@,
        ensures
            post.rep(),
    {
        assert(self@.occupied(x));
        assert forall|a: usize| #[trigger] post.heap@.contains_key(a) == post@.occupied(a) by {
            assert(self.heap@.contains_key(a) == self@.occupied(a));
        }
        assert forall|d: usize| #[trigger] post@.collectors.contains_key(d) implies {
            &&& post.heap@.contains_key(d)
            &&& post.heap@[d] matches Body::Collector(other) && domain::collector_rep(
                post.heap@,
                other,
                post@.collectors[d],
            )
        } by {
            assert(self@.collectors.contains_key(d));
            assert(self@.occupied(d));
            let other = self.heap@[d]->Collector_0;
            assert forall|y: usize| #[trigger] self@.collectors[d].holds(y) implies {
                &&& post.heap@.contains_key(y)
                &&& post.heap@[y].vtable_word() == self.heap@[y].vtable_word()
                &&& post.heap@[y].link().target() == self.heap@[y].link().target()
            } by {
                assert(self@.keeps(d, y));
                assert(self.heap@.contains_key(y) == self@.occupied(y));
            }
            domain::lemma_collector_frame(self.heap@, post.heap@, other, self@.collectors[d]);
        }
        assert forall|c: usize| #[trigger] self@.registered(c) implies c != x by {
            assert(self@.collectors.contains_key(c));
        }
        self.lemma_chain_frame(post);
    }

    /// The first word of a retired instance is even.
    pub proof fn lemma_link_even(self, x: usize)
        requires
            self.rep(),
            self@.structure(),
            self@.instances.contains_key(x),
            self@.instances[x].retirement is Some,
        ensures
            self.heap@[x].link().ref_cnt % 4 == 0,
    {
        assert(self@.occupied(x));
        assert(self@.retirement(x) is Some);
        let c = self@.retirement(x)->0.holder;
        let collector = self@.collectors[c];
        assert(collector.holds(x));
        assert(self@.collectors.contains_key(c));
        let list = if collector.previous.contains(x) {
            collector.previous
        } else if collector.current.contains(x) {
            collector.current
        } else if collector.next.contains(x) {
            collector.next
        } else {
            collector.garbage
        };
        let i = list.index_of(x);
        assert(domain::linked(self.heap@, list));
        domain::lemma_linked_at(self.heap@, list, i);
        if i + 1 < list.len() {
            let y = list[i + 1];
            assert(list.contains(y));
            assert(collector.holds(y));
            assert(self@.keeps(c, y));
            assert(self@.occupied(y));
        }
    }

    /// Places an instance in memory.
    pub fn create(&mut self, counted: RefCounted<T>, shared: bool) -> (x: usize)
        requires
            old(self).wf(),
            old(self).room(),
            counted.next_or_refcnt == initial_link(shared),
        ensures
            final(self).wf(),
            !old(self)@.occupied(x),
            x != 0,
            x % 4 == 0,
            final(self)@ == old(self)@.create(x, counted.instance, shared),
            final(self)@.live(x),
            old(self)@.honours(final(self)@, Set::empty()),
    {
        let ghost before = *self;
        let x: usize = self.heap.place(Body::Instance(counted));
        proof {
            self.model@ = before@.create(x, counted.instance, shared);
            assert(before.heap@.contains_key(x) == before@.occupied(x));
            before@.lemma_create(x, counted.instance, shared);
            before.lemma_placed(*self, x, Body::Instance(counted));
            assert forall|a: usize| #[trigger] self.heap@.contains_key(a) == self@.occupied(a) by {
                assert(before.heap@.contains_key(a) == before@.occupied(a));
            }
            before.lemma_chain_frame(*self);
            before@.lemma_honours_instances(self@, Set::empty());
        }
        x
    }

    /// Places something in memory that nobody refers to.
    pub fn put(&mut self, payload: Payload<T, F>) -> (x: usize)
        requires
            old(self).wf(),
            old(self).room(),
            payload matches Payload::Closure(closure) ==> closure.link == (Link {
                ref_cnt: 0,
                ptr: 0,
            }),
        ensures
            final(self).wf(),
            !old(self)@.occupied(x),
            x != 0,
            final(self)@ == old(self)@.put(x, payload),
            old(self)@.honours(final(self)@, Set::empty()),
    {
        let ghost before = *self;
        let body = match payload {
            Payload::Instance(instance) => Body::Instance(RefCounted::new_unique(instance)),
            Payload::Closure(closure) => Body::Closure(closure),
        };
        let x: usize = self.heap.place(body);
        proof {
            self.model@ = before@.put(x, payload);
            assert(before.heap@.contains_key(x) == before@.occupied(x));
            before@.lemma_put(x, payload);
            before.lemma_placed(*self, x, body);
            assert forall|a: usize| #[trigger] self.heap@.contains_key(a) == self@.occupied(a) by {
                assert(before.heap@.contains_key(a) == before@.occupied(a));
            }
            before.lemma_chain_frame(*self);
            before@.lemma_honours_instances(self@, Set::empty());
        }
        x
    }

    /// Tries to add a strong reference to an instance.
    ///
    /// It fails if the instance is not reference-counted, has no strong reference, or has been
    /// retired.
    pub fn try_share(&mut self, x: usize, order: Ordering) -> (added: bool)
        requires
            old(self).wf(),
            ref_counted::load_order(order),
            old(self)@.readable(x),
            old(self)@.shareable(x),
        ensures
            final(self).wf(),
            added == (old(self)@.live(x) && old(self)@.instances[x].shared),
            added ==> final(self)@ == old(self)@.share(x),
            !added ==> final(self)@ == old(self)@,
            old(self)@.honours(final(self)@, Set::empty()),
            final(self).room() == old(self).room(),
    {
        let ghost before = *self;
        proof {
            assert(before@.occupied(x));
            before@.lemma_honours_instances(before@, Set::empty());
            if before@.instances[x].retirement is Some {
                before.lemma_link_even(x);
            }
        }
        let added = match self.heap.get_mut(x) {
            Body::Instance(counted) => counted.try_add_ref(order),
            _ => vstd::pervasive::unreached(),
        };
        proof {
            if added {
                before@.lemma_share(x);
                self.model@ = before@.share(x);
                before.lemma_rep_instance(*self, x, self.heap@[x]);
                before@.lemma_honours_instances(self@, Set::empty());
            } else {
                assert(self.heap@ =~= before.heap@);
                before.lemma_chain_frame(*self);
            }
        }
        added
    }

    /// Adds a strong reference to an instance that has one.
    pub fn share(&mut self, x: usize)
        requires
            old(self).wf(),
            old(self)@.live(x),
            old(self)@.instances[x].shared,
            old(self)@.shareable(x),
        ensures
            final(self).wf(),
            final(self)@ == old(self)@.share(x),
            old(self)@.honours(final(self)@, Set::empty()),
            final(self).room() == old(self).room(),
    {
        let ghost before = *self;
        proof {
            assert(before@.occupied(x));
        }
        match self.heap.get_mut(x) {
            Body::Instance(counted) => counted.add_ref(),
            _ => vstd::pervasive::unreached(),
        }
        proof {
            before@.lemma_share(x);
            self.model@ = before@.share(x);
            before.lemma_rep_instance(*self, x, self.heap@[x]);
            before@.lemma_honours_instances(self@, Set::empty());
        }
    }

    /// Drops a strong reference to a reference-counted instance.
    ///
    /// Returns `true` if it was the last one.
    pub(crate) fn unshare(&mut self, x: usize, token: Ghost<nat>) -> (last: bool)
        requires
            old(self).wf(),
            old(self)@.instances.contains_key(x),
            old(self)@.instances[x].shared,
            old(self)@.instances[x].refs.contains(token@),
        ensures
            final(self).wf(),
            final(self)@ == old(self)@.unshare(x, token@),
            last == (final(self)@.instances[x].refs.len() == 0),
            old(self)@.honours(final(self)@, set![token@]),
            final(self).room() == old(self).room(),
    {
        let ghost before = *self;
        proof {
            assert(before@.occupied(x));
            assert(before@.instances[x].refs.len() > 0) by {
                vstd::set_lib::lemma_set_empty_equivalency_len(before@.instances[x].refs);
            }
            before@.lemma_unshare(x, token@);
        }
        let last = match self.heap.get_mut(x) {
            Body::Instance(counted) => counted.drop_ref(),
            _ => vstd::pervasive::unreached(),
        };
        proof {
            self.model@ = before@.unshare(x, token@);
            before.lemma_rep_instance(*self, x, self.heap@[x]);
            before@.lemma_honours_instances(self@, set![token@]);
        }
        last
    }

    /// Gives up the ownership of an instance that is not reference-counted.
    pub(crate) fn disown(&mut self, x: usize, token: Ghost<nat>)
        requires
            old(self).wf(),
            old(self)@.instances.contains_key(x),
            !old(self)@.instances[x].shared,
            old(self)@.instances[x].refs.contains(token@),
        ensures
            final(self).wf(),
            final(self)@ == old(self)@.unshare(x, token@),
            final(self)@.instances[x].refs.len() == 0,
            old(self)@.honours(final(self)@, set![token@]),
            final(self).room() == old(self).room(),
    {
        let ghost before = *self;
        proof {
            assert(before@.occupied(x));
            assert(before@.instances[x].refs.len() > 0) by {
                vstd::set_lib::lemma_set_empty_equivalency_len(before@.instances[x].refs);
            }
            before@.lemma_unshare(x, token@);
            self.model@ = before@.unshare(x, token@);
            assert(self.heap@ =~= before.heap@.insert(x, before.heap@[x]));
            before.lemma_rep_instance(*self, x, self.heap@[x]);
            before@.lemma_honours_instances(self@, set![token@]);
        }
    }

    /// Returns a reference to the value of an instance.
    pub fn value(&self, x: usize) -> (value: &T)
        requires
            self.wf(),
            self@.readable(x),
        ensures
            *value == self@.value(x),
    {
        proof {
            assert(self@.occupied(x));
        }
        match self.heap.get(x) {
            Body::Instance(counted) => counted.deref(),
            _ => vstd::pervasive::unreached(),
        }
    }
}

} // verus!
