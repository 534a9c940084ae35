use crate::collectible::Collectible;
use crate::collector::Collector;
use crate::destructor::Destructor;
use crate::domain;
use crate::domain::Domain;
use crate::heap::Body;
use crate::model;
use crate::model::{Lock, Model, Payload};
use crate::Tag;
use vstd::prelude::*;

verus! {

/// [`ClearCursor`] is where a thread that clears the chain has got to.
pub struct ClearCursor {
    /// The head of the chain at the outset, null if there was none.
    pub collector_head: usize,
    /// The collector that is to be looked at next, null at the end of the chain.
    pub current_ptr: usize,
}

impl ClearCursor {
    /// The cursor belongs to the thread that is clearing the chain.
    pub open spec fn follows<T, F>(self, model: Model<T, F>) -> bool {
        model.lock matches Lock::Clear(clear) && {
            &&& clear.head == self.collector_head
            &&& model::first_of(clear.rest) == self.current_ptr
        }
    }
}

impl<T, F> Domain<T, F> {
    /// Collectors that are not in the chain lead from one to the next.
    #[verifier::opaque]
    pub open spec fn leads(self, list: Seq<usize>) -> bool {
        forall|i: int|
            0 <= i < list.len() ==> self.heap@[#[trigger] list[i]]->Collector_0.next_link
                == model::first_of(list.skip(i + 1))
    }

    /// The collectors of the chain lead from one to the next.
    proof fn lemma_leads_chain(self)
        requires
            self.chain_rep(),
        ensures
            self.leads(self@.chain),
    {
        reveal(Domain::chain_rep);
        reveal(Domain::leads);
    }

    /// So do the collectors after the first one.
    proof fn lemma_leads_skip(self, list: Seq<usize>)
        requires
            self.leads(list),
            list.len() > 0,
        ensures
            self.leads(list.skip(1)),
            self.heap@[list[0]]->Collector_0.next_link == model::first_of(list.skip(1)),
    {
        reveal(Domain::leads);
        assert forall|i: int| 0 <= i < list.skip(1).len() implies self.heap@[#[trigger] list.skip(
            1,
        )[i]]->Collector_0.next_link == model::first_of(list.skip(1).skip(i + 1)) by {
            assert(list.skip(1)[i] == list[i + 1]);
            assert(list.skip(1).skip(i + 1) =~= list.skip(i + 2));
        }
        let first: int = 0;
        assert(self.heap@[list[first]]->Collector_0.next_link == model::first_of(
            list.skip(first + 1),
        ));
    }

    /// So they do as long as they keep their links.
    proof fn lemma_leads_frame(self, post: Self, list: Seq<usize>)
        requires
            self.leads(list),
            forall|c: usize| #[trigger]
                list.contains(c) ==> post.heap@[c]->Collector_0.next_link
                    == self.heap@[c]->Collector_0.next_link,
        ensures
            post.leads(list),
    {
        reveal(Domain::leads);
        assert forall|i: int| 0 <= i < list.len() implies post.heap@[
            #[trigger] list[i]
        ]->Collector_0.next_link == model::first_of(list.skip(i + 1)) by {
            assert(list.contains(list[i]));
        }
    }

    /// A collector that keeps nothing is taken out of memory.
    proof fn lemma_rep_remove(self, post: Self, c: usize)
        requires
            self.rep(),
            self@.steady(),
            self@.collectors.contains_key(c),
            self@.collectors[c].retirement is None,
            !self@.registered(c),
            post.heap.wf(),
            post.heap@ == self.heap@.remove(c),
            post@ == self@.remove_temporary(c),
            post.root == self.root,
            post.locals@ == self.locals@,
            post.dropped@ == self.dropped@,
        ensures
            post.rep(),
    {
        assert(self@.occupied(c));
        assert forall|a: usize| #[trigger] post.heap@.contains_key(a) == post@.occupied(a) by {
            assert(self.heap@.contains_key(a) == self@.occupied(a));
        }
        assert forall|d: usize| #[trigger] post@.collectors.contains_key(d) implies {
            &&& post.heap@.contains_key(d)
            &&& post.heap@[d] matches Body::Collector(other) && domain::collector_rep(
                post.heap@,
                other,
                post@.collectors[d],
            )
        } by {
            assert(self@.collectors.contains_key(d));
            let other = self.heap@[d]->Collector_0;
            assert forall|y: usize| #[trigger] self@.collectors[d].holds(y) implies {
                &&& post.heap@.contains_key(y)
                &&& post.heap@[y].vtable_word() == self.heap@[y].vtable_word()
                &&& post.heap@[y].link().target() == self.heap@[y].link().target()
            } by {
                assert(self@.keeps(d, y));
                assert(self.heap@.contains_key(y) == self@.occupied(y));
            }
            domain::lemma_collector_frame(
                self.heap@,
                post.heap@,
                other,
                self@.collectors[d],
            );
        }
        self.lemma_chain_frame(post);
        assert forall|x: usize| #[trigger] post@.instances.contains_key(x) implies x != c by {
            assert(self@.occupied(x));
        }
    }
}

impl Collector {
    /// Locks the chain to clear it: the first step of doing so.
    ///
    /// Returns `None` if the chain is locked.
    pub fn clear_begin<T, F>(domain: &mut Domain<T, F>) -> (cursor: Option<ClearCursor>)
        requires
            old(domain).wf(),
        ensures
            final(domain).wf(),
            cursor is Some == (old(domain)@.lock is Free),
            cursor is None ==> final(domain)@ == old(domain)@,
            cursor matches Some(cursor) ==> {
                &&& final(domain)@ == old(domain)@.clear_lock()
                &&& cursor.follows(final(domain)@)
            },
            old(domain)@.spares(final(domain)@),
            final(domain).room() == old(domain).room(),
    {
        let ghost before = *domain;
        proof {
            before@.lemma_head(before.root.chain_head);
            before@.lemma_spares_self();
        }
        match Collector::lock_chain(&mut domain.root) {
            Ok(collector_head) => {
                proof {
                    domain.model@ = before@.clear_lock();
                    before@.lemma_clear_lock();
                    before.lemma_chain_frame(*domain);
                    before@.lemma_spares_simple(domain@);
                }
                Some(ClearCursor { collector_head, current_ptr: collector_head })
            },
            Err(_) => None,
        }
    }

    /// Looks at the next collector of the chain.
    ///
    /// Returns `false` if its thread has not given it up.
    pub fn clear_step<T, F>(domain: &mut Domain<T, F>, cursor: &mut ClearCursor) -> (invalid: bool)
        requires
            old(domain).wf(),
            old(cursor).follows(old(domain)@),
            old(cursor).current_ptr != 0,
        ensures
            final(domain).wf(),
            final(cursor).follows(final(domain)@),
            old(domain)@.lock->Clear_0.rest.len() > 0,
            invalid == old(domain)@.collectors[old(cursor).current_ptr].invalid,
            !invalid ==> final(domain)@ == old(domain)@ && *final(cursor) == *old(cursor),
            invalid ==> final(domain)@ == old(domain)@.clear_pass(),
            old(domain)@.spares(final(domain)@),
            final(domain).room() == old(domain).room(),
    {
        let ghost before = *domain;
        let ghost clear = before@.lock->Clear_0;
        let current_ptr: usize = cursor.current_ptr;
        proof {
            let tail = clear.walked + clear.rest;
            assert(clear.rest.is_suffix_of(before@.chain)) by {
                let offset = before@.chain.len() - tail.len();
                assert forall|i: int| 0 <= i < clear.rest.len() implies before@.chain[offset
                    + clear.walked.len() + i] == clear.rest[i] by {
                    assert(tail[clear.walked.len() + i] == clear.rest[i]);
                }
                assert(clear.rest =~= before@.chain.skip(offset + clear.walked.len()));
            }
            before.lemma_next_link(clear.rest);
            before@.lemma_spares_self();
        }
        let state: u8 = domain.collector(current_ptr).state;
        assert(state & (1u8 << 3) == 0 <==> state < 8) by (bit_vector)
            requires
                state < 16,
        ;
        if state & Collector::INVALID == 0 {
            return false;
        }
        cursor.current_ptr = domain.collector(current_ptr).next_link;
        proof {
            domain.model@ = before@.clear_pass();
            before@.lemma_clear_pass();
            before.lemma_chain_frame(*domain);
            before@.lemma_spares_simple(domain@);
        }
        true
    }

    /// Takes all the collectors out of the chain, and drops them.
    ///
    /// Once they have been taken out of the chain, they are in nobody's reach, so that it makes no
    /// difference to other threads when they are dropped.
    ///
    /// Returns `false` if another collector has been added to the chain since it was locked.
    pub fn clear_commit<T, F>(domain: &mut Domain<T, F>, cursor: &mut ClearCursor) -> (
    cleared: bool)
        requires
            old(domain).wf(),
            old(cursor).follows(old(domain)@),
            old(cursor).current_ptr == 0,
        ensures
            final(domain).wf(),
            final(cursor).follows(final(domain)@),
            old(domain)@.lock->Clear_0.rest.len() == 0,
            cleared == (model::first_of(old(domain)@.chain) == old(cursor).collector_head),
            !cleared ==> final(domain)@ == old(domain)@,
            cleared ==> final(domain)@ == old(domain)@.clear_commit(),
            old(domain)@.spares(final(domain)@),
    {
        let ghost before = *domain;
        let ghost clear = before@.lock->Clear_0;
        proof {
            before@.lemma_head(before.root.chain_head);
            before@.lemma_spares_self();
            if clear.rest.len() > 0 {
                let tail = clear.walked + clear.rest;
                let i = before@.chain.len() - clear.rest.len();
                assert(tail[clear.walked.len() as int] == clear.rest[0]);
                assert(before@.chain[i] == clear.rest[0]);
                assert(before@.registered(clear.rest[0]));
                assert(before@.occupied(clear.rest[0]));
            }
        }
        let p: usize = domain.root.chain_head;
        if Tag::unset_tag(p) != cursor.collector_head {
            return false;
        }
        // There is no `Ptr` that possibly sees any garbage instances in those collectors.
        domain.root.chain_head = Tag::update_tag(0, Tag::into_tag(p));
        let mut current_ptr: usize = cursor.collector_head;
        cursor.collector_head = 0;
        let ghost whole = before@.clear_commit();
        let ghost mut list = before@.chain;
        proof {
            before@.lemma_clear_unlink();
            domain.model@ = before@.clear_unlink();
            reveal(Domain::chain_rep);
            before.lemma_leads_chain();
            before.lemma_leads_frame(*domain, list);
            domain@.lemma_destroy(list);
        }
        while current_ptr != 0
            invariant
                domain.rep(),
                domain@.steady(),
                domain@.doomed(list),
                domain@.outside_but(list),
                domain.leads(list),
                domain@.lock == before@.clear_unlink().lock,
                current_ptr == model::first_of(list),
                domain@.destroy(list) == whole,
            decreases list.len(),
        {
            let ghost mid = *domain;
            proof {
                assert(list.contains(list[0]));
                mid@.lemma_destroy_first(list);
                mid.lemma_leads_skip(list);
            }
            let next_ptr: usize = domain.collector(current_ptr).next_link;
            Collector::empty_out(domain, current_ptr);
            let ghost emptied = *domain;
            let _ = domain.heap.take(current_ptr);
            proof {
                domain.model@ = emptied@.remove_temporary(current_ptr);
                emptied.lemma_rep_remove(*domain, current_ptr);
                let rest = list.skip(1);
                assert forall|c: usize| #[trigger] rest.contains(
                    c,
                ) implies domain.heap@[c]->Collector_0.next_link
                    == mid.heap@[c]->Collector_0.next_link by {
                    assert(domain@.collectors.contains_key(c));
                    assert(emptied@.collectors.contains_key(c));
                }
                mid.lemma_leads_frame(*domain, rest);
                list = rest;
            }
            current_ptr = next_ptr;
        }
        proof {
            if list.len() > 0 {
                assert(list.contains(list[0]));
                assert(domain@.occupied(list[0]));
            }
            domain@.lemma_destroy(list);
        }
        true
    }

    /// Unlocks the chain: the last step of clearing it.
    pub fn clear_end<T, F>(domain: &mut Domain<T, F>, cursor: ClearCursor)
        requires
            old(domain).wf(),
            cursor.follows(old(domain)@),
        ensures
            final(domain).wf(),
            final(domain)@ == old(domain)@.unlock(),
            old(domain)@.spares(final(domain)@),
            final(domain).room() == old(domain).room(),
    {
        let ghost before = *domain;
        proof {
            before@.lemma_head(before.root.chain_head);
        }
        Collector::unlock_chain(&mut domain.root);
        proof {
            domain.model@ = before@.unlock();
            before@.lemma_unlock();
            before.lemma_chain_frame(*domain);
            before@.lemma_spares_simple(domain@);
        }
    }

    /// Takes all the collectors out of the chain, and drops them, if all are invalid. What is to be
    /// destroyed is left to be taken.
    pub fn sweep_chain<T, F>(domain: &mut Domain<T, F>) -> (cleared: bool)
        requires
            old(domain).wf(),
        ensures
            final(domain).wf(),
            final(domain)@ == old(domain)@.clear_chain(),
            cleared == (old(domain)@.lock is Free && old(domain)@.all_invalid(old(domain)@.chain)),
            old(domain)@.spares(final(domain)@),
    {
        let ghost before = domain@;
        let mut cursor = match Collector::clear_begin(domain) {
            Some(cursor) => cursor,
            None => {
                return false;
            },
        };
        let ghost whole = domain@.clear_run();
        let ghost all = before.all_invalid(before.chain);
        while cursor.current_ptr != 0
            invariant
                domain.wf(),
                before == old(domain)@,
                before.inv(),
                before.lock is Free,
                cursor.follows(domain@),
                domain@.chain == before.chain,
                cursor.collector_head == model::first_of(before.chain),
                domain@.clear_run() == whole,
                whole == before.clear_lock().clear_run(),
                domain@.all_invalid(domain@.lock->Clear_0.rest) == all,
                all == before.all_invalid(before.chain),
                before.spares(domain@),
            decreases domain@.lock->Clear_0.rest.len(),
        {
            let ghost mid = domain@;
            if !Collector::clear_step(domain, &mut cursor) {
                let ghost stopped = domain@;
                Collector::clear_end(domain, cursor);
                proof {
                    mid.lemma_invalid_rest();
                    before.lemma_spares_transitive(stopped, domain@);
                }
                return false;
            }
            proof {
                mid.lemma_invalid_rest();
                before.lemma_spares_transitive(mid, domain@);
            }
        }
        let ghost mid = domain@;
        let cleared = Collector::clear_commit(domain, &mut cursor);
        let ghost committed = domain@;
        Collector::clear_end(domain, cursor);
        proof {
            before.lemma_spares_transitive(mid, committed);
            before.lemma_spares_transitive(committed, domain@);
        }
        cleared
    }

    /// Clears the [`Collector`] chain if all are invalid.
    ///
    /// # Errors
    ///
    /// If a destructor fails, the rest of what is to be destroyed is given back.
    pub fn clear_chain<T, F, D: Destructor<T, F>>(
        domain: &mut Domain<T, F>,
        thread: usize,
        destructor: &mut D,
    ) -> (result: Result<bool, Vec<Payload<T, F>>>)
        requires
            old(domain).wf(),
            old(domain).attended(thread),
        ensures
            final(domain).wf(),
            final(domain).attended(thread),
            final(domain)@.locals == old(domain)@.locals,
            final(domain)@.dropped == old(domain)@.dropped,
            result is Ok == (final(destructor).failures() == old(destructor).failures()),
            final(destructor).failures() <= old(destructor).failures() + 1,
            result is Err ==> final(destructor).faulted(),
            forall|c: usize| #[trigger]
                final(domain)@.registered(c) ==> old(domain)@.registered(c),
            ({
                let swept = old(domain)@.clear_chain();
                let all = old(domain)@.lock is Free && old(domain)@.all_invalid(old(domain)@.chain);
                let added = swept.dropped.skip(old(domain)@.dropped.len() as int);
                &&& result matches Ok(cleared) ==> {
                    &&& cleared == all
                    &&& final(destructor).log() == old(destructor).log() + added
                }
                &&& result matches Err(rest) ==> {
                    &&& all
                    &&& final(destructor).log() + rest@ == old(destructor).log() + added
                    &&& final(destructor).log().len() > old(destructor).log().len()
                }
                &&& all ==> swept.acts(final(domain)@, old(domain).local(thread))
                &&& !all ==> final(domain)@ == swept && *final(destructor) == *old(destructor)
                &&& old(destructor).quiet() ==> {
                    &&& result is Ok
                    &&& final(destructor).quiet()
                    &&& swept.alike(final(domain)@)
                }
            }),
            final(domain)@.chain == old(domain)@.clear_chain().chain,
            result matches Ok(false) || final(domain)@.chain.len() == 0,
            old(domain)@.spares(final(domain)@),
            old(domain)@.respects(
                final(domain)@,
                old(domain).local(thread),
                old(destructor).estate(),
            ),
            old(domain)@.inherits(old(destructor).estate(), final(destructor).estate()),
            final(domain)@.tokens + final(destructor).remaining() <= old(domain)@.tokens + old(
                destructor,
            ).remaining(),
    {
        let ghost before = domain@;
        let ghost c = domain.local(thread);
        let ghost estate = destructor.estate();
        let ghost log = destructor.log();
        let count: usize = domain.dropped.len();
        let cleared = Collector::sweep_chain(domain);
        let ghost swept = domain@;
        proof {
            before.lemma_clear_chain();
            before.lemma_respects_clear_chain(c);
            before.lemma_respects_more(swept, c, estate);
            before.lemma_swept(c);
        }
        if !cleared {
            proof {
                assert(swept.dropped.skip(before.dropped.len() as int) =~= Seq::empty());
                assert(log + swept.dropped.skip(before.dropped.len() as int) =~= log);
            }
            return Ok(false);
        }
        let payloads = domain.take_dropped_after(count);
        let ghost emptied = domain@;
        proof {
            assert(emptied.dropped =~= before.dropped);
            swept.lemma_acts_alike(emptied, c);
            swept.lemma_respects_words(emptied, c);
            swept.lemma_respects_more(emptied, c, estate);
            before.lemma_respects_transitive(swept, emptied, c, estate);
        }
        let failed = domain.hand_over(thread, payloads, destructor);
        proof {
            swept.lemma_acts_transitive(emptied, domain@, c);
            before.lemma_respects_transitive(emptied, domain@, c, estate);
            before.lemma_spares_transitive(swept, emptied);
            before.lemma_cleared();
            emptied.lemma_spares_unread(domain@);
            before.lemma_spares_transitive(emptied, domain@);
            assert forall|d: usize| #[trigger] domain@.registered(d) implies before.registered(
                d,
            ) by {
                assert(swept.registered(d));
            }
        }
        match failed {
            Some(rest) => Err(rest),
            None => Ok(true),
        }
    }

    /// Takes all the garbage instances out of the [`Collector`] of a terminating thread: one of the
    /// steps of the cleanup, which is repeated for as long as destructors retire more.
    ///
    /// Returns `false` if there are none.
    pub fn clear_once<T, F>(domain: &mut Domain<T, F>, thread: usize) -> (valid: bool)
        requires
            old(domain).wf(),
            old(domain).attended(thread),
            !old(domain)@.registered(old(domain).local(thread)),
        ensures
            final(domain).wf(),
            final(domain).attended(thread),
            final(domain)@ == old(domain)@.clear(old(domain).local(thread)),
            final(domain)@.locals == old(domain)@.locals,
            final(domain)@.chain == old(domain)@.chain,
            final(domain)@.collectors[old(domain).local(thread)].empty(),
            valid != old(domain)@.collectors[old(domain).local(thread)].empty(),
            old(domain)@.spares(final(domain)@),
    {
        let ghost before = domain@;
        let collector_ptr: usize = domain.locals[thread];
        proof {
            assert(before.collectors[collector_ptr].local_ok());
            before.lemma_drop_bags(collector_ptr, before.rank(collector_ptr));
            before.lemma_spares_temporary(collector_ptr);
        }
        let collector = domain.collector(collector_ptr);
        let valid = collector.previous_instance_link.is_some()
            || collector.current_instance_link.is_some()
            || collector.next_instance_link.is_some();
        Collector::empty_out(domain, collector_ptr);
        valid
    }

    /// Clears all the garbage instances for dropping the [`Collector`] of a terminating thread, until
    /// destructors retire nothing more.
    ///
    /// # Errors
    ///
    /// If a destructor fails, the rest of what is to be destroyed is given back.
    pub fn clear_for_drop<T, F, D: Destructor<T, F>>(
        domain: &mut Domain<T, F>,
        thread: usize,
        destructor: &mut D,
    ) -> (result: Result<(), Vec<Payload<T, F>>>)
        requires
            old(domain).wf(),
            old(domain).attended(thread),
            !old(domain)@.registered(old(domain).local(thread)),
        ensures
            final(domain).wf(),
            final(domain).attended(thread),
            final(domain)@.locals == old(domain)@.locals,
            final(domain)@.chain == old(domain)@.chain,
            final(domain)@.dropped == old(domain)@.dropped,
            result is Ok == (final(destructor).failures() == old(destructor).failures()),
            final(destructor).failures() <= old(destructor).failures() + 1,
            result is Err ==> final(destructor).faulted(),
            ({
                let c = old(domain).local(thread);
                &&& result is Ok ==> {
                    &&& old(domain)@.cleared_out(
                        final(domain)@,
                        c,
                        old(destructor).log(),
                        final(destructor).log(),
                    )
                    &&& final(domain)@.collectors[c].empty()
                }
                &&& result matches Err(rest) ==> {
                    &&& old(domain)@.cleared_out(
                        final(domain)@,
                        c,
                        old(destructor).log(),
                        final(destructor).log() + rest@,
                    )
                    &&& final(destructor).log().len() > old(destructor).log().len()
                }
                &&& old(destructor).quiet() ==> {
                    &&& result is Ok
                    &&& final(destructor).quiet()
                    &&& old(domain)@.clear(c).alike(final(domain)@)
                }
                &&& old(domain)@.chain.len() == 0 || old(domain)@.collectors[c].empty() || old(
                    destructor,
                ).quiet() ==> old(domain)@.spares(final(domain)@)
            }),
            old(domain)@.spares_retired(final(domain)@),
            old(domain)@.respects(
                final(domain)@,
                old(domain).local(thread),
                old(destructor).estate(),
            ),
            old(domain)@.inherits(old(destructor).estate(), final(destructor).estate()),
            final(domain)@.tokens + final(destructor).remaining() <= old(domain)@.tokens + old(
                destructor,
            ).remaining(),
    {
        let ghost before = domain@;
        let collector_ptr: usize = domain.locals[thread];
        let ghost c = collector_ptr;
        let ghost estate = destructor.estate();
        let ghost log = destructor.log();
        let ghost mut states = seq![before];
        proof {
            before.lemma_spares_self();
            before.lemma_respects_words(before, c);
            before.lemma_respects_more(before, c, estate);
            assert(log + Model::estates_of(states, c) =~= log);
        }
        let mut valid = true;
        while valid
            invariant
                domain.wf(),
                domain.attended(thread),
                before == old(domain)@,
                before.inv(),
                c == collector_ptr,
                domain.local(thread) == c,
                !domain@.registered(c),
                domain@.locals == before.locals,
                domain@.chain == before.chain,
                domain@.dropped == before.dropped,
                domain@.collectors[c].garbage.len() == 0,
                log == old(destructor).log(),
                estate == old(destructor).estate(),
                destructor.failures() == old(destructor).failures(),
                before.cleared_in(domain@, states, c, log, destructor.log()),
                states.len() > 1 ==> destructor.log().len() >= log.len(),
                before.spares_retired(domain@),
                before.respects(domain@, c, estate),
                before.inherits(estate, destructor.estate()),
                domain@.tokens + destructor.remaining() <= before.tokens + old(
                    destructor,
                ).remaining(),
                !valid ==> domain@.collectors[c].empty(),
                old(destructor).quiet() ==> {
                    &&& destructor.quiet()
                    &&& domain@.clear(c).alike(before.clear(c))
                },
                before.chain.len() == 0 || before.collectors[c].empty() || old(
                    destructor,
                ).quiet() ==> before.spares(domain@),
                before.collectors[c].empty() ==> domain@ == before,
            decreases
                    destructor.remaining() + domain@.collectors[c].previous.len()
                        + domain@.collectors[c].current.len() + domain@.collectors[c].next.len(),
                    valid as nat,
        {
            let ghost mid = domain@;
            let count: usize = domain.dropped.len();
            proof {
                mid.lemma_drop_bags(c, mid.rank(c));
                mid.lemma_clear_empty(c);
            }
            valid = Collector::clear_once(domain, thread);
            if valid {
                let ghost share = destructor.estate();
                let ghost destroyed = destructor.log();
                let ghost cleared = domain@;
                let payloads = domain.take_dropped_after(count);
                let ghost emptied = domain@;
                proof {
                    mid.lemma_respects_removal(cleared, c, mid.rank(c));
                    cleared.lemma_respects_words(emptied, c);
                    mid.lemma_respects_transitive(cleared, emptied, c, Set::empty());
                    mid.lemma_respects_more(emptied, c, estate);
                    before.lemma_respects_transitive(mid, emptied, c, estate);
                    assert(emptied.dropped =~= mid.dropped);
                    cleared.lemma_acts_alike(emptied, c);
                    before.lemma_spares_retired_transitive(mid, cleared);
                    before.lemma_spares_retired_transitive(cleared, emptied);
                    if old(destructor).quiet() {
                        before.lemma_spares_transitive(mid, cleared);
                        before.lemma_spares_transitive(cleared, emptied);
                    }
                }
                let failed = domain.hand_over(thread, payloads, destructor);
                proof {
                    cleared.lemma_acts_transitive(emptied, domain@, c);
                    emptied.lemma_spares_retired_acts(domain@, c);
                    before.lemma_spares_retired_transitive(emptied, domain@);
                    if before.chain.len() == 0 {
                        before.lemma_spares_unread(domain@);
                    }
                    before.lemma_respects_inherited(emptied, domain@, c, estate, share);
                    let more = states.push(domain@);
                    assert(more.drop_last() =~= states);
                    assert(Model::passes(more, c));
                    assert(Model::estates_of(more, c) == Model::estates_of(states, c) + payloads@);
                    assert(log + Model::estates_of(more, c) =~= destroyed + payloads@);
                    states = more;
                    if destructor.quiet() {
                        domain@.lemma_clear_empty(c);
                    }
                }
                if let Some(rest) = failed {
                    proof {
                        assert(before.cleared_in(
                            domain@,
                            states,
                            c,
                            log,
                            destructor.log() + rest@,
                        ));
                    }
                    return Err(rest);
                }
            }
        }
        proof {
            domain@.lemma_clear_empty(c);
        }
        Ok(())
    }
}

/// [`CollectorAnchor`] helps allocate and cleanup the thread-local [`Collector`].
pub struct CollectorAnchor;

impl CollectorAnchor {
    /// Allocates a new [`Collector`].
    pub fn allocate<T, F>(&self, domain: &mut Domain<T, F>) -> (collector_ptr: usize)
        requires
            old(domain).wf(),
            old(domain).room(),
        ensures
            final(domain).wf(),
            !old(domain)@.occupied(collector_ptr),
            collector_ptr != 0,
            collector_ptr % 4 == 0,
            final(domain)@ == old(domain)@.enlist(collector_ptr),
            old(domain)@.spares(final(domain)@),
    {
        Collector::allocate(domain)
    }

    /// Gives up the collector of a terminating thread, and puts a temporary one in its place: the
    /// first step of the cleanup.
    ///
    /// The temporary collector is not in the chain, and what is retired into it is dropped in the
    /// course of the cleanup, without waiting for other threads. It does not hold the epoch
    /// back, and so it is of no use for a guard.
    pub fn begin_exit<T, F>(domain: &mut Domain<T, F>, thread: usize) -> (temp_collector: usize)
        requires
            old(domain).wf(),
            old(domain).room(),
            old(domain)@.at_rest(thread as int),
            old(domain).local(thread) != 0 ==> old(domain)@.calm(old(domain).local(thread)),
        ensures
            final(domain).wf(),
            !old(domain)@.occupied(temp_collector),
            temp_collector != 0,
            temp_collector % 4 == 0,
            final(domain)@ == old(domain)@.begin_exit(thread as int, temp_collector),
            old(domain)@.retains(
                final(domain)@,
                old(domain)@.guards_of(old(domain)@.locals[thread as int]),
            ),
            forall|i: int| i != thread && #[trigger] old(domain)@.at_rest(i) ==> final(domain)@.at_rest(
                i,
            ),
    {
        let ghost before = domain@;
        let ghost gone = before.guards_of(before.locals[thread as int]);
        proof {
            if before.locals[thread as int] != 0 {
                before.lemma_honours_given_up(thread as int);
            } else {
                before.lemma_honours_words(before);
            }
        }
        let collector_ptr: usize = domain.locals[thread];
        if collector_ptr != 0 {
            domain.set_local(thread, 0);
            let ghost detached = domain@;
            proof {
                if detached.locals.contains(collector_ptr) {
                    let i = detached.locals.index_of(collector_ptr);
                    assert(before.locals[i] == collector_ptr);
                    if i < thread {
                        assert(before.locals[i] != before.locals[thread as int]);
                    } else {
                        assert(before.locals[thread as int] != before.locals[i]);
                    }
                }
            }
            Collector::invalidate(domain, collector_ptr);
        }
        let ghost given_up = *domain;
        let collector = Collector::new();
        let temp_collector: usize = domain.heap.place(Body::Collector(collector));
        domain.locals.set(thread, temp_collector);
        proof {
            let added = given_up@.add_temporary(temp_collector);
            assert(given_up.heap@.contains_key(temp_collector) == given_up@.occupied(
                temp_collector,
            ));
            given_up@.lemma_add_temporary(temp_collector);
            if added.locals.contains(temp_collector) {
                let i = added.locals.index_of(temp_collector);
                assert(given_up@.locals[i] == temp_collector);
                assert(given_up@.occupied(temp_collector));
            }
            added.lemma_set_local(thread as int, temp_collector);
            domain.model@ = added.set_local(thread as int, temp_collector);
            given_up.lemma_placed(*domain, temp_collector, Body::Collector(collector));
            reveal(domain::linked);
            given_up.lemma_chain_frame(*domain);
            assert forall|a: usize| #[trigger]
                domain.heap@.contains_key(a) == domain@.occupied(a) by {
                assert(given_up.heap@.contains_key(a) == given_up@.occupied(a));
            }
            assert(domain::collector_rep(
                domain.heap@,
                collector,
                domain@.collectors[temp_collector],
            ));
            assert(domain.collectors_rep()) by {
                assert forall|d: usize| #[trigger] domain@.collectors.contains_key(d) implies {
                    &&& domain.heap@.contains_key(d)
                    &&& domain.heap@[d] matches Body::Collector(other) && domain::collector_rep(
                        domain.heap@,
                        other,
                        domain@.collectors[d],
                    )
                } by {
                    if d != temp_collector {
                        assert(given_up@.collectors.contains_key(d));
                    }
                }
            }
            given_up@.lemma_honours_temporary(thread as int, temp_collector);
            given_up@.lemma_retains_more(domain@, gone);
            before.lemma_retains_transitive(given_up@, domain@, gone);
        }
        temp_collector
    }

    /// Drops the temporary collector, which keeps nothing any more: the last step of the cleanup.
    pub fn finish_exit<T, F>(domain: &mut Domain<T, F>, thread: usize)
        requires
            old(domain).wf(),
            thread < old(domain)@.locals.len(),
            old(domain).local(thread) != 0,
            !old(domain)@.registered(old(domain).local(thread)),
            old(domain)@.collectors[old(domain).local(thread)].empty(),
        ensures
            final(domain).wf(),
            final(domain)@ == old(domain)@.finish_exit(thread as int),
            final(domain)@.locals == old(domain)@.locals.update(thread as int, 0),
            final(domain)@.dropped == old(domain)@.dropped,
            !final(domain)@.occupied(old(domain).local(thread)),
            old(domain)@.honours(final(domain)@, Set::empty()),
    {
        let ghost before = domain@;
        let temp_collector: usize = domain.locals[thread];
        proof {
            before.lemma_clear_empty(temp_collector);
            assert(before.occupied(temp_collector));
        }
        domain.set_local(thread, 0);
        let ghost detached = *domain;
        let _ = domain.heap.take(temp_collector);
        proof {
            if detached@.locals.contains(temp_collector) {
                let i = detached@.locals.index_of(temp_collector);
                assert(before.locals[i] == temp_collector);
                if i < thread {
                    assert(before.locals[i] != before.locals[thread as int]);
                } else {
                    assert(before.locals[thread as int] != before.locals[i]);
                }
            }
            domain.model@ = detached@.remove_temporary(temp_collector);
            detached@.lemma_dismiss(temp_collector);
            detached.lemma_rep_remove(*domain, temp_collector);
            before.lemma_spares_transitive(detached@, domain@);
            before.lemma_honours_finish_exit(thread as int);
        }
    }

    /// Cleans up when a thread terminates.
    ///
    /// Guards that the thread has left behind become invalid. What has been reclaimed is destroyed,
    /// and so is all that destructors retire in the course of this.
    ///
    /// # Errors
    ///
    /// If a destructor fails, the thread cannot terminate; the rest of what is to be destroyed is
    /// given back.
    #[verifier::spinoff_prover]
    #[verifier::rlimit(60)]
    pub fn drop<T, F, D: Destructor<T, F>>(
        domain: &mut Domain<T, F>,
        thread: usize,
        destructor: &mut D,
    ) -> (result: Result<Ghost<usize>, Vec<Payload<T, F>>>)
        requires
            old(domain).wf(),
            old(domain).room(),
            old(domain)@.at_rest(thread as int),
            old(domain).local(thread) != 0 ==> old(domain)@.calm(old(domain).local(thread)),
        ensures
            final(domain).wf(),
            final(domain)@.dropped == old(domain)@.dropped,
            result is Ok == (final(destructor).failures() == old(destructor).failures()),
            final(destructor).failures() <= old(destructor).failures() + 1,
            result is Err ==> final(destructor).faulted(),
            result matches Ok(temp_collector) ==> {
                &&& !old(domain)@.occupied(temp_collector@)
                &&& temp_collector@ != 0
                &&& temp_collector@ % 4 == 0
                &&& old(domain)@.exited(
                    final(domain)@,
                    thread as int,
                    temp_collector@,
                    old(destructor).log(),
                    final(destructor).log(),
                )
                &&& final(domain)@.locals == old(domain)@.locals.update(thread as int, 0)
                &&& !final(domain)@.occupied(temp_collector@)
                &&& old(domain)@.settles(final(domain)@)
                &&& old(destructor).quiet() ==> old(domain)@.exit(
                    thread as int,
                    temp_collector@,
                ).alike(final(domain)@)
            },
            result matches Err(rest) ==> {
                &&& final(domain).attended(thread)
                &&& !old(domain)@.occupied(final(domain).local(thread))
                &&& !final(domain)@.registered(final(domain).local(thread))
                &&& old(domain)@.aborted(
                    final(domain)@,
                    thread as int,
                    old(destructor).log(),
                    final(destructor).log() + rest@,
                )
                &&& final(destructor).log().len() > old(destructor).log().len()
            },
            old(destructor).quiet() ==> result is Ok && final(destructor).quiet(),
            old(domain)@.retains(
                final(domain)@,
                old(domain)@.guards_of(old(domain).local(thread)).union(old(destructor).estate()),
            ),
            old(domain)@.inherits(old(destructor).estate(), final(destructor).estate()),
            final(domain)@.tokens + final(destructor).remaining() <= old(domain)@.tokens + old(
                destructor,
            ).remaining(),
    {
        let ghost before = domain@;
        let ghost log = destructor.log();
        let ghost estate = destructor.estate();
        let ghost guards = before.guards_of(before.locals[thread as int]);
        let ghost gone = guards.union(estate);
        let temp_collector: usize = CollectorAnchor::begin_exit(domain, thread);
        let ghost begun = domain@;
        proof {
            assert(!begun.registered(temp_collector)) by {
                if begun.registered(temp_collector) {
                    assert(before.registered(temp_collector));
                    assert(before.occupied(temp_collector));
                }
            }
            begun.lemma_swept(temp_collector);
            assert(before.keeps_handles(begun, gone));
        }
        let cleared = match Collector::clear_chain(domain, thread, destructor) {
            Ok(cleared) => cleared,
            Err(rest) => {
                proof {
                    before.lemma_keeps_handles(begun, domain@, temp_collector, gone, estate);
                    before.lemma_spares_transitive(begun, domain@);
                    assert(log + begun.clear_chain().dropped.skip(before.dropped.len() as int)
                        =~= destructor.log() + rest@);
                }
                return Err(rest);
            },
        };
        let ghost swept = domain@;
        proof {
            before.lemma_keeps_handles(begun, swept, temp_collector, gone, estate);
            begun.lemma_settles(swept, temp_collector, estate);
        }
        proof {
            swept.lemma_spares_self();
        }
        if !cleared {
            domain.mark();
            proof {
                swept.lemma_honours_mark();
            }
        }
        let ghost handed = domain@;
        let ghost share = destructor.estate();
        let ghost destroyed = destructor.log();
        proof {
            before.lemma_spares_transitive(begun, swept);
            before.lemma_spares_transitive(swept, handed);
            assert(log + begun.clear_chain().dropped.skip(before.dropped.len() as int)
                =~= destroyed);
            assert(handed.registered(temp_collector) == swept.registered(temp_collector));
        }
        match Collector::clear_for_drop(domain, thread, destructor) {
            Ok(()) => {},
            Err(rest) => {
                proof {
                    before.lemma_keeps_handles(handed, domain@, temp_collector, gone, share);
                    before.lemma_spares_transitive(handed, domain@);
                    assert(handed.cleared_out(
                        domain@,
                        temp_collector,
                        log + begun.clear_chain().dropped.skip(before.dropped.len() as int),
                        destructor.log() + rest@,
                    ));
                }
                return Err(rest);
            },
        }
        let ghost emptied = domain@;
        proof {
            before.lemma_keeps_handles(handed, emptied, temp_collector, gone, share);
            handed.lemma_settles(emptied, temp_collector, share);
            assert(emptied.registered(temp_collector) == handed.registered(temp_collector));
        }
        CollectorAnchor::finish_exit(domain, thread);
        proof {
            before.lemma_spares_transitive(handed, emptied);
            before.lemma_spares_transitive(emptied, domain@);
            assert(before.exited(domain@, thread as int, temp_collector, log, destructor.log()));
            assert forall|i: int| #[trigger] before.at_rest(i) implies domain@.at_rest(i) by {
                if i != thread {
                    assert(begun.at_rest(i));
                    assert(swept.at_rest(i));
                    assert(handed.at_rest(i));
                    assert(emptied.at_rest(i));
                }
            }
            if old(destructor).quiet() {
                before.lemma_exit_alike(thread as int, temp_collector, handed, emptied);
            }
        }
        Ok(Ghost(temp_collector))
    }
}

} // verus!
