//! Holds outgoing messages that name entities until the recipient is known to
//! have every one of those entities in scope.
//!
//! Pending messages live in an arena indexed by their handle; a free slot is
//! a free handle, and a new message takes the lowest one. The set of messages
//! waiting on an entity is the set of pending messages that name it, so a
//! reused handle carries no trace of the message it held before.
//!
//! A message that names no entity has nothing to wait for and is released as
//! soon as it is queued. Messages released by one `add_entity` call reach the
//! ready queue in increasing handle order.

use std::collections::HashSet;
use vstd::multiset::Multiset;
use vstd::prelude::*;

verus! {

broadcast use vstd::std_specs::hash::group_hash_axioms;

/// The abstract state of a waitlist.
pub struct WaitlistView<P> {
    /// Pending messages by handle: the entities each one waits on, and its
    /// payload. `None` marks a free handle.
    pub pending: Seq<Option<(Seq<u16>, P)>>,
    /// Entities the recipient is known to have in scope.
    pub scope: Set<u16>,
    /// Released payloads, in release order, not yet collected.
    pub ready: Seq<P>,
}

/// The lowest free handle at or after `i`; one past the last handle if every
/// one from `i` on is taken.
pub open spec fn first_free_from<P>(p: Seq<Option<(Seq<u16>, P)>>, i: int) -> int
    decreases p.len() - i,
{
    if i >= p.len() || i < 0 {
        p.len() as int
    } else if p[i] is None {
        i
    } else {
        first_free_from(p, i + 1)
    }
}

/// The handle a new message takes: the lowest free one.
pub open spec fn first_free<P>(p: Seq<Option<(Seq<u16>, P)>>) -> int {
    first_free_from(p, 0)
}

/// A pending message that is released when `entity` enters `scope`: it names
/// `entity` and every entity it names is in scope.
pub open spec fn releasable<P>(slot: Option<(Seq<u16>, P)>, scope: Set<u16>, entity: u16) -> bool {
    match slot {
        Some(x) => deps_met(x.0, scope, entity),
        None => false,
    }
}

/// `deps` names `entity` and every entity in `deps` is in `scope`.
pub open spec fn deps_met(deps: Seq<u16>, scope: Set<u16>, entity: u16) -> bool {
    deps.contains(entity) && forall|k: int| 0 <= k < deps.len() ==> scope.contains(#[trigger] deps[k])
}

fn deps_met_now(deps: &Vec<u16>, scope: &HashSet<u16>, entity: u16) -> (r: bool)
    ensures
        r == deps_met(deps@, scope@, entity),
{
    let mut names = false;
    let mut i: usize = 0;
    while i < deps.len()
        invariant
            i <= deps@.len(),
            names == exists|k: int| 0 <= k < i && deps@[k] == entity,
            forall|k: int| 0 <= k < i ==> scope@.contains(#[trigger] deps@[k]),
        decreases deps@.len() - i,
    {
        if !scope.contains(&deps[i]) {
            return false;
        }
        if deps[i] == entity {
            names = true;
        }
        i = i + 1;
    }
    names
}

/// The payloads released when `entity` enters `scope`, in handle order.
pub open spec fn released<P>(p: Seq<Option<(Seq<u16>, P)>>, scope: Set<u16>, entity: u16) -> Seq<P>
    decreases p.len(),
{
    if p.len() == 0 {
        Seq::empty()
    } else {
        let rest = released(p.drop_last(), scope, entity);
        if releasable(p.last(), scope, entity) {
            rest.push(p.last().unwrap().1)
        } else {
            rest
        }
    }
}

/// The pending messages left once those released by `entity` are gone.
pub open spec fn left_pending<P>(p: Seq<Option<(Seq<u16>, P)>>, scope: Set<u16>, entity: u16) -> Seq<
    Option<(Seq<u16>, P)>,
> {
    Seq::new(p.len(), |i: int| if releasable(p[i], scope, entity) { None } else { p[i] })
}

/// The payloads of all pending messages.
pub open spec fn pending_payloads<P>(p: Seq<Option<(Seq<u16>, P)>>) -> Multiset<P>
    decreases p.len(),
{
    if p.len() == 0 {
        Multiset::empty()
    } else {
        let rest = pending_payloads(p.drop_last());
        match p.last() {
            Some(x) => rest.insert(x.1),
            None => rest,
        }
    }
}

/// Every message the waitlist holds, pending or ready.
pub open spec fn held<P>(v: WaitlistView<P>) -> Multiset<P> {
    v.ready.to_multiset().add(pending_payloads(v.pending))
}

/// The handles of the pending messages that wait on `entity`.
pub open spec fn waiting_on<P>(v: WaitlistView<P>, entity: u16) -> Set<int> {
    Set::new(
        |h: int|
            0 <= h < v.pending.len() && (v.pending[h] matches Some(x) && x.0.contains(entity)),
    )
}

/// State after queueing `message`, which waits on `entities`.
pub open spec fn queue_model<P>(v: WaitlistView<P>, entities: Seq<u16>, message: P) -> WaitlistView<
    P,
> {
    if entities.len() == 0 {
        WaitlistView { ready: v.ready.push(message), ..v }
    } else {
        let h = first_free(v.pending);
        let pending = if h < v.pending.len() {
            v.pending.update(h, Some((entities, message)))
        } else {
            v.pending.push(Some((entities, message)))
        };
        WaitlistView { pending, ..v }
    }
}

/// State after `entity` enters scope.
pub open spec fn add_model<P>(v: WaitlistView<P>, entity: u16) -> WaitlistView<P> {
    let scope = v.scope.insert(entity);
    WaitlistView {
        pending: left_pending(v.pending, scope, entity),
        scope,
        ready: v.ready + released(v.pending, scope, entity),
    }
}

/// State after `entity` leaves scope.
pub open spec fn remove_model<P>(v: WaitlistView<P>, entity: u16) -> WaitlistView<P> {
    WaitlistView { scope: v.scope.remove(entity), ..v }
}

proof fn lemma_first_free_from<P>(p: Seq<Option<(Seq<u16>, P)>>, i: int)
    requires
        0 <= i <= p.len(),
    ensures
        i <= first_free_from(p, i) <= p.len(),
        first_free_from(p, i) < p.len() ==> p[first_free_from(p, i)] is None,
        forall|j: int| i <= j < first_free_from(p, i) ==> p[j] is Some,
    decreases p.len() - i,
{
    if i < p.len() && p[i] is Some {
        lemma_first_free_from(p, i + 1);
    }
}

proof fn lemma_released_contains<P>(p: Seq<Option<(Seq<u16>, P)>>, scope: Set<u16>, entity: u16, h: int)
    requires
        0 <= h < p.len(),
        releasable(p[h], scope, entity),
    ensures
        released(p, scope, entity).contains(p[h].unwrap().1),
    decreases p.len(),
{
    let q = p.drop_last();
    let r = released(q, scope, entity);
    if h == p.len() - 1 {
        assert(released(p, scope, entity) == r.push(p[h].unwrap().1));
        assert(r.push(p[h].unwrap().1)[r.len() as int] == p[h].unwrap().1);
    } else {
        assert(q[h] == p[h]);
        lemma_released_contains(q, scope, entity, h);
        let k = choose|k: int| 0 <= k < r.len() && r[k] == p[h].unwrap().1;
        if releasable(p.last(), scope, entity) {
            assert(r.push(p.last().unwrap().1)[k] == p[h].unwrap().1);
        }
    }
}

proof fn lemma_release_conserves<P>(p: Seq<Option<(Seq<u16>, P)>>, scope: Set<u16>, entity: u16)
    ensures
        released(p, scope, entity).to_multiset().add(pending_payloads(left_pending(p, scope, entity)))
            == pending_payloads(p),
    decreases p.len(),
{
    broadcast use vstd::seq_lib::group_to_multiset_ensures;

    if p.len() == 0 {
        assert(released(p, scope, entity).to_multiset() =~= Multiset::empty());
        assert(pending_payloads(left_pending(p, scope, entity)) =~= Multiset::empty());
    } else {
        let q = p.drop_last();
        lemma_release_conserves(q, scope, entity);
        let l = left_pending(p, scope, entity);
        assert(l.drop_last() =~= left_pending(q, scope, entity));
        let r = released(q, scope, entity);
        let lq = pending_payloads(left_pending(q, scope, entity));
        if releasable(p.last(), scope, entity) {
            let x = p.last().unwrap().1;
            assert(r.push(x).to_multiset() =~= r.to_multiset().insert(x));
            assert(r.to_multiset().insert(x).add(lq) =~= r.to_multiset().add(lq).insert(x));
        } else {
            match p.last() {
                Some(y) => {
                    assert(r.to_multiset().add(lq.insert(y.1)) =~= r.to_multiset().add(lq).insert(
                        y.1,
                    ));
                },
                None => {},
            }
        }
    }
}

/// A message waiting on two entities is not released when only one of them
/// enters scope, and is released, once, when the second one does.
pub proof fn lemma_dependency_gating<P>(v: WaitlistView<P>, a: u16, b: u16, message: P)
    requires
        a != b,
        !v.scope.contains(b),
    ensures
        ({
            let h = first_free(v.pending);
            let v1 = queue_model(v, seq![a, b], message);
            let v2 = add_model(v1, a);
            let v3 = add_model(v2, b);
            &&& 0 <= h < v1.pending.len()
            &&& v1.pending[h] == Some((seq![a, b], message))
            &&& v2.pending[h] == v1.pending[h]
            &&& v3.pending[h] is None
            &&& released(v2.pending, v2.scope.insert(b), b).contains(message)
            &&& v3.ready == v2.ready + released(v2.pending, v2.scope.insert(b), b)
        }),
{
    let h = first_free(v.pending);
    lemma_first_free_from(v.pending, 0);
    let deps = seq![a, b];
    let v1 = queue_model(v, deps, message);
    let v2 = add_model(v1, a);
    assert(deps[1] == b);
    assert(!v1.scope.insert(a).contains(deps[1]));
    assert(!releasable(v1.pending[h], v1.scope.insert(a), a));
    assert(deps[0] == a);
    assert(deps.contains(b));
    assert(releasable(v2.pending[h], v2.scope.insert(b), b));
    lemma_released_contains(v2.pending, v2.scope.insert(b), b, h);
}

/// No message is released twice: adding or removing an entity never changes
/// the messages held (pending or ready) as a whole, since a released message
/// leaves the pending ones as it joins the ready queue; collecting moves the
/// ready queue to the output, so the output plus what is held stays the same.
pub proof fn lemma_release_at_most_once<P>(v: WaitlistView<P>, entity: u16, out: Seq<P>)
    ensures
        held(add_model(v, entity)) == held(v),
        held(remove_model(v, entity)) == held(v),
        (out + v.ready).to_multiset().add(pending_payloads(v.pending)) == out.to_multiset().add(
            held(v),
        ),
{
    broadcast use vstd::seq_lib::lemma_multiset_commutative;

    let scope = v.scope.insert(entity);
    let r = released(v.pending, scope, entity);
    lemma_release_conserves(v.pending, scope, entity);
    let lp = pending_payloads(left_pending(v.pending, scope, entity));
    assert(v.ready.to_multiset().add(r.to_multiset()).add(lp) =~= v.ready.to_multiset().add(
        r.to_multiset().add(lp),
    ));
    assert(out.to_multiset().add(v.ready.to_multiset()).add(pending_payloads(v.pending))
        =~= out.to_multiset().add(held(v)));
}

/// Whether a pending message is released depends on its own entities alone.
/// A message sharing no entity with one that names `entity` stays pending
/// when that one is released, and a message naming every entity of another
/// plus one still out of scope stays pending whatever happens to the other.
pub proof fn lemma_independent_release<P>(v: WaitlistView<P>, entity: u16, h1: int, h2: int)
    requires
        0 <= h1 < v.pending.len(),
        0 <= h2 < v.pending.len(),
        v.pending[h1] is Some,
        v.pending[h2] is Some,
    ensures
        forall|h: int|
            0 <= h < v.pending.len() ==> #[trigger] add_model(v, entity).pending[h] == if releasable(
                v.pending[h],
                v.scope.insert(entity),
                entity,
            ) {
                None
            } else {
                v.pending[h]
            },
        ({
            let d1 = v.pending[h1].unwrap().0;
            let d2 = v.pending[h2].unwrap().0;
            d1.contains(entity) && (forall|x: u16| d1.contains(x) ==> !d2.contains(x))
                ==> add_model(v, entity).pending[h2] == v.pending[h2]
        }),
        ({
            let d1 = v.pending[h1].unwrap().0;
            let d2 = v.pending[h2].unwrap().0;
            (forall|x: u16| d1.contains(x) ==> d2.contains(x)) && (exists|x: u16|
                d2.contains(x) && x != entity && !v.scope.contains(x))
                ==> add_model(v, entity).pending[h2] == v.pending[h2]
        }),
{
    let d2 = v.pending[h2].unwrap().0;
    let scope = v.scope.insert(entity);
    if exists|x: u16| d2.contains(x) && x != entity && !v.scope.contains(x) {
        let x = choose|x: u16| d2.contains(x) && x != entity && !v.scope.contains(x);
        let k = choose|k: int| 0 <= k < d2.len() && d2[k] == x;
        assert(!scope.contains(d2[k]));
    }
}

proof fn lemma_fill_free_slot<P>(p: Seq<Option<(Seq<u16>, P)>>, h: int, x: (Seq<u16>, P))
    requires
        0 <= h < p.len(),
        p[h] is None,
    ensures
        pending_payloads(p.update(h, Some(x))) == pending_payloads(p).insert(x.1),
    decreases p.len(),
{
    let q = p.update(h, Some(x));
    if h == p.len() - 1 {
        assert(q.drop_last() =~= p.drop_last());
    } else {
        lemma_fill_free_slot(p.drop_last(), h, x);
        assert(q.drop_last() =~= p.drop_last().update(h, Some(x)));
        match p.last() {
            Some(y) => {
                assert(pending_payloads(p.drop_last()).insert(x.1).insert(y.1) =~= pending_payloads(
                    p.drop_last(),
                ).insert(y.1).insert(x.1));
            },
            None => {},
        }
    }
}

/// Queueing adds exactly the queued message to what the waitlist holds.
pub proof fn lemma_queue_adds_one<P>(v: WaitlistView<P>, entities: Seq<u16>, message: P)
    ensures
        held(queue_model(v, entities, message)) == held(v).insert(message),
{
    broadcast use vstd::seq_lib::group_to_multiset_ensures;

    if entities.len() == 0 {
        assert(v.ready.push(message).to_multiset() =~= v.ready.to_multiset().insert(message));
        assert(held(queue_model(v, entities, message)) =~= held(v).insert(message));
    } else {
        let h = first_free(v.pending);
        lemma_first_free_from(v.pending, 0);
        if h < v.pending.len() {
            lemma_fill_free_slot(v.pending, h, (entities, message));
        } else {
            assert(v.pending.push(Some((entities, message))).drop_last() =~= v.pending);
        }
        assert(held(queue_model(v, entities, message)) =~= held(v).insert(message));
    }
}

/// One call on a waitlist, as the abstract state sees it.
pub enum WaitlistOp<P> {
    Queue(Seq<u16>, P),
    Add(u16),
    Remove(u16),
    Collect,
}

/// The state after one call, and what the call handed to the outgoing queue.
pub open spec fn step<P>(v: WaitlistView<P>, op: WaitlistOp<P>) -> (WaitlistView<P>, Seq<P>) {
    match op {
        WaitlistOp::Queue(entities, message) => (queue_model(v, entities, message), Seq::empty()),
        WaitlistOp::Add(e) => (add_model(v, e), Seq::empty()),
        WaitlistOp::Remove(e) => (remove_model(v, e), Seq::empty()),
        WaitlistOp::Collect => (WaitlistView { ready: Seq::empty(), ..v }, v.ready),
    }
}

/// The state after a sequence of calls, and everything they handed to the
/// outgoing queue, in order.
pub open spec fn run<P>(v: WaitlistView<P>, ops: Seq<WaitlistOp<P>>) -> (WaitlistView<P>, Seq<P>)
    decreases ops.len(),
{
    if ops.len() == 0 {
        (v, Seq::empty())
    } else {
        let before = run(v, ops.drop_last());
        let last = step(before.0, ops.last());
        (last.0, before.1 + last.1)
    }
}

/// The messages a sequence of calls queues.
pub open spec fn queued<P>(ops: Seq<WaitlistOp<P>>) -> Multiset<P>
    decreases ops.len(),
{
    if ops.len() == 0 {
        Multiset::empty()
    } else {
        match ops.last() {
            WaitlistOp::Queue(_, message) => queued(ops.drop_last()).insert(message),
            _ => queued(ops.drop_last()),
        }
    }
}

/// Over any sequence of calls, what has been handed out plus what is still
/// held is what was held at the start plus what was queued. So a message
/// queued once, and not held before, is handed out at most once.
pub proof fn lemma_release_at_most_once_over_run<P>(v: WaitlistView<P>, ops: Seq<WaitlistOp<P>>, message: P)
    ensures
        run(v, ops).1.to_multiset().add(held(run(v, ops).0)) == held(v).add(queued(ops)),
        held(v).count(message) == 0 && queued(ops).count(message) <= 1 ==> run(
            v,
            ops,
        ).1.to_multiset().count(message) <= 1,
    decreases ops.len(),
{
    broadcast use vstd::seq_lib::lemma_multiset_commutative;
    broadcast use vstd::seq_lib::group_to_multiset_ensures;
    broadcast use vstd::multiset::lemma_multiset_empty_len;

    if ops.len() == 0 {
        assert(Seq::<P>::empty().to_multiset() =~= Multiset::empty());
        assert(Multiset::<P>::empty().add(held(v)) =~= held(v).add(Multiset::empty()));
    } else {
        lemma_release_at_most_once_over_run(v, ops.drop_last(), message);
        let before = run(v, ops.drop_last());
        let out0 = before.1.to_multiset();
        let q0 = queued(ops.drop_last());
        match ops.last() {
            WaitlistOp::Queue(entities, m) => {
                lemma_queue_adds_one(before.0, entities, m);
                assert(before.1 + Seq::<P>::empty() =~= before.1);
                assert(out0.add(held(before.0)) == held(v).add(q0));
                assert forall|x: P| #[trigger] out0.add(held(before.0).insert(m)).count(x) == held(
                    v,
                ).add(q0.insert(m)).count(x) by {
                    assert(out0.add(held(before.0)).count(x) == held(v).add(q0).count(x));
                }
                assert(out0.add(held(before.0).insert(m)) =~= held(v).add(q0.insert(m)));
            },
            WaitlistOp::Add(e) => {
                lemma_release_at_most_once(before.0, e, Seq::empty());
                assert(before.1 + Seq::<P>::empty() =~= before.1);
            },
            WaitlistOp::Remove(e) => {
                assert(before.1 + Seq::<P>::empty() =~= before.1);
            },
            WaitlistOp::Collect => {
                let w = before.0;
                assert(Seq::<P>::empty().to_multiset() =~= Multiset::empty());
                assert(out0.add(w.ready.to_multiset()).add(
                    Multiset::<P>::empty().add(pending_payloads(w.pending)),
                ) =~= out0.add(held(w)));
            },
        }
    }
    let total = run(v, ops).1.to_multiset().add(held(run(v, ops).0));
    assert(total.count(message) >= run(v, ops).1.to_multiset().count(message));
}

/// Taking an entity out of scope changes neither the ready queue nor the
/// pending messages: what was released stays released.
pub proof fn lemma_scope_removal_non_retroactive<P>(v: WaitlistView<P>, entity: u16)
    ensures
        remove_model(v, entity).ready == v.ready,
        remove_model(v, entity).pending == v.pending,
        !remove_model(v, entity).scope.contains(entity),
{
}

/// A new message takes the lowest free handle, which may be one a released
/// message held, and is then waiting on exactly its own entities; every
/// other handle waits on what it waited on before.
pub proof fn lemma_handle_reuse<P>(v: WaitlistView<P>, entities: Seq<u16>, message: P)
    requires
        entities.len() > 0,
    ensures
        ({
            let h = first_free(v.pending);
            let v1 = queue_model(v, entities, message);
            &&& 0 <= h <= v.pending.len()
            &&& h < v.pending.len() ==> v.pending[h] is None
            &&& forall|j: int| 0 <= j < h ==> v.pending[j] is Some
            &&& v1.pending[h] == Some((entities, message))
            &&& forall|x: u16| #[trigger] waiting_on(v1, x).contains(h) <==> entities.contains(x)
            &&& forall|x: u16, j: int|
                j != h ==> (#[trigger] waiting_on(v1, x).contains(j) <==> waiting_on(v, x).contains(j))
        }),
{
    lemma_first_free_from(v.pending, 0);
}

/// Defers outgoing messages that name entities until every entity they name
/// is in the recipient's scope.
pub struct EntityMessageWaitlist<P> {
    messages: Vec<Option<(Vec<u16>, P)>>,
    in_scope_entities: HashSet<u16>,
    ready_messages: Vec<P>,
}

/// A handle's slot with its entity list seen as a sequence.
pub open spec fn slot_view<P>(o: Option<(Vec<u16>, P)>) -> Option<(Seq<u16>, P)> {
    match o {
        Some(x) => Some((x.0@, x.1)),
        None => None,
    }
}

impl<P> EntityMessageWaitlist<P> {
    /// The pending messages by handle, the scope and the ready queue.
    pub closed spec fn view(&self) -> WaitlistView<P> {
        WaitlistView {
            pending: self.messages@.map_values(|o: Option<(Vec<u16>, P)>| slot_view(o)),
            scope: self.in_scope_entities@,
            ready: self.ready_messages@,
        }
    }

    /// Creates an empty waitlist: nothing pending, nothing in scope.
    pub fn new() -> (r: Self)
        ensures
            r@.pending == Seq::<Option<(Seq<u16>, P)>>::empty(),
            r@.scope == Set::<u16>::empty(),
            r@.ready == Seq::<P>::empty(),
    {
        let r = EntityMessageWaitlist {
            messages: Vec::new(),
            in_scope_entities: HashSet::new(),
            ready_messages: Vec::new(),
        };
        assert(r@.pending =~= Seq::<Option<(Seq<u16>, P)>>::empty());
        r
    }

    /// Queues `message` until every entity in `entities` is in scope. It
    /// takes the lowest free handle; with no entity to wait on it is ready
    /// at once.
    pub fn queue_message(&mut self, entities: Vec<u16>, message: P)
        ensures
            final(self)@ == queue_model(old(self)@, entities@, message),
    {
        if entities.len() == 0 {
            self.ready_messages.push(message);
            assert(self@ =~= queue_model(old(self)@, entities@, message));
            return;
        }
        let ghost p = self@.pending;
        let mut h: usize = 0;
        while h < self.messages.len()
            invariant
                self@ == old(self)@,
                p == self@.pending,
                self.messages@.len() == p.len(),
                h <= p.len(),
                first_free_from(p, h as int) == first_free(p),
            ensures
                h == first_free(p),
            decreases p.len() - h,
        {
            assert(p[h as int] == slot_view(self.messages@[h as int]));
            if self.messages[h].is_none() {
                assert(p[h as int] is None);
                break;
            }
            assert(p[h as int] is Some);
            h = h + 1;
        }
        let ghost slot = Some((entities@, message));
        let entry = Some((entities, message));
        if h < self.messages.len() {
            self.messages.remove(h);
            self.messages.insert(h, entry);
            assert(self@.pending =~= p.update(h as int, slot));
        } else {
            self.messages.push(entry);
            assert(self@.pending =~= p.push(slot));
        }
        assert(self@ =~= queue_model(old(self)@, entities@, message));
    }

    /// Puts `entity` in scope, then releases every pending message that
    /// names it and now has all its entities in scope.
    pub fn add_entity(&mut self, entity: &u16)
        ensures
            final(self)@ == add_model(old(self)@, *entity),
    {
        let e = *entity;
        self.in_scope_entities.insert(e);
        let ghost scope = self.in_scope_entities@;
        let ghost p0 = self@.pending;
        let mut i: usize = 0;
        assert(p0.take(0) =~= Seq::<Option<(Seq<u16>, P)>>::empty());
        while i < self.messages.len()
            invariant
                self.messages@.len() == p0.len(),
                i <= p0.len(),
                scope == old(self)@.scope.insert(e),
                self.in_scope_entities@ == scope,
                forall|j: int| 0 <= j < i ==> self@.pending[j] == left_pending(p0, scope, e)[j],
                forall|j: int| i <= j < p0.len() ==> self@.pending[j] == p0[j],
                self.ready_messages@ == old(self)@.ready + released(p0.take(i as int), scope, e),
            decreases p0.len() - i,
        {
            let go = match &self.messages[i] {
                Some(x) => deps_met_now(&x.0, &self.in_scope_entities, e),
                None => false,
            };
            let ghost before = self@;
            assert(p0.take(i + 1).drop_last() =~= p0.take(i as int));
            assert(p0.take(i + 1).last() == p0[i as int]);
            if go {
                let slot = self.messages.remove(i);
                self.messages.insert(i, None);
                let (_, m) = slot.unwrap();
                self.ready_messages.push(m);
                assert(self@.pending =~= before.pending.update(i as int, None));
            }
            assert(self.ready_messages@ =~= old(self)@.ready + released(p0.take(i + 1), scope, e));
            i = i + 1;
        }
        assert(p0.take(p0.len() as int) =~= p0);
        assert(self@.pending =~= left_pending(p0, scope, e));
        assert(self@ =~= add_model(old(self)@, e));
    }

    /// Takes `entity` out of scope. Messages already released stay released
    /// and pending ones stay pending.
    pub fn remove_entity(&mut self, entity: &u16)
        ensures
            final(self)@ == remove_model(old(self)@, *entity),
    {
        self.in_scope_entities.remove(entity);
        assert(self@ =~= remove_model(old(self)@, *entity));
    }

    /// Hands the released messages, in release order, to the outgoing queue
    /// and empties the ready queue.
    pub fn collect_ready_messages(&mut self, outgoing: &mut Vec<P>)
        ensures
            final(outgoing)@ == old(outgoing)@ + old(self)@.ready,
            final(self)@ == (WaitlistView { ready: Seq::empty(), ..old(self)@ }),
    {
        outgoing.append(&mut self.ready_messages);
        assert(self@ =~= (WaitlistView { ready: Seq::empty(), ..old(self)@ }));
    }
}

} // verus!
