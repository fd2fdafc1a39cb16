//! Buffers incoming commands by the tick at which the client produced them.
//!
//! The buffer keeps one queue per tick in a ring of `COMMAND_BUFFER_MAX_SIZE`
//! slots addressed by `tick % COMMAND_BUFFER_MAX_SIZE`. Each slot remembers
//! which tick it holds, so a tick whose slot was taken over by a later tick
//! reads as absent. Inserting into a slot that holds another tick discards
//! that tick's queue, undrained commands included.

use std::collections::VecDeque;
use vstd::prelude::*;

verus! {

/// Number of ticks of history the buffer keeps.
pub const COMMAND_BUFFER_MAX_SIZE: usize = 64;

/// The ring slot a tick is stored in.
pub open spec fn slot_of(tick: u16) -> int {
    tick as int % COMMAND_BUFFER_MAX_SIZE as int
}

/// The queue buffered for `tick`, or the empty queue if there is none.
pub open spec fn queue_at<C>(m: Map<u16, Seq<C>>, tick: u16) -> Seq<C> {
    if m.contains_key(tick) {
        m[tick]
    } else {
        Seq::empty()
    }
}

/// The buffer with every tick that shares `tick`'s slot, other than `tick`
/// itself, dropped.
pub open spec fn evict_for<C>(m: Map<u16, Seq<C>>, tick: u16) -> Map<u16, Seq<C>> {
    m.restrict(m.dom().filter(|t: u16| t == tick || slot_of(t) != slot_of(tick)))
}

/// The buffer after `cmds` were appended, in order, to the queue of `tick`.
/// Nothing changes when there is nothing to append; otherwise the queue of
/// `tick` is created if needed, taking over its slot.
pub open spec fn append_commands<C>(m: Map<u16, Seq<C>>, tick: u16, cmds: Seq<C>) -> Map<
    u16,
    Seq<C>,
> {
    if cmds.len() == 0 {
        m
    } else {
        evict_for(m, tick).insert(tick, queue_at(m, tick) + cmds)
    }
}

/// The commands that the type registry managed to reconstruct, in order:
/// records whose reconstruction failed (`None`) are dropped.
pub open spec fn reconstructed<T>(s: Seq<(u16, Option<T>)>) -> Seq<(u16, T)>
    decreases s.len(),
{
    if s.len() == 0 {
        Seq::empty()
    } else {
        let rest = reconstructed(s.drop_last());
        match s.last().1 {
            Some(c) => rest.push((s.last().0, c)),
            None => rest,
        }
    }
}

/// At most one tick per slot: every state of a receiver has this shape.
pub open spec fn one_tick_per_slot<C>(m: Map<u16, Seq<C>>) -> bool {
    forall|a: u16, b: u16|
        m.contains_key(a) && m.contains_key(b) && slot_of(a) == slot_of(b) ==> a == b
}

/// One pop at `tick`: the head of its queue and the buffer without it, or
/// nothing and the buffer unchanged when the queue is absent or drained.
pub open spec fn pop_model<C>(m: Map<u16, Seq<C>>, tick: u16) -> (Option<C>, Map<u16, Seq<C>>) {
    if m.contains_key(tick) && m[tick].len() > 0 {
        (Some(m[tick][0]), m.insert(tick, m[tick].drop_first()))
    } else {
        (None, m)
    }
}

/// What `k` pops in a row at `tick` return, in order, and the buffer after.
pub open spec fn pops<C>(m: Map<u16, Seq<C>>, tick: u16, k: nat) -> (Seq<Option<C>>, Map<u16, Seq<C>>)
    decreases k,
{
    if k == 0 {
        (Seq::empty(), m)
    } else {
        let prev = pops(m, tick, (k - 1) as nat);
        let next = pop_model(prev.1, tick);
        (prev.0.push(next.0), next.1)
    }
}

/// Pops at a tick return its queue in order, one command per pop, and then
/// nothing: the `j`-th of `k` pops returns the `j`-th queued command while
/// any is left, and `None` after the queue has run out. The buffer keeps
/// the rest of the queue, and every other tick as it was.
pub proof fn lemma_pops_in_order<C>(m: Map<u16, Seq<C>>, tick: u16, k: nat)
    ensures
        ({
            let q = queue_at(m, tick);
            let r = pops(m, tick, k);
            &&& r.0.len() == k
            &&& forall|j: int|
                0 <= j < k ==> #[trigger] r.0[j] == if j < q.len() {
                    Some(q[j])
                } else {
                    None::<C>
                }
            &&& r.1.dom() == m.dom()
            &&& queue_at(r.1, tick) == q.subrange(if k < q.len() { k as int } else { q.len() as int }, q.len() as int)
            &&& forall|t: u16| t != tick && #[trigger] m.contains_key(t) ==> r.1[t] == m[t]
        }),
    decreases k,
{
    let q = queue_at(m, tick);
    if k == 0 {
        assert(q.subrange(0, q.len() as int) =~= q);
        assert(pops(m, tick, 0).1 == m);
    } else {
        lemma_pops_in_order(m, tick, (k - 1) as nat);
        let prev = pops(m, tick, (k - 1) as nat);
        let lo = if k - 1 < q.len() { (k - 1) as int } else { q.len() as int };
        let rest = q.subrange(lo, q.len() as int);
        assert(queue_at(prev.1, tick) == rest);
        if lo < q.len() {
            assert(prev.1.contains_key(tick));
            assert(rest[0] == q[k - 1]);
            assert(rest.drop_first() =~= q.subrange(lo + 1, q.len() as int));
            assert(pop_model(prev.1, tick).1.dom() =~= m.dom());
        }
        let r = pops(m, tick, k);
        assert forall|j: int| 0 <= j < k implies #[trigger] r.0[j] == if j < q.len() {
            Some(q[j])
        } else {
            None::<C>
        } by {
            if j < k - 1 {
                assert(r.0[j] == prev.0[j]);
            }
        }
    }
}

/// A tick that no batch has filled reads as absent: appending at another
/// tick never adds it, and a pop there returns nothing and changes nothing.
pub proof fn lemma_unfilled_tick_absent<C>(m: Map<u16, Seq<C>>, tick: u16, other: u16, cmds: Seq<C>)
    requires
        !m.contains_key(tick),
        other != tick,
    ensures
        !append_commands(m, other, cmds).contains_key(tick),
        pop_model(m, tick) == (None::<C>, m),
        pop_model(m, other).1.dom() == m.dom(),
{
    assert(pop_model(m, other).1.dom() =~= m.dom());
}

/// The tick `d` steps after `tick`, wrapping around at the end of the
/// 16-bit range.
pub open spec fn tick_after(tick: u16, d: int) -> u16 {
    ((tick as int + d) % 65536) as u16
}

/// Commands of one tick come out in the order they went in, whatever
/// batches carried them: appending `a` and then `b` to the queue of `tick`
/// leaves the earlier commands first, then `a`, then `b`.
pub proof fn lemma_fifo_across_batches<C>(m: Map<u16, Seq<C>>, tick: u16, a: Seq<C>, b: Seq<C>)
    ensures
        queue_at(append_commands(append_commands(m, tick, a), tick, b), tick) == queue_at(m, tick)
            + a + b,
{
    if a.len() == 0 {
        assert(queue_at(m, tick) + a =~= queue_at(m, tick));
    }
    if b.len() == 0 {
        assert(queue_at(m, tick) + a + b =~= queue_at(m, tick) + a);
    }
    if a.len() == 0 && b.len() > 0 {
        assert(queue_at(m, tick) + b =~= queue_at(m, tick) + a + b);
    }
}

/// History is bounded: commands appended `COMMAND_BUFFER_MAX_SIZE` ticks
/// after `tick` take over its slot, and the commands still buffered for
/// `tick` are gone, the later tick holds exactly the new commands, and each
/// of the ticks in between keeps what it had.
pub proof fn lemma_bounded_history<C>(m: Map<u16, Seq<C>>, tick: u16, cmds: Seq<C>)
    requires
        cmds.len() > 0,
        one_tick_per_slot(m),
    ensures
        !append_commands(m, tick_after(tick, 64), cmds).contains_key(tick),
        m.contains_key(tick) ==> append_commands(m, tick_after(tick, 64), cmds)[tick_after(tick, 64)]
            == cmds,
        forall|d: int|
            1 <= d < 64 ==> {
                let m2 = append_commands(m, tick_after(tick, 64), cmds);
                &&& m2.contains_key(#[trigger] tick_after(tick, d)) == m.contains_key(
                    tick_after(tick, d),
                )
                &&& m.contains_key(tick_after(tick, d)) ==> m2[tick_after(tick, d)] == m[tick_after(
                    tick,
                    d,
                )]
            },
{
    let later = tick_after(tick, 64);
    assert(slot_of(later) == slot_of(tick) && later != tick) by (nonlinear_arith)
        requires
            later == ((tick as int + 64) % 65536) as u16,
            0 <= tick < 65536,
    {
    }
    if m.contains_key(tick) {
        assert(!m.contains_key(later));
        assert(queue_at(m, later) + cmds =~= cmds);
    }
    assert forall|d: int| 1 <= d < 64 implies #[trigger] tick_after(tick, d) != later && slot_of(
        tick_after(tick, d),
    ) != slot_of(later) by {
        assert(slot_of(tick_after(tick, d)) != slot_of(later) && tick_after(tick, d) != later)
            by (nonlinear_arith)
            requires
                later == ((tick as int + 64) % 65536) as u16,
                0 <= tick < 65536,
                1 <= d < 64,
        {
        }
    }
}

/// Handles incoming commands, buffering them to be received on the correct
/// tick. A command is the entity reference it targets and its value.
pub struct CommandReceiver<T> {
    slots: Vec<Option<(u16, VecDeque<(u16, T)>)>>,
}

impl<T> CommandReceiver<T> {
    /// The ring has its full size and each slot holds a tick that maps to it.
    pub closed spec fn wf(&self) -> bool {
        &&& self.slots@.len() == COMMAND_BUFFER_MAX_SIZE
        &&& forall|i: int|
            0 <= i < COMMAND_BUFFER_MAX_SIZE ==> (#[trigger] self.slots@[i] matches Some(p) ==> slot_of(p.0) == i)
    }

    /// The buffered queues, by tick.
    pub closed spec fn view(&self) -> Map<u16, Seq<(u16, T)>> {
        Map::new(
            |t: u16| self.slots@[slot_of(t)] matches Some(p) && p.0 == t,
            |t: u16| self.slots@[slot_of(t)].unwrap().1@,
        )
    }

    /// A well-formed receiver buffers at most one tick per slot.
    pub proof fn lemma_one_tick_per_slot(&self)
        requires
            self.wf(),
        ensures
            one_tick_per_slot(self@),
    {
    }

    /// Creates an empty receiver.
    pub fn new() -> (r: Self)
        ensures
            r.wf(),
            one_tick_per_slot(r@),
            r@ == Map::<u16, Seq<(u16, T)>>::empty(),
    {
        let mut slots: Vec<Option<(u16, VecDeque<(u16, T)>)>> = Vec::new();
        let mut i: usize = 0;
        while i < COMMAND_BUFFER_MAX_SIZE
            invariant
                i <= COMMAND_BUFFER_MAX_SIZE,
                slots@.len() == i,
                forall|j: int| 0 <= j < i ==> slots@[j] is None,
            decreases COMMAND_BUFFER_MAX_SIZE - i,
        {
            slots.push(None);
            i = i + 1;
        }
        let r = CommandReceiver { slots };
        assert(r@ =~= Map::<u16, Seq<(u16, T)>>::empty());
        r
    }

    /// Removes and returns the oldest buffered command of `server_tick`, or
    /// `None` when that tick is absent or its queue is drained.
    pub fn pop_incoming_command(&mut self, server_tick: u16) -> (r: Option<(u16, T)>)
        requires
            old(self).wf(),
        ensures
            final(self).wf(),
            one_tick_per_slot(final(self)@),
            (r, final(self)@) == pop_model(old(self)@, server_tick),
            old(self)@.contains_key(server_tick) && old(self)@[server_tick].len() > 0 ==> {
                &&& r == Some(old(self)@[server_tick][0])
                &&& final(self)@ == old(self)@.insert(
                    server_tick,
                    old(self)@[server_tick].drop_first(),
                )
            },
            !(old(self)@.contains_key(server_tick) && old(self)@[server_tick].len() > 0) ==> {
                &&& r is None
                &&& final(self)@ == old(self)@
            },
    {
        let idx: usize = server_tick as usize % COMMAND_BUFFER_MAX_SIZE;
        let live = match &self.slots[idx] {
            Some(p) => p.0 == server_tick,
            None => false,
        };
        if !live {
            return None;
        }
        let ghost old_slots = self.slots@;
        let slot = self.slots.remove(idx);
        let (t, mut queue) = slot.unwrap();
        let r = queue.pop_front();
        self.slots.insert(idx, Some((t, queue)));
        proof {
            assert(self.slots@ =~= old_slots.update(idx as int, Some((t, queue))));
            if r is None {
                assert(self@ =~= old(self)@);
            } else {
                assert(self@ =~= old(self)@.insert(server_tick, old(self)@[server_tick].drop_first()));
            }
        }
        r
    }

    /// Appends one command to the queue of `tick`, creating the queue (and
    /// evicting whatever tick held its slot) if needed.
    fn push_command(&mut self, tick: u16, command: (u16, T))
        requires
            old(self).wf(),
        ensures
            final(self).wf(),
            final(self)@ == append_commands(old(self)@, tick, seq![command]),
    {
        let idx: usize = tick as usize % COMMAND_BUFFER_MAX_SIZE;
        let live = match &self.slots[idx] {
            Some(p) => p.0 == tick,
            None => false,
        };
        let ghost old_slots = self.slots@;
        let slot = self.slots.remove(idx);
        let mut queue: VecDeque<(u16, T)> = if live {
            slot.unwrap().1
        } else {
            VecDeque::new()
        };
        let ghost prev = queue@;
        queue.push_back(command);
        self.slots.insert(idx, Some((tick, queue)));
        proof {
            assert(self.slots@ =~= old_slots.update(idx as int, Some((tick, queue))));
            assert(prev == queue_at(old(self)@, tick));
            let m = append_commands(old(self)@, tick, seq![command]);
            assert forall|t: u16| #[trigger] self@.contains_key(t) == m.contains_key(t) by {
                if t != tick && slot_of(t) == slot_of(tick) {
                    assert(!self@.contains_key(t));
                }
            }
            assert(queue@ =~= queue_at(old(self)@, tick) + seq![command]);
            assert forall|t: u16| #[trigger] self@.contains_key(t) implies self@[t] == m[t] by {
                if t != tick {
                    assert(slot_of(t) != slot_of(tick));
                    assert(self.slots@[slot_of(t)] == old_slots[slot_of(t)]);
                }
            }
            assert(self@ =~= m);
        }
    }

    /// Buffers the commands of one packet, produced at `client_tick`, in
    /// order. Each entry is the target entity and what the type registry
    /// reconstructed from the record: `None` when it could not, and then the
    /// record is dropped while the rest of the batch still goes in.
    pub fn process_data(&mut self, client_tick: u16, commands: Vec<(u16, Option<T>)>)
        requires
            old(self).wf(),
        ensures
            final(self).wf(),
            one_tick_per_slot(final(self)@),
            final(self)@ == append_commands(old(self)@, client_tick, reconstructed(commands@)),
    {
        let ghost all = commands@;
        let mut rest = commands;
        let ghost mut done: Seq<(u16, Option<T>)> = Seq::empty();
        while rest.len() > 0
            invariant
                self.wf(),
                all == done + rest@,
                self@ == append_commands(old(self)@, client_tick, reconstructed(done)),
            decreases rest@.len(),
        {
            let ghost before = self@;
            let item = rest.remove(0);
            proof {
                assert(all == done.push(item) + rest@) by {
                    assert(done + (seq![item] + rest@) =~= done.push(item) + rest@);
                }
                assert(done.push(item).drop_last() =~= done);
            }
            let (entity, maybe) = item;
            match maybe {
                Some(c) => {
                    self.push_command(client_tick, (entity, c));
                    proof {
                        let a = reconstructed(done);
                        let o = old(self)@;
                        assert(reconstructed(done.push(item)) == a.push((entity, c)));
                        assert(a + seq![(entity, c)] =~= a.push((entity, c)));
                        if a.len() > 0 {
                            assert(queue_at(o, client_tick) + a + seq![(entity, c)] =~= queue_at(
                                o,
                                client_tick,
                            ) + a.push((entity, c)));
                            assert(evict_for(evict_for(o, client_tick).insert(
                                client_tick,
                                queue_at(o, client_tick) + a,
                            ), client_tick) =~= evict_for(o, client_tick).insert(
                                client_tick,
                                queue_at(o, client_tick) + a,
                            ));
                        } else {
                            assert(queue_at(o, client_tick) + a.push((entity, c)) =~= queue_at(
                                o,
                                client_tick,
                            ) + seq![(entity, c)]);
                        }
                        assert(self@ =~= append_commands(o, client_tick, a.push((entity, c))));
                    }
                },
                None => {
                    assert(reconstructed(done.push(item)) == reconstructed(done));
                },
            }
            proof {
                done = done.push(item);
            }
        }
        assert(done =~= all);
    }
}

} // verus!
