//! Assembles the outgoing packet: the event block, then the entity message
//! block, which is a tag byte, a `u8` message count and the messages' bytes.
//! The entity message block is written only when it holds a message.

use vstd::prelude::*;

verus! {

/// Tag byte that opens an entity message block.
pub const ENTITY_MESSAGE_BLOCK_TAG: u8 = 2;

/// The packet bytes for the given buffered state.
pub open spec fn packet_bytes(events: Seq<u8>, entity_bytes: Seq<u8>, count: u8) -> Seq<u8> {
    if count != 0 {
        events + seq![ENTITY_MESSAGE_BLOCK_TAG, count] + entity_bytes
    } else {
        events
    }
}

/// The messages of `m`, serialised, one after another.
pub open spec fn concat(m: Seq<Seq<u8>>) -> Seq<u8>
    decreases m.len(),
{
    if m.len() == 0 {
        Seq::empty()
    } else {
        concat(m.drop_last()) + m.last()
    }
}

/// Handles writing of event and entity message data into an outgoing packet.
pub struct ServerPacketWriter {
    event_bytes: Vec<u8>,
    entity_working_bytes: Vec<u8>,
    entity_message_count: u8,
}

impl ServerPacketWriter {
    /// Bytes of the event block written so far.
    pub closed spec fn events(&self) -> Seq<u8> {
        self.event_bytes@
    }

    /// Bytes of the entity messages written so far.
    pub closed spec fn entity_bytes(&self) -> Seq<u8> {
        self.entity_working_bytes@
    }

    /// Number of entity messages written so far.
    pub closed spec fn entity_count(&self) -> u8 {
        self.entity_message_count
    }

    /// The buffered bytes, counted together, fit in a `usize`.
    pub open spec fn wf(&self) -> bool {
        self.events().len() + self.entity_bytes().len() <= usize::MAX
    }

    /// Creates a writer with nothing buffered.
    pub fn new() -> (r: ServerPacketWriter)
        ensures
            r.wf(),
            r.events() == Seq::<u8>::empty(),
            r.entity_bytes() == Seq::<u8>::empty(),
            r.entity_count() == 0,
    {
        ServerPacketWriter {
            event_bytes: Vec::new(),
            entity_working_bytes: Vec::new(),
            entity_message_count: 0,
        }
    }

    /// Whether the writer has bytes to write into the outgoing packet.
    pub fn has_bytes(&self) -> (r: bool)
        ensures
            r == (self.events().len() > 0 || self.entity_count() != 0),
    {
        self.event_bytes.len() > 0 || self.entity_message_count != 0
    }

    /// Number of buffered bytes, events and entity messages together.
    pub fn bytes_number(&self) -> (r: usize)
        requires
            self.wf(),
        ensures
            r == self.events().len() + self.entity_bytes().len(),
    {
        self.event_bytes.len() + self.entity_working_bytes.len()
    }

    /// Takes the bytes of the outgoing packet: the event block, then the
    /// entity message block when it holds a message.
    pub fn get_bytes(&mut self) -> (r: Vec<u8>)
        requires
            old(self).wf(),
        ensures
            r@ == packet_bytes(old(self).events(), old(self).entity_bytes(), old(self).entity_count()),
            final(self).wf(),
            final(self).events() == Seq::<u8>::empty(),
            final(self).entity_count() == 0,
            final(self).entity_bytes() == if old(self).entity_count() != 0 {
                Seq::<u8>::empty()
            } else {
                old(self).entity_bytes()
            },
    {
        let mut out: Vec<u8> = Vec::new();
        out.append(&mut self.event_bytes);
        if self.entity_message_count != 0 {
            out.push(ENTITY_MESSAGE_BLOCK_TAG);
            out.push(self.entity_message_count);
            out.append(&mut self.entity_working_bytes);
            self.entity_message_count = 0;
            assert(out@ =~= old(self).events() + seq![ENTITY_MESSAGE_BLOCK_TAG, old(self).entity_count()]
                + old(self).entity_bytes());
        }
        out
    }

    /// Appends an already serialised event to the event block. Refuses, and
    /// writes nothing, when the event is empty (it would leave no trace in
    /// the packet) or when the buffered bytes would no longer fit a `usize`.
    /// After a successful write the writer has bytes to send.
    pub fn write_event(&mut self, event: &[u8]) -> (r: bool)
        requires
            old(self).wf(),
        ensures
            final(self).wf(),
            r == (event@.len() > 0 && old(self).events().len() + old(self).entity_bytes().len()
                + event@.len() <= usize::MAX),
            r ==> final(self).events() == old(self).events() + event@,
            r ==> final(self).events().len() > 0,
            !r ==> final(self).events() == old(self).events(),
            final(self).entity_bytes() == old(self).entity_bytes(),
            final(self).entity_count() == old(self).entity_count(),
    {
        if event.len() == 0 {
            return false;
        }
        let total = self.event_bytes.len() + self.entity_working_bytes.len();
        if event.len() > usize::MAX - total {
            return false;
        }
        let ghost before = self.event_bytes@;
        let mut i: usize = 0;
        while i < event.len()
            invariant
                i <= event@.len(),
                self.event_bytes@ == before + event@.subrange(0, i as int),
                self.entity_working_bytes@ == old(self).entity_bytes(),
                self.entity_message_count == old(self).entity_count(),
            decreases event@.len() - i,
        {
            self.event_bytes.push(event[i]);
            i = i + 1;
            assert(self.event_bytes@ =~= before + event@.subrange(0, i as int));
        }
        assert(event@.subrange(0, event@.len() as int) =~= event@);
        true
    }

    /// Appends a serialised entity message to the entity message block.
    /// Refuses, and writes nothing, when the block already holds 255
    /// messages (its count is a single byte) or when the buffered bytes would
    /// no longer fit a `usize`.
    pub fn write_entity_message(&mut self, message: &[u8]) -> (r: bool)
        requires
            old(self).wf(),
        ensures
            final(self).wf(),
            r == (old(self).entity_count() < 255 && old(self).events().len()
                + old(self).entity_bytes().len() + message@.len() <= usize::MAX),
            r ==> final(self).entity_bytes() == old(self).entity_bytes() + message@,
            r ==> final(self).entity_count() == old(self).entity_count() + 1,
            !r ==> final(self).entity_bytes() == old(self).entity_bytes(),
            !r ==> final(self).entity_count() == old(self).entity_count(),
            final(self).events() == old(self).events(),
    {
        if self.entity_message_count == 255 {
            return false;
        }
        let total = self.event_bytes.len() + self.entity_working_bytes.len();
        if message.len() > usize::MAX - total {
            return false;
        }
        let ghost before = self.entity_working_bytes@;
        let mut i: usize = 0;
        while i < message.len()
            invariant
                i <= message@.len(),
                self.entity_working_bytes@ == before + message@.subrange(0, i as int),
                self.event_bytes@ == old(self).events(),
                self.entity_message_count == old(self).entity_count(),
            decreases message@.len() - i,
        {
            self.entity_working_bytes.push(message[i]);
            i = i + 1;
            assert(self.entity_working_bytes@ =~= before + message@.subrange(0, i as int));
        }
        assert(message@.subrange(0, message@.len() as int) =~= message@);
        self.entity_message_count = self.entity_message_count + 1;
        true
    }

    /// Writes serialised entity messages in order until one is refused;
    /// returns how many were written. The ones from that index on are for
    /// the next packet.
    pub fn write_entity_messages(&mut self, messages: &Vec<Vec<u8>>) -> (r: usize)
        requires
            old(self).wf(),
        ensures
            final(self).wf(),
            r <= messages@.len(),
            final(self).events() == old(self).events(),
            final(self).entity_count() == old(self).entity_count() + r,
            final(self).entity_bytes() == old(self).entity_bytes() + concat(
                messages@.take(r as int).map_values(|m: Vec<u8>| m@),
            ),
            r < messages@.len() ==> !(final(self).entity_count() < 255 && final(self).events().len()
                + final(self).entity_bytes().len() + messages@[r as int]@.len() <= usize::MAX),
    {
        let mut i: usize = 0;
        assert(messages@.take(0).map_values(|m: Vec<u8>| m@) =~= Seq::<Seq<u8>>::empty());
        while i < messages.len()
            invariant
                self.wf(),
                i <= messages@.len(),
                self.events() == old(self).events(),
                self.entity_count() == old(self).entity_count() + i,
                self.entity_bytes() == old(self).entity_bytes() + concat(
                    messages@.take(i as int).map_values(|m: Vec<u8>| m@),
                ),
            decreases messages@.len() - i,
        {
            let ghost before = self.entity_bytes();
            if !self.write_entity_message(messages[i].as_slice()) {
                return i;
            }
            proof {
                let a = messages@.take(i as int).map_values(|m: Vec<u8>| m@);
                let b = messages@.take(i + 1).map_values(|m: Vec<u8>| m@);
                assert(b.drop_last() =~= a);
                assert(b.last() == messages@[i as int]@);
                assert(old(self).entity_bytes() + concat(a) + messages@[i as int]@ =~= old(
                    self,
                ).entity_bytes() + concat(b));
            }
            i = i + 1;
        }
        i
    }
}

} // verus!
