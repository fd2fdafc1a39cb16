//! Decoding of the command block of an incoming packet.
//!
//! The block is a `u8` record count followed by that many records, each made
//! of a big-endian `u16` entity reference, a big-endian `u16` type id, a `u8`
//! payload length and the payload bytes.

use byteorder::{BigEndian, ByteOrder};
use vstd::prelude::*;

verus! {

/// A command record as it stands on the wire, before the type registry turns
/// its payload into a command value.
pub struct CommandRecord {
    pub entity: u16,
    pub type_id: u16,
    pub payload: Vec<u8>,
}

impl CommandRecord {
    pub open spec fn view(&self) -> (u16, u16, Seq<u8>) {
        (self.entity, self.type_id, self.payload@)
    }
}

/// The big-endian value of two bytes.
pub open spec fn be_u16(hi: u8, lo: u8) -> u16 {
    (hi as int * 256 + lo as int) as u16
}

/// Relies on `byteorder::BigEndian::read_u16`: the first two bytes of `buf`,
/// most significant first. It panics on a shorter buffer, hence the `requires`.
#[verifier::external_body]
fn read_be_u16(buf: &[u8]) -> (r: u16)
    requires
        buf@.len() >= 2,
    ensures
        r == be_u16(buf@[0], buf@[1]),
{
    BigEndian::read_u16(buf)
}

/// Up to `n` complete records at the start of `b`; decoding stops at the
/// first record that the bytes do not hold in full.
pub open spec fn decode_records(b: Seq<u8>, n: nat) -> Seq<(u16, u16, Seq<u8>)>
    decreases n,
{
    if n == 0 || b.len() < 5 || b.len() < 5 + b[4] as int {
        Seq::empty()
    } else {
        let end = 5 + b[4] as int;
        seq![(be_u16(b[0], b[1]), be_u16(b[2], b[3]), b.subrange(5, end))] + decode_records(
            b.subrange(end, b.len() as int),
            (n - 1) as nat,
        )
    }
}

/// The records of a command block: the count byte, then the records it
/// announces, as far as the block holds them.
pub open spec fn command_block(b: Seq<u8>) -> Seq<(u16, u16, Seq<u8>)> {
    if b.len() == 0 {
        Seq::empty()
    } else {
        decode_records(b.subrange(1, b.len() as int), b[0] as nat)
    }
}

/// Reads the records of a command block. A truncated trailing record, and
/// whatever the count announces beyond it, is left out.
pub fn read_command_records(data: &[u8]) -> (out: Vec<CommandRecord>)
    ensures
        out@.map_values(|r: CommandRecord| r@) == command_block(data@),
{
    let mut out: Vec<CommandRecord> = Vec::new();
    if data.len() == 0 {
        proof {
            assert(out@.map_values(|r: CommandRecord| r@) =~= Seq::<(u16, u16, Seq<u8>)>::empty());
        }
        return out;
    }
    let count: u8 = data[0];
    let mut remaining: u8 = count;
    let mut pos: usize = 1;
    proof {
        assert(out@.map_values(|r: CommandRecord| r@) + decode_records(
            data@.subrange(pos as int, data@.len() as int),
            remaining as nat,
        ) =~= command_block(data@));
    }
    while remaining > 0 && data.len() - pos >= 5
        invariant
            1 <= pos <= data@.len(),
            out@.map_values(|r: CommandRecord| r@) + decode_records(
                data@.subrange(pos as int, data@.len() as int),
                remaining as nat,
            ) == command_block(data@),
        ensures
            out@.map_values(|r: CommandRecord| r@) == command_block(data@),
        decreases remaining,
    {
        let len: usize = data[pos + 4] as usize;
        if data.len() - pos - 5 < len {
            proof {
                let rest = data@.subrange(pos as int, data@.len() as int);
                assert(rest[4] == data@[pos + 4]);
                let d = decode_records(rest, remaining as nat);
                assert(d =~= Seq::<(u16, u16, Seq<u8>)>::empty());
                assert(out@.map_values(|r: CommandRecord| r@) + d =~= out@.map_values(
                    |r: CommandRecord| r@,
                ));
            }
            break;
        }
        let ghost rest = data@.subrange(pos as int, data@.len() as int);
        let entity = read_be_u16(&data[pos..pos + 2]);
        let type_id = read_be_u16(&data[pos + 2..pos + 4]);
        let mut payload: Vec<u8> = Vec::new();
        let start: usize = pos + 5;
        let mut k: usize = 0;
        while k < len
            invariant
                start + len <= data.len(),
                k <= len,
                payload@ == data@.subrange(start as int, start + k),
            decreases len - k,
        {
            payload.push(data[start + k]);
            k = k + 1;
            proof {
                assert(payload@ =~= data@.subrange(start as int, start + k));
            }
        }
        let ghost before = out@.map_values(|r: CommandRecord| r@);
        let rec = CommandRecord { entity, type_id, payload };
        out.push(rec);
        proof {
            assert(rest[0] == data@[pos as int]);
            assert(rest[4] == data@[pos + 4]);
            assert(rest.subrange(5, 5 + len) =~= data@.subrange(start as int, start + len));
            assert(rest.subrange(5 + len, rest.len() as int) =~= data@.subrange(
                start + len,
                data@.len() as int,
            ));
            assert(out@.map_values(|r: CommandRecord| r@) =~= before.push(rec@));
        }
        pos = start + len;
        remaining = remaining - 1;
        proof {
            let tail = decode_records(data@.subrange(pos as int, data@.len() as int), remaining as nat);
            assert(decode_records(rest, (remaining + 1) as nat) =~= seq![rec@] + tail);
            assert(before + (seq![rec@] + tail) =~= before.push(rec@) + tail);
        }
    }
    out
}

} // verus!
