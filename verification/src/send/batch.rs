//! Sending a batch of packets over a connection.

use vstd::prelude::*;

use bytes::Bytes;

use crate::ext::bytes_view;
use crate::util::extend_bytes;

verus! {

/// A connection that packets are sent over.
pub trait ConnectionLogic {
    /// The packets sent so far, as their bytes.
    spec fn sent(&self) -> Seq<Seq<u8>>;

    /// Sends one packet.
    fn send(&mut self, packet: &Bytes)
        ensures
            final(self).sent() == old(self).sent().push(bytes_view(*packet)),
    ;
}

/// A connection that keeps the bytes of every packet sent over it, in order.
pub struct PacketLog {
    pub packets: Vec<Vec<u8>>,
}

impl PacketLog {
    /// A log of no packets.
    pub fn new() -> (r: PacketLog)
        ensures
            r.sent() == Seq::<Seq<u8>>::empty(),
    {
        PacketLog { packets: Vec::new() }
    }
}

impl ConnectionLogic for PacketLog {
    open spec fn sent(&self) -> Seq<Seq<u8>> {
        self.packets@.map_values(|p: Vec<u8>| p@)
    }

    fn send(&mut self, packet: &Bytes) {
        let mut copy: Vec<u8> = Vec::new();
        extend_bytes(&mut copy, packet);
        self.packets.push(copy);
        proof {
            assert(self.sent() =~= old(self).sent().push(bytes_view(*packet)));
        }
    }
}

/// The bytes of the packets that came out, in order, leaving out the items
/// that gave none.
pub open spec fn kept(outs: Seq<Option<Bytes>>) -> Seq<Seq<u8>>
    decreases outs.len(),
{
    if outs.len() == 0 {
        Seq::empty()
    } else {
        match outs.last() {
            Some(b) => kept(outs.drop_last()).push(bytes_view(b)),
            None => kept(outs.drop_last()),
        }
    }
}

/// Converts every item of `batch` into a packet, in order, then sends the
/// packets that came out over `connection`, in the same order.
pub fn send_batch<B, C: Fn(B) -> Option<Bytes>, L: ConnectionLogic>(
    batch: Vec<B>,
    convert: C,
    connection: &mut L,
)
    requires
        forall|b: B| convert.requires((b,)),
    ensures
        exists|outs: Seq<Option<Bytes>>|
            {
                &&& outs.len() == batch@.len()
                &&& forall|i: int|
                    0 <= i < batch@.len() ==> convert.ensures((batch@[i],), #[trigger] outs[i])
                &&& final(connection).sent() == old(connection).sent() + kept(outs)
            },
{
    let ghost items = batch@;
    let mut batch = batch;
    let mut rev: Vec<B> = Vec::new();
    while batch.len() > 0
        invariant
            batch@.len() + rev@.len() == items.len(),
            batch@ == items.take(batch@.len() as int),
            forall|k: int| 0 <= k < rev@.len() ==> #[trigger] rev@[k] == items[items.len() - 1 - k],
        decreases batch@.len(),
    {
        let item = batch.pop().unwrap();
        rev.push(item);
        proof {
            assert(batch@ =~= items.take(batch@.len() as int));
        }
    }
    let mut packets: Vec<Bytes> = Vec::new();
    let ghost mut outs: Seq<Option<Bytes>> = Seq::empty();
    while rev.len() > 0
        invariant
            outs.len() + rev@.len() == items.len(),
            forall|k: int| 0 <= k < rev@.len() ==> #[trigger] rev@[k] == items[items.len() - 1 - k],
            forall|i: int| 0 <= i < outs.len() ==> convert.ensures((items[i],), #[trigger] outs[i]),
            forall|b: B| convert.requires((b,)),
            packets@.map_values(|p: Bytes| bytes_view(p)) == kept(outs),
        decreases rev@.len(),
    {
        let ghost i = outs.len() as int;
        let item = rev.pop().unwrap();
        proof {
            assert(item == items[i]);
        }
        let out = convert(item);
        proof {
            let before = outs;
            outs = outs.push(out);
            assert(outs.drop_last() =~= before);
        }
        match out {
            Some(data) => {
                packets.push(data);
                proof {
                    assert(packets@.map_values(|p: Bytes| bytes_view(p)) =~= kept(outs));
                }
            },
            None => {},
        }
    }
    let ghost start = connection.sent();
    let mut j: usize = 0;
    while j < packets.len()
        invariant
            j <= packets@.len(),
            connection.sent() == start + packets@.map_values(|p: Bytes| bytes_view(p)).take(j as int),
        decreases packets@.len() - j,
    {
        connection.send(&packets[j]);
        j = j + 1;
        proof {
            assert(connection.sent() =~= start + packets@.map_values(|p: Bytes| bytes_view(p)).take(
                j as int,
            ));
        }
    }
    proof {
        assert(packets@.map_values(|p: Bytes| bytes_view(p)).take(j as int) =~= packets@.map_values(
            |p: Bytes| bytes_view(p),
        ));
        assert(forall|i: int|
            0 <= i < items.len() ==> convert.ensures((items[i],), #[trigger] outs[i]));
    }
}

} // verus!
