//! Which packet id an outgoing packet is sent with, in each protocol
//! version, and writing a packet with its id in front.

use vstd::prelude::*;

use crate::buf::WriteBuf;
use crate::error::WriteError;
use crate::send::fields::{unchanged, write_next};
use crate::traits::{write_outcome, PacketSize, PacketWrite};
use crate::varint::VarI32;

verus! {

/// The packet ids a packet type is sent with: each with the protocol
/// versions it is used in, and the id used in every other version, for a
/// packet type sent in all versions.
pub struct PacketIds {
    pub versions: Vec<(i32, Vec<i32>)>,
    pub any_version: Option<i32>,
}

/// The mappings of a packet type, as contracts speak of them.
pub open spec fn ids_view(ids: PacketIds) -> Seq<(i32, Seq<i32>)> {
    Seq::new(ids.versions@.len(), |i: int| (ids.versions@[i].0, ids.versions@[i].1@))
}

/// The id of the first mapping, from the `i`th on, whose versions hold
/// `protocol`; otherwise the id for every other version, if any.
pub open spec fn id_from(versions: Seq<(i32, Seq<i32>)>, any_version: Option<i32>, protocol: i32, i: int) -> Option<i32>
    decreases versions.len() - i,
{
    if i < 0 || i >= versions.len() {
        any_version
    } else if versions[i].1.contains(protocol) {
        Some(versions[i].0)
    } else {
        id_from(versions, any_version, protocol, i + 1)
    }
}

/// The id a packet type is sent with in the protocol version `protocol`,
/// or none when it is not sent in that version.
pub open spec fn packet_id_spec(ids: PacketIds, protocol: i32) -> Option<i32> {
    id_from(ids_view(ids), ids.any_version, protocol, 0)
}

proof fn lemma_id_from(versions: Seq<(i32, Seq<i32>)>, any_version: Option<i32>, protocol: i32, i: int)
    requires
        0 <= i <= versions.len(),
    ensures
        (forall|j: int| i <= j < versions.len() ==> !(#[trigger] versions[j]).1.contains(protocol)) ==> id_from(
            versions,
            any_version,
            protocol,
            i,
        ) == any_version,
        forall|j: int|
            i <= j < versions.len() && (#[trigger] versions[j]).1.contains(protocol) && (forall|m: int|
                i <= m < j ==> !(#[trigger] versions[m]).1.contains(protocol)) ==> id_from(
                versions,
                any_version,
                protocol,
                i,
            ) == Some(versions[j].0),
    decreases versions.len() - i,
{
    if i < versions.len() {
        lemma_id_from(versions, any_version, protocol, i + 1);
        if !versions[i].1.contains(protocol) {
            assert forall|j: int|
                i <= j < versions.len() && (#[trigger] versions[j]).1.contains(protocol) && (forall|m: int|
                    i <= m < j ==> !(#[trigger] versions[m]).1.contains(protocol)) implies id_from(
                versions,
                any_version,
                protocol,
                i,
            ) == Some(versions[j].0) by {
                assert(j != i);
                assert forall|m: int| i + 1 <= m < j implies !(#[trigger] versions[m]).1.contains(protocol) by {}
            }
        }
    }
}

/// A packet type is sent in a protocol version with the id of the first of
/// its mappings whose versions hold that version; when none does, with the
/// id it has in every other version, if it has one, and otherwise not at
/// all.
pub proof fn law_packet_id(ids: PacketIds, protocol: i32)
    ensures
        (forall|j: int| 0 <= j < ids.versions@.len() ==> !(#[trigger] ids.versions@[j]).1@.contains(protocol))
            ==> packet_id_spec(ids, protocol) == ids.any_version,
        forall|j: int|
            0 <= j < ids.versions@.len() && (#[trigger] ids.versions@[j]).1@.contains(protocol) && (forall|m: int|
                0 <= m < j ==> !(#[trigger] ids.versions@[m]).1@.contains(protocol)) ==> packet_id_spec(
                ids,
                protocol,
            ) == Some(ids.versions@[j].0),
{
    let v = ids_view(ids);
    lemma_id_from(v, ids.any_version, protocol, 0);
    assert forall|j: int| 0 <= j < v.len() implies #[trigger] v[j] == (ids.versions@[j].0, ids.versions@[j].1@) by {}
    assert forall|j: int|
        0 <= j < ids.versions@.len() && (#[trigger] ids.versions@[j]).1@.contains(protocol) && (forall|m: int|
            0 <= m < j ==> !(#[trigger] ids.versions@[m]).1@.contains(protocol)) implies packet_id_spec(
        ids,
        protocol,
    ) == Some(ids.versions@[j].0) by {
        assert(v[j].1.contains(protocol));
        assert forall|m: int| 0 <= m < j implies !(#[trigger] v[m]).1.contains(protocol) by {
            assert(v[m] == (ids.versions@[m].0, ids.versions@[m].1@));
            assert(!ids.versions@[m].1@.contains(protocol));
        }
    }
}

impl PacketIds {
    /// The id the packet type is sent with in the protocol version
    /// `protocol`, or none when it is not sent in that version.
    pub fn packet_id(&self, protocol: i32) -> (r: Option<i32>)
        ensures
            r == packet_id_spec(*self, protocol),
    {
        let ghost view = ids_view(*self);
        let mut i: usize = 0;
        while i < self.versions.len()
            invariant
                i <= self.versions@.len(),
                view == ids_view(*self),
                id_from(view, self.any_version, protocol, 0) == id_from(
                    view,
                    self.any_version,
                    protocol,
                    i as int,
                ),
            decreases self.versions@.len() - i,
        {
            let vs = &self.versions[i].1;
            let ghost vv = view[i as int].1;
            assert(vv == vs@);
            let mut j: usize = 0;
            while j < vs.len()
                invariant
                    j <= vs@.len(),
                    vv == vs@,
                    i < self.versions@.len(),
                    view == ids_view(*self),
                    vv == view[i as int].1,
                    *vs == self.versions@[i as int].1,
                    id_from(view, self.any_version, protocol, 0) == id_from(
                        view,
                        self.any_version,
                        protocol,
                        i as int,
                    ),
                    forall|k: int| 0 <= k < j ==> vs@[k] != protocol,
                decreases vs@.len() - j,
            {
                if vs[j] == protocol {
                    proof {
                        assert(vv.contains(protocol)) by {
                            assert(vv[j as int] == protocol);
                        }
                    }
                    proof {
                        assert(view[i as int].0 == self.versions@[i as int].0);
                    }
                    return Some(self.versions[i].0);
                }
                j = j + 1;
            }
            proof {
                assert(!vv.contains(protocol));
            }
            i = i + 1;
        }
        self.any_version
    }
}

/// Writes `packet` with its id in front, as the variable-length id followed
/// by the packet, when the packet type is sent in the protocol version
/// `protocol`: `Ok(true)` once written. When it is not sent in that version,
/// nothing is written and the result is `Ok(false)`.
pub fn write_packet<P: PacketWrite>(
    ids: &PacketIds,
    packet: &P,
    buffer: &mut WriteBuf,
    protocol: i32,
) -> (r: Result<bool, WriteError>)
    ensures
        match packet_id_spec(*ids, protocol) {
            None => r == Ok::<bool, WriteError>(false) && unchanged(*old(buffer), *final(buffer)),
            Some(id) => write_outcome(
                *old(buffer),
                *final(buffer),
                VarI32 { val: id }.wire() + packet.wire(),
                match r {
                    Ok(_) => Ok(()),
                    Err(e) => Err(e),
                },
            ) && (r matches Ok(b) ==> b),
        },
{
    match ids.packet_id(protocol) {
        None => Ok(false),
        Some(id) => {
            let ghost b0 = *buffer;
            let ghost d0 = Seq::<u8>::empty();
            proof {
                assert(b0@ =~= b0@ + d0);
            }
            let vid = VarI32 { val: id };
            let r1 = write_next(Ok(()), &vid, buffer, Ghost(b0), Ghost(d0));
            let ghost d1 = d0 + vid.wire();
            let r2 = write_next(r1, packet, buffer, Ghost(b0), Ghost(d1));
            proof {
                assert(d1 + packet.wire() =~= vid.wire() + packet.wire());
            }
            match r2 {
                Ok(()) => Ok(true),
                Err(e) => Err(e),
            }
        },
    }
}

/// The protocol versions `list`, as a vector.
pub fn versions_of(list: &[i32]) -> (r: Vec<i32>)
    ensures
        r@ == list@,
{
    let mut r: Vec<i32> = Vec::new();
    let mut i: usize = 0;
    while i < list.len()
        invariant
            i <= list@.len(),
            r@ == list@.take(i as int),
        decreases list@.len() - i,
    {
        r.push(list[i]);
        i = i + 1;
        proof {
            assert(r@ =~= list@.take(i as int));
        }
    }
    proof {
        assert(list@.take(i as int) =~= list@);
    }
    r
}

/// Ids for a packet type sent with `id` in every protocol version.
pub fn any_version(id: i32) -> (r: PacketIds)
    ensures
        ids_view(r) == Seq::<(i32, Seq<i32>)>::empty(),
        r.any_version == Some(id),
{
    let r = PacketIds { versions: Vec::new(), any_version: Some(id) };
    proof {
        assert(ids_view(r) =~= Seq::<(i32, Seq<i32>)>::empty());
    }
    r
}

/// Ids for a packet type sent with `id` in the versions `list`, and before
/// that with the ids of `ids`.
pub fn then_id(ids: PacketIds, id: i32, list: &[i32]) -> (r: PacketIds)
    ensures
        ids_view(r) == ids_view(ids).push((id, list@)),
        r.any_version == ids.any_version,
{
    let mut ids = ids;
    let ghost before = ids_view(ids);
    let v = versions_of(list);
    ids.versions.push((id, v));
    proof {
        assert(ids_view(ids) =~= before.push((id, list@)));
    }
    ids
}

/// Ids of no packet type yet.
pub fn no_ids() -> (r: PacketIds)
    ensures
        ids_view(r) == Seq::<(i32, Seq<i32>)>::empty(),
        r.any_version is None,
{
    let r = PacketIds { versions: Vec::new(), any_version: None };
    proof {
        assert(ids_view(r) =~= Seq::<(i32, Seq<i32>)>::empty());
    }
    r
}

} // verus!
