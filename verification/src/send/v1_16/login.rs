//! Login packets of protocol versions 735 and 736 (1.16).

use vstd::prelude::*;
use vstd::std_specs::convert::FromSpecImpl;
use vstd::utf8::encode_utf8;

use crate::buf::WriteBuf;
use crate::error::WriteError;
use crate::send::fields::{checked_outcome, write_next, write_next_str};
use crate::traits::{PacketSize, PacketWrite};
use crate::util::str_wire;
use crate::varint::{lemma_vari32_wire_len, VarI32};
use crate::send::specs::LoginSuccessSpec;
use crate::uuids::Uuid;

use crate::send::ids::{any_version, ids_view, no_ids, then_id, PacketIds};

use crate::error::ReadError;
use crate::traits::PacketRead;
verus! {

broadcast use crate::num::lemma_be_bytes_len_auto;

/// The longest user name, in characters.
pub const USERNAME_MAX: usize = 16;

/// The packet that ends the login, with the uuid as 16 bytes.
pub struct LoginSuccessPacket {
    pub uuid: Uuid,
    pub username: String,
}

impl LoginSuccessPacket {
    /// The bytes of the packet, when its strings are short enough.
    pub open spec fn wire(&self) -> Seq<u8> {
        self.uuid.wire() + str_wire(encode_utf8(self.username@))
    }

    /// The number of bytes of the packet.
    pub fn size(&self) -> (n: usize)
        requires
            self.wire().len() <= usize::MAX,
        ensures
            n == self.wire().len(),
    {
        proof {
            lemma_vari32_wire_len(VarI32 { val: encode_utf8(self.username@).len() as i32 });
        }
        self.uuid.size() + VarI32::from(self.username.as_str().as_bytes().len()).size() + self.username.as_str().as_bytes().len()
    }

    /// Writes the packet; a string longer than its limit is refused.
    pub fn write(&self, buffer: &mut WriteBuf) -> (r: Result<(), WriteError>)
        ensures
            checked_outcome(
                *old(buffer),
                *final(buffer),
                self.username@.len() <= USERNAME_MAX,
                self.wire(),
                r,
                WriteError::StringTooLong(USERNAME_MAX, self.username@.len() as usize),
            ),
    {
        let ghost b0 = *buffer;
        let ghost d0 = Seq::<u8>::empty();
        proof { assert(b0@ =~= b0@ + d0); }
        let r = write_next(Ok(()), &self.uuid, buffer, Ghost(b0), Ghost(d0));
        let ghost d1 = d0 + self.uuid.wire();
        let r = write_next_str(r, USERNAME_MAX, &self.username, buffer, Ghost(b0), Ghost(d1));
        let ghost d2 = d1 + str_wire(encode_utf8(self.username@));
        proof { assert(d2 =~= self.wire()); }
        r
    }
}

impl From<LoginSuccessSpec> for LoginSuccessPacket {
    fn from(spec: LoginSuccessSpec) -> (r: LoginSuccessPacket)
        ensures
            r.uuid == spec.uuid,
            r.username@ == spec.username@,
    {
        LoginSuccessPacket { uuid: spec.uuid, username: spec.username }
    }
}

/// The login success packet built from a description carries the player's
/// uuid and name unchanged.
pub proof fn law_login_success_keeps_fields(spec: LoginSuccessSpec, r: LoginSuccessPacket)
    requires
        call_ensures(<LoginSuccessPacket as From<LoginSuccessSpec>>::from, (spec,), r),
    ensures
        r.uuid == spec.uuid,
        r.username@ == spec.username@,
{
}

impl FromSpecImpl<LoginSuccessSpec> for LoginSuccessPacket {
    open spec fn obeys_from_spec() -> bool {
        true
    }

    open spec fn from_spec(spec: LoginSuccessSpec) -> LoginSuccessPacket {
        LoginSuccessPacket { uuid: spec.uuid, username: spec.username }
    }
}

impl LoginSuccessPacket {
    /// The packet ids the login success packet is sent with, by protocol version: 0x02 in 735, 736.
    pub fn packet_ids() -> (r: PacketIds)
        ensures
            ids_view(r) == seq![(0x02i32, seq![735i32, 736i32])],
            r.any_version is None,
    {
        let v0: [i32; 2] = [735, 736];
        proof {
            assert(v0@ =~= seq![735i32, 736i32]);
        }
        let r = then_id(no_ids(), 0x02, &v0);
        proof {
            assert(ids_view(r) =~= seq![(0x02i32, seq![735i32, 736i32])]);
        }
        r
    }
}

/// A login success packet starts with the player's uuid, which reads back
/// from its first sixteen bytes.
pub proof fn law_login_success_starts_with_uuid(p: LoginSuccessPacket)
    ensures
        <Uuid as PacketRead>::parse(p.wire()) == Ok::<(Uuid, nat), ReadError>((p.uuid, 16nat)),
{
    crate::uuids::law_uuid_roundtrip(p.uuid, str_wire(encode_utf8(p.username@)));
}

} // verus!
