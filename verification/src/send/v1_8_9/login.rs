//! Login packets of every version up to 1.15.

use vstd::prelude::*;
use vstd::std_specs::convert::FromSpecImpl;
use vstd::utf8::encode_utf8;

use crate::buf::WriteBuf;
use crate::error::WriteError;
use crate::send::fields::{checked_outcome, write_next, write_next_str};
use crate::traits::{PacketSize, PacketWrite};
use crate::util::str_wire;
use crate::varint::{lemma_vari32_wire_len, VarI32};
use crate::send::specs::LoginSuccessSpec;
use crate::uuids::StringUuid;

use crate::send::ids::{any_version, ids_view, no_ids, then_id, PacketIds};

verus! {

broadcast use crate::num::lemma_be_bytes_len_auto;

/// The longest disconnect reason, in characters.
pub const REASON_MAX: usize = 262144;

/// The longest user name, in characters.
pub const USERNAME_MAX: usize = 16;

/// The packet that ends a connection while logging in, with the reason as JSON text.
pub struct DisconnectPacket {
    pub reason: String,
}

impl DisconnectPacket {
    /// The bytes of the packet, when its strings are short enough.
    pub open spec fn wire(&self) -> Seq<u8> {
        str_wire(encode_utf8(self.reason@))
    }

    /// The number of bytes of the packet.
    pub fn size(&self) -> (n: usize)
        requires
            self.wire().len() <= usize::MAX,
        ensures
            n == self.wire().len(),
    {
        proof {
            lemma_vari32_wire_len(VarI32 { val: encode_utf8(self.reason@).len() as i32 });
        }
        VarI32::from(self.reason.as_str().as_bytes().len()).size() + self.reason.as_str().as_bytes().len()
    }

    /// Writes the packet; a string longer than its limit is refused.
    pub fn write(&self, buffer: &mut WriteBuf) -> (r: Result<(), WriteError>)
        ensures
            checked_outcome(
                *old(buffer),
                *final(buffer),
                self.reason@.len() <= REASON_MAX,
                self.wire(),
                r,
                WriteError::StringTooLong(REASON_MAX, self.reason@.len() as usize),
            ),
    {
        let ghost b0 = *buffer;
        let ghost d0 = Seq::<u8>::empty();
        proof { assert(b0@ =~= b0@ + d0); }
        let r = write_next_str(Ok(()), REASON_MAX, &self.reason, buffer, Ghost(b0), Ghost(d0));
        let ghost d1 = d0 + str_wire(encode_utf8(self.reason@));
        proof { assert(d1 =~= self.wire()); }
        r
    }
}

impl DisconnectPacket {
    /// A disconnect packet with the given reason (JSON text).
    pub fn new(reason: String) -> (r: Self)
        ensures
            r.reason@ == reason@,
    {
        DisconnectPacket { reason }
    }
}

/// The packet that ends the login, with the uuid as hyphenated text.
pub struct LoginSuccess {
    pub uuid: StringUuid,
    pub username: String,
}

impl LoginSuccess {
    /// The bytes of the packet, when its strings are short enough.
    pub open spec fn wire(&self) -> Seq<u8> {
        self.uuid.wire() + str_wire(encode_utf8(self.username@))
    }

    /// The number of bytes of the packet.
    pub fn size(&self) -> (n: usize)
        requires
            self.wire().len() <= usize::MAX,
        ensures
            n == self.wire().len(),
    {
        proof {
            lemma_vari32_wire_len(VarI32 { val: encode_utf8(self.username@).len() as i32 });
        }
        self.uuid.size() + VarI32::from(self.username.as_str().as_bytes().len()).size() + self.username.as_str().as_bytes().len()
    }

    /// Writes the packet; a string longer than its limit is refused.
    pub fn write(&self, buffer: &mut WriteBuf) -> (r: Result<(), WriteError>)
        ensures
            checked_outcome(
                *old(buffer),
                *final(buffer),
                self.username@.len() <= USERNAME_MAX,
                self.wire(),
                r,
                WriteError::StringTooLong(USERNAME_MAX, self.username@.len() as usize),
            ),
    {
        let ghost b0 = *buffer;
        let ghost d0 = Seq::<u8>::empty();
        proof { assert(b0@ =~= b0@ + d0); }
        let r = write_next(Ok(()), &self.uuid, buffer, Ghost(b0), Ghost(d0));
        let ghost d1 = d0 + self.uuid.wire();
        let r = write_next_str(r, USERNAME_MAX, &self.username, buffer, Ghost(b0), Ghost(d1));
        let ghost d2 = d1 + str_wire(encode_utf8(self.username@));
        proof { assert(d2 =~= self.wire()); }
        r
    }
}

impl From<LoginSuccessSpec> for LoginSuccess {
    fn from(spec: LoginSuccessSpec) -> (r: LoginSuccess)
        ensures
            r.uuid.inner == spec.uuid,
            r.username@ == spec.username@,
    {
        LoginSuccess { uuid: StringUuid { inner: spec.uuid }, username: spec.username }
    }
}

/// The login success packet built from a description carries the player's
/// uuid and name unchanged.
pub proof fn law_login_success_keeps_fields(spec: LoginSuccessSpec, r: LoginSuccess)
    requires
        call_ensures(<LoginSuccess as From<LoginSuccessSpec>>::from, (spec,), r),
    ensures
        r.uuid.inner == spec.uuid,
        r.username@ == spec.username@,
{
}

impl FromSpecImpl<LoginSuccessSpec> for LoginSuccess {
    open spec fn obeys_from_spec() -> bool {
        true
    }

    open spec fn from_spec(spec: LoginSuccessSpec) -> LoginSuccess {
        LoginSuccess { uuid: StringUuid { inner: spec.uuid }, username: spec.username }
    }
}

impl DisconnectPacket {
    /// The packet id the login disconnect packet is sent with: 0x00 in every protocol
    /// version.
    pub fn packet_ids() -> (r: PacketIds)
        ensures
            ids_view(r) == Seq::<(i32, Seq<i32>)>::empty(),
            r.any_version == Some(0x00i32),
    {
        any_version(0x00)
    }
}

impl LoginSuccess {
    /// The packet ids the login success packet is sent with, by protocol version: 0x02 in 47, 393, 401, 404, 477, 480, 485, 490, 498, 573, 575, 578.
    pub fn packet_ids() -> (r: PacketIds)
        ensures
            ids_view(r) == seq![(0x02i32, seq![47i32, 393i32, 401i32, 404i32, 477i32, 480i32, 485i32, 490i32, 498i32, 573i32, 575i32, 578i32])],
            r.any_version is None,
    {
        let v0: [i32; 12] = [47, 393, 401, 404, 477, 480, 485, 490, 498, 573, 575, 578];
        proof {
            assert(v0@ =~= seq![47i32, 393i32, 401i32, 404i32, 477i32, 480i32, 485i32, 490i32, 498i32, 573i32, 575i32, 578i32]);
        }
        let r = then_id(no_ids(), 0x02, &v0);
        proof {
            assert(ids_view(r) =~= seq![(0x02i32, seq![47i32, 393i32, 401i32, 404i32, 477i32, 480i32, 485i32, 490i32, 498i32, 573i32, 575i32, 578i32])]);
        }
        r
    }
}

} // verus!
