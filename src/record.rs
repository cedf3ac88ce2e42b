//! Message records and their wire form:
//! `[u32 data_len][data][u64 id][author]`, integers little-endian, the author
//! in the wire form of a user.
use vstd::prelude::*;
use vstd::bytes::*;
use vstd::slice::{slice_subrange, slice_to_vec};
use crate::codec::{DecodeError, append_bytes};
use crate::user::{User, UserView, user_bytes, encodable, user_accepts, parsed_user, lemma_user_round_trip};

verus! {

/// A message record: its payload, its author and its identifier.
#[derive(Clone, Debug, PartialEq, Eq)]
pub struct Message {
    pub data: Vec<u8>,
    pub author: User,
    pub id: u64,
}

/// A record's fields as mathematical values.
pub type MessageView = (Seq<u8>, UserView, u64);

impl View for Message {
    type V = MessageView;

    open spec fn view(&self) -> MessageView {
        (self.data@, self.author@, self.id)
    }
}

/// The wire form of a record (the payload length taken modulo 2^32).
pub open spec fn message_bytes(m: MessageView) -> Seq<u8> {
    spec_u32_to_le_bytes((m.0.len() % 4294967296) as u32) + m.0 + spec_u64_to_le_bytes(m.2)
        + user_bytes(m.1)
}

/// The little-endian `u32` at the start of `data`.
pub open spec fn u32_head(data: Seq<u8>) -> int {
    spec_u32_from_le_bytes(data.subrange(0, 4)) as int
}

/// Whether `data` is laid out as a record.
pub open spec fn message_accepts(data: Seq<u8>) -> bool {
    &&& data.len() >= 4
    &&& data.len() >= 12 + u32_head(data)
    &&& user_accepts(data.subrange(12 + u32_head(data), data.len() as int))
}

/// The record that bytes laid out as a record describe.
pub open spec fn parsed_message(data: Seq<u8>) -> MessageView {
    let dl = u32_head(data);
    (
        data.subrange(4, 4 + dl),
        parsed_user(data.subrange(12 + dl, data.len() as int)),
        spec_u64_from_le_bytes(data.subrange(4 + dl, 12 + dl)),
    )
}

/// Round trip: the wire form of a record whose payload fits its length
/// prefix and whose author is encodable is accepted, and read back as the
/// same record.
pub proof fn lemma_message_round_trip(m: MessageView)
    requires
        m.0.len() < 4294967296,
        encodable(m.1),
    ensures
        message_accepts(message_bytes(m)),
        parsed_message(message_bytes(m)) == m,
{
    lemma_auto_spec_u32_to_from_le_bytes();
    lemma_auto_spec_u64_to_from_le_bytes();
    lemma_user_round_trip(m.1);
    let d = message_bytes(m);
    let dl = m.0.len() as int;
    assert(((m.0.len() % 4294967296) as u32) as int == dl);
    assert(d.subrange(0, 4) =~= spec_u32_to_le_bytes((m.0.len() % 4294967296) as u32));
    assert(d.subrange(4, 4 + dl) =~= m.0);
    assert(d.subrange(4 + dl, 12 + dl) =~= spec_u64_to_le_bytes(m.2));
    assert(d.subrange(12 + dl, d.len() as int) =~= user_bytes(m.1));
}

impl Message {
    pub fn get_id(&self) -> (r: u64)
        ensures
            r == self.id,
    {
        self.id
    }

    /// The wire form of this record.
    pub fn serialize(&self) -> (r: Vec<u8>)
        ensures
            r@ == message_bytes(self@),
    {
        let mut out = u32_to_le_bytes((self.data.len() as u64 % 4294967296) as u32);
        append_bytes(&mut out, self.data.as_slice());
        let id = u64_to_le_bytes(self.id);
        append_bytes(&mut out, id.as_slice());
        let author = self.author.serialize();
        append_bytes(&mut out, author.as_slice());
        assert(out@ =~= message_bytes(self@));
        out
    }

    /// Reads a record from its wire form; an error for bytes that are not
    /// laid out as a record.
    pub fn deserialize(data: &[u8]) -> (r: Result<Message, DecodeError>)
        ensures
            r is Ok <==> message_accepts(data@),
            r matches Ok(m) ==> m@ == parsed_message(data@),
    {
        let len = data.len();
        if len < 4 {
            return Err(DecodeError::Length);
        }
        let dl = u32_from_le_bytes(slice_subrange(data, 0, 4)) as usize;
        if len - 4 < dl || len - 4 - dl < 8 {
            return Err(DecodeError::Length);
        }
        let payload = slice_to_vec(slice_subrange(data, 4, 4 + dl));
        let id = u64_from_le_bytes(slice_subrange(data, 4 + dl, 12 + dl));
        let author = User::deserialize(slice_subrange(data, 12 + dl, len))?;
        Ok(Message { data: payload, author, id })
    }
}

} // verus!
