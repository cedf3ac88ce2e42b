//! Users and their wire form:
//! `[u16 name_len][name][u16 home_len][home][1 byte bot flag][u64 id]`,
//! all integers little-endian.
use vstd::prelude::*;
use vstd::bytes::*;
use vstd::utf8::{valid_utf8, decode_utf8, encode_utf8, encode_utf8_decode_utf8, encode_utf8_valid_utf8};
use vstd::slice::slice_subrange;
use crate::codec::{DecodeError, append_bytes, string_from_utf8};

verus! {

/// A user (also the author handle of a message).
#[derive(Clone, Debug, PartialEq, Eq)]
pub struct User {
    pub name: String,
    pub home: String,
    pub bot: bool,
    pub id: u64,
}

/// A user's fields as mathematical values.
pub type UserView = (Seq<char>, Seq<char>, bool, u64);

impl View for User {
    type V = UserView;

    open spec fn view(&self) -> UserView {
        (self.name@, self.home@, self.bot, self.id)
    }
}

/// The two-byte little-endian length prefix of a field of `n` bytes
/// (the length is taken modulo 2^16).
pub open spec fn len16(n: nat) -> Seq<u8> {
    spec_u16_to_le_bytes((n % 65536) as u16)
}

/// The wire form of a user.
pub open spec fn user_bytes(u: UserView) -> Seq<u8> {
    len16(encode_utf8(u.0).len()) + encode_utf8(u.0) + len16(encode_utf8(u.1).len()) + encode_utf8(
        u.1,
    ) + seq![if u.2 { 1u8 } else { 0u8 }] + spec_u64_to_le_bytes(u.3)
}

/// Whether each text field of a user fits a two-byte length prefix.
pub open spec fn encodable(u: UserView) -> bool {
    encode_utf8(u.0).len() < 65536 && encode_utf8(u.1).len() < 65536
}

/// The little-endian `u16` at `at`.
pub open spec fn u16_at(data: Seq<u8>, at: int) -> int {
    spec_u16_from_le_bytes(data.subrange(at, at + 2)) as int
}

/// Whether `data` is laid out as a user: length fields that match the size
/// of `data` exactly, and UTF-8 text.
pub open spec fn user_accepts(data: Seq<u8>) -> bool {
    &&& data.len() >= 2
    &&& data.len() >= 4 + u16_at(data, 0)
    &&& data.len() == 4 + u16_at(data, 0) + u16_at(data, 2 + u16_at(data, 0)) + 9
    &&& valid_utf8(data.subrange(2, 2 + u16_at(data, 0)))
    &&& valid_utf8(
        data.subrange(4 + u16_at(data, 0), 4 + u16_at(data, 0) + u16_at(data, 2 + u16_at(data, 0))),
    )
}

/// The user that bytes laid out as a user describe; a nonzero flag byte is a bot.
pub open spec fn parsed_user(data: Seq<u8>) -> UserView {
    let nl = u16_at(data, 0);
    let hl = u16_at(data, 2 + nl);
    let f = 4 + nl + hl;
    (
        decode_utf8(data.subrange(2, 2 + nl)),
        decode_utf8(data.subrange(4 + nl, f)),
        data[f] != 0,
        spec_u64_from_le_bytes(data.subrange(f + 1, f + 9)),
    )
}

/// Round trip: the wire form of a user whose text fields fit their length
/// prefixes is accepted, and read back as the same user.
pub proof fn lemma_user_round_trip(u: UserView)
    requires
        encodable(u),
    ensures
        user_accepts(user_bytes(u)),
        parsed_user(user_bytes(u)) == u,
{
    lemma_auto_spec_u16_to_from_le_bytes();
    lemma_auto_spec_u64_to_from_le_bytes();
    encode_utf8_decode_utf8(u.0);
    encode_utf8_decode_utf8(u.1);
    encode_utf8_valid_utf8(u.0);
    encode_utf8_valid_utf8(u.1);
    let n = encode_utf8(u.0);
    let h = encode_utf8(u.1);
    let d = user_bytes(u);
    let nl = n.len() as int;
    let hl = h.len() as int;
    assert(((n.len() % 65536) as u16) as int == nl);
    assert(((h.len() % 65536) as u16) as int == hl);
    assert(d.subrange(0, 2) =~= len16(n.len()));
    assert(d.subrange(2, 2 + nl) =~= n);
    assert(d.subrange(2 + nl, 4 + nl) =~= len16(h.len()));
    assert(d.subrange(4 + nl, 4 + nl + hl) =~= h);
    assert(d.subrange(5 + nl + hl, 13 + nl + hl) =~= spec_u64_to_le_bytes(u.3));
    assert(d[4 + nl + hl] == if u.2 { 1u8 } else { 0u8 });
}

impl User {
    pub fn from(name: String, home: String, bot: bool, id: u64) -> (u: User)
        ensures
            u.name == name,
            u.home == home,
            u.bot == bot,
            u.id == id,
    {
        User { name, home, bot, id }
    }

    pub fn get_id(&self) -> (r: u64)
        ensures
            r == self.id,
    {
        self.id
    }

    /// A copy of this user.
    pub fn duplicate(&self) -> (r: User)
        ensures
            r == *self,
    {
        User { name: self.name.clone(), home: self.home.clone(), bot: self.bot, id: self.id }
    }

    /// The wire form of this user.
    pub fn serialize(&self) -> (r: Vec<u8>)
        ensures
            r@ == user_bytes(self@),
    {
        let name = self.name.as_str().as_bytes();
        let home = self.home.as_str().as_bytes();
        let mut out: Vec<u8> = Vec::new();
        let nl = u16_to_le_bytes((name.len() % 65536) as u16);
        append_bytes(&mut out, nl.as_slice());
        append_bytes(&mut out, name);
        let hl = u16_to_le_bytes((home.len() % 65536) as u16);
        append_bytes(&mut out, hl.as_slice());
        append_bytes(&mut out, home);
        out.push(if self.bot { 1u8 } else { 0u8 });
        let id = u64_to_le_bytes(self.id);
        append_bytes(&mut out, id.as_slice());
        assert(out@ =~= user_bytes(self@));
        out
    }

    /// Reads a user from its wire form; an error for bytes that are not laid
    /// out as a user.
    pub fn deserialize(data: &[u8]) -> (r: Result<User, DecodeError>)
        ensures
            r is Ok <==> user_accepts(data@),
            r matches Ok(u) ==> u@ == parsed_user(data@),
    {
        let len = data.len();
        if len < 2 {
            return Err(DecodeError::Length);
        }
        let nl = u16_from_le_bytes(slice_subrange(data, 0, 2)) as usize;
        if len - 2 < nl || len - 2 - nl < 2 {
            return Err(DecodeError::Length);
        }
        let hl = u16_from_le_bytes(slice_subrange(data, 2 + nl, 4 + nl)) as usize;
        if len - 4 - nl != hl + 9 {
            return Err(DecodeError::Length);
        }
        let f = 4 + nl + hl;
        let name_bytes = vstd::slice::slice_to_vec(slice_subrange(data, 2, 2 + nl));
        let home_bytes = vstd::slice::slice_to_vec(slice_subrange(data, 4 + nl, f));
        let name = match string_from_utf8(name_bytes) {
            Some(s) => s,
            None => return Err(DecodeError::Utf8),
        };
        let home = match string_from_utf8(home_bytes) {
            Some(s) => s,
            None => return Err(DecodeError::Utf8),
        };
        let bot = data[f] != 0;
        let id = u64_from_le_bytes(slice_subrange(data, f + 1, f + 9));
        Ok(User { name, home, bot, id })
    }
}

} // verus!
