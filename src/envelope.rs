//! The envelope of a message payload: plain or sealed with XChaCha20-Poly1305.
//! Wire form: the payload followed by a flag byte 0 when plain; the 24-byte
//! nonce, the ciphertext (with its tag) and a flag byte 1 when sealed.
use vstd::prelude::*;
use vstd::bytes::{u128_to_le_bytes, spec_u128_to_le_bytes};
use vstd::slice::{slice_subrange, slice_to_vec};
use vstd::utf8::encode_utf8;
use chacha20poly1305::aead::{Aead, KeyInit};
use chacha20poly1305::aead::rand_core::RngCore;
use crate::codec::{DecodeError, append_bytes};
use crate::clock::unix_nanos;

verus! {

/// The length of a nonce.
pub const NONCE_LEN: usize = 24;

/// The length of a key.
pub const KEY_LEN: usize = 32;

/// The number of 64-byte blocks from which on the cipher refuses a payload.
pub const MAX_BLOCKS: u64 = 4294967295;

/// Decryption failed: the key is wrong or the ciphertext was altered.
#[derive(Clone, Copy, Debug, PartialEq, Eq)]
pub struct InvalidKey;

/// What XChaCha20-Poly1305 makes of a plaintext under a key and a nonce: the
/// ciphertext followed by the tag.
pub uninterp spec fn sealed(key: Seq<u8>, nonce: Seq<u8>, plaintext: Seq<u8>) -> Seq<u8>;

/// Whether the cipher takes a payload of this size.
pub open spec fn sealable(plaintext: Seq<u8>) -> bool {
    plaintext.len() / 64 < MAX_BLOCKS
}

/// Relies on `XChaCha20Poly1305::new` and `Aead::encrypt` (chacha20poly1305):
/// the ciphertext and its 16-byte tag, which depend on key, nonce and
/// plaintext alone; an error only for a plaintext of 2^32 - 1 blocks or more.
#[verifier::external_body]
fn seal(key: &[u8], nonce: &[u8], plaintext: &[u8]) -> (r: Option<Vec<u8>>)
    requires
        key@.len() == KEY_LEN,
        nonce@.len() == NONCE_LEN,
    ensures
        r is Some <==> sealable(plaintext@),
        r matches Some(c) ==> c@ == sealed(key@, nonce@, plaintext@),
        r matches Some(c) ==> c@.len() == plaintext@.len() + 16,
{
    let cipher = chacha20poly1305::XChaCha20Poly1305::new(chacha20poly1305::Key::from_slice(key));
    cipher.encrypt(chacha20poly1305::XNonce::from_slice(nonce), plaintext).ok()
}

/// Relies on `XChaCha20Poly1305::new` and `Aead::decrypt` (chacha20poly1305):
/// what `Aead::encrypt` sealed under the same key and nonce opens to the
/// plaintext it sealed; and what opens, opens only after the tag checked
/// out, to the plaintext that seals to the ciphertext given.
#[verifier::external_body]
fn unseal(key: &[u8], nonce: &[u8], ciphertext: &[u8]) -> (r: Option<Vec<u8>>)
    requires
        key@.len() == KEY_LEN,
        nonce@.len() == NONCE_LEN,
    ensures
        forall|p: Seq<u8>|
            sealable(p) && #[trigger] sealed(key@, nonce@, p) == ciphertext@ ==> (r is Some
                && r->Some_0@ == p),
        r is Some ==> sealable(r->Some_0@) && sealed(key@, nonce@, r->Some_0@) == ciphertext@,
{
    let cipher = chacha20poly1305::XChaCha20Poly1305::new(chacha20poly1305::Key::from_slice(key));
    cipher.decrypt(chacha20poly1305::XNonce::from_slice(nonce), ciphertext).ok()
}

/// Relies on `OsRng::try_fill_bytes` (rand_core, through chacha20poly1305):
/// eight bytes from the operating system's random source, or `None` when it
/// fails. Nothing is known of the bytes.
#[verifier::external_body]
fn random_eight() -> (r: Option<Vec<u8>>)
    ensures
        r matches Some(b) ==> b@.len() == 8,
{
    let mut buf = [0u8; 8];
    match chacha20poly1305::aead::OsRng.try_fill_bytes(&mut buf) {
        Ok(()) => Some(buf.to_vec()),
        Err(_) => None,
    }
}

/// A nonce made of a timestamp (16 bytes, little-endian) and random bytes.
pub open spec fn timed_nonce(timestamp: u128, random: Seq<u8>) -> Seq<u8> {
    spec_u128_to_le_bytes(timestamp) + random
}

/// A nonce made of a timestamp (16 bytes, little-endian) and eight random bytes.
pub fn nonce_from(timestamp: u128, random: &[u8]) -> (n: Vec<u8>)
    requires
        random@.len() == 8,
    ensures
        n@ == timed_nonce(timestamp, random@),
        n@.len() == NONCE_LEN,
{
    let mut n = u128_to_le_bytes(timestamp);
    proof {
        vstd::bytes::lemma_auto_spec_u128_to_from_le_bytes();
    }
    append_bytes(&mut n, random);
    n
}

/// An envelope as mathematical values: payload, nonce, and whether it is sealed.
pub type EnvelopeView = (Seq<u8>, Option<Seq<u8>>, bool);

/// A message payload, plain or sealed.
pub struct Message {
    data: Vec<u8>,
    nonce: Option<Vec<u8>>,
    encrypted: bool,
}

impl View for Message {
    type V = EnvelopeView;

    closed spec fn view(&self) -> EnvelopeView {
        (
            self.data@,
            match self.nonce {
                Some(n) => Some(n@),
                None => None,
            },
            self.encrypted,
        )
    }
}

/// Well-formed: a sealed envelope has a nonce of 24 bytes, a plain one none.
pub open spec fn envelope_wf(m: EnvelopeView) -> bool {
    if m.2 {
        m.1 matches Some(n) && n.len() == NONCE_LEN
    } else {
        m.1 is None
    }
}

/// Whether opening `m` with `key` gives `p`: a plain envelope holds `p`, a
/// sealed one holds what sealing `p` under `key` and its nonce makes.
pub open spec fn opens_to(m: EnvelopeView, key: Seq<u8>, p: Seq<u8>) -> bool {
    if m.2 {
        sealable(p) && m.1 is Some && sealed(key, m.1->Some_0, p) == m.0
    } else {
        m.0 == p
    }
}

/// The wire form of an envelope.
pub open spec fn envelope_bytes(m: EnvelopeView) -> Seq<u8> {
    if m.2 {
        m.1->Some_0 + m.0 + seq![1u8]
    } else {
        m.0 + seq![0u8]
    }
}

/// Whether `data` is the wire form of an envelope.
pub open spec fn envelope_accepts(data: Seq<u8>) -> bool {
    data.len() > 0 && (data.last() == 0 || (data.last() == 1 && data.len() > NONCE_LEN))
}

/// The envelope that an accepted wire form describes.
pub open spec fn parsed_envelope(data: Seq<u8>) -> EnvelopeView {
    if data.last() == 0 {
        (data.drop_last(), None, false)
    } else {
        (data.subrange(NONCE_LEN as int, data.len() - 1), Some(data.take(NONCE_LEN as int)), true)
    }
}

/// Round trip: the wire form of a well-formed envelope is accepted and read
/// back as the same envelope.
pub proof fn lemma_envelope_round_trip(m: EnvelopeView)
    requires
        envelope_wf(m),
    ensures
        envelope_accepts(envelope_bytes(m)),
        parsed_envelope(envelope_bytes(m)) == m,
{
    let d = envelope_bytes(m);
    if m.2 {
        let n = m.1->Some_0;
        assert(d.take(NONCE_LEN as int) =~= n);
        assert(d.subrange(NONCE_LEN as int, d.len() - 1) =~= m.0);
    } else {
        assert(d.drop_last() =~= m.0);
    }
}

impl Message {
    /// A plain envelope of `data`'s UTF-8 bytes.
    pub fn new(data: String) -> (m: Message)
        ensures
            m@ == (encode_utf8(data@), None::<Seq<u8>>, false),
    {
        Message { data: slice_to_vec(data.as_str().as_bytes()), nonce: None, encrypted: false }
    }

    /// Seals `data` under `key` with the given nonce, or with one made of the
    /// current time in nanoseconds and eight random bytes. `None` when the
    /// payload is too long for the cipher, or, without a given nonce, when the
    /// clock reads a time before 1970 or the random source fails.
    pub fn encrypt(key: &[u8], data: String, raw_nonce: Option<&[u8]>) -> (r: Option<Message>)
        requires
            key@.len() == KEY_LEN,
            raw_nonce matches Some(n) ==> n@.len() == NONCE_LEN,
        ensures
            r is Some ==> envelope_wf(r->Some_0@) && r->Some_0@.2 && opens_to(r->Some_0@, key@, encode_utf8(data@)),
            r is Some ==> r->Some_0@.0.len() == encode_utf8(data@).len() + 16,
            raw_nonce is Some ==> (r is Some <==> sealable(encode_utf8(data@))),
            raw_nonce is Some && r is Some ==> r->Some_0@.1 == Some(raw_nonce->Some_0@),
            raw_nonce is None && r is Some ==> exists|t: u128, b: Seq<u8>|
                b.len() == 8 && r->Some_0@.1 == Some(#[trigger] timed_nonce(t, b)),
    {
        let nonce: Vec<u8> = match raw_nonce {
            Some(n) => slice_to_vec(n),
            None => {
                let t = match unix_nanos() {
                    Some(t) => t,
                    None => return None,
                };
                let b = match random_eight() {
                    Some(b) => b,
                    None => return None,
                };
                nonce_from(t, b.as_slice())
            },
        };
        let plain = data.as_str().as_bytes();
        match seal(key, nonce.as_slice(), plain) {
            Some(c) => Some(Message { data: c, nonce: Some(nonce), encrypted: true }),
            None => None,
        }
    }

    /// Reads an envelope from its wire form; an error for bytes that are
    /// not one.
    pub fn deserialize(msg: Vec<u8>) -> (r: Result<Message, DecodeError>)
        ensures
            r is Ok <==> envelope_accepts(msg@),
            r is Ok ==> r->Ok_0@ == parsed_envelope(msg@) && envelope_wf(r->Ok_0@),
    {
        let len = msg.len();
        if len == 0 {
            return Err(DecodeError::Length);
        }
        let flag = msg[len - 1];
        if flag == 0 {
            let data = slice_to_vec(slice_subrange(msg.as_slice(), 0, len - 1));
            assert(data@ =~= msg@.drop_last());
            Ok(Message { data, nonce: None, encrypted: false })
        } else if flag == 1 {
            if len <= NONCE_LEN {
                return Err(DecodeError::Length);
            }
            let nonce = slice_to_vec(slice_subrange(msg.as_slice(), 0, NONCE_LEN));
            let data = slice_to_vec(slice_subrange(msg.as_slice(), NONCE_LEN, len - 1));
            assert(nonce@ =~= msg@.take(NONCE_LEN as int));
            Ok(Message { data, nonce: Some(nonce), encrypted: true })
        } else {
            Err(DecodeError::Flag)
        }
    }

    /// The wire form of this envelope.
    pub fn serialize(&self) -> (r: Vec<u8>)
        requires
            envelope_wf(self@),
        ensures
            r@ == envelope_bytes(self@),
    {
        let mut out: Vec<u8> = Vec::new();
        match &self.nonce {
            Some(n) => {
                if self.encrypted {
                    append_bytes(&mut out, n.as_slice());
                }
            },
            None => {},
        }
        append_bytes(&mut out, self.data.as_slice());
        out.push(if self.encrypted { 1u8 } else { 0u8 });
        assert(out@ =~= envelope_bytes(self@));
        out
    }

    /// The payload in plain: as it is when plain, opened with `key` when
    /// sealed; `InvalidKey` when it does not open.
    pub fn retrieve(&self, key: &[u8]) -> (r: Result<Vec<u8>, InvalidKey>)
        requires
            self@.2 ==> key@.len() == KEY_LEN,
            envelope_wf(self@),
        ensures
            forall|p: Seq<u8>| #[trigger] opens_to(self@, key@, p) ==> (r is Ok && r->Ok_0@ == p),
            !self@.2 ==> (r is Ok && r->Ok_0@ == self@.0),
            r is Ok ==> opens_to(self@, key@, r->Ok_0@),
    {
        if !self.encrypted {
            Ok(slice_to_vec(self.data.as_slice()))
        } else {
            match &self.nonce {
                Some(n) => match unseal(key, n.as_slice(), self.data.as_slice()) {
                    Some(p) => Ok(p),
                    None => Err(InvalidKey),
                },
                None => Err(InvalidKey),
            }
        }
    }
}

} // verus!
