use loki::codec::DecodeError;
use loki::envelope::{nonce_from, InvalidKey, Message as Envelope};

#[test]
fn plain_envelope_wire_form() {
    let m = Envelope::new("hi".to_owned());
    assert_eq!(m.serialize(), vec![104, 105, 0]);
    assert_eq!(m.retrieve(&[0u8; 32]), Ok(vec![104, 105]));
    // A plain envelope needs no key of any particular length.
    assert_eq!(m.retrieve(&[1, 2, 3]), Ok(vec![104, 105]));
    assert_eq!(m.retrieve(&[]), Ok(vec![104, 105]));
}

#[test]
fn plain_envelope_round_trip() {
    let m = Envelope::deserialize(vec![1, 2, 3, 0]).unwrap();
    assert_eq!(m.serialize(), vec![1, 2, 3, 0]);
    assert_eq!(m.retrieve(&[0u8; 32]), Ok(vec![1, 2, 3]));
}

#[test]
fn sealed_envelope_round_trip() {
    let key = [7u8; 32];
    let nonce = [1u8; 24];
    let m = Envelope::encrypt(&key, "hello".to_owned(), Some(&nonce)).unwrap();
    let bytes = m.serialize();
    assert_eq!(bytes.len(), 24 + 5 + 16 + 1);
    assert_eq!(&bytes[..24], &nonce);
    assert_eq!(bytes[bytes.len() - 1], 1);
    // The ciphertext is not the plaintext.
    assert_ne!(&bytes[24..29], b"hello");
    let back = Envelope::deserialize(bytes.clone()).unwrap();
    assert_eq!(back.serialize(), bytes);
    assert_eq!(back.retrieve(&key), Ok(b"hello".to_vec()));
}

#[test]
fn sealing_is_deterministic_for_a_nonce() {
    let key = [3u8; 32];
    let nonce = [2u8; 24];
    let a = Envelope::encrypt(&key, "same".to_owned(), Some(&nonce)).unwrap();
    let b = Envelope::encrypt(&key, "same".to_owned(), Some(&nonce)).unwrap();
    assert_eq!(a.serialize(), b.serialize());
}

#[test]
fn wrong_key_is_invalid() {
    let m = Envelope::encrypt(&[7u8; 32], "secret".to_owned(), Some(&[1u8; 24])).unwrap();
    assert_eq!(m.retrieve(&[8u8; 32]), Err(InvalidKey));
}

#[test]
fn tampered_ciphertext_is_invalid() {
    let key = [7u8; 32];
    let mut bytes = Envelope::encrypt(&key, "secret".to_owned(), Some(&[1u8; 24])).unwrap().serialize();
    bytes[25] ^= 1;
    let m = Envelope::deserialize(bytes).unwrap();
    assert_eq!(m.retrieve(&key), Err(InvalidKey));
}

#[test]
fn generated_nonce_round_trip() {
    let key = [5u8; 32];
    let m = Envelope::encrypt(&key, "fresh".to_owned(), None).unwrap();
    assert_eq!(m.serialize().len(), 24 + 5 + 16 + 1);
    assert_eq!(m.retrieve(&key), Ok(b"fresh".to_vec()));
}

#[test]
fn nonce_layout() {
    let n = nonce_from(0x0102, &[9, 9, 9, 9, 9, 9, 9, 9]);
    assert_eq!(n, vec![2, 1, 0, 0, 0, 0, 0, 0, 0, 0, 0, 0, 0, 0, 0, 0, 9, 9, 9, 9, 9, 9, 9, 9]);
}

#[test]
fn malformed_envelopes_are_refused() {
    assert!(matches!(Envelope::deserialize(vec![]), Err(DecodeError::Length)));
    assert!(matches!(Envelope::deserialize(vec![0; 10].into_iter().chain([1]).collect()), Err(DecodeError::Length)));
    assert!(matches!(Envelope::deserialize(vec![1, 2, 7]), Err(DecodeError::Flag)));
}
