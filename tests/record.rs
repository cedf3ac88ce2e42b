use loki::codec::DecodeError;
use loki::record::Message;
use loki::user::User;

#[test]
fn message_test_serialize() {
    let user1 = User::from("tudbut".to_owned(), "test.lokichat.xyz".to_owned(), false, 0);

    let message = Message { data: Vec::new(), author: user1, id: 0 };

    let serialized = message.serialize();
    let deserialized = Message::deserialize(&serialized).unwrap();

    assert_eq!(deserialized, message)
}

#[test]
fn record_wire_layout() {
    let author = User::from("ab".to_owned(), "c".to_owned(), true, 1);
    let m = Message { data: vec![5], author, id: 2 };
    assert_eq!(
        m.serialize(),
        vec![1, 0, 0, 0, 5, 2, 0, 0, 0, 0, 0, 0, 0, 2, 0, 97, 98, 1, 0, 99, 1, 1, 0, 0, 0, 0, 0, 0, 0]
    );
    assert_eq!(m.get_id(), 2);
}

#[test]
fn record_round_trip_with_payload() {
    let author = User::from("x".to_owned(), "y.z".to_owned(), false, 77);
    let m = Message { data: vec![1, 2, 3, 255], author, id: 123456789 };
    assert_eq!(Message::deserialize(&m.serialize()), Ok(m));
}

#[test]
fn record_truncated_is_refused() {
    assert_eq!(Message::deserialize(&[1, 0, 0]), Err(DecodeError::Length));
    assert_eq!(Message::deserialize(&[9, 0, 0, 0, 1, 2]), Err(DecodeError::Length));
    // Payload and id are there, the author is not.
    assert_eq!(Message::deserialize(&[0, 0, 0, 0, 1, 0, 0, 0, 0, 0, 0, 0]), Err(DecodeError::Length));
}
