use loki::codec::DecodeError;
use loki::user::User;

#[test]
fn test_equivalent() {
    let user1 = User::from("tudbut".to_owned(), "test.lokichat.xyz".to_owned(), false, 0);
    let user2 = User::from("tudbut".to_owned(), "test.lokichat.xyz".to_owned(), false, 0);

    assert_eq!(user1, user2);
}

#[test]
fn user_test_serialize() {
    let user1 = User::from("tudbut".to_owned(), "test.lokichat.xyz".to_owned(), false, 0);
    let serialized = user1.serialize();

    let user2 = User::deserialize(&serialized).unwrap();

    assert_eq!(user1, user2);
}

#[test]
fn user_wire_layout() {
    let u = User::from("ab".to_owned(), "c".to_owned(), true, 1);
    assert_eq!(u.serialize(), vec![2, 0, 97, 98, 1, 0, 99, 1, 1, 0, 0, 0, 0, 0, 0, 0]);
    assert_eq!(u.get_id(), 1);
}

#[test]
fn user_round_trip_non_ascii() {
    let u = User::from("zoë".to_owned(), "ünï.example".to_owned(), true, u64::MAX);
    assert_eq!(User::deserialize(&u.serialize()), Ok(u));
}

#[test]
fn user_nonzero_flag_is_bot() {
    let bytes = vec![0, 0, 0, 0, 7, 9, 0, 0, 0, 0, 0, 0, 0];
    let u = User::deserialize(&bytes).unwrap();
    assert!(u.bot);
    assert_eq!(u.id, 9);
    assert_eq!(u.name, "");
}

#[test]
fn user_truncated_is_refused() {
    let u = User::from("ab".to_owned(), "c".to_owned(), true, 1);
    let bytes = u.serialize();
    assert_eq!(User::deserialize(&bytes[..bytes.len() - 1]), Err(DecodeError::Length));
    assert_eq!(User::deserialize(&[]), Err(DecodeError::Length));
    assert_eq!(User::deserialize(&[5, 0, 1]), Err(DecodeError::Length));
    let mut longer = bytes.clone();
    longer.push(0);
    assert_eq!(User::deserialize(&longer), Err(DecodeError::Length));
}

#[test]
fn user_bad_utf8_is_refused() {
    let bytes = vec![1, 0, 0xff, 0, 0, 0, 0, 0, 0, 0, 0, 0, 0, 0];
    assert_eq!(User::deserialize(&bytes), Err(DecodeError::Utf8));
}

#[test]
fn user_name_longer_than_prefix_does_not_round_trip() {
    let u = User::from("x".repeat(65536), "h".to_owned(), false, 0);
    let bytes = u.serialize();
    // The length prefix holds the length modulo 2^16.
    assert_eq!(&bytes[..2], &[0, 0]);
    assert!(User::deserialize(&bytes).is_err());
}
