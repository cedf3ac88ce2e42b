use std::time::SystemTime;

use loki::snowflake::{SnowHash, Snowflake};

#[test]
fn snowflakes() {
    println!("generated snowflake for tudbut.de: {}", u64::from(Snowflake::new("tudbut.de", 0).unwrap()));
    println!("generated snowflake for lokichat.wtf: {}", u64::from(Snowflake::new("lokichat.wtf", 1).unwrap()));
    println!(
        "snowflake time in days since last wrap or UNIX: {}",
        Snowflake::from(u64::from(Snowflake::new("tudbut.de", 2).unwrap())).time / 1000 / 60 / 60 / 24
    );
    assert_eq!(
        Snowflake::from(u64::from(Snowflake::new("tudbut.de", 3).unwrap())).time,
        SystemTime::now().duration_since(SystemTime::UNIX_EPOCH).unwrap().as_millis() as u64
            & 0b1__11111_11111__11111_11111__11111_11111__11111_11111
    );
}

#[test]
fn snow_hash_values() {
    assert_eq!(SnowHash::from(""), 0);
    assert_eq!(SnowHash::from("ab"), 7);
    assert_eq!(SnowHash::from("a1"), 3);
    assert_eq!(SnowHash::from("aa"), 5);
    assert!(SnowHash::from("a.very.long.domain.name.example.org") < 2048);
}

#[test]
fn snowflake_packing() {
    let s = Snowflake::at("ab", 1, 2);
    assert_eq!(s.name_of_origin, 7);
    assert_eq!(u64::from(s), (1 << 23) + (7 << 11) + 2);
    let back = Snowflake::from((1u64 << 23) + (7 << 11) + 2);
    assert_eq!(back.time, 1);
    assert_eq!(back.internal_counter, (7 << 11) + 2);
}
