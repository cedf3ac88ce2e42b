use loki::ids::{id_to_parts, make_id, to_unix_time, SnowflakeGenerator, Timekeeper, WorkerContext, JAN_1_2023};

#[test]
fn test_snowflake_count() {
    let mut snowflake = SnowflakeGenerator::new();

    assert_ne!(snowflake.generate(0), snowflake.generate(0));
}

#[test]
fn test_snowflake_worker() {
    let mut snowflake = SnowflakeGenerator::new();

    assert_ne!(snowflake.generate(1), snowflake.generate(0));
}

#[test]
fn make_id_packs_fields() {
    assert_eq!(make_id(1, 2, 3), 4202499);
    assert_eq!(make_id(0, 1023, 4095), 4194303);
    // Each part is cut to its field's width.
    assert_eq!(make_id(1 << 42, 1024, 4096), 0);
}

#[test]
fn id_to_parts_splits_fields() {
    assert_eq!(id_to_parts(4202499), (1, 2, 3));
    assert_eq!(id_to_parts(u64::MAX), ((1 << 42) - 1, 1023, 4095));
}

#[test]
fn to_unix_time_adds_epoch() {
    assert_eq!(to_unix_time(5), 1672531200005);
}

#[test]
fn timekeeper_counts_within_a_millisecond() {
    let mut t = Timekeeper::starting_at(JAN_1_2023 + 10);
    let a = t.next_at(JAN_1_2023 + 10).unwrap();
    let b = t.next_at(JAN_1_2023 + 10).unwrap();
    assert_eq!((a.count, a.time_ms), (0, 10));
    assert_eq!((b.count, b.time_ms), (1, 10));
    // The clock moved on: the counter restarts.
    let c = t.next_at(JAN_1_2023 + 11).unwrap();
    assert_eq!((c.count, c.time_ms), (0, 11));
}

#[test]
fn timekeeper_refuses_time_before_epoch() {
    let mut t = Timekeeper::starting_at(0);
    assert!(t.next_at(JAN_1_2023 - 1).is_none());
    assert_eq!(t.current_count, 0);
}

#[test]
fn timekeeper_counter_wraps() {
    let mut t = Timekeeper::starting_at(JAN_1_2023);
    t.current_count = 4095;
    assert_eq!(t.next_at(JAN_1_2023).unwrap().count, 4095);
    assert_eq!(t.next_at(JAN_1_2023).unwrap().count, 0);
}

#[test]
fn ids_of_one_worker_increase() {
    let mut g = SnowflakeGenerator::new();
    let times = [JAN_1_2023 + 5, JAN_1_2023 + 5, JAN_1_2023 + 5, JAN_1_2023 + 6, JAN_1_2023 + 6, JAN_1_2023 + 9];
    let ids: Vec<u64> = times.iter().map(|t| g.generate_at(*t, 7).unwrap()).collect();
    for w in ids.windows(2) {
        assert!(w[0] < w[1]);
    }
    assert_eq!(ids[0], make_id(5, 7, 0));
    assert_eq!(ids[2], make_id(5, 7, 2));
    assert_eq!(ids[3], make_id(6, 7, 0));
}

#[test]
fn worker_context_keeps_domain() {
    let c = WorkerContext::new("example.org".to_owned(), 3);
    assert_eq!(c.server_domain, "example.org");
    assert_eq!(c.worker, 3);
}

#[test]
fn a_full_millisecond_of_ids_is_distinct() {
    let mut g = SnowflakeGenerator::new();
    let mut ids: Vec<u64> = (0..4096).map(|_| g.generate_at(JAN_1_2023 + 1, 1).unwrap()).collect();
    for w in ids.windows(2) {
        assert!(w[0] < w[1]);
    }
    ids.sort();
    ids.dedup();
    assert_eq!(ids.len(), 4096);
    // One more in the same millisecond wraps the sequence field.
    assert_eq!(g.generate_at(JAN_1_2023 + 1, 1), Some(make_id(1, 1, 0)));
}

#[test]
fn slots_wrap_after_1024() {
    let mut c = loki::ids::SlotCounter::new();
    assert_eq!(c.take(), 0);
    assert_eq!(c.take(), 1);
    for _ in 2..1024 {
        c.take();
    }
    assert_eq!(c.take(), 0);
}

#[test]
fn two_full_milliseconds_of_ids_are_distinct() {
    let mut g = SnowflakeGenerator::new();
    let mut ids: Vec<u64> = Vec::new();
    for ms in [3u64, 4] {
        for _ in 0..4096 {
            ids.push(g.generate_at(JAN_1_2023 + ms, 9).unwrap());
        }
    }
    for w in ids.windows(2) {
        assert!(w[0] < w[1]);
    }
    assert_eq!(ids[4096], make_id(4, 9, 0));
}
