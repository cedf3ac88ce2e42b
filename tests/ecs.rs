use loki::ecs::{Archetype, Query, World};

#[test]
fn archetype_slots() {
    let mut a: Archetype<u32> = Archetype::new(1, 3);
    assert_eq!(a.get(0), None);
    a.set(5, Some(50));
    a.set(1, Some(10));
    assert_eq!(a.get(5), Some(&50));
    assert_eq!(a.get(1), Some(&10));
    assert_eq!(a.get(4), None);
    assert_eq!(a.get(9), None);
    assert_eq!(a.get_somes(), vec![&10, &50]);
    // Setting replaces; the other slots stay.
    a.set(1, Some(11));
    assert_eq!(a.get_somes(), vec![&11, &50]);
    if let Some(c) = a.get_mut(5) {
        *c += 1;
    }
    assert_eq!(a.get(5), Some(&51));
    assert_eq!(a.get_mut(2), None);
}

#[test]
fn archetype_set_unchecked_checks_kind() {
    let mut a: Archetype<u32> = Archetype::new(7, 0);
    assert_eq!(a.set_unchecked(0, 8, 1), Err(()));
    assert_eq!(a.get(0), None);
    assert_eq!(a.set_unchecked(0, 7, 1), Ok(()));
    assert_eq!(a.get(0), Some(&1));
}

#[test]
fn world_components() {
    let mut w: World<String> = World::new();
    let e0 = w.new_entity();
    let e1 = w.new_entity();
    assert_eq!((e0, e1), (0, 1));
    assert!(w.query(3).is_none());
    assert_eq!(w.insert_component_unchecked(e0, 3, "x".to_owned()), Err(()));
    w.prep_archetype(3);
    assert_eq!(w.query(3).unwrap().get_somes().len(), 0);
    assert_eq!(w.insert_component(e1, 3, "b".to_owned()), Ok(()));
    assert_eq!(w.insert_component_unchecked(e0, 3, "a".to_owned()), Ok(()));
    assert_eq!(w.query_from_entity(3, e0), Some(&"a".to_owned()));
    assert_eq!(w.query_from_entity(3, e1), Some(&"b".to_owned()));
    assert_eq!(w.query_from_entity(4, e1), None);
    if let Some(s) = w.query_from_entity_mut(3, e1) {
        s.push('!');
    }
    assert_eq!(w.query_from_entity(3, e1), Some(&"b!".to_owned()));
    assert_eq!(w.insert_component(e0, 4, "other".to_owned()), Ok(()));
    assert_eq!(w.query_mut(4).unwrap().get(e0), Some(&"other".to_owned()));
}

#[test]
fn query_takes_and_releases() {
    let mut w: World<u8> = World::new();
    let e = w.new_entity();
    w.insert_component(e, 1, 9).unwrap();
    let mut q = Query::new(&mut w, 1).unwrap();
    assert!(w.query(1).is_none());
    assert_eq!(w.insert_component_unchecked(e, 1, 4), Err(()));
    assert_eq!(w.insert_component(e, 1, 3), Err(()));
    assert!(Query::new(&mut w, 1).is_none());
    assert_eq!(q.get().get(e), Some(&9));
    q.get_mut().set(e, Some(10));
    q.release(&mut w);
    assert_eq!(w.query_from_entity(1, e), Some(&10));
    assert!(w.take(2).is_none());
    let taken = w.take(1).unwrap();
    assert_eq!(taken.get(e), Some(&10));
    w.put_back(1, taken);
    assert_eq!(w.query_from_entity(1, e), Some(&10));
}
