use log_event::event::LogEvent;
use log_event::path::Segment;
use log_event::value::{EntryError, Value};

fn fields(names: &[&str]) -> Vec<Segment> {
    names.iter().map(|n| Segment::field(n)).collect()
}

#[test]
fn entry_edits_an_existing_map_in_place() {
    let mut event = LogEvent::new();
    event.insert(&fields(&["a", "b", "c"]), Value::Integer(1));
    let map = event.entry(&fields(&["a", "b", "d"])).expect("reachable");
    assert_eq!(map.get("c"), Some(&Value::Integer(1)));
    assert_eq!(map.set("d".to_owned(), Value::Integer(2)), None);
    assert_eq!(event.get(&fields(&["a", "b", "d"])), Some(&Value::Integer(2)));
    let map = event.entry(&fields(&["a", "b", "c"])).expect("reachable");
    assert_eq!(
        map.set("c".to_owned(), Value::Integer(3)),
        Some(Value::Integer(1))
    );
    assert_eq!(event.get(&fields(&["a", "b", "c"])), Some(&Value::Integer(3)));
}

#[test]
fn entry_at_the_root() {
    let mut event = LogEvent::new();
    let map = event.entry(&fields(&["top"])).expect("reachable");
    assert_eq!(map.len(), 0);
    map.set("top".to_owned(), Value::Boolean(true));
    assert_eq!(event.get(&fields(&["top"])), Some(&Value::Boolean(true)));
}

#[test]
fn entry_does_not_create_missing_fields() {
    let mut event = LogEvent::new();
    let err = event.entry(&fields(&["a", "b"])).unwrap_err();
    assert_eq!(
        err,
        EntryError::Missing { field: "b".to_owned(), parent: "a".to_owned() }
    );
    assert_eq!(err.message(), "Tried to step into `b` of `a`, but it did not exist.");
    assert!(event.is_empty());
}

#[test]
fn entry_refuses_non_maps() {
    let mut event = LogEvent::new();
    event.insert(&fields(&["a"]), Value::Integer(1));
    let err = event.entry(&fields(&["a", "b"])).unwrap_err();
    assert_eq!(err, EntryError::NotAMap);
    assert_eq!(err.message(), "Looking up field on a non-map value.");
}

#[test]
fn entry_refuses_indices_and_groups() {
    let mut event = LogEvent::new();
    event.insert(&vec![Segment::field("a"), Segment::index(0)], Value::Integer(1));
    let err = event
        .entry(&vec![Segment::field("a"), Segment::index(0)])
        .unwrap_err();
    assert_eq!(err, EntryError::NotAField);
    let group = Segment::coalesce(vec![fields(&["a"])]);
    assert_eq!(event.entry(&vec![group]).unwrap_err(), EntryError::NotAField);
    assert_eq!(event.entry(&vec![Segment::index(0)]).unwrap_err(), EntryError::NotAField);
}
