use log_event::event::LogEvent;
use log_event::path::Segment;
use log_event::value::{FieldMap, Value};

fn f(name: &str) -> Segment {
    Segment::field(name)
}

fn ix(i: usize) -> Segment {
    Segment::index(i)
}

fn alt(alternatives: Vec<Vec<Segment>>) -> Segment {
    Segment::coalesce(alternatives)
}

fn fields(names: &[&str]) -> Vec<Segment> {
    names.iter().map(|n| f(n)).collect()
}

#[test]
fn pruning() {
    let mut event = LogEvent::new();
    event.insert(&fields(&["foo", "bar", "baz"]), Value::Integer(1));
    assert_eq!(
        event.remove(&fields(&["foo", "bar", "baz"]), true),
        Some(Value::Integer(1))
    );
    assert!(!event.contains(&fields(&["foo", "bar"])));
    assert!(!event.contains(&fields(&["foo"])));

    let mut event = LogEvent::new();
    event.insert(&fields(&["foo", "bar"]), Value::Integer(1));
    assert_eq!(event.remove(&fields(&["foo", "bar"]), true), Some(Value::Integer(1)));
    assert!(!event.contains(&fields(&["foo"])));
}

#[test]
fn iteratively_populate_array() {
    let mut event = LogEvent::new();
    let lookups = vec![
        vec![f("root"), f("nested"), ix(0)],
        vec![f("root"), f("nested"), ix(1)],
        vec![f("root"), f("nested"), ix(2)],
        vec![f("other"), ix(1), ix(0)],
        vec![f("other"), ix(1), ix(1), f("a")],
        vec![f("other"), ix(1), ix(1), f("b")],
    ];
    let value = Value::Boolean(true);
    for lookup in lookups.iter() {
        event.insert(lookup, value.clone());
    }
    let keys = event.keys(true);
    for lookup in lookups.iter() {
        assert!(keys.contains(lookup), "Failed while looking for {:?}", lookup);
    }
}

#[test]
fn iteratively_populate_array_reverse() {
    let mut event = LogEvent::new();
    let lookups = vec![
        vec![f("root"), f("nested"), ix(1)],
        vec![f("root"), f("nested"), ix(0)],
        vec![f("other"), ix(1), ix(1)],
        vec![f("other"), ix(0), ix(1), f("a")],
    ];
    let value = Value::Boolean(true);
    for lookup in lookups.iter() {
        event.insert(lookup, value.clone());
    }
    let keys = event.keys(false);
    for lookup in lookups.iter() {
        assert!(
            keys.contains(lookup),
            "Failed while looking for {:?} in {:?}",
            lookup,
            keys
        );
    }
}

#[test]
fn iteratively_populate_map() {
    let mut event = LogEvent::new();
    let lookups = vec![
        vec![f("root"), f("one")],
        vec![f("root"), f("two")],
        vec![f("root"), f("three"), f("a")],
        vec![f("root"), f("three"), f("b")],
        vec![f("root"), f("three"), f("c")],
        vec![f("root"), f("four"), ix(0)],
        vec![f("root"), f("four"), ix(1)],
        vec![f("root"), f("four"), ix(2)],
    ];
    let value = Value::Boolean(true);
    for lookup in lookups.iter() {
        event.insert(lookup, value.clone());
    }
    let keys = event.keys(true);
    for lookup in lookups.iter() {
        assert!(keys.contains(lookup), "Failed while looking for {:?}", lookup);
    }
}

#[test]
fn keys_and_pairs() {
    let mut event = LogEvent::new();
    event.insert(&vec![f("snooper"), f("booper"), ix(1), ix(2)], Value::Null);
    event.insert(&vec![f("whomp"), ix(1), f("glomp"), ix(1)], Value::Null);
    event.insert(&vec![f("zoop")], Value::Null);

    let keys = event.keys(false);
    let pairs = event.pairs(false);
    let expected: Vec<Vec<Segment>> = vec![
        vec![f("snooper")],
        vec![f("snooper"), f("booper")],
        vec![f("snooper"), f("booper"), ix(0)],
        vec![f("snooper"), f("booper"), ix(1)],
        vec![f("snooper"), f("booper"), ix(1), ix(0)],
        vec![f("snooper"), f("booper"), ix(1), ix(1)],
        vec![f("snooper"), f("booper"), ix(1), ix(2)],
        vec![f("whomp")],
        vec![f("whomp"), ix(0)],
        vec![f("whomp"), ix(1)],
        vec![f("whomp"), ix(1), f("glomp")],
        vec![f("whomp"), ix(1), f("glomp"), ix(0)],
        vec![f("whomp"), ix(1), f("glomp"), ix(1)],
        vec![f("zoop")],
    ];
    assert_eq!(keys.len(), expected.len());
    assert_eq!(pairs.len(), expected.len());
    for (i, path) in expected.iter().enumerate() {
        assert_eq!(&keys[i], path);
        assert_eq!(&pairs[i].0, path);
    }
}

#[test]
fn keys_only_leaves_are_the_inserted_paths() {
    let mut event = LogEvent::new();
    let inserted = vec![
        vec![f("snooper"), f("booper"), ix(1), ix(2)],
        vec![f("whomp"), ix(1), f("glomp"), ix(1)],
        vec![f("zoop")],
    ];
    for p in inserted.iter() {
        event.insert(p, Value::Integer(7));
    }
    // The null fillers of the arrays are leaves too.
    let keys = event.keys(true);
    let expected: Vec<Vec<Segment>> = vec![
        vec![f("snooper"), f("booper"), ix(0)],
        vec![f("snooper"), f("booper"), ix(1), ix(0)],
        vec![f("snooper"), f("booper"), ix(1), ix(1)],
        vec![f("snooper"), f("booper"), ix(1), ix(2)],
        vec![f("whomp"), ix(0)],
        vec![f("whomp"), ix(1), f("glomp"), ix(0)],
        vec![f("whomp"), ix(1), f("glomp"), ix(1)],
        vec![f("zoop")],
    ];
    assert_eq!(keys, expected);
    for p in inserted.iter() {
        assert!(keys.contains(p));
    }
}

#[test]
fn pairs_carry_values() {
    let mut event = LogEvent::new();
    event.insert(&fields(&["lick"]), Value::Integer(1));
    event.insert(&fields(&["vic", "stick", "slam"]), Value::Integer(2));
    let pairs = event.pairs(true);
    assert_eq!(pairs.len(), 2);
    assert_eq!(pairs[0].0, fields(&["lick"]));
    assert_eq!(pairs[0].1, &Value::Integer(1));
    assert_eq!(pairs[1].0, fields(&["vic", "stick", "slam"]));
    assert_eq!(pairs[1].1, &Value::Integer(2));
    let all = event.pairs(false);
    let names: Vec<Vec<Segment>> = all.iter().map(|p| log_event::path::copy_path(&p.0)).collect();
    assert_eq!(
        names,
        vec![
            fields(&["lick"]),
            fields(&["vic"]),
            fields(&["vic", "stick"]),
            fields(&["vic", "stick", "slam"]),
        ]
    );
}

#[test]
fn pruning_off_keeps_empty_containers() {
    let mut event = LogEvent::new();
    event.insert(&fields(&["foo", "bar", "baz"]), Value::Integer(1));
    assert_eq!(
        event.remove(&fields(&["foo", "bar", "baz"]), false),
        Some(Value::Integer(1))
    );
    assert!(event.contains(&fields(&["foo", "bar"])));
    assert!(event.contains(&fields(&["foo"])));
    assert_eq!(
        event.get(&fields(&["foo", "bar"])),
        Some(&Value::Object(FieldMap::new()))
    );
}

#[test]
fn pruning_stops_at_a_container_with_other_content() {
    let mut event = LogEvent::new();
    event.insert(&fields(&["foo", "bar", "baz"]), Value::Integer(1));
    event.insert(&fields(&["foo", "other"]), Value::Integer(2));
    assert_eq!(
        event.remove(&fields(&["foo", "bar", "baz"]), true),
        Some(Value::Integer(1))
    );
    assert!(!event.contains(&fields(&["foo", "bar"])));
    assert_eq!(event.get(&fields(&["foo", "other"])), Some(&Value::Integer(2)));
}

#[test]
fn coalesce_get_prefers_the_present_alternative() {
    let mut event = LogEvent::new();
    event.insert(&fields(&["boot", "loot"]), Value::Integer(3));
    let lookup = vec![alt(vec![vec![f("snoot")], vec![f("boot")]]), f("loot")];
    assert_eq!(event.get(&lookup), Some(&Value::Integer(3)));
    assert!(event.contains(&lookup));
}

#[test]
fn coalesce_insert_when_every_alternative_is_taken_is_dropped() {
    let mut event = LogEvent::new();
    let lookup = vec![alt(vec![vec![f("a")], vec![f("b")]])];
    assert_eq!(event.insert(&lookup, Value::Integer(1)), None);
    assert_eq!(event.insert(&lookup, Value::Integer(2)), None);
    assert_eq!(event.insert(&lookup, Value::Integer(3)), None);
    assert_eq!(event.get(&fields(&["a"])), Some(&Value::Integer(1)));
    assert_eq!(event.get(&fields(&["b"])), Some(&Value::Integer(2)));
    assert_eq!(event.inner().len(), 2);
}

#[test]
fn coalesce_with_no_present_alternative_finds_nothing() {
    let mut event = LogEvent::new();
    let lookup = vec![alt(vec![vec![f("a")], vec![f("b")]])];
    assert_eq!(event.get(&lookup), None);
    assert_eq!(event.remove(&lookup, true), None);
    assert!(event.is_empty());
}

#[test]
fn index_first_at_the_root_is_not_found() {
    let mut event = LogEvent::new();
    event.insert(&fields(&["a"]), Value::Integer(1));
    assert_eq!(event.get(&vec![ix(0)]), None);
    assert_eq!(event.insert(&vec![ix(0)], Value::Integer(2)), None);
    assert_eq!(event.remove(&vec![ix(0)], false), None);
    assert_eq!(event.inner().len(), 1);
}

#[test]
fn insert_through_a_scalar_is_a_no_op() {
    let mut event = LogEvent::new();
    event.insert(&fields(&["a"]), Value::Integer(1));
    assert_eq!(event.insert(&fields(&["a", "b"]), Value::Integer(2)), None);
    assert_eq!(event.get(&fields(&["a"])), Some(&Value::Integer(1)));
    assert_eq!(event.get(&fields(&["a", "b"])), None);
}

#[test]
fn insert_replaces_and_returns_the_old_value() {
    let mut event = LogEvent::new();
    assert_eq!(event.insert(&fields(&["a", "b"]), Value::Integer(1)), None);
    assert_eq!(
        event.insert(&fields(&["a", "b"]), Value::Integer(2)),
        Some(Value::Integer(1))
    );
    assert_eq!(event.get(&fields(&["a", "b"])), Some(&Value::Integer(2)));
}

#[test]
fn array_gap_is_filled_with_null() {
    let mut event = LogEvent::new();
    event.insert(&vec![f("root"), ix(2)], Value::Integer(9));
    let root = event.inner().get("root").unwrap().as_array().unwrap();
    assert_eq!(root, &vec![Value::Null, Value::Null, Value::Integer(9)]);
    event.insert(&vec![f("root"), ix(0)], Value::Integer(5));
    event.insert(&vec![f("root"), ix(1)], Value::Integer(6));
    let root = event.inner().get("root").unwrap().as_array().unwrap();
    assert_eq!(
        root,
        &vec![Value::Integer(5), Value::Integer(6), Value::Integer(9)]
    );
}

#[test]
fn fields_are_kept_in_name_order() {
    let mut event = LogEvent::new();
    for name in ["zeta", "alpha", "mu", "Beta", "alphabet"] {
        event.insert(&fields(&[name]), Value::Boolean(false));
    }
    let keys = event.keys(false);
    let expected: Vec<Vec<Segment>> = ["Beta", "alpha", "alphabet", "mu", "zeta"]
        .iter()
        .map(|n| fields(&[n]))
        .collect();
    assert_eq!(keys, expected);
}

#[test]
fn quoting_is_transparent() {
    let mut event = LogEvent::new();
    let quoted = vec![f("root"), Segment::quoted_field("doot")];
    event.insert(&quoted, Value::Integer(4));
    assert_eq!(event.get(&fields(&["root", "doot"])), Some(&Value::Integer(4)));
    assert_eq!(
        event.inner().get("root").unwrap().as_object().unwrap().get("doot"),
        Some(&Value::Integer(4))
    );
}

#[test]
fn get_mut_writes_into_the_event() {
    let mut event = LogEvent::new();
    event.insert(&vec![f("a"), ix(1), f("b")], Value::Integer(1));
    if let Some(v) = event.get_mut(&vec![f("a"), ix(1), f("b")]) {
        *v = Value::Integer(10);
    }
    assert_eq!(
        event.get(&vec![f("a"), ix(1), f("b")]),
        Some(&Value::Integer(10))
    );
    assert_eq!(event.get_mut(&vec![f("missing")]), None);
}

#[test]
fn take_and_inner_mut() {
    let mut event = LogEvent::new();
    assert!(event.is_empty());
    event.insert(&fields(&["a"]), Value::Bytes(vec![1, 2]));
    assert!(!event.is_empty());
    event.inner_mut().clear();
    assert!(event.is_empty());
    event.insert(&fields(&["b"]), Value::Timestamp(5));
    let map = event.take();
    assert_eq!(map.len(), 1);
    assert_eq!(map.get("b"), Some(&Value::Timestamp(5)));
    let again = LogEvent::from_fields(map);
    assert_eq!(again.get(&fields(&["b"])), Some(&Value::Timestamp(5)));
}

#[test]
fn clone_is_deep() {
    let mut event = LogEvent::new();
    event.insert(&vec![f("a"), ix(0), f("b")], Value::Bytes(vec![7]));
    let copy = event.inner().get("a").unwrap().clone();
    assert_eq!(&copy, event.inner().get("a").unwrap());
    event.insert(&vec![f("a"), ix(0), f("b")], Value::Null);
    assert_ne!(&copy, event.inner().get("a").unwrap());
}

#[test]
fn nested_group_in_an_alternative_is_resolved() {
    let mut event = LogEvent::new();
    event.insert(&fields(&["x"]), Value::Integer(1));
    let inner = alt(vec![vec![f("x")]]);
    let lookup = vec![alt(vec![vec![inner]])];
    assert_eq!(event.get(&lookup), Some(&Value::Integer(1)));
    assert!(event.contains(&lookup));
    assert_eq!(event.remove(&lookup, false), Some(Value::Integer(1)));
    assert!(event.is_empty());
}

#[test]
fn nested_group_chooses_the_container_kind() {
    let mut event = LogEvent::new();
    let inner = alt(vec![vec![ix(1)]]);
    let lookup = vec![f("f"), alt(vec![vec![inner]])];
    assert_eq!(event.insert(&lookup, Value::Integer(5)), None);
    assert_eq!(
        event.inner().get("f").unwrap().as_array().unwrap(),
        &vec![Value::Null, Value::Integer(5)]
    );
    let inner = alt(vec![vec![f("k")]]);
    let lookup = vec![f("g"), alt(vec![vec![inner]])];
    event.insert(&lookup, Value::Integer(6));
    assert_eq!(event.get(&fields(&["g", "k"])), Some(&Value::Integer(6)));
}

#[test]
fn nested_group_after_a_field_distributes_inserts() {
    let mut event = LogEvent::new();
    let inner = alt(vec![vec![f("a")], vec![f("b")]]);
    let lookup = vec![f("root"), alt(vec![vec![inner], vec![f("c")]])];
    // The inner group counts as taken once one of its alternatives is.
    assert_eq!(event.insert(&lookup, Value::Integer(1)), None);
    assert_eq!(event.insert(&lookup, Value::Integer(2)), None);
    assert_eq!(event.insert(&lookup, Value::Integer(3)), None);
    assert_eq!(event.get(&fields(&["root", "a"])), Some(&Value::Integer(1)));
    assert_eq!(event.get(&fields(&["root", "b"])), None);
    assert_eq!(event.get(&fields(&["root", "c"])), Some(&Value::Integer(2)));
}

#[test]
fn get_mut_refuses_a_path_that_addresses_the_root() {
    let mut event = LogEvent::new();
    event.insert(&fields(&["a"]), Value::Integer(1));
    let lookup = vec![alt(vec![vec![]])];
    assert_eq!(event.get_mut(&lookup), None);
}

#[test]
fn extend_inserts_in_turn() {
    let mut event = LogEvent::new();
    event.extend(vec![
        (fields(&["a", "b"]), Value::Integer(1)),
        (vec![f("c"), ix(1)], Value::Integer(2)),
        (fields(&["a", "b"]), Value::Integer(3)),
    ]);
    assert_eq!(event.get(&fields(&["a", "b"])), Some(&Value::Integer(3)));
    assert_eq!(event.get(&vec![f("c"), ix(1)]), Some(&Value::Integer(2)));
    assert_eq!(event.get(&vec![f("c"), ix(0)]), Some(&Value::Null));
}
