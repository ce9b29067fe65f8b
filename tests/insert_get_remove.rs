use log_event::event::LogEvent;
use log_event::path::Segment;
use log_event::value::Value;

fn f(name: &str) -> Segment {
    Segment::field(name)
}

fn ix(i: usize) -> Segment {
    Segment::index(i)
}

fn alt(alternatives: Vec<Vec<Segment>>) -> Segment {
    Segment::coalesce(alternatives)
}

fn obj(v: &Value) -> &log_event::value::FieldMap {
    v.as_object().expect("a map")
}

fn arr(v: &Value) -> &Vec<Value> {
    v.as_array().expect("an array")
}

#[test]
fn root() {
    let mut event = LogEvent::new();
    let lookup = vec![f("root")];
    let mut value = Value::Boolean(true);
    event.insert(&lookup, value.clone());
    assert_eq!(event.inner().get("root"), Some(&value));
    assert_eq!(event.get(&lookup), Some(&value));
    assert_eq!(event.get_mut(&lookup), Some(&mut value));
    assert_eq!(event.remove(&lookup, false), Some(value));
}

#[test]
fn quoted_from_str() {
    let mut event = LogEvent::new();
    let lookup = vec![f("root"), Segment::quoted_field("doot")];
    let mut value = Value::Boolean(true);
    event.insert(&lookup, value.clone());
    assert_eq!(obj(event.inner().get("root").unwrap()).get("doot"), Some(&value));
    assert_eq!(event.get(&lookup), Some(&value));
    assert_eq!(event.get_mut(&lookup), Some(&mut value));
    assert_eq!(event.remove(&lookup, false), Some(value));
}

#[test]
fn root_with_buddy() {
    let mut event = LogEvent::new();
    let lookup = vec![f("root")];
    let mut value = Value::Boolean(true);
    event.insert(&lookup, value.clone());
    assert_eq!(event.inner().get("root"), Some(&value));
    assert_eq!(event.get(&lookup), Some(&value));
    assert_eq!(event.get_mut(&lookup), Some(&mut value));
    assert_eq!(event.remove(&lookup, false), Some(value));

    let lookup = vec![f("scrubby")];
    let mut value = Value::Boolean(true);
    event.insert(&lookup, value.clone());
    assert_eq!(event.inner().get("scrubby"), Some(&value));
    assert_eq!(event.get(&lookup), Some(&value));
    assert_eq!(event.get_mut(&lookup), Some(&mut value));
    assert_eq!(event.remove(&lookup, false), Some(value));
}

#[test]
fn coalesced_root() {
    let mut event = LogEvent::new();
    let lookup = vec![alt(vec![vec![f("snoot")], vec![f("boot")]]), f("loot")];
    let mut value = Value::Boolean(true);
    event.insert(&lookup, value.clone());
    assert_eq!(obj(event.inner().get("snoot").unwrap()).get("loot"), Some(&value));
    assert_eq!(event.get(&lookup), Some(&value));
    assert_eq!(event.get_mut(&lookup), Some(&mut value));
    assert_eq!(event.remove(&lookup, false), Some(value));

    let lookup = vec![f("boot")];
    assert_eq!(event.get(&lookup), None);
}

#[test]
fn coalesced_nested() {
    let mut event = LogEvent::new();
    let lookup = vec![f("root"), alt(vec![vec![f("snoot")], vec![f("boot")]])];
    let mut value = Value::Boolean(true);
    event.insert(&lookup, value.clone());
    assert_eq!(obj(event.inner().get("root").unwrap()).get("snoot"), Some(&value));
    assert_eq!(event.get(&lookup), Some(&value));
    assert_eq!(event.get_mut(&lookup), Some(&mut value));
    assert_eq!(event.remove(&lookup, false), Some(value));

    let lookup = vec![f("root"), f("boot")];
    assert_eq!(event.get(&lookup), None);
}

#[test]
fn coalesced_with_nesting() {
    let mut event = LogEvent::new();
    let lookup = vec![
        f("root"),
        alt(vec![vec![f("snoot")], vec![f("boot"), f("beep")]]),
        f("leep"),
    ];
    let mut value = Value::Boolean(true);

    // Inserted twice on purpose: each insert fills the next vacant alternative.
    event.insert(&lookup, value.clone());
    event.insert(&lookup, value.clone());

    let root = obj(event.inner().get("root").unwrap());
    assert_eq!(obj(root.get("snoot").unwrap()).get("leep"), Some(&value));
    assert_eq!(
        obj(obj(root.get("boot").unwrap()).get("beep").unwrap()).get("leep"),
        Some(&value)
    );

    assert_eq!(event.get(&lookup), Some(&value));
    assert_eq!(event.get_mut(&lookup), Some(&mut value));
    assert_eq!(event.remove(&lookup, false), Some(value.clone()));
    // With the first alternative gone, the second one answers.
    assert_eq!(event.get(&lookup), Some(&value));
    assert_eq!(event.get_mut(&lookup), Some(&mut value));
    assert_eq!(event.remove(&lookup, false), Some(value));
}

#[test]
fn map_field() {
    let mut event = LogEvent::new();
    let lookup = vec![f("root"), f("field")];
    let mut value = Value::Boolean(true);
    event.insert(&lookup, value.clone());
    assert_eq!(obj(event.inner().get("root").unwrap()).get("field"), Some(&value));
    assert_eq!(event.get(&lookup), Some(&value));
    assert_eq!(event.get_mut(&lookup), Some(&mut value));
    assert_eq!(event.remove(&lookup, false), Some(value));
}

#[test]
fn nested_map_field() {
    let mut event = LogEvent::new();
    let lookup = vec![f("root"), f("field"), f("subfield")];
    let mut value = Value::Boolean(true);
    event.insert(&lookup, value.clone());
    let root = obj(event.inner().get("root").unwrap());
    assert_eq!(obj(root.get("field").unwrap()).get("subfield"), Some(&value));
    assert_eq!(event.get(&lookup), Some(&value));
    assert_eq!(event.get_mut(&lookup), Some(&mut value));
    assert_eq!(event.remove(&lookup, false), Some(value));
}

#[test]
fn array_field() {
    let mut event = LogEvent::new();
    let lookup = vec![f("root"), ix(0)];
    let mut value = Value::Boolean(true);
    event.insert(&lookup, value.clone());
    assert_eq!(arr(event.inner().get("root").unwrap())[0], value);
    assert_eq!(event.get(&lookup), Some(&value));
    assert_eq!(event.get_mut(&lookup), Some(&mut value));
    assert_eq!(event.remove(&lookup, false), Some(value));
}

#[test]
fn array_reverse_population() {
    let mut event = LogEvent::new();
    let lookup = vec![f("root"), ix(2)];
    let mut value = Value::Boolean(true);
    event.insert(&lookup, value.clone());
    assert_eq!(arr(event.inner().get("root").unwrap())[2], value);
    assert_eq!(event.get(&lookup), Some(&value));
    assert_eq!(event.get_mut(&lookup), Some(&mut value));
    assert_eq!(event.remove(&lookup, false), Some(value));

    let lookup = vec![f("root"), ix(1)];
    let mut value = Value::Boolean(true);
    event.insert(&lookup, value.clone());
    assert_eq!(arr(event.inner().get("root").unwrap())[1], value);
    assert_eq!(event.get(&lookup), Some(&value));
    assert_eq!(event.get_mut(&lookup), Some(&mut value));
    assert_eq!(event.remove(&lookup, false), Some(value));

    let lookup = vec![f("root"), ix(0)];
    let mut value = Value::Boolean(true);
    event.insert(&lookup, value.clone());
    assert_eq!(arr(event.inner().get("root").unwrap())[0], value);
    assert_eq!(event.get(&lookup), Some(&value));
    assert_eq!(event.get_mut(&lookup), Some(&mut value));
    assert_eq!(event.remove(&lookup, false), Some(value));
}

#[test]
fn array_field_nested_array() {
    let mut event = LogEvent::new();
    let lookup = vec![f("root"), ix(0), ix(0)];
    let mut value = Value::Boolean(true);
    event.insert(&lookup, value.clone());
    assert_eq!(arr(&arr(event.inner().get("root").unwrap())[0])[0], value);
    assert_eq!(event.get(&lookup), Some(&value));
    assert_eq!(event.get_mut(&lookup), Some(&mut value));
    assert_eq!(event.remove(&lookup, false), Some(value));
}

#[test]
fn array_field_nested_map() {
    let mut event = LogEvent::new();
    let lookup = vec![f("root"), ix(0), f("nested")];
    let mut value = Value::Boolean(true);
    event.insert(&lookup, value.clone());
    assert_eq!(
        obj(&arr(event.inner().get("root").unwrap())[0]).get("nested"),
        Some(&value)
    );
    assert_eq!(event.get(&lookup), Some(&value));
    assert_eq!(event.get_mut(&lookup), Some(&mut value));
    assert_eq!(event.remove(&lookup, false), Some(value));
}

#[test]
fn perverse() {
    let mut event = LogEvent::new();
    // root[10].nested[10].more[9].than[8].there[7][6][5].we.go.friends.look.at.this
    let lookup = vec![
        f("root"),
        ix(10),
        f("nested"),
        ix(10),
        f("more"),
        ix(9),
        f("than"),
        ix(8),
        f("there"),
        ix(7),
        ix(6),
        ix(5),
        f("we"),
        f("go"),
        f("friends"),
        f("look"),
        f("at"),
        f("this"),
    ];
    let mut value = Value::Boolean(true);
    event.insert(&lookup, value.clone());
    let mut node = event.inner().get("root").unwrap();
    node = &arr(node)[10];
    node = obj(node).get("nested").unwrap();
    node = &arr(node)[10];
    node = obj(node).get("more").unwrap();
    node = &arr(node)[9];
    node = obj(node).get("than").unwrap();
    node = &arr(node)[8];
    node = obj(node).get("there").unwrap();
    node = &arr(node)[7];
    node = &arr(node)[6];
    node = &arr(node)[5];
    for name in ["we", "go", "friends", "look", "at"] {
        node = obj(node).get(name).unwrap();
    }
    assert_eq!(obj(node).get("this"), Some(&value));
    assert_eq!(event.get(&lookup), Some(&value));
    assert_eq!(event.get_mut(&lookup), Some(&mut value));
    assert_eq!(event.remove(&lookup, false), Some(value));
}
