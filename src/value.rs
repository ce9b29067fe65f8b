use vstd::prelude::*;

use crate::path::Segment;
use crate::order::{lemma_set_key_ordered, ordered};
use crate::path::{at_end, parts_ok, push_front, rest_of, split_first};
use crate::size::{alts_size, lemma_alt_path_smaller, lemma_alt_size, lemma_seg_size_pos, path_size, seg_size};
use crate::tree::{
    bytes_lt, child_of, descend_base, entry_walk, first_alt, get_path, has_key_at, ins_path,
    ins_step, is_slot_for, key_lt, key_pos, put_entry_map, put_path, rem_path, rem_step,
    replace_child, resolves_here, set_index, set_key, settle_array, settle_object, slot_for, vivify, EntryFault,
    Tree,
};

verus! {

broadcast use vstd::std_specs::vec::group_vec_axioms;

/// A node of the value tree below an event's root.
#[derive(Debug, PartialEq)]
pub enum Value {
    Null,
    Boolean(bool),
    Integer(i64),
    /// Nanoseconds since the Unix epoch.
    Timestamp(i64),
    Bytes(Vec<u8>),
    Object(FieldMap),
    Array(Vec<Value>),
}

/// A map from field name to value. Its entries can only be changed through
/// this library, which keeps the names in strictly ascending order of their
/// UTF-8 bytes (`ordered`), so each name occurs at most once.
#[derive(Debug, PartialEq)]
pub struct FieldMap {
    pub(crate) entries: Vec<(String, Value)>,
}

/// The model of a node.
pub open(crate) spec fn tree_of(v: Value) -> Tree
    decreases v,
{
    match v {
        Value::Null => Tree::Null,
        Value::Boolean(b) => Tree::Boolean(b),
        Value::Integer(i) => Tree::Integer(i),
        Value::Timestamp(t) => Tree::Timestamp(t),
        Value::Bytes(b) => Tree::Bytes(b@),
        Value::Object(m) => Tree::Object(
            Seq::new(
                m.entries@.len(),
                |i: int|
                    (m.entries@[i].0@, if 0 <= i < m.entries@.len() {
                        tree_of(m.entries@[i].1)
                    } else {
                        Tree::Null
                    }),
            ),
        ),
        Value::Array(arr) => Tree::Array(
            Seq::new(
                arr@.len(),
                |i: int|
                    if 0 <= i < arr@.len() {
                        tree_of(arr@[i])
                    } else {
                        Tree::Null
                    },
            ),
        ),
    }
}

impl View for Value {
    type V = Tree;

    open(crate) spec fn view(&self) -> Tree {
        tree_of(*self)
    }
}

impl View for FieldMap {
    type V = Seq<(Seq<char>, Tree)>;

    open(crate) spec fn view(&self) -> Seq<(Seq<char>, Tree)> {
        Seq::new(self.entries@.len(), |i: int| (self.entries@[i].0@, self.entries@[i].1@))
    }
}

/// The models of the elements of an array.
pub open spec fn elems_view(arr: Seq<Value>) -> Seq<Tree> {
    Seq::new(arr.len(), |i: int| arr[i]@)
}

pub broadcast proof fn lemma_object_view(m: FieldMap)
    ensures
        #[trigger] tree_of(Value::Object(m)) == Tree::Object(m@),
{
    assert(tree_of(Value::Object(m))->Object_0 =~= m@);
}

pub broadcast proof fn lemma_array_view(arr: Vec<Value>)
    ensures
        #[trigger] tree_of(Value::Array(arr)) == Tree::Array(elems_view(arr@)),
{
    assert(tree_of(Value::Array(arr))->Array_0 =~= elems_view(arr@));
}

/// The model of an optional node.
pub open spec fn opt_view(r: Option<Value>) -> Option<Tree> {
    match r {
        Some(v) => Some(v@),
        None => None,
    }
}

/// The model of what an optional reference points to.
pub open spec fn opt_ref_view(r: Option<&Value>) -> Option<Tree> {
    match r {
        Some(v) => Some(v@),
        None => None,
    }
}

/// The position of `k` among the entries.
pub fn find_key(m: &FieldMap, k: &String) -> (r: Option<usize>)
    ensures
        match r {
            Some(i) => has_key_at(m@, k@, i as int) && key_pos(m@, k@) == i,
            None => key_pos(m@, k@) == -1,
        },
{
    let es = &m.entries;
    let mut i: usize = 0;
    while i < es.len()
        invariant
            es == &m.entries,
            i <= es.len(),
            forall|j: int| 0 <= j < i ==> (#[trigger] m@[j]).0 != k@,
        decreases es.len() - i,
    {
        if es[i].0 == *k {
            assert(has_key_at(m@, k@, i as int));
            let ghost c = choose|c: int| has_key_at(m@, k@, c);
            assert(c == i) by {
                if c < i {
                    assert(m@[c].0 != k@);
                } else if c > i {
                    assert(m@[i as int].0 != k@);
                }
            }
            return Some(i);
        }
        i = i + 1;
    }
    assert(!exists|c: int| has_key_at(m@, k@, c));
    None
}

fn child_ref<'a>(v: &'a Value, s: &Segment) -> (r: Option<&'a Value>)
    ensures
        opt_ref_view(r) == child_of(v@, *s),
{
    match s {
        Segment::Field { name, .. } => match v {
            Value::Object(m) => match find_key(m, name) {
                Some(i) => {
                    proof {
                        lemma_object_view(*m);
                    }
                    Some(&m.entries[i].1)
                },
                None => {
                    proof {
                        lemma_object_view(*m);
                    }
                    None
                },
            },
            _ => None,
        },
        Segment::Index(i) => match v {
            Value::Array(arr) => {
                proof {
                    lemma_array_view(*arr);
                }
                if *i < arr.len() {
                    Some(&arr[*i])
                } else {
                    None
                }
            },
            _ => None,
        },
        Segment::Coalesce(_) => None,
    }
}

/// Reads the value at the path that `parts` stands for, below `v`.
pub fn get_exec<'a, 'p>(v: &'a Value, parts: &Vec<(&'p Vec<Segment>, usize)>) -> (r: Option<&'a Value>)
    requires
        parts_ok(parts@),
    ensures
        opt_ref_view(r) == get_path(v@, rest_of(parts@)),
    decreases path_size(rest_of(parts@)), 1nat, 0int,
{
    match split_first(parts) {
        None => Some(v),
        Some((s, ps)) => {
            let ghost p = rest_of(parts@);
            assert(p[0] == *s);
            assert(p.drop_first() =~= rest_of(ps@));
            proof {
                lemma_seg_size_pos(*s);
            }
            match s {
                Segment::Coalesce(alts) => {
                    match find_alt(v, alts, &ps, true) {
                        Some(j) => {
                            let next = push_front(&alts[j], &ps);
                            proof {
                                lemma_alt_path_smaller(alts@, j as int, rest_of(ps@));
                            }
                            get_exec(v, &next)
                        },
                        None => None,
                    }
                },
                _ => match child_ref(v, s) {
                    Some(c) => get_exec(c, &ps),
                    None => None,
                },
            }
        },
    }
}

/// Finds the first alternative whose path, followed by what `ps` stands
/// for, holds a value below `v` (`want`), or holds none (`!want`).
pub fn find_alt<'p>(v: &Value, alts: &'p Vec<Vec<Segment>>, ps: &Vec<(&'p Vec<Segment>, usize)>, want: bool) -> (r:
    Option<usize>)
    requires
        parts_ok(ps@),
    ensures
        match r {
            Some(j) => j < alts.len() && first_alt(v@, alts@, rest_of(ps@), 0, want) == j,
            None => first_alt(v@, alts@, rest_of(ps@), 0, want) == -1,
        },
    decreases 1 + alts_size(alts@) + path_size(rest_of(ps@)), 0nat, 0int,
{
    let ghost r = rest_of(ps@);
    let mut j: usize = 0;
    while j < alts.len()
        invariant
            j <= alts.len(),
            parts_ok(ps@),
            r == rest_of(ps@),
            first_alt(v@, alts@, r, 0, want) == first_alt(v@, alts@, r, j as int, want),
        decreases alts.len() - j,
    {
        let next = push_front(&alts[j], ps);
        proof {
            lemma_alt_path_smaller(alts@, j as int, r);
        }
        let found = get_exec(v, &next).is_some();
        if found == want {
            return Some(j);
        }
        j = j + 1;
    }
    None
}

/// Whether `x` comes before `y` in lexicographic byte order.
pub fn bytes_less(x: &[u8], y: &[u8]) -> (r: bool)
    ensures
        r == bytes_lt(x@, y@),
{
    let mut i: usize = 0;
    assert(x@.skip(0) =~= x@);
    assert(y@.skip(0) =~= y@);
    while i < x.len() && i < y.len()
        invariant
            i <= x.len(),
            i <= y.len(),
            bytes_lt(x@, y@) == bytes_lt(x@.skip(i as int), y@.skip(i as int)),
        decreases x.len() - i,
    {
        if x[i] != y[i] {
            return x[i] < y[i];
        }
        assert(x@.skip(i as int).drop_first() =~= x@.skip(i + 1));
        assert(y@.skip(i as int).drop_first() =~= y@.skip(i + 1));
        i = i + 1;
    }
    i == x.len() && i < y.len()
}

/// Whether name `a` sorts before name `b`.
pub fn name_less(a: &String, b: &String) -> (r: bool)
    ensures
        r == key_lt(a@, b@),
{
    bytes_less(a.as_str().as_bytes(), b.as_str().as_bytes())
}

/// The position at which the absent key `k` is inserted.
pub fn find_slot(m: &FieldMap, k: &String) -> (r: usize)
    ensures
        is_slot_for(m@, k@, r as int),
        slot_for(m@, k@) == r,
{
    let es = &m.entries;
    let mut i: usize = 0;
    while i < es.len() && name_less(&es[i].0, k)
        invariant
            es == &m.entries,
            i <= es.len(),
            forall|j: int| 0 <= j < i ==> key_lt(#[trigger] m@[j].0, k@),
        decreases es.len() - i,
    {
        i = i + 1;
    }
    assert(is_slot_for(m@, k@, i as int));
    let ghost c = choose|c: int| is_slot_for(m@, k@, c);
    assert(c == i) by {
        if c < i {
            assert(key_lt(m@[c].0, k@));
        } else if c > i {
            assert(key_lt(m@[i as int].0, k@));
        }
    }
    i
}

/// The empty container that an insert creates in front of the path that
/// `parts` stands for.
fn vivify_exec(parts: &Vec<(&Vec<Segment>, usize)>) -> (r: Option<Value>)
    requires
        parts_ok(parts@),
    ensures
        opt_view(r) == vivify(rest_of(parts@)),
{
    let empty_map = Value::Object(FieldMap { entries: Vec::new() });
    let empty_arr = Value::Array(Vec::new());
    proof {
        assert(empty_map@->Object_0 =~= seq![]);
        assert(empty_arr@->Array_0 =~= seq![]);
        assert(empty_map@ == Tree::Object(seq![]));
        assert(empty_arr@ == Tree::Array(seq![]));
    }
    let s = match split_first(parts) {
        None => {
            return None;
        },
        Some((s, ps)) => {
            let ghost p = rest_of(parts@);
            assert(p[0] == *s);
            s
        },
    };
    let mut cur = s;
    loop
        invariant
            vivify(rest_of(parts@)) == vivify(seq![*cur]),
            empty_map@ == Tree::Object(seq![]),
            empty_arr@ == Tree::Array(seq![]),
        decreases seg_size(*cur),
    {
        match cur {
            Segment::Field { .. } => {
                return Some(empty_map);
            },
            Segment::Index(_) => {
                return Some(empty_arr);
            },
            Segment::Coalesce(alts) => {
                if alts.len() == 0 || alts[0].len() == 0 {
                    return None;
                }
                proof {
                    assert(seq![*cur].drop_first() =~= seq![]);
                    assert(alts@[0]@[0] == alts[0]@[0]);
                    lemma_alt_size(alts@, 0);
                    assert(path_size(alts@[0]@) >= seg_size(alts@[0]@[0]));
                }
                cur = &alts[0][0];
                proof {
                    assert(vivify(alts@[0]@) == vivify(seq![*cur]));
                }
            },
        }
    }
}

/// Extends the array with nulls to length `n`.
fn pad_to(arr: &mut Vec<Value>, n: usize)
    requires
        old(arr).len() <= n,
    ensures
        elems_view(final(arr)@) == elems_view(old(arr)@) + Seq::new(
            (n - old(arr).len()) as nat,
            |k: int| Tree::Null,
        ),
{
    let ghost start = arr@;
    while arr.len() < n
        invariant
            start.len() <= arr.len() <= n,
            arr@.subrange(0, start.len() as int) == start,
            forall|k: int| start.len() <= k < arr.len() ==> #[trigger] arr@[k] is Null,
        decreases n - arr.len(),
    {
        arr.push(Value::Null);
    }
    assert(elems_view(arr@) =~= elems_view(start) + Seq::new(
        (n - start.len()) as nat,
        |k: int| Tree::Null,
    )) by {
        assert forall|k: int| 0 <= k < start.len() implies arr@[k] == start[k] by {
            assert(arr@.subrange(0, start.len() as int)[k] == arr@[k]);
        }
    }
}

/// Inserts `x` at the path that `parts` stands for, below `v`, returning
/// what it replaced.
pub fn insert_at<'p>(v: &mut Value, parts: &Vec<(&'p Vec<Segment>, usize)>, x: Value) -> (r: Option<Value>)
    requires
        parts_ok(parts@),
    ensures
        (final(v)@, opt_view(r)) == ins_path(old(v)@, rest_of(parts@), x@),
    decreases path_size(rest_of(parts@)), 1nat,
{
    match split_first(parts) {
        None => None,
        Some((s, ps)) => {
            let ghost p = rest_of(parts@);
            assert(p[0] == *s);
            assert(p.drop_first() =~= rest_of(ps@));
            proof {
                lemma_seg_size_pos(*s);
            }
            match s {
                Segment::Coalesce(alts) => {
                    match find_alt(&*v, alts, &ps, false) {
                        Some(j) => {
                            let next = push_front(&alts[j], &ps);
                            proof {
                                lemma_alt_path_smaller(alts@, j as int, rest_of(ps@));
                            }
                            insert_at(v, &next, x)
                        },
                        None => None,
                    }
                },
                _ => insert_step(v, s, &ps, x),
            }
        },
    }
}

/// Inserts `x` one step `s` below `v`, then along `a[ai..] + b[bi..]`.
fn insert_step<'p>(v: &mut Value, s: &Segment, ps: &Vec<(&'p Vec<Segment>, usize)>, x: Value) -> (r:
    Option<Value>)
    requires
        parts_ok(ps@),
    ensures
        (final(v)@, opt_view(r)) == ins_step(old(v)@, *s, rest_of(ps@), x@),
    decreases seg_size(*s) + path_size(rest_of(ps@)), 0nat,
{
    proof {
        lemma_seg_size_pos(*s);
    }
    let last = at_end(ps);
    let mut node = Value::Null;
    std::mem::swap(v, &mut node);
    match node {
        Value::Object(mut m) => {
            let ghost es = m@;
            let ghost ents = m.entries@;
            proof {
                lemma_object_view(m);
            }
            match s {
                Segment::Field { name, .. } => {
                    match find_key(&m, name) {
                        Some(p) => {
                            let (k, child) = m.entries.remove(p);
                            assert(k@ == name@);
                            if last {
                                let ghost e = (k, x);
                                m.entries.insert(p, (k, x));
                                proof {
                                    assert(m.entries@ =~= ents.update(p as int, e));
                                    assert(m@ =~= set_key(es, name@, x@));
                                    lemma_object_view(m);
                                }
                                *v = Value::Object(m);
                                Some(child)
                            } else {
                                let base = if let Value::Null = child {
                                    vivify_exec(ps)
                                } else {
                                    Some(child)
                                };
                                assert(opt_view(base) == descend_base(
                                    Some(es[p as int].1),
                                    rest_of(ps@),
                                ));
                                match base {
                                    None => {
                                        m.entries.insert(p, (k, Value::Null));
                                        proof {
                                            assert(m.entries@ =~= ents);
                                        }
                                        *v = Value::Object(m);
                                        None
                                    },
                                    Some(c) => {
                                        let mut c = c;
                                        let r = insert_at(&mut c, ps, x);
                                        let ghost e = (k, c);
                                        m.entries.insert(p, (k, c));
                                        proof {
                                            assert(m.entries@ =~= ents.update(p as int, e));
                                            assert(m@ =~= set_key(es, name@, c@));
                                            lemma_object_view(m);
                                        }
                                        *v = Value::Object(m);
                                        r
                                    },
                                }
                            }
                        },
                        None => {
                            if last {
                                let q = find_slot(&m, name);
                                let key = name.clone();
                                let ghost e = (key, x);
                                m.entries.insert(q, (key, x));
                                proof {
                                    assert(m.entries@ =~= ents.insert(q as int, e));
                                    assert(m@ =~= set_key(es, name@, x@));
                                    lemma_object_view(m);
                                }
                                *v = Value::Object(m);
                                None
                            } else {
                                match vivify_exec(ps) {
                                    None => {
                                        *v = Value::Object(m);
                                        None
                                    },
                                    Some(c) => {
                                        let mut c = c;
                                        let r = insert_at(&mut c, ps, x);
                                        let q = find_slot(&m, name);
                                        let key = name.clone();
                                        let ghost e = (key, c);
                                        m.entries.insert(q, (key, c));
                                        proof {
                                            assert(m.entries@ =~= ents.insert(q as int, e));
                                            assert(m@ =~= set_key(es, name@, c@));
                                            lemma_object_view(m);
                                        }
                                        *v = Value::Object(m);
                                        r
                                    },
                                }
                            }
                        },
                    }
                },
                _ => {
                    *v = Value::Object(m);
                    None
                },
            }
        },
        Value::Array(mut arr) => {
            let ghost els = elems_view(arr@);
            let ghost raw = arr@;
            proof {
                lemma_array_view(arr);
            }
            match s {
                Segment::Index(i) => {
                    let i = *i;
                    if i == usize::MAX {
                        *v = Value::Array(arr);
                        return None;
                    }
                    if i < arr.len() {
                        let child = arr.remove(i);
                        if last {
                            arr.insert(i, x);
                            proof {
                                assert(arr@ =~= raw.update(i as int, x));
                                assert(elems_view(arr@) =~= set_index(els, i as int, x@));
                                lemma_array_view(arr);
                            }
                            *v = Value::Array(arr);
                            Some(child)
                        } else {
                            let base = if let Value::Null = child {
                                vivify_exec(ps)
                            } else {
                                Some(child)
                            };
                            match base {
                                None => {
                                    arr.insert(i, Value::Null);
                                    proof {
                                        assert(arr@ =~= raw);
                                    }
                                    *v = Value::Array(arr);
                                    None
                                },
                                Some(c) => {
                                    let mut c = c;
                                    let r = insert_at(&mut c, ps, x);
                                    let ghost cc = c;
                                    arr.insert(i, c);
                                    proof {
                                        assert(arr@ =~= raw.update(i as int, cc));
                                        assert(elems_view(arr@) =~= set_index(els, i as int, cc@));
                                        lemma_array_view(arr);
                                    }
                                    *v = Value::Array(arr);
                                    r
                                },
                            }
                        }
                    } else {
                        if last {
                            pad_to(&mut arr, i);
                            let ghost padded = arr@;
                            arr.push(x);
                            proof {
                                assert(elems_view(arr@) =~= elems_view(padded).push(x@));
                                assert(elems_view(arr@) =~= set_index(els, i as int, x@));
                                lemma_array_view(arr);
                            }
                            *v = Value::Array(arr);
                            None
                        } else {
                            match vivify_exec(ps) {
                                None => {
                                    *v = Value::Array(arr);
                                    None
                                },
                                Some(c) => {
                                    let mut c = c;
                                    let r = insert_at(&mut c, ps, x);
                                    pad_to(&mut arr, i);
                                    let ghost padded = arr@;
                                    let ghost cc = c;
                                    arr.push(c);
                                    proof {
                                        assert(elems_view(arr@) =~= elems_view(padded).push(cc@));
                                        assert(elems_view(arr@) =~= set_index(els, i as int, cc@));
                                        lemma_array_view(arr);
                                    }
                                    *v = Value::Array(arr);
                                    r
                                },
                            }
                        }
                    }
                },
                _ => {
                    *v = Value::Array(arr);
                    None
                },
            }
        },
        other => {
            *v = other;
            None
        },
    }
}

/// Removes the value at the path that `parts` stands for, below `v`, and
/// returns it.
pub fn remove_at<'p>(v: &mut Value, parts: &Vec<(&'p Vec<Segment>, usize)>, prune: bool) -> (r: Option<Value>)
    requires
        parts_ok(parts@),
    ensures
        (final(v)@, opt_view(r)) == rem_path(old(v)@, rest_of(parts@), prune),
    decreases path_size(rest_of(parts@)), 1nat,
{
    match split_first(parts) {
        None => None,
        Some((s, ps)) => {
            let ghost p = rest_of(parts@);
            assert(p[0] == *s);
            assert(p.drop_first() =~= rest_of(ps@));
            proof {
                lemma_seg_size_pos(*s);
            }
            match s {
                Segment::Coalesce(alts) => {
                    match find_alt(&*v, alts, &ps, true) {
                        Some(j) => {
                            let next = push_front(&alts[j], &ps);
                            proof {
                                lemma_alt_path_smaller(alts@, j as int, rest_of(ps@));
                            }
                            remove_at(v, &next, prune)
                        },
                        None => None,
                    }
                },
                _ => remove_step(v, s, &ps, prune),
            }
        },
    }
}

/// Removes one step `s` below `v`, then along `a[ai..] + b[bi..]`.
fn remove_step<'p>(v: &mut Value, s: &Segment, ps: &Vec<(&'p Vec<Segment>, usize)>, prune: bool) -> (r:
    Option<Value>)
    requires
        parts_ok(ps@),
    ensures
        (final(v)@, opt_view(r)) == rem_step(old(v)@, *s, rest_of(ps@), prune),
    decreases seg_size(*s) + path_size(rest_of(ps@)), 0nat,
{
    proof {
        lemma_seg_size_pos(*s);
    }
    let last = at_end(ps);
    let mut node = Value::Null;
    std::mem::swap(v, &mut node);
    match node {
        Value::Object(mut m) => {
            let ghost es = m@;
            let ghost ents = m.entries@;
            proof {
                lemma_object_view(m);
            }
            match s {
                Segment::Field { name, .. } => {
                    match find_key(&m, name) {
                        Some(p) => {
                            let (k, child) = m.entries.remove(p);
                            let r;
                            if last {
                                proof {
                                    assert(m.entries@ =~= ents.remove(p as int));
                                    assert(m@ =~= es.remove(p as int));
                                }
                                r = Some(child);
                            } else {
                                let mut c = child;
                                r = remove_at(&mut c, ps, prune);
                                if prune && matches!(c, Value::Null) {
                                    proof {
                                        assert(m.entries@ =~= ents.remove(p as int));
                                        assert(m@ =~= es.remove(p as int));
                                    }
                                } else {
                                    let ghost e = (k, c);
                                    m.entries.insert(p, (k, c));
                                    proof {
                                        assert(m.entries@ =~= ents.update(p as int, e));
                                        assert(m@ =~= es.update(p as int, (es[p as int].0, e.1@)));
                                    }
                                }
                            }
                            proof {
                                lemma_object_view(m);
                            }
                            if prune && r.is_some() && m.entries.len() == 0 {
                                *v = Value::Null;
                            } else {
                                *v = Value::Object(m);
                            }
                            r
                        },
                        None => {
                            *v = Value::Object(m);
                            None
                        },
                    }
                },
                _ => {
                    *v = Value::Object(m);
                    None
                },
            }
        },
        Value::Array(mut arr) => {
            let ghost els = elems_view(arr@);
            let ghost raw = arr@;
            proof {
                lemma_array_view(arr);
            }
            match s {
                Segment::Index(i) => {
                    let i = *i;
                    if i >= arr.len() {
                        *v = Value::Array(arr);
                        return None;
                    }
                    let child = arr.remove(i);
                    let r;
                    if last {
                        proof {
                            assert(elems_view(arr@) =~= els.remove(i as int));
                        }
                        r = Some(child);
                    } else {
                        let mut c = child;
                        r = remove_at(&mut c, ps, prune);
                        if prune && matches!(c, Value::Null) {
                            proof {
                                assert(elems_view(arr@) =~= els.remove(i as int));
                            }
                        } else {
                            let ghost cc = c;
                            arr.insert(i, c);
                            proof {
                                assert(arr@ =~= raw.update(i as int, cc));
                                assert(elems_view(arr@) =~= els.update(i as int, cc@));
                            }
                        }
                    }
                    proof {
                        lemma_array_view(arr);
                    }
                    if prune && r.is_some() && arr.len() == 0 {
                        *v = Value::Null;
                    } else {
                        *v = Value::Array(arr);
                    }
                    r
                },
                _ => {
                    *v = Value::Array(arr);
                    None
                },
            }
        },
        other => {
            *v = other;
            None
        },
    }
}

impl FieldMap {
    /// A map with no entries.
    pub fn new() -> (r: FieldMap)
        ensures
            r@ == Seq::<(Seq<char>, Tree)>::empty(),
    {
        let r = FieldMap { entries: Vec::new() };
        assert(r@ =~= Seq::<(Seq<char>, Tree)>::empty());
        r
    }

    /// The number of entries.
    pub fn len(&self) -> (r: usize)
        ensures
            r == self@.len(),
    {
        self.entries.len()
    }

    /// The value stored under `key`.
    pub fn get(&self, key: &str) -> (r: Option<&Value>)
        ensures
            opt_ref_view(r) == (if key_pos(self@, key@) >= 0 {
                Some(self@[key_pos(self@, key@)].1)
            } else {
                None
            }),
    {
        let k = key.to_owned();
        match find_key(self, &k) {
            Some(i) => Some(&self.entries[i].1),
            None => None,
        }
    }
}

impl Value {
    /// The map that the node holds, if it is a map.
    pub fn as_object(&self) -> (r: Option<&FieldMap>)
        ensures
            match r {
                Some(m) => *self == Value::Object(*m),
                None => !(*self is Object),
            },
    {
        match self {
            Value::Object(m) => Some(m),
            _ => None,
        }
    }

    /// The elements that the node holds, if it is an array.
    pub fn as_array(&self) -> (r: Option<&Vec<Value>>)
        ensures
            match r {
                Some(a) => *self == Value::Array(*a),
                None => !(*self is Array),
            },
    {
        match self {
            Value::Array(a) => Some(a),
            _ => None,
        }
    }
}

pub(crate) broadcast proof fn lemma_entries_update(m1: FieldMap, m2: FieldMap, i: int, x: (Seq<char>, Tree))
    requires
        0 <= i < m1.entries@.len(),
        m2.entries@.len() == m1.entries@.len(),
        forall|j: int| 0 <= j < m1.entries@.len() && j != i ==> m2.entries@[j] == m1.entries@[j],
        (m2.entries@[i].0@, m2.entries@[i].1@) == x,
    ensures
        #![trigger m2@, m1@.update(i, x)]
        m2@ == m1@.update(i, x),
{
    assert(m2@ =~= m1@.update(i, x));
}

pub broadcast proof fn lemma_elems_update(a1: Vec<Value>, a2: Vec<Value>, i: int, x: Tree)
    requires
        0 <= i < a1@.len(),
        a2@.len() == a1@.len(),
        forall|j: int| 0 <= j < a1@.len() && j != i ==> a2@[j] == a1@[j],
        a2@[i]@ == x,
    ensures
        #![trigger elems_view(a2@), elems_view(a1@).update(i, x)]
        elems_view(a2@) == elems_view(a1@).update(i, x),
{
    assert(elems_view(a2@) =~= elems_view(a1@).update(i, x));
}

proof fn lemma_replace_same(t: Tree, s: Segment)
    requires
        child_of(t, s) is Some,
    ensures
        replace_child(t, s, child_of(t, s)->0) == t,
{
    match s {
        Segment::Field { name, .. } => {
            let es = t->Object_0;
            let p = key_pos(es, name@);
            assert(es.update(p, (es[p].0, es[p].1)) =~= es);
        },
        Segment::Index(i) => {
            let arr = t->Array_0;
            assert(arr.update(i as int, arr[i as int]) =~= arr);
        },
        Segment::Coalesce(_) => {},
    }
}

/// A mutable reference to the node that one step `s` leads to from `v`.
fn child_mut<'a>(v: &'a mut Value, s: &Segment) -> (r: Option<&'a mut Value>)
    ensures
        match r {
            Some(c) => child_of(old(v)@, *s) == Some((*c)@) && final(v)@ == replace_child(
                old(v)@,
                *s,
                (*final(c))@,
            ),
            None => child_of(old(v)@, *s) is None && final(v)@ == old(v)@,
        },
{
    broadcast use lemma_object_view, lemma_array_view, lemma_entries_update, lemma_elems_update;

    match s {
        Segment::Field { name, .. } => match v {
            Value::Object(m) => match find_key(m, name) {
                Some(i) => {
                    let e = &mut m.entries[i];
                    Some(&mut e.1)
                },
                None => None,
            },
            _ => None,
        },
        Segment::Index(i) => match v {
            Value::Array(arr) => if *i < arr.len() {
                Some(&mut arr[*i])
            } else {
                None
            },
            _ => None,
        },
        Segment::Coalesce(_) => None,
    }
}

/// A mutable reference to the node at the path that `parts` stands for,
/// below `v`.
/// With `here` unset, a path that addresses `v` itself yields `v`; with it
/// set, such a path yields nothing.
pub fn get_mut_at<'a, 'p>(v: &'a mut Value, parts: &Vec<(&'p Vec<Segment>, usize)>, here: bool) -> (r: Option<
    &'a mut Value,
>)
    requires
        parts_ok(parts@),
    ensures
        match r {
            Some(x) => !(here && resolves_here(old(v)@, rest_of(parts@))) && get_path(
                old(v)@,
                rest_of(parts@),
            ) == Some((*x)@) && final(v)@ == put_path(old(v)@, rest_of(parts@), (*final(x))@),
            None => (get_path(old(v)@, rest_of(parts@)) is None || (here && resolves_here(
                old(v)@,
                rest_of(parts@),
            ))) && final(v)@ == old(v)@,
        },
    decreases path_size(rest_of(parts@)),
{
    let ghost t = v@;
    match split_first(parts) {
        None => if here {
            None
        } else {
            Some(v)
        },
        Some((s, ps)) => {
            let ghost p = rest_of(parts@);
            assert(p[0] == *s);
            assert(p.drop_first() =~= rest_of(ps@));
            proof {
                lemma_seg_size_pos(*s);
            }
            match s {
                Segment::Coalesce(alts) => {
                    match find_alt(&*v, alts, &ps, true) {
                        Some(j) => {
                            let next = push_front(&alts[j], &ps);
                            proof {
                                lemma_alt_path_smaller(alts@, j as int, rest_of(ps@));
                            }
                            get_mut_at(v, &next, here)
                        },
                        None => None,
                    }
                },
                _ => match child_mut(v, s) {
                    Some(c) => {
                        proof {
                            lemma_replace_same(t, *s);
                        }
                        get_mut_at(c, &ps, false)
                    },
                    None => None,
                },
            }
        },
    }
}

/// Why `LogEvent::entry` could not reach the entry of a path.
#[derive(Debug, PartialEq, Eq)]
pub enum EntryError {
    /// Looking up a field on a value that is not a map.
    NotAMap,
    /// Stepping into `field` of `parent`, which does not exist.
    Missing { field: String, parent: String },
    /// The path holds an index or a coalesce group.
    NotAField,
}

impl View for EntryError {
    type V = EntryFault;

    open spec fn view(&self) -> EntryFault {
        match self {
            EntryError::NotAMap => EntryFault::NotAMap,
            EntryError::Missing { field, parent } => EntryFault::Missing(field@, parent@),
            EntryError::NotAField => EntryFault::NotAField,
        }
    }
}

impl EntryError {
    /// A description of the error.
    pub fn message(&self) -> (r: String)
        ensures
            r@ == match self {
                EntryError::NotAMap => "Looking up field on a non-map value."@,
                EntryError::Missing { field, parent } => "Tried to step into `"@ + field@ + "` of `"@
                    + parent@ + "`, but it did not exist."@,
                EntryError::NotAField => "The entry API cannot yet descend into array indices."@,
            },
    {
        match self {
            EntryError::NotAMap => {
                let s = "Looking up field on a non-map value.".to_owned();
                proof {
                    reveal_strlit("Looking up field on a non-map value.");
                }
                s
            },
            EntryError::Missing { field, parent } => {
                let mut s = "Tried to step into `".to_owned();
                proof {
                    reveal_strlit("Tried to step into `");
                }
                s.append(field.as_str());
                s.append("` of `");
                s.append(parent.as_str());
                s.append("`, but it did not exist.");
                s
            },
            EntryError::NotAField => {
                let s = "The entry API cannot yet descend into array indices.".to_owned();
                proof {
                    reveal_strlit("The entry API cannot yet descend into array indices.");
                }
                s
            },
        }
    }
}

pub broadcast proof fn lemma_update_same(es: Seq<(Seq<char>, Tree)>, i: int)
    requires
        0 <= i < es.len(),
    ensures
        #[trigger] es.update(i, es[i]) == es,
{
    assert(es.update(i, es[i]) =~= es);
}

/// The map that holds the last field of `p[i..]`, reached from `m` through
/// existing maps only.
pub fn entry_in<'a>(m: &'a mut FieldMap, p: &Vec<Segment>, i: usize) -> (r: Result<
    &'a mut FieldMap,
    EntryError,
>)
    requires
        i <= p.len(),
    ensures
        match r {
            Ok(x) => entry_walk(old(m)@, p@.skip(i as int)) == Ok::<_, EntryFault>((*x)@)
                && final(m)@ == put_entry_map(old(m)@, p@.skip(i as int), (*final(x))@),
            Err(e) => entry_walk(old(m)@, p@.skip(i as int)) == Err::<Seq<(Seq<char>, Tree)>, _>(
                e@,
            ) && final(m)@ == old(m)@,
        },
    decreases p.len() - i,
{
    broadcast use lemma_object_view, lemma_entries_update, lemma_update_same;

    let ghost q = p@.skip(i as int);
    if i == p.len() {
        return Err(EntryError::NotAField);
    }
    assert(q[0] == p@[i as int]);
    let name = match &p[i] {
        Segment::Field { name, .. } => name,
        _ => {
            return Err(EntryError::NotAField);
        },
    };
    if i + 1 == p.len() {
        return Ok(m);
    }
    assert(q[1] == p@[i + 1]);
    assert(q.drop_first() =~= p@.skip(i + 1));
    let next = match &p[i + 1] {
        Segment::Field { name, .. } => name,
        _ => {
            return Err(EntryError::NotAField);
        },
    };
    match find_key(m, name) {
        None => Err(EntryError::Missing { field: next.clone(), parent: name.clone() }),
        Some(pos) => {
            if let Value::Object(_) = &m.entries[pos].1 {
                let e = &mut m.entries[pos];
                match &mut e.1 {
                    Value::Object(child) => entry_in(child, p, i + 1),
                    _ => Err(EntryError::NotAMap),
                }
            } else {
                Err(EntryError::NotAMap)
            }
        },
    }
}

impl FieldMap {
    /// Sets `key` to `value`, in place where the key is present, else at its
    /// place in name order; returns the value it replaced.
    pub fn set(&mut self, key: String, value: Value) -> (r: Option<Value>)
        ensures
            final(self)@ == set_key(old(self)@, key@, value@),
            ordered(Tree::Object(old(self)@)) && ordered(value@) ==> ordered(
                Tree::Object(final(self)@),
            ),
            opt_view(r) == (if key_pos(old(self)@, key@) >= 0 {
                Some(old(self)@[key_pos(old(self)@, key@)].1)
            } else {
                None
            }),
    {
        let ghost es = self@;
        let ghost ents = self.entries@;
        proof {
            if ordered(Tree::Object(es)) && ordered(value@) {
                lemma_set_key_ordered(es, key@, value@);
            }
        }
        match find_key(self, &key) {
            Some(p) => {
                let (k, old_value) = self.entries.remove(p);
                let ghost e = (k, value);
                self.entries.insert(p, (k, value));
                proof {
                    assert(self.entries@ =~= ents.update(p as int, e));
                    assert(self@ =~= set_key(es, key@, value@));
                }
                Some(old_value)
            },
            None => {
                let q = find_slot(self, &key);
                let ghost e = (key, value);
                self.entries.insert(q, (key, value));
                proof {
                    assert(self.entries@ =~= ents.insert(q as int, e));
                    assert(self@ =~= set_key(es, key@, value@));
                }
                None
            },
        }
    }
}

impl FieldMap {
    /// Removes every entry.
    pub fn clear(&mut self)
        ensures
            final(self)@ == Seq::<(Seq<char>, Tree)>::empty(),
    {
        self.entries = Vec::new();
        assert(self@ =~= Seq::<(Seq<char>, Tree)>::empty());
    }

    /// The entries, in order.
    pub fn entries(&self) -> (r: &Vec<(String, Value)>)
        ensures
            Seq::new(r@.len(), |i: int| (r@[i].0@, r@[i].1@)) == self@,
    {
        &self.entries
    }

    /// The entries, taken out of the map.
    pub fn into_entries(self) -> (r: Vec<(String, Value)>)
        ensures
            Seq::new(r@.len(), |i: int| (r@[i].0@, r@[i].1@)) == self@,
    {
        self.entries
    }
}

} // verus!
