use vstd::prelude::*;

use crate::path::{copy_path, is_concrete, Segment};
use crate::tree::{flat, flat_from, Step};
use crate::value::{elems_view, lemma_array_view, lemma_object_view, FieldMap, Value};

verus! {

broadcast use vstd::std_specs::vec::group_vec_axioms;

/// The step that a segment of a concrete path takes.
pub open spec fn seg_step(s: Segment) -> Step {
    match s {
        Segment::Field { name, .. } => Step::Field(name@),
        Segment::Index(i) => Step::Index(i as int),
        Segment::Coalesce(_) => Step::Index(-1),
    }
}

/// The steps of a concrete path.
pub open spec fn steps_of(p: Seq<Segment>) -> Seq<Step> {
    Seq::new(p.len(), |j: int| seg_step(p[j]))
}

/// The model of a list of (path, value) pairs.
pub open spec fn pairs_view(s: Seq<(Vec<Segment>, &Value)>) -> Seq<(Seq<Step>, crate::tree::Tree)> {
    Seq::new(s.len(), |i: int| (steps_of(s[i].0@), s[i].1@))
}

/// Every path of the list is concrete.
pub open spec fn all_concrete(s: Seq<(Vec<Segment>, &Value)>) -> bool {
    forall|i: int| 0 <= i < s.len() ==> is_concrete(#[trigger] s[i].0@)
}

fn extend_path(prefix: &Vec<Segment>, s: Segment) -> (r: Vec<Segment>)
    requires
        is_concrete(prefix@),
        !(s is Coalesce),
    ensures
        r@ == prefix@.push(s),
        is_concrete(r@),
        steps_of(r@) == steps_of(prefix@).push(seg_step(s)),
{
    let mut p = copy_path(prefix);
    p.push(s);
    assert(steps_of(p@) =~= steps_of(prefix@).push(seg_step(s)));
    p
}

/// Appends to `out` every path below `v` that starts with `prefix`, with the
/// value it leads to, in the order of `flat`.
pub fn collect_pairs<'a>(
    v: &'a Value,
    prefix: &Vec<Segment>,
    leaves: bool,
    out: &mut Vec<(Vec<Segment>, &'a Value)>,
)
    requires
        is_concrete(prefix@),
        all_concrete(old(out)@),
    ensures
        all_concrete(final(out)@),
        pairs_view(final(out)@) == pairs_view(old(out)@) + flat(v@, steps_of(prefix@), leaves),
    decreases v,
{
    let ghost pre = steps_of(prefix@);
    let ghost start = pairs_view(out@);
    match v {
        Value::Object(m) => {
            proof {
                lemma_object_view(*m);
            }
            if !leaves {
                let ghost before = out@;
                out.push((copy_path(prefix), v));
                assert(pairs_view(out@) =~= pairs_view(before).push((pre, v@)));
            }
            let ghost head = pairs_view(out@);
            assert(head == start + (if leaves {
                seq![]
            } else {
                seq![(pre, v@)]
            }));
            let mut i: usize = 0;
            while i < m.entries.len()
                invariant
                    i <= m.entries.len(),
                    is_concrete(prefix@),
                    pre == steps_of(prefix@),
                    v@ == crate::tree::Tree::Object(m@),
                    *v == Value::Object(*m),
                    all_concrete(out@),
                    pairs_view(out@) + flat_from(v@, pre, leaves, i as int) == head + flat_from(v@, pre, leaves, 0),
                decreases m.entries.len() - i,
            {
                let p = extend_path(prefix, Segment::Field { name: m.entries[i].0.clone(), requires_quoting: false });
                let ghost before = pairs_view(out@);
                proof {
                    assert(*v == Value::Object(*m));
                    assert(decreases_to!(Value::Object(*m) => *m));
                    assert(decreases_to!(*m => m.entries));
                    assert(decreases_to!(m.entries => m.entries[i as int]));
                    assert(decreases_to!(m.entries[i as int] => m.entries[i as int].1));
                    assert(decreases_to!(*v => m.entries[i as int].1));
                }
                collect_pairs(&m.entries[i].1, &p, leaves, out);
                proof {
                    let fc = flat(m@[i as int].1, pre.push(Step::Field(m@[i as int].0)), leaves);
                    assert(flat_from(v@, pre, leaves, i as int) == fc + flat_from(v@, pre, leaves, i + 1));
                    assert(before + (fc + flat_from(v@, pre, leaves, i + 1)) =~= (before + fc) + flat_from(v@, pre, leaves, i + 1));
                }
                i = i + 1;
            }
            assert(flat_from(v@, pre, leaves, i as int) == Seq::<(Seq<Step>, crate::tree::Tree)>::empty());
            assert(pairs_view(out@) =~= head + flat_from(v@, pre, leaves, 0));
        },
        Value::Array(arr) => {
            proof {
                lemma_array_view(*arr);
            }
            if !leaves {
                let ghost before = out@;
                out.push((copy_path(prefix), v));
                assert(pairs_view(out@) =~= pairs_view(before).push((pre, v@)));
            }
            let ghost head = pairs_view(out@);
            assert(head == start + (if leaves {
                seq![]
            } else {
                seq![(pre, v@)]
            }));
            let mut i: usize = 0;
            while i < arr.len()
                invariant
                    i <= arr.len(),
                    is_concrete(prefix@),
                    pre == steps_of(prefix@),
                    v@ == crate::tree::Tree::Array(crate::value::elems_view(arr@)),
                    *v == Value::Array(*arr),
                    all_concrete(out@),
                    pairs_view(out@) + flat_from(v@, pre, leaves, i as int) == head + flat_from(v@, pre, leaves, 0),
                decreases arr.len() - i,
            {
                let p = extend_path(prefix, Segment::Index(i));
                let ghost before = pairs_view(out@);
                proof {
                    assert(*v == Value::Array(*arr));
                    assert(decreases_to!(Value::Array(*arr) => *arr));
                    assert(decreases_to!(*arr => arr[i as int]));
                    assert(decreases_to!(*v => arr[i as int]));
                }
                collect_pairs(&arr[i], &p, leaves, out);
                proof {
                    let fc = flat(arr@[i as int]@, pre.push(Step::Index(i as int)), leaves);
                    assert(flat_from(v@, pre, leaves, i as int) == fc + flat_from(v@, pre, leaves, i + 1));
                    assert(before + (fc + flat_from(v@, pre, leaves, i + 1)) =~= (before + fc) + flat_from(v@, pre, leaves, i + 1));
                }
                i = i + 1;
            }
            assert(flat_from(v@, pre, leaves, i as int) == Seq::<(Seq<Step>, crate::tree::Tree)>::empty());
            assert(pairs_view(out@) =~= head + flat_from(v@, pre, leaves, 0));
        },
        _ => {
            let ghost before = out@;
            out.push((copy_path(prefix), v));
            assert(pairs_view(out@) =~= pairs_view(before).push((pre, v@)));
        },
    }
}

/// A deep copy of a node.
pub fn duplicate(v: &Value) -> (r: Value)
    ensures
        r@ == v@,
    decreases v,
{
    {
        match v {
            Value::Null => Value::Null,
            Value::Boolean(b) => Value::Boolean(*b),
            Value::Integer(i) => Value::Integer(*i),
            Value::Timestamp(t) => Value::Timestamp(*t),
            Value::Bytes(bytes) => {
                let mut out: Vec<u8> = Vec::new();
                let mut i: usize = 0;
                while i < bytes.len()
                    invariant
                        i <= bytes.len(),
                        out@ == bytes@.take(i as int),
                    decreases bytes.len() - i,
                {
                    out.push(bytes[i]);
                    assert(bytes@.take(i + 1) =~= bytes@.take(i as int).push(bytes@[i as int]));
                    i = i + 1;
                }
                assert(bytes@.take(i as int) =~= bytes@);
                Value::Bytes(out)
            },
            Value::Object(m) => {
                let mut out: Vec<(String, Value)> = Vec::new();
                let mut i: usize = 0;
                while i < m.entries.len()
                    invariant
                        i <= m.entries.len(),
                        *v == Value::Object(*m),
                        out@.len() == i,
                        forall|k: int|
                            0 <= k < i ==> (#[trigger] out@[k]).0@ == m.entries@[k].0@ && out@[k].1@
                                == m.entries@[k].1@,
                    decreases m.entries.len() - i,
                {
                    proof {
                        lemma_object_view(*m);
                        assert(*v == Value::Object(*m));
                        assert(decreases_to!(Value::Object(*m) => *m));
                        assert(decreases_to!(*m => m.entries));
                        assert(decreases_to!(m.entries => m.entries[i as int]));
                        assert(decreases_to!(m.entries[i as int] => m.entries[i as int].1));
                    }
                    let c = duplicate(&m.entries[i].1);
                    out.push((m.entries[i].0.clone(), c));
                    i = i + 1;
                }
                let r = FieldMap { entries: out };
                proof {
                    lemma_object_view(r);
                    lemma_object_view(*m);
                    assert(r@ =~= m@);
                }
                Value::Object(r)
            },
            Value::Array(arr) => {
                let mut out: Vec<Value> = Vec::new();
                let mut i: usize = 0;
                while i < arr.len()
                    invariant
                        i <= arr.len(),
                        *v == Value::Array(*arr),
                        out@.len() == i,
                        forall|k: int| 0 <= k < i ==> (#[trigger] out@[k])@ == arr@[k]@,
                    decreases arr.len() - i,
                {
                    proof {
                        lemma_array_view(*arr);
                        assert(*v == Value::Array(*arr));
                        assert(decreases_to!(Value::Array(*arr) => *arr));
                        assert(decreases_to!(*arr => arr[i as int]));
                    }
                    out.push(duplicate(&arr[i]));
                    i = i + 1;
                }
                proof {
                    lemma_array_view(out);
                    lemma_array_view(*arr);
                    assert(elems_view(out@) =~= elems_view(arr@));
                }
                Value::Array(out)
            },
        }
    }
}

impl Clone for Value {
    fn clone(&self) -> (r: Value)
        ensures
            r@ == self@,
    {
        duplicate(self)
    }
}

} // verus!
