use vstd::prelude::*;

use crate::event::fields_of;
use crate::flatten::{seg_step, steps_of};
use crate::order::{
    get_steps, lemma_flat_from_reach, lemma_ins_ordered, lemma_key_lt_irreflexive,
    lemma_ordered_object, lemma_set_key_ordered, lemma_vivify_ordered, ordered,
};
use crate::path::{is_concrete, Segment};
use crate::tree::{
    child_of, descend_base, first_alt, get_path, has_key_at, ins_path, ins_step, is_slot_for,
    key_lt, key_pos, rem_path, rem_step, set_index, set_key, settle_object, slot_for, vivify, Tree,
    Step, flat_fields, leaf_entry, lemma_leaves_from,
};

verus! {

/// Every key of the entries occurs once.
pub open spec fn unique_keys(es: Seq<(Seq<char>, Tree)>) -> bool {
    forall|i: int, j: int| 0 <= i < j < es.len() ==> (#[trigger] es[i]).0 != (#[trigger] es[j]).0
}

/// Keys in strictly ascending order are unique.
pub proof fn lemma_sorted_unique(es: Seq<(Seq<char>, Tree)>)
    requires
        ordered(Tree::Object(es)),
    ensures
        unique_keys(es),
{
    lemma_ordered_object(es);
    assert forall|i: int, j: int| 0 <= i < j < es.len() implies (#[trigger] es[i]).0 != (#[trigger] es[j]).0 by {
        lemma_key_lt_irreflexive(es[i].0);
    }
}

/// The path is made of field names alone.
pub open spec fn fields_only(p: Seq<Segment>) -> bool {
    forall|k: int| 0 <= k < p.len() ==> (#[trigger] p[k] is Field)
}

/// An insert at the concrete path `p` below `t` goes through: every node on
/// the way is a map before a field, an array before an index (or is absent
/// or null, and then created), and no index is the largest `usize`.
pub open spec fn fits(t: Tree, p: Seq<Segment>) -> bool
    decreases p.len(),
{
    if p.len() == 0 {
        false
    } else {
        let rest = p.drop_first();
        let kind_ok = match p[0] {
            Segment::Field { .. } => t is Object,
            Segment::Index(i) => t is Array && i != usize::MAX,
            Segment::Coalesce(_) => false,
        };
        kind_ok && (rest.len() == 0 || match descend_base(child_of(t, p[0]), rest) {
            Some(c) => fits(c, rest),
            None => false,
        })
    }
}

proof fn lemma_key_pos_at(es: Seq<(Seq<char>, Tree)>, k: Seq<char>, i: int)
    requires
        has_key_at(es, k, i),
    ensures
        key_pos(es, k) == i,
{
    let c = choose|c: int| has_key_at(es, k, c);
    if c < i {
        assert(es[c].0 != k);
    } else if c > i {
        assert(es[i].0 != k);
    }
}

proof fn lemma_key_pos_found(es: Seq<(Seq<char>, Tree)>, k: Seq<char>)
    requires
        key_pos(es, k) >= 0,
    ensures
        has_key_at(es, k, key_pos(es, k)),
{
}

proof fn lemma_first_key(es: Seq<(Seq<char>, Tree)>, k: Seq<char>, j: int)
    requires
        0 <= j < es.len(),
        es[j].0 == k,
    ensures
        key_pos(es, k) >= 0,
    decreases j,
{
    if exists|i: int| 0 <= i < j && es[i].0 == k {
        let i = choose|i: int| 0 <= i < j && es[i].0 == k;
        lemma_first_key(es, k, i);
    } else {
        assert(has_key_at(es, k, j));
        lemma_key_pos_at(es, k, j);
    }
}

proof fn lemma_key_absent(es: Seq<(Seq<char>, Tree)>, k: Seq<char>)
    requires
        key_pos(es, k) < 0,
    ensures
        forall|j: int| 0 <= j < es.len() ==> (#[trigger] es[j]).0 != k,
{
    assert forall|j: int| 0 <= j < es.len() implies (#[trigger] es[j]).0 != k by {
        if es[j].0 == k {
            lemma_first_key(es, k, j);
        }
    }
}

proof fn lemma_slot_from(es: Seq<(Seq<char>, Tree)>, k: Seq<char>, i: int)
    requires
        0 <= i <= es.len(),
        forall|j: int| 0 <= j < i ==> key_lt(#[trigger] es[j].0, k),
    ensures
        exists|s: int| is_slot_for(es, k, s),
    decreases es.len() - i,
{
    if i == es.len() || !key_lt(es[i].0, k) {
        assert(is_slot_for(es, k, i));
    } else {
        lemma_slot_from(es, k, i + 1);
    }
}

proof fn lemma_slot(es: Seq<(Seq<char>, Tree)>, k: Seq<char>)
    ensures
        0 <= slot_for(es, k) <= es.len(),
{
    lemma_slot_from(es, k, 0);
}

/// Setting a key, then looking it up, finds the value set.
pub proof fn lemma_set_key_lookup(es: Seq<(Seq<char>, Tree)>, k: Seq<char>, x: Tree)
    ensures
        key_pos(set_key(es, k, x), k) >= 0,
        set_key(es, k, x)[key_pos(set_key(es, k, x), k)].1 == x,
        unique_keys(es) ==> unique_keys(set_key(es, k, x)),
{
    let p = key_pos(es, k);
    let es2 = set_key(es, k, x);
    if p >= 0 {
        lemma_key_pos_found(es, k);
        assert(has_key_at(es2, k, p));
        lemma_key_pos_at(es2, k, p);
    } else {
        lemma_key_absent(es, k);
        lemma_slot(es, k);
        let s = slot_for(es, k);
        assert(has_key_at(es2, k, s));
        lemma_key_pos_at(es2, k, s);
        if unique_keys(es) {
            assert forall|i: int, j: int| 0 <= i < j < es2.len() implies (#[trigger] es2[i]).0
                != (#[trigger] es2[j]).0 by {
                if i < s && j > s {
                    assert(es2[j] == es[j - 1]);
                } else if i > s {
                    assert(es2[i] == es[i - 1]);
                    assert(es2[j] == es[j - 1]);
                }
            }
        }
    }
}

/// Removing the only entry with key `k` leaves none.
proof fn lemma_remove_key(es: Seq<(Seq<char>, Tree)>, k: Seq<char>)
    requires
        unique_keys(es),
        key_pos(es, k) >= 0,
    ensures
        key_pos(es.remove(key_pos(es, k)), k) < 0,
{
    let p = key_pos(es, k);
    lemma_key_pos_found(es, k);
    let es2 = es.remove(p);
    if key_pos(es2, k) >= 0 {
        lemma_key_pos_found(es2, k);
        let q = key_pos(es2, k);
        if q < p {
            assert(es2[q] == es[q]);
        } else {
            assert(es2[q] == es[q + 1]);
        }
    }
}

/// Inserting `x` at a concrete path that `fits` makes `x` the value there.
pub proof fn lemma_insert_get(t: Tree, p: Seq<Segment>, x: Tree)
    requires
        fits(t, p),
    ensures
        get_path(ins_path(t, p, x).0, p) == Some(x),
    decreases p.len(),
{
    let rest = p.drop_first();
    let t2 = ins_path(t, p, x).0;
    assert(ins_path(t, p, x) == ins_step(t, p[0], rest, x));
    match p[0] {
        Segment::Field { name, .. } => {
            let es = t->Object_0;
            let slot = child_of(t, p[0]);
            let c2 = if rest.len() == 0 {
                x
            } else {
                let c = descend_base(slot, rest)->0;
                lemma_insert_get(c, rest, x);
                ins_path(c, rest, x).0
            };
            lemma_set_key_lookup(es, name@, c2);
            assert(t2 == Tree::Object(set_key(es, name@, c2)));
            assert(child_of(t2, p[0]) == Some(c2));
            assert(get_path(t2, p) == get_path(c2, rest));
        },
        Segment::Index(i) => {
            let arr = t->Array_0;
            let slot = child_of(t, p[0]);
            let c2 = if rest.len() == 0 {
                x
            } else {
                let c = descend_base(slot, rest)->0;
                lemma_insert_get(c, rest, x);
                ins_path(c, rest, x).0
            };
            assert(t2 == Tree::Array(set_index(arr, i as int, c2)));
            assert(set_index(arr, i as int, c2)[i as int] == c2);
            assert(child_of(t2, p[0]) == Some(c2));
            assert(get_path(t2, p) == get_path(c2, rest));
        },
        Segment::Coalesce(_) => {},
    }
}

/// Round trip through an event: after inserting `x` at a path that fits,
/// reading the path gives `x`, so the event contains it.
pub proof fn law_insert_then_get(es: Seq<(Seq<char>, Tree)>, p: Seq<Segment>, x: Tree)
    requires
        fits(Tree::Object(es), p),
    ensures
        get_path(Tree::Object(fields_of(ins_path(Tree::Object(es), p, x).0)), p) == Some(x),
{
    let t = Tree::Object(es);
    lemma_insert_get(t, p, x);
    assert(ins_path(t, p, x) == ins_step(t, p[0], p.drop_first(), x));
    assert(ins_path(t, p, x).0 is Object);
}

proof fn lemma_insert_remove_get(t: Tree, p: Seq<Segment>, x: Tree, prune: bool)
    requires
        fits(t, p),
        fields_only(p),
        ordered(t),
        ordered(x),
    ensures
        get_path(rem_path(ins_path(t, p, x).0, p, prune).0, p) is None,
    decreases p.len(),
{
    let rest = p.drop_first();
    let name = p[0]->Field_name;
    let es = t->Object_0;
    let t1 = ins_path(t, p, x).0;
    assert(ins_path(t, p, x) == ins_step(t, p[0], rest, x));
    lemma_ordered_object(es);
    let c1 = if rest.len() == 0 {
        x
    } else {
        let c = descend_base(child_of(t, p[0]), rest)->0;
        if key_pos(es, name@) >= 0 {
            assert(ordered(es[key_pos(es, name@)].1));
        }
        lemma_vivify_ordered(rest);
        assert(ordered(c));
        assert(fields_only(rest));
        lemma_insert_remove_get(c, rest, x, prune);
        lemma_ins_ordered(c, rest, x);
        ins_path(c, rest, x).0
    };
    let es1 = set_key(es, name@, c1);
    lemma_set_key_ordered(es, name@, c1);
    lemma_sorted_unique(es1);
    lemma_set_key_lookup(es, name@, c1);
    assert(t1 == Tree::Object(es1));
    let pos1 = key_pos(es1, name@);
    lemma_key_pos_found(es1, name@);
    assert(rem_path(t1, p, prune) == rem_step(t1, p[0], rest, prune));
    let t2 = rem_path(t1, p, prune).0;
    if rest.len() == 0 {
        lemma_remove_key(es1, name@);
        assert(t2 == settle_object(es1.remove(pos1), prune, Some(es1[pos1].1)));
        assert(child_of(t2, p[0]) is None);
    } else {
        let (c2, r) = rem_path(c1, rest, prune);
        if prune && c2 is Null {
            lemma_remove_key(es1, name@);
            assert(t2 == settle_object(es1.remove(pos1), prune, r));
            assert(child_of(t2, p[0]) is None);
        } else {
            let es2 = es1.update(pos1, (es1[pos1].0, c2));
            assert(has_key_at(es2, name@, pos1));
            lemma_key_pos_at(es2, name@, pos1);
            assert(t2 == settle_object(es2, prune, r));
            if t2 is Object {
                assert(child_of(t2, p[0]) == Some(c2));
                assert(get_path(t2, p) == get_path(c2, rest));
            }
        }
    }
}

/// After inserting `x` at a path of field names that fits, and removing it
/// again, with or without pruning, the event holds nothing at that path.
/// The event and `x` keep their keys in ascending order, as every event does.
pub proof fn law_insert_remove_then_absent(
    es: Seq<(Seq<char>, Tree)>,
    p: Seq<Segment>,
    x: Tree,
    prune: bool,
)
    requires
        ordered(Tree::Object(es)),
        ordered(x),
        fits(Tree::Object(es), p),
        fields_only(p),
    ensures
        ({
            let es1 = fields_of(ins_path(Tree::Object(es), p, x).0);
            let es2 = fields_of(rem_path(Tree::Object(es1), p, prune).0);
            get_path(Tree::Object(es2), p) is None
        }),
{
    let t = Tree::Object(es);
    assert(ins_path(t, p, x) == ins_step(t, p[0], p.drop_first(), x));
    assert(ins_path(t, p, x).0 is Object);
    let t1 = ins_path(t, p, x).0;
    assert(Tree::Object(fields_of(t1)) == t1);
    lemma_insert_remove_get(t, p, x, prune);
    let t2 = rem_path(t1, p, prune).0;
    if !(t2 is Object) {
        let e = Tree::Object(fields_of(t2));
        assert(fields_of(t2) == Seq::<(Seq<char>, Tree)>::empty());
        assert(key_pos(fields_of(t2), p[0]->Field_name@) == -1);
        assert(get_path(e, p) is None);
    } else {
        assert(Tree::Object(fields_of(t2)) == t2);
    }
}

proof fn lemma_first_alt(
    t: Tree,
    alts: Seq<Vec<Segment>>,
    rest: Seq<Segment>,
    i: int,
    want: bool,
)
    requires
        0 <= i <= alts.len(),
    ensures
        (forall|k: int| i <= k < alts.len() ==> (get_path(t, #[trigger] alts[k]@ + rest) is Some) != want)
            ==> first_alt(t, alts, rest, i, want) == -1,
        forall|j: int|
            i <= j < alts.len() && (get_path(t, #[trigger] alts[j]@ + rest) is Some) == want && (
            forall|k: int| i <= k < j ==> (get_path(t, #[trigger] alts[k]@ + rest) is Some) != want)
                ==> first_alt(t, alts, rest, i, want) == j,
    decreases alts.len() - i,
{
    if i < alts.len() {
        lemma_first_alt(t, alts, rest, i + 1, want);
    }
}

/// Reading through a coalesce group `c` followed by `rest` reads the first
/// alternative (followed by `rest`) that holds a value, and finds nothing
/// where none does.
pub proof fn law_coalesce_get(t: Tree, c: Segment, rest: Seq<Segment>)
    requires
        c is Coalesce,
    ensures
        ({
            let alts = c->Coalesce_0@;
            let p = seq![c] + rest;
            &&& (forall|k: int| 0 <= k < alts.len() ==> get_path(t, #[trigger] alts[k]@ + rest) is None)
                ==> get_path(t, p) is None
            &&& forall|j: int|
                0 <= j < alts.len() && get_path(t, #[trigger] alts[j]@ + rest) is Some && (forall|k: int|
                    0 <= k < j ==> get_path(t, #[trigger] alts[k]@ + rest) is None) ==> get_path(t, p)
                    == get_path(t, alts[j]@ + rest)
        }),
{
    let alts = c->Coalesce_0@;
    let p = seq![c] + rest;
    assert(p[0] == c);
    assert(p.drop_first() =~= rest);
    lemma_first_alt(t, alts, rest, 0, true);
}

/// Inserting through a coalesce group `c` followed by `rest` inserts at the
/// first alternative (followed by `rest`) that holds no value; where every
/// alternative holds one, nothing changes and nothing is returned.
pub proof fn law_coalesce_insert(t: Tree, c: Segment, rest: Seq<Segment>, x: Tree)
    requires
        c is Coalesce,
    ensures
        ({
            let alts = c->Coalesce_0@;
            let p = seq![c] + rest;
            &&& (forall|k: int| 0 <= k < alts.len() ==> get_path(t, #[trigger] alts[k]@ + rest) is Some)
                ==> ins_path(t, p, x) == (t, None::<Tree>)
            &&& forall|j: int|
                0 <= j < alts.len() && get_path(t, #[trigger] alts[j]@ + rest) is None && (forall|k: int|
                    0 <= k < j ==> get_path(t, #[trigger] alts[k]@ + rest) is Some) ==> ins_path(t, p, x)
                    == ins_path(t, alts[j]@ + rest, x)
        }),
{
    let alts = c->Coalesce_0@;
    let p = seq![c] + rest;
    assert(p[0] == c);
    assert(p.drop_first() =~= rest);
    lemma_first_alt(t, alts, rest, 0, false);
}

/// Two concrete paths that take the same steps, whatever their quoting.
pub open spec fn same_steps(p: Seq<Segment>, q: Seq<Segment>) -> bool {
    is_concrete(p) && is_concrete(q) && steps_of(p) == steps_of(q)
}

/// Quoting is transparent: two paths that take the same steps read the same
/// value and insert alike.
pub proof fn law_quoting_transparent(t: Tree, p: Seq<Segment>, q: Seq<Segment>, x: Tree)
    requires
        same_steps(p, q),
    ensures
        get_path(t, p) == get_path(t, q),
        ins_path(t, p, x) == ins_path(t, q, x),
    decreases p.len(),
{
    assert(p.len() == steps_of(p).len());
    assert(q.len() == steps_of(q).len());
    if p.len() > 0 {
        let p2 = p.drop_first();
        let q2 = q.drop_first();
        assert(steps_of(p)[0] == steps_of(q)[0]);
        assert(steps_of(p2) =~= steps_of(p).drop_first());
        assert(steps_of(q2) =~= steps_of(q).drop_first());
        assert(same_steps(p2, q2));
        assert(!(p[0] is Coalesce) && !(q[0] is Coalesce));
        assert(child_of(t, p[0]) == child_of(t, q[0]));
        if p2.len() > 0 {
            assert(steps_of(p2)[0] == steps_of(q2)[0]);
            assert(!(p2[0] is Coalesce) && !(q2[0] is Coalesce));
        }
        assert(vivify(p2) == vivify(q2));
        match child_of(t, p[0]) {
            Some(c) => {
                law_quoting_transparent(c, p2, q2, x);
            },
            None => {},
        }
        match descend_base(child_of(t, p[0]), p2) {
            Some(c) => {
                law_quoting_transparent(c, p2, q2, x);
            },
            None => {},
        }
        assert(ins_path(t, p, x) == ins_step(t, p[0], p2, x));
        assert(ins_path(t, q, x) == ins_step(t, q[0], q2, x));
    }
}

proof fn lemma_fresh_chain_prunes(p: Seq<Segment>, x: Tree)
    requires
        p.len() > 0,
        fields_only(p),
    ensures
        ({
            let t1 = ins_path(Tree::Object(seq![]), p, x).0;
            rem_path(t1, p, true) == (Tree::Null, Some(x))
        }),
    decreases p.len(),
{
    let t0 = Tree::Object(seq![]);
    let rest = p.drop_first();
    let name = p[0]->Field_name;
    assert(ins_path(t0, p, x) == ins_step(t0, p[0], rest, x));
    let c1 = if rest.len() == 0 {
        x
    } else {
        assert(rest[0] is Field);
        assert(vivify(rest) == Some(t0));
        lemma_fresh_chain_prunes(rest, x);
        ins_path(t0, rest, x).0
    };
    let es0 = Seq::<(Seq<char>, Tree)>::empty();
    lemma_set_key_lookup(es0, name@, c1);
    assert(key_pos(es0, name@) == -1);
    lemma_slot(es0, name@);
    let es1 = set_key(es0, name@, c1);
    assert(es1 =~= seq![(name@, c1)]);
    let t1 = ins_path(t0, p, x).0;
    assert(t1 == Tree::Object(es1));
    assert(has_key_at(es1, name@, 0));
    lemma_key_pos_at(es1, name@, 0);
    assert(rem_path(t1, p, true) == rem_step(t1, p[0], rest, true));
    assert(es1.remove(0) =~= es0);
}

/// Pruning undoes an insert that created its path: inserting `x` at a path
/// of fields whose first field the event lacks, then removing it with
/// pruning, leaves the event as it was.
pub proof fn law_pruning_restores(es: Seq<(Seq<char>, Tree)>, p: Seq<Segment>, x: Tree)
    requires
        p.len() > 0,
        fields_only(p),
        key_pos(es, p[0]->Field_name@) < 0,
    ensures
        ({
            let es1 = fields_of(ins_path(Tree::Object(es), p, x).0);
            fields_of(rem_path(Tree::Object(es1), p, true).0) == es
        }),
{
    let t = Tree::Object(es);
    let t0 = Tree::Object(seq![]);
    let rest = p.drop_first();
    let name = p[0]->Field_name;
    assert(ins_path(t, p, x) == ins_step(t, p[0], rest, x));
    let c1 = if rest.len() == 0 {
        x
    } else {
        assert(rest[0] is Field);
        assert(vivify(rest) == Some(t0));
        lemma_fresh_chain_prunes(rest, x);
        ins_path(t0, rest, x).0
    };
    lemma_key_absent(es, name@);
    lemma_slot(es, name@);
    let s = slot_for(es, name@);
    let es1 = set_key(es, name@, c1);
    assert(es1 == es.insert(s, (name@, c1)));
    let t1 = ins_path(t, p, x).0;
    assert(t1 == Tree::Object(es1));
    assert(fields_of(t1) == es1);
    assert(has_key_at(es1, name@, s));
    lemma_key_pos_at(es1, name@, s);
    assert(rem_path(t1, p, true) == rem_step(t1, p[0], rest, true));
    assert(es1.remove(s) =~= es);
}

/// Writing one element of an array field: the array grows to reach index
/// `i`, filling the gap with nulls, holds `x` at `i`, and keeps every other
/// element where it was.
pub proof fn law_array_insert(es: Seq<(Seq<char>, Tree)>, f: Segment, i: usize, x: Tree)
    requires
        f is Field,
        key_pos(es, f->Field_name@) >= 0,
        es[key_pos(es, f->Field_name@)].1 is Array,
        i != usize::MAX,
    ensures
        ({
            let arr = es[key_pos(es, f->Field_name@)].1->Array_0;
            let es1 = fields_of(ins_path(Tree::Object(es), seq![f, Segment::Index(i)], x).0);
            let got = get_path(Tree::Object(es1), seq![f]);
            &&& got is Some && got->0 is Array
            &&& {
                let arr2 = got->0->Array_0;
                &&& arr2.len() == if i < arr.len() {
                    arr.len() as int
                } else {
                    i + 1
                }
                &&& arr2[i as int] == x
                &&& forall|k: int| 0 <= k < arr.len() && k != i ==> arr2[k] == arr[k]
                &&& forall|k: int| arr.len() <= k < i ==> arr2[k] == Tree::Null
            }
        }),
{
    let t = Tree::Object(es);
    let p = seq![f, Segment::Index(i)];
    let name = f->Field_name;
    let pos = key_pos(es, name@);
    let arr = es[pos].1->Array_0;
    lemma_key_pos_found(es, name@);
    let rest = p.drop_first();
    assert(rest =~= seq![Segment::Index(i)]);
    assert(ins_path(t, p, x) == ins_step(t, f, rest, x));
    let c = es[pos].1;
    assert(descend_base(Some(c), rest) == Some(c));
    assert(ins_path(c, rest, x) == ins_step(c, rest[0], rest.drop_first(), x));
    assert(rest.drop_first() =~= seq![]);
    let arr2 = set_index(arr, i as int, x);
    assert(ins_path(c, rest, x).0 == Tree::Array(arr2));
    lemma_set_key_lookup(es, name@, Tree::Array(arr2));
    let es1 = set_key(es, name@, Tree::Array(arr2));
    assert(es1 == es.update(pos, (name@, Tree::Array(arr2))));
    assert(has_key_at(es1, name@, pos));
    lemma_key_pos_at(es1, name@, pos);
    let q = seq![f];
    assert(q.drop_first() =~= seq![]);
    assert(get_path(Tree::Object(es1), q) == get_path(Tree::Array(arr2), q.drop_first()));
    if i >= arr.len() {
        let pad = Seq::new((i - arr.len()) as nat, |k: int| Tree::Null);
        assert(arr2 == arr + pad + seq![x]);
        assert forall|k: int| arr.len() <= k < i implies arr2[k] == Tree::Null by {
            assert(arr2[k] == pad[k - arr.len()]);
        }
        assert(arr2[i as int] == x);
    }
}

proof fn lemma_get_by_steps(t: Tree, q: Seq<Segment>)
    requires
        is_concrete(q),
    ensures
        get_path(t, q) == get_steps(t, steps_of(q)),
    decreases q.len(),
{
    if q.len() > 0 {
        let rest = q.drop_first();
        assert(!(q[0] is Coalesce));
        assert(is_concrete(rest));
        assert(steps_of(q)[0] == seg_step(q[0]));
        assert(steps_of(q).drop_first() =~= steps_of(rest));
        match child_of(t, q[0]) {
            Some(c) => {
                lemma_get_by_steps(c, rest);
            },
            None => {},
        }
    } else {
        assert(steps_of(q) =~= Seq::<Step>::empty());
    }
}

/// Each path that `pairs` lists, with or without containers, leads through
/// `get` to the value listed with it: the listing and the lookup agree.
pub proof fn law_pairs_hold_values(
    es: Seq<(Seq<char>, Tree)>,
    leaves: bool,
    k: int,
    q: Seq<Segment>,
)
    requires
        ordered(Tree::Object(es)),
        0 <= k < flat_fields(es, leaves).len(),
        is_concrete(q),
        steps_of(q) == flat_fields(es, leaves)[k].0,
    ensures
        get_path(Tree::Object(es), q) == Some(flat_fields(es, leaves)[k].1),
{
    let t = Tree::Object(es);
    lemma_flat_from_reach(t, seq![], leaves, 0);
    let e = flat_fields(es, leaves)[k];
    assert(e.0.skip(0) =~= e.0);
    lemma_get_by_steps(t, q);
}

/// The leaves-only listing of an event's paths is its full listing with
/// the paths of maps and arrays taken out, order kept.
pub proof fn law_event_leaves_are_filtered(es: Seq<(Seq<char>, Tree)>)
    ensures
        flat_fields(es, true) == flat_fields(es, false).filter(leaf_entry()),
{
    lemma_leaves_from(Tree::Object(es), seq![], 0);
}

} // verus!
