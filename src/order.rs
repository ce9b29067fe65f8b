use vstd::prelude::*;
use vstd::utf8::{encode_utf8, encode_utf8_decode_utf8};

use crate::path::Segment;
use crate::size::{lemma_alt_path_smaller, lemma_path_size_step, path_size, seg_size};
use crate::tree::{
    bytes_lt, child_of, descend_base, entry_walk, first_alt, has_key_at, ins_path, ins_step, is_slot_for,
    key_lt, key_pos, kids_len, put_entry_map, put_path, rem_path, rem_step, replace_child,
    set_index, set_key, settle_array, settle_object, slot_for, vivify, Tree, Step, flat, flat_from,
};

verus! {

/// The keys of the entries ascend strictly in name order.
pub open spec fn sorted_keys(es: Seq<(Seq<char>, Tree)>) -> bool {
    forall|i: int, j: int| 0 <= i < j < es.len() ==> key_lt(#[trigger] es[i].0, #[trigger] es[j].0)
}

/// Every map in the tree has its keys in strictly ascending name order, so
/// each key at most once.
pub open spec fn ordered(t: Tree) -> bool
    decreases t, kids_len(t) + 1,
{
    match t {
        Tree::Object(es) => sorted_keys(es) && ordered_from(t, 0),
        Tree::Array(_) => ordered_from(t, 0),
        _ => true,
    }
}

/// The children of `t` from the `i`-th on are `ordered`.
pub open spec fn ordered_from(t: Tree, i: int) -> bool
    decreases t, kids_len(t) - i,
{
    match t {
        Tree::Object(es) => if 0 <= i < es.len() {
            ordered(es[i].1) && ordered_from(t, i + 1)
        } else {
            true
        },
        Tree::Array(arr) => if 0 <= i < arr.len() {
            ordered(arr[i]) && ordered_from(t, i + 1)
        } else {
            true
        },
        _ => true,
    }
}

proof fn lemma_ordered_from(t: Tree, i: int)
    requires
        0 <= i <= kids_len(t),
    ensures
        ordered_from(t, i) == match t {
            Tree::Object(es) => forall|j: int| i <= j < es.len() ==> ordered(#[trigger] es[j].1),
            Tree::Array(arr) => forall|j: int| i <= j < arr.len() ==> ordered(#[trigger] arr[j]),
            _ => true,
        },
    decreases kids_len(t) - i,
{
    if i < kids_len(t) {
        lemma_ordered_from(t, i + 1);
    }
}

/// A map is ordered when its keys ascend and every value is ordered.
pub proof fn lemma_ordered_object(es: Seq<(Seq<char>, Tree)>)
    ensures
        ordered(Tree::Object(es)) == (sorted_keys(es) && forall|j: int|
            0 <= j < es.len() ==> ordered(#[trigger] es[j].1)),
{
    lemma_ordered_from(Tree::Object(es), 0);
}

/// An array is ordered when every element is.
pub proof fn lemma_ordered_array(arr: Seq<Tree>)
    ensures
        ordered(Tree::Array(arr)) == forall|j: int| 0 <= j < arr.len() ==> ordered(#[trigger] arr[j]),
{
    lemma_ordered_from(Tree::Array(arr), 0);
}

proof fn lemma_bytes_lt_irreflexive(x: Seq<u8>)
    ensures
        !bytes_lt(x, x),
    decreases x.len(),
{
    if x.len() > 0 {
        lemma_bytes_lt_irreflexive(x.drop_first());
    }
}

proof fn lemma_bytes_lt_trans(x: Seq<u8>, y: Seq<u8>, z: Seq<u8>)
    requires
        bytes_lt(x, y),
        bytes_lt(y, z),
    ensures
        bytes_lt(x, z),
    decreases x.len(),
{
    if x.len() > 0 && y.len() > 0 && z.len() > 0 && x[0] == y[0] && y[0] == z[0] {
        lemma_bytes_lt_trans(x.drop_first(), y.drop_first(), z.drop_first());
    }
}

proof fn lemma_bytes_lt_total(x: Seq<u8>, y: Seq<u8>)
    requires
        x != y,
    ensures
        bytes_lt(x, y) || bytes_lt(y, x),
    decreases x.len(),
{
    if x.len() > 0 && y.len() > 0 && x[0] == y[0] {
        if x.drop_first() == y.drop_first() {
            assert(x =~= seq![x[0]] + x.drop_first());
            assert(y =~= seq![y[0]] + y.drop_first());
        }
        lemma_bytes_lt_total(x.drop_first(), y.drop_first());
    } else if x.len() == 0 && y.len() == 0 {
        assert(x =~= y);
    }
}

/// Name order is strict: no name comes before itself.
pub proof fn lemma_key_lt_irreflexive(a: Seq<char>)
    ensures
        !key_lt(a, a),
{
    lemma_bytes_lt_irreflexive(encode_utf8(a));
}

/// Name order is transitive.
pub proof fn lemma_key_lt_trans(a: Seq<char>, b: Seq<char>, c: Seq<char>)
    requires
        key_lt(a, b),
        key_lt(b, c),
    ensures
        key_lt(a, c),
{
    lemma_bytes_lt_trans(encode_utf8(a), encode_utf8(b), encode_utf8(c));
}

/// Of two different names, one comes first.
pub proof fn lemma_key_lt_total(a: Seq<char>, b: Seq<char>)
    requires
        a != b,
    ensures
        key_lt(a, b) || key_lt(b, a),
{
    encode_utf8_decode_utf8(a);
    encode_utf8_decode_utf8(b);
    lemma_bytes_lt_total(encode_utf8(a), encode_utf8(b));
}

proof fn lemma_key_absent(es: Seq<(Seq<char>, Tree)>, k: Seq<char>)
    requires
        key_pos(es, k) < 0,
    ensures
        forall|j: int| 0 <= j < es.len() ==> (#[trigger] es[j]).0 != k,
{
    assert forall|j: int| 0 <= j < es.len() implies (#[trigger] es[j]).0 != k by {
        if es[j].0 == k {
            lemma_first_key(es, k, j);
        }
    }
}

proof fn lemma_first_key(es: Seq<(Seq<char>, Tree)>, k: Seq<char>, j: int)
    requires
        0 <= j < es.len(),
        es[j].0 == k,
    ensures
        key_pos(es, k) >= 0,
    decreases j,
{
    if exists|i: int| 0 <= i < j && es[i].0 == k {
        let i = choose|i: int| 0 <= i < j && es[i].0 == k;
        lemma_first_key(es, k, i);
    } else {
        assert(has_key_at(es, k, j));
    }
}

proof fn lemma_slot_from(es: Seq<(Seq<char>, Tree)>, k: Seq<char>, i: int)
    requires
        0 <= i <= es.len(),
        forall|j: int| 0 <= j < i ==> key_lt(#[trigger] es[j].0, k),
    ensures
        exists|s: int| is_slot_for(es, k, s),
    decreases es.len() - i,
{
    if i == es.len() || !key_lt(es[i].0, k) {
        assert(is_slot_for(es, k, i));
    } else {
        lemma_slot_from(es, k, i + 1);
    }
}

/// Setting a key keeps a map ordered when the value set is ordered.
pub proof fn lemma_set_key_ordered(es: Seq<(Seq<char>, Tree)>, k: Seq<char>, x: Tree)
    requires
        ordered(Tree::Object(es)),
        ordered(x),
    ensures
        ordered(Tree::Object(set_key(es, k, x))),
{
    lemma_ordered_object(es);
    let es2 = set_key(es, k, x);
    let p = key_pos(es, k);
    if p >= 0 {
        assert(has_key_at(es, k, p));
        assert forall|i: int, j: int| 0 <= i < j < es2.len() implies key_lt(
            #[trigger] es2[i].0,
            #[trigger] es2[j].0,
        ) by {
            assert(es2[i].0 == es[i].0);
            assert(es2[j].0 == es[j].0);
        }
    } else {
        lemma_key_absent(es, k);
        lemma_slot_from(es, k, 0);
        let s = slot_for(es, k);
        assert(is_slot_for(es, k, s));
        assert forall|i: int, j: int| 0 <= i < j < es2.len() implies key_lt(
            #[trigger] es2[i].0,
            #[trigger] es2[j].0,
        ) by {
            if j < s {
                assert(es2[i] == es[i] && es2[j] == es[j]);
            } else if j == s {
                assert(es2[i] == es[i]);
            } else if i == s {
                assert(es2[j] == es[j - 1]);
                if j - 1 > s {
                    assert(key_lt(es[s].0, es[j - 1].0));
                }
                assert(!key_lt(es[s].0, k));
                assert(es[s].0 != k);
                lemma_key_lt_total(es[s].0, k);
                if j - 1 > s {
                    lemma_key_lt_trans(k, es[s].0, es[j - 1].0);
                }
            } else if i < s {
                assert(es2[i] == es[i] && es2[j] == es[j - 1]);
                if i < j - 1 {
                } else {
                    assert(i == j - 1);
                }
            } else {
                assert(es2[i] == es[i - 1] && es2[j] == es[j - 1]);
            }
        }
    }
    assert forall|j: int| 0 <= j < es2.len() implies ordered(#[trigger] es2[j].1) by {
        if p < 0 {
            let s = slot_for(es, k);
            if j > s {
                assert(es2[j] == es[j - 1]);
            } else if j < s {
                assert(es2[j] == es[j]);
            }
        }
    }
    lemma_ordered_object(es2);
}

proof fn lemma_set_index_ordered(arr: Seq<Tree>, i: int, x: Tree)
    requires
        ordered(Tree::Array(arr)),
        ordered(x),
        i >= 0,
    ensures
        ordered(Tree::Array(set_index(arr, i, x))),
{
    lemma_ordered_array(arr);
    let a2 = set_index(arr, i, x);
    assert forall|j: int| 0 <= j < a2.len() implies ordered(#[trigger] a2[j]) by {
        if i < arr.len() {
            if j != i {
                assert(a2[j] == arr[j]);
            }
        } else {
            let pad = Seq::new((i - arr.len()) as nat, |k: int| Tree::Null);
            assert(a2 == arr + pad + seq![x]);
            if j < arr.len() {
                assert(a2[j] == arr[j]);
            } else if j < i {
                assert(a2[j] == pad[j - arr.len()]);
            } else {
                assert(a2[j] == x);
            }
        }
    }
    lemma_ordered_array(a2);
}

pub proof fn lemma_empty_ordered()
    ensures
        ordered(Tree::Object(seq![])),
        ordered(Tree::Array(seq![])),
        ordered(Tree::Null),
{
    lemma_ordered_object(seq![]);
    lemma_ordered_array(seq![]);
}

pub proof fn lemma_vivify_ordered(p: Seq<Segment>)
    ensures
        vivify(p) matches Some(c) ==> ordered(c),
    decreases path_size(p),
{
    lemma_empty_ordered();
    if p.len() > 0 && p[0] is Coalesce {
        let alts = p[0]->Coalesce_0@;
        if alts.len() > 0 {
            lemma_path_size_step(p);
            lemma_alt_path_smaller(alts, 0, p.drop_first());
            crate::size::lemma_concat_size(alts[0]@, p.drop_first());
            lemma_vivify_ordered(alts[0]@);
        }
    }
}

/// Inserting an ordered value keeps a tree ordered.
pub proof fn lemma_ins_ordered(t: Tree, p: Seq<Segment>, x: Tree)
    requires
        ordered(t),
        ordered(x),
    ensures
        ordered(ins_path(t, p, x).0),
    decreases path_size(p), 1nat,
{
    if p.len() > 0 {
        lemma_path_size_step(p);
        if p[0] is Coalesce {
            let alts = p[0]->Coalesce_0@;
            let j = first_alt(t, alts, p.drop_first(), 0, false);
            if 0 <= j < alts.len() {
                lemma_alt_path_smaller(alts, j, p.drop_first());
                lemma_ins_ordered(t, alts[j]@ + p.drop_first(), x);
            }
        } else {
            lemma_step_ordered(t, p[0], p.drop_first(), x);
        }
    }
}

proof fn lemma_step_ordered(t: Tree, s: Segment, rest: Seq<Segment>, x: Tree)
    requires
        ordered(t),
        ordered(x),
    ensures
        ordered(ins_step(t, s, rest, x).0),
    decreases seg_size(s) + path_size(rest), 0nat,
{
    crate::size::lemma_seg_size_pos(s);
    lemma_vivify_ordered(rest);
    match s {
        Segment::Field { name, .. } => {
            if let Tree::Object(es) = t {
                lemma_ordered_object(es);
                let slot = child_of(t, s);
                if rest.len() == 0 {
                    lemma_set_key_ordered(es, name@, x);
                } else if let Some(c) = descend_base(slot, rest) {
                    if key_pos(es, name@) >= 0 {
                        assert(ordered(es[key_pos(es, name@)].1));
                    }
                    lemma_ins_ordered(c, rest, x);
                    lemma_set_key_ordered(es, name@, ins_path(c, rest, x).0);
                }
            }
        },
        Segment::Index(i) => {
            if let Tree::Array(arr) = t {
                lemma_ordered_array(arr);
                let slot = child_of(t, s);
                if i != usize::MAX {
                    if rest.len() == 0 {
                        lemma_set_index_ordered(arr, i as int, x);
                    } else if let Some(c) = descend_base(slot, rest) {
                        if i < arr.len() {
                            assert(ordered(arr[i as int]));
                        }
                        lemma_ins_ordered(c, rest, x);
                        lemma_set_index_ordered(arr, i as int, ins_path(c, rest, x).0);
                    }
                }
            }
        },
        Segment::Coalesce(_) => {},
    }
}

proof fn lemma_remove_entry_ordered(es: Seq<(Seq<char>, Tree)>, p: int)
    requires
        ordered(Tree::Object(es)),
        0 <= p < es.len(),
    ensures
        ordered(Tree::Object(es.remove(p))),
{
    lemma_ordered_object(es);
    let es2 = es.remove(p);
    assert forall|i: int, j: int| 0 <= i < j < es2.len() implies key_lt(
        #[trigger] es2[i].0,
        #[trigger] es2[j].0,
    ) by {
        let i0 = if i < p { i } else { i + 1 };
        let j0 = if j < p { j } else { j + 1 };
        assert(es2[i] == es[i0] && es2[j] == es[j0]);
    }
    assert forall|j: int| 0 <= j < es2.len() implies ordered(#[trigger] es2[j].1) by {
        if j < p {
            assert(es2[j] == es[j]);
        } else {
            assert(es2[j] == es[j + 1]);
        }
    }
    lemma_ordered_object(es2);
}

proof fn lemma_update_entry_ordered(es: Seq<(Seq<char>, Tree)>, p: int, c: Tree)
    requires
        ordered(Tree::Object(es)),
        ordered(c),
        0 <= p < es.len(),
    ensures
        ordered(Tree::Object(es.update(p, (es[p].0, c)))),
{
    lemma_ordered_object(es);
    let es2 = es.update(p, (es[p].0, c));
    assert forall|i: int, j: int| 0 <= i < j < es2.len() implies key_lt(
        #[trigger] es2[i].0,
        #[trigger] es2[j].0,
    ) by {
        assert(es2[i].0 == es[i].0 && es2[j].0 == es[j].0);
    }
    assert forall|j: int| 0 <= j < es2.len() implies ordered(#[trigger] es2[j].1) by {
        if j != p {
            assert(es2[j] == es[j]);
        }
    }
    lemma_ordered_object(es2);
}

proof fn lemma_array_edit_ordered(arr: Seq<Tree>, p: int, c: Tree)
    requires
        ordered(Tree::Array(arr)),
        ordered(c),
        0 <= p < arr.len(),
    ensures
        ordered(Tree::Array(arr.remove(p))),
        ordered(Tree::Array(arr.update(p, c))),
{
    lemma_ordered_array(arr);
    let a1 = arr.remove(p);
    let a2 = arr.update(p, c);
    assert forall|j: int| 0 <= j < a1.len() implies ordered(#[trigger] a1[j]) by {
        if j < p {
            assert(a1[j] == arr[j]);
        } else {
            assert(a1[j] == arr[j + 1]);
        }
    }
    assert forall|j: int| 0 <= j < a2.len() implies ordered(#[trigger] a2[j]) by {
        if j != p {
            assert(a2[j] == arr[j]);
        }
    }
    lemma_ordered_array(a1);
    lemma_ordered_array(a2);
}

/// Removing keeps a tree ordered.
pub proof fn lemma_rem_ordered(t: Tree, p: Seq<Segment>, prune: bool)
    requires
        ordered(t),
    ensures
        ordered(rem_path(t, p, prune).0),
    decreases path_size(p), 1nat,
{
    if p.len() > 0 {
        lemma_path_size_step(p);
        if p[0] is Coalesce {
            let alts = p[0]->Coalesce_0@;
            let j = first_alt(t, alts, p.drop_first(), 0, true);
            if 0 <= j < alts.len() {
                lemma_alt_path_smaller(alts, j, p.drop_first());
                lemma_rem_ordered(t, alts[j]@ + p.drop_first(), prune);
            }
        } else {
            lemma_rem_step_ordered(t, p[0], p.drop_first(), prune);
        }
    }
}

proof fn lemma_rem_step_ordered(t: Tree, s: Segment, rest: Seq<Segment>, prune: bool)
    requires
        ordered(t),
    ensures
        ordered(rem_step(t, s, rest, prune).0),
    decreases seg_size(s) + path_size(rest), 0nat,
{
    crate::size::lemma_seg_size_pos(s);
    lemma_empty_ordered();
    match s {
        Segment::Field { name, .. } => {
            if let Tree::Object(es) = t {
                lemma_ordered_object(es);
                let p = key_pos(es, name@);
                if p >= 0 {
                    assert(has_key_at(es, name@, p));
                    lemma_remove_entry_ordered(es, p);
                    if rest.len() > 0 {
                        lemma_rem_ordered(es[p].1, rest, prune);
                        lemma_update_entry_ordered(es, p, rem_path(es[p].1, rest, prune).0);
                    }
                }
            }
        },
        Segment::Index(i) => {
            if let Tree::Array(arr) = t {
                lemma_ordered_array(arr);
                if i < arr.len() {
                    lemma_array_edit_ordered(arr, i as int, Tree::Null);
                    if rest.len() > 0 {
                        lemma_rem_ordered(arr[i as int], rest, prune);
                        lemma_array_edit_ordered(arr, i as int, rem_path(arr[i as int], rest, prune).0);
                    }
                }
            }
        },
        Segment::Coalesce(_) => {},
    }
}

/// Writing an ordered value through a path keeps a tree ordered.
pub proof fn lemma_put_ordered(t: Tree, p: Seq<Segment>, y: Tree)
    requires
        ordered(t),
        ordered(y),
    ensures
        ordered(put_path(t, p, y)),
    decreases path_size(p),
{
    if p.len() > 0 {
        lemma_path_size_step(p);
        if p[0] is Coalesce {
            let alts = p[0]->Coalesce_0@;
            let j = first_alt(t, alts, p.drop_first(), 0, true);
            if 0 <= j < alts.len() {
                lemma_alt_path_smaller(alts, j, p.drop_first());
                lemma_put_ordered(t, alts[j]@ + p.drop_first(), y);
            }
        } else if let Some(c) = child_of(t, p[0]) {
            match p[0] {
                Segment::Field { name, .. } => {
                    let es = t->Object_0;
                    lemma_ordered_object(es);
                    let k = key_pos(es, name@);
                    assert(has_key_at(es, name@, k));
                    lemma_put_ordered(c, p.drop_first(), y);
                    lemma_update_entry_ordered(es, k, put_path(c, p.drop_first(), y));
                },
                Segment::Index(i) => {
                    let arr = t->Array_0;
                    lemma_ordered_array(arr);
                    lemma_put_ordered(c, p.drop_first(), y);
                    lemma_array_edit_ordered(arr, i as int, put_path(c, p.drop_first(), y));
                },
                Segment::Coalesce(_) => {},
            }
        }
    }
}

/// Replacing the map that `entry` reaches by an ordered map keeps the
/// fields ordered.
pub proof fn lemma_put_entry_ordered(
    es: Seq<(Seq<char>, Tree)>,
    p: Seq<Segment>,
    m: Seq<(Seq<char>, Tree)>,
)
    requires
        ordered(Tree::Object(es)),
        ordered(Tree::Object(m)),
        entry_walk(es, p) is Ok,
    ensures
        ordered(Tree::Object(put_entry_map(es, p, m))),
    decreases p.len(),
{
    if p.len() > 1 {
        lemma_ordered_object(es);
        let k = key_pos(es, p[0]->Field_name@);
        assert(k >= 0);
        assert(has_key_at(es, p[0]->Field_name@, k));
        let inner = es[k].1->Object_0;
        assert(ordered(es[k].1));
        lemma_put_entry_ordered(inner, p.drop_first(), m);
        lemma_update_entry_ordered(es, k, Tree::Object(put_entry_map(inner, p.drop_first(), m)));
    }
}

/// The node that the steps `s` lead to from `t`.
pub open spec fn get_steps(t: Tree, s: Seq<Step>) -> Option<Tree>
    decreases s.len(),
{
    if s.len() == 0 {
        Some(t)
    } else {
        match s[0] {
            Step::Field(k) => match t {
                Tree::Object(es) => {
                    let p = key_pos(es, k);
                    if p >= 0 {
                        get_steps(es[p].1, s.drop_first())
                    } else {
                        None
                    }
                },
                _ => None,
            },
            Step::Index(i) => match t {
                Tree::Array(arr) => if 0 <= i < arr.len() {
                    get_steps(arr[i], s.drop_first())
                } else {
                    None
                },
                _ => None,
            },
        }
    }
}

/// Each listed path starts with `prefix`, and the steps after it lead from
/// `t` to the node listed with it.
pub open spec fn all_reach(t: Tree, prefix: Seq<Step>, ps: Seq<(Seq<Step>, Tree)>) -> bool {
    forall|k: int|
        0 <= k < ps.len() ==> (#[trigger] ps[k]).0.len() >= prefix.len() && ps[k].0.take(
            prefix.len() as int,
        ) == prefix && get_steps(t, ps[k].0.skip(prefix.len() as int)) == Some(ps[k].1)
}

proof fn lemma_all_reach_concat(t: Tree, prefix: Seq<Step>, a: Seq<(Seq<Step>, Tree)>, b: Seq<(Seq<Step>, Tree)>)
    requires
        all_reach(t, prefix, a),
        all_reach(t, prefix, b),
    ensures
        all_reach(t, prefix, a + b),
{
    assert forall|k: int| 0 <= k < (a + b).len() implies (#[trigger] (a + b)[k]).0.len() >= prefix.len()
        && (a + b)[k].0.take(prefix.len() as int) == prefix && get_steps(
        t,
        (a + b)[k].0.skip(prefix.len() as int),
    ) == Some((a + b)[k].1) by {
        if k < a.len() {
            assert((a + b)[k] == a[k]);
        } else {
            assert((a + b)[k] == b[k - a.len()]);
        }
    }
}

/// From a child reached by step `st` to its parent `t`.
proof fn lemma_all_reach_up(t: Tree, prefix: Seq<Step>, st: Step, c: Tree, ps: Seq<(Seq<Step>, Tree)>)
    requires
        all_reach(c, prefix.push(st), ps),
        get_steps(t, seq![st]) == Some(c),
        forall|s: Seq<Step>| #[trigger] get_steps(t, seq![st] + s) == get_steps(c, s),
    ensures
        all_reach(t, prefix, ps),
{
    let n = prefix.len() as int;
    assert forall|k: int| 0 <= k < ps.len() implies (#[trigger] ps[k]).0.len() >= prefix.len()
        && ps[k].0.take(n) == prefix && get_steps(t, ps[k].0.skip(n)) == Some(ps[k].1) by {
        let q = ps[k].0;
        assert(q.take(n + 1) == prefix.push(st));
        assert(q.take(n) =~= q.take(n + 1).take(n));
        assert(prefix.push(st).take(n) =~= prefix);
        assert(q[n] == q.take(n + 1)[n]);
        assert(q.skip(n) =~= seq![st] + q.skip(n + 1));
    }
}

proof fn lemma_step_field(es: Seq<(Seq<char>, Tree)>, i: int)
    requires
        ordered(Tree::Object(es)),
        0 <= i < es.len(),
    ensures
        forall|s: Seq<Step>| #[trigger] get_steps(Tree::Object(es), seq![Step::Field(es[i].0)] + s)
            == get_steps(es[i].1, s),
{
    lemma_ordered_object(es);
    let k = es[i].0;
    assert forall|j: int| 0 <= j < i implies (#[trigger] es[j]).0 != k by {
        lemma_key_lt_irreflexive(k);
    }
    assert(has_key_at(es, k, i));
    let c = choose|c: int| has_key_at(es, k, c);
    assert(c == i) by {
        if c > i {
            assert(es[i].0 != k);
        }
    }
    assert forall|s: Seq<Step>| #[trigger] get_steps(Tree::Object(es), seq![Step::Field(k)] + s)
        == get_steps(es[i].1, s) by {
        let q = seq![Step::Field(k)] + s;
        assert(q[0] == Step::Field(k));
        assert(q.drop_first() =~= s);
    }
}

proof fn lemma_step_index(arr: Seq<Tree>, i: int)
    requires
        0 <= i < arr.len(),
    ensures
        forall|s: Seq<Step>| #[trigger] get_steps(Tree::Array(arr), seq![Step::Index(i)] + s)
            == get_steps(arr[i], s),
{
    assert forall|s: Seq<Step>| #[trigger] get_steps(Tree::Array(arr), seq![Step::Index(i)] + s)
        == get_steps(arr[i], s) by {
        let q = seq![Step::Index(i)] + s;
        assert(q[0] == Step::Index(i));
        assert(q.drop_first() =~= s);
    }
}

/// Every path that `flat` lists leads to the node listed with it.
pub proof fn lemma_flat_reach(t: Tree, prefix: Seq<Step>, leaves: bool)
    requires
        ordered(t),
    ensures
        all_reach(t, prefix, flat(t, prefix, leaves)),
    decreases t, kids_len(t) + 1,
{
    let head: Seq<(Seq<Step>, Tree)> = if leaves {
        seq![]
    } else {
        seq![(prefix, t)]
    };
    assert(prefix.take(prefix.len() as int) =~= prefix);
    assert(prefix.skip(prefix.len() as int) =~= Seq::<Step>::empty());
    assert(all_reach(t, prefix, seq![(prefix, t)]));
    assert(all_reach(t, prefix, Seq::<(Seq<Step>, Tree)>::empty()));
    match t {
        Tree::Object(_) => {
            lemma_flat_from_reach(t, prefix, leaves, 0);
            lemma_all_reach_concat(t, prefix, head, flat_from(t, prefix, leaves, 0));
        },
        Tree::Array(_) => {
            lemma_flat_from_reach(t, prefix, leaves, 0);
            lemma_all_reach_concat(t, prefix, head, flat_from(t, prefix, leaves, 0));
        },
        _ => {},
    }
}

/// Every path that `flat_from` lists leads to the node listed with it.
pub proof fn lemma_flat_from_reach(t: Tree, prefix: Seq<Step>, leaves: bool, i: int)
    requires
        ordered(t),
        0 <= i,
    ensures
        all_reach(t, prefix, flat_from(t, prefix, leaves, i)),
    decreases t, kids_len(t) - i,
{
    assert(all_reach(t, prefix, Seq::<(Seq<Step>, Tree)>::empty()));
    match t {
        Tree::Object(es) => {
            if i < es.len() {
                lemma_ordered_object(es);
                let st = Step::Field(es[i].0);
                lemma_flat_reach(es[i].1, prefix.push(st), leaves);
                lemma_step_field(es, i);
                assert(seq![st] + Seq::<Step>::empty() =~= seq![st]);
                assert(get_steps(es[i].1, Seq::<Step>::empty()) == Some(es[i].1));
                lemma_all_reach_up(t, prefix, st, es[i].1, flat(es[i].1, prefix.push(st), leaves));
                lemma_flat_from_reach(t, prefix, leaves, i + 1);
                lemma_all_reach_concat(
                    t,
                    prefix,
                    flat(es[i].1, prefix.push(st), leaves),
                    flat_from(t, prefix, leaves, i + 1),
                );
            }
        },
        Tree::Array(arr) => {
            if i < arr.len() {
                lemma_ordered_array(arr);
                let st = Step::Index(i);
                lemma_flat_reach(arr[i], prefix.push(st), leaves);
                lemma_step_index(arr, i);
                assert(seq![st] + Seq::<Step>::empty() =~= seq![st]);
                assert(get_steps(arr[i], Seq::<Step>::empty()) == Some(arr[i]));
                lemma_all_reach_up(t, prefix, st, arr[i], flat(arr[i], prefix.push(st), leaves));
                lemma_flat_from_reach(t, prefix, leaves, i + 1);
                lemma_all_reach_concat(
                    t,
                    prefix,
                    flat(arr[i], prefix.push(st), leaves),
                    flat_from(t, prefix, leaves, i + 1),
                );
            }
        },
        _ => {},
    }
}

} // verus!
