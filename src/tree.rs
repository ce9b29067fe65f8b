use vstd::prelude::*;
use vstd::utf8::encode_utf8;

use crate::path::Segment;
use crate::size::{
    alts_size, lemma_alt_path_smaller, lemma_concat_size, lemma_path_size_step, lemma_seg_size_pos,
    path_size, seg_size,
};

verus! {

/// The mathematical model of a value node: maps are sequences of
/// (name, node) entries, arrays sequences of nodes.
pub enum Tree {
    Null,
    Boolean(bool),
    Integer(i64),
    Timestamp(i64),
    Bytes(Seq<u8>),
    Object(Seq<(Seq<char>, Tree)>),
    Array(Seq<Tree>),
}

/// One step of a path, as a value: a field name or an array index.
pub enum Step {
    Field(Seq<char>),
    Index(int),
}

/// Lexicographic order on byte strings.
pub open spec fn bytes_lt(x: Seq<u8>, y: Seq<u8>) -> bool
    decreases x.len(),
{
    if x.len() == 0 {
        y.len() > 0
    } else if y.len() == 0 {
        false
    } else if x[0] != y[0] {
        x[0] < y[0]
    } else {
        bytes_lt(x.drop_first(), y.drop_first())
    }
}

/// The order of field names: that of their UTF-8 bytes.
pub open spec fn key_lt(a: Seq<char>, b: Seq<char>) -> bool {
    bytes_lt(encode_utf8(a), encode_utf8(b))
}

/// `i` is the first position of the entries that holds key `k`.
pub open spec fn has_key_at(es: Seq<(Seq<char>, Tree)>, k: Seq<char>, i: int) -> bool {
    &&& 0 <= i < es.len()
    &&& es[i].0 == k
    &&& forall|j: int| 0 <= j < i ==> (#[trigger] es[j]).0 != k
}

/// The position of key `k` among the entries, or -1 where it is absent.
pub open spec fn key_pos(es: Seq<(Seq<char>, Tree)>, k: Seq<char>) -> int {
    if exists|i: int| has_key_at(es, k, i) {
        choose|i: int| has_key_at(es, k, i)
    } else {
        -1
    }
}

/// `i` is where a new key `k` goes: after every smaller name, before the rest.
pub open spec fn is_slot_for(es: Seq<(Seq<char>, Tree)>, k: Seq<char>, i: int) -> bool {
    &&& 0 <= i <= es.len()
    &&& forall|j: int| 0 <= j < i ==> key_lt(#[trigger] es[j].0, k)
    &&& i < es.len() ==> !key_lt(es[i].0, k)
}

/// The position at which a new key `k` is inserted.
pub open spec fn slot_for(es: Seq<(Seq<char>, Tree)>, k: Seq<char>) -> int {
    choose|i: int| is_slot_for(es, k, i)
}

/// The entries with `k` set to `x`: in place where `k` is present, else at
/// its slot in name order.
pub open spec fn set_key(es: Seq<(Seq<char>, Tree)>, k: Seq<char>, x: Tree) -> Seq<
    (Seq<char>, Tree),
> {
    let p = key_pos(es, k);
    if p >= 0 {
        es.update(p, (k, x))
    } else {
        es.insert(slot_for(es, k), (k, x))
    }
}

/// The array extended with nulls up to index `i`, then `x` at `i`.
pub open spec fn set_index(arr: Seq<Tree>, i: int, x: Tree) -> Seq<Tree> {
    if i < arr.len() {
        arr.update(i, x)
    } else {
        arr + Seq::new((i - arr.len()) as nat, |k: int| Tree::Null) + seq![x]
    }
}

/// The node that one step leads to from `t`.
pub open spec fn child_of(t: Tree, s: Segment) -> Option<Tree> {
    match s {
        Segment::Field { name, .. } => match t {
            Tree::Object(es) => {
                let p = key_pos(es, name@);
                if p >= 0 {
                    Some(es[p].1)
                } else {
                    None
                }
            },
            _ => None,
        },
        Segment::Index(i) => match t {
            Tree::Array(arr) => if i < arr.len() {
                Some(arr[i as int])
            } else {
                None
            },
            _ => None,
        },
        Segment::Coalesce(_) => None,
    }
}

/// The value at path `p` below `t`. A coalesce group, wherever it stands,
/// takes its first alternative that, followed by the rest of the path,
/// holds a value; where none does, there is no value.
pub open spec fn get_path(t: Tree, p: Seq<Segment>) -> Option<Tree>
    decreases path_size(p), 1nat, 0int,
{
    if p.len() == 0 {
        Some(t)
    } else if {
        proof {
            lemma_path_size_step(p);
        }
        p[0] is Coalesce
    } {
        let alts = p[0]->Coalesce_0@;
        let j = first_alt(t, alts, p.drop_first(), 0, true);
        if 0 <= j < alts.len() {
            proof {
                lemma_alt_path_smaller(alts, j, p.drop_first());
            }
            get_path(t, alts[j]@ + p.drop_first())
        } else {
            None
        }
    } else {
        match child_of(t, p[0]) {
            Some(c) => get_path(c, p.drop_first()),
            None => None,
        }
    }
}

/// The first alternative, from position `i` on, whose path followed by
/// `rest` holds a value below `t` (`want`) or holds none (`!want`); -1 if
/// there is none.
pub open spec fn first_alt(
    t: Tree,
    alts: Seq<Vec<Segment>>,
    rest: Seq<Segment>,
    i: int,
    want: bool,
) -> int
    decreases 1 + alts_size(alts) + path_size(rest), 0nat, alts.len() - i,
{
    if i < 0 || i >= alts.len() {
        -1
    } else {
        proof {
            lemma_alt_path_smaller(alts, i, rest);
        }
        if (get_path(t, alts[i]@ + rest) is Some) == want {
            i
        } else {
            first_alt(t, alts, rest, i + 1, want)
        }
    }
}

/// The empty container that an insert creates in front of the path `p`: a
/// map before a field, an array before an index; before a coalesce group,
/// what its first alternative begins with, through nested groups.
pub open spec fn vivify(p: Seq<Segment>) -> Option<Tree>
    decreases path_size(p),
{
    if p.len() == 0 {
        None
    } else {
        match p[0] {
            Segment::Field { .. } => Some(Tree::Object(seq![])),
            Segment::Index(_) => Some(Tree::Array(seq![])),
            Segment::Coalesce(alts) => if alts@.len() > 0 {
                proof {
                    lemma_path_size_step(p);
                    lemma_alt_path_smaller(alts@, 0, p.drop_first());
                    lemma_concat_size(alts@[0]@, p.drop_first());
                }
                vivify(alts@[0]@)
            } else {
                None
            },
        }
    }
}

/// The node that an insert descends into below a slot: what the slot holds,
/// unless it is empty or null, in which case a fresh container.
pub open spec fn descend_base(slot: Option<Tree>, rest: Seq<Segment>) -> Option<Tree> {
    match slot {
        Some(c) => if c is Null {
            vivify(rest)
        } else {
            Some(c)
        },
        None => vivify(rest),
    }
}

/// Inserting `x` at path `p` below `t`: the new node and the value that was
/// replaced. A coalesce group takes its first alternative that, followed by
/// the rest of the path, holds no value; where every one holds a value,
/// nothing changes.
pub open spec fn ins_path(t: Tree, p: Seq<Segment>, x: Tree) -> (Tree, Option<Tree>)
    decreases path_size(p), 1nat,
{
    if p.len() == 0 {
        (t, None)
    } else if {
        proof {
            lemma_path_size_step(p);
        }
        p[0] is Coalesce
    } {
        let alts = p[0]->Coalesce_0@;
        let j = first_alt(t, alts, p.drop_first(), 0, false);
        if 0 <= j < alts.len() {
            proof {
                lemma_alt_path_smaller(alts, j, p.drop_first());
            }
            ins_path(t, alts[j]@ + p.drop_first(), x)
        } else {
            (t, None)
        }
    } else {
        proof {
            lemma_seg_size_pos(p[0]);
        }
        ins_step(t, p[0], p.drop_first(), x)
    }
}

/// Inserting `x` one field or index step `s` below `t`, then along `rest`.
pub open spec fn ins_step(t: Tree, s: Segment, rest: Seq<Segment>, x: Tree) -> (Tree, Option<Tree>)
    decreases seg_size(s) + path_size(rest), 0nat,
{
    let last = rest.len() == 0;
    proof {
        lemma_seg_size_pos(s);
    }
    match s {
        Segment::Field { name, .. } => match t {
            Tree::Object(es) => {
                let p = key_pos(es, name@);
                let slot = if p >= 0 {
                    Some(es[p].1)
                } else {
                    None
                };
                if last {
                    (Tree::Object(set_key(es, name@, x)), slot)
                } else {
                    match descend_base(slot, rest) {
                        Some(c) => {
                            let (c2, r) = ins_path(c, rest, x);
                            (Tree::Object(set_key(es, name@, c2)), r)
                        },
                        None => (t, None),
                    }
                }
            },
            _ => (t, None),
        },
        Segment::Index(i) => match t {
            Tree::Array(arr) => {
                let slot = if i < arr.len() {
                    Some(arr[i as int])
                } else {
                    None
                };
                if i == usize::MAX {
                    (t, None)
                } else if last {
                    (Tree::Array(set_index(arr, i as int, x)), slot)
                } else {
                    match descend_base(slot, rest) {
                        Some(c) => {
                            let (c2, r) = ins_path(c, rest, x);
                            (Tree::Array(set_index(arr, i as int, c2)), r)
                        },
                        None => (t, None),
                    }
                }
            },
            _ => (t, None),
        },
        Segment::Coalesce(_) => (t, None),
    }
}


/// A map node after a removal below it: with `prune`, a map that the
/// removal left empty becomes null, the mark of an empty slot.
pub open spec fn settle_object(es: Seq<(Seq<char>, Tree)>, prune: bool, r: Option<Tree>) -> Tree {
    if prune && r is Some && es.len() == 0 {
        Tree::Null
    } else {
        Tree::Object(es)
    }
}

/// An array node after a removal below it, as `settle_object`.
pub open spec fn settle_array(arr: Seq<Tree>, prune: bool, r: Option<Tree>) -> Tree {
    if prune && r is Some && arr.len() == 0 {
        Tree::Null
    } else {
        Tree::Array(arr)
    }
}

/// Removing the value at path `p` below `t`: the new node and the value
/// that was removed. A coalesce group is resolved as for `get_path`.
pub open spec fn rem_path(t: Tree, p: Seq<Segment>, prune: bool) -> (Tree, Option<Tree>)
    decreases path_size(p), 1nat,
{
    if p.len() == 0 {
        (t, None)
    } else if {
        proof {
            lemma_path_size_step(p);
        }
        p[0] is Coalesce
    } {
        let alts = p[0]->Coalesce_0@;
        let j = first_alt(t, alts, p.drop_first(), 0, true);
        if 0 <= j < alts.len() {
            proof {
                lemma_alt_path_smaller(alts, j, p.drop_first());
            }
            rem_path(t, alts[j]@ + p.drop_first(), prune)
        } else {
            (t, None)
        }
    } else {
        proof {
            lemma_seg_size_pos(p[0]);
        }
        rem_step(t, p[0], p.drop_first(), prune)
    }
}

/// Removing one field or index step `s` below `t`, then along `rest`. With
/// `prune`, a slot whose value is null after the removal below it is taken
/// out too, whether the removal emptied it or the null was stored there.
pub open spec fn rem_step(t: Tree, s: Segment, rest: Seq<Segment>, prune: bool) -> (
    Tree,
    Option<Tree>,
)
    decreases seg_size(s) + path_size(rest), 0nat,
{
    let last = rest.len() == 0;
    proof {
        lemma_seg_size_pos(s);
    }
    match s {
        Segment::Field { name, .. } => match t {
            Tree::Object(es) => {
                let p = key_pos(es, name@);
                if p < 0 {
                    (t, None)
                } else if last {
                    (settle_object(es.remove(p), prune, Some(es[p].1)), Some(es[p].1))
                } else {
                    let (c2, r) = rem_path(es[p].1, rest, prune);
                    let es2 = if prune && c2 is Null {
                        es.remove(p)
                    } else {
                        es.update(p, (es[p].0, c2))
                    };
                    (settle_object(es2, prune, r), r)
                }
            },
            _ => (t, None),
        },
        Segment::Index(i) => match t {
            Tree::Array(arr) => {
                if i >= arr.len() {
                    (t, None)
                } else if last {
                    (settle_array(arr.remove(i as int), prune, Some(arr[i as int])), Some(arr[i as int]))
                } else {
                    let (c2, r) = rem_path(arr[i as int], rest, prune);
                    let arr2 = if prune && c2 is Null {
                        arr.remove(i as int)
                    } else {
                        arr.update(i as int, c2)
                    };
                    (settle_array(arr2, prune, r), r)
                }
            },
            _ => (t, None),
        },
        Segment::Coalesce(_) => (t, None),
    }
}


/// The number of children of a node.
pub open spec fn kids_len(t: Tree) -> int {
    match t {
        Tree::Object(es) => es.len() as int,
        Tree::Array(arr) => arr.len() as int,
        _ => 0,
    }
}

/// Every path below `t`, each starting with `prefix`, with the node it
/// leads to, in pre-order: map entries in their order, array elements by
/// index. A container's own path comes before those of its children, and is
/// left out when `leaves` holds; a scalar's path is always there.
pub open spec fn flat(t: Tree, prefix: Seq<Step>, leaves: bool) -> Seq<(Seq<Step>, Tree)>
    decreases t, kids_len(t) + 1,
{
    match t {
        Tree::Object(_) => (if leaves {
            seq![]
        } else {
            seq![(prefix, t)]
        }) + flat_from(t, prefix, leaves, 0),
        Tree::Array(_) => (if leaves {
            seq![]
        } else {
            seq![(prefix, t)]
        }) + flat_from(t, prefix, leaves, 0),
        _ => seq![(prefix, t)],
    }
}

/// The paths below the children of `t` from the `i`-th on, as `flat`.
pub open spec fn flat_from(t: Tree, prefix: Seq<Step>, leaves: bool, i: int) -> Seq<
    (Seq<Step>, Tree),
>
    decreases t, kids_len(t) - i,
{
    match t {
        Tree::Object(es) => if 0 <= i < es.len() {
            flat(es[i].1, prefix.push(Step::Field(es[i].0)), leaves) + flat_from(
                t,
                prefix,
                leaves,
                i + 1,
            )
        } else {
            seq![]
        },
        Tree::Array(arr) => if 0 <= i < arr.len() {
            flat(arr[i], prefix.push(Step::Index(i)), leaves) + flat_from(t, prefix, leaves, i + 1)
        } else {
            seq![]
        },
        _ => seq![],
    }
}

/// Every path of the fields of an event, as `flat` gives them for each
/// field in turn; the root itself has no path.
pub open spec fn flat_fields(es: Seq<(Seq<char>, Tree)>, leaves: bool) -> Seq<(Seq<Step>, Tree)> {
    flat_from(Tree::Object(es), seq![], leaves, 0)
}

/// `t` with the node that one step `s` leads to replaced by `c`.
pub open spec fn replace_child(t: Tree, s: Segment, c: Tree) -> Tree {
    match s {
        Segment::Field { name, .. } => match t {
            Tree::Object(es) => {
                let p = key_pos(es, name@);
                if p >= 0 {
                    Tree::Object(es.update(p, (es[p].0, c)))
                } else {
                    t
                }
            },
            _ => t,
        },
        Segment::Index(i) => match t {
            Tree::Array(arr) => if i < arr.len() {
                Tree::Array(arr.update(i as int, c))
            } else {
                t
            },
            _ => t,
        },
        Segment::Coalesce(_) => t,
    }
}

/// `t` with the node that `get_path(t, p)` finds replaced by `y`; `t`
/// itself where there is none.
pub open spec fn put_path(t: Tree, p: Seq<Segment>, y: Tree) -> Tree
    decreases path_size(p),
{
    if p.len() == 0 {
        y
    } else if {
        proof {
            lemma_path_size_step(p);
        }
        p[0] is Coalesce
    } {
        let alts = p[0]->Coalesce_0@;
        let j = first_alt(t, alts, p.drop_first(), 0, true);
        if 0 <= j < alts.len() {
            proof {
                lemma_alt_path_smaller(alts, j, p.drop_first());
            }
            put_path(t, alts[j]@ + p.drop_first(), y)
        } else {
            t
        }
    } else {
        proof {
            lemma_seg_size_pos(p[0]);
        }
        match child_of(t, p[0]) {
            Some(c) => replace_child(t, p[0], put_path(c, p.drop_first(), y)),
            None => t,
        }
    }
}


/// Why the entry of a path cannot be reached.
pub enum EntryFault {
    /// A value on the way is not a map.
    NotAMap,
    /// The field (first) is missing below the field (second).
    Missing(Seq<char>, Seq<char>),
    /// A segment of the path is not a plain field.
    NotAField,
}

/// The map that holds the last field of the path `p` of fields, reached from
/// the entries `es` without creating anything; or why it cannot be reached.
pub open spec fn entry_walk(es: Seq<(Seq<char>, Tree)>, p: Seq<Segment>) -> Result<
    Seq<(Seq<char>, Tree)>,
    EntryFault,
>
    decreases p.len(),
{
    if p.len() == 0 || !(p[0] is Field) {
        Err(EntryFault::NotAField)
    } else if p.len() == 1 {
        Ok(es)
    } else if !(p[1] is Field) {
        Err(EntryFault::NotAField)
    } else {
        let k = p[0]->Field_name@;
        let pos = key_pos(es, k);
        if pos < 0 {
            Err(EntryFault::Missing(p[1]->Field_name@, k))
        } else {
            match es[pos].1 {
                Tree::Object(inner) => entry_walk(inner, p.drop_first()),
                _ => Err(EntryFault::NotAMap),
            }
        }
    }
}

/// The entries `es` with the map that `entry_walk` reaches replaced by `m`.
pub open spec fn put_entry_map(
    es: Seq<(Seq<char>, Tree)>,
    p: Seq<Segment>,
    m: Seq<(Seq<char>, Tree)>,
) -> Seq<(Seq<char>, Tree)>
    decreases p.len(),
{
    if p.len() <= 1 {
        m
    } else {
        let pos = key_pos(es, p[0]->Field_name@);
        match es[pos].1 {
            Tree::Object(inner) => es.update(
                pos,
                (es[pos].0, Tree::Object(put_entry_map(inner, p.drop_first(), m))),
            ),
            _ => es,
        }
    }
}

/// The path `p` addresses `t` itself: it is empty once its groups are
/// resolved.
pub open spec fn resolves_here(t: Tree, p: Seq<Segment>) -> bool
    decreases path_size(p),
{
    if p.len() == 0 {
        true
    } else if {
        proof {
            lemma_path_size_step(p);
        }
        p[0] is Coalesce
    } {
        let alts = p[0]->Coalesce_0@;
        let j = first_alt(t, alts, p.drop_first(), 0, true);
        if 0 <= j < alts.len() {
            proof {
                lemma_alt_path_smaller(alts, j, p.drop_first());
            }
            resolves_here(t, alts[j]@ + p.drop_first())
        } else {
            false
        }
    } else {
        false
    }
}

/// Writing through a path that does not address a map itself leaves it a map.
pub proof fn lemma_put_keeps_object(es: Seq<(Seq<char>, Tree)>, p: Seq<Segment>, y: Tree)
    requires
        !resolves_here(Tree::Object(es), p),
    ensures
        put_path(Tree::Object(es), p, y) is Object,
    decreases path_size(p),
{
    let t = Tree::Object(es);
    if p.len() > 0 && p[0] is Coalesce {
        let alts = p[0]->Coalesce_0@;
        let j = first_alt(t, alts, p.drop_first(), 0, true);
        if 0 <= j < alts.len() {
            lemma_path_size_step(p);
            lemma_alt_path_smaller(alts, j, p.drop_first());
            lemma_put_keeps_object(es, alts[j]@ + p.drop_first(), y);
        }
    }
}

/// A listed path leads to a scalar, not to a map or an array.
pub open spec fn leaf_entry() -> spec_fn((Seq<Step>, Tree)) -> bool {
    |e: (Seq<Step>, Tree)| !(e.1 is Object) && !(e.1 is Array)
}

proof fn lemma_filter_one(e: (Seq<Step>, Tree))
    ensures
        seq![e].filter(leaf_entry()) == if leaf_entry()(e) {
            seq![e]
        } else {
            Seq::<(Seq<Step>, Tree)>::empty()
        },
{
    reveal_with_fuel(Seq::<(Seq<Step>, Tree)>::filter, 2);
    assert(seq![e].drop_last() =~= Seq::<(Seq<Step>, Tree)>::empty());
    if leaf_entry()(e) {
        assert(Seq::<(Seq<Step>, Tree)>::empty().push(e) =~= seq![e]);
    }
}

/// Leaves-only listing is the full listing with the paths of maps and arrays
/// taken out, in the same order.
pub proof fn law_leaves_are_filtered(t: Tree, prefix: Seq<Step>)
    ensures
        flat(t, prefix, true) == flat(t, prefix, false).filter(leaf_entry()),
    decreases t, kids_len(t) + 1,
{
    let e = (prefix, t);
    lemma_filter_one(e);
    match t {
        Tree::Object(_) => {
            lemma_leaves_from(t, prefix, 0);
            Seq::filter_distributes_over_add(seq![e], flat_from(t, prefix, false, 0), leaf_entry());
            assert(flat(t, prefix, true) =~= flat_from(t, prefix, true, 0));
        },
        Tree::Array(_) => {
            lemma_leaves_from(t, prefix, 0);
            Seq::filter_distributes_over_add(seq![e], flat_from(t, prefix, false, 0), leaf_entry());
            assert(flat(t, prefix, true) =~= flat_from(t, prefix, true, 0));
        },
        _ => {},
    }
}

pub proof fn lemma_leaves_from(t: Tree, prefix: Seq<Step>, i: int)
    requires
        0 <= i,
    ensures
        flat_from(t, prefix, true, i) == flat_from(t, prefix, false, i).filter(leaf_entry()),
    decreases t, kids_len(t) - i,
{
    reveal_with_fuel(Seq::<(Seq<Step>, Tree)>::filter, 1);
    match t {
        Tree::Object(es) => {
            if i < es.len() {
                let p2 = prefix.push(Step::Field(es[i].0));
                law_leaves_are_filtered(es[i].1, p2);
                lemma_leaves_from(t, prefix, i + 1);
                Seq::filter_distributes_over_add(
                    flat(es[i].1, p2, false),
                    flat_from(t, prefix, false, i + 1),
                    leaf_entry(),
                );
            } else {
                assert(Seq::<(Seq<Step>, Tree)>::empty().filter(leaf_entry()) =~= Seq::<(Seq<Step>, Tree)>::empty());
            }
        },
        Tree::Array(arr) => {
            if i < arr.len() {
                let p2 = prefix.push(Step::Index(i));
                law_leaves_are_filtered(arr[i], p2);
                lemma_leaves_from(t, prefix, i + 1);
                Seq::filter_distributes_over_add(
                    flat(arr[i], p2, false),
                    flat_from(t, prefix, false, i + 1),
                    leaf_entry(),
                );
            } else {
                assert(Seq::<(Seq<Step>, Tree)>::empty().filter(leaf_entry()) =~= Seq::<(Seq<Step>, Tree)>::empty());
            }
        },
        _ => {
            assert(Seq::<(Seq<Step>, Tree)>::empty().filter(leaf_entry()) =~= Seq::<(Seq<Step>, Tree)>::empty());
        },
    }
}

} // verus!
