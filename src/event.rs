use vstd::prelude::*;

use crate::flatten::{all_concrete, collect_pairs, pairs_view, steps_of};
use crate::order::{
    lemma_empty_ordered, lemma_ins_ordered, lemma_put_entry_ordered, lemma_put_ordered,
    lemma_rem_ordered, ordered,
};
use crate::path::{copy_path, is_concrete, start, Segment};
use crate::tree::{
    child_of, entry_walk, first_alt, flat, put_entry_map, EntryFault, flat_fields, flat_from, get_path, ins_path, put_path, rem_path, resolves_here, lemma_put_keeps_object,
    replace_child, Step, Tree,
};
use crate::value::{
    entry_in, get_exec, get_mut_at, EntryError, insert_at, lemma_object_view, opt_ref_view, opt_view, remove_at,
    FieldMap, Value,
};

verus! {

broadcast use crate::value::lemma_object_view;

/// The fields of a root node: its entries where it is a map, none otherwise.
pub open spec fn fields_of(t: Tree) -> Seq<(Seq<char>, Tree)> {
    match t {
        Tree::Object(es) => es,
        _ => seq![],
    }
}

/// The fields after inserting each (path, value) pair of `items` in turn.
pub open spec fn insert_all(es: Seq<(Seq<char>, Tree)>, items: Seq<(Vec<Segment>, Value)>) -> Seq<
    (Seq<char>, Tree),
>
    decreases items.len(),
{
    if items.len() == 0 {
        es
    } else {
        insert_all(
            fields_of(ins_path(Tree::Object(es), items[0].0@, items[0].1@).0),
            items.drop_first(),
        )
    }
}

/// One structured record: a map from field name to value, addressed by paths.
pub struct LogEvent {
    root: Value,
}

impl View for LogEvent {
    type V = Seq<(Seq<char>, Tree)>;

    closed spec fn view(&self) -> Seq<(Seq<char>, Tree)> {
        fields_of(self.root@)
    }
}

impl LogEvent {
    /// The root is a map, and every map of the event has its keys in strictly
    /// ascending name order.
    pub closed spec fn wf(&self) -> bool {
        self.root is Object && ordered(self.root@)
    }

    /// The whole event as a map node.
    pub open spec fn tree(&self) -> Tree {
        Tree::Object(self@)
    }

    proof fn lemma_root(e: &LogEvent)
        requires
            e.root is Object,
        ensures
            e.root@ == e.tree(),
    {
        lemma_object_view(e.root->Object_0);
    }

    /// An event with no fields.
    pub fn new() -> (r: LogEvent)
        ensures
            r.wf(),
            r@ == Seq::<(Seq<char>, Tree)>::empty(),
    {
        let r = LogEvent { root: Value::Object(FieldMap { entries: Vec::new() }) };
        proof {
            lemma_empty_ordered();
            lemma_object_view(r.root->Object_0);
            assert(r@ =~= Seq::<(Seq<char>, Tree)>::empty());
        }
        r
    }

    /// An event holding the given fields.
    pub fn from_fields(fields: FieldMap) -> (r: LogEvent)
        requires
            ordered(Tree::Object(fields@)),
        ensures
            r.wf(),
            r@ == fields@,
    {
        let r = LogEvent { root: Value::Object(fields) };
        proof {
            lemma_object_view(r.root->Object_0);
        }
        r
    }

    /// The value at `path`, if there is one.
    pub fn get(&self, path: &Vec<Segment>) -> (r: Option<&Value>)
        requires
            self.wf(),
            path@.len() > 0,
        ensures
            opt_ref_view(r) == get_path(self.tree(), path@),
    {
        proof {
            LogEvent::lemma_root(&*self);
        }
        let parts = start(path);
        get_exec(&self.root, &parts)
    }

    /// Whether a value stands at `path`.
    pub fn contains(&self, path: &Vec<Segment>) -> (r: bool)
        requires
            self.wf(),
            path@.len() > 0,
        ensures
            r == get_path(self.tree(), path@) is Some,
    {
        self.get(path).is_some()
    }

    /// Inserts `value` at `path`, creating the containers on the way, and
    /// returns the value that it replaced.
    pub fn insert(&mut self, path: &Vec<Segment>, value: Value) -> (r: Option<Value>)
        requires
            old(self).wf(),
            path@.len() > 0,
            ordered(value@),
        ensures
            final(self)@ == fields_of(ins_path(old(self).tree(), path@, value@).0),
            opt_view(r) == ins_path(old(self).tree(), path@, value@).1,
            final(self).wf(),
    {
        proof {
            LogEvent::lemma_root(&*self);
        }
        let mut node = Value::Object(FieldMap { entries: Vec::new() });
        std::mem::swap(&mut node, &mut self.root);
        let parts = start(path);
        proof {
            lemma_ins_ordered(node@, path@, value@);
        }
        let r = insert_at(&mut node, &parts, value);
        self.put_back(node);
        r
    }

    /// Removes the value at `path` and returns it. With `prune`, the
    /// containers that the removal leaves empty are removed too: an emptied
    /// map or array becomes null, and a slot on the path that holds null is
    /// taken out of its parent. A null that was stored on the path is taken
    /// out the same way, since nothing tells the two apart.
    pub fn remove(&mut self, path: &Vec<Segment>, prune: bool) -> (r: Option<Value>)
        requires
            old(self).wf(),
            path@.len() > 0,
        ensures
            final(self)@ == fields_of(rem_path(old(self).tree(), path@, prune).0),
            opt_view(r) == rem_path(old(self).tree(), path@, prune).1,
            final(self).wf(),
    {
        proof {
            LogEvent::lemma_root(&*self);
        }
        let mut node = Value::Object(FieldMap { entries: Vec::new() });
        std::mem::swap(&mut node, &mut self.root);
        let parts = start(path);
        proof {
            lemma_rem_ordered(node@, path@, prune);
        }
        let r = remove_at(&mut node, &parts, prune);
        self.put_back(node);
        r
    }

    /// Makes `node` the root where it is a map, else leaves the event empty.
    fn put_back(&mut self, node: Value)
        requires
            ordered(node@),
        ensures
            final(self).wf(),
            final(self)@ == fields_of(node@),
    {
        match node {
            Value::Object(m) => {
                proof {
                    lemma_object_view(m);
                }
                self.root = Value::Object(m);
            },
            _ => {
                let m = FieldMap { entries: Vec::new() };
                proof {
                    lemma_empty_ordered();
                    lemma_object_view(m);
                    assert(m@ =~= seq![]);
                }
                self.root = Value::Object(m);
            },
        }
        proof {
            lemma_object_view(self.root->Object_0);
        }
    }

    /// Every path of the event with the value it leads to: for each field in
    /// name order, its path, then the paths below it in pre-order (array
    /// elements by index). With `only_leaves`, the paths of maps and arrays
    /// are left out.
    pub fn pairs(&self, only_leaves: bool) -> (r: Vec<(Vec<Segment>, &Value)>)
        requires
            self.wf(),
        ensures
            all_concrete(r@),
            pairs_view(r@) == flat_fields(self@, only_leaves),
    {
        proof {
            LogEvent::lemma_root(&*self);
        }
        let mut out: Vec<(Vec<Segment>, &Value)> = Vec::new();
        let ghost t = self.tree();
        let ghost pre = Seq::<Step>::empty();
        match &self.root {
            Value::Object(m) => {
                proof {
                    lemma_object_view(*m);
                }
                let mut i: usize = 0;
                assert(pairs_view(out@) =~= seq![]);
                while i < m.entries.len()
                    invariant
                        i <= m.entries.len(),
                        t == Tree::Object(m@),
                        pre == Seq::<Step>::empty(),
                        all_concrete(out@),
                        pairs_view(out@) + flat_from(t, pre, only_leaves, i as int) == flat_from(
                            t,
                            pre,
                            only_leaves,
                            0,
                        ),
                    decreases m.entries.len() - i,
                {
                    let name = m.entries[i].0.clone();
                    assert(name@ == m@[i as int].0);
                    let mut p: Vec<Segment> = Vec::new();
                    p.push(Segment::Field { name, requires_quoting: false });
                    proof {
                        assert(p@[0] == Segment::Field { name, requires_quoting: false });
                        assert(steps_of(p@) =~= pre.push(Step::Field(m@[i as int].0)));
                        assert(is_concrete(p@));
                    }
                    let ghost before = pairs_view(out@);
                    collect_pairs(&m.entries[i].1, &p, only_leaves, &mut out);
                    proof {
                        let fc = flat(m@[i as int].1, pre.push(Step::Field(m@[i as int].0)), only_leaves);
                        assert(flat_from(t, pre, only_leaves, i as int) == fc + flat_from(
                            t,
                            pre,
                            only_leaves,
                            i + 1,
                        ));
                        assert(before + (fc + flat_from(t, pre, only_leaves, i + 1)) =~= (before
                            + fc) + flat_from(t, pre, only_leaves, i + 1));
                    }
                    i = i + 1;
                }
                assert(pairs_view(out@) =~= flat_from(t, pre, only_leaves, 0));
            },
            _ => {},
        }
        out
    }

    /// Every path of the event, in the order of `pairs`.
    pub fn keys(&self, only_leaves: bool) -> (r: Vec<Vec<Segment>>)
        requires
            self.wf(),
        ensures
            r@.len() == flat_fields(self@, only_leaves).len(),
            forall|i: int|
                0 <= i < r@.len() ==> is_concrete(#[trigger] r@[i]@) && steps_of(r@[i]@)
                    == flat_fields(self@, only_leaves)[i].0,
    {
        let ps = self.pairs(only_leaves);
        let mut out: Vec<Vec<Segment>> = Vec::new();
        let mut i: usize = 0;
        while i < ps.len()
            invariant
                i <= ps.len(),
                all_concrete(ps@),
                pairs_view(ps@) == flat_fields(self@, only_leaves),
                out@.len() == i,
                forall|k: int|
                    0 <= k < i ==> is_concrete(#[trigger] out@[k]@) && out@[k]@ == ps@[k].0@,
            decreases ps.len() - i,
        {
            assert(is_concrete(ps@[i as int].0@));
            out.push(copy_path(&ps[i].0));
            i = i + 1;
        }
        proof {
            assert forall|k: int| 0 <= k < out@.len() implies steps_of(out@[k]@) == flat_fields(
                self@,
                only_leaves,
            )[k].0 by {
                assert(pairs_view(ps@)[k].0 == steps_of(ps@[k].0@));
            }
        }
        out
    }

    /// A mutable reference to the value at `path`, if there is one. What is
    /// written through it lands at that place in the event.
    pub fn get_mut(&mut self, path: &Vec<Segment>) -> (r: Option<&mut Value>)
        requires
            old(self).wf(),
            path@.len() > 0,
        ensures
            match r {
                Some(x) => !resolves_here(old(self).tree(), path@) && get_path(old(self).tree(), path@)
                    == Some((*x)@) && final(self).tree() == put_path(
                    old(self).tree(),
                    path@,
                    (*final(x))@,
                ) && (ordered((*final(x))@) ==> final(self).wf()),
                None => (get_path(old(self).tree(), path@) is None || resolves_here(
                    old(self).tree(),
                    path@,
                )) && final(self)@ == old(self)@ && final(self).wf(),
            },
    {
        proof {
            LogEvent::lemma_root(&*self);
            assert forall|y: Tree| !resolves_here(self.tree(), path@) implies (#[trigger] put_path(
                self.tree(),
                path@,
                y,
            )) is Object by {
                lemma_put_keeps_object(self@, path@, y);
            }
            assert forall|y: Tree| ordered(y) implies #[trigger] ordered(put_path(self.tree(), path@, y)) by {
                lemma_put_ordered(self.tree(), path@, y);
            }
        }
        let parts = start(path);
        get_mut_at(&mut self.root, &parts, true)
    }

    /// A mutable reference to the fields of the event.
    pub fn inner_mut(&mut self) -> (r: &mut FieldMap)
        requires
            old(self).wf(),
        ensures
            (*r)@ == old(self)@,
            final(self)@ == (*final(r))@,
            ordered(Tree::Object((*final(r))@)) ==> final(self).wf(),
    {
        proof {
            LogEvent::lemma_root(&*self);
        }
        match &mut self.root {
            Value::Object(m) => m,
            _ => unreached(),
        }
    }

    /// The map that holds the last field of `path`, for editing that field
    /// in place. Only plain fields are followed, and only through maps that
    /// exist: nothing is created on the way.
    pub fn entry(&mut self, path: &Vec<Segment>) -> (r: Result<&mut FieldMap, EntryError>)
        requires
            old(self).wf(),
        ensures
            match r {
                Ok(m) => entry_walk(old(self)@, path@) == Ok::<_, EntryFault>((*m)@) && final(self)@
                    == put_entry_map(old(self)@, path@, (*final(m))@) && (ordered(
                    Tree::Object((*final(m))@),
                ) ==> final(self).wf()),
                Err(e) => entry_walk(old(self)@, path@) == Err::<Seq<(Seq<char>, Tree)>, _>(e@)
                    && final(self)@ == old(self)@ && final(self).wf(),
            },
    {
        proof {
            LogEvent::lemma_root(&*self);
            assert(path@.skip(0) =~= path@);
            if entry_walk(self@, path@) is Ok {
                assert forall|m2: Seq<(Seq<char>, Tree)>| ordered(Tree::Object(m2)) implies #[trigger] ordered(
                    Tree::Object(put_entry_map(self@, path@, m2)),
                ) by {
                    lemma_put_entry_ordered(self@, path@, m2);
                }
            }
        }
        match &mut self.root {
            Value::Object(m) => entry_in(m, path, 0),
            _ => unreached(),
        }
    }

    /// Inserts each (path, value) pair of `items` in turn.
    pub fn extend(&mut self, items: Vec<(Vec<Segment>, Value)>)
        requires
            old(self).wf(),
            forall|k: int|
                0 <= k < items@.len() ==> (#[trigger] items@[k]).0@.len() > 0 && ordered(items@[k].1@),
        ensures
            final(self).wf(),
            final(self)@ == insert_all(old(self)@, items@),
    {
        let mut items = items;
        let ghost goal = insert_all(self@, items@);
        while items.len() > 0
            invariant
                self.wf(),
                forall|k: int|
                    0 <= k < items@.len() ==> (#[trigger] items@[k]).0@.len() > 0 && ordered(
                        items@[k].1@,
                    ),
                insert_all(self@, items@) == goal,
            decreases items.len(),
        {
            let ghost before = items@;
            let (p, x) = items.remove(0);
            assert(before[0].0@.len() > 0 && ordered(before[0].1@));
            assert(items@ =~= before.drop_first());
            self.insert(&p, x);
            assert forall|k: int| 0 <= k < items@.len() implies (#[trigger] items@[k]).0@.len() > 0
                && ordered(items@[k].1@) by {
                assert(items@[k] == before[k + 1]);
            }
        }
    }

    /// Whether the event has no fields.
    pub fn is_empty(&self) -> (r: bool)
        requires
            self.wf(),
        ensures
            r == (self@.len() == 0),
    {
        proof {
            LogEvent::lemma_root(&*self);
        }
        match &self.root {
            Value::Object(m) => m.entries.len() == 0,
            _ => true,
        }
    }

    /// The fields of the event.
    pub fn inner(&self) -> (r: &FieldMap)
        requires
            self.wf(),
        ensures
            r@ == self@,
    {
        proof {
            LogEvent::lemma_root(&*self);
        }
        match &self.root {
            Value::Object(m) => m,
            _ => {
                unreached()
            },
        }
    }

    /// The fields of the event, taken out of it.
    pub fn take(self) -> (r: FieldMap)
        requires
            self.wf(),
        ensures
            r@ == self@,
    {
        proof {
            LogEvent::lemma_root(&self);
        }
        let LogEvent { root } = self;
        match root {
            Value::Object(m) => m,
            _ => FieldMap { entries: Vec::new() },
        }
    }
}

} // verus!
