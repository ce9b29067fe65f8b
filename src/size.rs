use vstd::prelude::*;

use crate::path::Segment;

verus! {

broadcast use vstd::std_specs::vec::group_vec_axioms;

/// The size of a segment: one, plus the sizes of the alternatives of a group.
pub open spec fn seg_size(s: Segment) -> nat
    decreases s, 0nat,
{
    match s {
        Segment::Coalesce(alts) => 1 + alts_size(alts@),
        _ => 1,
    }
}

/// The total size of the alternatives of a group.
pub open spec fn alts_size(alts: Seq<Vec<Segment>>) -> nat
    decreases alts, 0nat,
{
    if alts.len() == 0 {
        0
    } else {
        path_size(alts[0]@) + alts_size(alts.drop_first())
    }
}

/// The size of a path: the sum of the sizes of its segments.
pub open spec fn path_size(p: Seq<Segment>) -> nat
    decreases p, 0nat,
{
    if p.len() == 0 {
        0
    } else {
        seg_size(p[0]) + path_size(p.drop_first())
    }
}

pub proof fn lemma_seg_size_pos(s: Segment)
    ensures
        seg_size(s) >= 1,
{
}

/// The size of two paths put together is the sum of their sizes.
pub proof fn lemma_concat_size(a: Seq<Segment>, b: Seq<Segment>)
    ensures
        path_size(a + b) == path_size(a) + path_size(b),
    decreases a.len(),
{
    if a.len() == 0 {
        assert(a + b =~= b);
    } else {
        assert((a + b)[0] == a[0]);
        assert((a + b).drop_first() =~= a.drop_first() + b);
        lemma_concat_size(a.drop_first(), b);
    }
}

/// Each alternative is no larger than all of them together.
pub proof fn lemma_alt_size(alts: Seq<Vec<Segment>>, j: int)
    requires
        0 <= j < alts.len(),
    ensures
        path_size(alts[j]@) <= alts_size(alts),
    decreases j,
{
    if j > 0 {
        lemma_alt_size(alts.drop_first(), j - 1);
        assert(alts.drop_first()[j - 1] == alts[j]);
    }
}

/// Following an alternative of a group, then the rest of the path, is a
/// smaller path than the group followed by the rest.
pub proof fn lemma_alt_path_smaller(alts: Seq<Vec<Segment>>, j: int, rest: Seq<Segment>)
    requires
        0 <= j < alts.len(),
    ensures
        path_size(alts[j]@ + rest) < 1 + alts_size(alts) + path_size(rest),
{
    lemma_concat_size(alts[j]@, rest);
    lemma_alt_size(alts, j);
}

/// One step of the definition of `path_size`.
pub proof fn lemma_path_size_step(p: Seq<Segment>)
    requires
        p.len() > 0,
    ensures
        path_size(p) == seg_size(p[0]) + path_size(p.drop_first()),
        seg_size(p[0]) >= 1,
        p[0] is Coalesce ==> seg_size(p[0]) == 1 + alts_size(p[0]->Coalesce_0@),
{
}

} // verus!
