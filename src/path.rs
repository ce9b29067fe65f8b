use vstd::prelude::*;

verus! {

/// One step of a path: a field of a map, an index into an array, or a group
/// of alternative paths of which the first one that applies is taken.
#[derive(Debug, PartialEq, Eq)]
pub enum Segment {
    Field { name: String, requires_quoting: bool },
    Index(usize),
    Coalesce(Vec<Vec<Segment>>),
}

impl Segment {
    /// A field segment that needs no quoting.
    pub fn field(name: &str) -> (r: Segment)
        ensures
            r matches Segment::Field { name: n, requires_quoting: q } && n@ == name@ && !q,
    {
        Segment::Field { name: name.to_owned(), requires_quoting: false }
    }

    /// A field segment that was written in double quotes.
    pub fn quoted_field(name: &str) -> (r: Segment)
        ensures
            r matches Segment::Field { name: n, requires_quoting: q } && n@ == name@ && q,
    {
        Segment::Field { name: name.to_owned(), requires_quoting: true }
    }

    pub fn index(i: usize) -> (r: Segment)
        ensures
            r == Segment::Index(i),
    {
        Segment::Index(i)
    }

    pub fn coalesce(alternatives: Vec<Vec<Segment>>) -> (r: Segment)
        ensures
            r == Segment::Coalesce(alternatives),
    {
        Segment::Coalesce(alternatives)
    }

    /// A copy of a field or index segment, equal to it in every part.
    pub fn copy(&self) -> (r: Segment)
        requires
            !(*self is Coalesce),
        ensures
            r == *self,
    {
        match self {
            Segment::Field { name, requires_quoting } => Segment::Field {
                name: name.clone(),
                requires_quoting: *requires_quoting,
            },
            Segment::Index(i) => Segment::Index(*i),
            Segment::Coalesce(_) => Segment::Index(0),
        }
    }
}

/// A path made of fields and indices alone.
pub open spec fn is_concrete(p: Seq<Segment>) -> bool {
    forall|k: int| 0 <= k < p.len() ==> !(#[trigger] p[k] is Coalesce)
}

/// A copy of a path, equal to it segment by segment.
pub fn copy_path(p: &Vec<Segment>) -> (r: Vec<Segment>)
    requires
        is_concrete(p@),
    ensures
        r@ == p@,
{
    let mut out: Vec<Segment> = Vec::new();
    let mut i: usize = 0;
    while i < p.len()
        invariant
            i <= p.len(),
            is_concrete(p@),
            out@.len() == i,
            forall|k: int| 0 <= k < i ==> out@[k] == p@[k],
        decreases p.len() - i,
    {
        out.push(p[i].copy());
        i = i + 1;
    }
    assert(out@ =~= p@);
    out
}

/// The path that a stack of partly read paths stands for: what is left of
/// each, one after the other.
pub open spec fn rest_of(parts: Seq<(&Vec<Segment>, usize)>) -> Seq<Segment>
    decreases parts.len(),
{
    if parts.len() == 0 {
        seq![]
    } else {
        parts[0].0@.skip(parts[0].1 as int) + rest_of(parts.drop_first())
    }
}

/// Each read position lies within its path.
pub open spec fn parts_ok(parts: Seq<(&Vec<Segment>, usize)>) -> bool {
    forall|k: int| 0 <= k < parts.len() ==> (#[trigger] parts[k]).1 <= parts[k].0@.len()
}

proof fn lemma_rest_of_skip(parts: Seq<(&Vec<Segment>, usize)>, k: int)
    requires
        0 <= k < parts.len(),
    ensures
        rest_of(parts.skip(k)) == parts[k].0@.skip(parts[k].1 as int) + rest_of(parts.skip(k + 1)),
{
    assert(parts.skip(k).drop_first() =~= parts.skip(k + 1));
}

/// The first segment of the path that `parts` stands for, and a stack for
/// the rest of it; none where the path is empty.
pub fn split_first<'p>(parts: &Vec<(&'p Vec<Segment>, usize)>) -> (r: Option<
    (&'p Segment, Vec<(&'p Vec<Segment>, usize)>),
>)
    requires
        parts_ok(parts@),
    ensures
        match r {
            None => rest_of(parts@).len() == 0,
            Some((s, ps)) => parts_ok(ps@) && rest_of(parts@) == seq![*s] + rest_of(ps@),
        },
{
    let mut k: usize = 0;
    assert(parts@.skip(0) =~= parts@);
    while k < parts.len() && parts[k].1 >= parts[k].0.len()
        invariant
            k <= parts.len(),
            parts_ok(parts@),
            rest_of(parts@) == rest_of(parts@.skip(k as int)),
        decreases parts.len() - k,
    {
        proof {
            lemma_rest_of_skip(parts@, k as int);
            assert(parts@[k as int].0@.skip(parts@[k as int].1 as int) =~= seq![]);
            assert(rest_of(parts@.skip(k as int)) =~= rest_of(parts@.skip(k + 1)));
        }
        k = k + 1;
    }
    if k == parts.len() {
        assert(parts@.skip(k as int) =~= seq![]);
        return None;
    }
    let (v, i) = parts[k];
    let s = &v[i];
    let mut ps: Vec<(&'p Vec<Segment>, usize)> = Vec::new();
    ps.push((v, i + 1));
    let mut m: usize = k + 1;
    while m < parts.len()
        invariant
            k < m <= parts.len(),
            parts_ok(parts@),
            v == parts@[k as int].0,
            i + 1 <= v@.len(),
            ps@ == seq![(v, (i + 1) as usize)] + parts@.subrange(k + 1, m as int),
        decreases parts.len() - m,
    {
        ps.push(parts[m]);
        assert(parts@.subrange(k + 1, m + 1) =~= parts@.subrange(k + 1, m as int).push(parts@[m as int]));
        m = m + 1;
    }
    proof {
        assert(parts@.subrange(k + 1, m as int) =~= parts@.skip(k + 1));
        lemma_rest_of_skip(parts@, k as int);
        assert(ps@.drop_first() =~= parts@.skip(k + 1));
        assert(v@.skip(i as int) =~= seq![*s] + v@.skip(i + 1));
        assert(rest_of(ps@) == v@.skip(i + 1) + rest_of(ps@.drop_first()));
        assert(seq![*s] + rest_of(ps@) =~= v@.skip(i as int) + rest_of(parts@.skip(k + 1)));
        assert forall|j: int| 0 <= j < ps@.len() implies (#[trigger] ps@[j]).1 <= ps@[j].0@.len() by {
            if j > 0 {
                assert(ps@[j] == parts@[k + j]);
            }
        }
    }
    Some((s, ps))
}

/// The stack for the path `alt` followed by what `parts` stands for.
pub fn push_front<'p>(alt: &'p Vec<Segment>, parts: &Vec<(&'p Vec<Segment>, usize)>) -> (r: Vec<
    (&'p Vec<Segment>, usize),
>)
    requires
        parts_ok(parts@),
    ensures
        parts_ok(r@),
        rest_of(r@) == alt@ + rest_of(parts@),
{
    let mut r: Vec<(&'p Vec<Segment>, usize)> = Vec::new();
    r.push((alt, 0));
    let mut m: usize = 0;
    while m < parts.len()
        invariant
            m <= parts.len(),
            r@ == seq![(alt, 0usize)] + parts@.take(m as int),
        decreases parts.len() - m,
    {
        r.push(parts[m]);
        assert(parts@.take(m + 1) =~= parts@.take(m as int).push(parts@[m as int]));
        m = m + 1;
    }
    proof {
        assert(parts@.take(m as int) =~= parts@);
        assert(r@.drop_first() =~= parts@);
        assert(alt@.skip(0) =~= alt@);
        assert forall|j: int| 0 <= j < r@.len() implies (#[trigger] r@[j]).1 <= r@[j].0@.len() by {
            if j > 0 {
                assert(r@[j] == parts@[j - 1]);
            }
        }
    }
    r
}

/// Whether what `parts` stands for is the empty path.
pub fn at_end(parts: &Vec<(&Vec<Segment>, usize)>) -> (r: bool)
    requires
        parts_ok(parts@),
    ensures
        r == (rest_of(parts@).len() == 0),
{
    split_first(parts).is_none()
}

/// The stack that stands for the whole path `p`.
pub fn start<'p>(p: &'p Vec<Segment>) -> (r: Vec<(&'p Vec<Segment>, usize)>)
    ensures
        parts_ok(r@),
        rest_of(r@) == p@,
{
    let mut r: Vec<(&'p Vec<Segment>, usize)> = Vec::new();
    r.push((p, 0));
    proof {
        assert(r@.drop_first() =~= Seq::<(&Vec<Segment>, usize)>::empty());
        assert(rest_of(r@.drop_first()) == Seq::<Segment>::empty());
        assert(p@.skip(0) =~= p@);
        assert(rest_of(r@) == p@.skip(0) + rest_of(r@.drop_first()));
        assert(rest_of(r@) =~= p@);
    }
    r
}

} // verus!
