//! Going down the hierarchy: what lies below a fragment.

use vstd::prelude::*;

use crate::edge::{Edge, EdgeKind};
use crate::fragment::{Fragment, FragmentId};
#[allow(unused_imports)]
use crate::fragment::FragmentView;
use crate::query::LoreDb;
#[allow(unused_imports)]
use crate::storage::StorageView;

verus! {

/// An edge makes an active fragment the child of another.
pub open spec fn is_child(g: StorageView, parent: FragmentId, child: FragmentId) -> bool {
    exists|k: int|
        0 <= k < g.edges.len() && crate::storage::leads_to_child(g.fragments, parent)(
            #[trigger] g.edges[k],
        ) && g.edges[k].target == child
}

/// A fragment is reached from another by going down from parent to child, at
/// most some times.
pub open spec fn is_reached(g: StorageView, top: FragmentId, x: FragmentId, steps: nat) -> bool
    decreases steps,
{
    steps > 0 && exists|m: FragmentId| #[trigger]
        is_child(g, m, x) && (m == top || is_reached(g, top, m, (steps - 1) as nat))
}

/// A fragment lies below another: it is a child of it, or a child of what lies
/// below it.
pub open spec fn is_below(g: StorageView, top: FragmentId, x: FragmentId) -> bool {
    exists|steps: nat| is_reached(g, top, x, steps)
}

/// A descendant of a fragment, on whatever level. In a hierarchy that goes round
/// in a circle a fragment is not its own descendant.
pub open spec fn descends(g: StorageView, top: FragmentId) -> spec_fn(FragmentView) -> bool {
    |f: FragmentView| f.id != top && is_below(g, top, f.id)
}

/// All descendants of a fragment.
pub open spec fn descendants_of(g: StorageView, top: FragmentId) -> Seq<FragmentView> {
    g.fragments.filter(descends(g, top))
}

// ---- marking ----

/// A fragment is marked.
spec fn is_marked(fs: Seq<FragmentView>, marks: Seq<bool>, id: FragmentId) -> bool {
    exists|i: int| 0 <= i < fs.len() && (#[trigger] fs[i]).id == id && marks[i]
}

/// What an edge leads to is marked, if it leads down from the top or from what
/// is marked.
spec fn is_followed(g: StorageView, top: FragmentId, marks: Seq<bool>, k: int) -> bool {
    let e = g.edges[k];
    crate::storage::leads_to_child(g.fragments, e.source)(e) && (e.source == top || is_marked(
        g.fragments,
        marks,
        e.source,
    )) ==> is_marked(g.fragments, marks, e.target)
}

/// Only what lies below the top is marked.
spec fn marks_hold(g: StorageView, top: FragmentId, marks: Seq<bool>) -> bool {
    &&& marks.len() == g.fragments.len()
    &&& forall|i: int|
        0 <= i < marks.len() && #[trigger] marks[i] ==> is_below(g, top, g.fragments[i].id)
}

/// How many marks are missing.
spec fn missing(marks: Seq<bool>) -> nat
    decreases marks.len(),
{
    if marks.len() == 0 {
        0
    } else if marks.last() {
        missing(marks.drop_last())
    } else {
        missing(marks.drop_last()) + 1
    }
}

proof fn lemma_one_missing_less(marks: Seq<bool>, i: int)
    requires
        0 <= i < marks.len(),
        !marks[i],
    ensures
        missing(marks.update(i, true)) + 1 == missing(marks),
    decreases marks.len(),
{
    let after = marks.update(i, true);
    if i == marks.len() - 1 {
        assert(after.drop_last() == marks.drop_last());
    } else {
        assert(after.drop_last() == marks.drop_last().update(i, true));
        lemma_one_missing_less(marks.drop_last(), i);
    }
}

/// Where all edges are followed, all that lies below the top is marked.
proof fn lemma_reached_is_marked(
    g: StorageView,
    top: FragmentId,
    marks: Seq<bool>,
    x: FragmentId,
    steps: nat,
)
    requires
        forall|k: int| 0 <= k < g.edges.len() ==> #[trigger] is_followed(g, top, marks, k),
        is_reached(g, top, x, steps),
    ensures
        is_marked(g.fragments, marks, x),
    decreases steps,
{
    let m = choose|m: FragmentId| #[trigger]
        is_child(g, m, x) && (m == top || is_reached(g, top, m, (steps - 1) as nat));
    if m != top {
        lemma_reached_is_marked(g, top, marks, m, (steps - 1) as nat);
    }
    let k = choose|k: int|
        0 <= k < g.edges.len() && crate::storage::leads_to_child(g.fragments, m)(
            #[trigger] g.edges[k],
        ) && g.edges[k].target == x;
    assert(is_followed(g, top, marks, k));
}

/// Where an edge leads down from the top, or from what lies below it, it leads
/// to what lies below it.
proof fn lemma_one_step_down(g: StorageView, top: FragmentId, k: int)
    requires
        0 <= k < g.edges.len(),
        crate::storage::leads_to_child(g.fragments, g.edges[k].source)(g.edges[k]),
        g.edges[k].source == top || is_below(g, top, g.edges[k].source),
    ensures
        is_below(g, top, g.edges[k].target),
{
    let e = g.edges[k];
    assert(is_child(g, e.source, e.target));
    if e.source == top {
        assert(is_reached(g, top, e.target, 1));
    } else {
        let steps = choose|steps: nat| is_reached(g, top, e.source, steps);
        assert(is_reached(g, top, e.target, steps + 1));
    }
}

/// The place of a fragment in a list.
fn find_place(fragments: &Vec<Fragment>, id: FragmentId) -> (r: Option<usize>)
    ensures
        match r {
            Some(i) => i < fragments.len() && fragments[i as int].id == id,
            None => forall|i: int| 0 <= i < fragments.len() ==> fragments[i].id != id,
        },
{
    let mut i: usize = 0;
    while i < fragments.len()
        invariant
            i <= fragments.len(),
            forall|k: int| 0 <= k < i ==> fragments[k].id != id,
        decreases fragments.len() - i,
    {
        if fragments[i].id == id {
            return Some(i);
        }
        i = i + 1;
    }
    None
}

/// Follows an edge, and tells whether it led to something new.
fn follow_edge(
    fragments: &Vec<Fragment>,
    e: &Edge,
    top: FragmentId,
    marks: &mut Vec<bool>,
    Ghost(g): Ghost<StorageView>,
    Ghost(k): Ghost<int>,
) -> (r: bool)
    requires
        crate::storage::is_sound(g),
        g.fragments == crate::fragment::fragment_views(fragments@),
        0 <= k < g.edges.len(),
        g.edges[k] == e@,
        marks_hold(g, top, old(marks)@),
    ensures
        marks_hold(g, top, final(marks)@),
        r ==> missing(final(marks)@) < missing(old(marks)@),
        !r ==> final(marks)@ == old(marks)@ && is_followed(g, top, old(marks)@, k),
{
    let ghost fs = g.fragments;
    if e.kind != EdgeKind::Hierarchical {
        return false;
    }
    let open: bool = if e.source == top {
        true
    } else {
        match find_place(fragments, e.source) {
            Some(i) => {
                assert(fs[i as int] == fragments@[i as int]@);
                proof {
                    if !marks@[i as int] && is_marked(fs, marks@, e.source) {
                        let j = choose|j: int|
                            0 <= j < fs.len() && (#[trigger] fs[j]).id == e.source && marks@[j];
                        crate::storage::lemma_fragment_at(fs, i as int);
                        assert(fs[i as int].id == fs[j].id);
                    }
                }
                marks[i]
            },
            None => {
                proof {
                    if is_marked(fs, marks@, e.source) {
                        let j = choose|j: int|
                            0 <= j < fs.len() && (#[trigger] fs[j]).id == e.source && marks@[j];
                        assert(fragments@[j].id == e.source);
                    }
                }
                false
            },
        }
    };
    assert(open == (e.source == top || is_marked(fs, marks@, e.source)));
    if !open {
        return false;
    }
    match find_place(fragments, e.target) {
        Some(t) => {
            assert(fs[t as int] == fragments@[t as int]@);
            proof {
                crate::storage::lemma_fragment_at(fs, t as int);
            }
            if fragments[t].superseded_by.is_some() {
                return false;
            }
            if marks[t] {
                assert(fs[t as int].id == e.target && marks@[t as int]);
                return false;
            }
            proof {
                if e.source != top {
                    let j = choose|j: int|
                        0 <= j < fs.len() && (#[trigger] fs[j]).id == e.source && marks@[j];
                    assert(is_below(g, top, fs[j].id));
                }
                lemma_one_step_down(g, top, k);
                lemma_one_missing_less(marks@, t as int);
            }
            marks.set(t, true);
            true
        },
        None => {
            proof {
                assert(crate::storage::has_fragment(fs, g.edges[k].target));
                let j = choose|j: int| 0 <= j < fs.len() && (#[trigger] fs[j]).id == e.target;
                assert(fragments@[j].id == e.target);
            }
            false
        },
    }
}

/// Follows all edges once, and tells whether one led to something new.
fn follow_edges(
    fragments: &Vec<Fragment>,
    edges: &Vec<Edge>,
    top: FragmentId,
    marks: &mut Vec<bool>,
    Ghost(g): Ghost<StorageView>,
) -> (r: bool)
    requires
        crate::storage::is_sound(g),
        g.fragments == crate::fragment::fragment_views(fragments@),
        g.edges == crate::edge::edge_views(edges@),
        marks_hold(g, top, old(marks)@),
    ensures
        marks_hold(g, top, final(marks)@),
        missing(final(marks)@) <= missing(old(marks)@),
        r ==> missing(final(marks)@) < missing(old(marks)@),
        !r ==> forall|k: int|
            0 <= k < g.edges.len() ==> #[trigger] is_followed(g, top, final(marks)@, k),
{
    let ghost before = marks@;
    let mut changed: bool = false;
    let mut k: usize = 0;
    while k < edges.len()
        invariant
            crate::storage::is_sound(g),
            g.fragments == crate::fragment::fragment_views(fragments@),
            g.edges == crate::edge::edge_views(edges@),
            k <= edges.len(),
            marks_hold(g, top, marks@),
            missing(marks@) <= missing(before),
            changed ==> missing(marks@) < missing(before),
            !changed ==> forall|j: int| 0 <= j < k ==> #[trigger] is_followed(g, top, marks@, j),
        decreases edges.len() - k,
    {
        assert(g.edges[k as int] == edges@[k as int]@);
        if follow_edge(fragments, &edges[k], top, marks, Ghost(g), Ghost(k as int)) {
            changed = true;
        }
        k = k + 1;
    }
    changed
}

impl LoreDb {
    /// All active descendants of a fragment, on whatever level.
    pub fn descendants(&self, id: FragmentId) -> (r: Vec<Fragment>)
        requires
            self.wf(),
        ensures
            crate::fragment::fragment_views(r@) == descendants_of(self@, id),
    {
        let fragments = self.storage().fragments();
        let edges = self.storage().edges();
        let ghost g = self@;
        let ghost fs = g.fragments;
        let mut marks: Vec<bool> = Vec::new();
        while marks.len() < fragments.len()
            invariant
                marks.len() <= fragments.len(),
                forall|i: int| 0 <= i < marks.len() ==> !(#[trigger] marks@[i]),
            decreases fragments.len() - marks.len(),
        {
            marks.push(false);
        }
        let mut more: bool = true;
        while more
            invariant
                crate::storage::is_sound(g),
                fs == g.fragments,
                fs == crate::fragment::fragment_views(fragments@),
                g.edges == crate::edge::edge_views(edges@),
                marks_hold(g, id, marks@),
                !more ==> forall|k: int|
                    0 <= k < g.edges.len() ==> #[trigger] is_followed(g, id, marks@, k),
            decreases
                missing(marks@),
                (if more {
                    1int
                } else {
                    0int
                }),
        {
            more = follow_edges(fragments, edges, id, &mut marks, Ghost(g));
        }
        let ghost keep = descends(g, id);
        let mut out: Vec<Fragment> = Vec::new();
        let mut i: usize = 0;
        proof {
            crate::lists::lemma_filter_none(fs, keep);
            assert(crate::fragment::fragment_views(out@) == fs.take(0).filter(keep));
        }
        while i < fragments.len()
            invariant
                i <= fragments.len(),
                crate::storage::is_sound(g),
                fs == g.fragments,
                fs == crate::fragment::fragment_views(fragments@),
                keep == descends(g, id),
                marks_hold(g, id, marks@),
                forall|k: int|
                    0 <= k < g.edges.len() ==> #[trigger] is_followed(g, id, marks@, k),
                crate::fragment::fragment_views(out@) == fs.take(i as int).filter(keep),
            decreases fragments.len() - i,
        {
            let f = &fragments[i];
            proof {
                crate::lists::lemma_filter_next(fs, keep, i as int);
                assert(fs[i as int] == f@);
                if is_below(g, id, f.id) {
                    let steps = choose|steps: nat| is_reached(g, id, f.id, steps);
                    lemma_reached_is_marked(g, id, marks@, f.id, steps);
                    let j = choose|j: int|
                        0 <= j < fs.len() && (#[trigger] fs[j]).id == f.id && marks@[j];
                    assert(fs[i as int].id == fs[j].id);
                    assert(i == j);
                }
            }
            if marks[i] && f.id != id {
                let copy = f.clone();
                assert(crate::fragment::fragment_views(out@.push(copy))
                    == crate::fragment::fragment_views(out@).push(f@));
                out.push(copy);
            }
            i = i + 1;
        }
        assert(fs.take(i as int) == fs);
        out
    }
}

// ---- laws ----

/// Children are descendants, and children of descendants are: with each fragment
/// all that lies below it.
pub proof fn law_descent_goes_on(
    g: StorageView,
    top: FragmentId,
    middle: FragmentId,
    x: FragmentId,
)
    ensures
        is_child(g, top, x) ==> is_below(g, top, x),
        is_below(g, top, middle) && is_child(g, middle, x) ==> is_below(g, top, x),
        is_below(g, top, middle) && is_below(g, middle, x) ==> is_below(g, top, x),
{
    if is_child(g, top, x) {
        assert(is_reached(g, top, x, 1));
    }
    if is_below(g, top, middle) {
        let steps = choose|steps: nat| is_reached(g, top, middle, steps);
        if is_child(g, middle, x) {
            assert(is_reached(g, top, x, steps + 1));
        }
        if is_below(g, middle, x) {
            let more = choose|more: nat| is_reached(g, middle, x, more);
            lemma_steps_add(g, top, middle, x, steps, more);
        }
    }
}

proof fn lemma_steps_add(
    g: StorageView,
    top: FragmentId,
    middle: FragmentId,
    x: FragmentId,
    steps: nat,
    more: nat,
)
    requires
        is_reached(g, top, middle, steps),
        is_reached(g, middle, x, more),
    ensures
        is_reached(g, top, x, steps + more),
    decreases more,
{
    let m = choose|m: FragmentId| #[trigger]
        is_child(g, m, x) && (m == middle || is_reached(g, middle, m, (more - 1) as nat));
    if m == middle {
        lemma_more_steps(g, top, m, steps, (steps + more - 1) as nat);
    } else {
        lemma_steps_add(g, top, middle, m, steps, (more - 1) as nat);
    }
}

proof fn lemma_more_steps(g: StorageView, top: FragmentId, x: FragmentId, n: nat, more: nat)
    requires
        is_reached(g, top, x, n),
        n <= more,
    ensures
        is_reached(g, top, x, more),
    decreases n,
{
    let m = choose|m: FragmentId| #[trigger]
        is_child(g, m, x) && (m == top || is_reached(g, top, m, (n - 1) as nat));
    if m != top {
        lemma_more_steps(g, top, m, (n - 1) as nat, (more - 1) as nat);
    }
}

/// What lies below a fragment, by the edges: an edge of the hierarchy from it, or from
/// what lies below it, to an active fragment puts that one below it; and what lies below
/// it is an active fragment with such an edge.
pub proof fn law_below_by_edges(g: StorageView, top: FragmentId, i: int, k: int)
    requires
        crate::storage::unique_fragments(g.fragments),
        0 <= i < g.edges.len(),
        0 <= k < g.fragments.len(),
    ensures
        g.edges[i].kind == EdgeKind::Hierarchical && g.edges[i].target == g.fragments[k].id
            && g.fragments[k].superseded_by is None && (g.edges[i].source == top || is_below(
            g,
            top,
            g.edges[i].source,
        )) ==> is_below(g, top, g.fragments[k].id),
        is_below(g, top, g.fragments[k].id) ==> g.fragments[k].superseded_by is None && exists|
            j: int,
        |
            0 <= j < g.edges.len() && (#[trigger] g.edges[j]).kind == EdgeKind::Hierarchical
                && g.edges[j].target == g.fragments[k].id && (g.edges[j].source == top || is_below(
                g,
                top,
                g.edges[j].source,
            )),
        descendants_of(g, top).contains(g.fragments[k]) <==> g.fragments[k].id != top && is_below(
            g,
            top,
            g.fragments[k].id,
        ),
{
    let f = g.fragments[k];
    crate::storage::lemma_fragment_at(g.fragments, k);
    if g.edges[i].kind == EdgeKind::Hierarchical && g.edges[i].target == f.id && f.superseded_by
        is None {
        assert(crate::storage::leads_to_child(g.fragments, g.edges[i].source)(g.edges[i]));
        assert(is_child(g, g.edges[i].source, f.id));
        law_descent_goes_on(g, top, g.edges[i].source, f.id);
    }
    if is_below(g, top, f.id) {
        let steps = choose|steps: nat| is_reached(g, top, f.id, steps);
        let m = choose|m: FragmentId| #[trigger]
            is_child(g, m, f.id) && (m == top || is_reached(g, top, m, (steps - 1) as nat));
        let j = choose|j: int|
            0 <= j < g.edges.len() && crate::storage::leads_to_child(g.fragments, m)(
                #[trigger] g.edges[j],
            ) && g.edges[j].target == f.id;
        assert(g.edges[j].source == m);
    }
    let keep = descends(g, top);
    crate::lists::lemma_filter_members(g.fragments, keep);
    if descendants_of(g, top).contains(f) {
        let d = choose|d: int|
            0 <= d < descendants_of(g, top).len() && descendants_of(g, top)[d] == f;
        assert(keep(descendants_of(g, top)[d]));
    }
    if keep(f) {
        assert(keep(g.fragments[k]));
    }
}

} // verus!
