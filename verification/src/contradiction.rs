//! Contradictions: which siblings to compare, how to ask about them, and what to
//! do with the answer.

use vstd::prelude::*;

use crate::changes::Stamp;
use crate::consolidation::CONTRADICTION_SIMILARITY;
use crate::embedding::cosine_similarity;
use crate::fragment::{Fragment, FragmentId};
#[allow(unused_imports)]
use crate::fragment::FragmentView;
use crate::json::json_indices;
use crate::query::LoreDb;
use crate::storage::StorageError;
#[allow(unused_imports)]
use crate::storage::StorageView;
use crate::text::{decimal_text, starts_with, to_chars, to_lowercase, trim};

verus! {

/// Two siblings that may contradict each other.
#[derive(Debug)]
pub struct ContradictionCandidate {
    pub id_a: FragmentId,
    pub id_b: FragmentId,
    pub content_a: String,
    pub content_b: String,
    pub created_a: i64,
    pub created_b: i64,
}

/// What a candidate holds.
#[verifier::ext_equal]
pub struct CandidateView {
    pub id_a: FragmentId,
    pub id_b: FragmentId,
    pub content_a: Seq<char>,
    pub content_b: Seq<char>,
    pub created_a: i64,
    pub created_b: i64,
}

impl View for ContradictionCandidate {
    type V = CandidateView;

    open spec fn view(&self) -> CandidateView {
        CandidateView {
            id_a: self.id_a,
            id_b: self.id_b,
            content_a: self.content_a@,
            content_b: self.content_b@,
            created_a: self.created_a,
            created_b: self.created_b,
        }
    }
}

/// What the candidates of a list hold.
pub open spec fn candidate_views(v: Seq<ContradictionCandidate>) -> Seq<CandidateView> {
    Seq::new(v.len(), |i: int| v[i]@)
}

// ---- candidates ----

/// Two siblings that can contradict each other: those that are not known to be
/// about different things.
pub open spec fn may_contradict(a: FragmentView, b: FragmentView) -> bool {
    !(a.embedding.len() > 0 && b.embedding.len() > 0 && crate::embedding::similarity(
        a.embedding,
        b.embedding,
    ) < CONTRADICTION_SIMILARITY)
}

/// The candidate that two siblings make.
pub open spec fn candidate_of(a: FragmentView, b: FragmentView) -> CandidateView {
    CandidateView {
        id_a: a.id,
        id_b: b.id,
        content_a: a.content,
        content_b: b.content,
        created_a: a.created_at,
        created_b: b.created_at,
    }
}

/// The candidates of one sibling and the first `n` of a list.
pub open spec fn candidates_with(f: FragmentView, others: Seq<FragmentView>, n: int) -> Seq<
    CandidateView,
>
    decreases n,
{
    if n <= 0 {
        Seq::empty()
    } else {
        let rest = candidates_with(f, others, n - 1);
        if may_contradict(f, others[n - 1]) {
            rest.push(candidate_of(f, others[n - 1]))
        } else {
            rest
        }
    }
}

/// The candidates of the first `n` siblings with those that come after them.
pub open spec fn candidates_among(fs: Seq<FragmentView>, n: int) -> Seq<CandidateView>
    decreases n,
{
    if n <= 0 {
        Seq::empty()
    } else {
        let rest = fs.skip(n);
        candidates_among(fs, n - 1) + candidates_with(fs[n - 1], rest, rest.len() as int)
    }
}

/// The candidates below a fragment, down to a number of levels: those among its
/// children, and then those below each child.
pub open spec fn candidates_below(g: StorageView, id: FragmentId, levels: nat) -> Seq<CandidateView>
    decreases levels, 0nat,
{
    if levels == 0 {
        Seq::empty()
    } else {
        let children = crate::storage::children_of(g, id);
        candidates_among(children, children.len() as int) + candidates_below_each(
            g,
            children,
            (levels - 1) as nat,
        )
    }
}

/// The candidates below each of some fragments.
pub open spec fn candidates_below_each(
    g: StorageView,
    fs: Seq<FragmentView>,
    levels: nat,
) -> Seq<CandidateView>
    decreases levels, fs.len() + 1,
{
    if fs.len() == 0 {
        Seq::empty()
    } else {
        candidates_below_each(g, fs.drop_last(), levels) + candidates_below(
            g,
            fs.last().id,
            levels,
        )
    }
}

/// All candidates of a graph. No branch of a hierarchy without cycles has more
/// levels than there are fragments.
pub open spec fn all_candidates(g: StorageView) -> Seq<CandidateView> {
    candidates_below_each(g, crate::query::roots_of(g), g.fragments.len())
}

/// Where each child lies on a lower level than its parent, looking further down
/// than the level of a fragment finds nothing more.
pub proof fn law_levels_suffice(
    g: StorageView,
    level: spec_fn(FragmentId) -> nat,
    id: FragmentId,
    n: nat,
    m: nat,
)
    requires
        forall|x: FragmentId, i: int|
            #![trigger crate::storage::children_of(g, x)[i]]
            0 <= i < crate::storage::children_of(g, x).len() ==> level(
                crate::storage::children_of(g, x)[i].id,
            ) < level(x),
        level(id) < n,
        level(id) < m,
    ensures
        candidates_below(g, id, n) == candidates_below(g, id, m),
    decreases n, 0nat,
{
    let children = crate::storage::children_of(g, id);
    assert forall|i: int| 0 <= i < children.len() implies level((#[trigger] children[i]).id) < n - 1
        && level(children[i].id) < m - 1 by {
        assert(level(crate::storage::children_of(g, id)[i].id) < level(id));
    }
    lemma_levels_each(g, level, children, (n - 1) as nat, (m - 1) as nat);
}

proof fn lemma_levels_each(
    g: StorageView,
    level: spec_fn(FragmentId) -> nat,
    fs: Seq<FragmentView>,
    n: nat,
    m: nat,
)
    requires
        forall|x: FragmentId, i: int|
            #![trigger crate::storage::children_of(g, x)[i]]
            0 <= i < crate::storage::children_of(g, x).len() ==> level(
                crate::storage::children_of(g, x)[i].id,
            ) < level(x),
        forall|i: int| 0 <= i < fs.len() ==> level((#[trigger] fs[i]).id) < n && level(fs[i].id) < m,
    ensures
        candidates_below_each(g, fs, n) == candidates_below_each(g, fs, m),
    decreases n, fs.len() + 1,
{
    if fs.len() > 0 {
        let front = fs.drop_last();
        assert forall|i: int| 0 <= i < front.len() implies level((#[trigger] front[i]).id) < n
            && level(front[i].id) < m by {
            assert(front[i] == fs[i]);
        }
        lemma_levels_each(g, level, front, n, m);
        assert(level(fs[fs.len() - 1].id) < n);
        law_levels_suffice(g, level, fs.last().id, n, m);
    }
}

/// Adds the candidates among siblings.
pub fn push_sibling_candidates(children: &Vec<Fragment>, out: &mut Vec<ContradictionCandidate>)
    ensures
        candidate_views(final(out)@) == candidate_views(old(out)@) + candidates_among(
            crate::fragment::fragment_views(children@),
            children.len() as int,
        ),
{
    let ghost before = candidate_views(out@);
    let ghost fs = crate::fragment::fragment_views(children@);
    let mut i: usize = 0;
    assert(before + candidates_among(fs, 0) == before);
    while i < children.len()
        invariant
            i <= children.len(),
            fs == crate::fragment::fragment_views(children@),
            candidate_views(out@) == before + candidates_among(fs, i as int),
        decreases children.len() - i,
    {
        let ghost so_far = candidate_views(out@);
        let ghost rest = fs.skip(i + 1);
        let a = &children[i];
        let mut j: usize = i + 1;
        assert(so_far + candidates_with(a@, rest, 0) == so_far);
        while j < children.len()
            invariant
                i < j <= children.len(),
                fs == crate::fragment::fragment_views(children@),
                rest == fs.skip(i + 1),
                a@ == fs[i as int],
                candidate_views(out@) == so_far + candidates_with(a@, rest, j - i - 1),
            decreases children.len() - j,
        {
            let b = &children[j];
            assert(rest[j - i - 1] == b@);
            let apart: bool = if a.embedding.len() > 0 && b.embedding.len() > 0 {
                cosine_similarity(&a.embedding, &b.embedding) < CONTRADICTION_SIMILARITY
            } else {
                false
            };
            if !apart {
                let c = ContradictionCandidate {
                    id_a: a.id,
                    id_b: b.id,
                    content_a: a.content.clone(),
                    content_b: b.content.clone(),
                    created_a: a.created_at,
                    created_b: b.created_at,
                };
                proof {
                    assert(candidate_views(out@.push(c)) == candidate_views(out@).push(c@));
                    let seen = candidates_with(a@, rest, j - i - 1);
                    assert((so_far + seen).push(c@) == so_far + seen.push(c@));
                }
                out.push(c);
            }
            j = j + 1;
        }
        proof {
            assert(candidate_views(out@) == before + candidates_among(fs, i + 1));
        }
        i = i + 1;
    }
}

/// Adds the candidates below a fragment, down to a number of levels.
pub fn collect_contradiction_candidates(
    db: &LoreDb,
    parent_id: FragmentId,
    levels: usize,
    candidates: &mut Vec<ContradictionCandidate>,
)
    requires
        db.wf(),
    ensures
        candidate_views(final(candidates)@) == candidate_views(old(candidates)@)
            + candidates_below(db@, parent_id, levels as nat),
    decreases levels,
{
    let ghost before = candidate_views(candidates@);
    if levels == 0 {
        assert(before + candidates_below(db@, parent_id, 0) == before);
        return;
    }
    let children = db.children(parent_id);
    let ghost fs = crate::fragment::fragment_views(children@);
    let ghost d = (levels - 1) as nat;
    push_sibling_candidates(&children, candidates);
    let ghost level = candidates_among(fs, fs.len() as int);
    let mut i: usize = 0;
    assert(before + level + candidates_below_each(db@, fs.take(0), d) == before + level);
    while i < children.len()
        invariant
            db.wf(),
            levels > 0,
            d == levels - 1,
            i <= children.len(),
            fs == crate::fragment::fragment_views(children@),
            candidate_views(candidates@) == before + level + candidates_below_each(
                db@,
                fs.take(i as int),
                d,
            ),
        decreases children.len() - i,
    {
        collect_contradiction_candidates(db, children[i].id, levels - 1, candidates);
        proof {
            assert(fs.take(i + 1).drop_last() == fs.take(i as int));
            assert(fs.take(i + 1).last() == children@[i as int]@);
            let seen = candidates_below_each(db@, fs.take(i as int), d);
            let more = candidates_below(db@, children@[i as int].id, d);
            assert(before + level + seen + more == before + level + (seen + more));
        }
        i = i + 1;
    }
    proof {
        assert(fs.take(i as int) == fs);
        let below = candidates_below_each(db@, fs, d);
        assert(before + level + below == before + (level + below));
    }
}

/// Collects all candidates.
pub fn collect_candidates(db: &LoreDb) -> (r: Vec<ContradictionCandidate>)
    requires
        db.wf(),
    ensures
        candidate_views(r@) == all_candidates(db@),
{
    let roots = db.list_roots(None);
    let ghost fs = crate::fragment::fragment_views(roots@);
    let levels: usize = db.storage().fragment_count();
    let mut out: Vec<ContradictionCandidate> = Vec::new();
    let mut i: usize = 0;
    assert(candidate_views(out@) == candidates_below_each(db@, fs.take(0), levels as nat));
    while i < roots.len()
        invariant
            db.wf(),
            i <= roots.len(),
            fs == crate::fragment::fragment_views(roots@),
            candidate_views(out@) == candidates_below_each(
                db@,
                fs.take(i as int),
                levels as nat,
            ),
        decreases roots.len() - i,
    {
        collect_contradiction_candidates(db, roots[i].id, levels, &mut out);
        proof {
            assert(fs.take(i + 1).drop_last() == fs.take(i as int));
            assert(fs.take(i + 1).last() == roots@[i as int]@);
        }
        i = i + 1;
    }
    assert(fs.take(i as int) == fs);
    out
}

// ---- batches ----

/// Where the parts of a list lie when it is cut into parts of a size: part `k`
/// begins at `k * size`, and only the last part may be shorter.
pub open spec fn part_of(len: int, size: int, k: int) -> (int, int) {
    (
        k * size,
        if (k + 1) * size < len {
            (k + 1) * size
        } else {
            len
        },
    )
}

/// The number of parts.
pub open spec fn part_count(len: int, size: int) -> int {
    (len + size - 1) / size
}

/// Cuts a list into parts of a size, each given by where it begins and ends.
pub fn cut_into_parts(len: usize, size: usize) -> (r: Vec<(usize, usize)>)
    requires
        size > 0,
    ensures
        r.len() == part_count(len as int, size as int),
        forall|k: int|
            0 <= k < r.len() ==> ((#[trigger] r@[k]).0 as int, r@[k].1 as int) == part_of(
                len as int,
                size as int,
                k,
            ) && r@[k].0 < r@[k].1 <= len,
{
    let mut out: Vec<(usize, usize)> = Vec::new();
    let mut from: usize = 0;
    proof {
        assert(0 * size == 0) by (nonlinear_arith);
        assert((size - 1) / (size as int) == 0) by (nonlinear_arith)
            requires
                size > 0,
        ;
    }
    while from < len
        invariant
            size > 0,
            from <= len,
            from == out.len() * size || (from == len && out.len() > 0 && (out.len() - 1) * size < len
                <= out.len() * size),
            from < len ==> from == out.len() * size,
            len > 0 ==> from == 0 || (out.len() > 0 && (out.len() - 1) * size < len),
            forall|k: int|
                0 <= k < out.len() ==> ((#[trigger] out@[k]).0 as int, out@[k].1 as int) == part_of(
                    len as int,
                    size as int,
                    k,
                ) && out@[k].0 < out@[k].1 <= len,
        decreases len - from,
    {
        let to: usize = if len - from <= size {
            len
        } else {
            from + size
        };
        let ghost n = out.len() as int;
        assert((n + 1) * size == n * size + size) by (nonlinear_arith);
        out.push((from, to));
        from = to;
    }
    proof {
        let n = out.len() as int;
        if len == 0 {
            assert(n == 0) by (nonlinear_arith)
                requires
                    from == 0,
                    from == n * size || n == 0,
                    size > 0,
                    n >= 0,
            ;
        } else {
            assert((n - 1) * size < len <= n * size);
            assert((n - 1) * size == n * size - size) by (nonlinear_arith);
            vstd::arithmetic::div_mod::lemma_fundamental_div_mod_converse(
                len + size - 1,
                size as int,
                n,
                len + size - 1 - n * size,
            );
        }
    }
    out
}

/// A question about two statements.
pub open spec fn pair_prompt(c: CandidateView) -> Seq<char> {
    "Do these two statements contradict each other? Answer only 'yes' or 'no'.\n\nStatement A: "@
        + c.content_a + "\n\nStatement B: "@ + c.content_b
}

/// The numbered pairs of a question about many.
pub open spec fn numbered_pairs(batch: Seq<CandidateView>) -> Seq<char>
    decreases batch.len(),
{
    if batch.len() == 0 {
        Seq::empty()
    } else {
        numbered_pairs(batch.drop_last()) + ("Pair "@ + crate::text::decimal(batch.len())
            + ":\n  A: "@ + batch.last().content_a + "\n  B: "@ + batch.last().content_b + "\n\n"@)
    }
}

/// The question about a batch: a simple one for a single pair, and one that asks
/// for a list of numbers for more of them.
pub open spec fn batch_question(batch: Seq<CandidateView>) -> Seq<char> {
    if batch.len() == 1 {
        pair_prompt(batch[0])
    } else {
        "For each numbered pair below, determine if the two statements contradict each other. Respond with ONLY a JSON array of the pair numbers that contradict. Example: [1, 3] means pairs 1 and 3 contradict. [] means none contradict.\n\n"@
            + numbered_pairs(batch) + "Respond with ONLY the JSON array, no explanation."@
    }
}

/// Writes the question about two statements.
pub fn contradiction_prompt(c: &ContradictionCandidate) -> (r: String)
    ensures
        r@ == pair_prompt(c@),
{
    let mut s: String =
        "Do these two statements contradict each other? Answer only 'yes' or 'no'.\n\nStatement A: ".to_owned();
    s.append(c.content_a.as_str());
    s.append("\n\nStatement B: ");
    s.append(c.content_b.as_str());
    s
}

/// Writes the question about a batch of candidates.
pub fn batch_prompt(batch: &Vec<ContradictionCandidate>) -> (r: String)
    requires
        batch.len() > 0,
    ensures
        r@ == batch_question(candidate_views(batch@)),
{
    let ghost all = candidate_views(batch@);
    if batch.len() == 1 {
        assert(all[0] == batch@[0]@);
        return contradiction_prompt(&batch[0]);
    }
    let mut s: String =
        "For each numbered pair below, determine if the two statements contradict each other. Respond with ONLY a JSON array of the pair numbers that contradict. Example: [1, 3] means pairs 1 and 3 contradict. [] means none contradict.\n\n".to_owned();
    let ghost head = s@;
    let mut i: usize = 0;
    assert(head + numbered_pairs(all.take(0)) == head);
    while i < batch.len()
        invariant
            i <= batch.len(),
            all == candidate_views(batch@),
            s@ == head + numbered_pairs(all.take(i as int)),
        decreases batch.len() - i,
    {
        let c = &batch[i];
        let ghost before = s@;
        let ghost seen = numbered_pairs(all.take(i as int));
        s.append("Pair ");
        s.append(decimal_text(i as u64 + 1).as_str());
        s.append(":\n  A: ");
        s.append(c.content_a.as_str());
        s.append("\n  B: ");
        s.append(c.content_b.as_str());
        s.append("\n\n");
        proof {
            assert(all.take(i + 1).drop_last() == all.take(i as int));
            assert(all.take(i + 1).last() == c@);
            let line = "Pair "@ + crate::text::decimal((i + 1) as nat) + ":\n  A: "@ + c@.content_a
                + "\n  B: "@ + c@.content_b + "\n\n"@;
            assert(s@ == before + line);
            assert(head + seen + line == head + (seen + line));
        }
        i = i + 1;
    }
    assert(all.take(i as int) == all);
    s.append("Respond with ONLY the JSON array, no explanation.");
    s
}

// ---- answers ----

/// The places that a list of numbers, counted from one, names in a batch.
pub open spec fn named_places(numbers: Seq<usize>, len: int) -> Seq<int>
    decreases numbers.len(),
{
    if numbers.len() == 0 {
        Seq::empty()
    } else if 1 <= numbers.last() <= len {
        named_places(numbers.drop_last(), len).push(numbers.last() - 1)
    } else {
        named_places(numbers.drop_last(), len)
    }
}

/// An answer to a simple question that begins with `yes`.
pub open spec fn says_yes(lowered: Seq<char>) -> bool {
    crate::text::begins_with(lowered, "yes"@)
}

/// The places in a batch that an answer says contradict. An answer that cannot
/// be read names none.
pub open spec fn contradicting(len: int, response: Seq<char>) -> Seq<int> {
    let t = crate::text::trimmed(response);
    if len == 1 {
        if says_yes(crate::text::lowercase(t)) {
            seq![0int]
        } else {
            Seq::empty()
        }
    } else {
        match crate::json::json_indices_of(t) {
            Some(numbers) => named_places(numbers, len),
            None => Seq::empty(),
        }
    }
}

/// Tells whether an answer in lower case begins with `yes`.
pub fn is_yes(lowered: &str) -> (r: bool)
    ensures
        r == says_yes(lowered@),
{
    starts_with(&to_chars(lowered), &to_chars("yes"))
}

/// The places that a list of numbers, counted from one, names in a batch.
pub fn select_places(numbers: &Vec<usize>, len: usize) -> (r: Vec<usize>)
    ensures
        crate::lists::place_views(r@) == named_places(numbers@, len as int),
        forall|i: int| 0 <= i < r.len() ==> #[trigger] r[i] < len,
{
    let mut out: Vec<usize> = Vec::new();
    let mut i: usize = 0;
    assert(crate::lists::place_views(out@) == named_places(numbers@.take(0), len as int));
    while i < numbers.len()
        invariant
            i <= numbers.len(),
            crate::lists::place_views(out@) == named_places(numbers@.take(i as int), len as int),
            forall|k: int| 0 <= k < out.len() ==> #[trigger] out[k] < len,
        decreases numbers.len() - i,
    {
        let n: usize = numbers[i];
        proof {
            assert(numbers@.take(i + 1).drop_last() == numbers@.take(i as int));
            assert(numbers@.take(i + 1).last() == n);
        }
        if n >= 1 && n <= len {
            assert(crate::lists::place_views(out@.push((n - 1) as usize))
                == crate::lists::place_views(out@).push(n - 1));
            out.push(n - 1);
        }
        i = i + 1;
    }
    assert(numbers@.take(i as int) == numbers@);
    out
}

/// Reads which places in a batch contradict out of an answer.
pub fn read_answer(len: usize, response: &str) -> (r: Vec<usize>)
    ensures
        crate::lists::place_views(r@) == contradicting(len as int, response@),
        forall|i: int| 0 <= i < r.len() ==> #[trigger] r[i] < len,
{
    let t = trim(response);
    if len == 1 {
        let mut out: Vec<usize> = Vec::new();
        if is_yes(to_lowercase(t.as_str()).as_str()) {
            out.push(0);
            assert(crate::lists::place_views(out@) == seq![0int]);
        } else {
            assert(crate::lists::place_views(out@) == Seq::<int>::empty());
        }
        return out;
    }
    match json_indices(t.as_str()) {
        Some(numbers) => select_places(&numbers, len),
        None => {
            let out: Vec<usize> = Vec::new();
            assert(crate::lists::place_views(out@) == Seq::<int>::empty());
            out
        },
    }
}

// ---- resolution ----

/// The older and the newer one of a candidate; the second is taken for the older
/// one where both are equally old.
pub open spec fn older_and_newer(c: CandidateView) -> (FragmentId, FragmentId) {
    if c.created_a < c.created_b {
        (c.id_a, c.id_b)
    } else {
        (c.id_b, c.id_a)
    }
}

/// Tells the older one of a candidate from the newer one.
pub fn order_by_age(c: &ContradictionCandidate) -> (r: (FragmentId, FragmentId))
    ensures
        r == older_and_newer(c@),
{
    if c.created_a < c.created_b {
        (c.id_a, c.id_b)
    } else {
        (c.id_b, c.id_a)
    }
}

/// Resolves a contradiction: the newer fragment supersedes the older one. Tells
/// that one was resolved.
pub fn resolve_contradiction(db: &mut LoreDb, candidate: &ContradictionCandidate, stamp: Stamp) -> (r:
    Result<usize, StorageError>)
    requires
        old(db).wf(),
    ensures
        final(db).wf(),
        ({
            let pair = older_and_newer(candidate@);
            let o = crate::changes::superseding(old(db)@, pair.0, pair.1, stamp);
            &&& final(db)@ == o.graph
            &&& match r {
                Ok(n) => n == 1 && o.result is Ok,
                Err(e) => o.result == Err::<(), StorageError>(e),
            }
        }),
{
    let (old_id, new_id) = order_by_age(candidate);
    match db.supersede_stamped(old_id, new_id, stamp) {
        Ok(_) => Ok(1),
        Err(e) => Err(e),
    }
}

/// A graph in which contradictions are resolved, and how many were.
pub struct Resolution {
    pub graph: StorageView,
    pub count: nat,
}

/// The outcome of resolving the contradictions at some places of a batch, one by
/// one; one that is refused is passed over. Each edge has its stamp.
pub open spec fn resolving(
    g: StorageView,
    batch: Seq<CandidateView>,
    places: Seq<int>,
    stamps: Seq<Stamp>,
) -> Resolution
    decreases places.len(),
{
    if places.len() == 0 || stamps.len() == 0 {
        Resolution { graph: g, count: 0 }
    } else {
        let before = resolving(g, batch, places.drop_last(), stamps.drop_last());
        let pair = older_and_newer(batch[places.last()]);
        let o = crate::changes::superseding(before.graph, pair.0, pair.1, stamps.last());
        Resolution {
            graph: o.graph,
            count: if o.result is Ok {
                before.count + 1
            } else {
                before.count
            },
        }
    }
}

/// `after` and `result` are an outcome of resolving what an answer says of a
/// batch. A single pair that is refused is an error; in a larger batch it is
/// passed over.
pub open spec fn batch_resolved(
    g: StorageView,
    batch: Seq<CandidateView>,
    places: Seq<int>,
    after: StorageView,
    result: Result<usize, StorageError>,
) -> bool {
    exists|stamps: Seq<Stamp>|
        {
            let o = #[trigger] resolving(g, batch, places, stamps);
            &&& stamps.len() == places.len()
            &&& forall|i: int|
                0 <= i < stamps.len() ==> crate::changes::is_drawn(#[trigger] stamps[i])
            &&& after == o.graph
            &&& if batch.len() == 1 && places.len() == 1 && o.count == 0 {
                result == Err::<usize, StorageError>(
                    crate::changes::superseding(
                        g,
                        older_and_newer(batch[places[0]]).0,
                        older_and_newer(batch[places[0]]).1,
                        stamps[0],
                    ).result->Err_0,
                )
            } else {
                result matches Ok(n) && n == o.count
            }
        }
}

/// Resolves the contradictions at some places of a batch, and tells how many
/// were resolved.
pub fn resolve_batch(
    db: &mut LoreDb,
    batch: &Vec<ContradictionCandidate>,
    places: &Vec<usize>,
) -> (r: Result<usize, StorageError>)
    requires
        old(db).wf(),
        forall|i: int| 0 <= i < places.len() ==> #[trigger] places[i] < batch.len(),
    ensures
        final(db).wf(),
        batch_resolved(
            old(db)@,
            candidate_views(batch@),
            crate::lists::place_views(places@),
            final(db)@,
            r,
        ),
{
    let ghost before = db@;
    let ghost all = candidate_views(batch@);
    let ghost at = crate::lists::place_views(places@);
    let ghost mut stamps: Seq<Stamp> = Seq::empty();
    let mut resolved: usize = 0;
    let mut last_error: Option<StorageError> = None;
    let mut i: usize = 0;
    while i < places.len()
        invariant
            db.wf(),
            before == old(db)@,
            all == candidate_views(batch@),
            at == crate::lists::place_views(places@),
            forall|k: int| 0 <= k < places.len() ==> #[trigger] places[k] < batch.len(),
            i <= places.len(),
            resolved <= i,
            stamps.len() == i,
            forall|k: int| 0 <= k < stamps.len() ==> crate::changes::is_drawn(#[trigger] stamps[k]),
            db@ == resolving(before, all, at.take(i as int), stamps).graph,
            resolved == resolving(before, all, at.take(i as int), stamps).count,
            i == 0 ==> last_error is None,
            i == 1 ==> (resolved == 0 <==> last_error is Some),
            i == 1 && resolved == 0 ==> crate::changes::superseding(
                before,
                older_and_newer(all[at[0]]).0,
                older_and_newer(all[at[0]]).1,
                stamps[0],
            ).result == Err::<(), StorageError>(last_error->0),
        decreases places.len() - i,
    {
        let stamp = Stamp::new();
        let place: usize = places[i];
        proof {
            assert(at.take(i + 1).drop_last() == at.take(i as int));
            assert(at.take(i + 1).last() == place);
            assert(all[place as int] == batch@[place as int]@);
            assert(stamps.push(stamp).drop_last() == stamps);
            stamps = stamps.push(stamp);
            if i == 0 {
                assert(resolving(before, all, at.take(0), stamps.drop_last()).graph == before);
            }
        }
        match resolve_contradiction(db, &batch[place], stamp) {
            Ok(n) => {
                resolved = resolved + n;
            },
            Err(e) => {
                last_error = Some(e);
            },
        }
        i = i + 1;
    }
    assert(at.take(i as int) == at);
    if batch.len() == 1 && places.len() == 1 {
        if let Some(e) = last_error {
            return Err(e);
        }
    }
    Ok(resolved)
}

/// Does what an answer says of a batch, and tells how many contradictions were
/// resolved. Without an answer nothing is done.
pub fn check_contradiction_batch(
    db: &mut LoreDb,
    batch: &Vec<ContradictionCandidate>,
    response: Option<&str>,
) -> (r: Result<usize, StorageError>)
    requires
        old(db).wf(),
    ensures
        final(db).wf(),
        match response {
            Some(s) => batch_resolved(
                old(db)@,
                candidate_views(batch@),
                contradicting(batch.len() as int, s@),
                final(db)@,
                r,
            ),
            None => final(db)@ == old(db)@ && r == Ok::<usize, StorageError>(0),
        },
{
    match response {
        Some(s) => {
            let places = read_answer(batch.len(), s);
            resolve_batch(db, batch, &places)
        },
        None => Ok(0),
    }
}

/// Of two fragments that contradict each other the older one gives way: the
/// newer one supersedes it, and nothing else changes about the fragments.
pub proof fn law_older_gives_way(g: StorageView, c: CandidateView, stamp: Stamp, i: int)
    requires
        crate::storage::is_sound(g),
        crate::storage::has_fragment(g.fragments, c.id_a),
        crate::storage::has_fragment(g.fragments, c.id_b),
        0 <= i < g.fragments.len(),
    ensures
        ({
            let pair = older_and_newer(c);
            let after = crate::changes::superseding(g, pair.0, pair.1, stamp).graph;
            &&& c.created_a < c.created_b ==> pair == (c.id_a, c.id_b)
            &&& c.created_b < c.created_a ==> pair == (c.id_b, c.id_a)
            &&& after.fragments.len() == g.fragments.len()
            &&& after.fragments[i] == if g.fragments[i].id == pair.0 {
                FragmentView { superseded_by: Some(pair.1), ..g.fragments[i] }
            } else {
                g.fragments[i]
            }
        }),
{
}

// ---- which statements are compared ----

proof fn lemma_candidates_with(f: FragmentView, others: Seq<FragmentView>, n: int)
    requires
        0 <= n <= others.len(),
    ensures
        forall|j: int|
            0 <= j < n && may_contradict(f, #[trigger] others[j]) ==> candidates_with(
                f,
                others,
                n,
            ).contains(candidate_of(f, others[j])),
        forall|c: CandidateView| #[trigger]
            candidates_with(f, others, n).contains(c) ==> exists|j: int|
                #![trigger others[j]]
                0 <= j < n && c == candidate_of(f, others[j]) && may_contradict(f, others[j]),
        crate::storage::unique_fragments(others) ==> candidates_with(f, others, n).no_duplicates(),
    decreases n,
{
    if n > 0 {
        lemma_candidates_with(f, others, n - 1);
        let rest = candidates_with(f, others, n - 1);
        let all = candidates_with(f, others, n);
        assert forall|j: int| 0 <= j < n && may_contradict(f, #[trigger] others[j]) implies
            all.contains(candidate_of(f, others[j])) by {
            if j < n - 1 {
                assert(rest.contains(candidate_of(f, others[j])));
                let k = choose|k: int| 0 <= k < rest.len() && rest[k] == candidate_of(f, others[j]);
                assert(all[k] == rest[k]);
            } else {
                assert(all[rest.len() as int] == candidate_of(f, others[j]));
            }
        }
        assert forall|c: CandidateView| #[trigger] all.contains(c) implies exists|j: int|
            #![trigger others[j]]
            0 <= j < n && c == candidate_of(f, others[j]) && may_contradict(f, others[j]) by {
            let k = choose|k: int| 0 <= k < all.len() && all[k] == c;
            if k < rest.len() {
                assert(rest[k] == c);
                assert(rest.contains(c));
            } else {
                assert(c == candidate_of(f, others[n - 1]));
            }
        }
        if crate::storage::unique_fragments(others) {
            assert forall|a: int, b: int|
                0 <= a < all.len() && 0 <= b < all.len() && a != b implies all[a] != all[b] by {
                if a < rest.len() && b < rest.len() {
                    assert(rest[a] != rest[b]);
                } else {
                    let c = if a < rest.len() {
                        a
                    } else {
                        b
                    };
                    assert(rest.contains(rest[c]));
                    let j = choose|j: int|
                        #![trigger others[j]]
                        0 <= j < n - 1 && rest[c] == candidate_of(f, others[j]);
                    assert(others[j].id != others[n - 1].id);
                }
            }
        }
    }
}

proof fn lemma_candidates_among(fs: Seq<FragmentView>, n: int)
    requires
        0 <= n <= fs.len(),
    ensures
        forall|i: int, j: int|
            #![trigger fs[i], fs[j]]
            0 <= i < n && i < j < fs.len() && may_contradict(fs[i], fs[j]) ==> candidates_among(
                fs,
                n,
            ).contains(candidate_of(fs[i], fs[j])),
        forall|c: CandidateView| #[trigger]
            candidates_among(fs, n).contains(c) ==> exists|i: int, j: int|
                #![trigger fs[i], fs[j]]
                0 <= i < n && i < j < fs.len() && c == candidate_of(fs[i], fs[j])
                    && may_contradict(fs[i], fs[j]),
    decreases n,
{
    if n > 0 {
        lemma_candidates_among(fs, n - 1);
        let rest = fs.skip(n);
        let f = fs[n - 1];
        lemma_candidates_with(f, rest, rest.len() as int);
        let front = candidates_among(fs, n - 1);
        let row = candidates_with(f, rest, rest.len() as int);
        let all = candidates_among(fs, n);
        assert(all == front + row);
        assert forall|i: int, j: int|
            #![trigger fs[i], fs[j]]
            0 <= i < n && i < j < fs.len() && may_contradict(fs[i], fs[j]) implies all.contains(
            candidate_of(fs[i], fs[j]),
        ) by {
            let c = candidate_of(fs[i], fs[j]);
            if i < n - 1 {
                assert(front.contains(c));
                let k = choose|k: int| 0 <= k < front.len() && front[k] == c;
                assert(all[k] == c);
            } else {
                assert(rest[j - n] == fs[j]);
                assert(row.contains(c));
                let k = choose|k: int| 0 <= k < row.len() && row[k] == c;
                assert(all[front.len() + k] == c);
            }
        }
        assert forall|c: CandidateView| #[trigger] all.contains(c) implies exists|i: int, j: int|
            #![trigger fs[i], fs[j]]
            0 <= i < n && i < j < fs.len() && c == candidate_of(fs[i], fs[j])
                && may_contradict(fs[i], fs[j]) by {
            let k = choose|k: int| 0 <= k < all.len() && all[k] == c;
            if k < front.len() {
                assert(front[k] == c);
                assert(front.contains(c));
            } else {
                assert(row[k - front.len()] == c);
                assert(row.contains(c));
                let j = choose|j: int|
                    #![trigger rest[j]]
                    0 <= j < rest.len() && c == candidate_of(f, rest[j]) && may_contradict(
                        f,
                        rest[j],
                    );
                assert(rest[j] == fs[n + j]);
                assert(c == candidate_of(fs[n - 1], fs[n + j]));
            }
        }
    }
}

proof fn lemma_candidates_distinct(fs: Seq<FragmentView>, n: int)
    requires
        0 <= n <= fs.len(),
        crate::storage::unique_fragments(fs),
    ensures
        candidates_among(fs, n).no_duplicates(),
    decreases n,
{
    if n > 0 {
        lemma_candidates_distinct(fs, n - 1);
        lemma_candidates_among(fs, n - 1);
        let rest = fs.skip(n);
        let f = fs[n - 1];
        let front = candidates_among(fs, n - 1);
        let row = candidates_with(f, rest, rest.len() as int);
        let all = candidates_among(fs, n);
        assert(crate::storage::unique_fragments(rest)) by {
            assert forall|a: int, b: int| 0 <= a < b < rest.len() implies (
            #[trigger] rest[a]).id != (#[trigger] rest[b]).id by {
                assert(fs[n + a].id != fs[n + b].id);
            }
        }
        lemma_candidates_with(f, rest, rest.len() as int);
        assert forall|c: int, d: int| 0 <= c < front.len() && 0 <= d < row.len() implies front[c]
            != row[d] by {
            assert(front.contains(front[c]));
            assert(row.contains(row[d]));
            let (i, j) = choose|i: int, j: int|
                #![trigger fs[i], fs[j]]
                0 <= i < n - 1 && i < j < fs.len() && front[c] == candidate_of(fs[i], fs[j]);
            let m = choose|m: int|
                #![trigger rest[m]]
                0 <= m < rest.len() && row[d] == candidate_of(f, rest[m]);
            assert(fs[i].id != fs[n - 1].id);
        }
        assert forall|a: int, b: int|
            0 <= a < all.len() && 0 <= b < all.len() && a != b implies all[a] != all[b] by {
            if a < front.len() && b < front.len() {
                assert(front[a] != front[b]);
            } else if a >= front.len() && b >= front.len() {
                assert(row[a - front.len()] != row[b - front.len()]);
            } else if a < front.len() {
                assert(front[a] != row[b - front.len()]);
            } else {
                assert(front[b] != row[a - front.len()]);
            }
        }
    }
}

/// Two siblings are compared unless both have embeddings and their similarity is below
/// one half. Each two of them are compared once, and with all that they say.
pub proof fn law_siblings_are_compared(fs: Seq<FragmentView>)
    ensures
        ({
            let all = candidates_among(fs, fs.len() as int);
            &&& forall|i: int, j: int|
                #![trigger fs[i], fs[j]]
                0 <= i < j < fs.len() && (fs[i].embedding.len() == 0 || fs[j].embedding.len() == 0
                    || crate::embedding::similarity(fs[i].embedding, fs[j].embedding)
                    >= 500_000_000) ==> all.contains(
                    CandidateView {
                        id_a: fs[i].id,
                        id_b: fs[j].id,
                        content_a: fs[i].content,
                        content_b: fs[j].content,
                        created_a: fs[i].created_at,
                        created_b: fs[j].created_at,
                    },
                )
            &&& forall|c: CandidateView| #[trigger]
                all.contains(c) ==> exists|i: int, j: int|
                    #![trigger fs[i], fs[j]]
                    0 <= i < j < fs.len() && c.id_a == fs[i].id && c.id_b == fs[j].id && (
                    fs[i].embedding.len() == 0 || fs[j].embedding.len() == 0
                        || crate::embedding::similarity(fs[i].embedding, fs[j].embedding)
                        >= 500_000_000)
            &&& crate::storage::unique_fragments(fs) ==> all.no_duplicates()
        }),
{
    let all = candidates_among(fs, fs.len() as int);
    lemma_candidates_among(fs, fs.len() as int);
    if crate::storage::unique_fragments(fs) {
        lemma_candidates_distinct(fs, fs.len() as int);
    }
    assert forall|c: CandidateView| #[trigger] all.contains(c) implies exists|i: int, j: int|
        #![trigger fs[i], fs[j]]
        0 <= i < j < fs.len() && c.id_a == fs[i].id && c.id_b == fs[j].id && (
        fs[i].embedding.len() == 0 || fs[j].embedding.len() == 0 || crate::embedding::similarity(
            fs[i].embedding,
            fs[j].embedding,
        ) >= 500_000_000) by {
        let (i, j) = choose|i: int, j: int|
            #![trigger fs[i], fs[j]]
            0 <= i < fs.len() && i < j < fs.len() && c == candidate_of(fs[i], fs[j])
                && may_contradict(fs[i], fs[j]);
        assert(c.id_a == fs[i].id && c.id_b == fs[j].id);
    }
}

proof fn lemma_below_each(g: StorageView, fs: Seq<FragmentView>, levels: nat, k: int, c: CandidateView)
    requires
        0 <= k < fs.len(),
        candidates_below(g, fs[k].id, levels).contains(c),
    ensures
        candidates_below_each(g, fs, levels).contains(c),
    decreases fs.len(),
{
    let front = candidates_below_each(g, fs.drop_last(), levels);
    let last = candidates_below(g, fs.last().id, levels);
    let all = candidates_below_each(g, fs, levels);
    if k < fs.len() - 1 {
        lemma_below_each(g, fs.drop_last(), levels, k, c);
        let i = choose|i: int| 0 <= i < front.len() && front[i] == c;
        assert(all[i] == c);
    } else {
        let i = choose|i: int| 0 <= i < last.len() && last[i] == c;
        assert(all[front.len() + i] == c);
    }
}

/// What is compared below a fragment are its children among each other, and whatever is
/// compared below each of them, as far down as the levels reach. Nothing below a root is
/// left out.
pub proof fn law_comparing_goes_down(
    g: StorageView,
    id: FragmentId,
    levels: nat,
    k: int,
    c: CandidateView,
)
    requires
        levels > 0,
    ensures
        ({
            let children = crate::storage::children_of(g, id);
            let all = candidates_below(g, id, levels);
            &&& candidates_among(children, children.len() as int).contains(c) ==> all.contains(c)
            &&& 0 <= k < children.len() && candidates_below(
                g,
                children[k].id,
                (levels - 1) as nat,
            ).contains(c) ==> all.contains(c)
        }),
        0 <= k < crate::query::roots_of(g).len() && candidates_below(
            g,
            crate::query::roots_of(g)[k].id,
            g.fragments.len(),
        ).contains(c) ==> all_candidates(g).contains(c),
{
    let children = crate::storage::children_of(g, id);
    let all = candidates_below(g, id, levels);
    let among = candidates_among(children, children.len() as int);
    let below = candidates_below_each(g, children, (levels - 1) as nat);
    assert(all == among + below);
    if among.contains(c) {
        let i = choose|i: int| 0 <= i < among.len() && among[i] == c;
        assert(all[i] == c);
    }
    if 0 <= k < children.len() && candidates_below(
        g,
        children[k].id,
        (levels - 1) as nat,
    ).contains(c) {
        lemma_below_each(g, children, (levels - 1) as nat, k, c);
        let i = choose|i: int| 0 <= i < below.len() && below[i] == c;
        assert(all[among.len() + i] == c);
    }
    let roots = crate::query::roots_of(g);
    if 0 <= k < roots.len() && candidates_below(g, roots[k].id, g.fragments.len()).contains(c) {
        lemma_below_each(g, roots, g.fragments.len(), k, c);
    }
}

/// A candidate is made of two children of one parent.
spec fn is_made_of_siblings(g: StorageView, c: CandidateView) -> bool {
    exists|p: FragmentId|
        {
            let children = #[trigger] crate::storage::children_of(g, p);
            candidates_among(children, children.len() as int).contains(c)
        }
}

proof fn lemma_below_are_siblings(
    g: StorageView,
    id: FragmentId,
    fs: Seq<FragmentView>,
    levels: nat,
    each: bool,
    c: CandidateView,
)
    requires
        each ==> candidates_below_each(g, fs, levels).contains(c),
        !each ==> candidates_below(g, id, levels).contains(c),
    ensures
        is_made_of_siblings(g, c),
    decreases
            levels,
            if each {
                fs.len() + 1
            } else {
                0
            },
{
    if each {
        let front = candidates_below_each(g, fs.drop_last(), levels);
        let last = candidates_below(g, fs.last().id, levels);
        let all = candidates_below_each(g, fs, levels);
        let i = choose|i: int| 0 <= i < all.len() && all[i] == c;
        if i < front.len() {
            assert(front[i] == c);
            lemma_below_are_siblings(g, id, fs.drop_last(), levels, true, c);
        } else {
            assert(last[i - front.len()] == c);
            lemma_below_are_siblings(g, fs.last().id, fs, levels, false, c);
        }
    } else {
        let children = crate::storage::children_of(g, id);
        let among = candidates_among(children, children.len() as int);
        let all = candidates_below(g, id, levels);
        let i = choose|i: int| 0 <= i < all.len() && all[i] == c;
        if i < among.len() {
            assert(among[i] == c);
        } else {
            let below = candidates_below_each(g, children, (levels - 1) as nat);
            assert(below[i - among.len()] == c);
            lemma_below_are_siblings(g, id, children, (levels - 1) as nat, true, c);
        }
    }
}

/// Nothing but siblings is compared.
pub proof fn law_only_siblings_are_compared(g: StorageView, c: CandidateView)
    requires
        all_candidates(g).contains(c),
    ensures
        exists|p: FragmentId|
            {
                let children = #[trigger] crate::storage::children_of(g, p);
                candidates_among(children, children.len() as int).contains(c)
            },
{
    lemma_below_are_siblings(
        g,
        c.id_a,
        crate::query::roots_of(g),
        g.fragments.len(),
        true,
        c,
    );
}

/// A list is cut into parts that follow each other from its beginning to its end. All
/// of them have the size asked for but the last, which may be shorter, and is not empty.
pub proof fn law_cut_into_parts(len: int, size: int, k: int)
    requires
        len >= 0,
        size > 0,
        0 <= k < part_count(len, size),
    ensures
        len == 0 <==> part_count(len, size) == 0,
        part_of(len, size, 0).0 == 0,
        part_of(len, size, k).0 < part_of(len, size, k).1 <= len,
        k < part_count(len, size) - 1 ==> part_of(len, size, k).1 - part_of(len, size, k).0 == size
            && part_of(len, size, k + 1).0 == part_of(len, size, k).1,
        k == part_count(len, size) - 1 ==> part_of(len, size, k).1 == len && part_of(
            len,
            size,
            k,
        ).1 - part_of(len, size, k).0 <= size,
{
    let c = part_count(len, size);
    vstd::arithmetic::div_mod::lemma_fundamental_div_mod(len + size - 1, size);
    vstd::arithmetic::div_mod::lemma_mod_bound(len + size - 1, size);
    assert(size * c == c * size && 0 * size == 0) by (nonlinear_arith);
    assert((k + 1) * size == k * size + size) by (nonlinear_arith);
    assert((c - 1) * size == c * size - size) by (nonlinear_arith);
    assert(0 <= k * size <= (c - 1) * size) by (nonlinear_arith)
        requires
            0 <= k <= c - 1,
            size > 0,
    ;
    if k < c - 1 {
        assert((k + 1) * size <= (c - 1) * size) by (nonlinear_arith)
            requires
                k + 1 <= c - 1,
                size > 0,
        ;
    }
}

// ---- what is asked and answered ----

proof fn lemma_numbered_pair(batch: Seq<CandidateView>, k: int) -> (r: (Seq<char>, Seq<char>))
    requires
        0 <= k < batch.len(),
    ensures
        numbered_pairs(batch) == r.0 + ("Pair "@ + crate::text::decimal((k + 1) as nat) + ":\n  A: "@
            + batch[k].content_a + "\n  B: "@ + batch[k].content_b + "\n\n"@) + r.1,
    decreases batch.len(),
{
    let front = batch.drop_last();
    let line = "Pair "@ + crate::text::decimal(batch.len()) + ":\n  A: "@ + batch.last().content_a
        + "\n  B: "@ + batch.last().content_b + "\n\n"@;
    if k == batch.len() - 1 {
        let r = (numbered_pairs(front), Seq::<char>::empty());
        assert(numbered_pairs(front) + line + Seq::<char>::empty() == numbered_pairs(front) + line);
        r
    } else {
        let r = lemma_numbered_pair(front, k);
        let own = "Pair "@ + crate::text::decimal((k + 1) as nat) + ":\n  A: "@
            + batch[k].content_a + "\n  B: "@ + batch[k].content_b + "\n\n"@;
        assert(r.0 + own + r.1 + line == r.0 + own + (r.1 + line));
        (r.0, r.1 + line)
    }
}

/// A question about several pairs holds each of them: its number, counted from one, and
/// both statements. A question about one pair holds both statements.
pub proof fn law_question_holds_all_pairs(batch: Seq<CandidateView>, k: int)
    requires
        0 <= k < batch.len(),
    ensures
        batch.len() > 1 ==> exists|a: Seq<char>, b: Seq<char>|
            #[trigger] (a + ("Pair "@ + crate::text::decimal((k + 1) as nat) + ":\n  A: "@
                + batch[k].content_a + "\n  B: "@ + batch[k].content_b + "\n\n"@) + b)
                == batch_question(batch),
        batch.len() == 1 ==> exists|a: Seq<char>, b: Seq<char>|
            #[trigger] (a + batch[0].content_a + b + batch[0].content_b) == batch_question(batch),
{
    if batch.len() == 1 {
        let a =
            "Do these two statements contradict each other? Answer only 'yes' or 'no'.\n\nStatement A: "@;
        let b = "\n\nStatement B: "@;
        assert(a + batch[0].content_a + b + batch[0].content_b == batch_question(batch));
    } else {
        let r = lemma_numbered_pair(batch, k);
        let head =
            "For each numbered pair below, determine if the two statements contradict each other. Respond with ONLY a JSON array of the pair numbers that contradict. Example: [1, 3] means pairs 1 and 3 contradict. [] means none contradict.\n\n"@;
        let foot = "Respond with ONLY the JSON array, no explanation."@;
        let own = "Pair "@ + crate::text::decimal((k + 1) as nat) + ":\n  A: "@
            + batch[k].content_a + "\n  B: "@ + batch[k].content_b + "\n\n"@;
        assert((head + r.0) + own + (r.1 + foot) == head + (r.0 + own + r.1) + foot);
    }
}

/// A number that names a pair of a batch.
pub open spec fn names_a_pair(len: int) -> spec_fn(usize) -> bool {
    |n: usize| 1 <= n <= len
}

/// An answer names the pairs whose numbers it lists: each of them that is in range, in
/// the order of the list and as often as it is listed, and no other.
pub proof fn law_listed_pairs_are_named(numbers: Seq<usize>, len: int)
    ensures
        ({
            let places = named_places(numbers, len);
            let listed = numbers.filter(names_a_pair(len));
            &&& places.len() == listed.len()
            &&& forall|k: int| 0 <= k < places.len() ==> #[trigger] places[k] == listed[k] - 1
        }),
        forall|i: int|
            0 <= i < numbers.len() && 1 <= #[trigger] numbers[i] <= len ==> named_places(
                numbers,
                len,
            ).contains(numbers[i] - 1),
    decreases numbers.len(),
{
    reveal(Seq::filter);
    let keep = names_a_pair(len);
    let places = named_places(numbers, len);
    if numbers.len() > 0 {
        let front = numbers.drop_last();
        law_listed_pairs_are_named(front, len);
        let before = named_places(front, len);
        assert forall|i: int| 0 <= i < numbers.len() && 1 <= #[trigger] numbers[i] <= len implies
            places.contains(numbers[i] - 1) by {
            if i < front.len() {
                assert(front[i] == numbers[i]);
                assert(before.contains(front[i] - 1));
                let k = choose|k: int| 0 <= k < before.len() && before[k] == front[i] - 1;
                assert(places[k] == before[k]);
            } else {
                assert(places[before.len() as int] == numbers[i] - 1);
            }
        }
    }
}

/// Of two lists of numbers, one behind the other, the pairs named are those of the one
/// and then those of the other.
pub proof fn law_named_one_by_one(a: Seq<usize>, b: Seq<usize>, n: usize, len: int)
    ensures
        named_places(a + b, len) == named_places(a, len) + named_places(b, len),
        named_places(seq![n], len) == if 1 <= n <= len {
            seq![n - 1]
        } else {
            Seq::empty()
        },
    decreases b.len(),
{
    assert(seq![n].drop_last() == Seq::<usize>::empty());
    assert(named_places(seq![n].drop_last(), len) == Seq::<int>::empty());
    if 1 <= n <= len {
        assert(Seq::<int>::empty().push(n - 1) == seq![n - 1]);
    }
    if b.len() == 0 {
        assert(a + b == a);
        assert(named_places(a, len) + named_places(b, len) == named_places(a, len));
    } else {
        law_named_one_by_one(a, b.drop_last(), n, len);
        assert((a + b).drop_last() == a + b.drop_last());
        let rest = named_places(b.drop_last(), len);
        assert((named_places(a, len) + rest).push(b.last() - 1) == named_places(a, len) + rest.push(
            b.last() - 1,
        ));
    }
}

/// The answer to a simple question says that the pair contradicts where it begins with
/// `yes`, in whatever case and behind whatever white space. An answer about several pairs
/// is a list of their numbers; one that is none names no pair.
pub proof fn law_answers_are_read(len: int, response: Seq<char>)
    ensures
        ({
            let t = crate::text::trimmed(response);
            let low = crate::text::lowercase(t);
            &&& len == 1 && low.len() >= 3 && low[0] == 'y' && low[1] == 'e' && low[2] == 's'
                ==> contradicting(len, response) == seq![0int]
            &&& len == 1 && !(low.len() >= 3 && low[0] == 'y' && low[1] == 'e' && low[2] == 's')
                ==> contradicting(len, response).len() == 0
            &&& len != 1 ==> match crate::json::json_indices_of(t) {
                Some(numbers) => contradicting(len, response) == named_places(numbers, len),
                None => contradicting(len, response).len() == 0,
            }
        }),
{
    reveal_strlit("yes");
    let low = crate::text::lowercase(crate::text::trimmed(response));
    if low.len() >= 3 && low[0] == 'y' && low[1] == 'e' && low[2] == 's' {
        assert(low.take(3) == "yes"@);
    } else if says_yes(low) {
        assert(low.take(3)[0] == 'y' && low.take(3)[1] == 'e' && low.take(3)[2] == 's');
    }
}

// ---- what is resolved ----

proof fn lemma_resolving_keeps(
    g: StorageView,
    batch: Seq<CandidateView>,
    places: Seq<int>,
    stamps: Seq<Stamp>,
    i: int,
)
    requires
        0 <= i < g.fragments.len(),
    ensures
        ({
            let after = resolving(g, batch, places, stamps).graph;
            &&& after.fragments.len() == g.fragments.len()
            &&& after.fragments[i] == (FragmentView {
                superseded_by: after.fragments[i].superseded_by,
                ..g.fragments[i]
            })
            &&& g.fragments[i].superseded_by is Some ==> after.fragments[i].superseded_by is Some
        }),
    decreases places.len(),
{
    if places.len() > 0 && stamps.len() > 0 {
        lemma_resolving_keeps(g, batch, places.drop_last(), stamps.drop_last(), i);
    }
}

proof fn lemma_resolving_has(
    g: StorageView,
    batch: Seq<CandidateView>,
    places: Seq<int>,
    stamps: Seq<Stamp>,
    id: FragmentId,
)
    ensures
        crate::storage::has_fragment(g.fragments, id) <==> crate::storage::has_fragment(
            resolving(g, batch, places, stamps).graph.fragments,
            id,
        ),
{
    let after = resolving(g, batch, places, stamps).graph;
    if crate::storage::has_fragment(g.fragments, id) {
        let k = choose|k: int| 0 <= k < g.fragments.len() && (#[trigger] g.fragments[k]).id == id;
        lemma_resolving_keeps(g, batch, places, stamps, k);
        assert(after.fragments[k].id == id);
    }
    if crate::storage::has_fragment(after.fragments, id) {
        let k = choose|k: int|
            0 <= k < after.fragments.len() && (#[trigger] after.fragments[k]).id == id;
        if g.fragments.len() > 0 {
            lemma_resolving_keeps(g, batch, places, stamps, 0);
            lemma_resolving_keeps(g, batch, places, stamps, k);
            assert(g.fragments[k].id == id);
        } else {
            lemma_resolving_none(g, batch, places, stamps);
        }
    }
}

proof fn lemma_resolving_none(
    g: StorageView,
    batch: Seq<CandidateView>,
    places: Seq<int>,
    stamps: Seq<Stamp>,
)
    requires
        g.fragments.len() == 0,
    ensures
        resolving(g, batch, places, stamps).graph.fragments.len() == 0,
    decreases places.len(),
{
    if places.len() > 0 && stamps.len() > 0 {
        lemma_resolving_none(g, batch, places.drop_last(), stamps.drop_last());
    }
}

/// Each contradiction that an answer names is resolved: where both statements are in the
/// memory, the older one is not active any more, and nothing of any fragment is changed
/// but what supersedes it.
pub proof fn law_named_contradictions_are_resolved(
    g: StorageView,
    batch: Seq<CandidateView>,
    places: Seq<int>,
    stamps: Seq<Stamp>,
    k: int,
    i: int,
)
    requires
        stamps.len() == places.len(),
        0 <= k < places.len(),
        0 <= i < g.fragments.len(),
        ({
            let c = batch[places[k]];
            &&& crate::storage::has_fragment(g.fragments, c.id_a)
            &&& crate::storage::has_fragment(g.fragments, c.id_b)
            &&& (c.created_a < c.created_b ==> g.fragments[i].id == c.id_a)
            &&& (c.created_a >= c.created_b ==> g.fragments[i].id == c.id_b)
        }),
    ensures
        ({
            let after = resolving(g, batch, places, stamps).graph;
            &&& after.fragments.len() == g.fragments.len()
            &&& after.fragments[i].superseded_by is Some
            &&& after.fragments[i].content == g.fragments[i].content
        }),
    decreases places.len(),
{
    lemma_resolving_keeps(g, batch, places, stamps, i);
    let (front, own) = (places.drop_last(), stamps.drop_last());
    let c = batch[places[k]];
    lemma_resolving_keeps(g, batch, front, own, i);
    if k < places.len() - 1 {
        assert(front[k] == places[k]);
        law_named_contradictions_are_resolved(g, batch, front, own, k, i);
    } else {
        lemma_resolving_has(g, batch, front, own, c.id_a);
        lemma_resolving_has(g, batch, front, own, c.id_b);
    }
}

/// As many contradictions are counted as are resolved: all that are named, where their
/// statements are in the memory and no stamp is in use.
pub proof fn law_resolved_contradictions_are_counted(
    g: StorageView,
    batch: Seq<CandidateView>,
    places: Seq<int>,
    stamps: Seq<Stamp>,
)
    requires
        stamps.len() == places.len(),
        forall|k: int|
            0 <= k < places.len() ==> crate::storage::has_fragment(
                g.fragments,
                batch[#[trigger] places[k]].id_a,
            ) && crate::storage::has_fragment(g.fragments, batch[places[k]].id_b),
        forall|i: int, j: int|
            0 <= i < j < stamps.len() ==> (#[trigger] stamps[i]).id != (#[trigger] stamps[j]).id,
        forall|i: int|
            0 <= i < stamps.len() ==> !crate::storage::has_edge(g.edges, (#[trigger] stamps[i]).id),
    ensures
        resolving(g, batch, places, stamps).count == places.len(),
        forall|e: int|
            0 <= e < resolving(g, batch, places, stamps).graph.edges.len() ==> e < g.edges.len()
                || exists|i: int|
                0 <= i < stamps.len() && (#[trigger] stamps[i]).id == (#[trigger] resolving(
                    g,
                    batch,
                    places,
                    stamps,
                ).graph.edges[e]).id,
        resolving(g, batch, places, stamps).graph.edges.len() == g.edges.len() + places.len(),
        forall|e: int|
            0 <= e < g.edges.len() ==> resolving(g, batch, places, stamps).graph.edges[e]
                == #[trigger] g.edges[e],
    decreases places.len(),
{
    if places.len() > 0 {
        let (front, own) = (places.drop_last(), stamps.drop_last());
        let n = places.len() - 1;
        assert forall|k: int| 0 <= k < front.len() implies crate::storage::has_fragment(
            g.fragments,
            batch[#[trigger] front[k]].id_a,
        ) && crate::storage::has_fragment(g.fragments, batch[front[k]].id_b) by {
            assert(front[k] == places[k]);
        }
        assert forall|i: int, j: int| 0 <= i < j < own.len() implies (#[trigger] own[i]).id != (
        #[trigger] own[j]).id by {
            assert(stamps[i].id != stamps[j].id);
        }
        assert forall|i: int| 0 <= i < own.len() implies !crate::storage::has_edge(
            g.edges,
            (#[trigger] own[i]).id,
        ) by {
            assert(own[i] == stamps[i]);
        }
        law_resolved_contradictions_are_counted(g, batch, front, own);
        let before = resolving(g, batch, front, own).graph;
        let all = resolving(g, batch, places, stamps).graph;
        let c = batch[places[n]];
        lemma_resolving_has(g, batch, front, own, c.id_a);
        lemma_resolving_has(g, batch, front, own, c.id_b);
        let stamp = stamps[n];
        assert(!crate::storage::has_edge(before.edges, stamp.id)) by {
            if crate::storage::has_edge(before.edges, stamp.id) {
                let e = choose|e: int|
                    0 <= e < before.edges.len() && (#[trigger] before.edges[e]).id == stamp.id;
                if e < g.edges.len() {
                    assert(before.edges[e] == g.edges[e]);
                    assert(g.edges[e].id == stamp.id);
                } else {
                    let i = choose|i: int|
                        0 <= i < own.len() && (#[trigger] own[i]).id == before.edges[e].id;
                    assert(stamps[i].id != stamps[n].id);
                }
            }
        }
        let pair = older_and_newer(c);
        let marked = crate::storage::updated(
            before.fragments,
            pair.0,
            crate::storage::superseded(pair.1),
        );
        crate::storage::lemma_updated_has(
            before.fragments,
            pair.0,
            crate::storage::superseded(pair.1),
            pair.0,
        );
        crate::storage::lemma_updated_has(
            before.fragments,
            pair.0,
            crate::storage::superseded(pair.1),
            pair.1,
        );
        assert(all.edges.len() == before.edges.len() + 1);
        assert forall|e: int| 0 <= e < all.edges.len() implies e < g.edges.len() || exists|i: int|
            0 <= i < stamps.len() && (#[trigger] stamps[i]).id == (#[trigger] all.edges[e]).id by {
            if e == before.edges.len() {
                assert(stamps[n].id == all.edges[e].id);
            } else if e >= g.edges.len() {
                assert(all.edges[e] == before.edges[e]);
                let i = choose|i: int|
                    0 <= i < own.len() && (#[trigger] own[i]).id == before.edges[e].id;
                assert(stamps[i].id == all.edges[e].id);
            }
        }
    }
}

/// Of two statements that contradict each other the newer one supersedes the older one,
/// and nothing else changes but for the edge that says so. Of two that are equally old the
/// first supersedes the second.
pub proof fn law_the_newer_supersedes(
    g: StorageView,
    batch: Seq<CandidateView>,
    places: Seq<int>,
    stamps: Seq<Stamp>,
    p: int,
    stamp: Stamp,
    i: int,
)
    requires
        stamps.len() == places.len(),
        ({
            let before = resolving(g, batch, places, stamps).graph;
            &&& 0 <= i < before.fragments.len()
            &&& crate::storage::has_fragment(before.fragments, batch[p].id_a)
            &&& crate::storage::has_fragment(before.fragments, batch[p].id_b)
        }),
    ensures
        ({
            let before = resolving(g, batch, places, stamps).graph;
            let after = resolving(g, batch, places.push(p), stamps.push(stamp)).graph;
            let c = batch[p];
            let f = before.fragments[i];
            &&& after.fragments.len() == before.fragments.len()
            &&& c.created_a < c.created_b && c.id_a == f.id ==> after.fragments[i] == (
            FragmentView { superseded_by: Some(c.id_b), ..f })
            &&& c.created_a < c.created_b && c.id_a != f.id ==> after.fragments[i] == f
            &&& c.created_a >= c.created_b && c.id_b == f.id ==> after.fragments[i] == (
            FragmentView { superseded_by: Some(c.id_a), ..f })
            &&& c.created_a >= c.created_b && c.id_b != f.id ==> after.fragments[i] == f
            &&& after.turns == before.turns && after.watermarks == before.watermarks
        }),
{
    assert(places.push(p).drop_last() == places);
    assert(stamps.push(stamp).drop_last() == stamps);
}

proof fn lemma_others_stay(
    g: StorageView,
    batch: Seq<CandidateView>,
    places: Seq<int>,
    stamps: Seq<Stamp>,
    i: int,
)
    requires
        0 <= i < g.fragments.len(),
        forall|k: int|
            0 <= k < places.len() ==> older_and_newer(batch[#[trigger] places[k]]).0
                != g.fragments[i].id,
    ensures
        resolving(g, batch, places, stamps).graph.fragments.len() == g.fragments.len(),
        resolving(g, batch, places, stamps).graph.fragments[i] == g.fragments[i],
        resolving(g, batch, places, stamps).count <= places.len(),
    decreases places.len(),
{
    if places.len() > 0 && stamps.len() > 0 {
        let front = places.drop_last();
        assert forall|k: int| 0 <= k < front.len() implies older_and_newer(
            batch[#[trigger] front[k]],
        ).0 != g.fragments[i].id by {
            assert(front[k] == places[k]);
        }
        lemma_others_stay(g, batch, front, stamps.drop_last(), i);
        assert(older_and_newer(batch[places[places.len() - 1]]).0 != g.fragments[i].id);
    }
}

/// Whatever is not the older one of a pair that was named stays as it is, and no more
/// contradictions are told of than were named.
pub proof fn law_only_the_older_give_way(
    g: StorageView,
    batch: Seq<CandidateView>,
    places: Seq<int>,
    after: StorageView,
    result: Result<usize, StorageError>,
    i: int,
)
    requires
        batch_resolved(g, batch, places, after, result),
        0 <= i < g.fragments.len(),
        forall|k: int|
            0 <= k < places.len() ==> {
                let c = batch[#[trigger] places[k]];
                if c.created_a < c.created_b {
                    c.id_a != g.fragments[i].id
                } else {
                    c.id_b != g.fragments[i].id
                }
            },
    ensures
        after.fragments.len() == g.fragments.len(),
        after.fragments[i] == g.fragments[i],
        result matches Ok(n) ==> n <= places.len(),
        places.len() == 0 ==> result == Ok::<usize, StorageError>(0) && after == g,
{
    let stamps = choose|stamps: Seq<Stamp>|
        {
            let o = #[trigger] resolving(g, batch, places, stamps);
            &&& stamps.len() == places.len()
            &&& after == o.graph
            &&& !(batch.len() == 1 && places.len() == 1 && o.count == 0) ==> (
            result matches Ok(n) && n == o.count)
            &&& result matches Ok(n) ==> n == o.count
        };
    assert forall|k: int| 0 <= k < places.len() implies older_and_newer(
        batch[#[trigger] places[k]],
    ).0 != g.fragments[i].id by {}
    lemma_others_stay(g, batch, places, stamps, i);
}

} // verus!
