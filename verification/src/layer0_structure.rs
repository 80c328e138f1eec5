//! The structure of the graphs and neighbor lists that the refinement makes.

use vstd::prelude::*;
use crate::candidate::{Candidate, PointOffsetType, ScoredPointOffset};
use crate::layer0_model::HandedOn;
use crate::score::Score;

verus! {

/// Whether scores do not depend on the order of the two points.
pub open spec fn symmetric(score: spec_fn(PointOffsetType, PointOffsetType) -> Score) -> bool {
    forall|a: PointOffsetType, b: PointOffsetType| #[trigger] score(a, b) == score(b, a)
}

/// Whether a candidate of `u` is an edge to another of `n` points, with its score.
pub open spec fn is_edge(
    n: nat,
    score: spec_fn(PointOffsetType, PointOffsetType) -> Score,
) -> spec_fn(int, Candidate) -> bool {
    |u: int, c: Candidate|
        c.idx < n && c.idx != u && c.score == score(u as PointOffsetType, c.idx)
}

/// Whether a candidate of `u` names one of `n` points, with the score of the pair.
/// It may be `u` itself.
pub open spec fn is_pair(
    n: nat,
    score: spec_fn(PointOffsetType, PointOffsetType) -> Score,
) -> spec_fn(int, Candidate) -> bool {
    |u: int, c: Candidate| c.idx < n && c.score == score(u as PointOffsetType, c.idx)
}

/// Whether a candidate of `u` names another of `n` points.
pub open spec fn is_other(n: nat) -> spec_fn(int, Candidate) -> bool {
    |u: int, c: Candidate| c.idx < n && c.idx != u
}

/// Whether `pool` holds a candidate of `v`.
pub open spec fn links(pool: Seq<Candidate>, v: PointOffsetType) -> bool {
    exists|i: int| 0 <= i < pool.len() && (#[trigger] pool[i]).idx == v
}

/// Whether no point has two candidates in `pool`.
pub open spec fn names_once(pool: Seq<Candidate>) -> bool {
    forall|i: int, j: int|
        0 <= i < j < pool.len() ==> (#[trigger] pool[i]).idx != (#[trigger] pool[j]).idx
}

// ---------------------------------------------------------------------------
// The pruning rule
// ---------------------------------------------------------------------------

/// What the refinement of the pool of `u` does to its candidates. Of two kept
/// ones that are not both settled, the later is another point, and at least as close
/// to `u` as to the earlier. A candidate other than `u` that is not kept is stopped by a kept
/// one; unless the two are one point, that point's pool receives it, with the
/// score between the two.
pub proof fn law_refinement_prunes_longest_edges(
    pool: Seq<Candidate>,
    u: int,
    score: spec_fn(PointOffsetType, PointOffsetType) -> Score,
)
    ensures
        ({
            let result = crate::layer0_model::refined(pool, u, score);
            &&& forall|i: int, j: int|
                0 <= i < j < result.kept.len() ==> {
                    ||| !result.kept[i].new_flag && !result.kept[j].new_flag
                    ||| result.kept[i].idx != result.kept[j].idx && !score(
                        (#[trigger] result.kept[j]).idx,
                        (#[trigger] result.kept[i]).idx,
                    ).exceeds(result.kept[j].score)
                }
            &&& forall|k: int|
                0 <= k < pool.len() && (#[trigger] pool[k]).idx != u ==> {
                    ||| result.kept.contains(pool[k])
                    ||| exists|i: int| 0 <= i < result.kept.len() && #[trigger] gives_way(
                        pool[k],
                        result.kept[i],
                        score,
                        result.handed,
                    )
                }
        }),
    decreases pool.len(),
{
    if pool.len() > 0 {
        let shorter = pool.drop_last();
        let before = crate::layer0_model::refined(shorter, u, score);
        let result = crate::layer0_model::refined(pool, u, score);
        let nn = pool.last();
        law_refinement_prunes_longest_edges(shorter, u, score);
        crate::layer0_laws::lemma_blocker_is_kept(before.kept, nn, score);
        assert forall|i: int| 0 <= i < before.kept.len() implies #[trigger] result.kept[i]
            == before.kept[i] by {}
        assert forall|k: int| 0 <= k < pool.len() && (#[trigger] pool[k]).idx != u implies {
            ||| result.kept.contains(pool[k])
            ||| exists|i: int| 0 <= i < result.kept.len() && #[trigger] gives_way(
                pool[k],
                result.kept[i],
                score,
                result.handed,
            )
        } by {
            if k < shorter.len() {
                assert(shorter[k] == pool[k]);
                if before.kept.contains(pool[k]) {
                    let i = choose|i: int| 0 <= i < before.kept.len() && before.kept[i] == pool[k];
                    assert(result.kept[i] == pool[k]);
                } else {
                    let i = choose|i: int| 0 <= i < before.kept.len() && #[trigger] gives_way(
                        pool[k],
                        before.kept[i],
                        score,
                        before.handed,
                    );
                    lemma_handed_grows(before.handed, result.handed, pool[k], before.kept[i], score);
                    assert(gives_way(pool[k], result.kept[i], score, result.handed));
                }
            } else {
                match crate::layer0_model::blocker(before.kept, nn, score) {
                    None => {
                        assert(result.kept[result.kept.len() - 1] == nn);
                    },
                    Some(other) => {
                        let i = choose|i: int| 0 <= i < before.kept.len() && before.kept[i] == other;
                        if other.idx != nn.idx {
                            assert(result.handed[result.handed.len() - 1] == moved(nn, other, score));
                        }
                        assert(gives_way(nn, result.kept[i], score, result.handed));
                    },
                }
            }
        }
    }
}

/// `nn` on its way to the pool of `other`.
pub open spec fn moved(
    nn: Candidate,
    other: Candidate,
    score: spec_fn(PointOffsetType, PointOffsetType) -> Score,
) -> HandedOn {
    HandedOn {
        to: other.idx,
        candidate: Candidate { idx: nn.idx, score: score(nn.idx, other.idx), new_flag: true },
    }
}

/// Whether `other` stops `nn`, and receives it unless the two are one point.
pub open spec fn gives_way(
    nn: Candidate,
    other: Candidate,
    score: spec_fn(PointOffsetType, PointOffsetType) -> Score,
    handed: Seq<HandedOn>,
) -> bool {
    &&& crate::layer0_model::blocks(other, nn, score)
    &&& other.idx == nn.idx || handed.contains(moved(nn, other, score))
}

/// A candidate that has given way still has when more is handed on.
proof fn lemma_handed_grows(
    before: Seq<HandedOn>,
    after: Seq<HandedOn>,
    nn: Candidate,
    other: Candidate,
    score: spec_fn(PointOffsetType, PointOffsetType) -> Score,
)
    requires
        gives_way(nn, other, score, before),
        before.len() <= after.len(),
        forall|i: int| 0 <= i < before.len() ==> before[i] == after[i],
    ensures
        gives_way(nn, other, score, after),
{
    if other.idx != nn.idx {
        let i = choose|i: int| 0 <= i < before.len() && before[i] == moved(nn, other, score);
        assert(after[i] == moved(nn, other, score));
    }
}

// ---------------------------------------------------------------------------
// Which points a pool names
// ---------------------------------------------------------------------------

/// Sorting names the same points.
pub proof fn lemma_sorted_links(pool: Seq<Candidate>, sorted: Seq<Candidate>, v: PointOffsetType)
    requires
        crate::candidate::sorts_to(pool, sorted),
    ensures
        links(sorted, v) == links(pool, v),
{
    broadcast use vstd::seq_lib::group_to_multiset_ensures;

    if links(sorted, v) {
        let i = choose|i: int| 0 <= i < sorted.len() && (#[trigger] sorted[i]).idx == v;
        crate::layer0_laws::lemma_sorted_member(pool, sorted, i);
        let j = choose|j: int| 0 <= j < pool.len() && pool[j] == sorted[i];
        assert(pool[j].idx == v);
    }
    if links(pool, v) {
        let i = choose|i: int| 0 <= i < pool.len() && (#[trigger] pool[i]).idx == v;
        assert(pool.contains(pool[i]));
        assert(pool.to_multiset().count(pool[i]) > 0);
        assert(sorted.contains(pool[i]));
        let j = choose|j: int| 0 <= j < sorted.len() && sorted[j] == pool[i];
        assert(sorted[j].idx == v);
    }
}

/// Cutting runs names the same points, and ends with the same one.
proof fn lemma_deduped_links(pool: Seq<Candidate>, v: PointOffsetType)
    ensures
        links(crate::candidate::deduped(pool), v) == links(pool, v),
        pool.len() > 0 ==> {
            &&& crate::candidate::deduped(pool).len() > 0
            &&& crate::candidate::deduped(pool).last().idx == pool.last().idx
        },
    decreases pool.len(),
{
    if pool.len() > 0 {
        let shorter = pool.drop_last();
        let before = crate::candidate::deduped(shorter);
        let result = crate::candidate::deduped(pool);
        lemma_deduped_links(shorter, v);
        if links(pool, v) {
            let i = choose|i: int| 0 <= i < pool.len() && (#[trigger] pool[i]).idx == v;
            if i < shorter.len() {
                assert(shorter[i].idx == v);
                let j = choose|j: int| 0 <= j < before.len() && (#[trigger] before[j]).idx == v;
                assert(result[j].idx == v);
            } else {
                assert(result[result.len() - 1].idx == v);
            }
        }
        if links(result, v) {
            let j = choose|j: int| 0 <= j < result.len() && (#[trigger] result[j]).idx == v;
            if j < before.len() {
                assert(before[j].idx == v);
                let i = choose|i: int| 0 <= i < shorter.len() && (#[trigger] shorter[i]).idx == v;
                assert(pool[i].idx == v);
            } else {
                assert(pool[pool.len() - 1].idx == v);
            }
        }
    }
}

/// Where the score of a candidate follows from its point, cutting the runs of a
/// sorted pool leaves one candidate for each point, in strict order.
proof fn lemma_deduped_names_once(
    sorted: Seq<Candidate>,
    u: int,
    n: nat,
    score: spec_fn(PointOffsetType, PointOffsetType) -> Score,
)
    requires
        crate::candidate::in_order(sorted),
        crate::layer0_laws::pool_holds(sorted, u, is_pair(n, score)),
    ensures
        names_once(crate::candidate::deduped(sorted)),
        forall|i: int, j: int|
            0 <= i < j < crate::candidate::deduped(sorted).len() ==> (
            #[trigger] crate::candidate::deduped(sorted)[i]).precedes(
                #[trigger] crate::candidate::deduped(sorted)[j],
            ),
    decreases sorted.len(),
{
    let result = crate::candidate::deduped(sorted);
    let pair = is_pair(n, score);
    if sorted.len() > 0 {
        let shorter = sorted.drop_last();
        let before = crate::candidate::deduped(shorter);
        assert forall|i: int| 0 <= i < shorter.len() implies pair(u, #[trigger] shorter[i]) by {
            assert(pair(u, sorted[i]));
        }
        assert forall|i: int, j: int| 0 <= i < j < shorter.len() implies !(
        #[trigger] shorter[j]).precedes(#[trigger] shorter[i]) by {
            assert(!sorted[j].precedes(sorted[i]));
        }
        lemma_deduped_names_once(shorter, u, n, score);
        let member = |w: int, c: Candidate| shorter.contains(c);
        assert forall|i: int| 0 <= i < shorter.len() implies member(u, #[trigger] shorter[i]) by {
            assert(shorter.contains(shorter[i]));
        }
        crate::layer0_laws::lemma_deduped_holds(shorter, u, member);
        let c = sorted.last();
        assert(pair(u, sorted[sorted.len() - 1]));
        if before.len() > 0 && before.last().idx != c.idx {
            assert(member(u, before[before.len() - 1]));
            let k = choose|k: int| 0 <= k < shorter.len() && shorter[k] == before.last();
            assert(!sorted[sorted.len() - 1].precedes(sorted[k]));
            assert(before.last().precedes(c));
            assert forall|i: int| 0 <= i < before.len() implies (#[trigger] before[i]).precedes(
                c,
            ) by {
                if i < before.len() - 1 {
                    assert(before[i].precedes(before[before.len() - 1]));
                }
            }
        }
    }
    crate::layer0_laws::lemma_deduped_holds(sorted, u, pair);
    assert forall|i: int, j: int| 0 <= i < j < result.len() implies (#[trigger] result[i]).idx != (
    #[trigger] result[j]).idx by {
        assert(result[i].precedes(result[j]));
        assert(pair(u, result[i]) && pair(u, result[j]));
    }
}

/// A pool that names other points of `n`, each once, is shorter than `n`.
proof fn lemma_named_once_len(pool: Seq<Candidate>, u: int, n: nat)
    requires
        0 <= u < n,
        names_once(pool),
        crate::layer0_laws::pool_holds(pool, u, is_other(n)),
    ensures
        pool.len() <= n - 1,
{
    let other = is_other(n);
    let ids = pool.map_values(|c: Candidate| c.idx as int);
    assert(ids.no_duplicates());
    ids.unique_seq_to_set();
    vstd::set_lib::lemma_int_range(0, n as int);
    let rest = vstd::set_lib::set_int_range(0, n as int).remove(u);
    assert(ids.to_set().subset_of(rest)) by {
        assert forall|v: int| ids.to_set().contains(v) implies rest.contains(v) by {
            let i = choose|i: int| 0 <= i < ids.len() && ids[i] == v;
            assert(other(u, pool[i]));
        }
    }
    vstd::set_lib::lemma_len_subset(ids.to_set(), rest);
}

/// A pool that names points of `n`, each once, is no longer than `n`.
proof fn lemma_pairs_once_len(
    pool: Seq<Candidate>,
    u: int,
    n: nat,
    score: spec_fn(PointOffsetType, PointOffsetType) -> Score,
)
    requires
        names_once(pool),
        crate::layer0_laws::pool_holds(pool, u, is_pair(n, score)),
    ensures
        pool.len() <= n,
{
    let pair = is_pair(n, score);
    let ids = pool.map_values(|c: Candidate| c.idx as int);
    assert(ids.no_duplicates());
    ids.unique_seq_to_set();
    vstd::set_lib::lemma_int_range(0, n as int);
    let all = vstd::set_lib::set_int_range(0, n as int);
    assert(ids.to_set().subset_of(all)) by {
        assert forall|v: int| ids.to_set().contains(v) implies all.contains(v) by {
            let i = choose|i: int| 0 <= i < ids.len() && ids[i] == v;
            assert(pair(u, pool[i]));
        }
    }
    vstd::set_lib::lemma_len_subset(ids.to_set(), all);
}

/// An edge is a pair.
proof fn lemma_edges_are_pairs(
    pool: Seq<Candidate>,
    u: int,
    n: nat,
    score: spec_fn(PointOffsetType, PointOffsetType) -> Score,
)
    requires
        crate::layer0_laws::pool_holds(pool, u, is_edge(n, score)),
    ensures
        crate::layer0_laws::pool_holds(pool, u, is_pair(n, score)),
{
    let edge = is_edge(n, score);
    let pair = is_pair(n, score);
    assert forall|i: int| 0 <= i < pool.len() implies pair(u, #[trigger] pool[i]) by {
        assert(edge(u, pool[i]));
    }
}

/// Whether `handed` holds a candidate of `v` for `w`.
pub open spec fn hands(handed: Seq<HandedOn>, w: int, v: PointOffsetType) -> bool {
    exists|i: int|
        0 <= i < handed.len() && (#[trigger] handed[i]).to == w && handed[i].candidate.idx == v
}

/// A pool names after a delivery what it named before and what it receives; it
/// loses nothing.
proof fn lemma_delivered_links(
    graph: Seq<Seq<Candidate>>,
    handed: Seq<HandedOn>,
    w: int,
    v: PointOffsetType,
)
    requires
        0 <= w < graph.len(),
    ensures
        crate::layer0_model::delivered(graph, handed).len() == graph.len(),
        crate::layer0_model::delivered(graph, handed)[w].len() >= graph[w].len(),
        links(crate::layer0_model::delivered(graph, handed)[w], v) == (links(graph[w], v) || hands(
            handed,
            w,
            v,
        )),
    decreases handed.len(),
{
    if handed.len() > 0 {
        let earlier = handed.drop_last();
        let last = handed.last();
        lemma_delivered_links(graph, earlier, w, v);
        let before = crate::layer0_model::delivered(graph, earlier)[w];
        let after = crate::layer0_model::delivered(graph, handed)[w];
        if hands(handed, w, v) {
            let i = choose|i: int|
                0 <= i < handed.len() && (#[trigger] handed[i]).to == w && handed[i].candidate.idx
                    == v;
            if i < earlier.len() {
                assert(earlier[i].to == w);
            } else {
                assert(after[after.len() - 1].idx == v);
            }
        }
        if links(before, v) {
            let i = choose|i: int| 0 <= i < before.len() && (#[trigger] before[i]).idx == v;
            assert(after[i].idx == v);
        }
        if links(after, v) {
            let i = choose|i: int| 0 <= i < after.len() && (#[trigger] after[i]).idx == v;
            if i < before.len() {
                assert(before[i].idx == v);
                if hands(earlier, w, v) {
                    let k = choose|k: int|
                        0 <= k < earlier.len() && (#[trigger] earlier[k]).to == w
                            && earlier[k].candidate.idx == v;
                    assert(handed[k].to == w);
                }
            } else {
                assert(handed[handed.len() - 1].to == w);
            }
        }
    }
}

/// The edges of `u` turned round bring `u` to the points that `u` names.
proof fn lemma_turned_hands(u: int, pool: Seq<Candidate>, w: int, v: PointOffsetType)
    requires
        0 <= u <= u32::MAX,
        0 <= w <= u32::MAX,
    ensures
        hands(crate::layer0_model::turned(u, pool), w, v) == (v == u && links(
            pool,
            w as PointOffsetType,
        )),
{
    let handed = crate::layer0_model::turned(u, pool);
    if hands(handed, w, v) {
        let i = choose|i: int|
            0 <= i < handed.len() && (#[trigger] handed[i]).to == w && handed[i].candidate.idx == v;
        assert(pool[i].idx == w);
    }
    if v == u && links(pool, w as PointOffsetType) {
        let i = choose|i: int| 0 <= i < pool.len() && (#[trigger] pool[i]).idx == w;
        assert(handed[i].to == w);
    }
}

/// The pool of `w` among the turned edges names the points that name `w`.
proof fn lemma_scattered_links(
    graph: Seq<Seq<Candidate>>,
    count: nat,
    w: int,
    v: PointOffsetType,
)
    requires
        0 <= w < graph.len() <= u32::MAX,
        count <= graph.len(),
    ensures
        crate::layer0_model::scattered(graph, count).len() == graph.len(),
        links(crate::layer0_model::scattered(graph, count)[w], v) == (v < count && links(
            graph[v as int],
            w as PointOffsetType,
        )),
    decreases count,
{
    if count > 0 {
        let u = count - 1;
        let before = crate::layer0_model::scattered(graph, u as nat);
        lemma_scattered_links(graph, u as nat, w, v);
        lemma_turned_hands(u, graph[u], w, v);
        lemma_delivered_links(before, crate::layer0_model::turned(u, graph[u]), w, v);
    }
}

/// Turning round the edges of a pool that names each point once brings at most
/// one candidate to a pool, and none to a point that it does not name.
proof fn lemma_turned_len(graph: Seq<Seq<Candidate>>, u: int, pool: Seq<Candidate>, w: int)
    requires
        0 <= w < graph.len() <= u32::MAX,
        names_once(pool),
    ensures
        crate::layer0_model::delivered(graph, crate::layer0_model::turned(u, pool)).len()
            == graph.len(),
        crate::layer0_model::delivered(graph, crate::layer0_model::turned(u, pool))[w].len()
            == graph[w].len() + if links(pool, w as PointOffsetType) {
            1int
        } else {
            0
        },
    decreases pool.len(),
{
    let handed = crate::layer0_model::turned(u, pool);
    let to = w as PointOffsetType;
    crate::layer0_laws::lemma_delivered_len(graph, handed);
    if pool.len() > 0 {
        let shorter = pool.drop_last();
        assert(handed.drop_last() =~= crate::layer0_model::turned(u, shorter));
        assert forall|i: int, j: int| 0 <= i < j < shorter.len() implies (
        #[trigger] shorter[i]).idx != (#[trigger] shorter[j]).idx by {
            assert(pool[i].idx != pool[j].idx);
        }
        lemma_turned_len(graph, u, shorter, w);
        if links(shorter, to) {
            let i = choose|i: int| 0 <= i < shorter.len() && (#[trigger] shorter[i]).idx == to;
            assert(pool[i].idx == to);
            assert(pool[i].idx != pool[pool.len() - 1].idx);
        } else if links(pool, to) {
            let i = choose|i: int| 0 <= i < pool.len() && (#[trigger] pool[i]).idx == to;
            if i < shorter.len() {
                assert(shorter[i].idx == to);
            }
        } else {
            assert(pool[pool.len() - 1].idx != to);
        }
    }
}

/// Where every pool names others, each once, the turned edges that reach a point
/// are fewer than the points that they come from, if it is one of them.
proof fn lemma_scattered_len(graph: Seq<Seq<Candidate>>, count: nat, w: int)
    requires
        0 <= w < graph.len() <= u32::MAX,
        count <= graph.len(),
        forall|u: int| 0 <= u < graph.len() ==> names_once(#[trigger] graph[u]),
        crate::layer0_laws::graph_holds(graph, is_other(graph.len())),
    ensures
        crate::layer0_model::scattered(graph, count).len() == graph.len(),
        crate::layer0_model::scattered(graph, count)[w].len() <= if w < count {
            count - 1
        } else {
            count as int
        },
    decreases count,
{
    if count > 0 {
        let u = count - 1;
        let other = is_other(graph.len());
        lemma_scattered_len(graph, u as nat, w);
        lemma_turned_len(
            crate::layer0_model::scattered(graph, u as nat),
            u,
            graph[u],
            w,
        );
        if w == u && links(graph[u], w as PointOffsetType) {
            let i = choose|i: int|
                0 <= i < graph[u].len() && (#[trigger] graph[u][i]).idx == w as PointOffsetType;
            assert(crate::layer0_laws::pool_holds(graph[u], u, other));
            assert(other(u, graph[u][i]));
        }
    }
}

/// Where every pool names each point once, no more turned edges reach a point than
/// there are points that they come from.
proof fn lemma_scattered_len_any(graph: Seq<Seq<Candidate>>, count: nat, w: int)
    requires
        0 <= w < graph.len() <= u32::MAX,
        count <= graph.len(),
        forall|u: int| 0 <= u < graph.len() ==> names_once(#[trigger] graph[u]),
    ensures
        crate::layer0_model::scattered(graph, count).len() == graph.len(),
        crate::layer0_model::scattered(graph, count)[w].len() <= count,
    decreases count,
{
    if count > 0 {
        let u = count - 1;
        lemma_scattered_len_any(graph, u as nat, w);
        lemma_turned_len(
            crate::layer0_model::scattered(graph, u as nat),
            u,
            graph[u],
            w,
        );
    }
}

/// The pairs of a symmetric score, and naming others, survive the refinement.
proof fn lemma_pair_survives(n: nat, score: spec_fn(PointOffsetType, PointOffsetType) -> Score)
    requires
        n <= u32::MAX,
        symmetric(score),
    ensures
        crate::layer0_laws::survives_refinement(is_pair(n, score), n, score),
        crate::layer0_laws::survives_refinement(is_other(n), n, score),
{
    let pair = is_pair(n, score);
    assert forall|u: int, nn: Candidate, other: Candidate|
        #![trigger pair(u, nn), pair(u, other)]
        0 <= u < n && pair(u, nn) && pair(u, other) && nn.idx != other.idx implies pair(
        other.idx as int,
        Candidate { idx: nn.idx, score: score(nn.idx, other.idx), new_flag: true },
    ) by {
        assert(score(nn.idx, other.idx) == score(other.idx, nn.idx));
    }
    assert forall|u: int, c: Candidate|
        #![trigger pair(u, c)]
        0 <= u < n && pair(u, c) implies pair(
        c.idx as int,
        Candidate { idx: u as PointOffsetType, score: c.score, new_flag: c.new_flag },
    ) by {
        assert(score(u as PointOffsetType, c.idx) == score(c.idx, u as PointOffsetType));
    }
}

/// The edges of a symmetric score survive the refinement.
proof fn lemma_edge_survives(n: nat, score: spec_fn(PointOffsetType, PointOffsetType) -> Score)
    requires
        n <= u32::MAX,
        symmetric(score),
    ensures
        crate::layer0_laws::survives_refinement(is_edge(n, score), n, score),
        crate::layer0_laws::holds_at_start(is_edge(n, score), n, score),
{
    let edge = is_edge(n, score);
    assert forall|u: int, nn: Candidate, other: Candidate|
        #![trigger edge(u, nn), edge(u, other)]
        0 <= u < n && edge(u, nn) && edge(u, other) && nn.idx != other.idx implies edge(
        other.idx as int,
        Candidate { idx: nn.idx, score: score(nn.idx, other.idx), new_flag: true },
    ) by {
        assert(score(nn.idx, other.idx) == score(other.idx, nn.idx));
    }
    assert forall|u: int, c: Candidate|
        #![trigger edge(u, c)]
        0 <= u < n && edge(u, c) implies edge(
        c.idx as int,
        Candidate { idx: u as PointOffsetType, score: c.score, new_flag: c.new_flag },
    ) by {
        assert(score(u as PointOffsetType, c.idx) == score(c.idx, u as PointOffsetType));
    }
}

/// After reverse edges were added no pool holds more than `cap` candidates, and
/// each stands closest first.
pub proof fn law_reverse_edges_are_capped(
    before: Seq<Seq<Candidate>>,
    cap: nat,
    after: Seq<Seq<Candidate>>,
    u: int,
)
    requires
        crate::layer0_model::reverse_adds(before, cap, after),
        0 <= u < before.len(),
    ensures
        after[u].len() <= cap,
        crate::candidate::in_order(after[u]),
{
    let merged = choose|merged: Seq<Seq<Candidate>>|
        {
            &&& #[trigger] crate::layer0_model::merges_all(before, cap, merged)
            &&& forall|u: int|
                0 <= u < before.len() ==> crate::layer0_model::trims_to(
                    crate::layer0_model::scattered(merged, merged.len())[u],
                    cap,
                    #[trigger] after[u],
                )
        };
    let back = crate::layer0_model::scattered(merged, merged.len());
    assert(crate::layer0_model::trims_to(back[u], cap, after[u]));
    let sorted = choose|sorted: Seq<Candidate>|
        {
            &&& #[trigger] crate::candidate::sorts_to(back[u], sorted)
            &&& after[u] == crate::candidate::capped(sorted, cap)
        };
    assert forall|i: int, j: int| 0 <= i < j < after[u].len() implies !(
    #[trigger] after[u][j]).precedes(#[trigger] after[u][i]) by {
        assert(!sorted[j].precedes(sorted[i]));
    }
}

/// Merging names each point once, and, within the cap, the points that the edges and
/// the pool name.
proof fn lemma_merged_links(
    incoming: Seq<Candidate>,
    own: Seq<Candidate>,
    cap: nat,
    merged: Seq<Candidate>,
    u: int,
    n: nat,
    score: spec_fn(PointOffsetType, PointOffsetType) -> Score,
    v: PointOffsetType,
)
    requires
        0 <= u < n <= u32::MAX,
        symmetric(score),
        crate::layer0_laws::pool_holds(incoming, u, is_pair(n, score)),
        crate::layer0_laws::pool_holds(own, u, is_pair(n, score)),
        crate::layer0_model::merges_to(incoming, own, cap, merged),
    ensures
        names_once(merged),
        ({
            ||| n <= cap
            ||| {
                &&& n - 1 <= cap
                &&& crate::layer0_laws::pool_holds(incoming, u, is_other(n))
                &&& crate::layer0_laws::pool_holds(own, u, is_other(n))
            }
        }) ==> links(merged, v) == (links(incoming, v) || links(own, v)),
{
    let pair = is_pair(n, score);
    let other = is_other(n);
    let flagged = crate::candidate::flagged(own, true);
    let all = incoming + flagged;
    let sorted = choose|sorted: Seq<Candidate>|
        {
            &&& #[trigger] crate::candidate::sorts_to(all, sorted)
            &&& merged == crate::candidate::capped(crate::candidate::deduped(sorted), cap)
        };
    let unique = crate::candidate::deduped(sorted);
    lemma_pair_survives(n, score);
    crate::layer0_laws::lemma_flagged_holds(own, u, n, score, pair, true);
    lemma_concat_holds(incoming, flagged, u, pair);
    crate::layer0_laws::lemma_sorted_holds(all, sorted, u, pair);
    lemma_deduped_names_once(sorted, u, n, score);
    crate::layer0_laws::lemma_deduped_holds(sorted, u, pair);
    lemma_pairs_once_len(unique, u, n, score);
    assert forall|i: int, j: int| 0 <= i < j < merged.len() implies (#[trigger] merged[i]).idx != (
    #[trigger] merged[j]).idx by {
        assert(unique[i].idx != unique[j].idx);
    }
    if crate::layer0_laws::pool_holds(incoming, u, other) && crate::layer0_laws::pool_holds(
        own,
        u,
        other,
    ) {
        crate::layer0_laws::lemma_flagged_holds(own, u, n, score, other, true);
        lemma_concat_holds(incoming, flagged, u, other);
        crate::layer0_laws::lemma_sorted_holds(all, sorted, u, other);
        crate::layer0_laws::lemma_deduped_holds(sorted, u, other);
        lemma_named_once_len(unique, u, n);
    }
    lemma_deduped_links(sorted, v);
    lemma_sorted_links(all, sorted, v);
    if links(all, v) {
        let i = choose|i: int| 0 <= i < all.len() && (#[trigger] all[i]).idx == v;
        if i < incoming.len() {
            assert(incoming[i].idx == v);
        } else {
            assert(own[i - incoming.len()].idx == v);
        }
    }
    if links(incoming, v) {
        let i = choose|i: int| 0 <= i < incoming.len() && (#[trigger] incoming[i]).idx == v;
        assert(all[i].idx == v);
    }
    if links(own, v) {
        let i = choose|i: int| 0 <= i < own.len() && (#[trigger] own[i]).idx == v;
        assert(all[incoming.len() + i].idx == v);
    }
}

/// What holds of two pools holds of both in a row.
proof fn lemma_concat_holds(
    one: Seq<Candidate>,
    two: Seq<Candidate>,
    u: int,
    property: spec_fn(int, Candidate) -> bool,
)
    requires
        crate::layer0_laws::pool_holds(one, u, property),
        crate::layer0_laws::pool_holds(two, u, property),
    ensures
        crate::layer0_laws::pool_holds(one + two, u, property),
{
    let all = one + two;
    assert forall|i: int| 0 <= i < all.len() implies property(u, #[trigger] all[i]) by {
        if i < one.len() {
            assert(property(u, one[i]));
        } else {
            assert(property(u, two[i - one.len()]));
        }
    }
}

/// Whether a pool has room under `cap` for all points that it may come to name: for
/// all points of `graph`, or for all others where no point names itself.
pub open spec fn has_room(graph: Seq<Seq<Candidate>>, cap: nat) -> bool {
    ||| graph.len() <= cap
    ||| graph.len() - 1 <= cap && crate::layer0_laws::graph_holds(graph, is_other(graph.len()))
}

/// With room for all points, adding reverse edges makes every edge mutual, loses
/// none and adds no other: a point names another exactly if one of the two named
/// the other before.
pub proof fn law_reverse_edges_are_mutual(
    before: Seq<Seq<Candidate>>,
    cap: nat,
    after: Seq<Seq<Candidate>>,
    score: spec_fn(PointOffsetType, PointOffsetType) -> Score,
    u: PointOffsetType,
    v: PointOffsetType,
)
    requires
        before.len() <= u32::MAX,
        has_room(before, cap),
        symmetric(score),
        crate::layer0_laws::graph_holds(before, is_pair(before.len(), score)),
        crate::layer0_model::reverse_adds(before, cap, after),
        u < before.len(),
        v < before.len(),
    ensures
        links(after[u as int], v) == (links(before[u as int], v) || links(before[v as int], u)),
        links(after[u as int], v) == links(after[v as int], u),
        links(before[u as int], v) ==> links(after[u as int], v),
{
    lemma_reverse_linked(before, cap, after, score, u, v);
    lemma_reverse_linked(before, cap, after, score, v, u);
}

/// Which points a pool names after reverse edges were added.
proof fn lemma_reverse_linked(
    before: Seq<Seq<Candidate>>,
    cap: nat,
    after: Seq<Seq<Candidate>>,
    score: spec_fn(PointOffsetType, PointOffsetType) -> Score,
    u: PointOffsetType,
    v: PointOffsetType,
)
    requires
        before.len() <= u32::MAX,
        has_room(before, cap),
        symmetric(score),
        crate::layer0_laws::graph_holds(before, is_pair(before.len(), score)),
        crate::layer0_model::reverse_adds(before, cap, after),
        u < before.len(),
        v < before.len(),
    ensures
        links(after[u as int], v) == (links(before[u as int], v) || links(before[v as int], u)),
{
    let n = before.len();
    let pair = is_pair(n, score);
    let other = is_other(n);
    let merged = choose|merged: Seq<Seq<Candidate>>|
        {
            &&& #[trigger] crate::layer0_model::merges_all(before, cap, merged)
            &&& forall|u: int|
                0 <= u < before.len() ==> crate::layer0_model::trims_to(
                    crate::layer0_model::scattered(merged, merged.len())[u],
                    cap,
                    #[trigger] after[u],
                )
        };
    let incoming = crate::layer0_model::scattered(before, n);
    let back = crate::layer0_model::scattered(merged, n);
    lemma_pair_survives(n, score);
    crate::layer0_laws::lemma_scattered_holds(before, n, score, pair);
    if crate::layer0_laws::graph_holds(before, other) {
        crate::layer0_laws::lemma_scattered_holds(before, n, score, other);
        crate::layer0_laws::lemma_merges_hold(before, cap, merged, score, other);
    }
    assert forall|w: int| 0 <= w < n implies names_once(#[trigger] merged[w]) by {
        assert(crate::layer0_model::merges_to(incoming[w], before[w], cap, merged[w]));
        assert(crate::layer0_laws::pool_holds(incoming[w], w, pair));
        assert(crate::layer0_laws::pool_holds(before[w], w, pair));
        lemma_merged_links(incoming[w], before[w], cap, merged[w], w, n, score, u);
    }
    let w = v as int;
    assert(crate::layer0_model::merges_to(incoming[w], before[w], cap, merged[w]));
    assert(crate::layer0_laws::pool_holds(incoming[w], w, pair));
    assert(crate::layer0_laws::pool_holds(before[w], w, pair));
    if crate::layer0_laws::graph_holds(before, other) {
        assert(crate::layer0_laws::pool_holds(incoming[w], w, other));
        assert(crate::layer0_laws::pool_holds(before[w], w, other));
        lemma_scattered_len(merged, n, u as int);
    }
    lemma_merged_links(incoming[w], before[w], cap, merged[w], w, n, score, u);
    lemma_scattered_links(before, n, w, u);
    lemma_scattered_len_any(merged, n, u as int);
    lemma_scattered_links(merged, n, u as int, v);
    assert(crate::layer0_model::trims_to(back[u as int], cap, after[u as int]));
    let sorted = choose|sorted: Seq<Candidate>|
        {
            &&& #[trigger] crate::candidate::sorts_to(back[u as int], sorted)
            &&& after[u as int] == crate::candidate::capped(sorted, cap)
        };
    crate::layer0_laws::lemma_sorted_len(back[u as int], sorted);
    lemma_sorted_links(back[u as int], sorted, v);
}

/// Turned edges of `u` reach a pool at its end, as candidates of `u`.
proof fn lemma_turned_appends(graph: Seq<Seq<Candidate>>, u: int, pool: Seq<Candidate>, w: int)
    requires
        0 <= w < graph.len(),
        0 <= u <= u32::MAX,
    ensures
        crate::layer0_model::delivered(graph, crate::layer0_model::turned(u, pool)).len()
            == graph.len(),
        graph[w].is_prefix_of(
            crate::layer0_model::delivered(graph, crate::layer0_model::turned(u, pool))[w],
        ),
        forall|i: int|
            graph[w].len() <= i < crate::layer0_model::delivered(
                graph,
                crate::layer0_model::turned(u, pool),
            )[w].len() ==> (#[trigger] crate::layer0_model::delivered(
                graph,
                crate::layer0_model::turned(u, pool),
            )[w][i]).idx == u,
    decreases pool.len(),
{
    let handed = crate::layer0_model::turned(u, pool);
    crate::layer0_laws::lemma_delivered_len(graph, handed);
    if pool.len() > 0 {
        let shorter = pool.drop_last();
        assert(handed.drop_last() =~= crate::layer0_model::turned(u, shorter));
        lemma_turned_appends(graph, u, shorter, w);
        let before = crate::layer0_model::delivered(graph, handed.drop_last())[w];
        let after = crate::layer0_model::delivered(graph, handed)[w];
        assert forall|i: int| graph[w].len() <= i < after.len() implies (#[trigger] after[i]).idx
            == u by {
            if i < before.len() {
                assert(after[i] == before[i]);
            }
        }
    }
}

/// Where every pool names each point once, so do the turned edges that reach one.
proof fn lemma_scattered_names_once(graph: Seq<Seq<Candidate>>, count: nat, w: int)
    requires
        0 <= w < graph.len() <= u32::MAX,
        count <= graph.len(),
        forall|u: int| 0 <= u < graph.len() ==> names_once(#[trigger] graph[u]),
    ensures
        crate::layer0_model::scattered(graph, count).len() == graph.len(),
        names_once(crate::layer0_model::scattered(graph, count)[w]),
        forall|i: int|
            0 <= i < crate::layer0_model::scattered(graph, count)[w].len() ==> (
            #[trigger] crate::layer0_model::scattered(graph, count)[w][i]).idx < count,
    decreases count,
{
    if count > 0 {
        let u = count - 1;
        let before = crate::layer0_model::scattered(graph, u as nat);
        lemma_scattered_names_once(graph, u as nat, w);
        lemma_turned_len(before, u, graph[u], w);
        lemma_turned_appends(before, u, graph[u], w);
        let after = crate::layer0_model::scattered(graph, count)[w];
        assert forall|i: int| 0 <= i < after.len() implies (#[trigger] after[i]).idx < count by {
            if i < before[w].len() {
                assert(after[i] == before[w][i]);
            }
        }
        assert forall|i: int, j: int| 0 <= i < j < after.len() implies (#[trigger] after[i]).idx
            != (#[trigger] after[j]).idx by {
            assert(after[i] == before[w][i]);
            if j < before[w].len() {
                assert(after[j] == before[w][j]);
            }
        }
    }
}

/// Sorting a pool that names each point once leaves it so.
proof fn lemma_sorted_names_once(pool: Seq<Candidate>, sorted: Seq<Candidate>)
    requires
        crate::candidate::sorts_to(pool, sorted),
        names_once(pool),
    ensures
        names_once(sorted),
{
    assert(pool.no_duplicates()) by {
        assert forall|i: int, j: int|
            0 <= i < pool.len() && 0 <= j < pool.len() && i != j implies pool[i] != pool[j] by {
            if i < j {
                assert(pool[i].idx != pool[j].idx);
            } else {
                assert(pool[j].idx != pool[i].idx);
            }
        }
    }
    pool.lemma_multiset_has_no_duplicates();
    sorted.lemma_multiset_has_no_duplicates_conv();
    assert forall|i: int, j: int| 0 <= i < j < sorted.len() implies (#[trigger] sorted[i]).idx != (
    #[trigger] sorted[j]).idx by {
        crate::layer0_laws::lemma_sorted_member(pool, sorted, i);
        crate::layer0_laws::lemma_sorted_member(pool, sorted, j);
        let a = choose|a: int| 0 <= a < pool.len() && pool[a] == sorted[i];
        let b = choose|b: int| 0 <= b < pool.len() && pool[b] == sorted[j];
        assert(a != b);
        if a < b {
            assert(pool[a].idx != pool[b].idx);
        } else {
            assert(pool[b].idx != pool[a].idx);
        }
    }
}

/// Under a symmetric score, no pool names a point twice after reverse edges were
/// added.
pub proof fn law_reverse_edges_name_once(
    before: Seq<Seq<Candidate>>,
    cap: nat,
    after: Seq<Seq<Candidate>>,
    score: spec_fn(PointOffsetType, PointOffsetType) -> Score,
    u: int,
)
    requires
        before.len() <= u32::MAX,
        symmetric(score),
        crate::layer0_laws::graph_holds(before, is_pair(before.len(), score)),
        crate::layer0_model::reverse_adds(before, cap, after),
        0 <= u < before.len(),
    ensures
        names_once(after[u]),
{
    let n = before.len();
    let pair = is_pair(n, score);
    let merged = choose|merged: Seq<Seq<Candidate>>|
        {
            &&& #[trigger] crate::layer0_model::merges_all(before, cap, merged)
            &&& forall|u: int|
                0 <= u < before.len() ==> crate::layer0_model::trims_to(
                    crate::layer0_model::scattered(merged, merged.len())[u],
                    cap,
                    #[trigger] after[u],
                )
        };
    let incoming = crate::layer0_model::scattered(before, n);
    let back = crate::layer0_model::scattered(merged, n);
    lemma_pair_survives(n, score);
    crate::layer0_laws::lemma_scattered_holds(before, n, score, pair);
    assert forall|w: int| 0 <= w < n implies names_once(#[trigger] merged[w]) by {
        assert(crate::layer0_model::merges_to(incoming[w], before[w], cap, merged[w]));
        assert(crate::layer0_laws::pool_holds(incoming[w], w, pair));
        assert(crate::layer0_laws::pool_holds(before[w], w, pair));
        lemma_merged_links(incoming[w], before[w], cap, merged[w], w, n, score, 0);
    }
    lemma_scattered_names_once(merged, n, u);
    assert(crate::layer0_model::trims_to(back[u], cap, after[u]));
    let sorted = choose|sorted: Seq<Candidate>|
        {
            &&& #[trigger] crate::candidate::sorts_to(back[u], sorted)
            &&& after[u] == crate::candidate::capped(sorted, cap)
        };
    lemma_sorted_names_once(back[u], sorted);
    assert forall|i: int, j: int| 0 <= i < j < after[u].len() implies (#[trigger] after[u][i]).idx
        != (#[trigger] after[u][j]).idx by {
        assert(sorted[i].idx != sorted[j].idx);
    }
}

/// Whether two pools list the same points with the same scores in the same order.
pub open spec fn same_list(one: Seq<Candidate>, two: Seq<Candidate>) -> bool {
    &&& one.len() == two.len()
    &&& forall|i: int|
        0 <= i < one.len() ==> (#[trigger] one[i]).idx == two[i].idx && one[i].score
            == two[i].score
}

/// Two pools in strict order that name the same points with their scores are the
/// same list.
proof fn lemma_same_list(
    one: Seq<Candidate>,
    two: Seq<Candidate>,
    u: int,
    n: nat,
    score: spec_fn(PointOffsetType, PointOffsetType) -> Score,
)
    requires
        crate::candidate::in_order(one),
        crate::candidate::in_order(two),
        names_once(one),
        names_once(two),
        crate::layer0_laws::pool_holds(one, u, is_pair(n, score)),
        crate::layer0_laws::pool_holds(two, u, is_pair(n, score)),
        forall|v: PointOffsetType| #[trigger] links(one, v) == links(two, v),
    ensures
        same_list(one, two),
    decreases one.len(),
{
    let pair = is_pair(n, score);
    if one.len() == 0 {
        if two.len() > 0 {
            assert(links(two, two[0].idx));
            assert(links(one, two[0].idx));
        }
    } else {
        let last = one.last();
        assert(one[one.len() - 1] == last);
        assert(links(one, last.idx));
        assert(links(two, last.idx));
        let end = two.last();
        assert(two[two.len() - 1] == end);
        assert(links(two, end.idx));
        assert(links(one, end.idx));
        assert(pair(u, one[one.len() - 1]) && pair(u, two[two.len() - 1]));
        if last.idx != end.idx {
            let j = choose|j: int| 0 <= j < two.len() && (#[trigger] two[j]).idx == last.idx;
            let i = choose|i: int| 0 <= i < one.len() && (#[trigger] one[i]).idx == end.idx;
            assert(pair(u, two[j]) && pair(u, one[i]));
            assert(!two[two.len() - 1].precedes(two[j]));
            assert(!one[one.len() - 1].precedes(one[i]));
        }
        let shorter = one.drop_last();
        let fewer = two.drop_last();
        lemma_prefix_of_pool(one, u, pair);
        lemma_prefix_of_pool(two, u, pair);
        assert forall|v: PointOffsetType| #[trigger] links(shorter, v) == links(fewer, v) by {
            lemma_links_before_last(one, v);
            lemma_links_before_last(two, v);
            assert(links(one, v) == links(two, v));
        }
        lemma_same_list(shorter, fewer, u, n, score);
        assert forall|i: int| 0 <= i < one.len() implies (#[trigger] one[i]).idx == two[i].idx
            && one[i].score == two[i].score by {
            if i < shorter.len() {
                assert(shorter[i] == one[i]);
                assert(fewer[i] == two[i]);
            }
        }
    }
}

/// A pool without its last candidate is as orderly as the whole.
proof fn lemma_prefix_of_pool(
    pool: Seq<Candidate>,
    u: int,
    property: spec_fn(int, Candidate) -> bool,
)
    requires
        pool.len() > 0,
        crate::candidate::in_order(pool),
        names_once(pool),
        crate::layer0_laws::pool_holds(pool, u, property),
    ensures
        crate::candidate::in_order(pool.drop_last()),
        names_once(pool.drop_last()),
        crate::layer0_laws::pool_holds(pool.drop_last(), u, property),
{
    let shorter = pool.drop_last();
    assert forall|i: int, j: int| 0 <= i < j < shorter.len() implies !(
    #[trigger] shorter[j]).precedes(#[trigger] shorter[i]) by {
        assert(!pool[j].precedes(pool[i]));
    }
    assert forall|i: int, j: int| 0 <= i < j < shorter.len() implies (#[trigger] shorter[i]).idx
        != (#[trigger] shorter[j]).idx by {
        assert(pool[i].idx != pool[j].idx);
    }
    assert forall|i: int| 0 <= i < shorter.len() implies property(u, #[trigger] shorter[i]) by {
        assert(property(u, pool[i]));
    }
}

/// A pool that names each point once names, without its last candidate, all but
/// that.
proof fn lemma_links_before_last(pool: Seq<Candidate>, v: PointOffsetType)
    requires
        pool.len() > 0,
        names_once(pool),
    ensures
        links(pool.drop_last(), v) == (links(pool, v) && v != pool.last().idx),
{
    let shorter = pool.drop_last();
    if links(shorter, v) {
        let i = choose|i: int| 0 <= i < shorter.len() && (#[trigger] shorter[i]).idx == v;
        assert(pool[i].idx == v);
        assert(pool[i].idx != pool[pool.len() - 1].idx);
    }
    if links(pool, v) && v != pool.last().idx {
        let i = choose|i: int| 0 <= i < pool.len() && (#[trigger] pool[i]).idx == v;
        assert(shorter[i].idx == v);
    }
}

/// With room for all points, adding reverse edges a second time changes no list: every
/// pool keeps its points, their scores and their order.
pub proof fn law_reverse_edges_settle(
    before: Seq<Seq<Candidate>>,
    cap: nat,
    first: Seq<Seq<Candidate>>,
    second: Seq<Seq<Candidate>>,
    score: spec_fn(PointOffsetType, PointOffsetType) -> Score,
    u: PointOffsetType,
)
    requires
        before.len() <= u32::MAX,
        has_room(before, cap),
        symmetric(score),
        crate::layer0_laws::graph_holds(before, is_pair(before.len(), score)),
        crate::layer0_model::reverse_adds(before, cap, first),
        crate::layer0_model::reverse_adds(first, cap, second),
        u < before.len(),
    ensures
        same_list(first[u as int], second[u as int]),
{
    let n = before.len();
    let pair = is_pair(n, score);
    let other = is_other(n);
    let at = u as int;
    lemma_pair_survives(n, score);
    crate::layer0_laws::lemma_reverse_holds(before, cap, first, score, pair);
    crate::layer0_laws::lemma_reverse_holds(first, cap, second, score, pair);
    if crate::layer0_laws::graph_holds(before, other) {
        crate::layer0_laws::lemma_reverse_holds(before, cap, first, score, other);
    }
    law_reverse_edges_are_capped(before, cap, first, at);
    law_reverse_edges_are_capped(first, cap, second, at);
    law_reverse_edges_name_once(before, cap, first, score, at);
    law_reverse_edges_name_once(first, cap, second, score, at);
    assert(crate::layer0_laws::pool_holds(first[at], at, pair));
    assert(crate::layer0_laws::pool_holds(second[at], at, pair));
    assert forall|v: PointOffsetType| #[trigger] links(first[at], v) == links(second[at], v) by {
        if v < n {
            law_reverse_edges_are_mutual(before, cap, first, score, u, v);
            law_reverse_edges_are_mutual(first, cap, second, score, u, v);
        } else {
            lemma_links_in_range(first[at], at, n, score, v);
            lemma_links_in_range(second[at], at, n, score, v);
        }
    }
    lemma_same_list(first[at], second[at], at, n, score);
}

/// A pool of pairs names no point beyond `n`.
proof fn lemma_links_in_range(
    pool: Seq<Candidate>,
    u: int,
    n: nat,
    score: spec_fn(PointOffsetType, PointOffsetType) -> Score,
    v: PointOffsetType,
)
    requires
        crate::layer0_laws::pool_holds(pool, u, is_pair(n, score)),
        v >= n,
    ensures
        !links(pool, v),
{
    let pair = is_pair(n, score);
    if links(pool, v) {
        let i = choose|i: int| 0 <= i < pool.len() && (#[trigger] pool[i]).idx == v;
        assert(pair(u, pool[i]));
    }
}

/// Under a symmetric score, refining a pool of edges leaves edges in it and hands
/// edges on to other pools. Nothing but the pool itself is looked at, so this holds
/// in whatever order, and at whatever time, vertices are refined.
pub proof fn law_refinement_yields_edges(
    pool: Seq<Candidate>,
    u: int,
    n: nat,
    score: spec_fn(PointOffsetType, PointOffsetType) -> Score,
    settled: Seq<Candidate>,
    handed: Seq<HandedOn>,
)
    requires
        0 <= u < n <= u32::MAX,
        symmetric(score),
        crate::layer0_laws::pool_holds(pool, u, is_edge(n, score)),
        crate::refinement_builder::settles_to(pool, u, score, settled, handed),
    ensures
        crate::layer0_laws::pool_holds(settled, u, is_edge(n, score)),
        crate::layer0_laws::handed_holds(handed, is_edge(n, score)),
{
    let edge = is_edge(n, score);
    let kept = choose|kept: Seq<Candidate>|
        {
            &&& #[trigger] crate::layer0_model::refines_to(pool, u, score, kept, handed)
            &&& settled == crate::candidate::flagged(kept, false)
        };
    let sorted = choose|sorted: Seq<Candidate>|
        {
            &&& #[trigger] crate::candidate::sorts_to(pool, sorted)
            &&& crate::layer0_model::refined(crate::candidate::deduped(sorted), u, score)
                == (crate::layer0_model::Refined { kept, handed })
        };
    lemma_edge_survives(n, score);
    crate::layer0_laws::lemma_sorted_holds(pool, sorted, u, edge);
    crate::layer0_laws::lemma_deduped_holds(sorted, u, edge);
    crate::layer0_laws::lemma_refined_holds(
        crate::candidate::deduped(sorted),
        u,
        n,
        score,
        edge,
    );
    crate::layer0_laws::lemma_flagged_holds(kept, u, n, score, edge, false);
}

// ---------------------------------------------------------------------------
// The initial graph
// ---------------------------------------------------------------------------

/// The proposals for `u` name the positions other than `u`, each as often as it
/// is given.
pub proof fn lemma_proposals_name(
    u: int,
    positions: Seq<int>,
    score: spec_fn(PointOffsetType, PointOffsetType) -> Score,
    v: PointOffsetType,
)
    requires
        forall|i: int| 0 <= i < positions.len() ==> 0 <= #[trigger] positions[i] <= u32::MAX,
        positions.no_duplicates(),
    ensures
        links(crate::layer0_model::proposals(u, positions, score), v) == (v != u
            && positions.contains(v as int)),
        crate::layer0_model::proposals(u, positions, score).len() == positions.len()
            - if positions.contains(u) {
            1int
        } else {
            0
        },
    decreases positions.len(),
{
    let result = crate::layer0_model::proposals(u, positions, score);
    if positions.len() > 0 {
        let shorter = positions.drop_last();
        let before = crate::layer0_model::proposals(u, shorter, score);
        let at = positions.last();
        assert(positions[positions.len() - 1] == at);
        assert forall|i: int| 0 <= i < shorter.len() implies 0 <= #[trigger] shorter[i]
            <= u32::MAX by {
            assert(shorter[i] == positions[i]);
        }
        lemma_proposals_name(u, shorter, score, v);
        assert forall|x: int| positions.contains(x) == (shorter.contains(x) || x == at) by {
            if shorter.contains(x) {
                let i = choose|i: int| 0 <= i < shorter.len() && shorter[i] == x;
                assert(positions[i] == x);
            }
            if positions.contains(x) && x != at {
                let i = choose|i: int| 0 <= i < positions.len() && positions[i] == x;
                assert(shorter[i] == x);
            }
        }
        if shorter.contains(at) {
            let i = choose|i: int| 0 <= i < shorter.len() && shorter[i] == at;
            assert(positions[i] == positions[positions.len() - 1]);
        }
        if links(before, v) {
            let i = choose|i: int| 0 <= i < before.len() && (#[trigger] before[i]).idx == v;
            assert(result[i].idx == v);
        }
        if v == at && at != u {
            assert(result[result.len() - 1].idx == v);
        }
        if links(result, v) && !links(before, v) {
            let i = choose|i: int| 0 <= i < result.len() && (#[trigger] result[i]).idx == v;
            if i < before.len() {
                assert(before[i].idx == v);
            }
        }
    } else {
        assert(!links(result, v));
        assert(!positions.contains(v as int));
        assert(!positions.contains(u));
    }
}

/// The initial pool of `u` is a sorted form of the proposals at some positions.
proof fn lemma_start_of(
    initial: Seq<Seq<Candidate>>,
    n: nat,
    s: nat,
    seed: u64,
    workers: nat,
    score: spec_fn(PointOffsetType, PointOffsetType) -> Score,
    u: int,
) -> (positions: Seq<int>)
    requires
        1 < n <= u32::MAX,
        0 < workers <= u64::MAX,
        0 <= u < n,
        crate::layer0_model::initializes(
            crate::layer0_model::bare_graph(n),
            initial,
            s,
            seed,
            workers,
            score,
        ),
    ensures
        positions.no_duplicates(),
        forall|i: int| 0 <= i < positions.len() ==> 0 <= #[trigger] positions[i] < n,
        positions.len() == if n > s {
            s
        } else {
            n
        },
        n <= s ==> positions == crate::layer0_model::all_positions(n),
        crate::candidate::sorts_to(
            crate::layer0_model::proposals(u, positions, score),
            initial[u],
        ),
{
    crate::layer0_model::law_chunks_partition(0, workers, n);
    let t = crate::layer0_laws::lemma_chunk_of(u as nat, workers, workers, n) as u64;
    let from = crate::layer0_model::chunk_start(t as nat, workers, n);
    let to = crate::layer0_model::chunk_start((t + 1) as nat, workers, n);
    assert(crate::layer0_model::chunk_starts_as(initial, s, seed, t, from, to, score));
    let draw = crate::layer0_model::vertex_draw(seed, t, (u - from) as nat, s);
    if n > s {
        crate::layer0_model::law_sample_is_distinct(draw, s, n);
        crate::layer0_model::sample(draw, s, n)
    } else {
        crate::layer0_model::all_positions(n)
    }
}

/// With no more points than `s`, the initial graph is complete: the pool of each
/// point names every other once, and never the point itself.
pub proof fn law_small_graph_starts_complete(
    initial: Seq<Seq<Candidate>>,
    n: nat,
    s: nat,
    seed: u64,
    workers: nat,
    score: spec_fn(PointOffsetType, PointOffsetType) -> Score,
    u: int,
    v: PointOffsetType,
)
    requires
        n <= s,
        n <= u32::MAX,
        0 < workers <= u64::MAX,
        crate::layer0_model::initializes(
            crate::layer0_model::bare_graph(n),
            initial,
            s,
            seed,
            workers,
            score,
        ),
        0 <= u < n,
    ensures
        links(initial[u], v) == (v < n && v != u),
        initial[u].len() == n - 1,
{
    if n > 1 {
        let positions = lemma_start_of(initial, n, s, seed, workers, score, u);
        lemma_proposals_name(u, positions, score, v);
        let proposed = crate::layer0_model::proposals(u, positions, score);
        lemma_sorted_links(proposed, initial[u], v);
        crate::layer0_laws::lemma_sorted_len(proposed, initial[u]);
        assert(positions[u] == u);
        if v < n {
            assert(positions[v as int] == v);
        }
    } else {
        assert(!links(initial[u], v));
    }
}

/// With more points than `s`, the initial pool of each names `s` others, or one
/// less where the point itself was drawn.
pub proof fn law_random_graph_starts_regular(
    initial: Seq<Seq<Candidate>>,
    n: nat,
    s: nat,
    seed: u64,
    workers: nat,
    score: spec_fn(PointOffsetType, PointOffsetType) -> Score,
    u: int,
)
    requires
        s < n,
        1 < n <= u32::MAX,
        0 < workers <= u64::MAX,
        crate::layer0_model::initializes(
            crate::layer0_model::bare_graph(n),
            initial,
            s,
            seed,
            workers,
            score,
        ),
        0 <= u < n,
    ensures
        s - 1 <= initial[u].len() <= s,
        crate::layer0_laws::pool_holds(initial[u], u, is_edge(n, score)),
        crate::candidate::in_order(initial[u]),
{
    let positions = lemma_start_of(initial, n, s, seed, workers, score, u);
    lemma_proposals_name(u, positions, score, 0);
    let proposed = crate::layer0_model::proposals(u, positions, score);
    crate::layer0_laws::lemma_sorted_len(proposed, initial[u]);
    let edge = is_edge(n, score);
    assert(crate::layer0_laws::holds_at_start(edge, n, score));
    crate::layer0_laws::lemma_proposals_hold(u, positions, n, score, edge);
    crate::layer0_laws::lemma_sorted_holds(proposed, initial[u], u, edge);
}

// ---------------------------------------------------------------------------
// No pool runs empty
// ---------------------------------------------------------------------------

/// Whether every pool holds a candidate.
pub open spec fn all_linked(graph: Seq<Seq<Candidate>>) -> bool {
    forall|u: int| 0 <= u < graph.len() ==> (#[trigger] graph[u]).len() > 0
}

/// A pool that names others keeps its closest.
proof fn lemma_refined_keeps_one(
    pool: Seq<Candidate>,
    u: int,
    n: nat,
    score: spec_fn(PointOffsetType, PointOffsetType) -> Score,
)
    requires
        pool.len() > 0,
        crate::layer0_laws::pool_holds(pool, u, is_other(n)),
    ensures
        crate::layer0_model::refined(pool, u, score).kept.len() > 0,
    decreases pool.len(),
{
    let other = is_other(n);
    let shorter = pool.drop_last();
    assert(other(u, pool[pool.len() - 1]));
    if pool.len() > 1 {
        assert forall|i: int| 0 <= i < shorter.len() implies other(u, #[trigger] shorter[i]) by {
            assert(other(u, pool[i]));
        }
        lemma_refined_keeps_one(shorter, u, n, score);
    } else {
        assert(crate::layer0_model::refined(shorter, u, score).kept.len() == 0);
        assert(crate::layer0_model::blocker(
            crate::layer0_model::refined(shorter, u, score).kept,
            pool.last(),
            score,
        ) is None);
    }
}

/// Edges name other points.
proof fn lemma_edges_are_others(
    pool: Seq<Candidate>,
    u: int,
    n: nat,
    score: spec_fn(PointOffsetType, PointOffsetType) -> Score,
)
    requires
        crate::layer0_laws::pool_holds(pool, u, is_edge(n, score)),
    ensures
        crate::layer0_laws::pool_holds(pool, u, is_other(n)),
{
    let edge = is_edge(n, score);
    let other = is_other(n);
    assert forall|i: int| 0 <= i < pool.len() implies other(u, #[trigger] pool[i]) by {
        assert(edge(u, pool[i]));
    }
}

proof fn lemma_vertex_update_links(
    before: Seq<Seq<Candidate>>,
    u: int,
    score: spec_fn(PointOffsetType, PointOffsetType) -> Score,
    after: Seq<Seq<Candidate>>,
)
    requires
        0 <= u < before.len(),
        crate::layer0_laws::graph_holds(before, is_edge(before.len(), score)),
        all_linked(before),
        crate::layer0_model::vertex_updates(before, u, score, after),
    ensures
        all_linked(after),
        after.len() == before.len(),
{
    let n = before.len();
    let edge = is_edge(n, score);
    let (kept, handed) = choose|kept: Seq<Candidate>, handed: Seq<HandedOn>|
        {
            &&& #[trigger] crate::layer0_model::refines_to(before[u], u, score, kept, handed)
            &&& after == crate::layer0_model::vertex_updated(before, u, kept, handed)
        };
    let sorted = choose|sorted: Seq<Candidate>|
        {
            &&& #[trigger] crate::candidate::sorts_to(before[u], sorted)
            &&& crate::layer0_model::refined(crate::candidate::deduped(sorted), u, score)
                == (crate::layer0_model::Refined { kept, handed })
        };
    assert(crate::layer0_laws::pool_holds(before[u], u, edge));
    crate::layer0_laws::lemma_sorted_holds(before[u], sorted, u, edge);
    crate::layer0_laws::lemma_sorted_len(before[u], sorted);
    crate::layer0_laws::lemma_deduped_holds(sorted, u, edge);
    lemma_deduped_links(sorted, 0);
    lemma_edges_are_others(crate::candidate::deduped(sorted), u, n, score);
    lemma_refined_keeps_one(crate::candidate::deduped(sorted), u, n, score);
    crate::layer0_laws::lemma_delivered_len(before, handed);
    assert forall|w: int| 0 <= w < after.len() implies (#[trigger] after[w]).len() > 0 by {
        if w != u {
            lemma_delivered_links(before, handed, w, 0);
            assert(before[w].len() > 0);
        } else {
            assert(after[w] == crate::candidate::flagged(kept, false));
        }
    }
}

/// An update pass over pools of edges leaves no pool empty that was not.
pub proof fn law_update_empties_no_pool(
    before: Seq<Seq<Candidate>>,
    count: nat,
    score: spec_fn(PointOffsetType, PointOffsetType) -> Score,
    after: Seq<Seq<Candidate>>,
)
    requires
        before.len() <= u32::MAX,
        count <= before.len(),
        symmetric(score),
        crate::layer0_laws::graph_holds(before, is_edge(before.len(), score)),
        all_linked(before),
        crate::layer0_model::prefix_updates(before, count, score, after),
    ensures
        all_linked(after),
        crate::layer0_laws::graph_holds(after, is_edge(before.len(), score)),
        after.len() == before.len(),
    decreases count,
{
    if count > 0 {
        let middle = choose|middle: Seq<Seq<Candidate>>|
            {
                &&& crate::layer0_model::prefix_updates(
                    before,
                    (count - 1) as nat,
                    score,
                    middle,
                )
                &&& #[trigger] crate::layer0_model::vertex_updates(middle, count - 1, score, after)
            };
        law_update_empties_no_pool(before, (count - 1) as nat, score, middle);
        lemma_vertex_update_links(middle, count - 1, score, after);
        lemma_edge_survives(before.len(), score);
        crate::layer0_laws::lemma_vertex_update_holds(
            middle,
            count - 1,
            score,
            after,
            is_edge(before.len(), score),
        );
    }
}

proof fn lemma_passes_link(
    before: Seq<Seq<Candidate>>,
    passes: nat,
    score: spec_fn(PointOffsetType, PointOffsetType) -> Score,
    after: Seq<Seq<Candidate>>,
)
    requires
        before.len() <= u32::MAX,
        symmetric(score),
        crate::layer0_laws::graph_holds(before, is_edge(before.len(), score)),
        all_linked(before),
        crate::layer0_model::passes_update(before, passes, score, after),
    ensures
        all_linked(after),
        crate::layer0_laws::graph_holds(after, is_edge(before.len(), score)),
        after.len() == before.len(),
    decreases passes,
{
    if passes > 0 {
        let middle = choose|middle: Seq<Seq<Candidate>>|
            {
                &&& crate::layer0_model::passes_update(
                    before,
                    (passes - 1) as nat,
                    score,
                    middle,
                )
                &&& #[trigger] crate::layer0_model::round_updates(middle, score, after)
            };
        lemma_passes_link(before, (passes - 1) as nat, score, middle);
        law_update_empties_no_pool(middle, middle.len(), score, after);
    }
}

/// A graph of edges is one of pairs, and no point names itself in it.
proof fn lemma_graph_of_edges(
    graph: Seq<Seq<Candidate>>,
    score: spec_fn(PointOffsetType, PointOffsetType) -> Score,
)
    requires
        crate::layer0_laws::graph_holds(graph, is_edge(graph.len(), score)),
    ensures
        crate::layer0_laws::graph_holds(graph, is_pair(graph.len(), score)),
        crate::layer0_laws::graph_holds(graph, is_other(graph.len())),
{
    let n = graph.len();
    assert forall|u: int| 0 <= u < n implies #[trigger] crate::layer0_laws::pool_holds(
        graph[u],
        u,
        is_pair(n, score),
    ) by {
        assert(crate::layer0_laws::pool_holds(graph[u], u, is_edge(n, score)));
        lemma_edges_are_pairs(graph[u], u, n, score);
    }
    assert forall|u: int| 0 <= u < n implies #[trigger] crate::layer0_laws::pool_holds(
        graph[u],
        u,
        is_other(n),
    ) by {
        assert(crate::layer0_laws::pool_holds(graph[u], u, is_edge(n, score)));
        lemma_edges_are_others(graph[u], u, n, score);
    }
}

proof fn lemma_reverse_links(
    before: Seq<Seq<Candidate>>,
    cap: nat,
    score: spec_fn(PointOffsetType, PointOffsetType) -> Score,
    after: Seq<Seq<Candidate>>,
)
    requires
        before.len() <= u32::MAX,
        before.len() - 1 <= cap,
        symmetric(score),
        crate::layer0_laws::graph_holds(before, is_edge(before.len(), score)),
        all_linked(before),
        crate::layer0_model::reverse_adds(before, cap, after),
    ensures
        all_linked(after),
{
    let edge = is_edge(before.len(), score);
    assert forall|u: int| 0 <= u < after.len() implies (#[trigger] after[u]).len() > 0 by {
        assert(before[u].len() > 0);
        assert(crate::layer0_laws::pool_holds(before[u], u, edge));
        assert(edge(u, before[u][0]));
        let v = before[u][0].idx;
        assert(links(before[u], v));
        lemma_graph_of_edges(before, score);
        law_reverse_edges_are_mutual(before, cap, after, score, u as PointOffsetType, v);
    }
}

proof fn lemma_rounds_link(
    before: Seq<Seq<Candidate>>,
    count: nat,
    rounds: nat,
    passes: nat,
    cap: nat,
    score: spec_fn(PointOffsetType, PointOffsetType) -> Score,
    after: Seq<Seq<Candidate>>,
)
    requires
        before.len() <= u32::MAX,
        rounds <= 1 || before.len() - 1 <= cap,
        symmetric(score),
        crate::layer0_laws::graph_holds(before, is_edge(before.len(), score)),
        all_linked(before),
        crate::layer0_model::rounds_refine(before, count, rounds, passes, cap, score, after),
    ensures
        all_linked(after),
        crate::layer0_laws::graph_holds(after, is_edge(before.len(), score)),
        after.len() == before.len(),
    decreases count,
{
    if count > 0 {
        let round = (count - 1) as nat;
        let middle = choose|middle: Seq<Seq<Candidate>>|
            {
                &&& crate::layer0_model::rounds_refine(
                    before,
                    (count - 1) as nat,
                    rounds,
                    passes,
                    cap,
                    score,
                    middle,
                )
                &&& #[trigger] crate::layer0_model::round_refines(
                    middle,
                    (count - 1) as nat,
                    rounds,
                    passes,
                    cap,
                    score,
                    after,
                )
            };
        lemma_rounds_link(before, round, rounds, passes, cap, score, middle);
        if round + 1 < rounds {
            let updated = choose|updated: Seq<Seq<Candidate>>|
                {
                    &&& #[trigger] crate::layer0_model::passes_update(
                        middle,
                        passes,
                        score,
                        updated,
                    )
                    &&& crate::layer0_model::reverse_adds(updated, cap, after)
                };
            lemma_passes_link(middle, passes, score, updated);
            lemma_reverse_links(updated, cap, score, after);
            lemma_edge_survives(before.len(), score);
            crate::layer0_laws::lemma_reverse_holds(
                updated,
                cap,
                after,
                score,
                is_edge(before.len(), score),
            );
        } else {
            lemma_passes_link(middle, passes, score, after);
        }
    }
}

// ---------------------------------------------------------------------------
// Neighbor lists
// ---------------------------------------------------------------------------

/// What is chosen of a sorted pool stands in order, comes from the pool and names
/// others.
proof fn lemma_chosen(sorted: Seq<Candidate>, u: int, n: nat)
    requires
        crate::candidate::in_order(sorted),
    ensures
        crate::candidate::in_order(crate::layer0_model::chosen(sorted, u, n)),
        crate::layer0_laws::pool_holds(
            crate::layer0_model::chosen(sorted, u, n),
            u,
            is_other(n),
        ),
        forall|i: int|
            0 <= i < crate::layer0_model::chosen(sorted, u, n).len() ==> sorted.contains(
                #[trigger] crate::layer0_model::chosen(sorted, u, n)[i],
            ),
        sorted.len() > 0 && crate::layer0_laws::pool_holds(sorted, u, is_other(n))
            ==> crate::layer0_model::chosen(sorted, u, n).len() > 0,
    decreases sorted.len(),
{
    let result = crate::layer0_model::chosen(sorted, u, n);
    let other = is_other(n);
    if sorted.len() > 0 {
        let shorter = sorted.drop_last();
        let before = crate::layer0_model::chosen(shorter, u, n);
        let c = sorted.last();
        assert(sorted[sorted.len() - 1] == c);
        assert forall|i: int, j: int| 0 <= i < j < shorter.len() implies !(
        #[trigger] shorter[j]).precedes(#[trigger] shorter[i]) by {
            assert(!sorted[j].precedes(sorted[i]));
        }
        lemma_chosen(shorter, u, n);
        assert forall|i: int| 0 <= i < before.len() implies sorted.contains(#[trigger] before[i])
            && !c.precedes(before[i]) by {
            assert(shorter.contains(before[i]));
            let k = choose|k: int| 0 <= k < shorter.len() && shorter[k] == before[i];
            assert(sorted[k] == before[i]);
            assert(!sorted[sorted.len() - 1].precedes(sorted[k]));
        }
        assert forall|i: int| 0 <= i < result.len() implies sorted.contains(
            #[trigger] result[i],
        ) by {
            if i < before.len() {
                assert(result[i] == before[i]);
            }
        }
        assert forall|i: int, j: int| 0 <= i < j < result.len() implies !(
        #[trigger] result[j]).precedes(#[trigger] result[i]) by {
            assert(result[i] == before[i]);
            if j < before.len() {
                assert(result[j] == before[j]);
            }
        }
        assert forall|i: int| 0 <= i < result.len() implies other(u, #[trigger] result[i]) by {
            if i < before.len() {
                assert(other(u, before[i]));
            }
        }
        if crate::layer0_laws::pool_holds(sorted, u, other) {
            assert(other(u, sorted[sorted.len() - 1]));
        }
    }
}

/// Where the score of a candidate follows from its point, each point is chosen
/// once.
proof fn lemma_chosen_once(
    sorted: Seq<Candidate>,
    u: int,
    n: nat,
    score: spec_fn(PointOffsetType, PointOffsetType) -> Score,
)
    requires
        crate::candidate::in_order(sorted),
        crate::layer0_laws::pool_holds(sorted, u, is_edge(n, score)),
    ensures
        crate::layer0_model::chosen(sorted, u, n) == crate::candidate::deduped(sorted),
    decreases sorted.len(),
{
    if sorted.len() > 0 {
        let shorter = sorted.drop_last();
        let edge = is_edge(n, score);
        assert forall|i: int| 0 <= i < shorter.len() implies edge(u, #[trigger] shorter[i]) by {
            assert(edge(u, sorted[i]));
        }
        assert forall|i: int, j: int| 0 <= i < j < shorter.len() implies !(
        #[trigger] shorter[j]).precedes(#[trigger] shorter[i]) by {
            assert(!sorted[j].precedes(sorted[i]));
        }
        assert(edge(u, sorted[sorted.len() - 1]));
        lemma_chosen_once(shorter, u, n, score);
    }
}

/// The place of a live point among the live ones.
pub proof fn lemma_place_of(alive_flags: Seq<bool>, p: int) -> (k: int)
    requires
        alive_flags.len() <= u32::MAX,
        0 <= p < alive_flags.len(),
        alive_flags[p],
    ensures
        0 <= k < crate::layer0_model::alive_points(alive_flags).len(),
        crate::layer0_model::alive_points(alive_flags)[k] == p,
{
    crate::layer0_model::law_alive_points(alive_flags);
    let alive = crate::layer0_model::alive_points(alive_flags);
    assert(alive.contains(p as PointOffsetType));
    choose|k: int| 0 <= k < alive.len() && alive[k] == p as PointOffsetType
}

/// The list of a live point is chosen out of a sorted form of its pool.
proof fn lemma_list_of(
    alive_flags: Seq<bool>,
    graph: Seq<Seq<Candidate>>,
    lists: Seq<Seq<ScoredPointOffset>>,
    k: int,
) -> (sorted: Seq<Candidate>)
    requires
        crate::layer0_model::listed(lists, alive_flags, graph),
        0 <= k < graph.len(),
    ensures
        crate::candidate::sorts_to(graph[k], sorted),
        ({
            let alive = crate::layer0_model::alive_points(alive_flags);
            lists[alive[k] as int] == crate::layer0_model::named(
                crate::layer0_model::chosen(sorted, k, alive.len()),
                alive,
            )
        }),
{
    let alive = crate::layer0_model::alive_points(alive_flags);
    let list = lists[alive[k] as int];
    assert(crate::layer0_model::lists(graph[k], k, alive, list));
    choose|sorted: Seq<Candidate>|
        {
            &&& #[trigger] crate::candidate::sorts_to(graph[k], sorted)
            &&& list == crate::layer0_model::named(
                crate::layer0_model::chosen(sorted, k, alive.len()),
                alive,
            )
        }
}

/// Every neighbor list stands closest first, with equally close neighbors in the
/// order of their ids. It names live points only, and never the point itself. A
/// point that is not alive has no neighbors.
pub proof fn law_lists_are_ordered_and_live(
    alive_flags: Seq<bool>,
    s: nat,
    rounds: nat,
    passes: nat,
    cap: nat,
    seed: u64,
    num_threads: nat,
    score: spec_fn(PointOffsetType, PointOffsetType) -> Score,
    lists: Seq<Seq<ScoredPointOffset>>,
    p: int,
)
    requires
        alive_flags.len() <= u32::MAX,
        crate::layer0_model::layer0_of(
            alive_flags,
            s,
            rounds,
            passes,
            cap,
            seed,
            num_threads,
            score,
            lists,
        ),
        0 <= p < alive_flags.len(),
    ensures
        lists.len() == alive_flags.len(),
        !alive_flags[p] ==> lists[p].len() == 0,
        forall|i: int|
            0 <= i < lists[p].len() ==> {
                &&& (#[trigger] lists[p][i]).idx < alive_flags.len()
                &&& alive_flags[lists[p][i].idx as int]
                &&& lists[p][i].idx != p
            },
        forall|i: int, j: int|
            0 <= i < j < lists[p].len() ==> {
                ||| (#[trigger] lists[p][i]).score.rank() > (#[trigger] lists[p][j]).score.rank()
                ||| lists[p][i].score.rank() == lists[p][j].score.rank() && lists[p][i].idx
                    <= lists[p][j].idx
            },
{
    let alive = crate::layer0_model::alive_points(alive_flags);
    crate::layer0_model::law_alive_points(alive_flags);
    if alive.len() > 0 {
        let graph = choose|graph: Seq<Seq<Candidate>>|
            {
                &&& #[trigger] crate::layer0_model::refined_graph(
                    alive,
                    s,
                    rounds,
                    passes,
                    cap,
                    seed,
                    num_threads,
                    score,
                    graph,
                )
                &&& crate::layer0_model::listed(lists, alive_flags, graph)
            };
        if alive_flags[p] {
            let n = alive.len();
            let k = lemma_place_of(alive_flags, p);
            let sorted = lemma_list_of(alive_flags, graph, lists, k);
            let chosen = crate::layer0_model::chosen(sorted, k, n);
            let other = is_other(n);
            lemma_chosen(sorted, k, n);
            assert forall|i: int| 0 <= i < lists[p].len() implies {
                &&& (#[trigger] lists[p][i]).idx < alive_flags.len()
                &&& alive_flags[lists[p][i].idx as int]
                &&& lists[p][i].idx != p
            } by {
                assert(other(k, chosen[i]));
                let q = chosen[i].idx as int;
                assert(lists[p][i].idx == alive[q]);
                if q < k {
                    assert(alive[q] < alive[k]);
                } else {
                    assert(alive[k] < alive[q]);
                }
            }
            assert forall|i: int, j: int| 0 <= i < j < lists[p].len() implies {
                ||| (#[trigger] lists[p][i]).score.rank() > (#[trigger] lists[p][j]).score.rank()
                ||| lists[p][i].score.rank() == lists[p][j].score.rank() && lists[p][i].idx
                    <= lists[p][j].idx
            } by {
                assert(!chosen[j].precedes(chosen[i]));
                assert(other(k, chosen[i]) && other(k, chosen[j]));
                let a = chosen[i].idx as int;
                let b = chosen[j].idx as int;
                if a < b {
                    assert(alive[a] < alive[b]);
                }
            }
        }
    }
}

/// The refined graph of a symmetric score holds edges only.
proof fn lemma_refined_graph_edges(
    alive: Seq<PointOffsetType>,
    s: nat,
    rounds: nat,
    passes: nat,
    cap: nat,
    seed: u64,
    num_threads: nat,
    score: spec_fn(PointOffsetType, PointOffsetType) -> Score,
    graph: Seq<Seq<Candidate>>,
) -> (initial: Seq<Seq<Candidate>>)
    requires
        alive.len() <= u32::MAX,
        symmetric(score),
        crate::layer0_model::refined_graph(
            alive,
            s,
            rounds,
            passes,
            cap,
            seed,
            num_threads,
            score,
            graph,
        ),
    ensures
        graph.len() == alive.len(),
        initial.len() == alive.len(),
        ({
            let between = crate::layer0_model::scores_between(alive, score);
            &&& symmetric(between)
            &&& crate::layer0_laws::graph_holds(graph, is_edge(alive.len(), between))
            &&& crate::layer0_laws::graph_holds(initial, is_edge(alive.len(), between))
            &&& crate::layer0_model::initializes(
                crate::layer0_model::bare_graph(alive.len()),
                initial,
                s,
                seed,
                crate::layer0_model::worker_count(num_threads, alive.len()),
                between,
            )
            &&& crate::layer0_model::rounds_refine(
                initial,
                rounds,
                rounds,
                passes,
                cap,
                between,
                graph,
            )
        }),
{
    let n = alive.len();
    let between = crate::layer0_model::scores_between(alive, score);
    let workers = crate::layer0_model::worker_count(num_threads, n);
    let initial = choose|initial: Seq<Seq<Candidate>>|
        {
            &&& #[trigger] crate::layer0_model::initializes(
                crate::layer0_model::bare_graph(n),
                initial,
                s,
                seed,
                workers,
                between,
            )
            &&& crate::layer0_model::rounds_refine(
                initial,
                rounds,
                rounds,
                passes,
                cap,
                between,
                graph,
            )
        };
    assert forall|a: PointOffsetType, b: PointOffsetType| #[trigger] between(a, b) == between(
        b,
        a,
    ) by {
        assert(score(alive[a as int], alive[b as int]) == score(alive[b as int], alive[a as int]));
    }
    lemma_edge_survives(n, between);
    crate::layer0_laws::lemma_initial_holds(
        initial,
        n,
        s,
        seed,
        workers,
        between,
        is_edge(n, between),
    );
    crate::layer0_laws::lemma_rounds_hold(
        initial,
        rounds,
        rounds,
        passes,
        cap,
        between,
        graph,
        is_edge(n, between),
    );
    initial
}

/// Under a symmetric score, every neighbor is listed with the score between it
/// and the point, and no neighbor twice.
pub proof fn law_lists_are_exact(
    alive_flags: Seq<bool>,
    s: nat,
    rounds: nat,
    passes: nat,
    cap: nat,
    seed: u64,
    num_threads: nat,
    score: spec_fn(PointOffsetType, PointOffsetType) -> Score,
    lists: Seq<Seq<ScoredPointOffset>>,
    p: int,
)
    requires
        alive_flags.len() <= u32::MAX,
        symmetric(score),
        crate::layer0_model::layer0_of(
            alive_flags,
            s,
            rounds,
            passes,
            cap,
            seed,
            num_threads,
            score,
            lists,
        ),
        0 <= p < alive_flags.len(),
    ensures
        forall|i: int|
            0 <= i < lists[p].len() ==> (#[trigger] lists[p][i]).score == score(
                p as PointOffsetType,
                lists[p][i].idx,
            ),
        forall|i: int, j: int|
            0 <= i < j < lists[p].len() ==> (#[trigger] lists[p][i]).idx != (
            #[trigger] lists[p][j]).idx,
        alive_flags[p] ==> lists[p].len() < crate::layer0_model::alive_points(alive_flags).len(),
{
    let alive = crate::layer0_model::alive_points(alive_flags);
    crate::layer0_model::law_alive_points(alive_flags);
    if alive_flags[p] {
        let n = alive.len();
        let k = lemma_place_of(alive_flags, p);
        let graph = choose|graph: Seq<Seq<Candidate>>|
            {
                &&& #[trigger] crate::layer0_model::refined_graph(
                    alive,
                    s,
                    rounds,
                    passes,
                    cap,
                    seed,
                    num_threads,
                    score,
                    graph,
                )
                &&& crate::layer0_model::listed(lists, alive_flags, graph)
            };
        let between = crate::layer0_model::scores_between(alive, score);
        lemma_refined_graph_edges(
            alive,
            s,
            rounds,
            passes,
            cap,
            seed,
            num_threads,
            score,
            graph,
        );
        let edge = is_edge(n, between);
        let sorted = lemma_list_of(alive_flags, graph, lists, k);
        assert(crate::layer0_laws::pool_holds(graph[k], k, edge));
        crate::layer0_laws::lemma_sorted_holds(graph[k], sorted, k, edge);
        lemma_chosen_once(sorted, k, n, between);
        let chosen = crate::candidate::deduped(sorted);
        lemma_edges_are_pairs(sorted, k, n, between);
        lemma_deduped_names_once(sorted, k, n, between);
        crate::layer0_laws::lemma_deduped_holds(sorted, k, edge);
        lemma_edges_are_others(chosen, k, n, between);
        lemma_named_once_len(chosen, k, n);
        assert forall|i: int| 0 <= i < lists[p].len() implies (#[trigger] lists[p][i]).score
            == score(p as PointOffsetType, lists[p][i].idx) by {
            assert(edge(k, chosen[i]));
        }
        assert forall|i: int, j: int| 0 <= i < j < lists[p].len() implies (
        #[trigger] lists[p][i]).idx != (#[trigger] lists[p][j]).idx by {
            assert(edge(k, chosen[i]) && edge(k, chosen[j]));
            let a = chosen[i].idx as int;
            let b = chosen[j].idx as int;
            assert(a != b);
            if a < b {
                assert(alive[a] < alive[b]);
            } else {
                assert(alive[b] < alive[a]);
            }
        }
    } else {
        law_lists_are_ordered_and_live(
            alive_flags,
            s,
            rounds,
            passes,
            cap,
            seed,
            num_threads,
            score,
            lists,
            p,
        );
    }
}

/// Under a symmetric score, no live point is left without a neighbor, if there is
/// another live point, `s` is at least 2, and either there is a single round or a
/// pool has room for all other live points.
pub proof fn law_no_live_point_is_isolated(
    alive_flags: Seq<bool>,
    s: nat,
    rounds: nat,
    passes: nat,
    cap: nat,
    seed: u64,
    num_threads: nat,
    score: spec_fn(PointOffsetType, PointOffsetType) -> Score,
    lists: Seq<Seq<ScoredPointOffset>>,
    p: int,
)
    requires
        alive_flags.len() <= u32::MAX,
        symmetric(score),
        crate::layer0_model::layer0_of(
            alive_flags,
            s,
            rounds,
            passes,
            cap,
            seed,
            num_threads,
            score,
            lists,
        ),
        0 <= p < alive_flags.len(),
        alive_flags[p],
        s >= 2,
        crate::layer0_model::alive_points(alive_flags).len() >= 2,
        rounds <= 1 || crate::layer0_model::alive_points(alive_flags).len() - 1 <= cap,
    ensures
        lists[p].len() > 0,
{
    let alive = crate::layer0_model::alive_points(alive_flags);
    crate::layer0_model::law_alive_points(alive_flags);
    let n = alive.len();
    let k = lemma_place_of(alive_flags, p);
    let graph = choose|graph: Seq<Seq<Candidate>>|
        {
            &&& #[trigger] crate::layer0_model::refined_graph(
                alive,
                s,
                rounds,
                passes,
                cap,
                seed,
                num_threads,
                score,
                graph,
            )
            &&& crate::layer0_model::listed(lists, alive_flags, graph)
        };
    let between = crate::layer0_model::scores_between(alive, score);
    let workers = crate::layer0_model::worker_count(num_threads, n);
    let initial = lemma_refined_graph_edges(
        alive,
        s,
        rounds,
        passes,
        cap,
        seed,
        num_threads,
        score,
        graph,
    );
    assert forall|u: int| 0 <= u < initial.len() implies (#[trigger] initial[u]).len() > 0 by {
        if n > s {
            law_random_graph_starts_regular(initial, n, s, seed, workers, between, u);
        } else {
            law_small_graph_starts_complete(initial, n, s, seed, workers, between, u, 0);
        }
    }
    lemma_rounds_link(initial, rounds, rounds, passes, cap, between, graph);
    let sorted = lemma_list_of(alive_flags, graph, lists, k);
    let edge = is_edge(n, between);
    assert(crate::layer0_laws::pool_holds(graph[k], k, edge));
    assert(graph[k].len() > 0);
    crate::layer0_laws::lemma_sorted_holds(graph[k], sorted, k, edge);
    crate::layer0_laws::lemma_sorted_len(graph[k], sorted);
    lemma_edges_are_others(sorted, k, n, between);
    lemma_chosen(sorted, k, n);
}

/// A live point without company has no neighbors.
pub proof fn law_single_point_has_no_neighbors(
    alive_flags: Seq<bool>,
    s: nat,
    rounds: nat,
    passes: nat,
    cap: nat,
    seed: u64,
    num_threads: nat,
    score: spec_fn(PointOffsetType, PointOffsetType) -> Score,
    lists: Seq<Seq<ScoredPointOffset>>,
    p: int,
)
    requires
        alive_flags.len() <= u32::MAX,
        crate::layer0_model::layer0_of(
            alive_flags,
            s,
            rounds,
            passes,
            cap,
            seed,
            num_threads,
            score,
            lists,
        ),
        0 <= p < alive_flags.len(),
        crate::layer0_model::alive_points(alive_flags).len() == 1,
    ensures
        lists[p].len() == 0,
{
    law_lists_are_ordered_and_live(
        alive_flags,
        s,
        rounds,
        passes,
        cap,
        seed,
        num_threads,
        score,
        lists,
        p,
    );
    if lists[p].len() > 0 {
        let q = lists[p][0].idx as int;
        assert(alive_flags[q]);
        let a = lemma_place_of(alive_flags, p);
        let b = lemma_place_of(alive_flags, q);
        assert(a == b);
    }
}

} // verus!
