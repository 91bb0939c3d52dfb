//! Critical-version frontier calculator.
//!
//! Given the causal dependency graph of all integrated operations (each
//! operation's direct parent identifiers) and a set of known end states, the
//! calculator computes the critical version: one exclusive counter boundary
//! per client, marking the part of history every known end state depends on.
//! Everything below that frontier may be summarized without losing the
//! ability to merge operations still causally after it.
//!
//! Two interchangeable traversal strategies are provided: a breadth-first
//! walk (predictable memory use over wide, shallow histories) and a
//! depth-first walk (used to cross-check the first). Both visit each
//! operation exactly once, both are proved to compute the least
//! dependency-closed set containing the end state, and
//! [`lemma_frontier_agreement`] shows any two results of that
//! characterization are equal.

use vstd::prelude::*;

use crate::ids::ID;

verus! {

/// One operation in the causal graph: its identifier and the identifiers of
/// its direct causal parents.
#[derive(Clone, Debug)]
pub struct OpNode {
    pub id: ID,
    pub parents: Vec<ID>,
}

/// Failure of a frontier computation: an end state referenced an identifier
/// absent from the graph — a programming error in the caller.
#[derive(Clone, Copy, Debug, PartialEq, Eq, Structural)]
pub enum FrontierError {
    UnknownNode,
}

pub open spec fn has_node(g: Seq<OpNode>, id: ID) -> bool {
    exists|i: int| 0 <= i < g.len() && g[i].id == id
}

pub open spec fn node_idx(g: Seq<OpNode>, id: ID) -> int {
    choose|i: int| 0 <= i < g.len() && g[i].id == id
}

/// A well-formed causal graph: identifiers are unique and every parent is
/// itself present in the graph.
pub open spec fn graph_wf(g: Seq<OpNode>) -> bool {
    &&& (forall|i: int, j: int| 0 <= i < j < g.len() ==> g[i].id != g[j].id)
    &&& (forall|i: int, p: int|
        0 <= i < g.len() && 0 <= p < g[i].parents@.len() ==> has_node(
            g,
            #[trigger] g[i].parents@[p],
        ))
}

/// A set of node indices closed under causal dependency.
pub open spec fn closed(g: Seq<OpNode>, s: Set<int>) -> bool {
    forall|i: int, p: int|
        s.contains(i) && 0 <= i < g.len() && 0 <= p < g[i].parents@.len() ==> s.contains(
            node_idx(g, #[trigger] g[i].parents@[p]),
        )
}

pub open spec fn contains_ends(g: Seq<OpNode>, s: Set<int>, ends: Seq<ID>) -> bool {
    forall|e: int| 0 <= e < ends.len() ==> s.contains(node_idx(g, #[trigger] ends[e]))
}

/// The causal history of an end state: the least dependency-closed index set
/// containing it — equivalently, the indices that belong to every closed set
/// containing the ends.
pub open spec fn span_set(g: Seq<OpNode>, ends: Seq<ID>) -> Set<int> {
    Set::new(
        |i: int|
            0 <= i < g.len() && forall|t: Set<int>|
                closed(g, t) && contains_ends(g, t, ends) ==> t.contains(i),
    )
}

pub proof fn lemma_node_idx_unique(g: Seq<OpNode>, i: int, id: ID)
    requires
        graph_wf(g),
        0 <= i < g.len(),
        g[i].id == id,
    ensures
        has_node(g, id),
        node_idx(g, id) == i,
{
    assert(has_node(g, id));
    let k = node_idx(g, id);
    if k != i {
        if k < i {
            assert(g[k].id != g[i].id);
        } else {
            assert(g[i].id != g[k].id);
        }
    }
}

/// Number of `false` entries: the traversal's termination measure.
pub open spec fn count_false(s: Seq<bool>) -> int
    decreases s.len(),
{
    if s.len() == 0 {
        0
    } else {
        count_false(s.drop_last()) + if s[s.len() - 1] {
            0int
        } else {
            1int
        }
    }
}

pub proof fn lemma_count_false_update(s: Seq<bool>, i: int)
    requires
        0 <= i < s.len(),
        !s[i],
    ensures
        count_false(s.update(i, true)) == count_false(s) - 1,
    decreases s.len(),
{
    if i == s.len() - 1 {
        assert(s.update(i, true).drop_last() =~= s.drop_last());
    } else {
        assert(s.update(i, true).drop_last() =~= s.drop_last().update(i, true));
        lemma_count_false_update(s.drop_last(), i);
    }
}

pub proof fn lemma_count_false_nonneg(s: Seq<bool>)
    ensures
        count_false(s) >= 0,
    decreases s.len(),
{
    if s.len() > 0 {
        lemma_count_false_nonneg(s.drop_last());
    }
}

/// Finds the index of a node by identifier.
fn find_node(g: &Vec<OpNode>, id: ID) -> (r: Option<usize>)
    requires
        graph_wf(g@),
    ensures
        match r {
            Some(i) => i < g@.len() && g@[i as int].id == id && node_idx(g@, id) == i && has_node(
                g@,
                id,
            ),
            None => !has_node(g@, id),
        },
{
    let mut i: usize = 0;
    while i < g.len()
        invariant
            i <= g@.len(),
            graph_wf(g@),
            forall|k: int| 0 <= k < i ==> g@[k].id != id,
        decreases g@.len() - i,
    {
        let nid = g[i].id;
        if nid.client == id.client && nid.counter == id.counter {
            proof {
                lemma_node_idx_unique(g@, i as int, id);
            }
            return Some(i);
        }
        i += 1;
    }
    proof {
        if has_node(g@, id) {
            let w = node_idx(g@, id);
            assert(g@[w].id == id);
        }
    }
    None
}

/// Membership of `i` in the not-yet-processed part of the worklist.
pub open spec fn in_worklist(work: Seq<usize>, head: int, i: int) -> bool {
    exists|q: int| head <= q < work.len() && work[q] == i
}

/// Walks the causal history of `ends` through the graph, visiting every
/// reachable operation exactly once (memoized by index). `take_front`
/// selects breadth-first order; otherwise the walk is depth-first. The
/// result marks exactly the least dependency-closed set containing the
/// ends.
fn closure_walk(g: &Vec<OpNode>, ends: &Vec<ID>, take_front: bool) -> (r: Result<
    Vec<bool>,
    FrontierError,
>)
    requires
        graph_wf(g@),
    ensures
        match r {
            Ok(visited) => {
                &&& (forall|e: int| 0 <= e < ends@.len() ==> has_node(g@, #[trigger] ends@[e]))
                &&& visited@.len() == g@.len()
                &&& (forall|i: int|
                    0 <= i < g@.len() ==> visited@[i] == span_set(g@, ends@).contains(i))
            },
            Err(FrontierError::UnknownNode) => !(forall|e: int|
                0 <= e < ends@.len() ==> has_node(g@, #[trigger] ends@[e])),
        },
{
    let n = g.len();
    let mut visited: Vec<bool> = Vec::new();
    let mut i: usize = 0;
    while i < n
        invariant
            i <= n,
            visited@.len() == i,
            forall|k: int| 0 <= k < i ==> !visited@[k],
        decreases n - i,
    {
        visited.push(false);
        i += 1;
    }
    let mut work: Vec<usize> = Vec::new();
    let mut head: usize = 0;
    // Seed the worklist with the end identifiers.
    let mut e: usize = 0;
    while e < ends.len()
        invariant
            e <= ends@.len(),
            graph_wf(g@),
            visited@.len() == g@.len(),
            n == g@.len(),
            head == 0,
            forall|q: int| 0 <= q < work@.len() ==> (#[trigger] work@[q]) < g@.len(),
            forall|q: int| 0 <= q < work@.len() ==> visited@[work@[q] as int],
            forall|k: int| 0 <= k < e ==> has_node(g@, #[trigger] ends@[k]),
            forall|k: int|
                0 <= k < e ==> visited@[node_idx(g@, #[trigger] ends@[k])],
            forall|i2: int|
                0 <= i2 < g@.len() && visited@[i2] ==> forall|t: Set<int>|
                    closed(g@, t) && contains_ends(g@, t, ends@) ==> t.contains(i2),
            forall|i2: int|
                0 <= i2 < g@.len() && visited@[i2] && !in_worklist(work@, head as int, i2)
                    ==> false,
        decreases ends@.len() - e,
    {
        let id = ends[e];
        match find_node(g, id) {
            None => {
                return Err(FrontierError::UnknownNode);
            },
            Some(idx) => {
                if !visited[idx] {
                    visited.set(idx, true);
                    let ghost w0 = work@;
                    work.push(idx);
                    proof {
                        assert forall|i2: int|
                            0 <= i2 < g@.len() && visited@[i2] && !in_worklist(
                                work@,
                                head as int,
                                i2,
                            ) implies false by {
                            if i2 == idx {
                                assert(work@[work@.len() - 1] == idx);
                                assert(in_worklist(work@, head as int, i2));
                            } else {
                                assert(in_worklist(w0, head as int, i2));
                                let q = choose|q: int|
                                    head <= q < w0.len() && w0[q] == i2;
                                assert(work@[q] == i2);
                            }
                        }
                        assert forall|i2: int|
                            0 <= i2 < g@.len() && visited@[i2] implies forall|t: Set<int>|
                            closed(g@, t) && contains_ends(g@, t, ends@) ==> t.contains(i2) by {
                            if i2 == idx {
                                assert forall|t: Set<int>|
                                    closed(g@, t) && contains_ends(g@, t, ends@) implies t.contains(
                                    i2,
                                ) by {
                                    assert(t.contains(node_idx(g@, ends@[e as int])));
                                }
                            }
                        }
                    }
                }
            },
        }
        e += 1;
    }
    // Walk: take one marked node, then mark and enqueue its unvisited
    // parents; a node leaves the worklist only with every parent marked.
    while head < work.len()
        invariant
            graph_wf(g@),
            visited@.len() == g@.len(),
            n == g@.len(),
            head <= work@.len(),
            take_front || head == 0,
            forall|q: int| 0 <= q < work@.len() ==> (#[trigger] work@[q]) < g@.len(),
            forall|q: int| 0 <= q < work@.len() ==> visited@[work@[q] as int],
            forall|k: int| 0 <= k < ends@.len() ==> has_node(g@, #[trigger] ends@[k]),
            forall|k: int| 0 <= k < ends@.len() ==> visited@[node_idx(g@, #[trigger] ends@[k])],
            forall|i2: int|
                0 <= i2 < g@.len() && visited@[i2] ==> forall|t: Set<int>|
                    closed(g@, t) && contains_ends(g@, t, ends@) ==> t.contains(i2),
            forall|i2: int, p2: int|
                0 <= i2 < g@.len() && visited@[i2] && !in_worklist(work@, head as int, i2) && 0
                    <= p2 < g@[i2].parents@.len() ==> visited@[node_idx(
                    g@,
                    #[trigger] g@[i2].parents@[p2],
                )],
        decreases 2 * count_false(visited@) + work@.len() - head,
    {
        let ghost m0 = 2 * count_false(visited@) + work@.len() - head;
        let ghost wstart = work@;
        let ghost hstart = head as int;
        let idx: usize;
        if take_front {
            idx = work[head];
            head += 1;
        } else {
            let ghost w0 = work@;
            idx = match work.pop() {
                Some(x) => x,
                None => {
                    proof {
                        assert(false);
                    }
                    return Err(FrontierError::UnknownNode);
                },
            };
            proof {
                assert(w0[w0.len() - 1] == idx);
                assert(work@ =~= w0.drop_last());
            }
        }
        // Every node still pending before the take, except possibly the taken
        // one, is still pending.
        proof {
            assert forall|i2: int|
                i2 != idx && in_worklist(wstart, hstart, i2) implies in_worklist(
                work@,
                head as int,
                i2,
            ) by {
                let q = choose|q: int| hstart <= q < wstart.len() && wstart[q] == i2;
                if take_front {
                    assert(q != hstart);
                    assert(work@[q] == i2);
                } else {
                    assert(q != wstart.len() - 1);
                    assert(work@[q] == i2);
                }
            }
        }
        let np = g[idx].parents.len();
        let mut p: usize = 0;
        while p < np
            invariant
                graph_wf(g@),
                visited@.len() == g@.len(),
                n == g@.len(),
                idx < g@.len(),
                np == g@[idx as int].parents@.len(),
                p <= np,
                head <= work@.len(),
                visited@[idx as int],
                forall|q: int| 0 <= q < work@.len() ==> (#[trigger] work@[q]) < g@.len(),
                forall|q: int| 0 <= q < work@.len() ==> visited@[work@[q] as int],
                forall|k: int| 0 <= k < ends@.len() ==> has_node(g@, #[trigger] ends@[k]),
                forall|k: int| 0 <= k < ends@.len() ==> visited@[node_idx(g@, #[trigger] ends@[k])],
                forall|i2: int|
                    0 <= i2 < g@.len() && visited@[i2] ==> forall|t: Set<int>|
                        closed(g@, t) && contains_ends(g@, t, ends@) ==> t.contains(i2),
                forall|i2: int, p2: int|
                    0 <= i2 < g@.len() && visited@[i2] && i2 != idx && !in_worklist(
                        work@,
                        head as int,
                        i2,
                    ) && 0 <= p2 < g@[i2].parents@.len() ==> visited@[node_idx(
                        g@,
                        #[trigger] g@[i2].parents@[p2],
                    )],
                forall|p2: int|
                    0 <= p2 < p ==> visited@[node_idx(g@, #[trigger] g@[idx as int].parents@[p2])],
                2 * count_false(visited@) + work@.len() - head <= m0 - 1,
            decreases np - p,
        {
            let ghost vpre = visited@;
            let pid = g[idx].parents[p];
            proof {
                assert(has_node(g@, g@[idx as int].parents@[p as int]));
            }
            let pi = match find_node(g, pid) {
                Some(pi) => pi,
                None => {
                    proof {
                        assert(false);
                    }
                    return Err(FrontierError::UnknownNode);
                },
            };
            if !visited[pi] {
                proof {
                    lemma_count_false_update(visited@, pi as int);
                }
                let ghost v0 = visited@;
                visited.set(pi, true);
                let ghost w1 = work@;
                work.push(pi);
                proof {
                    // The new node is in every closed superset of the ends,
                    // because the taken node is and the set is closed.
                    assert forall|i2: int|
                        0 <= i2 < g@.len() && visited@[i2] implies forall|t: Set<int>|
                        closed(g@, t) && contains_ends(g@, t, ends@) ==> t.contains(i2) by {
                        if i2 == pi as int && !v0[i2] {
                            assert forall|t: Set<int>|
                                closed(g@, t) && contains_ends(g@, t, ends@) implies t.contains(
                                i2,
                            ) by {
                                assert(t.contains(idx as int));
                                assert(t.contains(node_idx(g@, g@[idx as int].parents@[p as int])));
                            }
                        }
                    }
                    // Pending nodes stay pending after the push.
                    assert forall|i2: int, p2: int|
                        0 <= i2 < g@.len() && visited@[i2] && i2 != idx && !in_worklist(
                            work@,
                            head as int,
                            i2,
                        ) && 0 <= p2 < g@[i2].parents@.len() implies visited@[node_idx(
                        g@,
                        g@[i2].parents@[p2],
                    )] by {
                        if i2 == pi as int {
                            assert(work@[work@.len() - 1] == pi);
                            assert(in_worklist(work@, head as int, i2));
                        } else {
                            if in_worklist(w1, head as int, i2) {
                                let q = choose|q: int| head <= q < w1.len() && w1[q] == i2;
                                assert(work@[q] == i2);
                                assert(in_worklist(work@, head as int, i2));
                            } else {
                                if v0[i2] {
                                    assert(visited@[node_idx(g@, g@[i2].parents@[p2])]
                                        || !v0[node_idx(g@, g@[i2].parents@[p2])]);
                                    assert(v0[node_idx(g@, g@[i2].parents@[p2])]);
                                }
                            }
                        }
                    }
                }
            }
            proof {
                assert forall|k: int| 0 <= k < ends@.len() implies visited@[node_idx(
                    g@,
                    #[trigger] ends@[k],
                )] by {
                    assert(has_node(g@, ends@[k]));
                    let w = node_idx(g@, ends@[k]);
                    assert(0 <= w < g@.len());
                    assert(vpre[w]);
                }
            }
            p += 1;
        }
        proof {
            // The taken node now has every parent marked, so the pending
            // invariant holds for it as well.
            assert forall|i2: int, p2: int|
                0 <= i2 < g@.len() && visited@[i2] && !in_worklist(work@, head as int, i2) && 0
                    <= p2 < g@[i2].parents@.len() implies visited@[node_idx(
                g@,
                #[trigger] g@[i2].parents@[p2],
            )] by {
                if i2 == idx as int {
                    assert(visited@[node_idx(g@, g@[idx as int].parents@[p2])]);
                }
            }
            lemma_count_false_nonneg(visited@);
        }
    }
    // The marked set is closed, contains the ends, and every marked node
    // lies in every closed superset of the ends: it is exactly the least
    // such set.
    proof {
        let vset = Set::new(|i: int| 0 <= i < g@.len() && visited@[i]);
        assert(closed(g@, vset)) by {
            assert forall|i2: int, p2: int|
                vset.contains(i2) && 0 <= i2 < g@.len() && 0 <= p2 < g@[i2].parents@.len()
                    implies vset.contains(node_idx(g@, #[trigger] g@[i2].parents@[p2])) by {
                assert(!in_worklist(work@, head as int, i2));
                assert(visited@[node_idx(g@, g@[i2].parents@[p2])]);
                let w = node_idx(g@, g@[i2].parents@[p2]);
                assert(has_node(g@, g@[i2].parents@[p2]));
                assert(0 <= w < g@.len());
            }
        }
        assert(contains_ends(g@, vset, ends@)) by {
            assert forall|e2: int| 0 <= e2 < ends@.len() implies vset.contains(
                node_idx(g@, #[trigger] ends@[e2]),
            ) by {
                assert(visited@[node_idx(g@, ends@[e2])]);
                assert(has_node(g@, ends@[e2]));
                let w = node_idx(g@, ends@[e2]);
                assert(g@[w].id == ends@[e2]);
            }
        }
        assert forall|i2: int| 0 <= i2 < g@.len() implies visited@[i2] == span_set(
            g@,
            ends@,
        ).contains(i2) by {
            if visited@[i2] {
                assert forall|t: Set<int>|
                    closed(g@, t) && contains_ends(g@, t, ends@) implies t.contains(i2) by {}
                assert(span_set(g@, ends@).contains(i2));
            } else {
                if span_set(g@, ends@).contains(i2) {
                    assert(vset.contains(i2));
                }
            }
        }
    }
    Ok(visited)
}

/// The views of a list of end states.
pub open spec fn ends_views(el: Seq<Vec<ID>>) -> Seq<Seq<ID>> {
    el.map_values(|v: Vec<ID>| v@)
}

/// Every identifier of every end state is present in the graph.
pub open spec fn ends_known(g: Seq<OpNode>, el: Seq<Seq<ID>>) -> bool {
    forall|e: int, k: int|
        0 <= e < el.len() && 0 <= k < el[e].len() ==> has_node(g, #[trigger] el[e][k])
}

/// The identifier `(cl, c)` lies in the common causal history of all end
/// states: its node belongs to every end state's history.
pub open spec fn in_common(g: Seq<OpNode>, el: Seq<Seq<ID>>, cl: u64, c: int) -> bool {
    exists|i: int|
        0 <= i < g.len() && (#[trigger] g[i]).id.client == cl && g[i].id.counter == c && forall|
            e: int,
        | 0 <= e < el.len() ==> span_set(g, el[e]).contains(i)
}

pub open spec fn seen_client(g: Seq<OpNode>, upto: int, cl: u64) -> bool {
    exists|j: int| 0 <= j < upto && (#[trigger] g[j]).id.client == cl
}

/// The distinct clients of the graph, in order of first appearance.
pub open spec fn client_list(g: Seq<OpNode>, upto: int) -> Seq<u64>
    decreases upto,
{
    if upto <= 0 {
        Seq::<u64>::empty()
    } else {
        let pre = client_list(g, upto - 1);
        if seen_client(g, upto - 1, g[upto - 1].id.client) {
            pre
        } else {
            pre.push(g[upto - 1].id.client)
        }
    }
}

/// The characterization of a critical version: one entry per client of the
/// graph in first-appearance order, each carrying the exclusive counter
/// boundary of the common causal history — every counter below it is in the
/// common history, the boundary itself is not.
pub open spec fn is_critical(g: Seq<OpNode>, el: Seq<Seq<ID>>, r: Seq<(u64, i64)>) -> bool {
    &&& r.map_values(|p: (u64, i64)| p.0) == client_list(g, g.len() as int)
    &&& (forall|k: int| 0 <= k < r.len() ==> 0 <= (#[trigger] r[k]).1)
    &&& (forall|k: int, j: int|
        0 <= k < r.len() && 0 <= j < r[k].1 ==> #[trigger] in_common(g, el, r[k].0, j))
    &&& (forall|k: int| 0 <= k < r.len() ==> !in_common(g, el, (#[trigger] r[k]).0, r[k].1 as int))
}

/// Frontier agreement: the characterization pins the result down, so any
/// two computations of it — in particular the breadth-first and the
/// depth-first traversal — return identical version vectors.
pub proof fn lemma_frontier_agreement(
    g: Seq<OpNode>,
    el: Seq<Seq<ID>>,
    r1: Seq<(u64, i64)>,
    r2: Seq<(u64, i64)>,
)
    requires
        is_critical(g, el, r1),
        is_critical(g, el, r2),
    ensures
        r1 == r2,
{
    let m1 = r1.map_values(|p: (u64, i64)| p.0);
    let m2 = r2.map_values(|p: (u64, i64)| p.0);
    assert(m1.len() == r1.len() && m2.len() == r2.len());
    assert(r1.len() == r2.len());
    assert forall|k: int| 0 <= k < r1.len() implies r1[k] == r2[k] by {
        assert(m1[k] == m2[k]);
        assert(r1[k].0 == r2[k].0);
        let cl = r1[k].0;
        let b1 = r1[k].1 as int;
        let b2 = r2[k].1 as int;
        if b1 < b2 {
            assert(in_common(g, el, r2[k].0, b1));
            assert(!in_common(g, el, cl, b1));
            assert(false);
        }
        if b2 < b1 {
            assert(in_common(g, el, r1[k].0, b2));
            assert(!in_common(g, el, r2[k].0, b2));
            assert(false);
        }
    }
    assert(r1 =~= r2);
}

/// Computes the critical version by breadth-first traversal: the production
/// strategy, chosen for predictable memory use over wide, shallow
/// histories.
pub fn calc_critical_version_bfs(g: &Vec<OpNode>, ends: &Vec<Vec<ID>>) -> (r: Result<
    Vec<(u64, i64)>,
    FrontierError,
>)
    requires
        graph_wf(g@),
    ensures
        match r {
            Ok(v) => ends_known(g@, ends_views(ends@)) && is_critical(
                g@,
                ends_views(ends@),
                v@,
            ),
            Err(FrontierError::UnknownNode) => !ends_known(g@, ends_views(ends@)),
        },
{
    calc_critical_version_walk(g, ends, true)
}

/// Computes the critical version by depth-first traversal; proved to agree
/// with the breadth-first strategy on every graph (see
/// [`lemma_frontier_agreement`]).
pub fn calc_critical_version_dfs(g: &Vec<OpNode>, ends: &Vec<Vec<ID>>) -> (r: Result<
    Vec<(u64, i64)>,
    FrontierError,
>)
    requires
        graph_wf(g@),
    ensures
        match r {
            Ok(v) => ends_known(g@, ends_views(ends@)) && is_critical(
                g@,
                ends_views(ends@),
                v@,
            ),
            Err(FrontierError::UnknownNode) => !ends_known(g@, ends_views(ends@)),
        },
{
    calc_critical_version_walk(g, ends, false)
}

/// Frontier agreement, computed: runs both traversal strategies and proves
/// their results identical before handing one back — the executable form
/// of [`lemma_frontier_agreement`], for any graph and end set.
pub fn calc_critical_version_agreed(g: &Vec<OpNode>, ends: &Vec<Vec<ID>>) -> (r: Result<
    Vec<(u64, i64)>,
    FrontierError,
>)
    requires
        graph_wf(g@),
    ensures
        match r {
            Ok(v) => ends_known(g@, ends_views(ends@)) && is_critical(
                g@,
                ends_views(ends@),
                v@,
            ),
            Err(FrontierError::UnknownNode) => !ends_known(g@, ends_views(ends@)),
        },
{
    let b = calc_critical_version_bfs(g, ends);
    let d = calc_critical_version_dfs(g, ends);
    proof {
        match (&b, &d) {
            (Ok(vb), Ok(vd)) => {
                lemma_frontier_agreement(g@, ends_views(ends@), vb@, vd@);
            },
            (Ok(vb), Err(e)) => {
                assert(false);
            },
            (Err(e), Ok(vd)) => {
                assert(false);
            },
            (Err(e1), Err(e2)) => {},
        }
    }
    b
}

fn calc_critical_version_walk(g: &Vec<OpNode>, ends: &Vec<Vec<ID>>, take_front: bool) -> (r: Result<
    Vec<(u64, i64)>,
    FrontierError,
>)
    requires
        graph_wf(g@),
    ensures
        match r {
            Ok(v) => ends_known(g@, ends_views(ends@)) && is_critical(
                g@,
                ends_views(ends@),
                v@,
            ),
            Err(FrontierError::UnknownNode) => !ends_known(g@, ends_views(ends@)),
        },
{
    let ghost el = ends_views(ends@);
    let n = g.len();
    // The common history: nodes lying in every end state's history.
    let mut common: Vec<bool> = Vec::new();
    let mut i: usize = 0;
    while i < n
        invariant
            i <= n,
            common@.len() == i,
            forall|k: int| 0 <= k < i ==> common@[k],
        decreases n - i,
    {
        common.push(true);
        i += 1;
    }
    let mut e: usize = 0;
    while e < ends.len()
        invariant
            e <= ends@.len(),
            graph_wf(g@),
            n == g@.len(),
            common@.len() == n,
            el == ends_views(ends@),
            forall|e2: int, k: int|
                0 <= e2 < e && 0 <= k < el[e2].len() ==> has_node(g@, #[trigger] el[e2][k]),
            forall|i2: int|
                0 <= i2 < n ==> common@[i2] == forall|e2: int|
                    0 <= e2 < e ==> span_set(g@, el[e2]).contains(i2),
        decreases ends@.len() - e,
    {
        let visited = match closure_walk(g, &ends[e], take_front) {
            Ok(v) => v,
            Err(err) => {
                proof {
                    assert(el[e as int] == ends@[e as int]@);
                    if ends_known(g@, el) {
                        assert forall|k: int|
                            0 <= k < ends@[e as int]@.len() implies has_node(
                            g@,
                            #[trigger] ends@[e as int]@[k],
                        ) by {
                            assert(has_node(g@, el[e as int][k]));
                        }
                        assert(false);
                    }
                }
                return Err(FrontierError::UnknownNode);
            },
        };
        let ghost c0 = common@;
        let mut i: usize = 0;
        while i < n
            invariant
                i <= n,
                n == g@.len(),
                common@.len() == n,
                visited@.len() == n,
                el == ends_views(ends@),
                e < ends@.len(),
                forall|i2: int|
                    0 <= i2 < n ==> visited@[i2] == span_set(g@, el[e as int]).contains(i2),
                forall|i2: int| i <= i2 < n ==> common@[i2] == c0[i2],
                forall|i2: int|
                    0 <= i2 < n ==> c0[i2] == forall|e2: int|
                        0 <= e2 < e ==> span_set(g@, el[e2]).contains(i2),
                forall|i2: int|
                    0 <= i2 < i ==> common@[i2] == forall|e2: int|
                        0 <= e2 < e + 1 ==> span_set(g@, el[e2]).contains(i2),
            decreases n - i,
        {
            let keep = common[i] && visited[i];
            common.set(i, keep);
            proof {
                assert forall|e2: int| 0 <= e2 < e + 1 implies (keep ==> span_set(
                    g@,
                    el[e2],
                ).contains(i as int)) by {
                    if keep && e2 < e {
                        assert(c0[i as int]);
                    }
                }
                if forall|e2: int| 0 <= e2 < e + 1 ==> span_set(g@, el[e2]).contains(i as int) {
                    assert(c0[i as int] == forall|e2: int|
                        0 <= e2 < e ==> span_set(g@, el[e2]).contains(i as int));
                    assert(c0[i as int]);
                    assert(span_set(g@, el[e as int]).contains(i as int));
                }
            }
            i += 1;
        }
        e += 1;
    }
    // Extract the version vector: one boundary per client, in order of first
    // appearance.
    let mut out: Vec<(u64, i64)> = Vec::new();
    let mut i: usize = 0;
    while i < n
        invariant
            i <= n,
            graph_wf(g@),
            n == g@.len(),
            common@.len() == n,
            el == ends_views(ends@),
            ends_known(g@, el),
            forall|i2: int|
                0 <= i2 < n ==> common@[i2] == forall|e2: int|
                    0 <= e2 < el.len() ==> span_set(g@, el[e2]).contains(i2),
            out@.map_values(|p: (u64, i64)| p.0) == client_list(g@, i as int),
            forall|k: int| 0 <= k < out@.len() ==> 0 <= (#[trigger] out@[k]).1,
            forall|k: int, j: int|
                0 <= k < out@.len() && 0 <= j < out@[k].1 ==> #[trigger] in_common(
                    g@,
                    el,
                    out@[k].0,
                    j,
                ),
            forall|k: int|
                0 <= k < out@.len() ==> !in_common(g@, el, (#[trigger] out@[k]).0, out@[k].1 as int),
        decreases n - i,
    {
        let cl = g[i].id.client;
        // Only the first node of each client contributes an entry.
        let mut seen: bool = false;
        let mut j: usize = 0;
        while j < i
            invariant
                j <= i,
                i < n,
                n == g@.len(),
                cl == g@[i as int].id.client,
                seen == seen_client(g@, j as int, cl),
            decreases i - j,
        {
            if g[j].id.client == cl {
                seen = true;
                proof {
                    assert(seen_client(g@, j + 1, cl));
                }
            }
            proof {
                if !seen && seen_client(g@, j + 1, cl) {
                    let w = choose|w: int| 0 <= w < j + 1 && g@[w].id.client == cl;
                    assert(w == j);
                }
            }
            j += 1;
        }
        if !seen {
            // Largest counter this client ever used bounds the boundary
            // search.
            let mut mx: i32 = g[i].id.counter;
            let mut j: usize = 0;
            while j < n
                invariant
                    j <= n,
                    n == g@.len(),
                    cl == g@[i as int].id.client,
                    i < n,
                    forall|j2: int|
                        0 <= j2 < j && (#[trigger] g@[j2]).id.client == cl ==> g@[j2].id.counter
                            <= mx,
                decreases n - j,
            {
                let nid = g[j].id;
                if nid.client == cl && nid.counter > mx {
                    mx = nid.counter;
                }
                j += 1;
            }
            let mxi: i64 = if mx < 0 {
                0
            } else {
                mx as i64
            };
            let mut b: i64 = 0;
            loop
                invariant
                    0 <= b <= mxi + 1,
                    0 <= mxi <= i32::MAX,
                    graph_wf(g@),
                    n == g@.len(),
                    common@.len() == n,
                    el == ends_views(ends@),
                    forall|i2: int|
                        0 <= i2 < n ==> common@[i2] == forall|e2: int|
                            0 <= e2 < el.len() ==> span_set(g@, el[e2]).contains(i2),
                    forall|j2: int| 0 <= j2 < b ==> in_common(g@, el, cl, j2),
                    forall|j2: int|
                        0 <= j2 < n && (#[trigger] g@[j2]).id.client == cl ==> g@[j2].id.counter
                            <= mxi,
                ensures
                    0 <= b,
                    forall|j2: int| 0 <= j2 < b ==> in_common(g@, el, cl, j2),
                    !in_common(g@, el, cl, b as int),
                decreases mxi + 1 - b,
            {
                if b > mxi {
                    proof {
                        if in_common(g@, el, cl, b as int) {
                            let w = choose|w: int|
                                0 <= w < g@.len() && (#[trigger] g@[w]).id.client == cl
                                    && g@[w].id.counter == b as int && forall|e2: int|
                                    0 <= e2 < el.len() ==> span_set(g@, el[e2]).contains(w);
                            assert(g@[w].id.counter <= mxi);
                        }
                    }
                    break ;
                }
                let probe = ID { client: cl, counter: b as i32 };
                let hit: bool;
                match find_node(g, probe) {
                    Some(idx) => {
                        hit = common[idx];
                        proof {
                            if hit {
                                assert((#[trigger] g@[idx as int]).id.client == cl
                                    && g@[idx as int].id.counter == b as int);
                                assert(forall|e2: int|
                                    0 <= e2 < el.len() ==> span_set(g@, el[e2]).contains(
                                        idx as int,
                                    ));
                                assert(in_common(g@, el, cl, b as int));
                            } else {
                                if in_common(g@, el, cl, b as int) {
                                    let w = choose|w: int|
                                        0 <= w < g@.len() && (#[trigger] g@[w]).id.client == cl
                                            && g@[w].id.counter == b as int && forall|e2: int|
                                            0 <= e2 < el.len() ==> span_set(
                                                g@,
                                                el[e2],
                                            ).contains(w);
                                    lemma_node_idx_unique(g@, w, probe);
                                    assert(w == idx);
                                    assert(common@[w]);
                                }
                            }
                        }
                    },
                    None => {
                        hit = false;
                        proof {
                            if in_common(g@, el, cl, b as int) {
                                let w = choose|w: int|
                                    0 <= w < g@.len() && (#[trigger] g@[w]).id.client == cl
                                        && g@[w].id.counter == b as int && forall|e2: int|
                                        0 <= e2 < el.len() ==> span_set(g@, el[e2]).contains(w);
                                assert(g@[w].id == probe);
                                assert(has_node(g@, probe));
                            }
                        }
                    },
                }
                if !hit {
                    break ;
                }
                b = b + 1;
            }
            let ghost out0 = out@;
            out.push((cl, b));
            proof {
                assert(out@.map_values(|p: (u64, i64)| p.0) =~= out0.map_values(
                    |p: (u64, i64)| p.0,
                ).push(cl));
                assert(client_list(g@, i + 1) == client_list(g@, i as int).push(cl));
            }
        } else {
            proof {
                assert(client_list(g@, i + 1) == client_list(g@, i as int));
            }
        }
        i += 1;
    }
    Ok(out)
}

} // verus!
