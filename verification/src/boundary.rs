//! Boundary loops of a mesh: the boundary edges are walked vertex by vertex
//! into connected loops, which lets a caller keep the outermost one.

use vstd::prelude::*;

verus! {

/// The neighbors of `v` along `edges`, in edge order: for an edge `(a, b)`,
/// `b` when `a == v`, then `a` when `b == v`.
pub open spec fn adj(edges: Seq<(u32, u32)>, v: u32) -> Seq<u32>
    decreases edges.len(),
{
    if edges.len() == 0 {
        Seq::empty()
    } else {
        let e = edges.last();
        adj(edges.drop_last(), v) + (if e.0 == v {
            seq![e.1]
        } else {
            Seq::empty()
        }) + (if e.1 == v {
            seq![e.0]
        } else {
            Seq::empty()
        })
    }
}

/// The vertices that some edge of `edges` touches.
pub open spec fn vert_set(edges: Seq<(u32, u32)>) -> Set<u32>
    decreases edges.len(),
{
    if edges.len() == 0 {
        Set::empty()
    } else {
        vert_set(edges.drop_last()).insert(edges.last().0).insert(edges.last().1)
    }
}

/// The first of `ns[j..]` that differs from `prev`.
pub open spec fn first_other_from(ns: Seq<u32>, prev: u32, j: int) -> Option<u32>
    decreases ns.len() - j,
{
    if j < 0 || j >= ns.len() {
        None
    } else if ns[j] != prev {
        Some(ns[j])
    } else {
        first_other_from(ns, prev, j + 1)
    }
}

/// Whether a walk that has visited `visited` may step on from `cur`: the
/// visited vertices are edge vertices, and `cur` is a fresh one.
pub open spec fn can_step(edges: Seq<(u32, u32)>, visited: Set<u32>, cur: u32) -> bool {
    &&& visited.finite()
    &&& visited.subset_of(vert_set(edges))
    &&& vert_set(edges).contains(cur)
    &&& !visited.contains(cur)
}

/// The walk from `cur` (reached from `prev`) of a loop that began at
/// `start`: `cur` is visited and recorded, then the walk goes on to the
/// first neighbor of `cur` other than `prev`, and stops when there is none,
/// or it is `start`, or it was visited before. Gives the recorded vertices
/// and the visited set at the stop.
pub open spec fn walk(
    edges: Seq<(u32, u32)>,
    start: u32,
    cur: u32,
    prev: u32,
    visited: Set<u32>,
    acc: Seq<u32>,
) -> (Seq<u32>, Set<u32>)
    decreases vert_set(edges).len() - visited.len(),
{
    let vis2 = visited.insert(cur);
    let acc2 = acc.push(cur);
    match first_other_from(adj(edges, cur), prev, 0) {
        Some(n) => {
            if n != start && !vis2.contains(n) && can_step(edges, visited, cur) {
                proof {
                    lemma_vert_set_finite(edges);
                    vstd::set_lib::lemma_len_subset(vis2, vert_set(edges));
                    vstd::set::axiom_set_insert_len(visited, cur);
                }
                walk(edges, start, n, cur, vis2, acc2)
            } else {
                (acc2, vis2)
            }
        },
        None => (acc2, vis2),
    }
}

/// The loops found after the first `k` edges, with the vertices visited so
/// far: each edge whose first vertex is not yet visited starts a walk, and
/// a walk of at least three vertices is a loop.
pub open spec fn loops_upto(edges: Seq<(u32, u32)>, k: nat) -> (Seq<Seq<u32>>, Set<u32>)
    decreases k,
{
    if k == 0 {
        (Seq::empty(), Set::empty())
    } else {
        let (ls, vis) = loops_upto(edges, (k - 1) as nat);
        let start = edges[k - 1].0;
        if vis.contains(start) {
            (ls, vis)
        } else {
            let (lv, vis2) = walk(edges, start, start, u32::MAX, vis, Seq::empty());
            (
                if lv.len() >= 3 {
                    ls.push(lv)
                } else {
                    ls
                },
                vis2,
            )
        }
    }
}

/// The connected loops traced through `edges`, in the order of their first
/// edges.
pub open spec fn boundary_loops(edges: Seq<(u32, u32)>) -> Seq<Seq<u32>> {
    loops_upto(edges, edges.len()).0
}

/// The edges of `edges` with both vertices in `lv`, in order.
pub open spec fn edges_within(edges: Seq<(u32, u32)>, lv: Seq<u32>) -> Seq<(u32, u32)>
    decreases edges.len(),
{
    if edges.len() == 0 {
        Seq::empty()
    } else {
        let e = edges.last();
        edges_within(edges.drop_last(), lv) + if lv.contains(e.0) && lv.contains(e.1) {
            seq![e]
        } else {
            Seq::empty()
        }
    }
}

/// The edge vertices are finitely many, at most two per edge.
pub proof fn lemma_vert_set_finite(edges: Seq<(u32, u32)>)
    ensures
        vert_set(edges).finite(),
        vert_set(edges).len() <= 2 * edges.len(),
    decreases edges.len(),
{
    if edges.len() > 0 {
        let t = edges.drop_last();
        lemma_vert_set_finite(t);
        let s1 = vert_set(t).insert(edges.last().0);
        vstd::set::axiom_set_insert_len(vert_set(t), edges.last().0);
        vstd::set::axiom_set_insert_len(s1, edges.last().1);
    }
}

/// The vertices of `edges.take(i + 1)` are those of `edges.take(i)` and the
/// two of edge `i`; likewise for the neighbor lists.
proof fn lemma_take_step(edges: Seq<(u32, u32)>, i: int)
    requires
        0 <= i < edges.len(),
    ensures
        vert_set(edges.take(i + 1)) == vert_set(edges.take(i)).insert(edges[i].0).insert(edges[i].1),
        forall|v: u32|
            #[trigger] adj(edges.take(i + 1), v) == adj(edges.take(i), v) + (if edges[i].0 == v {
                seq![edges[i].1]
            } else {
                Seq::empty()
            }) + (if edges[i].1 == v {
                seq![edges[i].0]
            } else {
                Seq::empty()
            }),
{
    assert(edges.take(i + 1).drop_last() =~= edges.take(i));
    assert(edges.take(i + 1).last() == edges[i]);
}

/// Every neighbor of a vertex is an edge vertex, and a vertex that no edge
/// touches has no neighbors.
proof fn lemma_adj_in_verts(edges: Seq<(u32, u32)>, v: u32)
    ensures
        forall|j: int| 0 <= j < adj(edges, v).len() ==> vert_set(edges).contains(#[trigger] adj(edges, v)[j]),
        !vert_set(edges).contains(v) ==> adj(edges, v).len() == 0,
    decreases edges.len(),
{
    if edges.len() > 0 {
        let t = edges.drop_last();
        lemma_adj_in_verts(t, v);
        let e = edges.last();
        let a1 = adj(t, v);
        let a2 = if e.0 == v {
            seq![e.1]
        } else {
            Seq::<u32>::empty()
        };
        let a3 = if e.1 == v {
            seq![e.0]
        } else {
            Seq::<u32>::empty()
        };
        assert forall|j: int| 0 <= j < adj(edges, v).len() implies vert_set(edges).contains(
            #[trigger] adj(edges, v)[j],
        ) by {
            if j < a1.len() {
                assert(adj(edges, v)[j] == a1[j]);
            } else if j < a1.len() + a2.len() {
                assert(adj(edges, v)[j] == a2[j - a1.len()]);
            } else {
                assert(adj(edges, v)[j] == a3[j - a1.len() - a2.len()]);
            }
        }
    }
}

/// A neighbor found by `first_other_from` lies in the list and differs from
/// `prev`.
proof fn lemma_first_other(ns: Seq<u32>, prev: u32, j: int)
    ensures
        first_other_from(ns, prev, j) matches Some(n) ==> n != prev && exists|k: int|
            0 <= k < ns.len() && #[trigger] ns[k] == n,
    decreases ns.len() - j,
{
    if 0 <= j < ns.len() && ns[j] == prev {
        lemma_first_other(ns, prev, j + 1);
    }
}

/// Traces the connected loops of `edges`: each edge whose first vertex has
/// not been visited starts a walk at that vertex, which goes on to the
/// first neighbor other than the vertex it came from, until it comes back
/// to its start, reaches a visited vertex or finds no neighbor. Walks of at
/// least three vertices are the loops, in the order of their first edges.
pub fn trace_boundary_loops(edges: &[(u32, u32)]) -> (loops: Vec<Vec<u32>>)
    ensures
        loops@.len() == boundary_loops(edges@).len(),
        forall|i: int| 0 <= i < loops@.len() ==> #[trigger] loops@[i]@ == boundary_loops(edges@)[i],
{
    broadcast use vstd::std_specs::hash::group_hash_axioms;
    broadcast use vstd::set::group_set_axioms;

    let ghost es = edges@;
    let n = edges.len();
    let mut adjacency: std::collections::HashMap<u32, Vec<u32>> = std::collections::HashMap::new();
    let mut i: usize = 0;
    while i < n
        invariant
            es == edges@,
            n == es.len(),
            i <= n,
            forall|v: u32|
                #[trigger] adjacency@.contains_key(v) == vert_set(es.take(i as int)).contains(v),
            forall|v: u32|
                adjacency@.contains_key(v) ==> #[trigger] adjacency@[v]@ == adj(es.take(i as int), v),
        decreases n - i,
    {
        let (a, b) = edges[i];
        proof {
            lemma_take_step(es, i as int);
            lemma_adj_in_verts(es.take(i as int), a);
            lemma_adj_in_verts(es.take(i as int), b);
        }
        let mut la = match adjacency.remove(&a) {
            Some(l) => l,
            None => Vec::new(),
        };
        la.push(b);
        adjacency.insert(a, la);
        let mut lb = match adjacency.remove(&b) {
            Some(l) => l,
            None => Vec::new(),
        };
        lb.push(a);
        adjacency.insert(b, lb);
        proof {
            assert forall|v: u32| adjacency@.contains_key(v) implies #[trigger] adjacency@[v]@ == adj(
                es.take(i + 1),
                v,
            ) by {
                assert(adjacency@[v]@ =~= adj(es.take(i + 1), v));
            }
        }
        i = i + 1;
    }
    proof {
        assert(es.take(n as int) =~= es);
        lemma_vert_set_finite(es);
    }

    let mut visited: std::collections::HashSet<u32> = std::collections::HashSet::new();
    let mut loops: Vec<Vec<u32>> = Vec::new();
    let mut k: usize = 0;
    while k < n
        invariant
            es == edges@,
            n == es.len(),
            k <= n,
            vert_set(es).finite(),
            forall|v: u32| #[trigger] adjacency@.contains_key(v) == vert_set(es).contains(v),
            forall|v: u32| adjacency@.contains_key(v) ==> #[trigger] adjacency@[v]@ == adj(es, v),
            visited@.finite(),
            visited@.subset_of(vert_set(es)),
            visited@ == loops_upto(es, k as nat).1,
            loops@.len() == loops_upto(es, k as nat).0.len(),
            forall|j: int| 0 <= j < loops@.len() ==> #[trigger] loops@[j]@ == loops_upto(es, k as nat).0[j],
        decreases n - k,
    {
        let start = edges[k].0;
        proof {
            lemma_take_step(es, k as int);
            lemma_vert_set_grows(es, k + 1);
        }
        if !visited.contains(&start) {
            let ghost vis0 = visited@;
            let ghost target = walk(es, start, start, u32::MAX, vis0, Seq::empty());
            let mut loop_verts: Vec<u32> = Vec::new();
            let mut current = start;
            let mut prev = u32::MAX;
            let mut walking = true;
            while walking
                invariant
                    es == edges@,
                    vert_set(es).finite(),
                    forall|v: u32| #[trigger] adjacency@.contains_key(v) == vert_set(es).contains(v),
                    forall|v: u32| adjacency@.contains_key(v) ==> #[trigger] adjacency@[v]@ == adj(es, v),
                    visited@.finite(),
                    visited@.subset_of(vert_set(es)),
                    walking ==> can_step(es, visited@, current),
                    walking ==> walk(es, start, current, prev, visited@, loop_verts@) == target,
                    !walking ==> (loop_verts@, visited@) == target,
                decreases vert_set(es).len() - visited@.len() + if walking { 1int } else { 0int },
            {
                proof {
                    vstd::set::axiom_set_insert_len(visited@, current);
                    vstd::set_lib::lemma_len_subset(visited@.insert(current), vert_set(es));
                    lemma_adj_in_verts(es, current);
                    lemma_first_other(adj(es, current), prev, 0);
                }
                let ghost vis_before = visited@;
                visited.insert(current);
                loop_verts.push(current);
                let neighbors = match adjacency.get(&current) {
                    Some(ns) => ns,
                    None => {
                        walking = false;
                        continue;
                    },
                };
                let mut next: Option<u32> = None;
                let mut j: usize = 0;
                while j < neighbors.len()
                    invariant_except_break
                        next is None,
                    invariant
                        j <= neighbors@.len(),
                        first_other_from(neighbors@, prev, j as int) == first_other_from(
                            neighbors@,
                            prev,
                            0,
                        ),
                    ensures
                        next == first_other_from(neighbors@, prev, 0),
                    decreases neighbors@.len() - j,
                {
                    if neighbors[j] != prev {
                        next = Some(neighbors[j]);
                        break;
                    }
                    j = j + 1;
                }
                match next {
                    Some(nb) => {
                        if nb == start || visited.contains(&nb) {
                            walking = false;
                        } else {
                            proof {
                                let kk = choose|kk: int|
                                    0 <= kk < adj(es, current).len() && #[trigger] adj(es, current)[kk]
                                        == nb;
                                assert(vert_set(es).contains(adj(es, current)[kk]));
                            }
                            prev = current;
                            current = nb;
                        }
                    },
                    None => {
                        walking = false;
                    },
                }
            }
            if loop_verts.len() >= 3 {
                loops.push(loop_verts);
            }
        }
        k = k + 1;
    }
    loops
}

/// The vertices of a prefix of `edges` are vertices of `edges`.
proof fn lemma_vert_set_grows(edges: Seq<(u32, u32)>, i: int)
    requires
        0 <= i <= edges.len(),
    ensures
        vert_set(edges.take(i)).subset_of(vert_set(edges)),
    decreases edges.len() - i,
{
    if i < edges.len() {
        lemma_vert_set_grows(edges, i + 1);
        lemma_take_step(edges, i);
    } else {
        assert(edges.take(i) =~= edges);
    }
}

/// What a walk from `cur` that had recorded `acc` and visited `visited`
/// adds when it ends with `lv` recorded and `vis` visited: the vertices
/// after `acc` begin at `cur`, are fresh edge vertices, all different, each
/// joined by an edge to the next, and the visited set grows by exactly them.
pub open spec fn walk_adds(
    edges: Seq<(u32, u32)>,
    visited: Set<u32>,
    cur: u32,
    acc: Seq<u32>,
    lv: Seq<u32>,
    vis: Set<u32>,
) -> bool {
    &&& lv.len() > acc.len()
    &&& forall|i: int| 0 <= i < acc.len() ==> #[trigger] lv[i] == acc[i]
    &&& lv[acc.len() as int] == cur
    &&& forall|i: int|
        acc.len() <= i < lv.len() ==> vert_set(edges).contains(#[trigger] lv[i]) && !visited.contains(
            lv[i],
        )
    &&& forall|i: int, j: int| acc.len() <= i < j < lv.len() ==> #[trigger] lv[i] != #[trigger] lv[j]
    &&& forall|i: int| acc.len() <= i < lv.len() - 1 ==> adj(edges, #[trigger] lv[i]).contains(lv[i + 1])
    &&& forall|v: u32|
        #[trigger] vis.contains(v) <==> (visited.contains(v) || exists|i: int|
            acc.len() <= i < lv.len() && #[trigger] lv[i] == v)
    &&& vis.finite()
    &&& vis.subset_of(vert_set(edges))
}

/// A walk adds what `walk_adds` says.
proof fn lemma_walk(
    edges: Seq<(u32, u32)>,
    start: u32,
    cur: u32,
    prev: u32,
    visited: Set<u32>,
    acc: Seq<u32>,
)
    requires
        can_step(edges, visited, cur),
    ensures
        walk_adds(
            edges,
            visited,
            cur,
            acc,
            walk(edges, start, cur, prev, visited, acc).0,
            walk(edges, start, cur, prev, visited, acc).1,
        ),
    decreases vert_set(edges).len() - visited.len(),
{
    let vis2 = visited.insert(cur);
    let acc2 = acc.push(cur);
    let a = acc.len() as int;
    lemma_vert_set_finite(edges);
    vstd::set::axiom_set_insert_len(visited, cur);
    vstd::set_lib::lemma_len_subset(vis2, vert_set(edges));
    lemma_first_other(adj(edges, cur), prev, 0);
    lemma_adj_in_verts(edges, cur);
    match first_other_from(adj(edges, cur), prev, 0) {
        Some(n) => {
            if n != start && !vis2.contains(n) && can_step(edges, visited, cur) {
                let kk = choose|kk: int| 0 <= kk < adj(edges, cur).len() && #[trigger] adj(edges, cur)[kk] == n;
                assert(vert_set(edges).contains(adj(edges, cur)[kk]));
                lemma_walk(edges, start, n, cur, vis2, acc2);
                let (lv, vis) = walk(edges, start, n, cur, vis2, acc2);
                assert(walk(edges, start, cur, prev, visited, acc) == (lv, vis));
                assert forall|i: int| 0 <= i < a implies #[trigger] lv[i] == acc[i] by {
                    assert(lv[i] == acc2[i]);
                }
                assert(lv[a] == acc2[a]);
                assert forall|i: int|
                    a <= i < lv.len() implies vert_set(edges).contains(#[trigger] lv[i])
                        && !visited.contains(lv[i]) by {
                    if i > a {
                        assert(!vis2.contains(lv[i]));
                    }
                }
                assert forall|i: int, j: int| a <= i < j < lv.len() implies #[trigger] lv[i]
                    != #[trigger] lv[j] by {
                    if i == a {
                        assert(!vis2.contains(lv[j]));
                    }
                }
                assert forall|i: int| a <= i < lv.len() - 1 implies adj(edges, #[trigger] lv[i]).contains(
                    lv[i + 1],
                ) by {
                    if i == a {
                        assert(lv[a + 1] == n);
                        assert(adj(edges, cur)[kk] == n);
                    }
                }
                assert forall|v: u32| #[trigger] vis.contains(v) <==> (visited.contains(v) || exists|i: int|
                    a <= i < lv.len() && #[trigger] lv[i] == v) by {
                    if vis.contains(v) && !visited.contains(v) {
                        if v == cur {
                            assert(lv[a] == v);
                        } else {
                            assert(exists|i: int| a + 1 <= i < lv.len() && #[trigger] lv[i] == v);
                        }
                    }
                    if exists|i: int| a <= i < lv.len() && #[trigger] lv[i] == v {
                        let i = choose|i: int| a <= i < lv.len() && #[trigger] lv[i] == v;
                        if i == a {
                            assert(vis2.contains(v));
                        } else {
                            assert(exists|i2: int| a + 1 <= i2 < lv.len() && #[trigger] lv[i2] == v);
                        }
                    }
                }
                assert(walk_adds(edges, visited, cur, acc, lv, vis));
            } else {
                assert(walk(edges, start, cur, prev, visited, acc) == (acc2, vis2));
                assert forall|v: u32| #[trigger] vis2.contains(v) <==> (visited.contains(v) || exists|i: int|
                    a <= i < acc2.len() && #[trigger] acc2[i] == v) by {
                    if v == cur {
                        assert(acc2[a] == v);
                    }
                }
                assert(walk_adds(edges, visited, cur, acc, acc2, vis2));
            }
        },
        None => {
            assert(walk(edges, start, cur, prev, visited, acc) == (acc2, vis2));
            assert forall|v: u32| #[trigger] vis2.contains(v) <==> (visited.contains(v) || exists|i: int|
                a <= i < acc2.len() && #[trigger] acc2[i] == v) by {
                if v == cur {
                    assert(acc2[a] == v);
                }
            }
            assert(walk_adds(edges, visited, cur, acc, acc2, vis2));
        },
    }
}

/// The loops after the first `k` edges are walks of at least three edge
/// vertices, none repeated, each joined by an edge to the next; no vertex
/// lies on two loops; and every loop vertex has been visited.
proof fn lemma_loops_upto(edges: Seq<(u32, u32)>, k: nat)
    requires
        k <= edges.len(),
    ensures
        ({
            let (ls, vis) = loops_upto(edges, k);
            &&& vis.finite()
            &&& vis.subset_of(vert_set(edges))
            &&& forall|i: int, p: int|
                0 <= i < ls.len() && 0 <= p < ls[i].len() ==> vis.contains(#[trigger] ls[i][p])
            &&& loops_shape(edges, ls)
        }),
    decreases k,
{
    lemma_vert_set_finite(edges);
    if k > 0 {
        lemma_loops_upto(edges, (k - 1) as nat);
        let (ls, vis) = loops_upto(edges, (k - 1) as nat);
        let start = edges[k - 1].0;
        if !vis.contains(start) {
            lemma_take_step(edges, k - 1);
            lemma_vert_set_grows(edges, k as int);
            lemma_walk(edges, start, start, u32::MAX, vis, Seq::empty());
            let (lv, vis2) = walk(edges, start, start, u32::MAX, vis, Seq::empty());
            if lv.len() >= 3 {
                let ls2 = ls.push(lv);
                assert forall|i: int, p: int|
                    0 <= i < ls2.len() && 0 <= p < ls2[i].len() implies vis2.contains(#[trigger] ls2[i][p]) by {
                    if i < ls.len() {
                        assert(ls2[i] == ls[i]);
                        assert(vis.contains(ls[i][p]));
                    } else {
                        assert(ls2[i] == lv);
                        assert(exists|q: int| 0 <= q < lv.len() && #[trigger] lv[q] == lv[p]);
                    }
                }
                assert forall|i: int, j: int, p: int, q: int|
                    0 <= i < j < ls2.len() && 0 <= p < ls2[i].len() && 0 <= q < ls2[j].len()
                        implies #[trigger] ls2[i][p] != #[trigger] ls2[j][q] by {
                    assert(ls2[i] == ls[i]);
                    assert(vis.contains(ls[i][p]));
                    if j == ls.len() {
                        assert(ls2[j] == lv);
                        assert(!vis.contains(lv[q]));
                    } else {
                        assert(ls2[j] == ls[j]);
                    }
                }
                assert forall|i: int| 0 <= i < ls2.len() implies loop_ok(edges, #[trigger] ls2[i]) by {
                    if i < ls.len() {
                        assert(ls2[i] == ls[i]);
                    } else {
                        assert(ls2[i] == lv);
                    }
                }
            } else {
                assert forall|i: int, p: int|
                    0 <= i < ls.len() && 0 <= p < ls[i].len() implies vis2.contains(#[trigger] ls[i][p]) by {
                    assert(vis.contains(ls[i][p]));
                }
            }
        }
    }
}

/// One traced loop: at least three edge vertices, none repeated, each
/// joined by an edge to the next.
pub open spec fn loop_ok(edges: Seq<(u32, u32)>, lv: Seq<u32>) -> bool {
    &&& lv.len() >= 3
    &&& forall|p: int| 0 <= p < lv.len() ==> vert_set(edges).contains(#[trigger] lv[p])
    &&& forall|p: int, q: int| 0 <= p < q < lv.len() ==> #[trigger] lv[p] != #[trigger] lv[q]
    &&& forall|p: int| 0 <= p < lv.len() - 1 ==> adj(edges, #[trigger] lv[p]).contains(lv[p + 1])
}

/// Every loop is well formed and no vertex lies on two loops.
pub open spec fn loops_shape(edges: Seq<(u32, u32)>, ls: Seq<Seq<u32>>) -> bool {
    &&& forall|i: int| 0 <= i < ls.len() ==> loop_ok(edges, #[trigger] ls[i])
    &&& forall|i: int, j: int, p: int, q: int|
        0 <= i < j < ls.len() && 0 <= p < ls[i].len() && 0 <= q < ls[j].len() ==> #[trigger] ls[i][p]
            != #[trigger] ls[j][q]
}

/// The traced loops of any edge list are well formed: each has at least
/// three vertices, all edge vertices and all different, each joined by an
/// edge to the next, and no vertex lies on two loops.
pub proof fn lemma_boundary_loops_shape(edges: Seq<(u32, u32)>)
    ensures
        loops_shape(edges, boundary_loops(edges)),
{
    lemma_loops_upto(edges, edges.len());
}

/// The edges of a simple cycle through the distinct vertices `v`, in order:
/// edge `k` joins `v[k]` to `v[(k + 1) % n]`.
pub open spec fn is_cycle_of(edges: Seq<(u32, u32)>, v: Seq<u32>) -> bool {
    &&& v.len() >= 3
    &&& forall|i: int, j: int| 0 <= i < j < v.len() ==> v[i] != v[j]
    &&& edges.len() == v.len()
    &&& forall|k: int| 0 <= k < v.len() ==> #[trigger] edges[k] == (v[k], v[(k + 1) % (v.len() as int)])
}

/// Every vertex of an edge is an edge vertex.
proof fn lemma_edge_ends_in_verts(edges: Seq<(u32, u32)>)
    ensures
        forall|j: int|
            0 <= j < edges.len() ==> vert_set(edges).contains(#[trigger] edges[j].0) && vert_set(
                edges,
            ).contains(edges[j].1),
    decreases edges.len(),
{
    if edges.len() > 0 {
        let t = edges.drop_last();
        lemma_edge_ends_in_verts(t);
        assert forall|j: int| 0 <= j < edges.len() implies vert_set(edges).contains(
            #[trigger] edges[j].0,
        ) && vert_set(edges).contains(edges[j].1) by {
            if j < t.len() {
                assert(edges[j] == t[j]);
            }
        }
    }
}

/// Along a cycle, vertex `v[k]` has its predecessor and its successor as
/// neighbors, in the order of the edges that give them.
proof fn lemma_cycle_adj(edges: Seq<(u32, u32)>, v: Seq<u32>, m: int, k: int)
    requires
        is_cycle_of(edges, v),
        0 <= m <= v.len(),
        0 <= k < v.len(),
    ensures
        k >= 1 ==> adj(edges.take(m), v[k]) == (if k - 1 < m {
            seq![v[k - 1]]
        } else {
            Seq::<u32>::empty()
        }) + (if k < m {
            seq![v[if k == v.len() - 1 { 0 } else { k + 1 }]]
        } else {
            Seq::<u32>::empty()
        }),
        k == 0 ==> adj(edges.take(m), v[k]) == (if 0 < m {
            seq![v[1]]
        } else {
            Seq::<u32>::empty()
        }) + (if v.len() - 1 < m {
            seq![v[v.len() - 1]]
        } else {
            Seq::<u32>::empty()
        }),
    decreases m,
{
    let n = v.len() as int;
    if m == 0 {
        assert(edges.take(0) =~= Seq::<(u32, u32)>::empty());
        assert(adj(edges.take(0), v[k]) =~= Seq::<u32>::empty());
    } else {
        let i = m - 1;
        lemma_cycle_adj(edges, v, i, k);
        lemma_take_step(edges, i);
        let e = edges[i];
        let si = if i == n - 1 { 0 } else { i + 1 };
        if i == n - 1 {
            vstd::arithmetic::div_mod::lemma_fundamental_div_mod_converse(i + 1, n, 1, 0);
        } else {
            vstd::arithmetic::div_mod::lemma_fundamental_div_mod_converse(i + 1, n, 0, i + 1);
        }
        assert(e == (v[i], v[si]));
        assert(e.0 == v[k] <==> i == k);
        assert(e.1 == v[k] <==> si == k);
        let prev = adj(edges.take(i), v[k]);
        assert(adj(edges.take(m), v[k]) == prev + (if e.0 == v[k] {
            seq![e.1]
        } else {
            Seq::<u32>::empty()
        }) + (if e.1 == v[k] {
            seq![e.0]
        } else {
            Seq::<u32>::empty()
        }));
        if k >= 1 {
            assert(adj(edges.take(m), v[k]) =~= (if k - 1 < m {
                seq![v[k - 1]]
            } else {
                Seq::<u32>::empty()
            }) + (if k < m {
                seq![v[if k == n - 1 { 0 } else { k + 1 }]]
            } else {
                Seq::<u32>::empty()
            }));
        } else {
            assert(adj(edges.take(m), v[k]) =~= (if 0 < m {
                seq![v[1]]
            } else {
                Seq::<u32>::empty()
            }) + (if n - 1 < m {
                seq![v[n - 1]]
            } else {
                Seq::<u32>::empty()
            }));
        }
    }
}

/// From vertex `v[k]` (`k >= 1`), reached from `v[k - 1]`, the walk goes on
/// around the cycle and stops on coming back to `v[0]`.
proof fn lemma_cycle_walk(edges: Seq<(u32, u32)>, v: Seq<u32>, k: int)
    requires
        is_cycle_of(edges, v),
        1 <= k < v.len(),
    ensures
        walk(edges, v[0], v[k], v[k - 1], v.take(k).to_set(), v.take(k)) == (v, v.to_set()),
    decreases v.len() - k,
{
    broadcast use vstd::seq_lib::seq_to_set_is_finite;

    let n = v.len() as int;
    assert(edges.take(n) =~= edges);
    lemma_cycle_adj(edges, v, n, k);
    lemma_edge_ends_in_verts(edges);
    let sk = if k == n - 1 { 0 } else { k + 1 };
    let ns = adj(edges, v[k]);
    assert(ns =~= seq![v[k - 1], v[sk]]);
    assert(ns[0] == v[k - 1]);
    assert(v[sk] != v[k - 1]);
    assert(first_other_from(ns, v[k - 1], 1) == Some(v[sk]));
    assert(first_other_from(ns, v[k - 1], 0) == Some(v[sk]));
    let visited = v.take(k).to_set();
    let vis2 = visited.insert(v[k]);
    let acc2 = v.take(k).push(v[k]);
    assert(vis2 =~= v.take(k + 1).to_set()) by {
        assert forall|x: u32| vis2.contains(x) <==> v.take(k + 1).contains(x) by {
            if v.take(k + 1).contains(x) {
                let j = choose|j: int| 0 <= j < k + 1 && #[trigger] v.take(k + 1)[j] == x;
                if j < k {
                    assert(v.take(k)[j] == x);
                }
            }
            if v.take(k).contains(x) {
                let j = choose|j: int| 0 <= j < k && #[trigger] v.take(k)[j] == x;
                assert(v.take(k + 1)[j] == x);
            }
            if x == v[k] {
                assert(v.take(k + 1)[k] == x);
            }
        }
    }
    assert(acc2 =~= v.take(k + 1));
    assert(edges[k].0 == v[k]);
    assert(vert_set(edges).contains(v[k]));
    assert(!visited.contains(v[k])) by {
        if v.take(k).contains(v[k]) {
            let j = choose|j: int| 0 <= j < k && #[trigger] v.take(k)[j] == v[k];
        }
    }
    assert(visited.subset_of(vert_set(edges))) by {
        assert forall|x: u32| visited.contains(x) implies vert_set(edges).contains(x) by {
            let j = choose|j: int| 0 <= j < k && #[trigger] v.take(k)[j] == x;
            assert(edges[j].0 == v[j]);
        }
    }
    if k == n - 1 {
        assert(v.take(n) =~= v);
    } else {
        assert(!vis2.contains(v[k + 1])) by {
            if v.take(k + 1).contains(v[k + 1]) {
                let j = choose|j: int| 0 <= j < k + 1 && #[trigger] v.take(k + 1)[j] == v[k + 1];
            }
        }
        assert(v[k + 1] != v[0]);
        lemma_cycle_walk(edges, v, k + 1);
    }
}

/// The edges of a simple cycle through the distinct vertices `v`, listed in
/// cycle order, trace to exactly one loop: `v` itself, every vertex of the
/// cycle in order. (When `v[1]` is `u32::MAX`, which the walk takes for
/// "no previous vertex", the loop is traced the other way round.)
pub proof fn lemma_cycle_traces_one_loop(edges: Seq<(u32, u32)>, v: Seq<u32>)
    requires
        is_cycle_of(edges, v),
        v[1] != u32::MAX,
    ensures
        boundary_loops(edges) == seq![v],
{
    broadcast use vstd::seq_lib::seq_to_set_is_finite;

    let n = v.len() as int;
    assert(edges.take(n) =~= edges);
    lemma_cycle_adj(edges, v, n, 0);
    lemma_edge_ends_in_verts(edges);
    let ns = adj(edges, v[0]);
    assert(ns =~= seq![v[1], v[n - 1]]);
    assert(first_other_from(ns, u32::MAX, 0) == Some(v[1]));
    assert(edges[0].0 == v[0]);
    assert(Set::<u32>::empty().insert(v[0]) =~= v.take(1).to_set()) by {
        assert forall|x: u32| Set::<u32>::empty().insert(v[0]).contains(x) <==> v.take(1).contains(x) by {
            if x == v[0] {
                assert(v.take(1)[0] == x);
            }
        }
    }
    assert(Seq::<u32>::empty().push(v[0]) =~= v.take(1));
    assert(v[1] != v[0]);
    assert(!v.take(1).to_set().contains(v[1])) by {
        if v.take(1).contains(v[1]) {
            let j = choose|j: int| 0 <= j < 1 && #[trigger] v.take(1)[j] == v[1];
        }
    }
    lemma_cycle_walk(edges, v, 1);
    assert(walk(edges, v[0], v[0], u32::MAX, Set::empty(), Seq::empty()) == (v, v.to_set()));
    lemma_cycle_loops(edges, v, n);
}

/// After the first `m >= 1` edges of a cycle, the one loop has been traced
/// and every cycle vertex visited.
proof fn lemma_cycle_loops(edges: Seq<(u32, u32)>, v: Seq<u32>, m: int)
    requires
        is_cycle_of(edges, v),
        1 <= m <= v.len(),
        walk(edges, v[0], v[0], u32::MAX, Set::empty(), Seq::empty()) == (v, v.to_set()),
    ensures
        loops_upto(edges, m as nat) == (seq![v], v.to_set()),
    decreases m,
{
    if m == 1 {
        assert(loops_upto(edges, 0) == (Seq::<Seq<u32>>::empty(), Set::<u32>::empty()));
        assert(edges[0].0 == v[0]);
        assert(!Set::<u32>::empty().contains(v[0]));
        assert(Seq::<Seq<u32>>::empty().push(v) =~= seq![v]);
    } else {
        lemma_cycle_loops(edges, v, m - 1);
        assert(edges[m - 1].0 == v[m - 1]);
        assert(v.contains(v[m - 1]));
        assert(v.to_set().contains(v[m - 1]));
    }
}

/// Index of the vertex after `k` around a cycle of `n`.
spec fn succ_i(n: int, k: int) -> int {
    if k == n - 1 {
        0
    } else {
        k + 1
    }
}

/// Index of the vertex before `k` around a cycle of `n`.
spec fn pred_i(n: int, k: int) -> int {
    if k == 0 {
        n - 1
    } else {
        k - 1
    }
}

/// The edges of a simple cycle through the distinct vertices `v`, in any
/// order and either orientation: edge `j` joins `v[pos[j]]` and
/// `v[(pos[j] + 1) % n]`, and each of the `n` cycle edges comes exactly once.
pub open spec fn is_cycle_edges(edges: Seq<(u32, u32)>, v: Seq<u32>, pos: Seq<int>) -> bool {
    let n = v.len() as int;
    &&& n >= 3
    &&& forall|i: int, j: int| 0 <= i < j < n ==> v[i] != v[j]
    &&& edges.len() == n
    &&& pos.len() == n
    &&& forall|j: int| 0 <= j < n ==> 0 <= #[trigger] pos[j] < n
    &&& forall|i: int, j: int| 0 <= i < j < n ==> pos[i] != pos[j]
    &&& forall|k: int| 0 <= k < n ==> #[trigger] pos.contains(k)
    &&& forall|j: int|
        0 <= j < n ==> #[trigger] edges[j] == (v[pos[j]], v[(pos[j] + 1) % n]) || edges[j] == (
            v[(pos[j] + 1) % n],
            v[pos[j]],
        )
}

/// Every vertex of `u` has exactly two neighbors along `edges`: the ones
/// before and after it around `u`.
spec fn nb_ok(edges: Seq<(u32, u32)>, u: Seq<u32>) -> bool {
    forall|k: int|
        0 <= k < u.len() ==> #[trigger] adj(edges, u[k]).len() == 2 && adj(edges, u[k]).contains(
            u[pred_i(u.len() as int, k)],
        ) && adj(edges, u[k]).contains(u[succ_i(u.len() as int, k)])
}

spec fn distinct(u: Seq<u32>) -> bool {
    forall|i: int, j: int| 0 <= i < j < u.len() ==> u[i] != u[j]
}

/// The neighbors of `v[k]` among the first `m` edges of a cycle: its
/// successor once edge `j1` (the one at `k`) is in, its predecessor once
/// edge `j2` (the one before `k`) is in, in edge order.
proof fn lemma_cycle_adj_any(
    edges: Seq<(u32, u32)>,
    v: Seq<u32>,
    pos: Seq<int>,
    k: int,
    j1: int,
    j2: int,
    m: int,
)
    requires
        is_cycle_edges(edges, v, pos),
        0 <= k < v.len(),
        0 <= j1 < v.len(),
        0 <= j2 < v.len(),
        pos[j1] == k,
        pos[j2] == pred_i(v.len() as int, k),
        0 <= m <= v.len(),
    ensures
        adj(edges.take(m), v[k]) == if j1 < m && j2 < m {
            if j1 < j2 {
                seq![v[succ_i(v.len() as int, k)], v[pred_i(v.len() as int, k)]]
            } else {
                seq![v[pred_i(v.len() as int, k)], v[succ_i(v.len() as int, k)]]
            }
        } else if j1 < m {
            seq![v[succ_i(v.len() as int, k)]]
        } else if j2 < m {
            seq![v[pred_i(v.len() as int, k)]]
        } else {
            Seq::<u32>::empty()
        },
    decreases m,
{
    let n = v.len() as int;
    if m == 0 {
        assert(edges.take(0) =~= Seq::<(u32, u32)>::empty());
        assert(adj(edges.take(0), v[k]) =~= Seq::<u32>::empty());
    } else {
        let i = m - 1;
        lemma_cycle_adj_any(edges, v, pos, k, j1, j2, i);
        lemma_take_step(edges, i);
        let q = pos[i];
        assert(0 <= q < n);
        if q == n - 1 {
            vstd::arithmetic::div_mod::lemma_fundamental_div_mod_converse(q + 1, n, 1, 0);
        } else {
            vstd::arithmetic::div_mod::lemma_fundamental_div_mod_converse(q + 1, n, 0, q + 1);
        }
        let sq = succ_i(n, q);
        assert(edges[i] == (v[q], v[sq]) || edges[i] == (v[sq], v[q]));
        assert(v[q] != v[sq]);
        assert(v[q] == v[k] <==> q == k);
        assert(v[sq] == v[k] <==> q == pred_i(n, k));
        assert(q == k <==> i == j1);
        assert(q == pred_i(n, k) <==> i == j2);
        assert(j1 != j2);
        let e = edges[i];
        let old = adj(edges.take(i), v[k]);
        assert(adj(edges.take(m), v[k]) == old + (if e.0 == v[k] {
            seq![e.1]
        } else {
            Seq::<u32>::empty()
        }) + (if e.1 == v[k] {
            seq![e.0]
        } else {
            Seq::<u32>::empty()
        }));
        assert(adj(edges.take(m), v[k]) =~= if j1 < m && j2 < m {
            if j1 < j2 {
                seq![v[succ_i(n, k)], v[pred_i(n, k)]]
            } else {
                seq![v[pred_i(n, k)], v[succ_i(n, k)]]
            }
        } else if j1 < m {
            seq![v[succ_i(n, k)]]
        } else if j2 < m {
            seq![v[pred_i(n, k)]]
        } else {
            Seq::<u32>::empty()
        });
    }
}

/// The vertices of a cycle, however its edges are listed, each have their
/// two cycle neighbors and no other.
proof fn lemma_cycle_nb(edges: Seq<(u32, u32)>, v: Seq<u32>, pos: Seq<int>)
    requires
        is_cycle_edges(edges, v, pos),
    ensures
        nb_ok(edges, v),
{
    let n = v.len() as int;
    assert(edges.take(n) =~= edges);
    assert forall|k: int| 0 <= k < n implies #[trigger] adj(edges, v[k]).len() == 2 && adj(
        edges,
        v[k],
    ).contains(v[pred_i(n, k)]) && adj(edges, v[k]).contains(v[succ_i(n, k)]) by {
        let pk = pred_i(n, k);
        assert(0 <= pk < n);
        assert(pos.contains(k) && pos.contains(pk));
        let j1 = choose|j: int| 0 <= j < pos.len() && #[trigger] pos[j] == k;
        let j2 = choose|j: int| 0 <= j < pos.len() && #[trigger] pos[j] == pk;
        lemma_cycle_adj_any(edges, v, pos, k, j1, j2, n);
        let a = adj(edges, v[k]);
        if j1 < j2 {
            assert(a[0] == v[succ_i(n, k)] && a[1] == v[pk]);
        } else {
            assert(a[0] == v[pk] && a[1] == v[succ_i(n, k)]);
        }
    }
}

/// A two-element list holding `a` and `b`, which differ, holds them in one
/// order or the other; the first of them other than `a` is `b`.
proof fn lemma_pair_other(ns: Seq<u32>, a: u32, b: u32)
    requires
        ns.len() == 2,
        ns.contains(a),
        ns.contains(b),
        a != b,
    ensures
        (ns[0] == a && ns[1] == b) || (ns[0] == b && ns[1] == a),
        first_other_from(ns, a, 0) == Some(b),
{
    let i = choose|i: int| 0 <= i < 2 && ns[i] == a;
    let j = choose|j: int| 0 <= j < 2 && ns[j] == b;
    if ns[0] == a {
        assert(first_other_from(ns, a, 1) == Some(ns[1]));
    }
}

/// `u` rotated to begin at index `p`.
spec fn rot(u: Seq<u32>, p: int) -> Seq<u32> {
    Seq::new(
        u.len(),
        |k: int|
            if k + p < u.len() {
                u[k + p]
            } else {
                u[k + p - u.len()]
            },
    )
}

/// `u` in reverse order.
spec fn rev(u: Seq<u32>) -> Seq<u32> {
    Seq::new(u.len(), |k: int| u[u.len() - 1 - k])
}

proof fn lemma_rot(edges: Seq<(u32, u32)>, u: Seq<u32>, p: int)
    requires
        u.len() >= 3,
        0 <= p < u.len(),
        distinct(u),
        nb_ok(edges, u),
    ensures
        distinct(rot(u, p)),
        nb_ok(edges, rot(u, p)),
        rot(u, p).len() == u.len(),
        forall|i: int| 0 <= i < u.len() ==> rot(u, p).contains(#[trigger] u[i]),
        forall|i: int| 0 <= i < u.len() ==> u.contains(#[trigger] rot(u, p)[i]),
{
    let n = u.len() as int;
    let w = rot(u, p);
    assert forall|i: int, j: int| 0 <= i < j < n implies w[i] != w[j] by {}
    assert forall|k: int| 0 <= k < n implies #[trigger] adj(edges, w[k]).len() == 2 && adj(
        edges,
        w[k],
    ).contains(w[pred_i(n, k)]) && adj(edges, w[k]).contains(w[succ_i(n, k)]) by {
        let kk = if k + p < n { k + p } else { k + p - n };
        assert(w[k] == u[kk]);
        assert(adj(edges, u[kk]).len() == 2);
        assert(w[pred_i(n, k)] == u[pred_i(n, kk)]);
        assert(w[succ_i(n, k)] == u[succ_i(n, kk)]);
    }
    assert forall|i: int| 0 <= i < n implies w.contains(#[trigger] u[i]) by {
        let k = if i >= p { i - p } else { i - p + n };
        assert(w[k] == u[i]);
    }
    assert forall|i: int| 0 <= i < n implies u.contains(#[trigger] w[i]) by {
        let kk = if i + p < n { i + p } else { i + p - n };
        assert(w[i] == u[kk]);
    }
}

proof fn lemma_rev(edges: Seq<(u32, u32)>, u: Seq<u32>)
    requires
        u.len() >= 3,
        distinct(u),
        nb_ok(edges, u),
    ensures
        distinct(rev(u)),
        nb_ok(edges, rev(u)),
        rev(u).len() == u.len(),
        forall|i: int| 0 <= i < u.len() ==> rev(u).contains(#[trigger] u[i]),
        forall|i: int| 0 <= i < u.len() ==> u.contains(#[trigger] rev(u)[i]),
{
    let n = u.len() as int;
    let w = rev(u);
    assert forall|i: int, j: int| 0 <= i < j < n implies w[i] != w[j] by {
        assert(w[i] == u[n - 1 - i] && w[j] == u[n - 1 - j]);
    }
    assert forall|k: int| 0 <= k < n implies #[trigger] adj(edges, w[k]).len() == 2 && adj(
        edges,
        w[k],
    ).contains(w[pred_i(n, k)]) && adj(edges, w[k]).contains(w[succ_i(n, k)]) by {
        let kk = n - 1 - k;
        assert(w[k] == u[kk]);
        assert(adj(edges, u[kk]).len() == 2);
        assert(w[pred_i(n, k)] == u[succ_i(n, kk)]);
        assert(w[succ_i(n, k)] == u[pred_i(n, kk)]);
    }
    assert forall|i: int| 0 <= i < n implies w.contains(#[trigger] u[i]) by {
        assert(w[n - 1 - i] == u[i]);
    }
    assert forall|i: int| 0 <= i < n implies u.contains(#[trigger] w[i]) by {
        assert(w[i] == u[n - 1 - i]);
    }
}

/// From `u[k]` (`k >= 1`), reached from `u[k - 1]`, the walk goes on around
/// `u` and stops on coming back to `u[0]`.
proof fn lemma_nb_walk(edges: Seq<(u32, u32)>, u: Seq<u32>, k: int)
    requires
        u.len() >= 3,
        distinct(u),
        nb_ok(edges, u),
        1 <= k < u.len(),
    ensures
        walk(edges, u[0], u[k], u[k - 1], u.take(k).to_set(), u.take(k)) == (u, u.to_set()),
    decreases u.len() - k,
{
    broadcast use vstd::seq_lib::seq_to_set_is_finite;

    let n = u.len() as int;
    let sk = succ_i(n, k);
    assert(pred_i(n, k) == k - 1);
    let ns = adj(edges, u[k]);
    assert(ns.len() == 2);
    lemma_pair_other(ns, u[k - 1], u[sk]);
    assert forall|j: int| 0 <= j < n implies vert_set(edges).contains(#[trigger] u[j]) by {
        assert(adj(edges, u[j]).len() == 2);
        lemma_adj_in_verts(edges, u[j]);
    }
    let visited = u.take(k).to_set();
    let vis2 = visited.insert(u[k]);
    let acc2 = u.take(k).push(u[k]);
    assert(vis2 =~= u.take(k + 1).to_set()) by {
        assert forall|x: u32| vis2.contains(x) <==> u.take(k + 1).contains(x) by {
            if u.take(k + 1).contains(x) {
                let j = choose|j: int| 0 <= j < k + 1 && #[trigger] u.take(k + 1)[j] == x;
                if j < k {
                    assert(u.take(k)[j] == x);
                }
            }
            if u.take(k).contains(x) {
                let j = choose|j: int| 0 <= j < k && #[trigger] u.take(k)[j] == x;
                assert(u.take(k + 1)[j] == x);
            }
            if x == u[k] {
                assert(u.take(k + 1)[k] == x);
            }
        }
    }
    assert(acc2 =~= u.take(k + 1));
    assert(!visited.contains(u[k])) by {
        if u.take(k).contains(u[k]) {
            let j = choose|j: int| 0 <= j < k && #[trigger] u.take(k)[j] == u[k];
        }
    }
    assert(visited.subset_of(vert_set(edges))) by {
        assert forall|x: u32| visited.contains(x) implies vert_set(edges).contains(x) by {
            let j = choose|j: int| 0 <= j < k && #[trigger] u.take(k)[j] == x;
            assert(u[j] == x);
        }
    }
    if k == n - 1 {
        assert(u.take(n) =~= u);
    } else {
        assert(!vis2.contains(u[k + 1])) by {
            if u.take(k + 1).contains(u[k + 1]) {
                let j = choose|j: int| 0 <= j < k + 1 && #[trigger] u.take(k + 1)[j] == u[k + 1];
            }
        }
        assert(u[k + 1] != u[0]);
        lemma_nb_walk(edges, u, k + 1);
    }
}

/// After the first `m >= 1` edges, the loop `u` has been traced, when every
/// edge starts at a vertex of `u`.
proof fn lemma_nb_loops(edges: Seq<(u32, u32)>, u: Seq<u32>, m: int)
    requires
        u.len() >= 3,
        1 <= m <= edges.len(),
        walk(edges, edges[0].0, edges[0].0, u32::MAX, Set::empty(), Seq::empty()) == (u, u.to_set()),
        forall|j: int| 0 <= j < edges.len() ==> u.contains(#[trigger] edges[j].0),
    ensures
        loops_upto(edges, m as nat) == (seq![u], u.to_set()),
    decreases m,
{
    if m == 1 {
        assert(loops_upto(edges, 0) == (Seq::<Seq<u32>>::empty(), Set::<u32>::empty()));
        assert(!Set::<u32>::empty().contains(edges[0].0));
        assert(Seq::<Seq<u32>>::empty().push(u) =~= seq![u]);
    } else {
        lemma_nb_loops(edges, u, m - 1);
        assert(u.contains(edges[m - 1].0));
        assert(u.to_set().contains(edges[m - 1].0));
    }
}

/// The cycle `v` read from the first vertex of the first edge, in the
/// direction in which the walk leaves it.
proof fn lemma_cycle_orient(edges: Seq<(u32, u32)>, v: Seq<u32>, pos: Seq<int>) -> (u: Seq<u32>)
    requires
        is_cycle_edges(edges, v, pos),
    ensures
        u.len() == v.len(),
        distinct(u),
        nb_ok(edges, u),
        u[0] == edges[0].0,
        first_other_from(adj(edges, u[0]), u32::MAX, 0) == Some(u[1]),
        forall|i: int| 0 <= i < v.len() ==> u.contains(#[trigger] v[i]),
        forall|i: int| 0 <= i < v.len() ==> v.contains(#[trigger] u[i]),
{
    let n = v.len() as int;
    lemma_cycle_nb(edges, v, pos);
    let q = pos[0];
    if q == n - 1 {
        vstd::arithmetic::div_mod::lemma_fundamental_div_mod_converse(q + 1, n, 1, 0);
    } else {
        vstd::arithmetic::div_mod::lemma_fundamental_div_mod_converse(q + 1, n, 0, q + 1);
    }
    let start = edges[0].0;
    let ps = if start == v[q] { q } else { succ_i(n, q) };
    assert(v[ps] == start);
    lemma_rot(edges, v, ps);
    let u1 = rot(v, ps);
    assert(u1[0] == start);
    let ns = adj(edges, start);
    assert(adj(edges, u1[0]).len() == 2);
    assert(ns.contains(u1[1]) && ns.contains(u1[n - 1]));
    lemma_pair_other(ns, u1[1], u1[n - 1]);
    let nb = if ns[0] != u32::MAX { ns[0] } else { ns[1] };
    assert(first_other_from(ns, u32::MAX, 0) == Some(nb)) by {
        if ns[0] == u32::MAX {
            assert(first_other_from(ns, u32::MAX, 1) == Some(ns[1]));
        }
    }
    if nb == u1[1] {
        u1
    } else {
        lemma_rev(edges, u1);
        let r = rev(u1);
        lemma_rot(edges, r, n - 1);
        let u = rot(r, n - 1);
        assert(u[0] == r[n - 1]);
        assert(u[1] == r[0]);
        assert forall|i: int| 0 <= i < n implies u.contains(#[trigger] v[i]) by {
            assert(u1.contains(v[i]));
            let j = choose|j: int| 0 <= j < n && u1[j] == v[i];
            assert(r.contains(u1[j]));
            let j2 = choose|j2: int| 0 <= j2 < n && r[j2] == u1[j];
            assert(u.contains(r[j2]));
        }
        assert forall|i: int| 0 <= i < n implies v.contains(#[trigger] u[i]) by {
            assert(r.contains(u[i]));
            let j = choose|j: int| 0 <= j < n && r[j] == u[i];
            assert(u1.contains(r[j]));
            let j2 = choose|j2: int| 0 <= j2 < n && u1[j2] == r[j];
            assert(v.contains(u1[j2]));
        }
        u
    }
}

/// Every edge of a cycle starts at a cycle vertex.
proof fn lemma_cycle_starts(edges: Seq<(u32, u32)>, v: Seq<u32>, pos: Seq<int>)
    requires
        is_cycle_edges(edges, v, pos),
    ensures
        forall|j: int| 0 <= j < edges.len() ==> v.contains(#[trigger] edges[j].0),
{
    let n = v.len() as int;
    assert forall|j: int| 0 <= j < n implies v.contains(#[trigger] edges[j].0) by {
        let qj = pos[j];
        if qj == n - 1 {
            vstd::arithmetic::div_mod::lemma_fundamental_div_mod_converse(qj + 1, n, 1, 0);
        } else {
            vstd::arithmetic::div_mod::lemma_fundamental_div_mod_converse(qj + 1, n, 0, qj + 1);
        }
        if edges[j].0 == v[qj] {
            assert(v[qj] == edges[j].0);
        } else {
            assert(v[succ_i(n, qj)] == edges[j].0);
        }
    }
}

/// The walk from the start of `u`, leaving towards `u[1]`, traces `u`.
proof fn lemma_nb_first_walk(edges: Seq<(u32, u32)>, u: Seq<u32>)
    requires
        u.len() >= 3,
        distinct(u),
        nb_ok(edges, u),
        first_other_from(adj(edges, u[0]), u32::MAX, 0) == Some(u[1]),
    ensures
        walk(edges, u[0], u[0], u32::MAX, Set::empty(), Seq::empty()) == (u, u.to_set()),
{
    assert(adj(edges, u[0]).len() == 2);
    lemma_adj_in_verts(edges, u[0]);
    assert(Set::<u32>::empty().insert(u[0]) =~= u.take(1).to_set()) by {
        assert forall|x: u32| Set::<u32>::empty().insert(u[0]).contains(x) <==> u.take(1).contains(x) by {
            if x == u[0] {
                assert(u.take(1)[0] == x);
            }
        }
    }
    assert(Seq::<u32>::empty().push(u[0]) =~= u.take(1));
    assert(u[1] != u[0]);
    assert(!u.take(1).to_set().contains(u[1])) by {
        if u.take(1).contains(u[1]) {
            let j = choose|j: int| 0 <= j < 1 && #[trigger] u.take(1)[j] == u[1];
        }
    }
    lemma_nb_walk(edges, u, 1);
}

/// However the edges of a simple cycle of at least three distinct vertices
/// are listed and oriented, tracing finds exactly one loop. It begins at the
/// first vertex of the first edge, has one entry per cycle vertex, holds
/// every vertex of the cycle, and goes around the cycle: each vertex is
/// followed by one of its two cycle neighbors.
pub proof fn lemma_any_cycle_traces_one_loop(edges: Seq<(u32, u32)>, v: Seq<u32>, pos: Seq<int>)
    requires
        is_cycle_edges(edges, v, pos),
    ensures
        boundary_loops(edges).len() == 1,
        boundary_loops(edges)[0].len() == v.len(),
        boundary_loops(edges)[0][0] == edges[0].0,
        forall|i: int| 0 <= i < v.len() ==> boundary_loops(edges)[0].contains(#[trigger] v[i]),
        forall|i: int|
            0 <= i < v.len() ==> v.contains(#[trigger] boundary_loops(edges)[0][i]),
        forall|i: int|
            0 <= i < v.len() - 1 ==> adj(edges, #[trigger] boundary_loops(edges)[0][i]).contains(
                boundary_loops(edges)[0][i + 1],
            ),
{
    let n = v.len() as int;
    let u = lemma_cycle_orient(edges, v, pos);
    lemma_nb_first_walk(edges, u);
    lemma_cycle_starts(edges, v, pos);
    assert forall|j: int| 0 <= j < edges.len() implies u.contains(#[trigger] edges[j].0) by {
        let i = choose|i: int| 0 <= i < n && v[i] == edges[j].0;
        assert(u.contains(v[i]));
    }
    lemma_nb_loops(edges, u, n);
    assert(boundary_loops(edges) == seq![u]);
    assert forall|i: int| 0 <= i < n - 1 implies adj(edges, #[trigger] u[i]).contains(u[i + 1]) by {
        assert(adj(edges, u[i]).len() == 2);
        assert(succ_i(n, i) == i + 1);
    }
}

/// The outer boundary of a mesh from its boundary edges and traced loops:
/// with at most one loop, every edge; otherwise the edges on loop `outer`,
/// the loop that the caller found to enclose the largest area.
pub fn outer_boundary_edges(edges: &[(u32, u32)], loops: &Vec<Vec<u32>>, outer: usize) -> (r: Vec<(u32, u32)>)
    requires
        loops@.len() <= 1 || outer < loops@.len(),
    ensures
        loops@.len() <= 1 ==> r@ == edges@,
        loops@.len() > 1 ==> r@ == edges_within(edges@, loops@[outer as int]@),
{
    if loops.len() <= 1 {
        let mut r: Vec<(u32, u32)> = Vec::new();
        let mut k: usize = 0;
        while k < edges.len()
            invariant
                k <= edges@.len(),
                r@ == edges@.take(k as int),
            decreases edges@.len() - k,
        {
            r.push(edges[k]);
            assert(edges@.take(k + 1) =~= edges@.take(k as int).push(edges@[k as int]));
            k = k + 1;
        }
        assert(edges@.take(edges@.len() as int) =~= edges@);
        r
    } else {
        edges_on_loop(edges, loops[outer].as_slice())
    }
}

/// The edges with both vertices in `lv`, in order, as the mesh's outer
/// boundary once `lv` is its outer loop.
pub fn edges_on_loop(edges: &[(u32, u32)], lv: &[u32]) -> (r: Vec<(u32, u32)>)
    ensures
        r@ == edges_within(edges@, lv@),
{
    broadcast use vstd::std_specs::hash::group_hash_axioms;

    let mut members: std::collections::HashSet<u32> = std::collections::HashSet::new();
    let mut i: usize = 0;
    while i < lv.len()
        invariant
            i <= lv@.len(),
            forall|v: u32| #[trigger] members@.contains(v) == lv@.take(i as int).contains(v),
        decreases lv@.len() - i,
    {
        members.insert(lv[i]);
        proof {
            assert forall|v: u32| #[trigger] members@.contains(v) == lv@.take(i + 1).contains(v) by {
                assert(lv@.take(i + 1) =~= lv@.take(i as int).push(lv@[i as int]));
                assert(lv@.take(i + 1)[i as int] == lv@[i as int]);
                if lv@.take(i as int).contains(v) {
                    let q = choose|q: int| 0 <= q < i && #[trigger] lv@.take(i as int)[q] == v;
                    assert(lv@.take(i + 1)[q] == v);
                }
                if lv@.take(i + 1).contains(v) {
                    let q = choose|q: int| 0 <= q < i + 1 && #[trigger] lv@.take(i + 1)[q] == v;
                    if q < i {
                        assert(lv@.take(i as int)[q] == v);
                    }
                }
            }
        }
        i = i + 1;
    }
    assert(lv@.take(lv@.len() as int) =~= lv@);
    let mut r: Vec<(u32, u32)> = Vec::new();
    let mut k: usize = 0;
    while k < edges.len()
        invariant
            k <= edges@.len(),
            forall|v: u32| #[trigger] members@.contains(v) == lv@.contains(v),
            r@ == edges_within(edges@.take(k as int), lv@),
        decreases edges@.len() - k,
    {
        let (a, b) = edges[k];
        proof {
            assert(edges@.take(k + 1).drop_last() =~= edges@.take(k as int));
            assert(edges@.take(k + 1).last() == edges@[k as int]);
        }
        if members.contains(&a) && members.contains(&b) {
            r.push((a, b));
        }
        proof {
            assert(r@ =~= edges_within(edges@.take(k + 1), lv@));
        }
        k = k + 1;
    }
    assert(edges@.take(edges@.len() as int) =~= edges@);
    r
}

} // verus!
