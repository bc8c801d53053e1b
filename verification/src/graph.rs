//! Walks over a concept hierarchy given as, for each node, the ascending list
//! of its direct parents; the ancestor closure of a node; and the shortest
//! walk between two nodes.
use crate::sorted::{idx_below, insert_idx, sorted_idx};
use crate::walk_order::{
    lemma_lex_asymmetric, lemma_lex_irreflexive, lemma_lex_push, lemma_lex_total, lemma_lex_transitive,
    lemma_tree_path_len, lemma_tree_path_stable, lex_lt, pred_chain, tp, tree_path,
};
use vstd::prelude::*;

verus! {

/// The lists held by a vector of index vectors.
pub open spec fn lists_of(v: Seq<Vec<usize>>) -> Seq<Seq<usize>> {
    v.map_values(|l: Vec<usize>| l@)
}

/// Every parent index names a node.
pub open spec fn graph_wf(ps: Seq<Seq<usize>>) -> bool {
    forall|i: int| 0 <= i < ps.len() ==> idx_below(#[trigger] ps[i], ps.len() as int)
}

/// `j` is a direct parent of `i`.
pub open spec fn has_edge(ps: Seq<Seq<usize>>, i: int, j: int) -> bool {
    &&& 0 <= i < ps.len()
    &&& 0 <= j < ps.len()
    &&& ps[i].contains(j as usize)
}

/// The `k`-th step of `w` follows a parent edge.
pub open spec fn step(ps: Seq<Seq<usize>>, w: Seq<int>, k: int) -> bool {
    has_edge(ps, w[k], w[k + 1])
}

/// A non-empty sequence of nodes, each a direct parent of the one before.
pub open spec fn is_walk(ps: Seq<Seq<usize>>, w: Seq<int>) -> bool {
    &&& w.len() >= 1
    &&& forall|k: int| 0 <= k < w.len() ==> 0 <= #[trigger] w[k] < ps.len()
    &&& forall|k: int| 0 <= k < w.len() - 1 ==> #[trigger] step(ps, w, k)
}

/// A walk from `i` to `j`.
pub open spec fn walk_between(ps: Seq<Seq<usize>>, w: Seq<int>, i: int, j: int) -> bool {
    is_walk(ps, w) && w[0] == i && w.last() == j
}

/// `j` is an ancestor of `i`: reached by at least one parent step.
pub open spec fn reaches(ps: Seq<Seq<usize>>, i: int, j: int) -> bool {
    exists|w: Seq<int>| #[trigger] walk_between(ps, w, i, j) && w.len() >= 2
}

/// A walk from `i` to `j` with no shorter walk between them.
pub open spec fn is_shortest_walk(ps: Seq<Seq<usize>>, w: Seq<int>, i: int, j: int) -> bool {
    &&& walk_between(ps, w, i, j)
    &&& forall|q: Seq<int>| #[trigger] walk_between(ps, q, i, j) ==> w.len() <= q.len()
}

/// A shortest walk from `i` to `j` that no other shortest walk precedes in
/// lexicographic order: the first of them, node by node.
pub open spec fn is_first_shortest_walk(ps: Seq<Seq<usize>>, w: Seq<int>, i: int, j: int) -> bool {
    &&& is_shortest_walk(ps, w, i, j)
    &&& forall|q: Seq<int>| #[trigger] is_shortest_walk(ps, q, i, j) ==> !lex_lt(q, w)
}

/// One walk at most is the first shortest walk between two nodes, so a
/// witness chain is determined by its endpoints.
pub proof fn law_first_shortest_walk_unique(ps: Seq<Seq<usize>>, w1: Seq<int>, w2: Seq<int>, i: int, j: int)
    requires
        is_first_shortest_walk(ps, w1, i, j),
        is_first_shortest_walk(ps, w2, i, j),
    ensures
        w1 == w2,
{
    assert(is_shortest_walk(ps, w2, i, j));
    assert(is_shortest_walk(ps, w1, i, j));
    assert(walk_between(ps, w1, i, j));
    assert(walk_between(ps, w2, i, j));
    assert(w1.len() == w2.len());
    lemma_lex_total(w1, w2);
}

/// The set of ancestors of `i`, as indices.
pub open spec fn ancestor_set(ps: Seq<Seq<usize>>, i: int) -> Set<usize> {
    Set::new(|j: usize| reaches(ps, i, j as int))
}

/// A distinct sequence of indices below `n` has at most `n` elements.
pub proof fn lemma_distinct_below_len(s: Seq<usize>, n: nat)
    requires
        s.no_duplicates(),
        forall|k: int| 0 <= k < s.len() ==> s[k] < n,
    ensures
        s.len() <= n,
    decreases n,
{
    if n == 0 {
        if s.len() > 0 {
            assert(s[0] < 0);
        }
    } else {
        let m = (n - 1) as usize;
        if s.contains(m) {
            let k = choose|k: int| 0 <= k < s.len() && s[k] == m;
            let t = s.remove(k);
            assert forall|a: int, b: int| 0 <= a < b < t.len() implies t[a] != t[b] by {
                let a2 = if a < k { a } else { a + 1 };
                let b2 = if b < k { b } else { b + 1 };
                assert(t[a] == s[a2] && t[b] == s[b2]);
            }
            assert forall|c: int| 0 <= c < t.len() implies t[c] < (n - 1) as nat by {
                let c2 = if c < k { c } else { c + 1 };
                assert(t[c] == s[c2]);
                assert(c2 != k);
            }
            lemma_distinct_below_len(t, (n - 1) as nat);
        } else {
            assert forall|c: int| 0 <= c < s.len() implies s[c] < (n - 1) as nat by {
                assert(s[c] != m);
            }
            lemma_distinct_below_len(s, (n - 1) as nat);
        }
    }
}

/// Extending a walk by one parent step.
pub proof fn lemma_walk_push(ps: Seq<Seq<usize>>, w: Seq<int>, i: int, j: int, p: int)
    requires
        walk_between(ps, w, i, j),
        has_edge(ps, j, p),
    ensures
        walk_between(ps, w.push(p), i, p),
        w.push(p).len() == w.len() + 1,
{
    let w2 = w.push(p);
    assert forall|k: int| 0 <= k < w2.len() - 1 implies #[trigger] step(ps, w2, k) by {
        if k < w.len() - 1 {
            assert(step(ps, w, k));
        }
    }
    assert forall|k: int| 0 <= k < w2.len() implies 0 <= #[trigger] w2[k] < ps.len() by {
        if k < w.len() {
            assert(w2[k] == w[k]);
        }
    }
}

/// The trivial walk.
pub proof fn lemma_walk_single(ps: Seq<Seq<usize>>, i: int)
    requires
        0 <= i < ps.len(),
    ensures
        walk_between(ps, seq![i], i, i),
{
}

/// Every node on a walk out of a set closed under parent steps stays in it.
proof fn lemma_closed_walk(ps: Seq<Seq<usize>>, w: Seq<int>, inside: Set<int>, k: int)
    requires
        is_walk(ps, w),
        inside.contains(w[1]),
        forall|x: int, y: int| inside.contains(x) && has_edge(ps, x, y) ==> inside.contains(y),
        1 <= k < w.len(),
    ensures
        inside.contains(w[k]),
    decreases k,
{
    if k > 1 {
        lemma_closed_walk(ps, w, inside, k - 1);
        assert(step(ps, w, k - 1));
    }
}

/// Adds to `found` (and marks in `seen`) every parent of `cur` not seen yet.
fn visit_parents(
    parents: &Vec<Vec<usize>>,
    cur: usize,
    seen: &mut Vec<bool>,
    found: &mut Vec<usize>,
)
    requires
        graph_wf(lists_of(parents@)),
        cur < parents@.len(),
        old(seen)@.len() == parents@.len(),
        old(found)@.no_duplicates(),
        forall|k: int| 0 <= k < old(found)@.len() ==> old(found)@[k] < parents@.len(),
        forall|x: int|
            0 <= x < parents@.len() ==> (old(seen)@[x] <==> old(found)@.contains(x as usize)),
    ensures
        final(seen)@.len() == parents@.len(),
        final(found)@.no_duplicates(),
        forall|k: int| 0 <= k < final(found)@.len() ==> final(found)@[k] < parents@.len(),
        forall|x: int|
            0 <= x < parents@.len() ==> (final(seen)@[x] <==> final(found)@.contains(x as usize)),
        final(found)@.len() >= old(found)@.len(),
        final(found)@.subrange(0, old(found)@.len() as int) == old(found)@,
        forall|k: int|
            old(found)@.len() <= k < final(found)@.len() ==> has_edge(
                lists_of(parents@),
                cur as int,
                #[trigger] final(found)@[k] as int,
            ),
        forall|p: int|
            has_edge(lists_of(parents@), cur as int, p) ==> final(found)@.contains(p as usize),
{
    let ghost ps = lists_of(parents@);
    let ghost start = found@;
    let n = parents.len();
    let plist = &parents[cur];
    assert(plist@ == ps[cur as int]);
    let mut t: usize = 0;
    while t < plist.len()
        invariant
            n == parents@.len(),
            ps == lists_of(parents@),
            graph_wf(ps),
            cur < n,
            plist@ == ps[cur as int],
            t <= plist@.len(),
            seen@.len() == n,
            found@.no_duplicates(),
            forall|k: int| 0 <= k < found@.len() ==> found@[k] < n,
            forall|x: int| 0 <= x < n ==> (seen@[x] <==> found@.contains(x as usize)),
            found@.len() >= start.len(),
            found@.subrange(0, start.len() as int) == start,
            forall|k: int|
                start.len() <= k < found@.len() ==> has_edge(
                    ps,
                    cur as int,
                    #[trigger] found@[k] as int,
                ),
            forall|u: int| 0 <= u < t ==> found@.contains(#[trigger] plist@[u]),
        decreases plist@.len() - t,
    {
        let p = plist[t];
        assert(idx_below(ps[cur as int], ps.len() as int));
        assert(p < n);
        if !seen[p] {
            let ghost before = found@;
            seen.set(p, true);
            found.push(p);
            assert(found@ == before.push(p));
            assert(found@.subrange(0, start.len() as int) =~= before.subrange(
                0,
                start.len() as int,
            ));
            assert forall|x: int| 0 <= x < n implies (seen@[x] <==> found@.contains(
                x as usize,
            )) by {
                if x == p as int {
                    assert(found@[before.len() as int] == p);
                } else {
                    if found@.contains(x as usize) {
                        let k = choose|k: int| 0 <= k < found@.len() && found@[k] == x as usize;
                        assert(before[k] == x as usize);
                    }
                    if before.contains(x as usize) {
                        let k = choose|k: int| 0 <= k < before.len() && before[k] == x as usize;
                        assert(found@[k] == x as usize);
                    }
                }
            }
            assert(found@.no_duplicates()) by {
                assert forall|a: int, b: int| 0 <= a < b < found@.len() implies found@[a]
                    != found@[b] by {
                    if b == before.len() {
                        assert(!before.contains(p));
                        assert(before[a] == found@[a]);
                    }
                }
            }
            assert(has_edge(ps, cur as int, p as int)) by {
                assert(ps[cur as int][t as int] == p);
            }
            assert forall|u: int| 0 <= u < t + 1 implies found@.contains(#[trigger] plist@[u]) by {
                if u < t {
                    let k = choose|k: int| 0 <= k < before.len() && before[k] == plist@[u];
                    assert(found@[k] == plist@[u]);
                } else {
                    assert(found@[before.len() as int] == p);
                }
            }
        } else {
            assert(found@.contains(plist@[t as int]));
        }
        t = t + 1;
    }
    assert forall|p: int| has_edge(ps, cur as int, p) implies found@.contains(p as usize) by {
        let u = choose|u: int| 0 <= u < plist@.len() && plist@[u] == p as usize;
        assert(found@.contains(plist@[u]));
    }
}

/// The ancestors of `s`, in ascending order. `seen` is scratch space, all
/// `false` on entry and on exit.
pub fn ancestors_of(parents: &Vec<Vec<usize>>, s: usize, seen: &mut Vec<bool>) -> (anc: Vec<usize>)
    requires
        graph_wf(lists_of(parents@)),
        s < parents@.len(),
        old(seen)@.len() == parents@.len(),
        forall|x: int| 0 <= x < old(seen)@.len() ==> !old(seen)@[x],
    ensures
        final(seen)@.len() == parents@.len(),
        forall|x: int| 0 <= x < final(seen)@.len() ==> !final(seen)@[x],
        sorted_idx(anc@),
        idx_below(anc@, parents@.len() as int),
        anc@.to_set() == ancestor_set(lists_of(parents@), s as int),
{
    let ghost ps = lists_of(parents@);
    let n = parents.len();
    let mut found: Vec<usize> = Vec::new();
    assert forall|x: int| 0 <= x < n implies (seen@[x] <==> found@.contains(x as usize)) by {}
    visit_parents(parents, s, seen, &mut found);
    assert forall|k: int| 0 <= k < found@.len() implies reaches(ps, s as int, found@[k] as int) by {
        lemma_walk_single(ps, s as int);
        lemma_walk_push(ps, seq![s as int], s as int, s as int, found@[k] as int);
    }
    let mut head: usize = 0;
    while head < found.len()
        invariant
            n == parents@.len(),
            ps == lists_of(parents@),
            graph_wf(ps),
            s < n,
            head <= found@.len(),
            seen@.len() == n,
            found@.no_duplicates(),
            forall|k: int| 0 <= k < found@.len() ==> found@[k] < n,
            forall|x: int| 0 <= x < n ==> (seen@[x] <==> found@.contains(x as usize)),
            forall|k: int| 0 <= k < found@.len() ==> reaches(ps, s as int, #[trigger] found@[k] as int),
            forall|p: int| has_edge(ps, s as int, p) ==> found@.contains(p as usize),
            forall|k: int, p: int|
                0 <= k < head && #[trigger] has_edge(ps, found@[k] as int, p) ==> found@.contains(
                    p as usize,
                ),
        decreases n - head,
    {
        proof {
            lemma_distinct_below_len(found@, n as nat);
        }
        let cur = found[head];
        let ghost before = found@;
        visit_parents(parents, cur, seen, &mut found);
        assert forall|k: int| 0 <= k < found@.len() implies reaches(
            ps,
            s as int,
            #[trigger] found@[k] as int,
        ) by {
            if k < before.len() {
                assert(found@[k] == before[k]);
            } else {
                assert(reaches(ps, s as int, cur as int));
                let w = choose|w: Seq<int>| #[trigger]
                    walk_between(ps, w, s as int, cur as int) && w.len() >= 2;
                lemma_walk_push(ps, w, s as int, cur as int, found@[k] as int);
            }
        }
        assert forall|p: int| has_edge(ps, s as int, p) implies found@.contains(p as usize) by {
            let k = choose|k: int| 0 <= k < before.len() && before[k] == p as usize;
            assert(found@[k] == p as usize);
        }
        assert forall|k: int, p: int|
            0 <= k < head + 1 && #[trigger] has_edge(ps, found@[k] as int, p) implies found@.contains(
            p as usize,
        ) by {
            assert(found@[k] == before[k]);
            if k < head {
                let k2 = choose|k2: int| 0 <= k2 < before.len() && before[k2] == p as usize;
                assert(found@[k2] == p as usize);
            }
        }
        head = head + 1;
    }
    // Everything found is an ancestor, and the found set is closed under parent steps.
    let ghost inside = found@.to_set().map(|x: usize| x as int);
    assert forall|x: int, y: int| inside.contains(x) && has_edge(ps, x, y) implies inside.contains(
        y,
    ) by {
        let xu = choose|xu: usize| found@.to_set().contains(xu) && xu as int == x;
        let k = choose|k: int| 0 <= k < found@.len() && found@[k] == xu;
        assert(found@.contains(y as usize));
        assert(found@.to_set().contains(y as usize));
    }
    // Sort the found ancestors.
    assert(found@.subrange(0, found@.len() as int) =~= found@);
    let mut anc: Vec<usize> = Vec::new();
    let mut i: usize = 0;
    while i < found.len()
        invariant
            n == parents@.len(),
            i <= found@.len(),
            seen@.len() == n,
            forall|k: int| 0 <= k < found@.len() ==> found@[k] < n,
            forall|x: int| 0 <= x < n ==> (seen@[x] <==> found@.subrange(i as int, found@.len() as int).contains(x as usize)),
            found@.no_duplicates(),
            sorted_idx(anc@),
            anc@.to_set() == found@.subrange(0, i as int).to_set(),
        decreases found@.len() - i,
    {
        let x = found[i];
        let ghost before = anc@;
        insert_idx(&mut anc, x);
        seen.set(x, false);
        let ghost pre = found@.subrange(0, i as int);
        let ghost pre2 = found@.subrange(0, i + 1);
        assert(pre2 =~= pre.push(x));
        assert(pre2.to_set() =~= pre.to_set().insert(x)) by {
            assert forall|y| pre2.to_set().contains(y) implies pre.to_set().insert(x).contains(y) by {
                let k = choose|k: int| 0 <= k < pre2.len() && pre2[k] == y;
                if k < i {
                    assert(pre[k] == y);
                }
            }
            assert forall|y| pre.to_set().insert(x).contains(y) implies pre2.to_set().contains(y) by {
                if y != x {
                    let k = choose|k: int| 0 <= k < pre.len() && pre[k] == y;
                    assert(pre2[k] == y);
                } else {
                    assert(pre2[i as int] == y);
                }
            }
        }
        assert forall|y: int| 0 <= y < n implies (seen@[y] <==> found@.subrange(
            i + 1,
            found@.len() as int,
        ).contains(y as usize)) by {
            let rest = found@.subrange(i as int, found@.len() as int);
            let rest2 = found@.subrange(i + 1, found@.len() as int);
            if y == x as int {
                if rest2.contains(x) {
                    let k = choose|k: int| 0 <= k < rest2.len() && rest2[k] == x;
                    assert(found@[i + 1 + k] == found@[i as int]);
                }
            } else {
                if rest.contains(y as usize) {
                    let k = choose|k: int| 0 <= k < rest.len() && rest[k] == y as usize;
                    assert(k != 0);
                    assert(rest2[k - 1] == y as usize);
                }
                if rest2.contains(y as usize) {
                    let k = choose|k: int| 0 <= k < rest2.len() && rest2[k] == y as usize;
                    assert(rest[k + 1] == y as usize);
                }
            }
        }
        i = i + 1;
    }
    assert(found@.subrange(0, found@.len() as int) =~= found@);
    assert forall|x: int| 0 <= x < seen@.len() implies !seen@[x] by {
        assert(found@.subrange(found@.len() as int, found@.len() as int).len() == 0);
    }
    assert forall|k: int| 0 <= k < anc@.len() implies anc@[k] < n by {
        assert(anc@.to_set().contains(anc@[k]));
    }
    assert(anc@.to_set() =~= ancestor_set(ps, s as int)) by {
        assert forall|j: usize| anc@.to_set().contains(j) implies ancestor_set(ps, s as int).contains(j) by {
            let k = choose|k: int| 0 <= k < found@.len() && found@[k] == j;
            assert(reaches(ps, s as int, found@[k] as int));
        }
        assert forall|j: usize| ancestor_set(ps, s as int).contains(j) implies anc@.to_set().contains(j) by {
            let w = choose|w: Seq<int>| #[trigger] walk_between(ps, w, s as int, j as int) && w.len() >= 2;
            assert(step(ps, w, 0));
            assert(found@.contains(w[1] as usize));
            assert(found@.to_set().contains(w[1] as usize));
            assert(inside.contains(w[1]));
            lemma_closed_walk(ps, w, inside, w.len() - 1);
            let xu = choose|xu: usize| found@.to_set().contains(xu) && xu as int == j as int;
        }
    }
    anc
}

} // verus!

verus! {

/// Index sequence as integers.
pub open spec fn as_ints(s: Seq<usize>) -> Seq<int> {
    s.map_values(|x: usize| x as int)
}

/// The facts that hold of a breadth-first search from `s`: `dist[x]` is the
/// depth at which `x` was reached (negative when not reached), no deeper than
/// `dmax`; `pred[x]` is the node through which it was reached; every node
/// shallower than `dclosed` has had all its parents reached.
#[verifier::opaque]
pub open spec fn bfs_core(
    ps: Seq<Seq<usize>>,
    s: int,
    dist: Seq<int>,
    pred: Seq<usize>,
    dclosed: int,
    dmax: int,
) -> bool {
    let n = ps.len();
    &&& dist.len() == n
    &&& pred.len() == n
    &&& 0 <= s < n
    &&& dist[s] == 0
    &&& dclosed >= 0
    &&& forall|x: int| 0 <= x < n ==> #[trigger] dist[x] <= dmax
    &&& forall|x: int| 0 <= x < n && dist[x] == 0 ==> x == s
    &&& forall|x: int|
        0 <= x < n && #[trigger] dist[x] >= 1 ==> {
            &&& pred[x] < n
            &&& dist[pred[x] as int] == dist[x] - 1
            &&& has_edge(ps, pred[x] as int, x)
        }
    &&& forall|x: int, y: int|
        0 <= x < n && 0 <= dist[x] < dclosed && #[trigger] has_edge(ps, x, y) ==> 0 <= dist[y]
            <= dist[x] + 1
}

/// The search state after every level below `d` has been expanded.
pub open spec fn bfs_state(ps: Seq<Seq<usize>>, s: int, dist: Seq<int>, pred: Seq<usize>, d: int) -> bool {
    bfs_core(ps, s, dist, pred, d, d)
}

/// The flags, the visiting order and the count agree with `dist`.
#[verifier::opaque]
pub open spec fn bfs_marks(n: int, dist: Seq<int>, visited: Seq<bool>, order: Seq<usize>, count: int) -> bool {
    &&& visited.len() == n
    &&& dist.len() == n
    &&& forall|x: int| 0 <= x < n ==> (visited[x] <==> dist[x] >= 0)
    &&& order.no_duplicates()
    &&& order.len() == count
    &&& forall|k: int| 0 <= k < order.len() ==> order[k] < n
    &&& forall|x: int| 0 <= x < n ==> (visited[x] <==> order.contains(x as usize))
}

/// `level` holds exactly the nodes at depth `d`.
#[verifier::opaque]
pub open spec fn is_level(n: int, dist: Seq<int>, level: Seq<usize>, d: int) -> bool {
    &&& forall|k: int| 0 <= k < level.len() ==> level[k] < n && dist[level[k] as int] == d
    &&& forall|x: int| 0 <= x < n && dist[x] == d ==> level.contains(x as usize)
}

/// Lower bound on the length of any walk out of `s`.
proof fn lemma_bfs_lower_bound(
    ps: Seq<Seq<usize>>,
    s: int,
    dist: Seq<int>,
    pred: Seq<usize>,
    d: int,
    q: Seq<int>,
    x: int,
)
    requires
        bfs_state(ps, s, dist, pred, d),
        walk_between(ps, q, s, x),
    ensures
        dist[x] >= 0 ==> q.len() >= dist[x] + 1,
        dist[x] < 0 ==> q.len() >= d + 2,
    decreases q.len(),
{
    reveal(bfs_core);
    if q.len() == 1 {
        assert(x == s);
    } else {
        let q2 = q.drop_last();
        let y = q2.last();
        assert(step(ps, q, q.len() - 2));
        assert(walk_between(ps, q2, s, y)) by {
            assert forall|k: int| 0 <= k < q2.len() - 1 implies #[trigger] step(ps, q2, k) by {
                assert(step(ps, q, k));
            }
            assert forall|k: int| 0 <= k < q2.len() implies 0 <= #[trigger] q2[k] < ps.len() by {
                assert(q2[k] == q[k]);
            }
        }
        lemma_bfs_lower_bound(ps, s, dist, pred, d, q2, y);
        assert(has_edge(ps, y, x));
    }
}

/// Reaching a new node `p` from `cur` (at depth `d`) keeps the search facts.
proof fn lemma_bfs_mark(
    ps: Seq<Seq<usize>>,
    s: int,
    d: int,
    cur: int,
    p: usize,
    dist: Seq<int>,
    pred: Seq<usize>,
    visited: Seq<bool>,
    order: Seq<usize>,
    count: int,
    next: Seq<usize>,
)
    requires
        bfs_core(ps, s, dist, pred, d, d + 1),
        bfs_marks(ps.len() as int, dist, visited, order, count),
        is_level(ps.len() as int, dist, next, d + 1),
        0 <= cur < ps.len(),
        dist[cur] == d,
        has_edge(ps, cur, p as int),
        !visited[p as int],
        ps.len() <= usize::MAX,
        d >= 0,
    ensures
        count + 1 <= ps.len(),
        bfs_core(ps, s, dist.update(p as int, d + 1), pred.update(p as int, cur as usize), d, d + 1),
        bfs_marks(ps.len() as int, dist.update(p as int, d + 1), visited.update(p as int, true), order.push(p), count + 1),
        is_level(ps.len() as int, dist.update(p as int, d + 1), next.push(p), d + 1),
{
    reveal(bfs_core);
    reveal(bfs_marks);
    reveal(is_level);
    let n = ps.len() as int;
    let op = order.push(p);
    let dist2 = dist.update(p as int, d + 1);
    let pred2 = pred.update(p as int, cur as usize);
    let vis2 = visited.update(p as int, true);
    let next2 = next.push(p);
    assert(!order.contains(p));
    assert forall|a: int, b: int| 0 <= a < b < op.len() implies op[a] != op[b] by {
        if b == order.len() {
            assert(op[a] == order[a]);
        } else {
            assert(op[a] == order[a] && op[b] == order[b]);
        }
    }
    assert forall|c: int| 0 <= c < op.len() implies op[c] < n as nat by {
        if c < order.len() {
            assert(op[c] == order[c]);
        }
    }
    lemma_distinct_below_len(op, n as nat);
    assert forall|x: int| 0 <= x < n implies (vis2[x] <==> op.contains(x as usize)) by {
        if x == p as int {
            assert(op[order.len() as int] == p);
        } else {
            assert(vis2[x] == visited[x]);
            if op.contains(x as usize) {
                let k = choose|k: int| 0 <= k < op.len() && op[k] == x as usize;
                if k == order.len() {
                    assert(op[k] == p);
                } else {
                    assert(op[k] == order[k]);
                }
                assert(order.contains(x as usize));
            }
            if order.contains(x as usize) {
                let k = choose|k: int| 0 <= k < order.len() && order[k] == x as usize;
                assert(op[k] == x as usize);
            }
        }
    }
    assert forall|x: int| 0 <= x < n && dist2[x] == d + 1 implies next2.contains(x as usize) by {
        if x == p as int {
            assert(next2[next.len() as int] == p);
        } else {
            let k = choose|k: int| 0 <= k < next.len() && next[k] == x as usize;
            assert(next2[k] == x as usize);
        }
    }
    assert forall|k: int| 0 <= k < next2.len() implies next2[k] < n && dist2[next2[k] as int] == d + 1 by {
        if k < next.len() {
            assert(next2[k] == next[k]);
        }
    }
    assert forall|x: int|
        0 <= x < n && #[trigger] dist2[x] >= 1 implies {
            &&& pred2[x] < n
            &&& dist2[pred2[x] as int] == dist2[x] - 1
            &&& has_edge(ps, pred2[x] as int, x)
        } by {
        assert(dist[p as int] < 0);
        if x != p as int {
            assert(dist[x] >= 1);
            assert(dist[pred[x] as int] == dist[x] - 1);
            assert(pred[x] != p);
        }
    }
    assert forall|x: int, y: int|
        0 <= x < n && 0 <= dist2[x] < d && #[trigger] has_edge(ps, x, y) implies 0 <= dist2[y] <= dist2[x] + 1 by {
        assert(dist[x] == dist2[x]);
        assert(0 <= dist[y] <= dist[x] + 1);
    }
}

proof fn lemma_level_elem(n: int, dist: Seq<int>, level: Seq<usize>, d: int, k: int)
    requires
        is_level(n, dist, level, d),
        0 <= k < level.len(),
    ensures
        level[k] < n,
        dist[level[k] as int] == d,
{
    reveal(is_level);
}

proof fn lemma_level_stable(n: int, dist: Seq<int>, dist2: Seq<int>, level: Seq<usize>, d: int)
    requires
        is_level(n, dist, level, d),
        dist.len() == n,
        dist2.len() == n,
        d >= 0,
        n <= usize::MAX,
        forall|x: int| 0 <= x < n && dist[x] >= 0 ==> dist2[x] == dist[x],
        forall|x: int| 0 <= x < n && dist2[x] >= 0 && dist2[x] <= d ==> dist[x] == dist2[x],
    ensures
        is_level(n, dist2, level, d),
{
    reveal(is_level);
    assert forall|x: int| 0 <= x < n && dist2[x] == d implies level.contains(x as usize) by {
        assert(dist[x] == d);
    }
    assert forall|k: int| 0 <= k < level.len() implies level[k] < n && dist2[level[k] as int] == d by {
        assert(dist[level[k] as int] == d);
    }
}

/// For every node reached at depth `1..=upto`, no node one level up with an
/// edge to it has a recorded walk before that of its predecessor.
#[verifier::opaque]
pub open spec fn least_preds(ps: Seq<Seq<usize>>, dist: Seq<int>, pred: Seq<usize>, upto: int) -> bool {
    forall|x: int, y: int|
        0 <= x < dist.len() && 1 <= dist[x] <= upto && dist[y] == dist[x] - 1 && #[trigger] has_edge(ps, y, x)
            ==> !lex_lt(tp(pred, dist, y), tp(pred, dist, pred[x] as int))
}

/// The recorded walks of the nodes of `level` ascend.
#[verifier::opaque]
pub open spec fn walks_ascend(pred: Seq<usize>, dist: Seq<int>, level: Seq<usize>) -> bool {
    forall|a: int, b: int|
        0 <= a < b < level.len() ==> lex_lt(
            #[trigger] tp(pred, dist, level[a] as int),
            #[trigger] tp(pred, dist, level[b] as int),
        )
}

/// The predecessor of `q` stands among the first `li` nodes of `level`.
pub open spec fn pred_before(pred: Seq<usize>, q: usize, level: Seq<usize>, li: int) -> bool {
    exists|k: int| 0 <= k < li && #[trigger] level[k] == pred[q as int]
}

/// `q` is among the first `t` items of `l`.
pub open spec fn among_first(l: Seq<usize>, q: usize, t: int) -> bool {
    exists|u: int| 0 <= u < t && #[trigger] l[u] == q
}

proof fn lemma_core_chain(ps: Seq<Seq<usize>>, s: int, dist: Seq<int>, pred: Seq<usize>, dc: int, dm: int)
    requires
        bfs_core(ps, s, dist, pred, dc, dm),
    ensures
        pred_chain(dist, pred),
{
    reveal(bfs_core);
}

/// The walk recorded for a newly reached `p` is that of `cur`, then `p`;
/// the walks of the nodes reached before are unchanged.
proof fn lemma_tp_mark(dist: Seq<int>, pred: Seq<usize>, cur: int, p: int, d: int)
    requires
        pred_chain(dist, pred),
        0 <= cur < dist.len(),
        0 <= p < dist.len(),
        dist.len() <= usize::MAX,
        dist[cur] == d,
        d >= 0,
        dist[p] < 0,
    ensures
        tp(pred.update(p, cur as usize), dist.update(p, d + 1), p) == tp(pred, dist, cur).push(p),
        forall|x: int| 0 <= x < dist.len() && dist[x] >= 0 ==> #[trigger] tp(pred.update(p, cur as usize), dist.update(p, d + 1), x) == tp(pred, dist, x),
{
    let pred2 = pred.update(p, cur as usize);
    let dist2 = dist.update(p, d + 1);
    assert forall|z: int| 0 <= z < dist.len() && dist[z] >= 1 implies #[trigger] pred2[z] == pred[z] by {
        assert(z != p);
    }
    lemma_tree_path_stable(dist, pred, pred2, cur);
    assert(pred2[p] as int == cur);
    assert(((d + 1) as nat - 1) as nat == d as nat);
    assert(tree_path(pred2, p, (d + 1) as nat) == tree_path(pred2, cur, d as nat).push(p));
    assert forall|x: int| 0 <= x < dist.len() && dist[x] >= 0 implies #[trigger] tp(pred2, dist2, x) == tp(pred, dist, x) by {
        lemma_tree_path_stable(dist, pred, pred2, x);
        assert(x != p);
    }
}

/// Reaching `p` from `cur`, the node at position `li` of the level being
/// expanded, keeps every predecessor least and the level's walks ascending.
proof fn lemma_order_mark(
    ps: Seq<Seq<usize>>,
    s: int,
    d: int,
    cur: int,
    p: int,
    dist: Seq<int>,
    pred: Seq<usize>,
    level: Seq<usize>,
    li: int,
)
    requires
        ps.len() <= usize::MAX,
        bfs_core(ps, s, dist, pred, d, d + 1),
        is_level(ps.len() as int, dist, level, d),
        0 <= li < level.len(),
        level[li] as int == cur,
        dist[cur] == d,
        d >= 0,
        walks_ascend(pred, dist, level),
        forall|k: int, y: int| 0 <= k < li && #[trigger] has_edge(ps, level[k] as int, y) ==> 0 <= dist[y],
        least_preds(ps, dist, pred, d + 1),
        has_edge(ps, cur, p),
        dist[p] < 0,
    ensures
        least_preds(ps, dist.update(p, d + 1), pred.update(p, cur as usize), d + 1),
        walks_ascend(pred.update(p, cur as usize), dist.update(p, d + 1), level),
{
    let pred2 = pred.update(p, cur as usize);
    let dist2 = dist.update(p, d + 1);
    let n = ps.len() as int;
    reveal(bfs_core);
    reveal(is_level);
    lemma_core_chain(ps, s, dist, pred, d, d + 1);
    lemma_tp_mark(dist, pred, cur, p, d);
    assert(walks_ascend(pred2, dist2, level)) by {
        reveal(walks_ascend);
        assert forall|a: int, b: int| 0 <= a < b < level.len() implies lex_lt(
            #[trigger] tp(pred2, dist2, level[a] as int),
            #[trigger] tp(pred2, dist2, level[b] as int),
        ) by {
            assert(dist[level[a] as int] == d);
            assert(dist[level[b] as int] == d);
            assert(lex_lt(tp(pred, dist, level[a] as int), tp(pred, dist, level[b] as int)));
        }
    }
    reveal(least_preds);
    assert forall|x: int, y: int|
        0 <= x < dist2.len() && 1 <= dist2[x] <= d + 1 && dist2[y] == dist2[x] - 1 && #[trigger] has_edge(ps, y, x)
            implies !lex_lt(tp(pred2, dist2, y), tp(pred2, dist2, pred2[x] as int)) by {
        if x == p {
            assert(dist[y] == d);
            assert(level.contains(y as usize));
            let k = choose|k: int| 0 <= k < level.len() && level[k] == y as usize;
            if k < li {
                assert(has_edge(ps, level[k] as int, p));
                assert(0 <= dist[p]);
            } else if k == li {
                assert(y == cur);
                lemma_lex_irreflexive(tp(pred, dist, cur));
            } else {
                reveal(walks_ascend);
                assert(lex_lt(tp(pred, dist, level[li] as int), tp(pred, dist, level[k] as int)));
                lemma_lex_asymmetric(tp(pred, dist, cur), tp(pred, dist, y));
            }
        } else {
            assert(dist2[x] == dist[x]);
            assert(y != p);
            assert(dist[pred[x] as int] == dist[x] - 1);
            assert(pred2[x] == pred[x]);
            assert(pred[x] as int != p);
        }
    }
}

/// Appending `p`, reached from `cur`, keeps the walks of the next level
/// ascending: its walk extends that of `cur`, which no earlier predecessor's
/// walk follows, and `p` follows the parents of `cur` already appended.
proof fn lemma_next_mark(
    ps: Seq<Seq<usize>>,
    s: int,
    d: int,
    cur: int,
    p: int,
    dist: Seq<int>,
    pred: Seq<usize>,
    level: Seq<usize>,
    li: int,
    next: Seq<usize>,
    next0: int,
    t: int,
)
    requires
        ps.len() <= usize::MAX,
        bfs_core(ps, s, dist, pred, d, d + 1),
        is_level(ps.len() as int, dist, level, d),
        is_level(ps.len() as int, dist, next, d + 1),
        0 <= li < level.len(),
        level[li] as int == cur,
        dist[cur] == d,
        d >= 0,
        walks_ascend(pred, dist, level),
        walks_ascend(pred, dist, next),
        0 <= next0 <= next.len(),
        forall|a: int| 0 <= a < next0 ==> pred_before(pred, #[trigger] next[a], level, li),
        forall|a: int| next0 <= a < next.len() ==> pred[#[trigger] next[a] as int] == cur as usize && among_first(ps[cur], next[a], t),
        sorted_idx(ps[cur]),
        0 <= t < ps[cur].len(),
        ps[cur][t] as int == p,
        has_edge(ps, cur, p),
        dist[p] < 0,
    ensures
        walks_ascend(pred.update(p, cur as usize), dist.update(p, d + 1), next.push(p as usize)),
{
    let pred2 = pred.update(p, cur as usize);
    let dist2 = dist.update(p, d + 1);
    let np = next.push(p as usize);
    reveal(bfs_core);
    reveal(is_level);
    lemma_core_chain(ps, s, dist, pred, d, d + 1);
    lemma_tp_mark(dist, pred, cur, p, d);
    reveal(walks_ascend);
    assert forall|a: int, b: int| 0 <= a < b < np.len() implies lex_lt(
        #[trigger] tp(pred2, dist2, np[a] as int),
        #[trigger] tp(pred2, dist2, np[b] as int),
    ) by {
        let q = next[a] as int;
        assert(np[a] == next[a]);
        assert(dist[q] == d + 1);
        if b < next.len() {
            assert(np[b] == next[b]);
            assert(dist[next[b] as int] == d + 1);
            assert(lex_lt(tp(pred, dist, next[a] as int), tp(pred, dist, next[b] as int)));
        } else {
            let pq = pred[q] as int;
            assert(dist[pq] == d);
            lemma_tree_path_len(pred, pq, d as nat);
            lemma_tree_path_len(pred, cur, d as nat);
            assert(tp(pred, dist, q) == tp(pred, dist, pq).push(q));
            if a < next0 {
                assert(pred_before(pred, next[a], level, li));
                let k = choose|k: int| 0 <= k < li && #[trigger] level[k] == pred[next[a] as int];
                assert(lex_lt(tp(pred, dist, level[k] as int), tp(pred, dist, level[li] as int)));
                lemma_lex_push(tp(pred, dist, pq), tp(pred, dist, cur), q, p);
            } else {
                assert(pq == cur);
                assert(among_first(ps[cur], next[a], t));
                let u = choose|u: int| 0 <= u < t && #[trigger] ps[cur][u] == next[a];
                assert(ps[cur][u] < ps[cur][t]);
                lemma_lex_push(tp(pred, dist, pq), tp(pred, dist, cur), q, p);
            }
        }
    }
}

/// Reached nodes' recorded walks are walks from `s` of their depth's length.
proof fn lemma_tp_walk(ps: Seq<Seq<usize>>, s: int, dist: Seq<int>, pred: Seq<usize>, dc: int, dm: int, x: int)
    requires
        bfs_core(ps, s, dist, pred, dc, dm),
        0 <= x < ps.len(),
        dist[x] >= 0,
    ensures
        walk_between(ps, tp(pred, dist, x), s, x),
        tp(pred, dist, x).len() == dist[x] + 1,
    decreases dist[x],
{
    reveal(bfs_core);
    lemma_tree_path_len(pred, x, dist[x] as nat);
    if dist[x] == 0 {
        assert(x == s);
        lemma_walk_single(ps, x);
        assert(tp(pred, dist, x) =~= seq![x]);
    } else {
        let px = pred[x] as int;
        lemma_tp_walk(ps, s, dist, pred, dc, dm, px);
        assert(dist[px] as nat == (dist[x] as nat - 1) as nat);
        assert(tp(pred, dist, x) == tp(pred, dist, px).push(x));
        lemma_walk_push(ps, tp(pred, dist, px), s, px, x);
    }
}

/// Once the levels above `d` are closed and every predecessor is least,
/// the recorded walk of a node at depth at most `d` comes first, in
/// lexicographic order, among the walks of its length from `s`.
proof fn lemma_tp_least(ps: Seq<Seq<usize>>, s: int, dist: Seq<int>, pred: Seq<usize>, d: int, x: int, w: Seq<int>)
    requires
        bfs_state(ps, s, dist, pred, d),
        least_preds(ps, dist, pred, d),
        0 <= x < ps.len(),
        0 <= dist[x] <= d,
        walk_between(ps, w, s, x),
        w.len() == dist[x] + 1,
    ensures
        !lex_lt(w, tp(pred, dist, x)),
    decreases dist[x],
{
    reveal(bfs_core);
    lemma_tree_path_len(pred, x, dist[x] as nat);
    if dist[x] == 0 {
        assert(x == s);
        assert(w =~= seq![x]);
        assert(tp(pred, dist, x) =~= seq![x]);
        lemma_lex_irreflexive(w);
    } else {
        let k = dist[x];
        let y = w[k - 1];
        let w1 = w.take(k);
        assert(step(ps, w, k - 1));
        assert(has_edge(ps, y, x));
        assert(walk_between(ps, w1, s, y)) by {
            assert forall|i: int| 0 <= i < w1.len() - 1 implies #[trigger] step(ps, w1, i) by {
                assert(step(ps, w, i));
            }
            assert forall|i: int| 0 <= i < w1.len() implies 0 <= #[trigger] w1[i] < ps.len() by {
                assert(w1[i] == w[i]);
            }
        }
        lemma_bfs_lower_bound(ps, s, dist, pred, d, w1, y);
        assert(dist[y] >= 0);
        assert(dist[y] <= k - 1);
        assert(dist[x] <= dist[y] + 1);
        assert(dist[y] == k - 1);
        lemma_tp_least(ps, s, dist, pred, d, y, w1);
        reveal(least_preds);
        assert(!lex_lt(tp(pred, dist, y), tp(pred, dist, pred[x] as int)));
        let px = pred[x] as int;
        assert(dist[px] == k - 1);
        lemma_tree_path_len(pred, px, (k - 1) as nat);
        lemma_tree_path_len(pred, y, (k - 1) as nat);
        assert(tp(pred, dist, x) == tp(pred, dist, px).push(x));
        assert(w =~= w1.push(x));
        if lex_lt(w, tp(pred, dist, x)) {
            lemma_lex_push(w1, tp(pred, dist, px), x, x);
            assert(lex_lt(w1, tp(pred, dist, px)));
            lemma_lex_total(w1, tp(pred, dist, y));
            if w1 == tp(pred, dist, y) {
            } else if lex_lt(tp(pred, dist, y), w1) {
                lemma_lex_transitive(tp(pred, dist, y), w1, tp(pred, dist, px));
            }
        }
    }
}

/// Reaching `p` keeps the bookkeeping of the level being expanded: the
/// level itself, the closed prefix of it, and where each node of the next
/// level was reached from.
proof fn lemma_marks_keep_order(
    ps: Seq<Seq<usize>>,
    s: int,
    d: int,
    cur: int,
    p: int,
    dist: Seq<int>,
    pred: Seq<usize>,
    level: Seq<usize>,
    li: int,
    next: Seq<usize>,
    next0: int,
    t: int,
)
    requires
        ps.len() <= usize::MAX,
        bfs_core(ps, s, dist, pred, d, d + 1),
        is_level(ps.len() as int, dist, level, d),
        is_level(ps.len() as int, dist, next, d + 1),
        0 <= li < level.len(),
        level[li] as int == cur,
        dist[cur] == d,
        d >= 0,
        forall|k: int, y: int| 0 <= k < li && #[trigger] has_edge(ps, level[k] as int, y) ==> 0 <= dist[y],
        0 <= next0 <= next.len(),
        forall|a: int| 0 <= a < next0 ==> pred_before(pred, #[trigger] next[a], level, li),
        forall|a: int| next0 <= a < next.len() ==> pred[#[trigger] next[a] as int] == cur as usize && among_first(ps[cur], next[a], t),
        0 <= t < ps[cur].len(),
        ps[cur][t] as int == p,
        0 <= p < ps.len(),
        dist[p] < 0,
    ensures
        is_level(ps.len() as int, dist.update(p, d + 1), level, d),
        forall|k: int, y: int| 0 <= k < li && #[trigger] has_edge(ps, level[k] as int, y) ==> 0 <= dist.update(p, d + 1)[y],
        forall|a: int| 0 <= a < next0 ==> pred_before(pred.update(p, cur as usize), #[trigger] next.push(p as usize)[a], level, li),
        forall|a: int| next0 <= a < next.len() + 1 ==> pred.update(p, cur as usize)[#[trigger] next.push(p as usize)[a] as int] == cur as usize
            && among_first(ps[cur], next.push(p as usize)[a], t + 1),
{
    let pred2 = pred.update(p, cur as usize);
    let dist2 = dist.update(p, d + 1);
    let np = next.push(p as usize);
    reveal(bfs_core);
    reveal(is_level);
    assert forall|k: int, y: int| 0 <= k < li && #[trigger] has_edge(ps, level[k] as int, y) implies 0 <= dist2[y] by {
        assert(0 <= dist[y]);
    }
    assert forall|a: int| 0 <= a < next0 implies pred_before(pred2, #[trigger] np[a], level, li) by {
        assert(np[a] == next[a]);
        assert(dist[next[a] as int] == d + 1);
        assert(next[a] as int != p);
        assert(pred_before(pred, next[a], level, li));
        let k = choose|k: int| 0 <= k < li && #[trigger] level[k] == pred[next[a] as int];
        assert(level[k] == pred2[np[a] as int]);
    }
    assert forall|a: int| next0 <= a < next.len() + 1 implies pred2[#[trigger] np[a] as int] == cur as usize
        && among_first(ps[cur], np[a], t + 1) by {
        if a < next.len() {
            assert(np[a] == next[a]);
            assert(dist[next[a] as int] == d + 1);
            assert(next[a] as int != p);
            assert(among_first(ps[cur], next[a], t));
            let u = choose|u: int| 0 <= u < t && #[trigger] ps[cur][u] == next[a];
            assert(ps[cur][u] == np[a]);
        } else {
            assert(np[a] as int == p);
            assert(ps[cur][t] == np[a]);
        }
    }
    lemma_level_stable(ps.len() as int, dist, dist2, level, d);
}

/// Every parent list ascends.
pub open spec fn graph_sorted(ps: Seq<Seq<usize>>) -> bool {
    forall|i: int| 0 <= i < ps.len() ==> sorted_idx(#[trigger] ps[i])
}

/// Marks the unvisited parents of `cur` (at depth `d`) as reached at depth
/// `d + 1`, through `cur`, and appends them to `next`.
fn bfs_visit_parents(
    parents: &Vec<Vec<usize>>,
    cur: usize,
    visited: &mut Vec<bool>,
    pred: &mut Vec<usize>,
    next: &mut Vec<usize>,
    count: &mut usize,
    Ghost(s): Ghost<int>,
    Ghost(d): Ghost<int>,
    Ghost(dist): Ghost<Seq<int>>,
    Ghost(order): Ghost<Seq<usize>>,
    Ghost(level): Ghost<Seq<usize>>,
    Ghost(li): Ghost<int>,
) -> (r: (Ghost<Seq<int>>, Ghost<Seq<usize>>))
    requires
        graph_sorted(lists_of(parents@)),
        0 <= li < level.len(),
        level[li] == cur,
        is_level(parents@.len() as int, dist, level, d),
        walks_ascend(old(pred)@, dist, level),
        forall|k: int, y: int| 0 <= k < li && #[trigger] has_edge(lists_of(parents@), level[k] as int, y) ==> 0 <= dist[y],
        least_preds(lists_of(parents@), dist, old(pred)@, d + 1),
        walks_ascend(old(pred)@, dist, old(next)@),
        forall|a: int| 0 <= a < old(next)@.len() ==> pred_before(old(pred)@, #[trigger] old(next)@[a], level, li),
        graph_wf(lists_of(parents@)),
        cur < parents@.len(),
        dist.len() == parents@.len(),
        dist[cur as int] == d,
        bfs_core(lists_of(parents@), s, dist, old(pred)@, d, d + 1),
        bfs_marks(parents@.len() as int, dist, old(visited)@, order, *old(count) as int),
        is_level(parents@.len() as int, dist, old(next)@, d + 1),
    ensures
        r.0@.len() == parents@.len(),
        final(visited)@.len() == old(visited)@.len(),
        final(pred)@.len() == old(pred)@.len(),
        bfs_core(lists_of(parents@), s, r.0@, final(pred)@, d, d + 1),
        bfs_marks(parents@.len() as int, r.0@, final(visited)@, r.1@, *final(count) as int),
        is_level(parents@.len() as int, r.0@, final(next)@, d + 1),
        *final(count) == *old(count) + (final(next)@.len() - old(next)@.len()),
        forall|x: int| 0 <= x < parents@.len() && dist[x] >= 0 ==> r.0@[x] == dist[x],
        forall|x: int| 0 <= x < parents@.len() && r.0@[x] >= 0 && r.0@[x] <= d ==> dist[x] == r.0@[x],
        forall|y: int| #[trigger] has_edge(lists_of(parents@), cur as int, y) ==> 0 <= r.0@[y] <= d + 1,
        least_preds(lists_of(parents@), r.0@, final(pred)@, d + 1),
        walks_ascend(final(pred)@, r.0@, level),
        walks_ascend(final(pred)@, r.0@, final(next)@),
        forall|a: int| 0 <= a < final(next)@.len() ==> pred_before(final(pred)@, #[trigger] final(next)@[a], level, li + 1),
{
    let ghost ps = lists_of(parents@);
    let ghost n = parents@.len() as int;
    let ghost mut dist = dist;
    let ghost mut order = order;
    let ghost dist0 = dist;
    let ghost next0 = next@.len();
    let n_exec = parents.len();
    let plist = &parents[cur];
    assert(plist@ == ps[cur as int]);
    proof {
        reveal(bfs_marks);
        reveal(bfs_core);
    }
    let mut t: usize = 0;
    while t < plist.len()
        invariant
            graph_sorted(ps),
            ps == lists_of(parents@),
            n == parents@.len(),
            graph_wf(ps),
            plist@ == ps[cur as int],
            cur < n,
            dist.len() == n,
            ps.len() == n,
            n == n_exec,
            d >= 0,
            visited@.len() == n,
            visited@[cur as int],
            pred@.len() == n,
            dist[cur as int] == d,
            t <= plist@.len(),
            bfs_core(ps, s, dist, pred@, d, d + 1),
            bfs_marks(n, dist, visited@, order, *count as int),
            is_level(n, dist, next@, d + 1),
            *count == *old(count) + (next@.len() - next0),
            next@.len() >= next0,
            forall|x: int| 0 <= x < n && dist0[x] >= 0 ==> dist[x] == dist0[x],
            forall|x: int| 0 <= x < n && dist[x] >= 0 && dist[x] <= d ==> dist0[x] == dist[x],
            forall|u: int| 0 <= u < t ==> 0 <= #[trigger] dist[plist@[u] as int] <= d + 1,
            0 <= li < level.len(),
            level[li] == cur,
            is_level(n, dist, level, d),
            walks_ascend(pred@, dist, level),
            forall|k: int, y: int| 0 <= k < li && #[trigger] has_edge(ps, level[k] as int, y) ==> 0 <= dist[y],
            least_preds(ps, dist, pred@, d + 1),
            walks_ascend(pred@, dist, next@),
            forall|a: int| 0 <= a < next0 ==> pred_before(pred@, #[trigger] next@[a], level, li),
            forall|a: int| next0 <= a < next@.len() ==> pred@[#[trigger] next@[a] as int] == cur && among_first(ps[cur as int], next@[a], t as int),
        decreases plist@.len() - t,
    {
        let p = plist[t];
        assert(idx_below(ps[cur as int], ps.len() as int));
        assert(has_edge(ps, cur as int, p as int)) by {
            assert(ps[cur as int][t as int] == p);
        }
        let ghost visited_before = visited@;
        proof {
            reveal(bfs_marks);
        }
        if !visited[p] {
            proof {
                lemma_bfs_mark(ps, s, d, cur as int, p, dist, pred@, visited@, order, *count as int, next@);
                reveal(bfs_marks);
                assert(dist[p as int] < 0);
                assert(sorted_idx(ps[cur as int]));
                lemma_order_mark(ps, s, d, cur as int, p as int, dist, pred@, level, li);
                lemma_next_mark(ps, s, d, cur as int, p as int, dist, pred@, level, li, next@, next0 as int, t as int);
                lemma_marks_keep_order(ps, s, d, cur as int, p as int, dist, pred@, level, li, next@, next0 as int, t as int);
            }
            visited.set(p, true);
            pred.set(p, cur);
            next.push(p);
            *count = *count + 1;
            proof {
                order = order.push(p);
                dist = dist.update(p as int, d + 1);
            }
        } else {
            proof {
                reveal(bfs_marks);
                reveal(bfs_core);
                assert(dist[p as int] >= 0);
                assert forall|a: int| next0 <= a < next@.len() implies pred@[#[trigger] next@[a] as int] == cur && among_first(ps[cur as int], next@[a], t + 1) by {
                    assert(among_first(ps[cur as int], next@[a], t as int));
                    let u = choose|u: int| 0 <= u < t && #[trigger] ps[cur as int][u] == next@[a];
                    assert(ps[cur as int][u] == next@[a]);
                }
            }
        }
        assert(0 <= dist[plist@[t as int] as int] <= d + 1) by {
            reveal(bfs_core);
        }
        t = t + 1;
    }
    proof {
        assert forall|a: int| 0 <= a < next@.len() implies pred_before(pred@, #[trigger] next@[a], level, li + 1) by {
            if a < next0 {
                assert(pred_before(pred@, next@[a], level, li));
                let k = choose|k: int| 0 <= k < li && #[trigger] level[k] == pred@[next@[a] as int];
                assert(level[k] == pred@[next@[a] as int]);
            } else {
                assert(level[li] == pred@[next@[a] as int]);
            }
        }
        assert forall|y: int| #[trigger] has_edge(ps, cur as int, y) implies 0 <= dist[y] <= d + 1 by {
            assert(plist@.contains(y as usize));
            let u = choose|u: int| 0 <= u < plist@.len() && plist@[u] == y as usize;
            assert(plist@[u] as int == y);
            assert(0 <= dist[plist@[u] as int] <= d + 1);
        }
    }
    (Ghost(dist), Ghost(order))
}

/// Expands one level of the search: every node at depth `d` has its
/// unvisited parents reached at depth `d + 1`; returns the new level.
fn bfs_expand_level(
    parents: &Vec<Vec<usize>>,
    level: &Vec<usize>,
    visited: &mut Vec<bool>,
    pred: &mut Vec<usize>,
    count: &mut usize,
    Ghost(s): Ghost<int>,
    Ghost(d): Ghost<int>,
    Ghost(dist): Ghost<Seq<int>>,
    Ghost(order): Ghost<Seq<usize>>,
) -> (r: (Vec<usize>, Ghost<Seq<int>>, Ghost<Seq<usize>>))
    requires
        graph_wf(lists_of(parents@)),
        graph_sorted(lists_of(parents@)),
        walks_ascend(old(pred)@, dist, level@),
        least_preds(lists_of(parents@), dist, old(pred)@, d),
        dist.len() == parents@.len(),
        old(visited)@.len() == parents@.len(),
        old(pred)@.len() == parents@.len(),
        d >= 0,
        bfs_state(lists_of(parents@), s, dist, old(pred)@, d),
        bfs_marks(parents@.len() as int, dist, old(visited)@, order, *old(count) as int),
        is_level(parents@.len() as int, dist, level@, d),
    ensures
        r.1@.len() == parents@.len(),
        final(visited)@.len() == old(visited)@.len(),
        final(pred)@.len() == old(pred)@.len(),
        bfs_state(lists_of(parents@), s, r.1@, final(pred)@, d + 1),
        bfs_marks(parents@.len() as int, r.1@, final(visited)@, r.2@, *final(count) as int),
        is_level(parents@.len() as int, r.1@, r.0@, d + 1),
        *final(count) == *old(count) + r.0@.len(),
        least_preds(lists_of(parents@), r.1@, final(pred)@, d + 1),
        walks_ascend(final(pred)@, r.1@, r.0@),
{
    let ghost ps = lists_of(parents@);
    let ghost n = parents@.len() as int;
    let ghost mut dist = dist;
    let ghost mut order = order;
    let ghost count0 = *count;
    let n_exec = parents.len();
    let mut next: Vec<usize> = Vec::new();
    let mut li: usize = 0;
    proof {
        reveal(bfs_core);
        reveal(is_level);
        assert(bfs_core(ps, s, dist, pred@, d, d + 1));
        assert forall|x: int| 0 <= x < n && dist[x] == d + 1 implies next@.contains(x as usize) by {
            assert(dist[x] <= d);
        }
        assert(is_level(n, dist, next@, d + 1));
        reveal(least_preds);
        reveal(walks_ascend);
    }
    while li < level.len()
        invariant
            ps == lists_of(parents@),
            graph_sorted(ps),
            walks_ascend(pred@, dist, level@),
            least_preds(ps, dist, pred@, d + 1),
            walks_ascend(pred@, dist, next@),
            forall|a: int| 0 <= a < next@.len() ==> pred_before(pred@, #[trigger] next@[a], level@, li as int),
            n == parents@.len(),
            graph_wf(ps),
            dist.len() == n,
            ps.len() == n,
            n == n_exec,
            d >= 0,
            visited@.len() == n,
            pred@.len() == n,
            li <= level@.len(),
            bfs_core(ps, s, dist, pred@, d, d + 1),
            bfs_marks(n, dist, visited@, order, *count as int),
            is_level(n, dist, level@, d),
            is_level(n, dist, next@, d + 1),
            *count == count0 + next@.len(),
            forall|k: int, y: int|
                0 <= k < li && #[trigger] has_edge(ps, level@[k] as int, y) ==> 0 <= dist[y] <= d + 1,
        decreases level@.len() - li,
    {
        proof {
            lemma_level_elem(n, dist, level@, d, li as int);
        }
        let cur = level[li];
        let ghost dist_before = dist;
        let (gd, go) = bfs_visit_parents(
            parents,
            cur,
            visited,
            pred,
            &mut next,
            count,
            Ghost(s),
            Ghost(d),
            Ghost(dist),
            Ghost(order),
            Ghost(level@),
            Ghost(li as int),
        );
        proof {
            dist = gd@;
            order = go@;
            lemma_level_stable(n, dist_before, dist, level@, d);
            assert forall|k: int, y: int|
                0 <= k < li + 1 && #[trigger] has_edge(ps, level@[k] as int, y) implies 0 <= dist[y] <= d + 1 by {
                if k < li {
                    assert(0 <= dist_before[y] <= d + 1);
                }
            }
        }
        li = li + 1;
    }
    proof {
        reveal(bfs_core);
        reveal(is_level);
        assert forall|x: int, y: int|
            0 <= x < n && 0 <= dist[x] < d + 1 && #[trigger] has_edge(ps, x, y) implies 0 <= dist[y] <= dist[x] + 1 by {
            if dist[x] == d {
                let k = choose|k: int| 0 <= k < level@.len() && level@[k] == x as usize;
                assert(has_edge(ps, level@[k] as int, y));
            }
        }
    }
    (next, Ghost(dist), Ghost(order))
}

/// A shortest walk from `s` to `g` (as node indices), or just `[g]` when `g`
/// is not an ancestor of `s`. Parents are explored level by level in
/// ascending order, as a breadth-first search does.
pub fn shortest_walk(parents: &Vec<Vec<usize>>, s: usize, g: usize) -> (w: Vec<usize>)
    requires
        graph_wf(lists_of(parents@)),
        graph_sorted(lists_of(parents@)),
        s < parents@.len(),
        g < parents@.len(),
        s != g,
    ensures
        reaches(lists_of(parents@), s as int, g as int) ==> is_shortest_walk(
            lists_of(parents@),
            as_ints(w@),
            s as int,
            g as int,
        ),
        reaches(lists_of(parents@), s as int, g as int) ==> forall|q: Seq<int>|
            #[trigger] is_shortest_walk(lists_of(parents@), q, s as int, g as int) ==> !lex_lt(q, as_ints(w@)),
        !reaches(lists_of(parents@), s as int, g as int) ==> w@ == seq![g],
{
    let ghost ps = lists_of(parents@);
    let n = parents.len();
    let mut visited: Vec<bool> = Vec::new();
    let mut pred: Vec<usize> = Vec::new();
    let mut z: usize = 0;
    while z < n
        invariant
            z <= n,
            visited@.len() == z,
            pred@.len() == z,
            forall|x: int| 0 <= x < z ==> !visited@[x],
        decreases n - z,
    {
        visited.push(false);
        pred.push(0);
        z = z + 1;
    }
    visited.set(s, true);
    let ghost mut dist: Seq<int> = Seq::new(n as nat, |x: int| if x == s as int { 0 } else { -1 });
    let ghost mut d: int = 0;
    let ghost mut order: Seq<usize> = seq![s];
    let mut count: usize = 1;
    let mut level: Vec<usize> = Vec::new();
    level.push(s);
    proof {
        reveal(bfs_core);
        reveal(bfs_marks);
        reveal(is_level);
        assert(level@[0] == s);
        assert(order[0] == s);
        assert forall|x: int| 0 <= x < n implies (visited@[x] <==> order.contains(x as usize)) by {
            if order.contains(x as usize) {
                let k = choose|k: int| 0 <= k < order.len() && order[k] == x as usize;
            }
        }
        assert forall|x: int| 0 <= x < n && dist[x] == d implies level@.contains(x as usize) by {
            assert(x == s as int);
        }
        reveal(least_preds);
        reveal(walks_ascend);
    }
    while !visited[g] && level.len() > 0
        invariant
            n == parents@.len(),
            ps == lists_of(parents@),
            graph_wf(ps),
            graph_sorted(ps),
            least_preds(ps, dist, pred@, d),
            walks_ascend(pred@, dist, level@),
            g < n,
            dist.len() == n,
            d >= 0,
            visited@.len() == n,
            pred@.len() == n,
            bfs_state(ps, s as int, dist, pred@, d),
            bfs_marks(n as int, dist, visited@, order, count as int),
            is_level(n as int, dist, level@, d),
            d >= 1 || level@ == seq![s],
        decreases n - count, level@.len(),
    {
        proof {
            reveal(bfs_marks);
            lemma_distinct_below_len(order, n as nat);
        }
        let (next, gd, go) = bfs_expand_level(
            parents,
            &level,
            &mut visited,
            &mut pred,
            &mut count,
            Ghost(s as int),
            Ghost(d),
            Ghost(dist),
            Ghost(order),
        );
        proof {
            dist = gd@;
            order = go@;
            reveal(bfs_marks);
            lemma_distinct_below_len(order, n as nat);
            d = d + 1;
        }
        level = next;
    }
    proof {
        reveal(bfs_marks);
    }
    if !visited[g] {
        proof {
            reveal(bfs_core);
            reveal(is_level);
            // Every reached node had all its parents reached: g is no ancestor of s.
            assert(level@.len() == 0);
            if reaches(ps, s as int, g as int) {
                let w = choose|w: Seq<int>| #[trigger] walk_between(ps, w, s as int, g as int) && w.len() >= 2;
                let inside = Set::new(|x: int| 0 <= x < n && dist[x] >= 0);
                assert forall|x: int, y: int| inside.contains(x) && has_edge(ps, x, y) implies inside.contains(y) by {
                    if dist[x] == d {
                        assert(level@.contains(x as usize));
                    }
                }
                assert(step(ps, w, 0));
                assert(has_edge(ps, s as int, w[1]));
                if dist[s as int] == d {
                    assert(level@.contains(s));
                }
                lemma_closed_walk(ps, w, inside, w.len() - 1);
            }
        }
        let mut only: Vec<usize> = Vec::new();
        only.push(g);
        return only;
    }
    let w = walk_back(parents, &pred, s, g, Ghost(dist), Ghost(d));
    proof {
        reveal(bfs_core);
        assert forall|q: Seq<int>| #[trigger] is_shortest_walk(ps, q, s as int, g as int) implies !lex_lt(q, as_ints(w@)) by {
            lemma_bfs_lower_bound(ps, s as int, dist, pred@, d, q, g as int);
            assert(walk_between(ps, as_ints(w@), s as int, g as int));
            lemma_tp_walk(ps, s as int, dist, pred@, d, d, g as int);
            lemma_tp_least(ps, s as int, dist, pred@, d, g as int, q);
        }
    }
    w
}

/// Follows predecessors from `g` back to `s` and returns the walk from `s`
/// to `g`, which is a shortest one.
fn walk_back(
    parents: &Vec<Vec<usize>>,
    pred: &Vec<usize>,
    s: usize,
    g: usize,
    Ghost(dist): Ghost<Seq<int>>,
    Ghost(d): Ghost<int>,
) -> (w: Vec<usize>)
    requires
        graph_wf(lists_of(parents@)),
        bfs_state(lists_of(parents@), s as int, dist, pred@, d),
        g < parents@.len(),
        s != g,
        dist[g as int] >= 0,
    ensures
        reaches(lists_of(parents@), s as int, g as int),
        is_shortest_walk(lists_of(parents@), as_ints(w@), s as int, g as int),
        as_ints(w@) == tp(pred@, dist, g as int),
{
    let ghost ps = lists_of(parents@);
    let n = parents.len();
    let mut back: Vec<usize> = Vec::new();
    back.push(g);
    let mut cur = g;
    let ghost mut tail: Seq<int> = seq![g as int];
    proof {
        reveal(bfs_core);
        lemma_walk_single(ps, g as int);
    }
    while cur != s
        invariant
            n == parents@.len(),
            ps == lists_of(parents@),
            bfs_state(ps, s as int, dist, pred@, d),
            cur < n,
            dist[cur as int] >= 0,
            walk_between(ps, tail, cur as int, g as int),
            tail.len() == dist[g as int] - dist[cur as int] + 1,
            back@.len() == tail.len(),
            forall|k: int| 0 <= k < back@.len() ==> back@[k] as int == tail[tail.len() - 1 - k],
            tp(pred@, dist, g as int) == tp(pred@, dist, cur as int) + tail.drop_first(),
        decreases dist[cur as int],
    {
        proof {
            reveal(bfs_core);
        }
        let p = pred[cur];
        proof {
            assert(dist[cur as int] >= 1);
            let old_tail = tail;
            let nt = seq![p as int] + old_tail;
            assert forall|k: int| 0 <= k < nt.len() - 1 implies #[trigger] step(ps, nt, k) by {
                if k > 0 {
                    assert(step(ps, old_tail, k - 1));
                    assert(nt[k] == old_tail[k - 1] && nt[k + 1] == old_tail[k]);
                }
            }
            assert forall|k: int| 0 <= k < nt.len() implies 0 <= #[trigger] nt[k] < ps.len() by {
                if k > 0 {
                    assert(nt[k] == old_tail[k - 1]);
                }
            }
            let pc = p as int;
            assert(dist[pc] == dist[cur as int] - 1);
            assert((dist[cur as int] as nat - 1) as nat == dist[pc] as nat);
            assert(tp(pred@, dist, cur as int) == tp(pred@, dist, pc).push(cur as int));
            assert(old_tail[0] == cur as int);
            assert(tp(pred@, dist, pc) + nt.drop_first() =~= tp(pred@, dist, cur as int) + old_tail.drop_first()) by {
                assert(nt.drop_first() =~= old_tail);
                assert(old_tail =~= seq![cur as int] + old_tail.drop_first());
            }
            tail = nt;
        }
        back.push(p);
        cur = p;
    }
    let mut w: Vec<usize> = Vec::new();
    let mut k: usize = back.len();
    while k > 0
        invariant
            k <= back@.len(),
            w@.len() == back@.len() - k,
            back@.len() == tail.len(),
            forall|j: int| 0 <= j < back@.len() ==> back@[j] as int == tail[tail.len() - 1 - j],
            forall|j: int| 0 <= j < w@.len() ==> w@[j] as int == tail[j],
        decreases k,
    {
        k = k - 1;
        w.push(back[k]);
    }
    proof {
        assert(as_ints(w@) =~= tail);
        reveal(bfs_core);
        assert(dist[s as int] == 0);
        assert(tp(pred@, dist, s as int) =~= seq![s as int]);
        assert(tail[0] == s as int);
        assert(tail =~= seq![s as int] + tail.drop_first());
        assert forall|q: Seq<int>| #[trigger] walk_between(ps, q, s as int, g as int) implies tail.len() <= q.len() by {
            lemma_bfs_lower_bound(ps, s as int, dist, pred@, d, q, g as int);
        }
        reveal(bfs_core);
        assert(dist[g as int] >= 1) by {
            if dist[g as int] == 0 {
                assert(g == s);
            }
        }
        assert(walk_between(ps, tail, s as int, g as int) && tail.len() >= 2);
    }
    w
}

} // verus!
