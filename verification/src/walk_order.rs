//! The order in which breadth-first search settles walks: lexicographic
//! order on node sequences, and the tree of predecessors it records.
use vstd::prelude::*;

verus! {

/// `a` and `b` agree before position `i`, where `a` holds the smaller node.
pub open spec fn first_diff(a: Seq<int>, b: Seq<int>, i: int) -> bool {
    &&& 0 <= i < a.len()
    &&& i < b.len()
    &&& a[i] < b[i]
    &&& a.take(i) == b.take(i)
}

/// `a` comes strictly before `b` in lexicographic order.
pub open spec fn lex_lt(a: Seq<int>, b: Seq<int>) -> bool {
    exists|i: int| #[trigger] first_diff(a, b, i)
}

pub proof fn lemma_lex_irreflexive(a: Seq<int>)
    ensures
        !lex_lt(a, a),
{
}

pub proof fn lemma_lex_asymmetric(a: Seq<int>, b: Seq<int>)
    requires
        lex_lt(a, b),
    ensures
        !lex_lt(b, a),
{
    let i = choose|i: int| #[trigger] first_diff(a, b, i);
    if lex_lt(b, a) {
        let j = choose|j: int| #[trigger] first_diff(b, a, j);
        if i < j {
            assert(b.take(j)[i] == a.take(j)[i]);
        } else if j < i {
            assert(a.take(i)[j] == b.take(i)[j]);
        }
    }
}

pub proof fn lemma_lex_transitive(a: Seq<int>, b: Seq<int>, c: Seq<int>)
    requires
        lex_lt(a, b),
        lex_lt(b, c),
    ensures
        lex_lt(a, c),
{
    let i = choose|i: int| #[trigger] first_diff(a, b, i);
    let j = choose|j: int| #[trigger] first_diff(b, c, j);
    if i < j {
        assert(b.take(j)[i] == c.take(j)[i]);
        assert(a.take(i) =~= c.take(i)) by {
            assert forall|t: int| 0 <= t < i implies a.take(i)[t] == c.take(i)[t] by {
                assert(a.take(i)[t] == b.take(i)[t]);
                assert(b.take(j)[t] == c.take(j)[t]);
            }
        }
        assert(first_diff(a, c, i));
    } else if j < i {
        assert(a.take(i)[j] == b.take(i)[j]);
        assert(a.take(j) =~= c.take(j)) by {
            assert forall|t: int| 0 <= t < j implies a.take(j)[t] == c.take(j)[t] by {
                assert(a.take(i)[t] == b.take(i)[t]);
                assert(b.take(j)[t] == c.take(j)[t]);
            }
        }
        assert(first_diff(a, c, j));
    } else {
        assert(a.take(i) =~= c.take(i));
        assert(first_diff(a, c, i));
    }
}

/// Sequences of one length are equal or ordered one way or the other.
pub proof fn lemma_lex_total(a: Seq<int>, b: Seq<int>)
    requires
        a.len() == b.len(),
    ensures
        a == b || lex_lt(a, b) || lex_lt(b, a),
{
    if a != b {
        assert(!(a =~= b));
        // The least position where they differ.
        assert(exists|i: int| 0 <= i < a.len() && a[i] != b[i] && forall|t: int| 0 <= t < i ==> a[t] == b[t]) by {
            lemma_first_difference(a, b, a.len() as int);
        }
        let i = choose|i: int| 0 <= i < a.len() && a[i] != b[i] && forall|t: int| 0 <= t < i ==> a[t] == b[t];
        assert(a.take(i) =~= b.take(i));
        if a[i] < b[i] {
            assert(first_diff(a, b, i));
        } else {
            assert(first_diff(b, a, i));
        }
    }
}

proof fn lemma_first_difference(a: Seq<int>, b: Seq<int>, n: int)
    requires
        a.len() == b.len(),
        0 <= n <= a.len(),
        exists|k: int| 0 <= k < n && a[k] != b[k],
    ensures
        exists|i: int| 0 <= i < a.len() && a[i] != b[i] && forall|t: int| 0 <= t < i ==> a[t] == b[t],
    decreases n,
{
    if exists|k: int| 0 <= k < n - 1 && a[k] != b[k] {
        lemma_first_difference(a, b, n - 1);
    } else {
        let i = n - 1;
        assert(a[i] != b[i]);
        assert(forall|t: int| 0 <= t < i ==> a[t] == b[t]);
    }
}

/// Extending sequences of one length by one node each.
pub proof fn lemma_lex_push(a: Seq<int>, b: Seq<int>, x: int, y: int)
    requires
        a.len() == b.len(),
    ensures
        lex_lt(a.push(x), b.push(y)) <==> (lex_lt(a, b) || (a == b && x < y)),
{
    let ap = a.push(x);
    let bp = b.push(y);
    if lex_lt(a, b) {
        let i = choose|i: int| #[trigger] first_diff(a, b, i);
        assert(ap.take(i) =~= a.take(i));
        assert(bp.take(i) =~= b.take(i));
        assert(first_diff(ap, bp, i));
    } else if a == b && x < y {
        assert(ap.take(a.len() as int) =~= a);
        assert(bp.take(b.len() as int) =~= b);
        assert(first_diff(ap, bp, a.len() as int));
    }
    if lex_lt(ap, bp) {
        let i = choose|i: int| #[trigger] first_diff(ap, bp, i);
        if i < a.len() {
            assert(a.take(i) =~= ap.take(i));
            assert(b.take(i) =~= bp.take(i));
            assert(first_diff(a, b, i));
        } else {
            assert(a =~= ap.take(i));
            assert(b =~= bp.take(i));
        }
    }
}

/// The walk recorded for `x` by predecessors, `k` steps long: the walk of
/// its predecessor, then `x`.
pub open spec fn tree_path(pred: Seq<usize>, x: int, k: nat) -> Seq<int>
    decreases k,
{
    if k == 0 {
        seq![x]
    } else {
        tree_path(pred, pred[x] as int, (k - 1) as nat).push(x)
    }
}

/// The recorded walk of a reached node: as many steps as its depth.
pub open spec fn tp(pred: Seq<usize>, dist: Seq<int>, x: int) -> Seq<int> {
    tree_path(pred, x, dist[x] as nat)
}

/// Predecessors lead one level up: every node reached at depth `k >= 1`
/// has its predecessor at depth `k - 1`.
pub open spec fn pred_chain(dist: Seq<int>, pred: Seq<usize>) -> bool {
    &&& pred.len() == dist.len()
    &&& forall|z: int| 0 <= z < dist.len() && #[trigger] dist[z] >= 1 ==> pred[z] < dist.len() && dist[pred[z] as int] == dist[z] - 1
}

pub proof fn lemma_tree_path_len(pred: Seq<usize>, x: int, k: nat)
    ensures
        tree_path(pred, x, k).len() == k + 1,
        tree_path(pred, x, k).last() == x,
    decreases k,
{
    if k > 0 {
        lemma_tree_path_len(pred, pred[x] as int, (k - 1) as nat);
    }
}

/// Recording a new node leaves the walks of the reached ones as they were.
pub proof fn lemma_tree_path_stable(dist: Seq<int>, pred: Seq<usize>, pred2: Seq<usize>, x: int)
    requires
        pred_chain(dist, pred),
        0 <= x < dist.len(),
        dist[x] >= 0,
        pred2.len() == pred.len(),
        forall|z: int| 0 <= z < dist.len() && dist[z] >= 1 ==> #[trigger] pred2[z] == pred[z],
    ensures
        tree_path(pred2, x, dist[x] as nat) == tree_path(pred, x, dist[x] as nat),
    decreases dist[x],
{
    if dist[x] >= 1 {
        assert(pred2[x] == pred[x]);
        lemma_tree_path_stable(dist, pred, pred2, pred[x] as int);
        assert(dist[pred[x] as int] as nat == (dist[x] as nat - 1) as nat);
    }
}

} // verus!
