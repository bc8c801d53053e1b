//! Sorted sets kept in vectors: concept names in `str` order, and node
//! indices in ascending order.
use crate::order::{compare_names, lemma_name_lt_asymmetric, lemma_name_lt_irreflexive, lemma_name_lt_transitive, name_lt, Cmp};
use vstd::prelude::*;

verus! {

/// The names held by a vector of strings.
pub open spec fn names_of(v: Seq<String>) -> Seq<Seq<char>> {
    v.map_values(|s: String| s@)
}

/// Strictly ascending in `str` order (so also free of duplicates).
pub open spec fn sorted_names(s: Seq<Seq<char>>) -> bool {
    forall|i: int, j: int| 0 <= i < j < s.len() ==> #[trigger] name_lt(s[i], s[j])
}

/// Strictly ascending indices.
pub open spec fn sorted_idx(s: Seq<usize>) -> bool {
    forall|i: int, j: int| 0 <= i < j < s.len() ==> s[i] < s[j]
}

/// Every index below `n`.
pub open spec fn idx_below(s: Seq<usize>, n: int) -> bool {
    forall|i: int| 0 <= i < s.len() ==> s[i] < n
}

/// Position of `x` among names (meaningful when it occurs).
pub open spec fn name_pos(s: Seq<Seq<char>>, x: Seq<char>) -> int {
    choose|i: int| 0 <= i < s.len() && s[i] == x
}

/// In a sorted sequence a name occurs at one position only.
pub proof fn lemma_name_pos(s: Seq<Seq<char>>, i: int)
    requires
        sorted_names(s),
        0 <= i < s.len(),
    ensures
        name_pos(s, s[i]) == i,
{
    let k = name_pos(s, s[i]);
    if k != i {
        lemma_sorted_names_distinct(s, k, i);
    }
}

pub proof fn lemma_sorted_names_distinct(s: Seq<Seq<char>>, i: int, j: int)
    requires
        sorted_names(s),
        0 <= i < s.len(),
        0 <= j < s.len(),
        i != j,
    ensures
        s[i] != s[j],
{
    if i < j {
        assert(name_lt(s[i], s[j]));
        lemma_name_lt_irreflexive(s[i]);
    } else {
        assert(name_lt(s[j], s[i]));
        lemma_name_lt_irreflexive(s[j]);
    }
}

/// Position of `x` in a sorted vector of names: `Ok` with its index, or
/// `Err` with the place where it would go.
pub fn find_name(v: &Vec<String>, x: &str) -> (r: Result<usize, usize>)
    requires
        sorted_names(names_of(v@)),
    ensures
        r matches Ok(i) ==> i < v@.len() && v@[i as int]@ == x@,
        r matches Err(p) ==> {
            &&& p <= v@.len()
            &&& !names_of(v@).contains(x@)
            &&& forall|k: int| 0 <= k < p ==> name_lt(#[trigger] v@[k]@, x@)
            &&& forall|k: int| p <= k < v@.len() ==> name_lt(x@, #[trigger] v@[k]@)
        },
{
    let ghost s = names_of(v@);
    let mut lo: usize = 0;
    let mut hi: usize = v.len();
    while lo < hi
        invariant
            lo <= hi <= v@.len(),
            s == names_of(v@),
            sorted_names(s),
            forall|k: int| 0 <= k < lo ==> name_lt(#[trigger] v@[k]@, x@),
            forall|k: int| hi <= k < v@.len() ==> name_lt(x@, #[trigger] v@[k]@),
        decreases hi - lo,
    {
        let mid = lo + (hi - lo) / 2;
        let c = compare_names(v[mid].as_str(), x);
        match c {
            Cmp::Equal => {
                return Ok(mid);
            },
            Cmp::Less => {
                assert forall|k: int| 0 <= k < mid + 1 implies name_lt(#[trigger] v@[k]@, x@) by {
                    if k < mid {
                        assert(s[k] == v@[k]@ && s[mid as int] == v@[mid as int]@);
                        assert(name_lt(s[k], s[mid as int]));
                        lemma_name_lt_transitive(v@[k]@, v@[mid as int]@, x@);
                    }
                }
                lo = mid + 1;
            },
            Cmp::Greater => {
                assert forall|k: int| mid <= k < v@.len() implies name_lt(x@, #[trigger] v@[k]@) by {
                    if k > mid {
                        assert(s[k] == v@[k]@ && s[mid as int] == v@[mid as int]@);
                        assert(name_lt(s[mid as int], s[k]));
                        lemma_name_lt_transitive(x@, v@[mid as int]@, v@[k]@);
                    }
                }
                hi = mid;
            },
        }
    }
    assert(!s.contains(x@)) by {
        if s.contains(x@) {
            let k = choose|k: int| 0 <= k < s.len() && s[k] == x@;
            assert(s[k] == v@[k]@);
            lemma_name_lt_irreflexive(x@);
        }
    }
    Err(lo)
}

/// Adds `x` to a sorted vector of names, keeping it sorted; returns the
/// index at which `x` now stands.
pub fn insert_name(v: &mut Vec<String>, x: &str) -> (idx: usize)
    requires
        sorted_names(names_of(old(v)@)),
    ensures
        sorted_names(names_of(final(v)@)),
        names_of(final(v)@).to_set() == names_of(old(v)@).to_set().insert(x@),
        idx < final(v)@.len(),
        final(v)@[idx as int]@ == x@,
        names_of(old(v)@).contains(x@) ==> final(v)@ == old(v)@,
{
    match find_name(v, x) {
        Ok(i) => {
            assert(names_of(v@).contains(x@)) by {
                assert(names_of(v@)[i as int] == x@);
            }
            assert(names_of(v@).to_set().insert(x@) =~= names_of(v@).to_set());
            i
        },
        Err(p) => {
            let ghost old_s = names_of(v@);
            let xs = x.to_owned();
            v.insert(p, xs);
            let ghost new_s = names_of(v@);
            assert(new_s =~= old_s.insert(p as int, x@));
            assert(sorted_names(new_s)) by {
                assert forall|i: int, j: int| 0 <= i < j < new_s.len() implies #[trigger] name_lt(
                    new_s[i],
                    new_s[j],
                ) by {
                    if j < p {
                        assert(name_lt(old_s[i], old_s[j]));
                    } else if j == p {
                        assert(old_s[i] == old(v)@[i]@);
                    } else if i < p {
                        assert(old_s[i] == old(v)@[i]@);
                        assert(old_s[j - 1] == old(v)@[j - 1]@);
                        lemma_name_lt_transitive(old_s[i], x@, old_s[j - 1]);
                    } else if i == p {
                        assert(old_s[j - 1] == old(v)@[j - 1]@);
                    } else {
                        assert(name_lt(old_s[i - 1], old_s[j - 1]));
                    }
                }
            }
            assert(new_s.to_set() =~= old_s.to_set().insert(x@)) by {
                assert forall|y| new_s.to_set().contains(y) implies old_s.to_set().insert(
                    x@,
                ).contains(y) by {
                    let k = choose|k: int| 0 <= k < new_s.len() && new_s[k] == y;
                    if k < p {
                        assert(old_s[k] == y);
                    } else if k > p {
                        assert(old_s[k - 1] == y);
                    }
                }
                assert forall|y| old_s.to_set().insert(x@).contains(y) implies new_s.to_set().contains(
                    y,
                ) by {
                    if y == x@ {
                        assert(new_s[p as int] == y);
                    } else {
                        let k = choose|k: int| 0 <= k < old_s.len() && old_s[k] == y;
                        if k < p {
                            assert(new_s[k] == y);
                        } else {
                            assert(new_s[k + 1] == y);
                        }
                    }
                }
            }
            p
        },
    }
}

/// Adds `x` to a strictly ascending vector of indices, keeping it so.
pub fn insert_idx(v: &mut Vec<usize>, x: usize)
    requires
        sorted_idx(old(v)@),
    ensures
        sorted_idx(final(v)@),
        final(v)@.to_set() == old(v)@.to_set().insert(x),
{
    let mut p: usize = 0;
    while p < v.len() && v[p] < x
        invariant
            p <= v@.len(),
            sorted_idx(v@),
            forall|k: int| 0 <= k < p ==> v@[k] < x,
        decreases v@.len() - p,
    {
        p = p + 1;
    }
    if p < v.len() && v[p] == x {
        assert(v@.to_set().insert(x) =~= v@.to_set()) by {
            assert(v@[p as int] == x);
        }
        return ;
    }
    let ghost old_s = v@;
    v.insert(p, x);
    assert(v@ =~= old_s.insert(p as int, x));
    assert(sorted_idx(v@)) by {
        assert forall|i: int, j: int| 0 <= i < j < v@.len() implies v@[i] < v@[j] by {
            if j < p {
            } else if j == p {
            } else if i < p {
                assert(old_s[j - 1] > x) by {
                    if p < old_s.len() {
                        assert(old_s[p as int] >= x);
                        assert(old_s[p as int] != x);
                        if j - 1 > p {
                            assert(old_s[p as int] < old_s[j - 1]);
                        }
                    }
                }
            } else if i == p {
                assert(old_s[p as int] > x) by {
                    assert(old_s[p as int] != x);
                }
                if j - 1 > p {
                    assert(old_s[p as int] < old_s[j - 1]);
                }
            } else {
                assert(old_s[i - 1] < old_s[j - 1]);
            }
        }
    }
    assert(v@.to_set() =~= old_s.to_set().insert(x)) by {
        assert forall|y| v@.to_set().contains(y) implies old_s.to_set().insert(x).contains(y) by {
            let k = choose|k: int| 0 <= k < v@.len() && v@[k] == y;
            if k < p {
                assert(old_s[k] == y);
            } else if k > p {
                assert(old_s[k - 1] == y);
            }
        }
        assert forall|y| old_s.to_set().insert(x).contains(y) implies v@.to_set().contains(y) by {
            if y == x {
                assert(v@[p as int] == y);
            } else {
                let k = choose|k: int| 0 <= k < old_s.len() && old_s[k] == y;
                if k < p {
                    assert(v@[k] == y);
                } else {
                    assert(v@[k + 1] == y);
                }
            }
        }
    }
}

} // verus!

verus! {

/// Two strictly ascending index sequences holding the same indices are equal.
pub proof fn lemma_sorted_idx_unique(a: Seq<usize>, b: Seq<usize>)
    requires
        sorted_idx(a),
        sorted_idx(b),
        a.to_set() == b.to_set(),
    ensures
        a == b,
    decreases a.len(),
{
    if a.len() == 0 {
        if b.len() > 0 {
            assert(b.to_set().contains(b[0]));
        }
        assert(a =~= b);
    } else {
        assert(a.to_set().contains(a[0]));
        assert(b.to_set().contains(a[0]));
        assert(b.len() > 0);
        assert(b.to_set().contains(b[0]));
        assert(a.to_set().contains(b[0]));
        let j = choose|j: int| 0 <= j < b.len() && b[j] == a[0];
        let k = choose|k: int| 0 <= k < a.len() && a[k] == b[0];
        if j > 0 {
            assert(b[0] < b[j]);
        }
        if k > 0 {
            assert(a[0] < a[k]);
        }
        assert(a[0] == b[0]);
        let a2 = a.drop_first();
        let b2 = b.drop_first();
        assert(a2.to_set() =~= b2.to_set()) by {
            assert forall|x| a2.to_set().contains(x) implies b2.to_set().contains(x) by {
                let t = choose|t: int| 0 <= t < a2.len() && a2[t] == x;
                assert(a[t + 1] == x);
                assert(a[0] < a[t + 1]);
                assert(a.to_set().contains(x));
                let u = choose|u: int| 0 <= u < b.len() && b[u] == x;
                assert(u != 0);
                assert(b2[u - 1] == x);
            }
            assert forall|x| b2.to_set().contains(x) implies a2.to_set().contains(x) by {
                let t = choose|t: int| 0 <= t < b2.len() && b2[t] == x;
                assert(b[t + 1] == x);
                assert(b[0] < b[t + 1]);
                assert(b.to_set().contains(x));
                let u = choose|u: int| 0 <= u < a.len() && a[u] == x;
                assert(u != 0);
                assert(a2[u - 1] == x);
            }
        }
        lemma_sorted_idx_unique(a2, b2);
        assert(a =~= b) by {
            assert forall|t: int| 0 <= t < a.len() implies a[t] == b[t] by {
                if t > 0 {
                    assert(a[t] == a2[t - 1]);
                    assert(b[t] == b2[t - 1]);
                }
            }
        }
    }
}

/// Two strictly ascending name sequences holding the same names are equal.
pub proof fn lemma_sorted_names_unique(a: Seq<Seq<char>>, b: Seq<Seq<char>>)
    requires
        sorted_names(a),
        sorted_names(b),
        a.to_set() == b.to_set(),
    ensures
        a == b,
    decreases a.len(),
{
    if a.len() == 0 {
        if b.len() > 0 {
            assert(b.to_set().contains(b[0]));
        }
        assert(a =~= b);
    } else {
        assert(a.to_set().contains(a[0]));
        assert(b.to_set().contains(a[0]));
        assert(b.len() > 0);
        assert(b.to_set().contains(b[0]));
        assert(a.to_set().contains(b[0]));
        let j = choose|j: int| 0 <= j < b.len() && b[j] == a[0];
        let k = choose|k: int| 0 <= k < a.len() && a[k] == b[0];
        if j > 0 && k > 0 {
            assert(name_lt(b[0], b[j]));
            assert(name_lt(a[0], a[k]));
            lemma_name_lt_asymmetric(a[0], b[0]);
        } else if j > 0 {
            assert(a[0] == b[0]);
        } else if k > 0 {
            assert(a[0] == b[0]);
        }
        assert(a[0] == b[0]);
        let a2 = a.drop_first();
        let b2 = b.drop_first();
        assert(a2.to_set() =~= b2.to_set()) by {
            assert forall|x| a2.to_set().contains(x) implies b2.to_set().contains(x) by {
                let t = choose|t: int| 0 <= t < a2.len() && a2[t] == x;
                assert(a[t + 1] == x);
                assert(name_lt(a[0], a[t + 1]));
                lemma_name_lt_irreflexive(x);
                assert(a.to_set().contains(x));
                let u = choose|u: int| 0 <= u < b.len() && b[u] == x;
                assert(u != 0);
                assert(b2[u - 1] == x);
            }
            assert forall|x| b2.to_set().contains(x) implies a2.to_set().contains(x) by {
                let t = choose|t: int| 0 <= t < b2.len() && b2[t] == x;
                assert(b[t + 1] == x);
                assert(name_lt(b[0], b[t + 1]));
                lemma_name_lt_irreflexive(x);
                assert(b.to_set().contains(x));
                let u = choose|u: int| 0 <= u < a.len() && a[u] == x;
                assert(u != 0);
                assert(a2[u - 1] == x);
            }
        }
        assert(sorted_names(a2)) by {
            assert forall|i: int, j: int| 0 <= i < j < a2.len() implies #[trigger] name_lt(a2[i], a2[j]) by {
                assert(name_lt(a[i + 1], a[j + 1]));
            }
        }
        assert(sorted_names(b2)) by {
            assert forall|i: int, j: int| 0 <= i < j < b2.len() implies #[trigger] name_lt(b2[i], b2[j]) by {
                assert(name_lt(b[i + 1], b[j + 1]));
            }
        }
        lemma_sorted_names_unique(a2, b2);
        assert(a =~= b) by {
            assert forall|t: int| 0 <= t < a.len() implies a[t] == b[t] by {
                if t > 0 {
                    assert(a[t] == a2[t - 1]);
                    assert(b[t] == b2[t - 1]);
                }
            }
        }
    }
}

} // verus!
