//! Isomorphism canonicalization of sections, by instance relabeling.
//!
//! Two sections that differ only by swapping the instance numbers of two
//! otherwise identical placements are isomorphic. The canonical form is the
//! relabeling whose encoding is least, taken over every valid relabeling:
//! relabelings permute instances only *within* a `(germ, disjunct)` group, and
//! map each group's instances one to one onto `0..k`. Above a guard on the
//! number of relabelings, a dense per-group relabeling stands in for the
//! search: still a valid relabeling, only potentially less aggressive.
//!
//! This module computes the groups, the relabelings to try and their order,
//! applies a relabeling to a section's placements and bonds, and picks the
//! first candidate whose encoding is least.
use crate::order::{bytes_lt, compare_bytes, lemma_bytes_lt_asymmetric, lemma_bytes_lt_irreflexive, lemma_bytes_lt_total, lemma_bytes_lt_transitive, Cmp};
use vstd::prelude::*;

verus! {

/// `n!`.
pub open spec fn fact(n: nat) -> nat
    decreases n,
{
    if n == 0 {
        1
    } else {
        n * fact((n - 1) as nat)
    }
}

proof fn lemma_fact_positive(n: nat)
    ensures
        fact(n) >= 1,
    decreases n,
{
    if n > 0 {
        lemma_fact_positive((n - 1) as nat);
        assert(n * fact((n - 1) as nat) >= fact((n - 1) as nat)) by (nonlinear_arith)
            requires
                n >= 1,
                fact((n - 1) as nat) >= 1,
        ;
    }
}

proof fn lemma_fact_monotonic(i: nat, j: nat)
    requires
        i <= j,
    ensures
        fact(i) <= fact(j),
    decreases j,
{
    if i < j {
        lemma_fact_monotonic(i, (j - 1) as nat);
        lemma_fact_positive((j - 1) as nat);
        assert(j * fact((j - 1) as nat) >= fact((j - 1) as nat)) by (nonlinear_arith)
            requires
                j >= 1,
                fact((j - 1) as nat) >= 1,
        ;
    }
}

proof fn lemma_fact_value_34()
    ensures
        fact(34) == 295232799039604140847618609643520000000nat,
{
    assert(fact(0) == 1nat);
    assert(fact(1) == 1nat);
    assert(fact(2) == 2nat);
    assert(fact(3) == 6nat);
    assert(fact(4) == 24nat);
    assert(fact(5) == 120nat);
    assert(fact(6) == 720nat);
    assert(fact(7) == 5040nat);
    assert(fact(8) == 40320nat);
    assert(fact(9) == 362880nat);
    assert(fact(10) == 3628800nat);
    assert(fact(11) == 39916800nat);
    assert(fact(12) == 479001600nat);
    assert(fact(13) == 6227020800nat);
    assert(fact(14) == 87178291200nat);
    assert(fact(15) == 1307674368000nat);
    assert(fact(16) == 20922789888000nat);
    assert(fact(17) == 355687428096000nat);
    assert(fact(18) == 6402373705728000nat);
    assert(fact(19) == 121645100408832000nat);
    assert(fact(20) == 2432902008176640000nat);
    assert(fact(21) == 51090942171709440000nat);
    assert(fact(22) == 1124000727777607680000nat);
    assert(fact(23) == 25852016738884976640000nat);
    assert(fact(24) == 620448401733239439360000nat);
    assert(fact(25) == 15511210043330985984000000nat);
    assert(fact(26) == 403291461126605635584000000nat);
    assert(fact(27) == 10888869450418352160768000000nat);
    assert(fact(28) == 304888344611713860501504000000nat);
    assert(fact(29) == 8841761993739701954543616000000nat);
    assert(fact(30) == 265252859812191058636308480000000nat);
    assert(fact(31) == 8222838654177922817725562880000000nat);
    assert(fact(32) == 263130836933693530167218012160000000nat);
    assert(fact(33) == 8683317618811886495518194401280000000nat);
    assert(fact(34) == 295232799039604140847618609643520000000nat);
}

/// `34!` is the largest factorial that fits in a `u128`.
proof fn lemma_fact_fits(n: nat)
    requires
        n <= 34,
    ensures
        fact(n) <= u128::MAX,
{
    lemma_fact_value_34();
    lemma_fact_monotonic(n, 34);
}

/// `n!`, the number of orderings of `n` distinct items (`0! == 1`).
pub fn factorial(n: usize) -> (r: u128)
    requires
        n <= 34,
    ensures
        r == fact(n as nat),
{
    let mut acc: u128 = 1;
    let mut k: usize = 0;
    while k < n
        invariant
            k <= n <= 34,
            acc == fact(k as nat),
        decreases n - k,
    {
        k = k + 1;
        proof {
            lemma_fact_fits(k as nat);
        }
        assert(acc * (k as u128) == fact(k as nat)) by (nonlinear_arith)
            requires
                acc == fact((k - 1) as nat),
                fact(k as nat) == k * fact((k - 1) as nat),
        ;
        acc = acc * (k as u128);
    }
    acc
}

/// Each of `ts`, with `x` put in front.
pub open spec fn prepend(x: u32, ts: Seq<Seq<u32>>) -> Seq<Seq<u32>> {
    ts.map_values(|t: Seq<u32>| seq![x] + t)
}

/// Every ordering of the items of `s`: those that begin with `s[0]` first,
/// then those that begin with `s[1]`, and so on, each group in the order of
/// the orderings of the remaining items.
pub open spec fn perms(s: Seq<u32>) -> Seq<Seq<u32>>
    decreases s.len(), 1nat, 0nat,
{
    if s.len() == 0 {
        seq![seq![]]
    } else {
        perms_upto(s, s.len())
    }
}

/// The orderings of `s` that begin with one of its first `k` items.
pub open spec fn perms_upto(s: Seq<u32>, k: nat) -> Seq<Seq<u32>>
    decreases s.len(), 0nat, k,
{
    if k == 0 || k > s.len() {
        seq![]
    } else {
        perms_upto(s, (k - 1) as nat) + prepend(s[k - 1], perms(s.remove(k - 1)))
    }
}

/// The sequences held by a vector of vectors.
pub open spec fn seqs_of(v: Seq<Vec<u32>>) -> Seq<Seq<u32>> {
    v.map_values(|x: Vec<u32>| x@)
}

/// All permutations of `items`, in the order of `perms`.
pub fn permutations(items: &[u32]) -> (out: Vec<Vec<u32>>)
    ensures
        seqs_of(out@) == perms(items@),
    decreases items@.len(),
{
    if items.len() == 0 {
        let mut out: Vec<Vec<u32>> = Vec::new();
        out.push(Vec::new());
        assert(seqs_of(out@) =~= seq![seq![]]);
        return out;
    }
    let mut out: Vec<Vec<u32>> = Vec::new();
    let mut i: usize = 0;
    assert(seqs_of(out@) =~= perms_upto(items@, 0));
    while i < items.len()
        invariant
            i <= items@.len(),
            items@.len() > 0,
            seqs_of(out@) == perms_upto(items@, i as nat),
        decreases items@.len() - i,
    {
        let x = items[i];
        let mut rest = vstd::slice::slice_to_vec(items);
        rest.remove(i);
        let tails = permutations(rest.as_slice());
        let ghost base = seqs_of(out@);
        let ghost ts = seqs_of(tails@);
        let mut k: usize = 0;
        assert(base + prepend(x, ts.take(0)) =~= base);
        while k < tails.len()
            invariant
                k <= tails@.len(),
                ts == seqs_of(tails@),
                seqs_of(out@) == base + prepend(x, ts.take(k as int)),
            decreases tails@.len() - k,
        {
            let tail = &tails[k];
            let mut perm: Vec<u32> = Vec::new();
            perm.push(x);
            let mut t: usize = 0;
            while t < tail.len()
                invariant
                    t <= tail@.len(),
                    perm@ == seq![x] + tail@.take(t as int),
                decreases tail@.len() - t,
            {
                perm.push(tail[t]);
                assert(tail@.take(t + 1) =~= tail@.take(t as int).push(tail@[t as int]));
                t = t + 1;
            }
            assert(tail@.take(tail@.len() as int) =~= tail@);
            let ghost before = seqs_of(out@);
            out.push(perm);
            assert(ts.take(k + 1) =~= ts.take(k as int).push(ts[k as int]));
            assert(seqs_of(out@) =~= before.push(seq![x] + ts[k as int]));
            assert(prepend(x, ts.take(k + 1)) =~= prepend(x, ts.take(k as int)).push(seq![x] + ts[k as int]));
            k = k + 1;
        }
        assert(ts.take(ts.len() as int) =~= ts);
        assert(rest@ == items@.remove(i as int));
        i = i + 1;
    }
    out
}

/// The number of orderings of `s` is `s.len()!`.
pub proof fn law_permutation_count(s: Seq<u32>)
    ensures
        perms(s).len() == fact(s.len()),
    decreases s.len(), 1nat, 0nat,
{
    if s.len() > 0 {
        lemma_perms_upto_count(s, s.len());
    }
}

proof fn lemma_perms_upto_count(s: Seq<u32>, k: nat)
    requires
        0 < s.len(),
        k <= s.len(),
    ensures
        perms_upto(s, k).len() == k * fact((s.len() - 1) as nat),
    decreases s.len(), 0nat, k,
{
    if k == 0 {
        assert(k * fact((s.len() - 1) as nat) == 0) by (nonlinear_arith)
            requires
                k == 0,
        ;
    } else {
        lemma_perms_upto_count(s, (k - 1) as nat);
        law_permutation_count(s.remove(k - 1));
        assert(s.remove(k - 1).len() == s.len() - 1);
        assert(perms_upto(s, k).len() == perms_upto(s, (k - 1) as nat).len() + perms(s.remove(k - 1)).len());
        assert(k * fact((s.len() - 1) as nat) == (k - 1) * fact((s.len() - 1) as nat) + fact((s.len() - 1) as nat)) by (nonlinear_arith);
    }
}

/// Every ordering of `s` holds the items of `s`, each as often as `s` does.
pub proof fn law_permutations_rearrange(s: Seq<u32>, k: int)
    requires
        0 <= k < perms(s).len(),
    ensures
        perms(s)[k].to_multiset() == s.to_multiset(),
    decreases s.len(), 1nat, 0nat,
{
    if s.len() == 0 {
        assert(perms(s)[k] =~= seq![]);
        assert(s =~= seq![]);
    } else {
        lemma_perms_upto_rearrange(s, s.len(), k);
    }
}

proof fn lemma_perms_upto_rearrange(s: Seq<u32>, n: nat, k: int)
    requires
        0 < s.len(),
        n <= s.len(),
        0 <= k < perms_upto(s, n).len(),
    ensures
        perms_upto(s, n)[k].to_multiset() == s.to_multiset(),
    decreases s.len(), 0nat, n,
{
    let a = perms_upto(s, (n - 1) as nat);
    let b = prepend(s[n - 1], perms(s.remove(n - 1)));
    assert(perms_upto(s, n) == a + b);
    if k < a.len() {
        lemma_perms_upto_rearrange(s, (n - 1) as nat, k);
    } else {
        let j = k - a.len();
        let r = s.remove(n - 1);
        law_permutations_rearrange(r, j);
        let t = perms(r)[j];
        assert(b[j] == seq![s[n - 1]] + t);
        assert((seq![s[n - 1]] + t).remove(0) =~= t);
        lemma_remove_multiset(seq![s[n - 1]] + t, 0);
        lemma_remove_multiset(s, n - 1);
    }
}

proof fn lemma_remove_multiset(s: Seq<u32>, i: int)
    requires
        0 <= i < s.len(),
    ensures
        s.to_multiset() == s.remove(i).to_multiset().insert(s[i]),
{
    broadcast use vstd::seq_lib::group_to_multiset_ensures;
    broadcast use vstd::multiset::group_multiset_axioms;
    assert(s.contains(s[i]));
    assert(s.to_multiset().count(s[i]) > 0);
    assert(s.to_multiset() =~= s.to_multiset().remove(s[i]).insert(s[i]));
}

/// A placement, by what canonicalization reads of it: its germ (by position
/// in the manifest's ordered list of germs), its disjunct and its instance.
#[derive(Debug, Clone, Copy, PartialEq, Eq, Structural)]
pub struct PlacementKey {
    pub germ: usize,
    pub disjunct: u32,
    pub instance: u32,
}

/// A port of a placement.
#[derive(Debug, Clone, Copy, PartialEq, Eq, Structural)]
pub struct PortKey {
    pub placement: PlacementKey,
    pub port: u32,
}

/// A bond between two ports, from its `Out` end to its `In` end.
#[derive(Debug, Clone, Copy, PartialEq, Eq, Structural)]
pub struct BondKey {
    pub from: PortKey,
    pub to: PortKey,
}

/// The instances placed for one `(germ, disjunct)` pair, ascending.
#[derive(Debug, Clone)]
pub struct InstanceGroup {
    pub germ: usize,
    pub disjunct: u32,
    pub instances: Vec<u32>,
}

/// What a group holds, as plain values.
pub struct GroupView {
    pub germ: usize,
    pub disjunct: u32,
    pub instances: Seq<u32>,
}

impl View for InstanceGroup {
    type V = GroupView;

    open spec fn view(&self) -> GroupView {
        GroupView { germ: self.germ, disjunct: self.disjunct, instances: self.instances@ }
    }
}

/// The views of a list of groups.
pub open spec fn group_views(gs: Seq<InstanceGroup>) -> Seq<GroupView> {
    gs.map_values(|g: InstanceGroup| g@)
}

/// `(g1, d1)` comes before `(g2, d2)`.
pub open spec fn key_lt(g1: usize, d1: u32, g2: usize, d2: u32) -> bool {
    g1 < g2 || (g1 == g2 && d1 < d2)
}

/// Strictly ascending.
pub open spec fn sorted_u32(s: Seq<u32>) -> bool {
    forall|i: int, j: int| 0 <= i < j < s.len() ==> s[i] < s[j]
}

/// Groups in ascending key order, each with a non-empty ascending list.
pub open spec fn groups_wf(gs: Seq<GroupView>) -> bool {
    &&& forall|i: int, j: int|
        0 <= i < j < gs.len() ==> key_lt(gs[i].germ, gs[i].disjunct, gs[j].germ, gs[j].disjunct)
    &&& forall|k: int| 0 <= k < gs.len() ==> sorted_u32(#[trigger] gs[k].instances) && gs[k].instances.len() > 0
}

/// `p` belongs to group `g`.
pub open spec fn in_group(g: GroupView, p: PlacementKey) -> bool {
    g.germ == p.germ && g.disjunct == p.disjunct && g.instances.contains(p.instance)
}

/// Placement `p` stands in one of the groups.
pub open spec fn covered(gs: Seq<GroupView>, p: PlacementKey) -> bool {
    exists|k: int| 0 <= k < gs.len() && #[trigger] in_group(gs[k], p)
}

/// Instance `x` of group `g` is that of some placement of `ps`.
pub open spec fn placed(ps: Seq<PlacementKey>, g: GroupView, x: u32) -> bool {
    exists|i: int| 0 <= i < ps.len() && ps[i].germ == g.germ && ps[i].disjunct == g.disjunct && #[trigger] ps[i].instance == x
}

/// `gs` are the groups of the placements `ps`: every placement stands in a
/// group, and every instance of a group is that of a placement.
pub open spec fn groups_of(ps: Seq<PlacementKey>, gs: Seq<GroupView>) -> bool {
    &&& groups_wf(gs)
    &&& forall|i: int| 0 <= i < ps.len() ==> covered(gs, #[trigger] ps[i])
    &&& forall|k: int, x: u32| 0 <= k < gs.len() && #[trigger] gs[k].instances.contains(x) ==> placed(ps, gs[k], x)
}

/// Adds `x` to an ascending list.
fn insert_u32(v: &mut Vec<u32>, x: u32)
    requires
        sorted_u32(old(v)@),
    ensures
        sorted_u32(final(v)@),
        final(v)@.to_set() == old(v)@.to_set().insert(x),
        final(v)@.len() > 0,
{
    let mut p: usize = 0;
    while p < v.len() && v[p] < x
        invariant
            p <= v@.len(),
            sorted_u32(v@),
            forall|k: int| 0 <= k < p ==> v@[k] < x,
        decreases v@.len() - p,
    {
        p = p + 1;
    }
    if p < v.len() && v[p] == x {
        assert(v@.to_set().insert(x) =~= v@.to_set()) by {
            assert(v@[p as int] == x);
        }
        return ;
    }
    let ghost old_s = v@;
    v.insert(p, x);
    assert(v@ =~= old_s.insert(p as int, x));
    assert(sorted_u32(v@)) by {
        assert forall|i: int, j: int| 0 <= i < j < v@.len() implies v@[i] < v@[j] by {
            if j < p {
            } else if j == p {
            } else if i < p {
                assert(old_s[j - 1] > x) by {
                    if p < old_s.len() {
                        assert(old_s[p as int] >= x);
                        assert(old_s[p as int] != x);
                        if j - 1 > p {
                            assert(old_s[p as int] < old_s[j - 1]);
                        }
                    }
                }
            } else if i == p {
                assert(old_s[p as int] > x) by {
                    assert(old_s[p as int] != x);
                }
                if j - 1 > p {
                    assert(old_s[p as int] < old_s[j - 1]);
                }
            } else {
                assert(old_s[i - 1] < old_s[j - 1]);
            }
        }
    }
    assert(v@.to_set() =~= old_s.to_set().insert(x)) by {
        assert forall|y| v@.to_set().contains(y) implies old_s.to_set().insert(x).contains(y) by {
            let t = choose|t: int| 0 <= t < v@.len() && v@[t] == y;
            if t < p {
                assert(old_s[t] == y);
            } else if t > p {
                assert(old_s[t - 1] == y);
            }
        }
        assert forall|y| old_s.to_set().insert(x).contains(y) implies v@.to_set().contains(y) by {
            if y == x {
                assert(v@[p as int] == y);
            } else {
                let t = choose|t: int| 0 <= t < old_s.len() && old_s[t] == y;
                if t < p {
                    assert(v@[t] == y);
                } else {
                    assert(v@[t + 1] == y);
                }
            }
        }
    }
}

/// The `(germ, disjunct)` groups of the placements, keys ascending, each
/// with its distinct instances ascending.
pub fn instance_groups(placements: &Vec<PlacementKey>) -> (gs: Vec<InstanceGroup>)
    ensures
        groups_of(placements@, group_views(gs@)),
        group_views(gs@) == instance_groups_of(placements@),
{
    let mut gs: Vec<InstanceGroup> = Vec::new();
    let mut i: usize = 0;
    while i < placements.len()
        invariant
            i <= placements@.len(),
            groups_of(placements@.take(i as int), group_views(gs@)),
        decreases placements@.len() - i,
    {
        let pk = placements[i];
        let ghost ps0 = placements@.take(i as int);
        let ghost ps1 = placements@.take(i + 1);
        assert(ps1 =~= ps0.push(pk));
        let mut p: usize = 0;
        while p < gs.len() && key_lt_exec(gs[p].germ, gs[p].disjunct, pk.germ, pk.disjunct)
            invariant
                p <= group_views(gs@).len(),
                groups_wf(group_views(gs@)),
                forall|k: int| 0 <= k < p ==> key_lt(group_views(gs@)[k].germ, group_views(gs@)[k].disjunct, pk.germ, pk.disjunct),
            decreases group_views(gs@).len() - p,
        {
            p = p + 1;
        }
        let ghost g0 = group_views(gs@);
        if p < gs.len() && gs[p].germ == pk.germ && gs[p].disjunct == pk.disjunct {
            assert(sorted_u32(group_views(gs@)[p as int].instances));
            let mut g = gs.remove(p);
            assert(g.instances@ == g0[p as int].instances);
            
            insert_u32(&mut g.instances, pk.instance);
            gs.insert(p, g);
            proof {
                assert(group_views(gs@) =~= g0.update(p as int, g@));
                lemma_groups_add_existing(ps0, g0, pk, p as int, g@);
            }
        } else {
            let mut inst: Vec<u32> = Vec::new();
            inst.push(pk.instance);
            let g = InstanceGroup { germ: pk.germ, disjunct: pk.disjunct, instances: inst };
            gs.insert(p, g);
            proof {
                assert(group_views(gs@) =~= g0.insert(p as int, g@));
                lemma_groups_add_new(ps0, g0, pk, p as int, g@);
            }
        }
        i = i + 1;
    }
    assert(placements@.take(placements@.len() as int) =~= placements@);
    proof {
        lemma_groups_unique(placements@, group_views(gs@));
    }
    gs
}

fn key_lt_exec(g1: usize, d1: u32, g2: usize, d2: u32) -> (b: bool)
    ensures
        b == key_lt(g1, d1, g2, d2),
{
    g1 < g2 || (g1 == g2 && d1 < d2)
}

proof fn lemma_groups_add_existing(ps: Seq<PlacementKey>, gs: Seq<GroupView>, pk: PlacementKey, p: int, g: GroupView)
    requires
        groups_of(ps, gs),
        0 <= p < gs.len(),
        gs[p].germ == pk.germ,
        gs[p].disjunct == pk.disjunct,
        g.germ == pk.germ,
        g.disjunct == pk.disjunct,
        sorted_u32(g.instances),
        g.instances.len() > 0,
        g.instances.to_set() == gs[p].instances.to_set().insert(pk.instance),
    ensures
        groups_of(ps.push(pk), gs.update(p, g)),
{
    let ps1 = ps.push(pk);
    let gs1 = gs.update(p, g);
    assert(groups_wf(gs1)) by {
        assert forall|i: int, j: int| 0 <= i < j < gs1.len() implies key_lt(gs1[i].germ, gs1[i].disjunct, gs1[j].germ, gs1[j].disjunct) by {
            assert(key_lt(gs[i].germ, gs[i].disjunct, gs[j].germ, gs[j].disjunct));
        }
        assert forall|k: int| 0 <= k < gs1.len() implies sorted_u32(#[trigger] gs1[k].instances) && gs1[k].instances.len() > 0 by {
            if k != p {
                assert(gs1[k] == gs[k]);
            }
        }
    }
    assert(g.instances.contains(pk.instance)) by {
        assert(g.instances.to_set().contains(pk.instance));
    }
    assert forall|i: int| 0 <= i < ps1.len() implies covered(gs1, #[trigger] ps1[i]) by {
        if i == ps.len() {
            assert(in_group(gs1[p], ps1[i]));
        } else {
            assert(ps1[i] == ps[i]);
            assert(covered(gs, ps[i]));
            let k = choose|k: int| 0 <= k < gs.len() && #[trigger] in_group(gs[k], ps[i]);
            if k == p {
                assert(gs[p].instances.contains(ps[i].instance));
                assert(gs[p].instances.to_set().contains(ps[i].instance));
                assert(g.instances.to_set().contains(ps[i].instance));
                assert(in_group(gs1[p], ps1[i]));
            } else {
                assert(in_group(gs1[k], ps1[i]));
            }
        }
    }
    assert forall|k: int, x: u32| 0 <= k < gs1.len() && #[trigger] gs1[k].instances.contains(x) implies placed(ps1, gs1[k], x) by {
        if k == p {
            assert(g.instances.to_set().contains(x));
            if x == pk.instance {
                assert(ps1[ps.len() as int] == pk);
            } else {
                assert(gs[p].instances.to_set().contains(x));
                assert(gs[p].instances.contains(x));
                let i = choose|i: int| 0 <= i < ps.len() && ps[i].germ == gs[p].germ && ps[i].disjunct == gs[p].disjunct && #[trigger] ps[i].instance == x;
                assert(ps1[i] == ps[i]);
            }
        } else {
            assert(gs[k].instances.contains(x));
            let i = choose|i: int| 0 <= i < ps.len() && ps[i].germ == gs[k].germ && ps[i].disjunct == gs[k].disjunct && #[trigger] ps[i].instance == x;
            assert(ps1[i] == ps[i]);
        }
    }
}

proof fn lemma_groups_add_new(ps: Seq<PlacementKey>, gs: Seq<GroupView>, pk: PlacementKey, p: int, g: GroupView)
    requires
        groups_of(ps, gs),
        0 <= p <= gs.len(),
        forall|k: int| 0 <= k < p ==> key_lt(gs[k].germ, gs[k].disjunct, pk.germ, pk.disjunct),
        p < gs.len() ==> !key_lt(gs[p].germ, gs[p].disjunct, pk.germ, pk.disjunct),
        p < gs.len() ==> !(gs[p].germ == pk.germ && gs[p].disjunct == pk.disjunct),
        g.germ == pk.germ,
        g.disjunct == pk.disjunct,
        g.instances == seq![pk.instance],
    ensures
        groups_of(ps.push(pk), gs.insert(p, g)),
{
    let ps1 = ps.push(pk);
    let gs1 = gs.insert(p, g);
    assert(g.instances[0] == pk.instance);
    assert forall|i: int, j: int| 0 <= i < j < gs1.len() implies key_lt(gs1[i].germ, gs1[i].disjunct, gs1[j].germ, gs1[j].disjunct) by {
        if j < p {
        } else if j == p {
        } else if i < p {
            assert(key_lt(pk.germ, pk.disjunct, gs[p].germ, gs[p].disjunct));
            if j - 1 > p {
                assert(key_lt(gs[p].germ, gs[p].disjunct, gs[j - 1].germ, gs[j - 1].disjunct));
            }
        } else if i == p {
            assert(key_lt(pk.germ, pk.disjunct, gs[p].germ, gs[p].disjunct));
            if j - 1 > p {
                assert(key_lt(gs[p].germ, gs[p].disjunct, gs[j - 1].germ, gs[j - 1].disjunct));
            }
        } else {
            assert(gs1[i] == gs[i - 1]);
            assert(gs1[j] == gs[j - 1]);
        }
    }
    assert forall|k: int| 0 <= k < gs1.len() implies sorted_u32(#[trigger] gs1[k].instances) && gs1[k].instances.len() > 0 by {
        if k < p {
            assert(gs1[k] == gs[k]);
        } else if k > p {
            assert(gs1[k] == gs[k - 1]);
        }
    }
    assert forall|i: int| 0 <= i < ps1.len() implies covered(gs1, #[trigger] ps1[i]) by {
        if i == ps.len() {
            assert(in_group(gs1[p], ps1[i]));
        } else {
            assert(ps1[i] == ps[i]);
            assert(covered(gs, ps[i]));
            let k = choose|k: int| 0 <= k < gs.len() && #[trigger] in_group(gs[k], ps[i]);
            if k < p {
                assert(in_group(gs1[k], ps1[i]));
            } else {
                assert(gs1[k + 1] == gs[k]);
                assert(in_group(gs1[k + 1], ps1[i]));
            }
        }
    }
    assert forall|k: int, x: u32| 0 <= k < gs1.len() && #[trigger] gs1[k].instances.contains(x) implies placed(ps1, gs1[k], x) by {
        if k == p {
            assert(ps1[ps.len() as int] == pk);
        } else {
            let k0 = if k < p { k } else { k - 1 };
            assert(gs1[k] == gs[k0]);
            assert(gs[k0].instances.contains(x));
            let i = choose|i: int| 0 <= i < ps.len() && ps[i].germ == gs[k0].germ && ps[i].disjunct == gs[k0].disjunct && #[trigger] ps[i].instance == x;
            assert(ps1[i] == ps[i]);
        }
    }
}

/// Above this many relabelings the dense relabeling stands in for the search.
/// `8! = 40320 < 50_000 <= 9!`, so any single group with up to 8
/// interchangeable instances is handled exactly.
pub const RELABEL_CAP: u128 = 50_000u128;

/// The number of relabelings of the groups: the product of `k!` over the
/// groups, `k` the number of instances of each.
pub open spec fn relabel_product(gs: Seq<GroupView>) -> nat
    decreases gs.len(),
{
    if gs.len() == 0 {
        1
    } else {
        relabel_product(gs.drop_last()) * fact(gs.last().instances.len())
    }
}

proof fn lemma_relabel_product_grows(gs: Seq<GroupView>, k: int)
    requires
        0 <= k <= gs.len(),
    ensures
        1 <= relabel_product(gs.take(k)) <= relabel_product(gs),
    decreases gs.len(),
{
    if gs.len() > 0 {
        let init = gs.drop_last();
        lemma_fact_positive(gs.last().instances.len());
        if k == gs.len() {
            assert(gs.take(k) =~= gs);
            lemma_relabel_product_grows(init, k - 1);
            assert(init.take(k - 1) =~= init);
        } else {
            assert(gs.take(k) =~= init.take(k));
            lemma_relabel_product_grows(init, k);
        }
        let a = relabel_product(init);
        let f = fact(gs.last().instances.len());
        assert(a * f >= a) by (nonlinear_arith)
            requires
                a >= 1,
                f >= 1,
        ;
    } else {
        assert(gs.take(k) =~= gs);
    }
}

proof fn lemma_relabel_product_step(gs: Seq<GroupView>, k: int)
    requires
        0 <= k < gs.len(),
    ensures
        relabel_product(gs.take(k + 1)) == relabel_product(gs.take(k)) * fact(gs[k].instances.len()),
        relabel_product(gs.take(k + 1)) >= fact(gs[k].instances.len()),
{
    assert(gs.take(k + 1).drop_last() =~= gs.take(k));
    lemma_relabel_product_grows(gs, k);
    let a = relabel_product(gs.take(k));
    let f = fact(gs[k].instances.len());
    lemma_fact_positive(gs[k].instances.len());
    assert(a * f >= f) by (nonlinear_arith)
        requires
            a >= 1,
            f >= 1,
    ;
}

/// The number of relabelings, when it fits in a `u128`.
pub fn relabel_total(groups: &Vec<InstanceGroup>) -> (r: Option<u128>)
    ensures
        r matches Some(t) ==> t == relabel_product(group_views(groups@)),
        r is None <==> relabel_product(group_views(groups@)) > u128::MAX,
{
    let mut acc: u128 = 1;
    let mut k: usize = 0;
    assert(group_views(groups@).take(0) =~= Seq::<GroupView>::empty());
    while k < groups.len()
        invariant
            k <= group_views(groups@).len(),
            acc == relabel_product(group_views(groups@).take(k as int)),
        decreases group_views(groups@).len() - k,
    {
        let n = groups[k].instances.len();
        proof {
            lemma_relabel_product_step(group_views(groups@), k as int);
            lemma_relabel_product_grows(group_views(groups@), k + 1);
        }
        if n > 34 {
            proof {
                lemma_fact_monotonic(35, n as nat);
                lemma_fact_35();
            }
            return None;
        }
        let f = factorial(n);
        match acc.checked_mul(f) {
            Some(v) => {
                acc = v;
            },
            None => {
                return None;
            },
        }
        k = k + 1;
    }
    assert(group_views(groups@).take(group_views(groups@).len() as int) =~= group_views(groups@));
    Some(acc)
}

proof fn lemma_fact_35()
    ensures
        fact(35) > u128::MAX,
{
    lemma_fact_fits(34);
    assert(fact(34) == 295232799039604140847618609643520000000nat) by {
        lemma_fact_value_34();
    }
    assert(fact(35) == 35 * fact(34));
}

/// The orders of a relabeling, one per group: the new label of an instance
/// is its position in its group's order. The dense relabeling keeps each
/// group's ascending order.
pub open spec fn dense_orders(gs: Seq<GroupView>) -> Seq<Seq<u32>> {
    gs.map_values(|g: GroupView| g.instances)
}

/// The permutations of each group's instances.
pub open spec fn group_perms(gs: Seq<GroupView>) -> Seq<Seq<Seq<u32>>> {
    gs.map_values(|g: GroupView| perms(g.instances))
}

/// For each tuple `t` of `rest` in turn, for each `x` of `xs` in turn, the
/// tuple `[x] + t`.
pub open spec fn extend_each(xs: Seq<Seq<u32>>, rest: Seq<Seq<Seq<u32>>>) -> Seq<Seq<Seq<u32>>>
    decreases rest.len(),
{
    if rest.len() == 0 {
        seq![]
    } else {
        extend_each(xs, rest.drop_last()) + xs.map_values(|x: Seq<u32>| seq![x] + rest.last())
    }
}

/// Every tuple with one choice from each of `pg`, the first choice varying
/// fastest (a mixed-radix count).
pub open spec fn choices(pg: Seq<Seq<Seq<u32>>>) -> Seq<Seq<Seq<u32>>>
    decreases pg.len(),
{
    if pg.len() == 0 {
        seq![seq![]]
    } else {
        extend_each(pg[0], choices(pg.drop_first()))
    }
}

/// The relabelings tried, in order: every combination of per-group
/// permutations when there are at most `RELABEL_CAP` of them, else the dense
/// relabeling alone.
pub open spec fn relabel_plan(gs: Seq<GroupView>) -> Seq<Seq<Seq<u32>>> {
    let total = relabel_product(gs);
    if total == 0 || total > RELABEL_CAP {
        seq![dense_orders(gs)]
    } else {
        choices(group_perms(gs))
    }
}

/// The tuples of orders held by a vector.
pub open spec fn tuples_of(v: Seq<Vec<Vec<u32>>>) -> Seq<Seq<Seq<u32>>> {
    v.map_values(|t: Vec<Vec<u32>>| seqs_of(t@))
}

fn copy_u32s(v: &Vec<u32>) -> (r: Vec<u32>)
    ensures
        r@ == v@,
{
    let mut r: Vec<u32> = Vec::new();
    let mut i: usize = 0;
    while i < v.len()
        invariant
            i <= v@.len(),
            r@ == v@.take(i as int),
        decreases v@.len() - i,
    {
        r.push(v[i]);
        assert(v@.take(i + 1) =~= v@.take(i as int).push(v@[i as int]));
        i = i + 1;
    }
    assert(v@.take(v@.len() as int) =~= v@);
    r
}

fn copy_orders(v: &Vec<Vec<u32>>) -> (r: Vec<Vec<u32>>)
    ensures
        seqs_of(r@) == seqs_of(v@),
{
    let mut r: Vec<Vec<u32>> = Vec::new();
    let mut i: usize = 0;
    while i < v.len()
        invariant
            i <= v@.len(),
            seqs_of(r@) == seqs_of(v@).take(i as int),
        decreases v@.len() - i,
    {
        r.push(copy_u32s(&v[i]));
        assert(seqs_of(v@).take(i + 1) =~= seqs_of(v@).take(i as int).push(v@[i as int]@));
        assert(seqs_of(r@) =~= seqs_of(v@).take(i + 1));
        i = i + 1;
    }
    assert(seqs_of(v@).take(v@.len() as int) =~= seqs_of(v@));
    r
}

fn extend_each_exec(xs: &Vec<Vec<u32>>, rest: &Vec<Vec<Vec<u32>>>) -> (out: Vec<Vec<Vec<u32>>>)
    ensures
        tuples_of(out@) == extend_each(seqs_of(xs@), tuples_of(rest@)),
{
    let ghost xv = seqs_of(xs@);
    let ghost rv = tuples_of(rest@);
    let mut out: Vec<Vec<Vec<u32>>> = Vec::new();
    let mut r: usize = 0;
    assert(rv.take(0) =~= Seq::<Seq<Seq<u32>>>::empty());
    assert(tuples_of(out@) =~= Seq::<Seq<Seq<u32>>>::empty());
    while r < rest.len()
        invariant
            r <= rest@.len(),
            xv == seqs_of(xs@),
            rv == tuples_of(rest@),
            tuples_of(out@) == extend_each(xv, rv.take(r as int)),
        decreases rest@.len() - r,
    {
        let ghost base = tuples_of(out@);
        let mut x: usize = 0;
        assert(base + xv.take(0).map_values(|o: Seq<u32>| seq![o] + rv[r as int]) =~= base);
        while x < xs.len()
            invariant
                r < rest@.len(),
                x <= xs@.len(),
                xv == seqs_of(xs@),
                rv == tuples_of(rest@),
                tuples_of(out@) == base + xv.take(x as int).map_values(|o: Seq<u32>| seq![o] + rv[r as int]),
            decreases xs@.len() - x,
        {
            let mut t: Vec<Vec<u32>> = Vec::new();
            t.push(copy_u32s(&xs[x]));
            let tail = copy_orders(&rest[r]);
            let mut j: usize = 0;
            while j < tail.len()
                invariant
                    x < xs@.len(),
                    j <= tail@.len(),
                    seqs_of(t@) == seq![xs@[x as int]@] + seqs_of(tail@).take(j as int),
                decreases tail@.len() - j,
            {
                let ghost tb = seqs_of(t@);
                t.push(copy_u32s(&tail[j]));
                assert(seqs_of(t@) =~= tb.push(tail@[j as int]@));
                assert(seqs_of(tail@).take(j + 1) =~= seqs_of(tail@).take(j as int).push(tail@[j as int]@));
                assert(seqs_of(t@) =~= seq![xs@[x as int]@] + seqs_of(tail@).take(j + 1));
                j = j + 1;
            }
            assert(seqs_of(tail@).take(tail@.len() as int) =~= seqs_of(tail@));
            let ghost before = tuples_of(out@);
            out.push(t);
            assert(tuples_of(out@) =~= before.push(seqs_of(t@)));
            assert(xv.take(x + 1) =~= xv.take(x as int).push(xv[x as int]));
            assert(xv.take(x + 1).map_values(|o: Seq<u32>| seq![o] + rv[r as int]) =~= xv.take(x as int).map_values(|o: Seq<u32>| seq![o] + rv[r as int]).push(seq![xv[x as int]] + rv[r as int]));
            x = x + 1;
        }
        assert(xv.take(xv.len() as int) =~= xv);
        assert(rv.take(r + 1).drop_last() =~= rv.take(r as int));
        assert(rv.take(r + 1).last() == rv[r as int]);
        r = r + 1;
    }
    assert(rv.take(rv.len() as int) =~= rv);
    out
}

/// The relabelings to try, in the order of `relabel_plan`.
pub fn relabelings(groups: &Vec<InstanceGroup>) -> (plan: Vec<Vec<Vec<u32>>>)
    ensures
        tuples_of(plan@) == relabel_plan(group_views(groups@)),
{
    let total = match relabel_total(groups) {
        Some(t) => t,
        None => 0,
    };
    if total == 0 || total > RELABEL_CAP {
        let mut dense: Vec<Vec<u32>> = Vec::new();
        let mut k: usize = 0;
        while k < groups.len()
            invariant
                k <= group_views(groups@).len(),
                seqs_of(dense@) == dense_orders(group_views(groups@)).take(k as int),
            decreases group_views(groups@).len() - k,
        {
            dense.push(copy_u32s(&groups[k].instances));
            assert(dense_orders(group_views(groups@)).take(k + 1) =~= dense_orders(group_views(groups@)).take(k as int).push(group_views(groups@)[k as int].instances));
            assert(seqs_of(dense@) =~= dense_orders(group_views(groups@)).take(k + 1));
            k = k + 1;
        }
        assert(dense_orders(group_views(groups@)).take(group_views(groups@).len() as int) =~= dense_orders(group_views(groups@)));
        let mut plan: Vec<Vec<Vec<u32>>> = Vec::new();
        plan.push(dense);
        assert(tuples_of(plan@) =~= seq![dense_orders(group_views(groups@))]);
        return plan;
    }
    let ghost pg = group_perms(group_views(groups@));
    let mut acc: Vec<Vec<Vec<u32>>> = Vec::new();
    acc.push(Vec::new());
    let mut g: usize = groups.len();
    assert(pg.skip(g as int) =~= Seq::<Seq<Seq<u32>>>::empty());
    assert(seqs_of(acc@[0]@) =~= Seq::<Seq<u32>>::empty());
    assert(tuples_of(acc@) =~= choices(pg.skip(g as int)));
    while g > 0
        invariant
            g <= group_views(groups@).len(),
            pg == group_perms(group_views(groups@)),
            tuples_of(acc@) == choices(pg.skip(g as int)),
        decreases g,
    {
        g = g - 1;
        let perms_g = permutations(groups[g].instances.as_slice());
        assert(pg.skip(g as int).drop_first() =~= pg.skip(g + 1));
        assert(pg.skip(g as int)[0] == pg[g as int]);
        acc = extend_each_exec(&perms_g, &acc);
    }
    assert(pg.skip(0) =~= pg);
    acc
}

proof fn lemma_extend_each(xs: Seq<Seq<u32>>, rest: Seq<Seq<Seq<u32>>>, k: int)
    requires
        0 <= k < extend_each(xs, rest).len(),
    ensures
        extend_each(xs, rest).len() == xs.len() * rest.len(),
        exists|i: int, j: int| 0 <= i < xs.len() && 0 <= j < rest.len() && extend_each(xs, rest)[k] == seq![xs[i]] + rest[j],
    decreases rest.len(),
{
    lemma_extend_each_len(xs, rest);
    let init = extend_each(xs, rest.drop_last());
    let m = xs.map_values(|x: Seq<u32>| seq![x] + rest.last());
    assert(extend_each(xs, rest) == init + m);
    if k < init.len() {
        lemma_extend_each(xs, rest.drop_last(), k);
        let (i, j) = choose|i: int, j: int| 0 <= i < xs.len() && 0 <= j < rest.drop_last().len() && init[k] == seq![xs[i]] + rest.drop_last()[j];
        assert(rest.drop_last()[j] == rest[j]);
    } else {
        let i = k - init.len();
        assert(extend_each(xs, rest)[k] == m[i]);
        assert(m[i] == seq![xs[i]] + rest[rest.len() - 1]);
    }
}

proof fn lemma_extend_each_len(xs: Seq<Seq<u32>>, rest: Seq<Seq<Seq<u32>>>)
    ensures
        extend_each(xs, rest).len() == xs.len() * rest.len(),
    decreases rest.len(),
{
    if rest.len() > 0 {
        lemma_extend_each_len(xs, rest.drop_last());
        assert(xs.len() * rest.len() == xs.len() * (rest.len() - 1) + xs.len()) by (nonlinear_arith);
    } else {
        assert(xs.len() * 0 == 0) by (nonlinear_arith);
    }
}

/// The product of the lengths of `pg`.
pub open spec fn radix_product(pg: Seq<Seq<Seq<u32>>>) -> nat
    decreases pg.len(),
{
    if pg.len() == 0 {
        1
    } else {
        pg[0].len() * radix_product(pg.drop_first())
    }
}

proof fn lemma_choices(pg: Seq<Seq<Seq<u32>>>, k: int)
    requires
        0 <= k < choices(pg).len(),
    ensures
        choices(pg)[k].len() == pg.len(),
        forall|g: int| 0 <= g < pg.len() ==> #[trigger] pg[g].contains(choices(pg)[k][g]),
    decreases pg.len(),
{
    if pg.len() > 0 {
        let rest = choices(pg.drop_first());
        lemma_extend_each(pg[0], rest, k);
        let (i, j) = choose|i: int, j: int| 0 <= i < pg[0].len() && 0 <= j < rest.len() && choices(pg)[k] == seq![pg[0][i]] + rest[j];
        lemma_choices(pg.drop_first(), j);
        let c = choices(pg)[k];
        assert forall|g: int| 0 <= g < pg.len() implies #[trigger] pg[g].contains(c[g]) by {
            if g == 0 {
                assert(c[0] == pg[0][i]);
            } else {
                assert(c[g] == rest[j][g - 1]);
                assert(pg.drop_first()[g - 1] == pg[g]);
                assert(pg.drop_first()[g - 1].contains(rest[j][g - 1]));
            }
        }
    }
}

proof fn lemma_choices_len(pg: Seq<Seq<Seq<u32>>>)
    ensures
        choices(pg).len() == radix_product(pg),
    decreases pg.len(),
{
    if pg.len() > 0 {
        lemma_choices_len(pg.drop_first());
        lemma_extend_each_len(pg[0], choices(pg.drop_first()));
    }
}

proof fn lemma_relabel_product_front(gs: Seq<GroupView>)
    requires
        gs.len() > 0,
    ensures
        relabel_product(gs) == fact(gs[0].instances.len()) * relabel_product(gs.drop_first()),
    decreases gs.len(),
{
    if gs.len() > 1 {
        lemma_relabel_product_front(gs.drop_last());
        assert(gs.drop_last().drop_first() =~= gs.drop_first().drop_last());
        assert(gs.drop_first().last() == gs.last());
        let a = fact(gs[0].instances.len());
        let b = relabel_product(gs.drop_first().drop_last());
        let c = fact(gs.last().instances.len());
        assert(a * b * c == a * (b * c)) by (nonlinear_arith);
    } else {
        assert(gs.drop_last() =~= gs.drop_first());
        assert(gs.drop_first().len() == 0);
        let a = fact(gs[0].instances.len());
        assert(1 * a == a * 1) by (nonlinear_arith);
    }
}

proof fn lemma_radix_group_perms(gs: Seq<GroupView>)
    ensures
        radix_product(group_perms(gs)) == relabel_product(gs),
    decreases gs.len(),
{
    if gs.len() > 0 {
        assert(group_perms(gs).drop_first() =~= group_perms(gs.drop_first()));
        lemma_radix_group_perms(gs.drop_first());
        law_permutation_count(gs[0].instances);
        lemma_relabel_product_front(gs);
    }
}

/// Every relabeling tried is valid: it orders each group's instances, so it
/// maps them one to one onto `0..k` and leaves the groups as they are.
pub proof fn law_relabelings_are_valid(gs: Seq<GroupView>, k: int)
    requires
        0 <= k < relabel_plan(gs).len(),
    ensures
        relabel_plan(gs)[k].len() == gs.len(),
        forall|g: int| 0 <= g < gs.len() ==> (#[trigger] relabel_plan(gs)[k][g]).to_multiset() == gs[g].instances.to_multiset(),
{
    let total = relabel_product(gs);
    if total == 0 || total > RELABEL_CAP {
        assert(relabel_plan(gs)[k] == dense_orders(gs));
    } else {
        let pg = group_perms(gs);
        lemma_choices(pg, k);
        let c = choices(pg)[k];
        assert forall|g: int| 0 <= g < gs.len() implies (#[trigger] relabel_plan(gs)[k][g]).to_multiset() == gs[g].instances.to_multiset() by {
            assert(pg[g].contains(c[g]));
            let j = choose|j: int| 0 <= j < pg[g].len() && pg[g][j] == c[g];
            assert(pg[g] == perms(gs[g].instances));
            law_permutations_rearrange(gs[g].instances, j);
        }
    }
}

/// Below the cap, as many relabelings are tried as there are: the product
/// over the groups of `k!`.
pub proof fn law_relabelings_count(gs: Seq<GroupView>)
    requires
        1 <= relabel_product(gs) <= RELABEL_CAP,
    ensures
        relabel_plan(gs).len() == relabel_product(gs),
{
    lemma_choices_len(group_perms(gs));
    lemma_radix_group_perms(gs);
}

/// The position of the group of `(germ, disjunct)`.
pub open spec fn group_pos(gs: Seq<GroupView>, germ: usize, disjunct: u32) -> int {
    choose|k: int| 0 <= k < gs.len() && gs[k].germ == germ && gs[k].disjunct == disjunct
}

/// The position of `x` in `order`: its new label.
pub open spec fn label_in(order: Seq<u32>, x: u32) -> int {
    choose|i: int| 0 <= i < order.len() && order[i] == x
}

/// One order per group, each holding that group's instances.
pub open spec fn orders_valid(gs: Seq<GroupView>, orders: Seq<Seq<u32>>) -> bool {
    &&& orders.len() == gs.len()
    &&& forall|g: int| 0 <= g < gs.len() ==> (#[trigger] orders[g]).to_multiset() == gs[g].instances.to_multiset()
}

/// Placement `p` relabeled: its instance becomes its position in the order
/// of its group.
pub open spec fn relabeled(gs: Seq<GroupView>, orders: Seq<Seq<u32>>, p: PlacementKey) -> PlacementKey {
    PlacementKey {
        germ: p.germ,
        disjunct: p.disjunct,
        instance: label_in(orders[group_pos(gs, p.germ, p.disjunct)], p.instance) as u32,
    }
}

/// A port relabeled.
pub open spec fn relabeled_port(gs: Seq<GroupView>, orders: Seq<Seq<u32>>, r: PortKey) -> PortKey {
    PortKey { placement: relabeled(gs, orders, r.placement), port: r.port }
}

/// A bond relabeled at both ends.
pub open spec fn relabeled_bond(gs: Seq<GroupView>, orders: Seq<Seq<u32>>, b: BondKey) -> BondKey {
    BondKey { from: relabeled_port(gs, orders, b.from), to: relabeled_port(gs, orders, b.to) }
}

/// In ascending groups a key stands at one position only.
proof fn lemma_group_pos(gs: Seq<GroupView>, k: int)
    requires
        groups_wf(gs),
        0 <= k < gs.len(),
    ensures
        group_pos(gs, gs[k].germ, gs[k].disjunct) == k,
{
    let j = group_pos(gs, gs[k].germ, gs[k].disjunct);
    if j < k {
        assert(key_lt(gs[j].germ, gs[j].disjunct, gs[k].germ, gs[k].disjunct));
    } else if j > k {
        assert(key_lt(gs[k].germ, gs[k].disjunct, gs[j].germ, gs[j].disjunct));
    }
}

/// A valid order holds its group's instances, each once.
proof fn lemma_order_label(gs: Seq<GroupView>, orders: Seq<Seq<u32>>, k: int, x: u32)
    requires
        groups_wf(gs),
        orders_valid(gs, orders),
        0 <= k < gs.len(),
        gs[k].instances.contains(x),
    ensures
        orders[k].no_duplicates(),
        orders[k].contains(x),
        0 <= label_in(orders[k], x) < orders[k].len(),
        orders[k][label_in(orders[k], x)] == x,
        forall|i: int| 0 <= i < orders[k].len() && orders[k][i] == x ==> i == label_in(orders[k], x),
{
    broadcast use vstd::seq_lib::group_to_multiset_ensures;
    let inst = gs[k].instances;
    let o = orders[k];
    assert(sorted_u32(inst));
    assert(inst.no_duplicates());
    inst.lemma_multiset_has_no_duplicates();
    assert(o.to_multiset() == inst.to_multiset());
    o.lemma_multiset_has_no_duplicates_conv();
    assert(inst.to_multiset().count(x) > 0);
    assert(o.contains(x));
}

/// Relabels one placement.
fn relabel_placement(groups: &Vec<InstanceGroup>, orders: &Vec<Vec<u32>>, p: PlacementKey) -> (r: PlacementKey)
    requires
        groups_wf(group_views(groups@)),
        orders_valid(group_views(groups@), seqs_of(orders@)),
        covered(group_views(groups@), p),
    ensures
        r == relabeled(group_views(groups@), seqs_of(orders@), p),
{
    let ghost os = seqs_of(orders@);
    let ghost kk = choose|k: int| 0 <= k < group_views(groups@).len() && #[trigger] in_group(group_views(groups@)[k], p);
    let mut k: usize = 0;
    while !(groups[k].germ == p.germ && groups[k].disjunct == p.disjunct)
        invariant
            k <= kk,
            0 <= kk < groups.len(),
            in_group(group_views(groups@)[kk], p),
        decreases kk - k,
    {
        assert(k != kk);
        k = k + 1;
    }
    proof {
        lemma_group_pos(group_views(groups@), k as int);
        if k != kk {
            lemma_group_pos(group_views(groups@), kk);
        }
        assert(group_views(groups@)[k as int].instances.contains(p.instance));
        lemma_order_label(group_views(groups@), os, k as int, p.instance);
    }
    let order = &orders[k];
    assert(order@ == os[k as int]);
    let ghost li = label_in(os[k as int], p.instance);
    let mut i: usize = 0;
    while order[i] != p.instance
        invariant
            i <= li,
            0 <= li < order.len(),
            order@[li] == p.instance,
        decreases li - i,
    {
        assert(i != li);
        i = i + 1;
    }
    let label = #[verifier::truncate] (i as u32);
    PlacementKey { germ: p.germ, disjunct: p.disjunct, instance: label }
}

/// Relabels a section, given by its placements and bonds, with one order per
/// group.
pub fn apply_relabeling(
    placements: &Vec<PlacementKey>,
    bonds: &Vec<BondKey>,
    groups: &Vec<InstanceGroup>,
    orders: &Vec<Vec<u32>>,
) -> (r: (Vec<PlacementKey>, Vec<BondKey>))
    requires
        groups_wf(group_views(groups@)),
        orders_valid(group_views(groups@), seqs_of(orders@)),
        forall|i: int| 0 <= i < placements@.len() ==> covered(group_views(groups@), #[trigger] placements@[i]),
        forall|i: int| 0 <= i < bonds@.len() ==> covered(group_views(groups@), (#[trigger] bonds@[i]).from.placement) && covered(group_views(groups@), bonds@[i].to.placement),
    ensures
        r.0@.len() == placements@.len(),
        forall|i: int| 0 <= i < placements@.len() ==> r.0@[i] == relabeled(group_views(groups@), seqs_of(orders@), #[trigger] placements@[i]),
        r.1@.len() == bonds@.len(),
        forall|i: int| 0 <= i < bonds@.len() ==> r.1@[i] == relabeled_bond(group_views(groups@), seqs_of(orders@), #[trigger] bonds@[i]),
{
    let mut ps: Vec<PlacementKey> = Vec::new();
    let mut i: usize = 0;
    while i < placements.len()
        invariant
            i <= placements@.len(),
            groups_wf(group_views(groups@)),
            orders_valid(group_views(groups@), seqs_of(orders@)),
            forall|j: int| 0 <= j < placements@.len() ==> covered(group_views(groups@), #[trigger] placements@[j]),
            ps@.len() == i,
            forall|j: int| 0 <= j < i ==> ps@[j] == relabeled(group_views(groups@), seqs_of(orders@), #[trigger] placements@[j]),
        decreases placements@.len() - i,
    {
        let q = relabel_placement(groups, orders, placements[i]);
        ps.push(q);
        i = i + 1;
    }
    let mut bs: Vec<BondKey> = Vec::new();
    let mut j: usize = 0;
    while j < bonds.len()
        invariant
            j <= bonds@.len(),
            groups_wf(group_views(groups@)),
            orders_valid(group_views(groups@), seqs_of(orders@)),
            forall|t: int| 0 <= t < bonds@.len() ==> covered(group_views(groups@), (#[trigger] bonds@[t]).from.placement) && covered(group_views(groups@), bonds@[t].to.placement),
            bs@.len() == j,
            forall|t: int| 0 <= t < j ==> bs@[t] == relabeled_bond(group_views(groups@), seqs_of(orders@), #[trigger] bonds@[t]),
        decreases bonds@.len() - j,
    {
        let b = bonds[j];
        let from = PortKey { placement: relabel_placement(groups, orders, b.from.placement), port: b.from.port };
        let to = PortKey { placement: relabel_placement(groups, orders, b.to.placement), port: b.to.port };
        bs.push(BondKey { from, to });
        j = j + 1;
    }
    (ps, bs)
}

/// The first of the candidate encodings that is least in byte-wise
/// lexicographic order, if there is any candidate.
pub fn first_minimum(cands: &Vec<Vec<u8>>) -> (r: Option<usize>)
    ensures
        r is None <==> cands@.len() == 0,
        r matches Some(m) ==> {
            &&& m < cands@.len()
            &&& forall|j: int| 0 <= j < cands@.len() ==> !bytes_lt(#[trigger] cands@[j]@, cands@[m as int]@)
            &&& forall|j: int| 0 <= j < m ==> bytes_lt(cands@[m as int]@, #[trigger] cands@[j]@)
        },
{
    if cands.len() == 0 {
        return None;
    }
    let mut best: usize = 0;
    let mut j: usize = 1;
    proof {
        lemma_bytes_lt_irreflexive(cands@[0]@);
    }
    while j < cands.len()
        invariant
            1 <= j <= cands@.len(),
            best < j,
            forall|t: int| 0 <= t < j ==> !bytes_lt(#[trigger] cands@[t]@, cands@[best as int]@),
            forall|t: int| 0 <= t < best ==> bytes_lt(cands@[best as int]@, #[trigger] cands@[t]@),
        decreases cands@.len() - j,
    {
        match compare_bytes(cands[j].as_slice(), cands[best].as_slice()) {
            Cmp::Less => {
                proof {
                    let nb = cands@[j as int]@;
                    let ob = cands@[best as int]@;
                    assert forall|t: int| 0 <= t < j + 1 implies !bytes_lt(#[trigger] cands@[t]@, nb) by {
                        if t == j {
                            lemma_bytes_lt_irreflexive(nb);
                        } else if bytes_lt(cands@[t]@, nb) {
                            lemma_bytes_lt_transitive(cands@[t]@, nb, ob);
                        }
                    }
                    assert forall|t: int| 0 <= t < j implies bytes_lt(nb, #[trigger] cands@[t]@) by {
                        if t == best {
                        } else {
                            lemma_bytes_lt_total(ob, cands@[t]@);
                            if t < best {
                                lemma_bytes_lt_transitive(nb, ob, cands@[t]@);
                            } else {
                                if ob != cands@[t]@ {
                                    lemma_bytes_lt_transitive(nb, ob, cands@[t]@);
                                }
                            }
                        }
                    }
                }
                best = j;
            },
            _ => {
                proof {
                    lemma_bytes_lt_asymmetric(cands@[j as int]@, cands@[best as int]@);
                }
            },
        }
        j = j + 1;
    }
    Some(best)
}

/// Every bond joins two placements of the section.
pub open spec fn bonds_within(placements: Seq<PlacementKey>, bonds: Seq<BondKey>) -> bool {
    forall|i: int| 0 <= i < bonds.len() ==> placements.contains((#[trigger] bonds[i]).from.placement) && placements.contains(bonds[i].to.placement)
}

/// A section relabeled by the orders of one relabeling.
pub open spec fn relabel_section(
    gs: Seq<GroupView>,
    orders: Seq<Seq<u32>>,
    placements: Seq<PlacementKey>,
    bonds: Seq<BondKey>,
) -> (Seq<PlacementKey>, Seq<BondKey>) {
    (
        placements.map_values(|p: PlacementKey| relabeled(gs, orders, p)),
        bonds.map_values(|b: BondKey| relabeled_bond(gs, orders, b)),
    )
}

/// The candidates of canonicalization: the section relabeled by each
/// relabeling of `relabel_plan`, in that order. Above the cap (however large
/// the number of relabelings) that is the dense relabeling alone.
pub fn relabel_candidates(placements: &Vec<PlacementKey>, bonds: &Vec<BondKey>) -> (cs: Vec<(Vec<PlacementKey>, Vec<BondKey>)>)
    requires
        bonds_within(placements@, bonds@),
    ensures
        cs@.len() == relabel_plan(instance_groups_of(placements@)).len(),
        forall|k: int| 0 <= k < cs@.len() ==> (#[trigger] cs@[k]).0@ == relabel_section(
            instance_groups_of(placements@),
            relabel_plan(instance_groups_of(placements@))[k],
            placements@,
            bonds@,
        ).0 && cs@[k].1@ == relabel_section(
            instance_groups_of(placements@),
            relabel_plan(instance_groups_of(placements@))[k],
            placements@,
            bonds@,
        ).1,
{
    let groups = instance_groups(placements);
    proof {
        lemma_groups_unique(placements@, group_views(groups@));
    }
    let ghost gs = group_views(groups@);
    let plan = relabelings(&groups);
    let ghost pv = tuples_of(plan@);
    proof {
        assert forall|i: int| 0 <= i < bonds@.len() implies covered(gs, (#[trigger] bonds@[i]).from.placement) && covered(gs, bonds@[i].to.placement) by {
            let a = choose|t: int| 0 <= t < placements@.len() && placements@[t] == bonds@[i].from.placement;
            let b = choose|t: int| 0 <= t < placements@.len() && placements@[t] == bonds@[i].to.placement;
            assert(covered(gs, placements@[a]));
            assert(covered(gs, placements@[b]));
        }
    }
    let mut out: Vec<(Vec<PlacementKey>, Vec<BondKey>)> = Vec::new();
    let mut k: usize = 0;
    while k < plan.len()
        invariant
            k <= plan@.len(),
            gs == group_views(groups@),
            gs == instance_groups_of(placements@),
            groups_of(placements@, gs),
            pv == tuples_of(plan@),
            pv == relabel_plan(gs),
            forall|i: int| 0 <= i < bonds@.len() ==> covered(gs, (#[trigger] bonds@[i]).from.placement) && covered(gs, bonds@[i].to.placement),
            out@.len() == k,
            forall|t: int| 0 <= t < k ==> (#[trigger] out@[t]).0@ == relabel_section(gs, pv[t], placements@, bonds@).0 && out@[t].1@ == relabel_section(gs, pv[t], placements@, bonds@).1,
        decreases plan@.len() - k,
    {
        proof {
            law_relabelings_are_valid(gs, k as int);
            assert(seqs_of(plan@[k as int]@) == pv[k as int]);
            assert(orders_valid(gs, seqs_of(plan@[k as int]@)));
        }
        let (ps, bs) = apply_relabeling(placements, bonds, &groups, &plan[k]);
        proof {
            let rs = relabel_section(gs, pv[k as int], placements@, bonds@);
            assert(ps@ =~= rs.0);
            assert(bs@ =~= rs.1);
        }
        out.push((ps, bs));
        k = k + 1;
    }
    out
}

/// The groups of a list of placements: the only well-formed groups that
/// `groups_of` admits.
pub open spec fn instance_groups_of(ps: Seq<PlacementKey>) -> Seq<GroupView> {
    choose|gs: Seq<GroupView>| groups_of(ps, gs)
}

/// Strictly ascending sequences with the same elements are equal.
proof fn lemma_sorted_u32_unique(a: Seq<u32>, b: Seq<u32>)
    requires
        sorted_u32(a),
        sorted_u32(b),
        forall|x: u32| a.contains(x) <==> b.contains(x),
    ensures
        a == b,
    decreases a.len() + b.len(),
{
    if a.len() == 0 {
        if b.len() > 0 {
            assert(b.contains(b[0]));
        }
        assert(a =~= b);
    } else {
        assert(a.contains(a[0]));
        if b.len() == 0 {
            assert(false);
        } else {
            assert(b.contains(b[0]));
            let i = choose|i: int| 0 <= i < a.len() && a[i] == b[0];
            let j = choose|j: int| 0 <= j < b.len() && b[j] == a[0];
            assert(a[0] <= a[i]);
            assert(b[0] <= b[j]);
            assert(a[0] == b[0]);
            let a1 = a.drop_first();
            let b1 = b.drop_first();
            assert forall|x: u32| a1.contains(x) <==> b1.contains(x) by {
                if a1.contains(x) {
                    let t = choose|t: int| 0 <= t < a1.len() && a1[t] == x;
                    assert(a[t + 1] == x);
                    assert(a.contains(x));
                    let u = choose|u: int| 0 <= u < b.len() && b[u] == x;
                    assert(x != a[0]);
                    assert(u != 0);
                    assert(b1[u - 1] == x);
                }
                if b1.contains(x) {
                    let t = choose|t: int| 0 <= t < b1.len() && b1[t] == x;
                    assert(b[t + 1] == x);
                    assert(b.contains(x));
                    let u = choose|u: int| 0 <= u < a.len() && a[u] == x;
                    assert(x != b[0]);
                    assert(u != 0);
                    assert(a1[u - 1] == x);
                }
            }
            lemma_sorted_u32_unique(a1, b1);
            assert(a =~= seq![a[0]] + a1);
            assert(b =~= seq![b[0]] + b1);
        }
    }
}

/// Some group of `a` has key code `c`.
pub open spec fn has_key(a: Seq<GroupView>, c: int) -> bool {
    exists|k: int| 0 <= k < a.len() && #[trigger] key_code(a[k]) == c
}

/// The key of a group as one integer, ordered as `key_lt` orders keys.
pub open spec fn key_code(g: GroupView) -> int {
    g.germ * 4294967296 + g.disjunct
}

proof fn lemma_groups_keys_unique(a: Seq<GroupView>, b: Seq<GroupView>)
    requires
        groups_wf(a),
        groups_wf(b),
        forall|c: int| #[trigger] has_key(a, c) <==> #[trigger] has_key(b, c),
    ensures
        a.len() == b.len(),
        forall|k: int| 0 <= k < a.len() ==> a[k].germ == b[k].germ && a[k].disjunct == b[k].disjunct,
    decreases a.len() + b.len(),
{
    if a.len() == 0 {
        if b.len() > 0 {
            assert(has_key(b, key_code(b[0]))) by { assert(key_code(b[0]) == key_code(b[0])); }
            assert(has_key(a, key_code(b[0])));
        }
    } else {
        assert(has_key(a, key_code(a[0]))) by {
            assert(key_code(a[0]) == key_code(a[0]));
        }
        assert(has_key(b, key_code(a[0])));
        let j = choose|j: int| 0 <= j < b.len() && #[trigger] key_code(b[j]) == key_code(a[0]);
        assert(has_key(b, key_code(b[0]))) by {
            assert(key_code(b[0]) == key_code(b[0]));
        }
        assert(has_key(a, key_code(b[0])));
        let i = choose|i: int| 0 <= i < a.len() && #[trigger] key_code(a[i]) == key_code(b[0]);
        if i > 0 {
            assert(key_lt(a[0].germ, a[0].disjunct, a[i].germ, a[i].disjunct));
        }
        if j > 0 {
            assert(key_lt(b[0].germ, b[0].disjunct, b[j].germ, b[j].disjunct));
        }
        assert(key_code(a[0]) == key_code(b[0]));
        let a1 = a.drop_first();
        let b1 = b.drop_first();
        assert(groups_wf(a1)) by {
            assert forall|k: int| 0 <= k < a1.len() implies sorted_u32(#[trigger] a1[k].instances) && a1[k].instances.len() > 0 by {
                assert(a1[k] == a[k + 1]);
            }
        }
        assert(groups_wf(b1)) by {
            assert forall|k: int| 0 <= k < b1.len() implies sorted_u32(#[trigger] b1[k].instances) && b1[k].instances.len() > 0 by {
                assert(b1[k] == b[k + 1]);
            }
        }
        assert forall|c: int| #[trigger] has_key(a1, c) <==> #[trigger] has_key(b1, c) by {
            if has_key(a1, c) {
                let t = choose|t: int| 0 <= t < a1.len() && key_code(a1[t]) == c;
                assert(key_code(a[t + 1]) == c);
                assert(key_lt(a[0].germ, a[0].disjunct, a[t + 1].germ, a[t + 1].disjunct));
                assert(has_key(a, c));
                assert(has_key(b, c));
                let u = choose|u: int| 0 <= u < b.len() && #[trigger] key_code(b[u]) == c;
                assert(u != 0);
                assert(key_code(b1[u - 1]) == c);
            }
            if has_key(b1, c) {
                let t = choose|t: int| 0 <= t < b1.len() && key_code(b1[t]) == c;
                assert(key_code(b[t + 1]) == c);
                assert(key_lt(b[0].germ, b[0].disjunct, b[t + 1].germ, b[t + 1].disjunct));
                assert(has_key(b, c));
                assert(has_key(a, c));
                let u = choose|u: int| 0 <= u < a.len() && #[trigger] key_code(a[u]) == c;
                assert(u != 0);
                assert(key_code(a1[u - 1]) == c);
            }
        }
        lemma_groups_keys_unique(a1, b1);
        assert forall|k: int| 0 <= k < a.len() implies a[k].germ == b[k].germ && a[k].disjunct == b[k].disjunct by {
            if k > 0 {
                assert(a[k] == a1[k - 1]);
                assert(b[k] == b1[k - 1]);
            }
        }
    }
}

/// `groups_of` admits one list of groups only.
pub proof fn lemma_groups_unique(ps: Seq<PlacementKey>, gs: Seq<GroupView>)
    requires
        groups_of(ps, gs),
    ensures
        instance_groups_of(ps) == gs,
{
    let c = instance_groups_of(ps);
    assert(groups_of(ps, c));
    lemma_groups_of_same(ps, c, gs);
}

proof fn lemma_key_of_placed(ps: Seq<PlacementKey>, a: Seq<GroupView>, b: Seq<GroupView>, k: int)
    requires
        groups_of(ps, a),
        groups_of(ps, b),
        0 <= k < a.len(),
    ensures
        has_key(b, key_code(a[k])),
{
    let x = a[k].instances[0];
    assert(a[k].instances.contains(x));
    assert(placed(ps, a[k], x));
    let i = choose|i: int| 0 <= i < ps.len() && ps[i].germ == a[k].germ && ps[i].disjunct == a[k].disjunct && #[trigger] ps[i].instance == x;
    assert(covered(b, ps[i]));
    let j = choose|j: int| 0 <= j < b.len() && #[trigger] in_group(b[j], ps[i]);
    assert(key_code(b[j]) == key_code(a[k]));
}

proof fn lemma_instances_within(ps: Seq<PlacementKey>, a: Seq<GroupView>, b: Seq<GroupView>, k: int, x: u32)
    requires
        groups_of(ps, a),
        groups_of(ps, b),
        0 <= k < a.len(),
        k < b.len(),
        a[k].germ == b[k].germ,
        a[k].disjunct == b[k].disjunct,
        a[k].instances.contains(x),
    ensures
        b[k].instances.contains(x),
{
    assert(placed(ps, a[k], x));
    let i = choose|i: int| 0 <= i < ps.len() && ps[i].germ == a[k].germ && ps[i].disjunct == a[k].disjunct && #[trigger] ps[i].instance == x;
    assert(covered(b, ps[i]));
    let j = choose|j: int| 0 <= j < b.len() && #[trigger] in_group(b[j], ps[i]);
    if j < k {
        assert(key_lt(b[j].germ, b[j].disjunct, b[k].germ, b[k].disjunct));
    } else if j > k {
        assert(key_lt(b[k].germ, b[k].disjunct, b[j].germ, b[j].disjunct));
    }
}

proof fn lemma_groups_of_same(ps: Seq<PlacementKey>, a: Seq<GroupView>, b: Seq<GroupView>)
    requires
        groups_of(ps, a),
        groups_of(ps, b),
    ensures
        a == b,
{
    assert forall|c: int| #[trigger] has_key(a, c) <==> #[trigger] has_key(b, c) by {
        if has_key(a, c) {
            let k = choose|k: int| 0 <= k < a.len() && key_code(a[k]) == c;
            lemma_key_of_placed(ps, a, b, k);
        }
        if has_key(b, c) {
            let k = choose|k: int| 0 <= k < b.len() && key_code(b[k]) == c;
            lemma_key_of_placed(ps, b, a, k);
        }
    }
    lemma_groups_keys_unique(a, b);
    assert forall|k: int| 0 <= k < a.len() implies a[k] == b[k] by {
        assert forall|x: u32| a[k].instances.contains(x) <==> b[k].instances.contains(x) by {
            if a[k].instances.contains(x) {
                lemma_instances_within(ps, a, b, k, x);
            }
            if b[k].instances.contains(x) {
                lemma_instances_within(ps, b, a, k, x);
            }
        }
        lemma_sorted_u32_unique(a[k].instances, b[k].instances);
    }
    assert(a =~= b);
}

proof fn lemma_perms_upto_has(s: Seq<u32>, n: nat, i: int, t: Seq<u32>)
    requires
        0 <= i < n <= s.len(),
        perms(s.remove(i)).contains(t),
    ensures
        perms_upto(s, n).contains(seq![s[i]] + t),
    decreases n,
{
    let a = perms_upto(s, (n - 1) as nat);
    let b = prepend(s[n - 1], perms(s.remove(n - 1)));
    assert(perms_upto(s, n) == a + b);
    if i == n - 1 {
        let j = choose|j: int| 0 <= j < perms(s.remove(i)).len() && perms(s.remove(i))[j] == t;
        assert(b[j] == seq![s[i]] + t);
        assert((a + b)[a.len() + j] == b[j]);
    } else {
        lemma_perms_upto_has(s, (n - 1) as nat, i, t);
        let j = choose|j: int| 0 <= j < a.len() && a[j] == seq![s[i]] + t;
        assert((a + b)[j] == a[j]);
    }
}

/// Every rearrangement of the items of `s` is among its orderings.
pub proof fn law_permutations_complete(s: Seq<u32>, t: Seq<u32>)
    requires
        t.to_multiset() == s.to_multiset(),
    ensures
        perms(s).contains(t),
    decreases s.len(),
{
    broadcast use vstd::seq_lib::group_to_multiset_ensures;
    assert(t.len() == t.to_multiset().len());
    assert(s.len() == s.to_multiset().len());
    if s.len() == 0 {
        assert(t.len() == 0);
        assert(t =~= seq![]);
        assert(perms(s)[0] == t);
    } else {
        assert(t.len() == s.len());
        let x = t[0];
        assert(t.contains(x));
        assert(s.to_multiset().count(x) > 0);
        assert(s.contains(x));
        let i = choose|i: int| 0 <= i < s.len() && s[i] == x;
        let r = s.remove(i);
        let t1 = t.drop_first();
        assert(t.remove(0) =~= t1);
        assert(t1.to_multiset() == t.to_multiset().remove(x));
        assert(r.to_multiset() == s.to_multiset().remove(s[i]));
        law_permutations_complete(r, t1);
        lemma_perms_upto_has(s, s.len(), i, t1);
        assert(seq![s[i]] + t1 =~= t);
    }
}

proof fn lemma_extend_each_has(xs: Seq<Seq<u32>>, rest: Seq<Seq<Seq<u32>>>, i: int, j: int)
    requires
        0 <= i < xs.len(),
        0 <= j < rest.len(),
    ensures
        extend_each(xs, rest).contains(seq![xs[i]] + rest[j]),
    decreases rest.len(),
{
    let init = extend_each(xs, rest.drop_last());
    let m = xs.map_values(|x: Seq<u32>| seq![x] + rest.last());
    assert(extend_each(xs, rest) == init + m);
    if j == rest.len() - 1 {
        assert(m[i] == seq![xs[i]] + rest[j]);
        assert((init + m)[init.len() + i] == m[i]);
    } else {
        lemma_extend_each_has(xs, rest.drop_last(), i, j);
        assert(rest.drop_last()[j] == rest[j]);
        let k = choose|k: int| 0 <= k < init.len() && init[k] == seq![xs[i]] + rest[j];
        assert((init + m)[k] == init[k]);
    }
}

proof fn lemma_choices_complete(pg: Seq<Seq<Seq<u32>>>, c: Seq<Seq<u32>>)
    requires
        c.len() == pg.len(),
        forall|g: int| 0 <= g < pg.len() ==> #[trigger] pg[g].contains(c[g]),
    ensures
        choices(pg).contains(c),
    decreases pg.len(),
{
    if pg.len() == 0 {
        assert(c =~= seq![]);
        assert(choices(pg)[0] == c);
    } else {
        let rest = pg.drop_first();
        let c1 = c.drop_first();
        assert forall|g: int| 0 <= g < rest.len() implies #[trigger] rest[g].contains(c1[g]) by {
            assert(pg[g + 1].contains(c[g + 1]));
        }
        lemma_choices_complete(rest, c1);
        let j = choose|j: int| 0 <= j < choices(rest).len() && choices(rest)[j] == c1;
        assert(pg[0].contains(c[0]));
        let i = choose|i: int| 0 <= i < pg[0].len() && pg[0][i] == c[0];
        lemma_extend_each_has(pg[0], choices(rest), i, j);
        assert(seq![pg[0][i]] + choices(rest)[j] =~= c);
    }
}

/// Below the cap every valid relabeling is tried: any choice of one
/// ordering of its instances per group stands in the plan.
pub proof fn law_relabelings_complete(gs: Seq<GroupView>, orders: Seq<Seq<u32>>)
    requires
        1 <= relabel_product(gs) <= RELABEL_CAP,
        orders_valid(gs, orders),
    ensures
        relabel_plan(gs).contains(orders),
{
    let pg = group_perms(gs);
    assert forall|g: int| 0 <= g < pg.len() implies #[trigger] pg[g].contains(orders[g]) by {
        law_permutations_complete(gs[g].instances, orders[g]);
    }
    lemma_choices_complete(pg, orders);
}

/// `0, 1, ..., k - 1`.
pub open spec fn iota(k: nat) -> Seq<u32> {
    Seq::new(k, |j: int| j as u32)
}

/// The groups with each group's instances renumbered `0..k`.
pub open spec fn dense_groups(gs: Seq<GroupView>) -> Seq<GroupView> {
    gs.map_values(|g: GroupView| GroupView { germ: g.germ, disjunct: g.disjunct, instances: iota(g.instances.len()) })
}

/// The placements relabeled.
pub open spec fn relabel_all(gs: Seq<GroupView>, orders: Seq<Seq<u32>>, ps: Seq<PlacementKey>) -> Seq<PlacementKey> {
    ps.map_values(|p: PlacementKey| relabeled(gs, orders, p))
}

/// Relabeling by `tau2` after `sigma`, as one relabeling of the original
/// instances: new label `j` of group `g` goes to `sigma[g][tau2[g][j]]`.
pub open spec fn compose(sigma: Seq<Seq<u32>>, tau2: Seq<Seq<u32>>) -> Seq<Seq<u32>> {
    Seq::new(tau2.len(), |g: int| tau2[g].map_values(|x: u32| sigma[g][x as int]))
}

/// The relabeling of `sigma`'s labels that, after `sigma`, gives `tau`.
pub open spec fn decompose(sigma: Seq<Seq<u32>>, tau: Seq<Seq<u32>>) -> Seq<Seq<u32>> {
    Seq::new(tau.len(), |g: int| tau[g].map_values(|y: u32| label_in(sigma[g], y) as u32))
}

proof fn lemma_same_elements_multiset(a: Seq<u32>, b: Seq<u32>)
    requires
        a.no_duplicates(),
        b.no_duplicates(),
        forall|x: u32| a.contains(x) <==> b.contains(x),
    ensures
        a.to_multiset() == b.to_multiset(),
{
    broadcast use vstd::seq_lib::group_to_multiset_ensures;
    a.lemma_multiset_has_no_duplicates();
    b.lemma_multiset_has_no_duplicates();
    assert forall|x: u32| a.to_multiset().count(x) == b.to_multiset().count(x) by {
        if a.contains(x) {
            assert(a.to_multiset().contains(x));
            assert(b.to_multiset().contains(x));
        } else {
            assert(!b.contains(x));
        }
    }
    assert(a.to_multiset() =~= b.to_multiset());
}

/// A valid order holds its group's instances, each once.
proof fn lemma_order_elements(gs: Seq<GroupView>, orders: Seq<Seq<u32>>, k: int)
    requires
        groups_wf(gs),
        orders_valid(gs, orders),
        0 <= k < gs.len(),
    ensures
        orders[k].no_duplicates(),
        gs[k].instances.no_duplicates(),
        orders[k].len() == gs[k].instances.len(),
        forall|x: u32| orders[k].contains(x) <==> gs[k].instances.contains(x),
{
    broadcast use vstd::seq_lib::group_to_multiset_ensures;
    let inst = gs[k].instances;
    let o = orders[k];
    assert(sorted_u32(inst));
    assert(inst.no_duplicates());
    inst.lemma_multiset_has_no_duplicates();
    assert(o.to_multiset() == inst.to_multiset());
    o.lemma_multiset_has_no_duplicates_conv();
    assert(o.len() == o.to_multiset().len());
    assert(inst.len() == inst.to_multiset().len());
    assert forall|x: u32| o.contains(x) <==> inst.contains(x) by {
        if o.contains(x) {
            assert(o.to_multiset().count(x) > 0);
        }
        if inst.contains(x) {
            assert(inst.to_multiset().count(x) > 0);
        }
    }
}

/// Below the cap no group has more than 8 instances.
proof fn lemma_small_groups(gs: Seq<GroupView>, k: int)
    requires
        relabel_product(gs) <= RELABEL_CAP,
        0 <= k < gs.len(),
    ensures
        gs[k].instances.len() <= 8,
{
    lemma_relabel_product_step(gs, k);
    lemma_relabel_product_grows(gs, k + 1);
    if gs[k].instances.len() >= 9 {
        lemma_fact_monotonic(9, gs[k].instances.len());
        assert(fact(0) == 1nat);
        assert(fact(1) == 1nat);
        assert(fact(2) == 2nat);
        assert(fact(3) == 6nat);
        assert(fact(4) == 24nat);
        assert(fact(5) == 120nat);
        assert(fact(6) == 720nat);
        assert(fact(7) == 5040nat);
        assert(fact(8) == 40320nat);
        assert(fact(9) == 362880nat);
    }
}

proof fn lemma_dense_wf(gs: Seq<GroupView>)
    requires
        groups_wf(gs),
        forall|k: int| 0 <= k < gs.len() ==> #[trigger] gs[k].instances.len() <= 8,
    ensures
        groups_wf(dense_groups(gs)),
        dense_groups(gs).len() == gs.len(),
        forall|k: int| 0 <= k < gs.len() ==> (#[trigger] dense_groups(gs)[k]).germ == gs[k].germ
            && dense_groups(gs)[k].disjunct == gs[k].disjunct
            && dense_groups(gs)[k].instances == iota(gs[k].instances.len()),
{
    let d = dense_groups(gs);
    assert forall|k: int| 0 <= k < d.len() implies sorted_u32(#[trigger] d[k].instances) && d[k].instances.len() > 0 by {
        assert(gs[k].instances.len() > 0);
        assert(gs[k].instances.len() <= 8);
    }
    assert forall|i: int, j: int| 0 <= i < j < d.len() implies key_lt(d[i].germ, d[i].disjunct, d[j].germ, d[j].disjunct) by {
        assert(key_lt(gs[i].germ, gs[i].disjunct, gs[j].germ, gs[j].disjunct));
    }
}

proof fn lemma_dense_product(gs: Seq<GroupView>)
    ensures
        relabel_product(dense_groups(gs)) == relabel_product(gs),
    decreases gs.len(),
{
    if gs.len() > 0 {
        assert(dense_groups(gs).drop_last() =~= dense_groups(gs.drop_last()));
        lemma_dense_product(gs.drop_last());
    }
}

/// The relabeled placement of a placement of group `k`.
proof fn lemma_relabeled_in_group(gs: Seq<GroupView>, sigma: Seq<Seq<u32>>, p: PlacementKey, k: int)
    requires
        groups_wf(gs),
        orders_valid(gs, sigma),
        0 <= k < gs.len(),
        in_group(gs[k], p),
        forall|g: int| 0 <= g < gs.len() ==> #[trigger] gs[g].instances.len() <= 8,
    ensures
        group_pos(gs, p.germ, p.disjunct) == k,
        relabeled(gs, sigma, p).germ == p.germ,
        relabeled(gs, sigma, p).disjunct == p.disjunct,
        relabeled(gs, sigma, p).instance == label_in(sigma[k], p.instance),
        0 <= label_in(sigma[k], p.instance) < gs[k].instances.len(),
        sigma[k][label_in(sigma[k], p.instance)] == p.instance,
{
    lemma_group_pos(gs, k);
    lemma_order_label(gs, sigma, k, p.instance);
    lemma_order_elements(gs, sigma, k);
    assert(gs[k].instances.len() <= 8);
}

/// The groups of relabeled placements are the dense groups.
proof fn lemma_dense_groups_of(ps: Seq<PlacementKey>, gs: Seq<GroupView>, sigma: Seq<Seq<u32>>)
    requires
        groups_of(ps, gs),
        orders_valid(gs, sigma),
        forall|g: int| 0 <= g < gs.len() ==> #[trigger] gs[g].instances.len() <= 8,
    ensures
        groups_of(relabel_all(gs, sigma, ps), dense_groups(gs)),
{
    let d = dense_groups(gs);
    let ps2 = relabel_all(gs, sigma, ps);
    lemma_dense_wf(gs);
    assert forall|i: int| 0 <= i < ps2.len() implies covered(d, #[trigger] ps2[i]) by {
        let p = ps[i];
        assert(covered(gs, p));
        let k = choose|k: int| 0 <= k < gs.len() && #[trigger] in_group(gs[k], p);
        lemma_relabeled_in_group(gs, sigma, p, k);
        let l = label_in(sigma[k], p.instance);
        assert(iota(gs[k].instances.len())[l] == l as u32);
        assert(d[k].instances.contains(ps2[i].instance));
        assert(in_group(d[k], ps2[i]));
    }
    assert forall|k: int, x: u32| 0 <= k < d.len() && #[trigger] d[k].instances.contains(x) implies placed(ps2, d[k], x) by {
        let j = choose|j: int| 0 <= j < d[k].instances.len() && d[k].instances[j] == x;
        lemma_order_elements(gs, sigma, k);
        assert(gs[k].instances.len() <= 8);
        assert(x as int == j);
        let y = sigma[k][j];
        assert(sigma[k].contains(y));
        assert(gs[k].instances.contains(y));
        assert(placed(ps, gs[k], y));
        let i = choose|i: int| 0 <= i < ps.len() && ps[i].germ == gs[k].germ && ps[i].disjunct == gs[k].disjunct && #[trigger] ps[i].instance == y;
        assert(in_group(gs[k], ps[i]));
        lemma_relabeled_in_group(gs, sigma, ps[i], k);
        lemma_order_label(gs, sigma, k, y);
        assert(label_in(sigma[k], y) == j);
        assert(ps2[i].instance == x);
    }
}

proof fn lemma_iota_contains(n: nat, x: u32)
    requires
        n <= 8,
    ensures
        iota(n).contains(x) <==> x < n,
{
    if x < n {
        assert(iota(n)[x as int] == x);
    }
}

/// Relabeling after a valid relabeling is a valid relabeling.
proof fn lemma_compose_valid(gs: Seq<GroupView>, sigma: Seq<Seq<u32>>, tau2: Seq<Seq<u32>>)
    requires
        groups_wf(gs),
        orders_valid(gs, sigma),
        orders_valid(dense_groups(gs), tau2),
        forall|g: int| 0 <= g < gs.len() ==> #[trigger] gs[g].instances.len() <= 8,
    ensures
        orders_valid(gs, compose(sigma, tau2)),
{
    let d = dense_groups(gs);
    let c = compose(sigma, tau2);
    lemma_dense_wf(gs);
    assert forall|g: int| 0 <= g < gs.len() implies (#[trigger] c[g]).to_multiset() == gs[g].instances.to_multiset() by {
        let n = gs[g].instances.len();
        let t = tau2[g];
        let o = sigma[g];
        let cg = c[g];
        lemma_order_elements(gs, sigma, g);
        lemma_order_elements(d, tau2, g);
        assert(d[g].instances == iota(n));
        assert(n <= 8);
        assert forall|x: u32| t.contains(x) <==> x < n by {
            lemma_iota_contains(n, x);
        }
        assert forall|a: int| 0 <= a < t.len() implies #[trigger] t[a] < n by {
            assert(t.contains(t[a]));
        }
        assert(cg.len() == t.len());
        assert(cg.no_duplicates()) by {
            assert forall|a: int, b: int| 0 <= a < cg.len() && 0 <= b < cg.len() && a != b implies cg[a] != cg[b] by {
                assert(cg[a] == o[t[a] as int]);
                assert(cg[b] == o[t[b] as int]);
                assert(t[a] < n && t[b] < n);
                assert(t[a] != t[b]);
            }
        }
        assert forall|y: u32| cg.contains(y) <==> gs[g].instances.contains(y) by {
            if cg.contains(y) {
                let a = choose|a: int| 0 <= a < cg.len() && cg[a] == y;
                assert(t[a] < n);
                assert(o[t[a] as int] == y);
                assert(o.contains(y));
            }
            if gs[g].instances.contains(y) {
                assert(o.contains(y));
                let i = choose|i: int| 0 <= i < o.len() && o[i] == y;
                assert(t.contains(i as u32));
                let a = choose|a: int| 0 <= a < t.len() && t[a] == i as u32;
                assert(cg[a] == o[i]);
            }
        }
        lemma_same_elements_multiset(cg, gs[g].instances);
    }
}

/// Relabeling by `sigma`, then by `tau2`, is relabeling by their composition.
proof fn lemma_compose_relabeled(gs: Seq<GroupView>, sigma: Seq<Seq<u32>>, tau2: Seq<Seq<u32>>, p: PlacementKey)
    requires
        groups_wf(gs),
        orders_valid(gs, sigma),
        orders_valid(dense_groups(gs), tau2),
        forall|g: int| 0 <= g < gs.len() ==> #[trigger] gs[g].instances.len() <= 8,
        covered(gs, p),
    ensures
        relabeled(dense_groups(gs), tau2, relabeled(gs, sigma, p)) == relabeled(gs, compose(sigma, tau2), p),
{
    let d = dense_groups(gs);
    let c = compose(sigma, tau2);
    lemma_dense_wf(gs);
    lemma_compose_valid(gs, sigma, tau2);
    let k = choose|k: int| 0 <= k < gs.len() && #[trigger] in_group(gs[k], p);
    lemma_relabeled_in_group(gs, sigma, p, k);
    let q = relabeled(gs, sigma, p);
    let l = label_in(sigma[k], p.instance);
    lemma_iota_contains(gs[k].instances.len(), l as u32);
    assert(in_group(d[k], q));
    assert forall|g: int| 0 <= g < d.len() implies #[trigger] d[g].instances.len() <= 8 by {
        assert(gs[g].instances.len() <= 8);
    }
    lemma_relabeled_in_group(d, tau2, q, k);
    let j = label_in(tau2[k], q.instance);
    lemma_order_elements(d, tau2, k);
    assert(0 <= j < tau2[k].len());
    assert(tau2[k][j] == q.instance);
    assert(tau2.len() == gs.len());
    assert(c[k] == tau2[k].map_values(|x: u32| sigma[k][x as int]));
    lemma_relabeled_in_group(gs, c, p, k);
    lemma_order_label(gs, c, k, p.instance);
    assert(c[k][j] == sigma[k][tau2[k][j] as int]);
    assert(c[k][j] == p.instance);
}

/// Any valid relabeling is `sigma` followed by a relabeling of its labels.
proof fn lemma_decompose(gs: Seq<GroupView>, sigma: Seq<Seq<u32>>, tau: Seq<Seq<u32>>)
    requires
        groups_wf(gs),
        orders_valid(gs, sigma),
        orders_valid(gs, tau),
        forall|g: int| 0 <= g < gs.len() ==> #[trigger] gs[g].instances.len() <= 8,
    ensures
        orders_valid(dense_groups(gs), decompose(sigma, tau)),
        compose(sigma, decompose(sigma, tau)) == tau,
{
    let d = dense_groups(gs);
    let dt = decompose(sigma, tau);
    lemma_dense_wf(gs);
    assert forall|g: int| 0 <= g < d.len() implies (#[trigger] dt[g]).to_multiset() == d[g].instances.to_multiset() && compose(sigma, dt)[g] =~= tau[g] by {
        let n = gs[g].instances.len();
        let o = sigma[g];
        let t = tau[g];
        let e = dt[g];
        lemma_order_elements(gs, sigma, g);
        lemma_order_elements(gs, tau, g);
        assert(n <= 8);
        assert forall|a: int| 0 <= a < t.len() implies 0 <= label_in(o, #[trigger] t[a]) < n && o[label_in(o, t[a])] == t[a] by {
            assert(t.contains(t[a]));
            lemma_order_label(gs, sigma, g, t[a]);
        }
        assert(e.no_duplicates()) by {
            assert forall|a: int, b: int| 0 <= a < e.len() && 0 <= b < e.len() && a != b implies e[a] != e[b] by {
                assert(0 <= label_in(o, t[a]) < n);
                assert(0 <= label_in(o, t[b]) < n);
                assert(t[a] != t[b]);
            }
        }
        assert(iota(n).no_duplicates());
        assert forall|x: u32| e.contains(x) <==> iota(n).contains(x) by {
            lemma_iota_contains(n, x);
            if e.contains(x) {
                let a = choose|a: int| 0 <= a < e.len() && e[a] == x;
                assert(0 <= label_in(o, t[a]) < n);
            }
            if x < n {
                let y = o[x as int];
                assert(o.contains(y));
                assert(t.contains(y));
                let a = choose|a: int| 0 <= a < t.len() && t[a] == y;
                lemma_order_label(gs, sigma, g, y);
                assert(label_in(o, y) == x as int);
                assert(e[a] == x);
            }
        }
        assert(d[g].instances == iota(n));
        lemma_same_elements_multiset(e, iota(n));
        assert forall|a: int| 0 <= a < t.len() implies compose(sigma, dt)[g][a] == t[a] by {
            assert(0 <= label_in(o, t[a]) < n);
        }
    }
    assert(compose(sigma, dt) =~= tau);
}

/// The candidates of a section: the section relabeled by each relabeling
/// of its plan.
pub open spec fn candidate_set(ps: Seq<PlacementKey>, bs: Seq<BondKey>) -> Set<(Seq<PlacementKey>, Seq<BondKey>)> {
    let gs = instance_groups_of(ps);
    Set::new(
        |c: (Seq<PlacementKey>, Seq<BondKey>)|
            exists|k: int| 0 <= k < relabel_plan(gs).len() && c == #[trigger] relabel_section(gs, relabel_plan(gs)[k], ps, bs),
    )
}

/// Relabeling then relabeling again, section-wide.
proof fn lemma_compose_section(
    ps: Seq<PlacementKey>,
    bs: Seq<BondKey>,
    gs: Seq<GroupView>,
    sigma: Seq<Seq<u32>>,
    tau2: Seq<Seq<u32>>,
)
    requires
        groups_of(ps, gs),
        bonds_within(ps, bs),
        orders_valid(gs, sigma),
        orders_valid(dense_groups(gs), tau2),
        forall|g: int| 0 <= g < gs.len() ==> #[trigger] gs[g].instances.len() <= 8,
    ensures
        relabel_section(
            dense_groups(gs),
            tau2,
            relabel_section(gs, sigma, ps, bs).0,
            relabel_section(gs, sigma, ps, bs).1,
        ) == relabel_section(gs, compose(sigma, tau2), ps, bs),
{
    let d = dense_groups(gs);
    let c = compose(sigma, tau2);
    let r1 = relabel_section(gs, sigma, ps, bs);
    let lhs = relabel_section(d, tau2, r1.0, r1.1);
    let rhs = relabel_section(gs, c, ps, bs);
    assert forall|i: int| 0 <= i < ps.len() implies lhs.0[i] == rhs.0[i] by {
        assert(covered(gs, ps[i]));
        lemma_compose_relabeled(gs, sigma, tau2, ps[i]);
    }
    assert forall|i: int| 0 <= i < bs.len() implies lhs.1[i] == rhs.1[i] by {
        let b = bs[i];
        assert(ps.contains(b.from.placement) && ps.contains(b.to.placement));
        let a1 = choose|t: int| 0 <= t < ps.len() && ps[t] == b.from.placement;
        let a2 = choose|t: int| 0 <= t < ps.len() && ps[t] == b.to.placement;
        assert(covered(gs, ps[a1]));
        assert(covered(gs, ps[a2]));
        lemma_compose_relabeled(gs, sigma, tau2, b.from.placement);
        lemma_compose_relabeled(gs, sigma, tau2, b.to.placement);
    }
    assert(lhs.0 =~= rhs.0);
    assert(lhs.1 =~= rhs.1);
}

/// Relabeling a section does not change its candidates: below the cap the
/// candidates of a relabeled section are those of the section itself, so
/// the least of them, its canonical form, is the same.
pub proof fn law_candidates_invariant_under_relabeling(
    ps: Seq<PlacementKey>,
    bs: Seq<BondKey>,
    gs: Seq<GroupView>,
    sigma: Seq<Seq<u32>>,
)
    requires
        groups_of(ps, gs),
        bonds_within(ps, bs),
        relabel_product(gs) <= RELABEL_CAP,
        orders_valid(gs, sigma),
    ensures
        candidate_set(relabel_section(gs, sigma, ps, bs).0, relabel_section(gs, sigma, ps, bs).1) == candidate_set(ps, bs),
{
    let d = dense_groups(gs);
    let r1 = relabel_section(gs, sigma, ps, bs);
    assert forall|g: int| 0 <= g < gs.len() implies #[trigger] gs[g].instances.len() <= 8 by {
        lemma_small_groups(gs, g);
    }
    lemma_groups_unique(ps, gs);
    assert(r1.0 =~= relabel_all(gs, sigma, ps));
    lemma_dense_groups_of(ps, gs, sigma);
    lemma_groups_unique(r1.0, d);
    lemma_dense_product(gs);
    lemma_relabel_product_grows(gs, 0);
    assert(gs.take(0) =~= Seq::<GroupView>::empty());
    assert forall|c: (Seq<PlacementKey>, Seq<BondKey>)| candidate_set(r1.0, r1.1).contains(c) <==> candidate_set(ps, bs).contains(c) by {
        if candidate_set(r1.0, r1.1).contains(c) {
            let k = choose|k: int| 0 <= k < relabel_plan(d).len() && c == #[trigger] relabel_section(d, relabel_plan(d)[k], r1.0, r1.1);
            let tau2 = relabel_plan(d)[k];
            law_relabelings_are_valid(d, k);
            lemma_dense_wf(gs);
            assert(orders_valid(d, tau2));
            lemma_compose_valid(gs, sigma, tau2);
            law_relabelings_complete(gs, compose(sigma, tau2));
            let k2 = choose|k2: int| 0 <= k2 < relabel_plan(gs).len() && relabel_plan(gs)[k2] == compose(sigma, tau2);
            lemma_compose_section(ps, bs, gs, sigma, tau2);
            assert(c == relabel_section(gs, relabel_plan(gs)[k2], ps, bs));
        }
        if candidate_set(ps, bs).contains(c) {
            let k = choose|k: int| 0 <= k < relabel_plan(gs).len() && c == #[trigger] relabel_section(gs, relabel_plan(gs)[k], ps, bs);
            let tau = relabel_plan(gs)[k];
            law_relabelings_are_valid(gs, k);
            assert(orders_valid(gs, tau));
            lemma_decompose(gs, sigma, tau);
            let tau2 = decompose(sigma, tau);
            law_relabelings_complete(d, tau2);
            let k2 = choose|k2: int| 0 <= k2 < relabel_plan(d).len() && relabel_plan(d)[k2] == tau2;
            lemma_compose_section(ps, bs, gs, sigma, tau2);
            assert(c == relabel_section(d, relabel_plan(d)[k2], r1.0, r1.1));
        }
    }
    assert(candidate_set(r1.0, r1.1) =~= candidate_set(ps, bs));
}

/// One new number for each instance of each group, all distinct within the
/// group: `targets[g][i]` renumbers the `i`-th instance of group `g`.
pub open spec fn renumbering_ok(gs: Seq<GroupView>, targets: Seq<Seq<u32>>) -> bool {
    &&& targets.len() == gs.len()
    &&& forall|g: int| 0 <= g < gs.len() ==> (#[trigger] targets[g]).len() == gs[g].instances.len() && targets[g].no_duplicates()
}

/// Placement `p` renumbered.
pub open spec fn renumbered(gs: Seq<GroupView>, targets: Seq<Seq<u32>>, p: PlacementKey) -> PlacementKey {
    let k = group_pos(gs, p.germ, p.disjunct);
    PlacementKey { germ: p.germ, disjunct: p.disjunct, instance: targets[k][label_in(gs[k].instances, p.instance)] }
}

/// A section renumbered, placements and bond ends alike.
pub open spec fn renumber_section(
    gs: Seq<GroupView>,
    targets: Seq<Seq<u32>>,
    ps: Seq<PlacementKey>,
    bs: Seq<BondKey>,
) -> (Seq<PlacementKey>, Seq<BondKey>) {
    (
        ps.map_values(|p: PlacementKey| renumbered(gs, targets, p)),
        bs.map_values(
            |b: BondKey|
                BondKey {
                    from: PortKey { placement: renumbered(gs, targets, b.from.placement), port: b.from.port },
                    to: PortKey { placement: renumbered(gs, targets, b.to.placement), port: b.to.port },
                },
        ),
    )
}

/// Ascending order of `u32`s.
pub open spec fn u32_le() -> spec_fn(u32, u32) -> bool {
    |a: u32, b: u32| a <= b
}

/// The groups of the renumbered placements: the same keys, each with its new
/// numbers ascending.
pub open spec fn renumbered_groups(gs: Seq<GroupView>, targets: Seq<Seq<u32>>) -> Seq<GroupView> {
    Seq::new(
        gs.len(),
        |g: int| GroupView { germ: gs[g].germ, disjunct: gs[g].disjunct, instances: targets[g].sort_by(u32_le()) },
    )
}

proof fn lemma_product_same_sizes(a: Seq<GroupView>, b: Seq<GroupView>)
    requires
        a.len() == b.len(),
        forall|g: int| 0 <= g < a.len() ==> (#[trigger] a[g]).instances.len() == b[g].instances.len(),
    ensures
        relabel_product(a) == relabel_product(b),
    decreases a.len(),
{
    if a.len() > 0 {
        lemma_product_same_sizes(a.drop_last(), b.drop_last());
        assert(a.last().instances.len() == b[b.len() - 1].instances.len());
    }
}

proof fn lemma_renumbered_groups(ps: Seq<PlacementKey>, gs: Seq<GroupView>, targets: Seq<Seq<u32>>)
    requires
        groups_of(ps, gs),
        renumbering_ok(gs, targets),
    ensures
        groups_of(renumber_section(gs, targets, ps, seq![]).0, renumbered_groups(gs, targets)),
        forall|g: int| 0 <= g < gs.len() ==> (#[trigger] targets[g]).to_multiset() == renumbered_groups(gs, targets)[g].instances.to_multiset(),
        forall|g: int, x: u32| 0 <= g < gs.len() ==> (targets[g].contains(x) <==> #[trigger] renumbered_groups(gs, targets)[g].instances.contains(x)),
{
    broadcast use vstd::seq_lib::group_to_multiset_ensures;
    let rg = renumbered_groups(gs, targets);
    let t = renumber_section(gs, targets, ps, seq![]).0;
    let le = u32_le();
    assert(vstd::relations::total_ordering(le)) by {
        assert(vstd::relations::reflexive(le));
        assert(vstd::relations::antisymmetric(le));
        assert(vstd::relations::transitive(le));
        assert(vstd::relations::strongly_connected(le));
    }
    let dense = dense_orders(gs);
    assert(orders_valid(gs, dense));
    assert forall|g: int| 0 <= g < gs.len() implies {
        &&& sorted_u32(#[trigger] rg[g].instances)
        &&& rg[g].instances.len() > 0
        &&& targets[g].to_multiset() == rg[g].instances.to_multiset()
        &&& forall|x: u32| targets[g].contains(x) <==> rg[g].instances.contains(x)
    } by {
        let tg = targets[g];
        let sg = tg.sort_by(le);
        tg.lemma_sort_by_ensures(le);
        assert(tg.len() == tg.to_multiset().len());
        assert(sg.len() == sg.to_multiset().len());
        tg.lemma_multiset_has_no_duplicates();
        assert forall|x: u32| tg.contains(x) <==> sg.contains(x) by {
            if tg.contains(x) {
                assert(tg.to_multiset().count(x) > 0);
            }
            if sg.contains(x) {
                assert(sg.to_multiset().count(x) > 0);
            }
        }
        assert forall|x: u32| sg.to_multiset().contains(x) implies sg.to_multiset().count(x) == 1 by {
            assert(tg.to_multiset().contains(x));
        }
        sg.lemma_multiset_has_no_duplicates_conv();
        assert forall|i: int, j: int| 0 <= i < j < sg.len() implies sg[i] < sg[j] by {
            assert(le(sg[i], sg[j]));
            assert(sg[i] != sg[j]);
        }
        assert(gs[g].instances.len() > 0);
    }
    assert(groups_wf(rg)) by {
        assert forall|i: int, j: int| 0 <= i < j < rg.len() implies key_lt(rg[i].germ, rg[i].disjunct, rg[j].germ, rg[j].disjunct) by {
            assert(key_lt(gs[i].germ, gs[i].disjunct, gs[j].germ, gs[j].disjunct));
        }
    }
    assert forall|i: int| 0 <= i < t.len() implies covered(rg, #[trigger] t[i]) by {
        let p = ps[i];
        assert(covered(gs, p));
        let k = choose|k: int| 0 <= k < gs.len() && #[trigger] in_group(gs[k], p);
        lemma_group_pos(gs, k);
        lemma_order_label(gs, dense, k, p.instance);
        let l = label_in(gs[k].instances, p.instance);
        assert(dense[k] == gs[k].instances);
        assert(targets[k].contains(targets[k][l]));
        assert(in_group(rg[k], t[i]));
    }
    assert forall|k: int, x: u32| 0 <= k < rg.len() && #[trigger] rg[k].instances.contains(x) implies placed(t, rg[k], x) by {
        assert(targets[k].contains(x));
        let j = choose|j: int| 0 <= j < targets[k].len() && targets[k][j] == x;
        let y = gs[k].instances[j];
        assert(gs[k].instances.contains(y));
        assert(placed(ps, gs[k], y));
        let i = choose|i: int| 0 <= i < ps.len() && ps[i].germ == gs[k].germ && ps[i].disjunct == gs[k].disjunct && #[trigger] ps[i].instance == y;
        lemma_group_pos(gs, k);
        lemma_order_label(gs, dense, k, y);
        assert(dense[k] == gs[k].instances);
        assert(label_in(gs[k].instances, y) == j);
        assert(t[i].instance == x);
    }
}

/// Renumbering the instances of each group one to one, into any numbers,
/// does not change a section's candidates below the cap, so it does not
/// change its canonical form: both the section and its renumbering relabel
/// onto the same dense section.
pub proof fn law_candidates_invariant_under_renumbering(
    ps: Seq<PlacementKey>,
    bs: Seq<BondKey>,
    gs: Seq<GroupView>,
    targets: Seq<Seq<u32>>,
)
    requires
        groups_of(ps, gs),
        bonds_within(ps, bs),
        relabel_product(gs) <= RELABEL_CAP,
        renumbering_ok(gs, targets),
    ensures
        candidate_set(renumber_section(gs, targets, ps, bs).0, renumber_section(gs, targets, ps, bs).1)
            == candidate_set(ps, bs),
{
    let rg = renumbered_groups(gs, targets);
    let rs = renumber_section(gs, targets, ps, bs);
    let dense = dense_orders(gs);
    lemma_renumbered_groups(ps, gs, targets);
    assert(rs.0 == renumber_section(gs, targets, ps, seq![]).0);
    assert forall|g: int| 0 <= g < gs.len() implies (#[trigger] rg[g]).instances.len() == gs[g].instances.len() by {
        assert(targets[g].to_multiset().len() == rg[g].instances.to_multiset().len());
        broadcast use vstd::seq_lib::group_to_multiset_ensures;
        assert(targets[g].len() == targets[g].to_multiset().len());
        assert(rg[g].instances.len() == rg[g].instances.to_multiset().len());
    }
    lemma_product_same_sizes(rg, gs);
    assert(orders_valid(gs, dense));
    assert(orders_valid(rg, targets));
    // Renumbered bonds join renumbered placements.
    assert(bonds_within(rs.0, rs.1)) by {
        assert forall|i: int| 0 <= i < rs.1.len() implies rs.0.contains((#[trigger] rs.1[i]).from.placement) && rs.0.contains(rs.1[i].to.placement) by {
            let b = bs[i];
            assert(ps.contains(b.from.placement) && ps.contains(b.to.placement));
            let a1 = choose|t: int| 0 <= t < ps.len() && ps[t] == b.from.placement;
            let a2 = choose|t: int| 0 <= t < ps.len() && ps[t] == b.to.placement;
            assert(rs.0[a1] == rs.1[i].from.placement);
            assert(rs.0[a2] == rs.1[i].to.placement);
        }
    }
    // Both relabel onto the same dense section.
    assert forall|p: PlacementKey| covered(gs, p) implies #[trigger] relabeled(rg, targets, renumbered(gs, targets, p)) == relabeled(gs, dense, p) by {
        let k = choose|k: int| 0 <= k < gs.len() && #[trigger] in_group(gs[k], p);
        lemma_group_pos(gs, k);
        lemma_order_label(gs, dense, k, p.instance);
        assert(dense[k] == gs[k].instances);
        let l = label_in(gs[k].instances, p.instance);
        let q = renumbered(gs, targets, p);
        assert(q.instance == targets[k][l]);
        assert(targets[k].contains(q.instance));
        assert(rg[k].instances.contains(q.instance));
        assert(in_group(rg[k], q));
        lemma_group_pos(rg, k);
        lemma_order_label(rg, targets, k, q.instance);
        assert(label_in(targets[k], q.instance) == l);
    }
    let d1 = relabel_section(rg, targets, rs.0, rs.1);
    let d2 = relabel_section(gs, dense, ps, bs);
    assert forall|i: int| 0 <= i < ps.len() implies d1.0[i] == d2.0[i] by {
        assert(covered(gs, ps[i]));
        assert(relabeled(rg, targets, renumbered(gs, targets, ps[i])) == relabeled(gs, dense, ps[i]));
    }
    assert forall|i: int| 0 <= i < bs.len() implies d1.1[i] == d2.1[i] by {
        let b = bs[i];
        assert(ps.contains(b.from.placement) && ps.contains(b.to.placement));
        let a1 = choose|t: int| 0 <= t < ps.len() && ps[t] == b.from.placement;
        let a2 = choose|t: int| 0 <= t < ps.len() && ps[t] == b.to.placement;
        assert(covered(gs, ps[a1]));
        assert(covered(gs, ps[a2]));
        assert(relabeled(rg, targets, renumbered(gs, targets, b.from.placement)) == relabeled(gs, dense, b.from.placement));
        assert(relabeled(rg, targets, renumbered(gs, targets, b.to.placement)) == relabeled(gs, dense, b.to.placement));
    }
    assert(d1.0 =~= d2.0);
    assert(d1.1 =~= d2.1);
    law_candidates_invariant_under_relabeling(ps, bs, gs, dense);
    law_candidates_invariant_under_relabeling(rs.0, rs.1, rg, targets);
}

} // verus!
