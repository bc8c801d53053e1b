//! Size bounds and the decisions of the bounded completion search.
//!
//! The search takes the first still-open `Required` port of a partial
//! section and enumerates every legal way to satisfy it: bond it to an
//! existing compatible open port, or introduce a new placement that offers
//! one. Which ports mate is decided by the manifest's port types and the
//! resolver; what the search does with each answer is decided here.
use crate::canon::{BondKey, PlacementKey, PortKey};
use vstd::prelude::*;

verus! {

/// A size bound on the search. Without one, cycles make the space infinite.
#[derive(Debug, Clone, Copy, PartialEq, Eq)]
pub struct Bound {
    /// The maximum number of placements a solution (or any partial state) may
    /// contain.
    pub max_placements: usize,
}

impl Bound {
    /// A bound of `n` placements.
    pub fn placements(n: usize) -> (b: Self)
        ensures
            b.max_placements == n,
    {
        Bound { max_placements: n }
    }
}

/// Bond `b` has port `r` at one of its ends.
pub open spec fn touches(b: BondKey, r: PortKey) -> bool {
    b.from == r || b.to == r
}

/// The number of bonds with `r` at one of their ends.
pub open spec fn bonds_at(bonds: Seq<BondKey>, r: PortKey) -> nat
    decreases bonds.len(),
{
    if bonds.len() == 0 {
        0
    } else {
        bonds_at(bonds.drop_last(), r) + if touches(bonds.last(), r) { 1nat } else { 0nat }
    }
}

proof fn lemma_bonds_at_bound(bonds: Seq<BondKey>, r: PortKey)
    ensures
        bonds_at(bonds, r) <= bonds.len(),
    decreases bonds.len(),
{
    if bonds.len() > 0 {
        lemma_bonds_at_bound(bonds.drop_last(), r);
    }
}

/// The number of bonds at port `r`, as a `u32` (truncated, as counted).
pub fn bond_count(bonds: &Vec<BondKey>, r: PortKey) -> (n: u32)
    ensures
        n == bonds_at(bonds@, r) as u32,
{
    let mut n: usize = 0;
    let mut i: usize = 0;
    while i < bonds.len()
        invariant
            i <= bonds@.len(),
            n == bonds_at(bonds@.take(i as int), r),
        decreases bonds@.len() - i,
    {
        proof {
            assert(bonds@.take(i + 1).drop_last() =~= bonds@.take(i as int));
            lemma_bonds_at_bound(bonds@.take(i as int), r);
        }
        let b = bonds[i];
        if b.from == r || b.to == r {
            n = n + 1;
        }
        i = i + 1;
    }
    assert(bonds@.take(bonds@.len() as int) =~= bonds@);
    #[verifier::truncate]
    (n as u32)
}

/// Some bond joins `a` and `b`, in either direction.
pub open spec fn joined(bonds: Seq<BondKey>, a: PortKey, b: PortKey) -> bool {
    exists|i: int| 0 <= i < bonds.len() && (#[trigger] bonds[i] == BondKey { from: a, to: b } || bonds[i] == BondKey { from: b, to: a })
}

/// Whether some bond already joins `a` and `b`.
pub fn bonded(bonds: &Vec<BondKey>, a: PortKey, b: PortKey) -> (r: bool)
    ensures
        r == joined(bonds@, a, b),
{
    let mut i: usize = 0;
    while i < bonds.len()
        invariant
            i <= bonds@.len(),
            forall|j: int| 0 <= j < i ==> !(#[trigger] bonds@[j] == BondKey { from: a, to: b } || bonds@[j] == BondKey { from: b, to: a }),
        decreases bonds@.len() - i,
    {
        let x = bonds[i];
        if (x.from == a && x.to == b) || (x.from == b && x.to == a) {
            assert(bonds@[i as int] == BondKey { from: a, to: b } || bonds@[i as int] == BondKey { from: b, to: a });
            return true;
        }
        i = i + 1;
    }
    false
}

/// Port `r` may take one more bond: its arity bounds its bonds by `max`, if
/// it bounds them at all.
pub open spec fn capacity_left(bonds: Seq<BondKey>, r: PortKey, max: Option<u32>) -> bool {
    match max {
        Some(m) => (bonds_at(bonds, r) as u32) < m,
        None => true,
    }
}

/// Whether port `r`, whose arity allows at most `max` bonds (`None`: no
/// limit), can take another bond.
pub fn has_capacity(bonds: &Vec<BondKey>, r: PortKey, max: Option<u32>) -> (b: bool)
    ensures
        b == capacity_left(bonds@, r, max),
{
    match max {
        Some(m) => bond_count(bonds, r) < m,
        None => true,
    }
}

/// The bond between the target port `tref` and `pref`, oriented `Out` to
/// `In`: from the target when the target's direction is `Out`.
pub open spec fn orient(tref: PortKey, target_out: bool, pref: PortKey) -> BondKey {
    if target_out {
        BondKey { from: tref, to: pref }
    } else {
        BondKey { from: pref, to: tref }
    }
}

/// Orients a bond `Out` to `In` given the target port and its direction.
pub fn oriented_bond(tref: PortKey, target_out: bool, pref: PortKey) -> (b: BondKey)
    ensures
        b == orient(tref, target_out, pref),
{
    if target_out {
        BondKey { from: tref, to: pref }
    } else {
        BondKey { from: pref, to: tref }
    }
}

/// Placement `p` is an instance of `(germ, disjunct)`.
pub open spec fn of_kind(p: PlacementKey, germ: usize, disjunct: u32) -> bool {
    p.germ == germ && p.disjunct == disjunct
}

/// One past the greatest instance of `(germ, disjunct)` among `ps`; `0` when
/// there is none.
pub open spec fn next_label(ps: Seq<PlacementKey>, germ: usize, disjunct: u32) -> nat
    decreases ps.len(),
{
    if ps.len() == 0 {
        0
    } else {
        let rest = next_label(ps.drop_last(), germ, disjunct);
        if of_kind(ps.last(), germ, disjunct) && ps.last().instance + 1 > rest {
            (ps.last().instance + 1) as nat
        } else {
            rest
        }
    }
}

proof fn lemma_next_label_fresh(ps: Seq<PlacementKey>, germ: usize, disjunct: u32)
    ensures
        forall|i: int| 0 <= i < ps.len() && of_kind(ps[i], germ, disjunct) ==> #[trigger] ps[i].instance < next_label(ps, germ, disjunct),
        next_label(ps, germ, disjunct) == 0 || exists|i: int| 0 <= i < ps.len() && of_kind(ps[i], germ, disjunct) && next_label(ps, germ, disjunct) == #[trigger] ps[i].instance + 1,
    decreases ps.len(),
{
    if ps.len() > 0 {
        let init = ps.drop_last();
        lemma_next_label_fresh(init, germ, disjunct);
        assert forall|i: int| 0 <= i < ps.len() && of_kind(ps[i], germ, disjunct) implies #[trigger] ps[i].instance < next_label(ps, germ, disjunct) by {
            if i < init.len() {
                assert(ps[i] == init[i]);
            }
        }
        if next_label(ps, germ, disjunct) != next_label(init, germ, disjunct) {
            assert(ps[ps.len() - 1] == ps.last());
        } else if next_label(init, germ, disjunct) != 0 {
            let i = choose|i: int| 0 <= i < init.len() && of_kind(init[i], germ, disjunct) && next_label(init, germ, disjunct) == #[trigger] init[i].instance + 1;
            assert(ps[i] == init[i]);
        }
    }
}

/// The next free instance number of `(germ, disjunct)`: one past the greatest
/// placed, or `0`.
pub fn next_instance(placements: &Vec<PlacementKey>, germ: usize, disjunct: u32) -> (n: u32)
    requires
        forall|i: int| 0 <= i < placements@.len() && of_kind(#[trigger] placements@[i], germ, disjunct) ==> placements@[i].instance < u32::MAX,
    ensures
        n == next_label(placements@, germ, disjunct),
        forall|i: int| 0 <= i < placements@.len() && of_kind(#[trigger] placements@[i], germ, disjunct) ==> placements@[i].instance < n,
{
    let mut best: u32 = 0;
    let mut i: usize = 0;
    while i < placements.len()
        invariant
            i <= placements@.len(),
            forall|j: int| 0 <= j < placements@.len() && of_kind(#[trigger] placements@[j], germ, disjunct) ==> placements@[j].instance < u32::MAX,
            best == next_label(placements@.take(i as int), germ, disjunct),
        decreases placements@.len() - i,
    {
        assert(placements@.take(i + 1).drop_last() =~= placements@.take(i as int));
        let p = placements[i];
        if p.germ == germ && p.disjunct == disjunct && p.instance + 1 > best {
            best = p.instance + 1;
        }
        i = i + 1;
    }
    assert(placements@.take(placements@.len() as int) =~= placements@);
    proof {
        lemma_next_label_fresh(placements@, germ, disjunct);
    }
    best
}

/// A partial state of `n` placements may grow by one: it is under the size
/// bound and under the policy's cap on instances, if there is one (`n` is
/// taken as a `u32`, truncated, as the policy counts).
pub open spec fn may_grow_spec(n: usize, bound: Bound, max_instances: Option<u32>) -> bool {
    &&& n < bound.max_placements
    &&& match max_instances {
        Some(m) => (n as u32) < m,
        None => true,
    }
}

/// Whether a partial state of `n` placements may introduce a new placement.
pub fn may_grow(n: usize, bound: Bound, max_instances: Option<u32>) -> (b: bool)
    ensures
        b == may_grow_spec(n, bound, max_instances),
{
    let within_instance_cap = match max_instances {
        Some(m) => {
            #[verifier::truncate]
            let k = n as u32;
            k < m
        },
        None => true,
    };
    n < bound.max_placements && within_instance_cap
}

/// The resolver's answer to whether two ports mate.
#[derive(Debug, Clone, Copy, PartialEq, Eq, Structural)]
pub enum Mate {
    /// They mate.
    Compatible,
    /// They do not (types, direction or subsumption refuse it).
    Refused,
    /// The resolver could not answer.
    ResolverUnavailable,
}

/// What the search does with one candidate.
#[derive(Debug, Clone, Copy, PartialEq, Eq, Structural)]
pub enum Move {
    /// Nothing: the candidate does not extend the state.
    Skip,
    /// Explore the state extended by this bond.
    Bond(BondKey),
    /// Abandon the whole search: an outage is not a "no".
    Abort,
}

/// The move for bonding the target `tref` to the existing port `pref`: a
/// bond when they mate, both have capacity left and are not yet bonded.
pub open spec fn existing_move_spec(
    bonds: Seq<BondKey>,
    tref: PortKey,
    target_out: bool,
    target_max: Option<u32>,
    pref: PortKey,
    port_max: Option<u32>,
    mate: Mate,
) -> Move {
    match mate {
        Mate::Compatible => if capacity_left(bonds, tref, target_max) && capacity_left(bonds, pref, port_max)
            && !joined(bonds, tref, pref) {
            Move::Bond(orient(tref, target_out, pref))
        } else {
            Move::Skip
        },
        Mate::Refused => Move::Skip,
        Mate::ResolverUnavailable => Move::Abort,
    }
}

/// Decides what to do with an existing port `pref` (other than the target)
/// given whether it mates with the target.
pub fn existing_port_move(
    bonds: &Vec<BondKey>,
    tref: PortKey,
    target_out: bool,
    target_max: Option<u32>,
    pref: PortKey,
    port_max: Option<u32>,
    mate: Mate,
) -> (m: Move)
    ensures
        m == existing_move_spec(bonds@, tref, target_out, target_max, pref, port_max, mate),
{
    match mate {
        Mate::Compatible => {
            if has_capacity(bonds, tref, target_max) && has_capacity(bonds, pref, port_max) && !bonded(bonds, tref, pref) {
                Move::Bond(oriented_bond(tref, target_out, pref))
            } else {
                Move::Skip
            }
        },
        Mate::Refused => Move::Skip,
        Mate::ResolverUnavailable => Move::Abort,
    }
}

/// The move for bonding the target to port `port` of a new placement: a bond
/// when they mate and the target has capacity left.
pub open spec fn fresh_move_spec(
    bonds: Seq<BondKey>,
    tref: PortKey,
    target_out: bool,
    target_max: Option<u32>,
    placement: PlacementKey,
    port: u32,
    mate: Mate,
) -> Move {
    match mate {
        Mate::Compatible => if capacity_left(bonds, tref, target_max) {
            Move::Bond(orient(tref, target_out, PortKey { placement, port }))
        } else {
            Move::Skip
        },
        Mate::Refused => Move::Skip,
        Mate::ResolverUnavailable => Move::Abort,
    }
}

/// Decides what to do with port `port` of a new placement, given whether it
/// mates with the target.
pub fn fresh_port_move(
    bonds: &Vec<BondKey>,
    tref: PortKey,
    target_out: bool,
    target_max: Option<u32>,
    placement: PlacementKey,
    port: u32,
    mate: Mate,
) -> (m: Move)
    ensures
        m == fresh_move_spec(bonds@, tref, target_out, target_max, placement, port, mate),
{
    match mate {
        Mate::Compatible => {
            if has_capacity(bonds, tref, target_max) {
                Move::Bond(oriented_bond(tref, target_out, PortKey { placement, port }))
            } else {
                Move::Skip
            }
        },
        Mate::Refused => Move::Skip,
        Mate::ResolverUnavailable => Move::Abort,
    }
}

/// The coherence check's answer on a partial section.
#[derive(Debug, Clone, Copy, PartialEq, Eq, Structural)]
pub enum Coherence {
    Coherent,
    Incoherent,
    ResolverUnavailable,
}

/// What the search does with a partial section once it has been checked.
#[derive(Debug, Clone, Copy, PartialEq, Eq, Structural)]
pub enum Visit {
    /// Already explored up to isomorphism, larger than the bound, or
    /// incoherent: prune.
    Prune,
    /// The resolver failed: abandon the search.
    Abort,
    /// Closed and coherent: record it as a solution, grow it no further.
    Record,
    /// Coherent but open: satisfy its first open required port.
    Grow,
}

/// The decision on a partial section of `n` placements: `fresh` when its
/// canonical id was not visited before, `coherence` the coherence check,
/// `closed` whether every required port is satisfied. A state larger than the
/// bound (only a seed can be) is no solution and is not grown.
pub open spec fn visit_spec(fresh: bool, n: usize, bound: Bound, coherence: Coherence, closed: bool) -> Visit {
    if !fresh || n > bound.max_placements {
        Visit::Prune
    } else {
        match coherence {
            Coherence::ResolverUnavailable => Visit::Abort,
            Coherence::Incoherent => Visit::Prune,
            Coherence::Coherent => if closed {
                Visit::Record
            } else {
                Visit::Grow
            },
        }
    }
}

/// Decides what to do with a partial section of `n` placements.
pub fn visit(fresh: bool, n: usize, bound: Bound, coherence: Coherence, closed: bool) -> (v: Visit)
    ensures
        v == visit_spec(fresh, n, bound, coherence, closed),
{
    if !fresh || n > bound.max_placements {
        return Visit::Prune;
    }
    match coherence {
        Coherence::ResolverUnavailable => Visit::Abort,
        Coherence::Incoherent => Visit::Prune,
        Coherence::Coherent => {
            if closed {
                Visit::Record
            } else {
                Visit::Grow
            }
        },
    }
}

/// Only a section seen for the first time, within the bound, coherent and
/// closed is ever recorded as a solution.
pub proof fn law_only_closed_coherent_sections_are_recorded(
    fresh: bool,
    n: usize,
    bound: Bound,
    coherence: Coherence,
    closed: bool,
)
    ensures
        visit_spec(fresh, n, bound, coherence, closed) == Visit::Record <==> (fresh && n <= bound.max_placements
            && coherence == Coherence::Coherent && closed),
{
}

/// A bond the search adds always runs from an `Out` port to an `In` port:
/// from the target when the target is `Out`, else into it; and it joins the
/// target to the candidate.
pub proof fn law_bonds_join_target_and_candidate(
    bonds: Seq<BondKey>,
    tref: PortKey,
    target_out: bool,
    target_max: Option<u32>,
    pref: PortKey,
    port_max: Option<u32>,
    mate: Mate,
)
    ensures
        existing_move_spec(bonds, tref, target_out, target_max, pref, port_max, mate) matches Move::Bond(b) ==> {
            &&& mate == Mate::Compatible
            &&& capacity_left(bonds, tref, target_max)
            &&& capacity_left(bonds, pref, port_max)
            &&& !joined(bonds, tref, pref)
            &&& (target_out ==> b.from == tref && b.to == pref)
            &&& (!target_out ==> b.from == pref && b.to == tref)
        },
{
}

/// An outage is never a quiet "no": whenever the resolver cannot answer,
/// for a candidate port or for the coherence of a new state within the
/// bound, the search is abandoned.
pub proof fn law_outage_aborts(
    bonds: Seq<BondKey>,
    tref: PortKey,
    target_out: bool,
    target_max: Option<u32>,
    pref: PortKey,
    port_max: Option<u32>,
    placement: PlacementKey,
    port: u32,
    n: usize,
    bound: Bound,
    closed: bool,
)
    requires
        n <= bound.max_placements,
    ensures
        existing_move_spec(bonds, tref, target_out, target_max, pref, port_max, Mate::ResolverUnavailable) == Move::Abort,
        fresh_move_spec(bonds, tref, target_out, target_max, placement, port, Mate::ResolverUnavailable) == Move::Abort,
        visit_spec(true, n, bound, Coherence::ResolverUnavailable, closed) == Visit::Abort,
{
}

/// What becomes of a state seen for the first time, within the bound, and
/// coherent: it is recorded when closed and grown when open. It is never
/// dropped: an open state at the bound still bonds its target to the
/// existing ports.
pub proof fn law_fresh_coherent_states_are_kept(n: usize, bound: Bound, closed: bool)
    requires
        n <= bound.max_placements,
    ensures
        closed ==> visit_spec(true, n, bound, Coherence::Coherent, closed) == Visit::Record,
        !closed ==> visit_spec(true, n, bound, Coherence::Coherent, closed) == Visit::Grow,
{
}

/// A state is grown exactly when it is new, within the bound, coherent and
/// still open.
pub proof fn law_grow_exactly_open_states(fresh: bool, n: usize, bound: Bound, coherence: Coherence, closed: bool)
    ensures
        visit_spec(fresh, n, bound, coherence, closed) == Visit::Grow <==> (fresh && n <= bound.max_placements
            && coherence == Coherence::Coherent && !closed),
{
}

/// A bond to a new placement runs from an `Out` port to an `In` port: out
/// of the target when the target is `Out`, else out of the new placement's
/// port into the target. It is proposed exactly when the ports mate and the
/// target can take another bond.
pub proof fn law_fresh_bonds_run_out_to_in(
    bonds: Seq<BondKey>,
    tref: PortKey,
    target_out: bool,
    target_max: Option<u32>,
    placement: PlacementKey,
    port: u32,
    mate: Mate,
)
    ensures
        fresh_move_spec(bonds, tref, target_out, target_max, placement, port, mate) is Bond <==> (mate
            == Mate::Compatible && capacity_left(bonds, tref, target_max)),
        fresh_move_spec(bonds, tref, target_out, target_max, placement, port, mate) matches Move::Bond(b) ==> {
            &&& (target_out ==> b.from == tref && b.to == PortKey { placement, port })
            &&& (!target_out ==> b.from == PortKey { placement, port } && b.to == tref)
        },
{
}

/// A bond to an existing port is proposed exactly when the ports mate, both
/// can take another bond, and they are not already bonded.
pub proof fn law_existing_bonds_proposed_exactly(
    bonds: Seq<BondKey>,
    tref: PortKey,
    target_out: bool,
    target_max: Option<u32>,
    pref: PortKey,
    port_max: Option<u32>,
    mate: Mate,
)
    ensures
        existing_move_spec(bonds, tref, target_out, target_max, pref, port_max, mate) is Bond <==> (mate
            == Mate::Compatible && capacity_left(bonds, tref, target_max) && capacity_left(bonds, pref, port_max)
            && !joined(bonds, tref, pref)),
{
}

} // verus!
