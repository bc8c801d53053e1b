use prophet_aggregate::enumerate::{
    bond_count, bonded, existing_port_move, fresh_port_move, has_capacity, may_grow, next_instance, oriented_bond,
    visit, Coherence, Mate, Move, Visit,
};
use prophet_aggregate::{BondKey, Bound, PlacementKey, PortKey};

fn pk(germ: usize, disjunct: u32, instance: u32) -> PlacementKey {
    PlacementKey { germ, disjunct, instance }
}

fn port(p: PlacementKey, port: u32) -> PortKey {
    PortKey { placement: p, port }
}

#[test]
fn bound_of_n_placements() {
    assert_eq!(Bound::placements(6).max_placements, 6);
}

#[test]
fn bonds_are_counted_at_either_end() {
    let a = port(pk(0, 0, 0), 0);
    let b = port(pk(1, 0, 0), 0);
    let c = port(pk(1, 0, 1), 0);
    let bonds = vec![BondKey { from: a, to: b }, BondKey { from: c, to: a }, BondKey { from: b, to: c }];
    assert_eq!(bond_count(&bonds, a), 2);
    assert_eq!(bond_count(&bonds, b), 2);
    assert_eq!(bond_count(&vec![], a), 0);
    assert!(bonded(&bonds, a, b));
    assert!(bonded(&bonds, b, a));
    assert!(bonded(&bonds, a, c));
    assert!(!bonded(&bonds[..1].to_vec(), a, c));
    assert!(has_capacity(&bonds, a, None));
    assert!(has_capacity(&bonds, a, Some(3)));
    assert!(!has_capacity(&bonds, a, Some(2)));
}

#[test]
fn bonds_run_out_to_in() {
    let t = port(pk(0, 0, 0), 1);
    let p = port(pk(2, 1, 0), 0);
    assert_eq!(oriented_bond(t, true, p), BondKey { from: t, to: p });
    assert_eq!(oriented_bond(t, false, p), BondKey { from: p, to: t });
}

#[test]
fn next_instance_is_one_past_the_greatest() {
    let ps = vec![pk(0, 0, 0), pk(0, 0, 4), pk(0, 1, 9), pk(1, 0, 7), pk(0, 0, 2)];
    assert_eq!(next_instance(&ps, 0, 0), 5);
    assert_eq!(next_instance(&ps, 0, 1), 10);
    assert_eq!(next_instance(&ps, 2, 0), 0);
}

#[test]
fn growth_respects_bound_and_instance_cap() {
    assert!(may_grow(3, Bound::placements(4), None));
    assert!(!may_grow(4, Bound::placements(4), None));
    assert!(may_grow(3, Bound::placements(10), Some(4)));
    assert!(!may_grow(4, Bound::placements(10), Some(4)));
}

#[test]
fn existing_port_moves() {
    let t = port(pk(0, 0, 0), 0);
    let p = port(pk(1, 0, 0), 0);
    let none: Vec<BondKey> = vec![];
    assert_eq!(existing_port_move(&none, t, true, Some(1), p, Some(1), Mate::Compatible), Move::Bond(BondKey { from: t, to: p }));
    assert_eq!(existing_port_move(&none, t, false, None, p, None, Mate::Compatible), Move::Bond(BondKey { from: p, to: t }));
    assert_eq!(existing_port_move(&none, t, true, None, p, None, Mate::Refused), Move::Skip);
    assert_eq!(existing_port_move(&none, t, true, None, p, None, Mate::ResolverUnavailable), Move::Abort);
    let one = vec![BondKey { from: t, to: p }];
    // Already bonded.
    assert_eq!(existing_port_move(&one, t, true, None, p, None, Mate::Compatible), Move::Skip);
    // The candidate is full.
    let q = port(pk(2, 0, 0), 0);
    let full = vec![BondKey { from: q, to: p }];
    assert_eq!(existing_port_move(&full, t, true, None, p, Some(1), Mate::Compatible), Move::Skip);
    assert_eq!(existing_port_move(&full, t, true, None, p, Some(2), Mate::Compatible), Move::Bond(BondKey { from: t, to: p }));
}

#[test]
fn fresh_port_moves() {
    let t = port(pk(0, 0, 0), 0);
    let np = pk(3, 1, 2);
    let none: Vec<BondKey> = vec![];
    assert_eq!(
        fresh_port_move(&none, t, true, Some(1), np, 4, Mate::Compatible),
        Move::Bond(BondKey { from: t, to: port(np, 4) })
    );
    assert_eq!(fresh_port_move(&none, t, true, Some(1), np, 4, Mate::Refused), Move::Skip);
    assert_eq!(fresh_port_move(&none, t, true, Some(1), np, 4, Mate::ResolverUnavailable), Move::Abort);
    let one = vec![BondKey { from: t, to: port(pk(5, 0, 0), 0) }];
    assert_eq!(fresh_port_move(&one, t, true, Some(1), np, 4, Mate::Compatible), Move::Skip);
}

#[test]
fn visits() {
    let b = Bound::placements(3);
    assert_eq!(visit(false, 1, b, Coherence::Coherent, true), Visit::Prune);
    assert_eq!(visit(true, 1, b, Coherence::ResolverUnavailable, true), Visit::Abort);
    assert_eq!(visit(true, 1, b, Coherence::Incoherent, true), Visit::Prune);
    assert_eq!(visit(true, 3, b, Coherence::Coherent, true), Visit::Record);
    assert_eq!(visit(true, 2, b, Coherence::Coherent, false), Visit::Grow);
    // A seed larger than the bound is no solution.
    assert_eq!(visit(true, 4, b, Coherence::Coherent, true), Visit::Prune);
    assert_eq!(visit(true, 1, Bound::placements(0), Coherence::Coherent, true), Visit::Prune);
}
