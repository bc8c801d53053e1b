use prophet_aggregate::canon::{
    apply_relabeling, factorial, first_minimum, instance_groups, permutations, relabel_candidates, relabel_total,
    relabelings, RELABEL_CAP,
};
use prophet_aggregate::{BondKey, PlacementKey, PortKey};

fn pk(germ: usize, disjunct: u32, instance: u32) -> PlacementKey {
    PlacementKey { germ, disjunct, instance }
}

fn port(p: PlacementKey, port: u32) -> PortKey {
    PortKey { placement: p, port }
}

#[test]
fn factorial_values() {
    assert_eq!(factorial(0), 1);
    assert_eq!(factorial(1), 1);
    assert_eq!(factorial(5), 120);
    assert_eq!(factorial(8), 40320);
    assert_eq!(factorial(9), 362880);
    assert_eq!(factorial(34), 295232799039604140847618609643520000000u128);
    // The cap sits between 8! and 9!.
    assert!(factorial(8) < RELABEL_CAP && RELABEL_CAP <= factorial(9));
}

#[test]
fn permutations_in_order() {
    assert_eq!(permutations(&[]), vec![Vec::<u32>::new()]);
    assert_eq!(permutations(&[7]), vec![vec![7]]);
    assert_eq!(
        permutations(&[1, 2, 3]),
        vec![vec![1, 2, 3], vec![1, 3, 2], vec![2, 1, 3], vec![2, 3, 1], vec![3, 1, 2], vec![3, 2, 1]]
    );
}

#[test]
fn permutation_count_is_factorial_and_each_rearranges() {
    let items = [4u32, 9, 1, 6, 3];
    let ps = permutations(&items);
    assert_eq!(ps.len() as u128, factorial(items.len()));
    let mut sorted_items = items.to_vec();
    sorted_items.sort();
    for p in &ps {
        let mut q = p.clone();
        q.sort();
        assert_eq!(q, sorted_items);
    }
    let mut all = ps.clone();
    all.sort();
    all.dedup();
    assert_eq!(all.len(), ps.len());
}

#[test]
fn groups_are_keyed_sorted_and_deduplicated() {
    let ps = vec![pk(2, 0, 5), pk(1, 1, 3), pk(1, 0, 4), pk(2, 0, 1), pk(1, 1, 3), pk(1, 0, 0)];
    let gs = instance_groups(&ps);
    let shape: Vec<(usize, u32, Vec<u32>)> = gs.iter().map(|g| (g.germ, g.disjunct, g.instances.clone())).collect();
    assert_eq!(shape, vec![(1, 0, vec![0, 4]), (1, 1, vec![3]), (2, 0, vec![1, 5])]);
    assert!(instance_groups(&vec![]).is_empty());
}

#[test]
fn relabel_total_is_the_product_of_factorials() {
    let ps = vec![pk(0, 0, 0), pk(0, 0, 1), pk(0, 0, 2), pk(1, 0, 0), pk(1, 0, 1)];
    let gs = instance_groups(&ps);
    assert_eq!(relabel_total(&gs), Some(12));
    assert_eq!(relabel_total(&vec![]), Some(1));
    // 35 interchangeable instances: 35! does not fit.
    let many: Vec<PlacementKey> = (0..35).map(|i| pk(0, 0, i)).collect();
    assert_eq!(relabel_total(&instance_groups(&many)), None);
}

#[test]
fn relabelings_walk_every_combination_first_group_fastest() {
    let ps = vec![pk(0, 0, 3), pk(0, 0, 8), pk(1, 2, 5), pk(1, 2, 6)];
    let gs = instance_groups(&ps);
    let plan = relabelings(&gs);
    assert_eq!(
        plan,
        vec![
            vec![vec![3, 8], vec![5, 6]],
            vec![vec![8, 3], vec![5, 6]],
            vec![vec![3, 8], vec![6, 5]],
            vec![vec![8, 3], vec![6, 5]],
        ]
    );
}

#[test]
fn above_the_cap_only_the_dense_relabeling_is_tried() {
    let ps: Vec<PlacementKey> = (0..9).map(|i| pk(0, 0, 10 * i)).collect();
    let gs = instance_groups(&ps);
    assert_eq!(relabel_total(&gs), Some(362880));
    let plan = relabelings(&gs);
    assert_eq!(plan, vec![vec![(0..9).map(|i| 10 * i).collect::<Vec<u32>>()]]);
    let ps8: Vec<PlacementKey> = (0..8).map(|i| pk(0, 0, i)).collect();
    assert_eq!(relabelings(&instance_groups(&ps8)).len(), 40320);
}

#[test]
fn relabeling_maps_instances_to_their_positions() {
    let a0 = pk(0, 0, 7);
    let a1 = pk(0, 0, 2);
    let b0 = pk(1, 0, 9);
    let ps = vec![a0, a1, b0];
    let bonds = vec![BondKey { from: port(a0, 0), to: port(b0, 1) }, BondKey { from: port(a1, 0), to: port(b0, 1) }];
    let gs = instance_groups(&ps);
    let orders = vec![vec![7, 2], vec![9]];
    let (rp, rb) = apply_relabeling(&ps, &bonds, &gs, &orders);
    assert_eq!(rp, vec![pk(0, 0, 0), pk(0, 0, 1), pk(1, 0, 0)]);
    assert_eq!(
        rb,
        vec![
            BondKey { from: port(pk(0, 0, 0), 0), to: port(pk(1, 0, 0), 1) },
            BondKey { from: port(pk(0, 0, 1), 0), to: port(pk(1, 0, 0), 1) },
        ]
    );
}

#[test]
fn candidates_follow_the_plan() {
    let a0 = pk(0, 0, 4);
    let a1 = pk(0, 0, 1);
    let ps = vec![a0, a1];
    let bonds = vec![BondKey { from: port(a0, 0), to: port(a1, 1) }];
    let cands = relabel_candidates(&ps, &bonds);
    assert_eq!(cands.len(), 2);
    assert_eq!(cands[0].0, vec![pk(0, 0, 1), pk(0, 0, 0)]);
    assert_eq!(cands[0].1, vec![BondKey { from: port(pk(0, 0, 1), 0), to: port(pk(0, 0, 0), 1) }]);
    assert_eq!(cands[1].0, vec![pk(0, 0, 0), pk(0, 0, 1)]);
    assert_eq!(cands[1].1, vec![BondKey { from: port(pk(0, 0, 0), 0), to: port(pk(0, 0, 1), 1) }]);
    // Too many relabelings to count in a u128: the dense relabeling alone,
    // each instance replaced by its rank.
    let many: Vec<PlacementKey> = (0..35).map(|i| pk(0, 0, 100 - i)).collect();
    let dense = relabel_candidates(&many, &vec![]);
    assert_eq!(dense.len(), 1);
    assert_eq!(dense[0].0, (0..35).map(|i| pk(0, 0, 34 - i)).collect::<Vec<_>>());
    assert!(dense[0].1.is_empty());
}

#[test]
fn first_minimum_keeps_the_earliest_least() {
    assert_eq!(first_minimum(&vec![]), None);
    assert_eq!(first_minimum(&vec![vec![3], vec![1, 2], vec![1], vec![1, 2], vec![1]]), Some(2));
    assert_eq!(first_minimum(&vec![vec![], vec![]]), Some(0));
    assert_eq!(first_minimum(&vec![vec![2, 0], vec![1, 9, 9], vec![2]]), Some(1));
}

#[test]
fn below_the_cap_every_relabeling_is_tried_once() {
    let ps = vec![pk(0, 0, 4), pk(0, 0, 1), pk(0, 0, 9), pk(3, 1, 0)];
    let gs = instance_groups(&ps);
    let plan = relabelings(&gs);
    assert_eq!(plan.len(), 6);
    let mut firsts: Vec<Vec<u32>> = plan.iter().map(|t| t[0].clone()).collect();
    firsts.sort();
    firsts.dedup();
    assert_eq!(firsts, permutations(&[1, 4, 9]));
    assert!(plan.iter().all(|t| t.len() == 2 && t[1] == vec![0]));
}

#[test]
fn relabeling_a_section_keeps_its_candidates() {
    let a0 = pk(0, 0, 3);
    let a1 = pk(0, 0, 7);
    let b0 = pk(1, 0, 2);
    let ps = vec![a0, a1, b0];
    let bonds = vec![BondKey { from: port(a0, 0), to: port(b0, 1) }];
    // The same section with the two instances of group (0, 0) swapped.
    let (ps2, bonds2) = apply_relabeling(&ps, &bonds, &instance_groups(&ps), &vec![vec![7, 3], vec![2]]);
    let mut c1 = relabel_candidates(&ps, &bonds);
    let mut c2 = relabel_candidates(&ps2, &bonds2);
    c1.sort_by(|x, y| format!("{x:?}").cmp(&format!("{y:?}")));
    c2.sort_by(|x, y| format!("{x:?}").cmp(&format!("{y:?}")));
    assert_eq!(c1, c2);
    assert_eq!(c1.len(), 2);
}

#[test]
fn renumbering_a_section_keeps_its_candidates() {
    let a0 = pk(0, 0, 3);
    let a1 = pk(0, 0, 7);
    let b0 = pk(1, 0, 2);
    let ps = vec![a0, a1, b0];
    let bonds = vec![BondKey { from: port(a0, 0), to: port(b0, 1) }];
    // Renumber group (0, 0) as 3 -> 40, 7 -> 11 and group (1, 0) as 2 -> 9.
    let na0 = pk(0, 0, 40);
    let na1 = pk(0, 0, 11);
    let nb0 = pk(1, 0, 9);
    let ps2 = vec![na0, na1, nb0];
    let bonds2 = vec![BondKey { from: port(na0, 0), to: port(nb0, 1) }];
    let key = |c: &(Vec<PlacementKey>, Vec<BondKey>)| format!("{c:?}");
    let mut c1 = relabel_candidates(&ps, &bonds);
    let mut c2 = relabel_candidates(&ps2, &bonds2);
    c1.sort_by_key(key);
    c2.sort_by_key(key);
    assert_eq!(c1, c2);
}
