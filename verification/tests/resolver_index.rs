use prophet_aggregate::{IndexedResolver, ResolverBuilder, ResolverError};

#[test]
fn reflexive_and_direct_and_transitive() {
    let r = ResolverBuilder::new()
        .edge("ex:SSN", "ex:FinancialPII")
        .edge("ex:FinancialPII", "ex:PII")
        .edge("ex:PII", "ex:PersonalData")
        .build();

    // Reflexive.
    assert!(r.subsumes("ex:PII", "ex:PII").unwrap().is_some());
    // Direct.
    assert!(r.subsumes("ex:PII", "ex:FinancialPII").unwrap().is_some());
    // Transitive (two and three hops).
    assert!(r.subsumes("ex:PII", "ex:SSN").unwrap().is_some());
    assert!(r.subsumes("ex:PersonalData", "ex:SSN").unwrap().is_some());
    // Asymmetric: general is not subsumed by specific.
    assert!(r.subsumes("ex:SSN", "ex:PII").unwrap().is_none());
    // Unrelated.
    let r2 = ResolverBuilder::new().edge("ex:A", "ex:B").edge("ex:C", "ex:D").build();
    assert!(r2.subsumes("ex:B", "ex:C").unwrap().is_none());
}

#[test]
fn witness_carries_the_shortest_path() {
    let r = ResolverBuilder::new()
        .edge("ex:SSN", "ex:FinancialPII")
        .edge("ex:FinancialPII", "ex:PII")
        .build();
    let w = r.subsumes("ex:PII", "ex:SSN").unwrap().unwrap();
    let chain: Vec<_> = w.chain.iter().map(|i| i.as_str().to_string()).collect();
    assert_eq!(chain, vec!["ex:SSN", "ex:FinancialPII", "ex:PII"]);
}

#[test]
fn multi_parent_dag_is_handled() {
    // SSN is both FinancialPII and GovIssuedId; both roll up to PII.
    let r = ResolverBuilder::new()
        .edge("ex:SSN", "ex:FinancialPII")
        .edge("ex:SSN", "ex:GovIssuedId")
        .edge("ex:FinancialPII", "ex:PII")
        .edge("ex:GovIssuedId", "ex:PII")
        .build();
    assert!(r.subsumes("ex:PII", "ex:SSN").unwrap().is_some());
    assert!(r.subsumes("ex:GovIssuedId", "ex:SSN").unwrap().is_some());
}

#[test]
fn strict_mode_reports_unknown_concepts_as_error_not_denial() {
    let r = ResolverBuilder::new().edge("ex:SSN", "ex:PII").strict(true).build();
    // A concept the hierarchy has never heard of is an error, not a silent "no".
    match r.subsumes("ex:PII", "ex:Unheard") {
        Err(ResolverError::UnknownConcept { iri }) => assert_eq!(iri.as_str(), "ex:Unheard"),
        other => panic!("expected UnknownConcept, got {other:?}"),
    }
}

#[test]
fn loads_edges_from_a_text_export() {
    // A tab/comma export, with a comment, a blank line, and one malformed row.
    let export = "\
# subClassOf export
ex:SSN\tex:FinancialPII
ex:FinancialPII,ex:PII

malformed-row-without-separator
ex:PII\tex:PersonalData
";
    let (builder, skipped) = ResolverBuilder::new().load_edges(export);
    let r = builder.build();
    assert_eq!(skipped, vec![5], "the malformed row should be reported");
    // Transitive closure spans both tab- and comma-separated edges.
    assert!(r.subsumes("ex:PersonalData", "ex:SSN").unwrap().is_some());
    assert_eq!(r.concept_count(), 4);
}

#[test]
fn lenient_mode_treats_unknowns_as_isolated_nodes() {
    let r = ResolverBuilder::new().edge("ex:SSN", "ex:PII").build();
    // Reflexive still holds for an unseen concept; unrelated returns a clean no.
    assert!(r.subsumes("ex:X", "ex:X").unwrap().is_some());
    assert!(r.subsumes("ex:PII", "ex:X").unwrap().is_none());
}

#[test]
fn resolver_is_send_and_sync() {
    fn assert_send_sync<T: Send + Sync>() {}
    assert_send_sync::<IndexedResolver>();
}

#[test]
fn strict_mode_checks_the_general_concept_first() {
    let r = ResolverBuilder::new().edge("ex:SSN", "ex:PII").strict(true).build();
    match r.subsumes("ex:Nowhere", "ex:Unheard") {
        Err(ResolverError::UnknownConcept { iri }) => assert_eq!(iri, "ex:Nowhere"),
        other => panic!("expected UnknownConcept, got {other:?}"),
    }
    // Known concepts still answer in strict mode.
    assert!(r.subsumes("ex:PII", "ex:SSN").unwrap().is_some());
    assert!(r.subsumes("ex:SSN", "ex:PII").unwrap().is_none());
}

#[test]
fn reflexive_witness_is_the_concept_alone() {
    let r = ResolverBuilder::new().edge("ex:SSN", "ex:PII").build();
    let w = r.subsumes("ex:SSN", "ex:SSN").unwrap().unwrap();
    assert_eq!(w.chain, vec!["ex:SSN".to_string()]);
}

#[test]
fn witness_prefers_the_first_parent_in_name_order() {
    // Two shortest paths from D to A; the one through the smaller name wins.
    let r = ResolverBuilder::new()
        .edge("ex:D", "ex:C")
        .edge("ex:D", "ex:B")
        .edge("ex:B", "ex:A")
        .edge("ex:C", "ex:A")
        .build();
    let w = r.subsumes("ex:A", "ex:D").unwrap().unwrap();
    assert_eq!(w.chain, vec!["ex:D".to_string(), "ex:B".to_string(), "ex:A".to_string()]);
}

#[test]
fn every_edge_is_a_subsumption_and_chains_compose() {
    let r = ResolverBuilder::new()
        .edge("a", "b")
        .edge("b", "c")
        .edge("c", "d")
        .edge("x", "c")
        .build();
    for (c, p) in [("a", "b"), ("b", "c"), ("c", "d"), ("x", "c")] {
        assert!(r.subsumes(p, c).unwrap().is_some());
    }
    // Transitivity: a ⊑ c and c ⊑ d give a ⊑ d; x ⊑ c ⊑ d gives x ⊑ d.
    assert!(r.subsumes("d", "a").unwrap().is_some());
    assert!(r.subsumes("d", "x").unwrap().is_some());
    assert!(r.subsumes("a", "x").unwrap().is_none());
    assert_eq!(r.concept_count(), 5);
}

#[test]
fn duplicate_edges_and_cycles_are_handled() {
    let r = ResolverBuilder::new()
        .edge("a", "b")
        .edge("a", "b")
        .edge("b", "a")
        .build();
    assert_eq!(r.concept_count(), 2);
    assert!(r.subsumes("a", "b").unwrap().is_some());
    assert!(r.subsumes("b", "a").unwrap().is_some());
    let w = r.subsumes("b", "a").unwrap().unwrap();
    assert_eq!(w.chain, vec!["a".to_string(), "b".to_string()]);
}

#[test]
fn load_edges_trims_and_reports_every_bad_row() {
    let export = "  a , b  \n#comment\n\t\nc\t\n,d\nx\ty,z\n";
    let (builder, skipped) = ResolverBuilder::new().load_edges(export);
    assert_eq!(skipped, vec![4, 5]);
    let r = builder.build();
    assert!(r.subsumes("b", "a").unwrap().is_some());
    // A tab wins over commas: the parent of x is "y,z".
    assert!(r.subsumes("y,z", "x").unwrap().is_some());
    assert_eq!(r.concept_count(), 4);
}

#[test]
fn empty_builder_builds_an_empty_resolver() {
    let r = ResolverBuilder::new().build();
    assert_eq!(r.concept_count(), 0);
    assert!(r.subsumes("a", "a").unwrap().is_some());
    assert!(r.subsumes("a", "b").unwrap().is_none());
    let strict = ResolverBuilder::default().strict(true).build();
    assert!(strict.subsumes("a", "a").is_err());
}

#[test]
fn a_cloned_builder_builds_the_same_resolver() {
    let b = ResolverBuilder::new().edge("ex:SSN", "ex:PII").strict(true);
    let c = b.clone();
    let (rb, rc) = (b.build(), c.build());
    assert_eq!(rb.to_index_bytes(), rc.to_index_bytes());
    assert!(rc.subsumes("ex:PII", "ex:SSN").unwrap().is_some());
}
