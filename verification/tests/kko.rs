use prophet_aggregate::{kko, ResolverBuilder};

const SNIPPET: &str = "\
# a KKO-shaped export
:Mammals a owl:Class ;
  rdfs:subClassOf :Animals ;
  owl:disjointWith _:g1 .

:Animals a owl:Class ;
  rdfs:subClassOf :LivingThings .

:Dog a owl:Class ;
  rdfs:subClassOf :Mammals , :Pets .

_:g1 a owl:Class ;
  rdfs:subClassOf _:g2 .

:Robot a owl:Class ;
  rdfs:subClassOf [ owl:onProperty :hasPart ] .
";

#[test]
fn extracts_named_subclass_edges() {
    let (edges, stats) = kko::subclass_edges(SNIPPET);
    let as_pairs: Vec<(String, String)> = edges.iter().map(|(c, p)| (c.to_string(), p.to_string())).collect();
    assert_eq!(
        as_pairs,
        vec![
            ("Mammals".into(), "Animals".into()),
            ("Animals".into(), "LivingThings".into()),
            ("Dog".into(), "Mammals".into()),
            ("Dog".into(), "Pets".into()),
        ]
    );
    assert_eq!(stats.edges, 4);
    assert_eq!(stats.subjects, 3);
    // Robot's superclass is a restriction (blank node), not a named class.
    assert_eq!(stats.skipped_structural, 1);
}

#[test]
fn imported_hierarchy_answers_transitive_subsumption() {
    let (builder, _) = ResolverBuilder::new().load_kko(SNIPPET);
    let r = builder.build();
    // Dog ⊑ Mammals ⊑ Animals ⊑ LivingThings.
    assert!(r.subsumes("LivingThings", "Dog").unwrap().is_some());
    // Multi-parent: Dog ⊑ Pets.
    assert!(r.subsumes("Pets", "Dog").unwrap().is_some());
    // Asymmetry holds.
    assert!(r.subsumes("Dog", "Animals").unwrap().is_none());
}

#[test]
fn prefixed_terms_and_self_edges_are_not_superclasses() {
    let doc = ":A a owl:Class ;\n  rdfs:subClassOf owl:Thing , :A , :B .\n";
    let (edges, stats) = kko::subclass_edges(doc);
    assert_eq!(edges, vec![("A".to_string(), "B".to_string())]);
    assert_eq!(stats.edges, 1);
    assert_eq!(stats.subjects, 1);
    assert_eq!(stats.skipped_structural, 0);
}

#[test]
fn unicode_subject_names_are_kept() {
    // Names take any alphanumeric character, and `-` and `_`.
    let doc = ":Café a owl:Class ;\r\n  rdfs:subClassOf :Drinks-Place_2 .\r\n";
    let (edges, stats) = kko::subclass_edges(doc);
    assert_eq!(edges, vec![("Café".to_string(), "Drinks-Place_2".to_string())]);
    assert_eq!(stats.subjects, 1);
}

#[test]
fn subclass_lines_outside_a_named_block_are_ignored() {
    let doc = "rdfs:subClassOf :X .\n_:b rdfs:subClassOf :Y .\n:N rdfs:subClassOf :Z , :W .\n";
    let (edges, stats) = kko::subclass_edges(doc);
    assert_eq!(edges, vec![("N".to_string(), "Z".to_string()), ("N".to_string(), "W".to_string())]);
    assert_eq!(stats.edges, 2);
    assert_eq!(stats.subjects, 1);
    assert_eq!(stats.skipped_structural, 0);
}

#[test]
fn load_kko_adds_to_existing_edges() {
    let (b, stats) = ResolverBuilder::new().edge("Animals", "Beings").load_kko(SNIPPET);
    assert_eq!(stats.edges, 4);
    let r = b.build();
    assert!(r.subsumes("Beings", "Dog").unwrap().is_some());
    assert_eq!(r.concept_count(), 6);
}

#[test]
fn unicode_superclass_names_are_kept() {
    let doc = ":Chat a owl:Class ;\n  rdfs:subClassOf :Café .\n";
    let (edges, stats) = kko::subclass_edges(doc);
    assert_eq!(edges, vec![("Chat".to_string(), "Café".to_string())]);
    assert_eq!(stats.edges, 1);
    let (b, _) = ResolverBuilder::new().load_kko(":Café a owl:Class ;\n  rdfs:subClassOf :Lieu .\n");
    let (b, _) = b.load_kko(doc);
    let r = b.build();
    assert!(r.subsumes("Lieu", "Chat").unwrap().is_some());
}
