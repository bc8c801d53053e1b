use prophet_aggregate::{IndexDecodeError, IndexedResolver, ResolverBuilder};
use std::time::Instant;

fn agrees(a: &IndexedResolver, b: &IndexedResolver, pairs: &[(&str, &str)]) {
    for (g, s) in pairs {
        let ra = a.subsumes(g, s).unwrap();
        let rb = b.subsumes(g, s).unwrap();
        assert_eq!(
            ra.as_ref().map(|w| &w.chain),
            rb.as_ref().map(|w| &w.chain),
            "reloaded index disagreed on {s} ⊑ {g}"
        );
    }
}

#[test]
fn index_round_trips_exactly() {
    let built = ResolverBuilder::new()
        .edge("ex:SSN", "ex:FinancialPII")
        .edge("ex:SSN", "ex:GovIssuedId")
        .edge("ex:FinancialPII", "ex:PII")
        .edge("ex:GovIssuedId", "ex:PII")
        .edge("ex:PII", "ex:PersonalData")
        .strict(true)
        .build();

    let bytes = built.to_index_bytes();
    let reloaded = IndexedResolver::from_index_bytes(&bytes).unwrap();

    assert_eq!(reloaded.concept_count(), built.concept_count());
    agrees(
        &built,
        &reloaded,
        &[
            ("ex:PersonalData", "ex:SSN"), // deep transitive
            ("ex:PII", "ex:SSN"),
            ("ex:FinancialPII", "ex:SSN"),
            ("ex:SSN", "ex:PII"), // asymmetry: None
            ("ex:PII", "ex:PII"), // reflexive
        ],
    );
    // Re-serializing the reloaded index reproduces the bytes exactly.
    assert_eq!(reloaded.to_index_bytes(), bytes);
}

#[test]
fn decode_rejects_garbage() {
    assert!(IndexedResolver::from_index_bytes(b"nope").is_err());
    assert!(IndexedResolver::from_index_bytes(&[]).is_err());
    // Truncated after a valid header.
    assert!(IndexedResolver::from_index_bytes(b"PSI1").is_err());
}

#[test]
fn scales_to_a_large_hierarchy() {
    // A wide, shallow 4-ary tree of ~8000 concepts: parent(i) = (i-1)/4.
    const N: u32 = 8000;
    let mut builder = ResolverBuilder::new();
    for i in 1..N {
        let parent = (i - 1) / 4;
        builder = builder.edge(&format!("c{i}"), &format!("c{parent}"));
    }

    let t_build = Instant::now();
    let r = builder.build();
    let build_ms = t_build.elapsed().as_secs_f64() * 1e3;
    assert_eq!(r.concept_count(), N as usize);

    // Every leaf subsumes up to the root c0; membership plus a short witness.
    let t_query = Instant::now();
    for i in (N / 2)..N {
        let leaf = format!("c{i}");
        let w = r.subsumes("c0", &leaf).unwrap().expect("leaf ⊑ root");
        assert_eq!(w.chain.first().unwrap().as_str(), format!("c{i}"));
        assert_eq!(w.chain.last().unwrap().as_str(), "c0");
    }
    let query_us = t_query.elapsed().as_secs_f64() * 1e6 / f64::from(N / 2);

    // Persist and reload with no recomputation.
    let bytes = r.to_index_bytes();
    let t_load = Instant::now();
    let reloaded = IndexedResolver::from_index_bytes(&bytes).unwrap();
    let load_ms = t_load.elapsed().as_secs_f64() * 1e3;
    assert_eq!(reloaded.concept_count(), N as usize);
    assert!(reloaded.subsumes("c0", "c7999").unwrap().is_some());

    println!(
        "scale[{N}]: build {build_ms:.1}ms, ~{query_us:.2}µs/query, index {} bytes, reload {load_ms:.1}ms",
        bytes.len()
    );
    // Generous ceilings — the point is it stays cheap, not a hard SLA.
    assert!(build_ms < 2000.0, "closure build too slow: {build_ms}ms");
    assert!(query_us < 50.0, "queries too slow: {query_us}µs");
}

#[test]
fn encoding_of_a_small_index_is_exact() {
    let r = ResolverBuilder::new().edge("b", "a").build();
    let bytes = r.to_index_bytes();
    let expected: Vec<u8> = vec![
        b'P', b'S', b'I', b'1', 0, // magic, lenient
        0, 0, 0, 2, // two nodes
        0, 0, 0, 1, b'a', 0, 0, 0, 1, b'b', // "a", "b"
        0, 0, 0, 0, // a has no parents
        0, 0, 0, 1, 0, 0, 0, 0, // b's parent is node 0
        0, 0, 0, 0, // a has no ancestors
        0, 0, 0, 1, 0, 0, 0, 0, // b's ancestor is node 0
    ];
    assert_eq!(bytes, expected);
    let strict = ResolverBuilder::new().strict(true).build().to_index_bytes();
    assert_eq!(strict, vec![b'P', b'S', b'I', b'1', 1, 0, 0, 0, 0]);
}

#[test]
fn each_decode_error_has_its_input() {
    assert_eq!(IndexedResolver::from_index_bytes(b"PSI").err(), Some(IndexDecodeError::Truncated));
    assert_eq!(IndexedResolver::from_index_bytes(b"nope").err(), Some(IndexDecodeError::BadHeader));
    // One node whose name is not UTF-8.
    let bad_utf8 = [b'P', b'S', b'I', b'1', 0, 0, 0, 0, 1, 0, 0, 0, 1, 0xff];
    assert_eq!(IndexedResolver::from_index_bytes(&bad_utf8).err(), Some(IndexDecodeError::BadUtf8));
    // One node whose parent index is out of range.
    let bad_node = [b'P', b'S', b'I', b'1', 0, 0, 0, 0, 1, 0, 0, 0, 1, b'a', 0, 0, 0, 1, 0, 0, 0, 7];
    assert_eq!(IndexedResolver::from_index_bytes(&bad_node).err(), Some(IndexDecodeError::BadNodeIndex));
    // The same, truncated before the ancestor lists.
    let short = [b'P', b'S', b'I', b'1', 0, 0, 0, 0, 1, 0, 0, 0, 1, b'a', 0, 0, 0, 0];
    assert_eq!(IndexedResolver::from_index_bytes(&short).err(), Some(IndexDecodeError::Truncated));
    let ok = [b'P', b'S', b'I', b'1', 0, 0, 0, 0, 1, 0, 0, 0, 1, b'a', 0, 0, 0, 0, 0, 0, 0, 0];
    let r = IndexedResolver::from_index_bytes(&ok).unwrap();
    assert_eq!(r.concept_count(), 1);
}

#[test]
fn decode_error_messages() {
    assert_eq!(IndexDecodeError::Truncated.message(), "persisted index truncated");
    assert_eq!(
        IndexDecodeError::BadNodeIndex.message(),
        "persisted index referenced an out-of-range node"
    );
    assert_eq!(IndexDecodeError::BadUtf8.message(), "persisted index string was not UTF-8");
    assert_eq!(IndexDecodeError::BadHeader.message(), "persisted index header mismatch");
}

#[test]
fn decoding_normalizes_unsorted_parent_lists() {
    // Node b lists its parent twice; the reloaded index holds it once and
    // answers as the built one does.
    let bytes = [
        b'P', b'S', b'I', b'1', 0, 0, 0, 0, 2, 0, 0, 0, 1, b'a', 0, 0, 0, 1, b'b', 0, 0, 0, 0, 0, 0, 0, 2, 0, 0,
        0, 0, 0, 0, 0, 0, 0, 0, 0, 0, 0, 0, 0, 1, 0, 0, 0, 0,
    ];
    let r = IndexedResolver::from_index_bytes(&bytes).unwrap();
    let built = ResolverBuilder::new().edge("b", "a").build();
    assert_eq!(r.to_index_bytes(), built.to_index_bytes());
}
