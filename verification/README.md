# prophet-aggregate

Search over a capability manifest: given a catalogue of capabilities, a seed
and a size budget, find every closed, coherent way to complete the seed, each
deduplicated up to isomorphism and in deterministic order.

The library in `src/` is verified with Verus. It holds:

* `resolver_index`, `graph`, `sorted`, `order`, `walk_order` — a subsumption
  resolver over a concept hierarchy with its ancestor closure precomputed.
  Queries answer from the closure; the justifying chain is the shortest walk
  up the hierarchy that comes first in concept order.
* `index_codec` — the persisted form of that index, which reloads with no
  recomputation of the closure.
* `loader`, `kko`, `text` — importers for text edge lists and for the
  `rdfs:subClassOf` hierarchy of KKO Turtle/N3 exports.
* `canon` — isomorphism canonicalization of sections: the groups of
  interchangeable instances, the relabelings to try and their order, their
  application, and the choice of the least encoding.
* `enumerate` — the decisions of the completion search: what to do with a
  partial section, and with each candidate port.

`app/` holds what needs the `prophet-sheaf` crate (its resolver trait, its
sections, the search driver that asks it whether ports mate and whether a
section is coherent and closed), display of errors, and the KKO report
program.
