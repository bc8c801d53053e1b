//! A subsumption resolver backed by a precomputed ancestor closure.
//!
//! Construction walks the concept hierarchy once and stores, for every
//! concept, the full set of its ancestors. A subsumption query is then a
//! lookup; the justifying witness chain is a shortest walk up the hierarchy.
//!
//! Concepts are kept in the order of `str` (byte-wise order of their UTF-8
//! encodings) and referred to internally by their position in that order.
use crate::graph::{
    ancestor_set, ancestors_of, as_ints, graph_sorted, graph_wf, has_edge, is_first_shortest_walk, is_shortest_walk,
    lists_of, reaches,
    shortest_walk,
};
use crate::sorted::{
    find_name, idx_below, insert_idx, insert_name, lemma_sorted_names_distinct, names_of,
    sorted_idx, sorted_names,
};
use vstd::prelude::*;

verus! {

/// The chain that justifies a subsumption, from the specific concept up to
/// the general one.
#[derive(Debug, Clone, PartialEq, Eq)]
pub struct SubsumptionWitness {
    pub chain: Vec<String>,
}

/// Why a subsumption query could not be answered.
#[derive(Debug, Clone, PartialEq, Eq)]
pub enum ResolverError {
    /// In strict mode, a concept that the hierarchy does not know.
    UnknownConcept { iri: String },
}

/// What a builder holds: the `child ⊑ parent` edges added so far, and the mode.
pub struct BuilderView {
    pub edges: Set<(Seq<char>, Seq<char>)>,
    pub strict: bool,
}

/// Every concept named by an edge.
pub open spec fn endpoints(edges: Set<(Seq<char>, Seq<char>)>) -> Set<Seq<char>> {
    Set::new(|x: Seq<char>| exists|e: (Seq<char>, Seq<char>)| #[trigger] edges.contains(e) && (e.0 == x || e.1 == x))
}

/// Builder for an [`IndexedResolver`]: accumulate `child ⊑ parent` edges, then
/// build to precompute the closure.
#[derive(Debug)]
pub struct ResolverBuilder {
    edges: Vec<(String, String)>,
    strict: bool,
}

/// The names of a list of edges.
pub open spec fn edge_names(v: Seq<(String, String)>) -> Seq<(Seq<char>, Seq<char>)> {
    v.map_values(|e: (String, String)| (e.0@, e.1@))
}

impl View for ResolverBuilder {
    type V = BuilderView;

    closed spec fn view(&self) -> BuilderView {
        BuilderView { edges: edge_names(self.edges@).to_set(), strict: self.strict }
    }
}

impl Clone for ResolverBuilder {
    fn clone(&self) -> (b: Self)
        ensures
            b@ == self@,
    {
        let mut edges: Vec<(String, String)> = Vec::new();
        let mut k: usize = 0;
        while k < self.edges.len()
            invariant
                k <= self.edges@.len(),
                edges@.len() == k,
                forall|t: int| 0 <= t < k ==> #[trigger] edges@[t] == self.edges@[t],
            decreases self.edges@.len() - k,
        {
            let e = &self.edges[k];
            edges.push((e.0.clone(), e.1.clone()));
            k = k + 1;
        }
        assert(edges@ =~= self.edges@);
        ResolverBuilder { edges, strict: self.strict }
    }
}

impl Default for ResolverBuilder {
    fn default() -> (b: Self)
        ensures
            b@.edges == Set::<(Seq<char>, Seq<char>)>::empty(),
            !b@.strict,
    {
        let b = ResolverBuilder { edges: Vec::new(), strict: false };
        assert(edge_names(b.edges@).to_set() =~= Set::empty());
        b
    }
}

impl ResolverBuilder {
    /// A new, empty builder.
    pub fn new() -> (b: Self)
        ensures
            b@.edges == Set::<(Seq<char>, Seq<char>)>::empty(),
            !b@.strict,
    {
        ResolverBuilder::default()
    }

    /// In strict mode, a query naming a concept that is not in the hierarchy
    /// yields [`ResolverError::UnknownConcept`] rather than being treated as an
    /// isolated node. Off by default.
    pub fn strict(self, strict: bool) -> (b: Self)
        ensures
            b@.edges == self@.edges,
            b@.strict == strict,
    {
        ResolverBuilder { edges: self.edges, strict }
    }

    /// Add a `child ⊑ parent` edge (child is the more specific concept).
    pub fn edge(self, child: &str, parent: &str) -> (b: Self)
        ensures
            b@.edges == self@.edges.insert((child@, parent@)),
            b@.strict == self@.strict,
    {
        let mut edges = self.edges;
        let ghost before = edges@;
        edges.push((child.to_owned(), parent.to_owned()));
        proof {
            let a = edge_names(before);
            let b = edge_names(edges@);
            assert(b =~= a.push((child@, parent@)));
            assert(b.to_set() =~= a.to_set().insert((child@, parent@))) by {
                assert forall|e| b.to_set().contains(e) implies a.to_set().insert(
                    (child@, parent@),
                ).contains(e) by {
                    let k = choose|k: int| 0 <= k < b.len() && b[k] == e;
                    if k < a.len() {
                        assert(a[k] == e);
                    }
                }
                assert forall|e| a.to_set().insert((child@, parent@)).contains(e) implies b.to_set().contains(
                    e,
                ) by {
                    if e == (child@, parent@) {
                        assert(b[a.len() as int] == e);
                    } else {
                        let k = choose|k: int| 0 <= k < a.len() && a[k] == e;
                        assert(b[k] == e);
                    }
                }
            }
        }
        ResolverBuilder { edges, strict: self.strict }
    }
}

/// What a resolver holds: its concepts in `str` order, for each the ascending
/// positions of its direct parents and of all its ancestors, and the mode.
pub struct ResolverView {
    pub names: Seq<Seq<char>>,
    pub parents: Seq<Seq<usize>>,
    pub ancestors: Seq<Seq<usize>>,
    pub strict: bool,
}

impl ResolverView {
    /// Well-formed: one entry per concept, concepts strictly ascending, every
    /// list strictly ascending and naming concepts.
    pub open spec fn wf(self) -> bool {
        let n = self.names.len();
        &&& n <= usize::MAX
        &&& self.parents.len() == n
        &&& self.ancestors.len() == n
        &&& sorted_names(self.names)
        &&& forall|i: int|
            0 <= i < n ==> sorted_idx(#[trigger] self.parents[i]) && idx_below(self.parents[i], n as int)
        &&& forall|i: int|
            0 <= i < n ==> sorted_idx(#[trigger] self.ancestors[i]) && idx_below(self.ancestors[i], n as int)
    }

    /// The stored ancestors of each concept are exactly the concepts reached
    /// from it by one or more parent steps.
    pub open spec fn closed(self) -> bool {
        forall|i: int| 0 <= i < self.names.len() ==> #[trigger] self.ancestors[i].to_set() == ancestor_set(self.parents, i)
    }

    /// `general` is stored as an ancestor of `specific`.
    pub open spec fn stored_subsumption(self, general: Seq<char>, specific: Seq<char>) -> bool {
        exists|i: int, j: int|
            0 <= i < self.names.len() && 0 <= j < self.names.len() && #[trigger] self.names[i] == specific
                && #[trigger] self.names[j] == general && self.ancestors[i].contains(j as usize)
    }

    /// Position of a known concept.
    pub open spec fn index_of(self, x: Seq<char>) -> int {
        crate::sorted::name_pos(self.names, x)
    }

    /// The concepts of a walk.
    pub open spec fn walk_names(self, w: Seq<int>) -> Seq<Seq<char>> {
        w.map_values(|i: int| self.names[i])
    }

    /// What a witness chain for `general ⊒ specific` (distinct, both known)
    /// is: the concepts of the shortest walk up the parent edges that comes
    /// first in concept order, when there is one, else just `general`.
    pub open spec fn witness_ok(self, chain: Seq<Seq<char>>, general: Seq<char>, specific: Seq<char>) -> bool {
        let i = self.index_of(specific);
        let j = self.index_of(general);
        if reaches(self.parents, i, j) {
            exists|w: Seq<int>| #[trigger] is_first_shortest_walk(self.parents, w, i, j) && chain == self.walk_names(w)
        } else {
            chain == seq![general]
        }
    }

    /// The index built from the edges of `b`: its concepts are the edges'
    /// endpoints, its parent lists are the edges, and its ancestors are their
    /// closure.
    pub open spec fn indexes(self, b: BuilderView) -> bool {
        let n = self.names.len();
        &&& self.wf()
        &&& self.closed()
        &&& self.strict == b.strict
        &&& self.names.to_set() == endpoints(b.edges)
        &&& forall|i: int, j: int|
            0 <= i < n && 0 <= j < n ==> (#[trigger] self.parents[i].contains(j as usize) <==> b.edges.contains(
                (self.names[i], self.names[j]),
            ))
    }
}

/// The names of a witness chain.
pub open spec fn chain_names(w: SubsumptionWitness) -> Seq<Seq<char>> {
    names_of(w.chain@)
}

/// A subsumption resolver backed by a precomputed ancestor closure.
#[derive(Debug)]
pub struct IndexedResolver {
    nodes: Vec<String>,
    parents: Vec<Vec<usize>>,
    ancestors: Vec<Vec<usize>>,
    strict: bool,
}

impl View for IndexedResolver {
    type V = ResolverView;

    closed spec fn view(&self) -> ResolverView {
        ResolverView {
            names: names_of(self.nodes@),
            parents: lists_of(self.parents@),
            ancestors: lists_of(self.ancestors@),
            strict: self.strict,
        }
    }
}

impl IndexedResolver {
    /// Every resolver is well-formed.
    #[verifier::type_invariant]
    spec fn resolver_inv(self) -> bool {
        self@.wf()
    }

    /// Assembles a resolver from well-formed parts.
    pub(crate) fn from_parts(
        nodes: Vec<String>,
        parents: Vec<Vec<usize>>,
        ancestors: Vec<Vec<usize>>,
        strict: bool,
    ) -> (r: Self)
        requires
            (ResolverView {
                names: names_of(nodes@),
                parents: lists_of(parents@),
                ancestors: lists_of(ancestors@),
                strict,
            }).wf(),
        ensures
            r@ == (ResolverView {
                names: names_of(nodes@),
                parents: lists_of(parents@),
                ancestors: lists_of(ancestors@),
                strict,
            }),
    {
        IndexedResolver { nodes, parents, ancestors, strict }
    }

    /// The concepts, in order.
    pub(crate) fn node_vec(&self) -> (v: &Vec<String>)
        ensures
            names_of(v@) == self@.names,
    {
        &self.nodes
    }

    /// The parent lists.
    pub(crate) fn parent_vec(&self) -> (v: &Vec<Vec<usize>>)
        ensures
            lists_of(v@) == self@.parents,
    {
        &self.parents
    }

    /// The ancestor lists.
    pub(crate) fn ancestor_vec(&self) -> (v: &Vec<Vec<usize>>)
        ensures
            lists_of(v@) == self@.ancestors,
    {
        &self.ancestors
    }

    /// Whether unknown concepts are reported as errors.
    pub(crate) fn is_strict(&self) -> (b: bool)
        ensures
            b == self@.strict,
    {
        self.strict
    }

    /// The number of concepts in the hierarchy.
    pub fn concept_count(&self) -> (c: usize)
        ensures
            c == self@.names.len(),
    {
        self.nodes.len()
    }

    fn known(&self, iri: &str) -> (b: bool)
        ensures
            b == self@.names.contains(iri@),
    {
        proof {
            use_type_invariant(self);
        }
        match find_name(&self.nodes, iri) {
            Ok(i) => {
                assert(self@.names[i as int] == iri@);
                true
            },
            Err(_) => false,
        }
    }

    /// The shortest `specific → general` chain that comes first in concept
    /// order, as a breadth-first search over parents taken in sorted order
    /// finds it; `[general]` alone when `general` is not reached.
    fn witness_path(&self, general: usize, specific: usize) -> (w: SubsumptionWitness)
        requires
            general < self@.names.len(),
            specific < self@.names.len(),
            general != specific,
        ensures
            self@.witness_ok(chain_names(w), self@.names[general as int], self@.names[specific as int]),
    {
        proof {
            use_type_invariant(self);
        }
        let ghost v = self@;
        proof {
            assert(graph_wf(v.parents)) by {
                assert forall|i: int| 0 <= i < v.parents.len() implies idx_below(#[trigger] v.parents[i], v.parents.len() as int) by {
                }
            }
            assert(graph_sorted(v.parents)) by {
                assert forall|i: int| 0 <= i < v.parents.len() implies sorted_idx(#[trigger] v.parents[i]) by {
                }
            }
            lemma_index_of(v, general as int);
            lemma_index_of(v, specific as int);
        }
        let walk = shortest_walk(&self.parents, specific, general);
        proof {
            if reaches(v.parents, specific as int, general as int) {
                let w = as_ints(walk@);
                assert forall|t: int| 0 <= t < walk@.len() implies walk@[t] < v.names.len() by {
                    assert(w[t] == walk@[t] as int);
                }
            }
        }
        let mut chain: Vec<String> = Vec::new();
        let mut k: usize = 0;
        while k < walk.len()
            invariant
                v == self@,
                v.wf(),
                k <= walk@.len(),
                chain@.len() == k,
                forall|t: int| 0 <= t < walk@.len() ==> walk@[t] < v.names.len(),
                forall|t: int| 0 <= t < k ==> #[trigger] chain@[t]@ == v.names[walk@[t] as int],
            decreases walk@.len() - k,
        {
            let idx = walk[k];
            chain.push(self.nodes[idx].clone());
            k = k + 1;
        }
        proof {
            let i = specific as int;
            let j = general as int;
            if reaches(v.parents, i, j) {
                let w = as_ints(walk@);
                assert(names_of(chain@) =~= v.walk_names(w));
                assert(is_shortest_walk(v.parents, w, i, j));
                assert(is_first_shortest_walk(v.parents, w, i, j));
            } else {
                assert(names_of(chain@) =~= seq![v.names[j]]);
            }
        }
        SubsumptionWitness { chain }
    }

    /// Does `general` subsume `specific`? `Some` with a justifying chain from
    /// `specific` up to `general` when it does (every concept subsumes
    /// itself), `None` when it does not; in strict mode an unknown concept
    /// is an error, `general` checked first.
    pub fn subsumes(&self, general: &str, specific: &str) -> (r: Result<Option<SubsumptionWitness>, ResolverError>)
        ensures
            self@.strict && !self@.names.contains(general@) ==> (r matches Err(
                ResolverError::UnknownConcept { iri },
            ) && iri@ == general@),
            self@.strict && self@.names.contains(general@) && !self@.names.contains(specific@)
                ==> (r matches Err(ResolverError::UnknownConcept { iri }) && iri@ == specific@),
            !self@.strict || (self@.names.contains(general@) && self@.names.contains(specific@))
                ==> r is Ok,
            r is Ok && general@ == specific@ ==> (r matches Ok(Some(w)) && chain_names(w) == seq![
                specific@,
            ]),
            r is Ok && general@ != specific@ ==> (r matches Ok(Some(_))
                <==> self@.stored_subsumption(general@, specific@)),
            general@ != specific@ ==> (r matches Ok(Some(w)) ==> self@.witness_ok(
                chain_names(w),
                general@,
                specific@,
            )),
    {
        proof {
            use_type_invariant(self);
        }
        let ghost v = self@;
        if self.strict {
            if !self.known(general) {
                return Err(ResolverError::UnknownConcept { iri: general.to_owned() });
            }
            if !self.known(specific) {
                return Err(ResolverError::UnknownConcept { iri: specific.to_owned() });
            }
        }
        let same = match crate::order::compare_names(general, specific) {
            crate::order::Cmp::Equal => true,
            _ => false,
        };
        if same {
            let mut chain: Vec<String> = Vec::new();
            chain.push(specific.to_owned());
            assert(names_of(chain@) =~= seq![specific@]);
            return Ok(Some(SubsumptionWitness { chain }));
        }
        let si = find_name(&self.nodes, specific);
        let gi = find_name(&self.nodes, general);
        match (si, gi) {
            (Ok(i), Ok(j)) => {
                assert(v.names[i as int] == specific@);
                assert(v.names[j as int] == general@);
                let anc = &self.ancestors[i];
                assert(anc@ == v.ancestors[i as int]);
                if contains_idx(anc, j) {
                    let w = self.witness_path(j, i);
                    Ok(Some(w))
                } else {
                    proof {
                        if v.stored_subsumption(general@, specific@) {
                            let (i2, j2) = choose|i2: int, j2: int|
                                0 <= i2 < v.names.len() && 0 <= j2 < v.names.len() && #[trigger] v.names[i2] == specific@
                                    && #[trigger] v.names[j2] == general@ && v.ancestors[i2].contains(j2 as usize);
                            if i2 != i as int {
                                lemma_sorted_names_distinct(v.names, i2, i as int);
                            }
                            if j2 != j as int {
                                lemma_sorted_names_distinct(v.names, j2, j as int);
                            }
                        }
                    }
                    Ok(None)
                }
            },
            _ => {
                proof {
                    if v.stored_subsumption(general@, specific@) {
                        let (i2, j2) = choose|i2: int, j2: int|
                            0 <= i2 < v.names.len() && 0 <= j2 < v.names.len() && #[trigger] v.names[i2] == specific@
                                && #[trigger] v.names[j2] == general@ && v.ancestors[i2].contains(j2 as usize);
                        assert(v.names.contains(specific@));
                        assert(v.names.contains(general@));
                    }
                }
                Ok(None)
            },
        }
    }
}

/// The endpoints of one more edge.
proof fn lemma_endpoints_insert(edges: Set<(Seq<char>, Seq<char>)>, e: (Seq<char>, Seq<char>))
    ensures
        endpoints(edges.insert(e)) == endpoints(edges).insert(e.0).insert(e.1),
{
    assert forall|x| endpoints(edges.insert(e)).contains(x) implies endpoints(edges).insert(e.0).insert(
        e.1,
    ).contains(x) by {
        let f = choose|f: (Seq<char>, Seq<char>)| #[trigger] edges.insert(e).contains(f) && (f.0 == x || f.1 == x);
        if f != e {
            assert(edges.contains(f));
        }
    }
    assert forall|x| endpoints(edges).insert(e.0).insert(e.1).contains(x) implies endpoints(
        edges.insert(e),
    ).contains(x) by {
        if x == e.0 || x == e.1 {
            assert(edges.insert(e).contains(e));
        } else {
            let f = choose|f: (Seq<char>, Seq<char>)| #[trigger] edges.contains(f) && (f.0 == x || f.1 == x);
            assert(edges.insert(e).contains(f));
        }
    }
    assert(endpoints(edges.insert(e)) =~= endpoints(edges).insert(e.0).insert(e.1));
}

/// The first `k + 1` edges as a set.
proof fn lemma_take_push_set<A>(s: Seq<A>, k: int)
    requires
        0 <= k < s.len(),
    ensures
        s.take(k + 1).to_set() == s.take(k).to_set().insert(s[k]),
{
    assert(s.take(k + 1) =~= s.take(k).push(s[k]));
    let a = s.take(k);
    let b = s.take(k + 1);
    assert forall|x| b.to_set().contains(x) implies a.to_set().insert(s[k]).contains(x) by {
        let t = choose|t: int| 0 <= t < b.len() && b[t] == x;
        if t < k {
            assert(a[t] == x);
        }
    }
    assert forall|x| a.to_set().insert(s[k]).contains(x) implies b.to_set().contains(x) by {
        if x == s[k] {
            assert(b[k] == x);
        } else {
            let t = choose|t: int| 0 <= t < a.len() && a[t] == x;
            assert(b[t] == x);
        }
    }
    assert(b.to_set() =~= a.to_set().insert(s[k]));
}

impl ResolverBuilder {
    /// Precompute the transitive closure and return the resolver.
    pub fn build(self) -> (r: IndexedResolver)
        ensures
            r@.indexes(self@),
    {
        let ghost es = edge_names(self.edges@);
        let m = self.edges.len();
        // The concepts: every endpoint, in `str` order.
        let mut nodes: Vec<String> = Vec::new();
        let mut k: usize = 0;
        proof {
            assert(es.take(0).to_set() =~= Set::empty());
            assert(endpoints(Set::empty()) =~= Set::empty());
            assert(names_of(nodes@).to_set() =~= Set::empty());
        }
        while k < m
            invariant
                m == self.edges@.len(),
                es == edge_names(self.edges@),
                k <= m,
                sorted_names(names_of(nodes@)),
                names_of(nodes@).to_set() == endpoints(es.take(k as int).to_set()),
            decreases m - k,
        {
            let e = &self.edges[k];
            insert_name(&mut nodes, e.0.as_str());
            insert_name(&mut nodes, e.1.as_str());
            proof {
                lemma_take_push_set(es, k as int);
                lemma_endpoints_insert(es.take(k as int).to_set(), es[k as int]);
            }
            k = k + 1;
        }
        assert(es.take(m as int) =~= es);
        let n = nodes.len();
        let ghost names = names_of(nodes@);
        // The parent lists.
        let mut parents: Vec<Vec<usize>> = Vec::new();
        let mut z: usize = 0;
        while z < n
            invariant
                z <= n,
                parents@.len() == z,
                forall|i: int| 0 <= i < z ==> #[trigger] parents@[i]@ == Seq::<usize>::empty(),
            decreases n - z,
        {
            parents.push(Vec::new());
            z = z + 1;
        }
        k = 0;
        proof {
            assert forall|i: int, j: int| 0 <= i < n && 0 <= j < n implies (#[trigger] lists_of(parents@)[i].contains(j as usize) <==> es.take(0).to_set().contains((names[i], names[j]))) by {
                assert(lists_of(parents@)[i] == parents@[i]@);
            }
        }
        while k < m
            invariant
                m == self.edges@.len(),
                es == edge_names(self.edges@),
                k <= m,
                n == nodes@.len(),
                names == names_of(nodes@),
                sorted_names(names),
                names.to_set() == endpoints(es.to_set()),
                parents@.len() == n,
                forall|i: int| 0 <= i < n ==> sorted_idx(#[trigger] lists_of(parents@)[i]) && idx_below(lists_of(parents@)[i], n as int),
                forall|i: int, j: int|
                    0 <= i < n && 0 <= j < n ==> (#[trigger] lists_of(parents@)[i].contains(j as usize)
                        <==> es.take(k as int).to_set().contains((names[i], names[j]))),
            decreases m - k,
        {
            let e = &self.edges[k];
            proof {
                assert(es[k as int] == (e.0@, e.1@));
                assert(es.to_set().contains(es[k as int]));
                assert(endpoints(es.to_set()).contains(e.0@));
                assert(endpoints(es.to_set()).contains(e.1@));
                assert(names.to_set().contains(e.0@));
                assert(names.to_set().contains(e.1@));
            }
            let ci = match find_name(&nodes, e.0.as_str()) {
                Ok(i) => i,
                Err(_) => {
                    assert(false);
                    0
                },
            };
            let pi = match find_name(&nodes, e.1.as_str()) {
                Ok(i) => i,
                Err(_) => {
                    assert(false);
                    0
                },
            };
            let ghost before = lists_of(parents@);
            let mut l: Vec<usize> = Vec::new();
            parents.set_and_swap(ci, &mut l);
            assert(l@ == before[ci as int]);
            insert_idx(&mut l, pi);
            parents.set(ci, l);
            proof {
                lemma_take_push_set(es, k as int);
                let after = lists_of(parents@);
                assert forall|i: int| 0 <= i < n implies sorted_idx(#[trigger] after[i]) && idx_below(after[i], n as int) by {
                    if i == ci as int {
                        assert forall|t: int| 0 <= t < after[i].len() implies after[i][t] < n by {
                            assert(after[i].to_set().contains(after[i][t]));
                            if after[i][t] != pi {
                                assert(before[i].to_set().contains(after[i][t]));
                                let u = choose|u: int| 0 <= u < before[i].len() && before[i][u] == after[i][t];
                                assert(idx_below(before[i], n as int));
                            }
                        }
                    } else {
                        assert(after[i] == before[i]);
                    }
                }
                assert forall|i: int, j: int|
                    0 <= i < n && 0 <= j < n implies (#[trigger] after[i].contains(j as usize)
                        <==> es.take(k + 1).to_set().contains((names[i], names[j]))) by {
                    assert(before[i].contains(j as usize) <==> es.take(k as int).to_set().contains((names[i], names[j])));
                    if i == ci as int {
                        assert(after[i].contains(j as usize) <==> after[i].to_set().contains(j as usize));
                        assert(before[i].contains(j as usize) <==> before[i].to_set().contains(j as usize));
                        if j == pi as int {
                            assert(after[i].to_set().contains(pi));
                        }
                    } else {
                        assert(after[i] == before[i]);
                        if (names[i], names[j]) == es[k as int] {
                            assert(names[i] == names[ci as int]);
                            lemma_sorted_names_distinct(names, i, ci as int);
                        }
                    }
                    if (names[i], names[j]) == es[k as int] && i == ci as int && j != pi as int {
                        lemma_sorted_names_distinct(names, j, pi as int);
                    }
                }
            }
            k = k + 1;
        }
        // The ancestor closure.
        let mut seen: Vec<bool> = Vec::new();
        z = 0;
        while z < n
            invariant
                z <= n,
                seen@.len() == z,
                forall|x: int| 0 <= x < z ==> !seen@[x],
            decreases n - z,
        {
            seen.push(false);
            z = z + 1;
        }
        let ghost ps = lists_of(parents@);
        assert(graph_wf(ps)) by {
            assert forall|i: int| 0 <= i < ps.len() implies idx_below(#[trigger] ps[i], ps.len() as int) by {
                assert(sorted_idx(lists_of(parents@)[i]) && idx_below(lists_of(parents@)[i], n as int));
            }
        }
        let mut ancestors: Vec<Vec<usize>> = Vec::new();
        let mut i: usize = 0;
        while i < n
            invariant
                n == parents@.len(),
                ps == lists_of(parents@),
                graph_wf(ps),
                i <= n,
                seen@.len() == n,
                forall|x: int| 0 <= x < n ==> !seen@[x],
                ancestors@.len() == i,
                forall|t: int| 0 <= t < i ==> sorted_idx(#[trigger] lists_of(ancestors@)[t]) && idx_below(lists_of(ancestors@)[t], n as int)
                    && lists_of(ancestors@)[t].to_set() == ancestor_set(ps, t),
            decreases n - i,
        {
            let a = ancestors_of(&parents, i, &mut seen);
            let ghost av = a@;
            let ghost before = ancestors@;
            ancestors.push(a);
            proof {
                assert(ancestors@[i as int]@ == av);
                assert(lists_of(ancestors@)[i as int] == av);
                assert forall|t: int| 0 <= t < i + 1 implies sorted_idx(#[trigger] lists_of(ancestors@)[t]) && idx_below(lists_of(ancestors@)[t], n as int)
                    && lists_of(ancestors@)[t].to_set() == ancestor_set(ps, t) by {
                    if t < i {
                        assert(ancestors@[t] == before[t]);
                        assert(lists_of(ancestors@)[t] == lists_of(before)[t]);
                    }
                }
            }
            i = i + 1;
        }
        proof {
            let v = ResolverView {
                names: names_of(nodes@),
                parents: lists_of(parents@),
                ancestors: lists_of(ancestors@),
                strict: self.strict,
            };
            assert(v.wf());
        }
        let r = IndexedResolver { nodes, parents, ancestors, strict: self.strict };
        proof {
            let v = r@;
            assert(v.names == names);
            assert(self@.edges == es.to_set());
            assert forall|i: int, j: int|
                0 <= i < n && 0 <= j < n implies (#[trigger] v.parents[i].contains(j as usize) <==> self@.edges.contains(
                    (v.names[i], v.names[j]),
                )) by {
                assert(es.take(m as int) == es);
            }
        }
        r
    }
}

/// The position of a known concept is the one `index_of` names.
pub proof fn lemma_index_of(v: ResolverView, i: int)
    requires
        v.wf(),
        0 <= i < v.names.len(),
    ensures
        v.index_of(v.names[i]) == i,
{
    let k = v.index_of(v.names[i]);
    if k != i {
        lemma_sorted_names_distinct(v.names, k, i);
    }
}

/// Whether an ascending list holds `x`.
fn contains_idx(v: &Vec<usize>, x: usize) -> (b: bool)
    ensures
        b == v@.contains(x),
{
    let mut k: usize = 0;
    while k < v.len()
        invariant
            k <= v@.len(),
            forall|t: int| 0 <= t < k ==> v@[t] != x,
        decreases v@.len() - k,
    {
        if v[k] == x {
            return true;
        }
        k = k + 1;
    }
    false
}

} // verus!

verus! {

/// `general` is reached from `specific` by following one or more edges
/// `child ⊑ parent`.
pub open spec fn edge_reaches(edges: Set<(Seq<char>, Seq<char>)>, specific: Seq<char>, general: Seq<char>) -> bool {
    exists|c: Seq<Seq<char>>| #[trigger] edge_chain(edges, c, specific, general)
}

/// `c` is a chain of two or more concepts from `specific` to `general`, each
/// step an edge.
pub open spec fn edge_chain(edges: Set<(Seq<char>, Seq<char>)>, c: Seq<Seq<char>>, specific: Seq<char>, general: Seq<char>) -> bool {
    &&& c.len() >= 2
    &&& c[0] == specific
    &&& c.last() == general
    &&& forall|k: int| 0 <= k < c.len() - 1 ==> #[trigger] edge_step(edges, c, k)
}

/// The `k`-th step of `c` is an edge.
pub open spec fn edge_step(edges: Set<(Seq<char>, Seq<char>)>, c: Seq<Seq<char>>, k: int) -> bool {
    edges.contains((c[k], c[k + 1]))
}

/// The resolver built from a set of edges stores `general` as an ancestor of
/// `specific` exactly when a chain of edges leads from `specific` up to
/// `general`: the index is the transitive closure of the edges.
pub proof fn law_index_is_edge_closure(b: BuilderView, v: ResolverView, general: Seq<char>, specific: Seq<char>)
    requires
        v.indexes(b),
    ensures
        v.stored_subsumption(general, specific) <==> edge_reaches(b.edges, specific, general),
{
    let n = v.names.len();
    if v.stored_subsumption(general, specific) {
        let (i, j) = choose|i: int, j: int|
            0 <= i < n && 0 <= j < n && #[trigger] v.names[i] == specific
                && #[trigger] v.names[j] == general && v.ancestors[i].contains(j as usize);
        assert(v.ancestors[i].to_set().contains(j as usize));
        assert(ancestor_set(v.parents, i).contains(j as usize));
        assert(reaches(v.parents, i, j));
        let w = choose|w: Seq<int>| #[trigger] crate::graph::walk_between(v.parents, w, i, j) && w.len() >= 2;
        let c = v.walk_names(w);
        assert forall|k: int| 0 <= k < c.len() - 1 implies #[trigger] edge_step(b.edges, c, k) by {
            assert(crate::graph::step(v.parents, w, k));
            assert(has_edge(v.parents, w[k], w[k + 1]));
            assert(v.parents[w[k]].contains(w[k + 1] as usize));
        }
        assert(edge_chain(b.edges, c, specific, general));
    }
    if edge_reaches(b.edges, specific, general) {
        let c = choose|c: Seq<Seq<char>>| #[trigger] edge_chain(b.edges, c, specific, general);
        // Every concept of the chain is known.
        assert forall|k: int| 0 <= k < c.len() implies v.names.to_set().contains(#[trigger] c[k]) by {
            if k < c.len() - 1 {
                assert(edge_step(b.edges, c, k));
                assert(b.edges.contains((c[k], c[k + 1])));
            } else {
                assert(edge_step(b.edges, c, k - 1));
                assert(b.edges.contains((c[k - 1], c[k])));
            }
        }
        let w = Seq::new(c.len(), |k: int| v.index_of(c[k]));
        assert forall|k: int| 0 <= k < c.len() implies 0 <= #[trigger] w[k] < n && v.names[w[k]] == c[k] by {
            assert(v.names.to_set().contains(c[k]));
            assert(v.names.contains(c[k]));
        }
        assert forall|k: int| 0 <= k < w.len() - 1 implies #[trigger] crate::graph::step(v.parents, w, k) by {
            assert(edge_step(b.edges, c, k));
            assert(v.names[w[k]] == c[k] && v.names[w[k + 1]] == c[k + 1]);
            assert(v.parents[w[k]].contains(w[k + 1] as usize));
        }
        assert forall|k: int| 0 <= k < w.len() implies 0 <= #[trigger] w[k] < v.parents.len() by {
            assert(0 <= w[k] < n && v.names[w[k]] == c[k]);
        }
        let i = w[0];
        let j = w.last();
        assert(0 <= i < n && v.names[i] == c[0]);
        assert(0 <= j < n && v.names[j] == c[c.len() - 1]);
        assert(crate::graph::walk_between(v.parents, w, i, j));
        assert(reaches(v.parents, i, j));
        assert(ancestor_set(v.parents, i).contains(j as usize));
        assert(v.ancestors[i].to_set().contains(j as usize));
        assert(v.ancestors[i].contains(j as usize));
        assert(v.names[i] == specific && v.names[j] == general);
    }
}

/// Every edge `child ⊑ parent` given to the builder is answered as a
/// subsumption by the resolver it builds.
pub proof fn law_edges_are_subsumptions(b: BuilderView, v: ResolverView, child: Seq<char>, parent: Seq<char>)
    requires
        v.indexes(b),
        b.edges.contains((child, parent)),
    ensures
        v.stored_subsumption(parent, child),
{
    let c = seq![child, parent];
    assert(edge_step(b.edges, c, 0));
    assert(edge_chain(b.edges, c, child, parent));
    law_index_is_edge_closure(b, v, parent, child);
}

/// Subsumption answered from a closed index is transitive.
pub proof fn law_subsumption_transitive(v: ResolverView, a: Seq<char>, b: Seq<char>, c: Seq<char>)
    requires
        v.wf(),
        v.closed(),
        v.stored_subsumption(b, a),
        v.stored_subsumption(c, b),
    ensures
        v.stored_subsumption(c, a),
{
    let n = v.names.len();
    let (i, j) = choose|i: int, j: int|
        0 <= i < n && 0 <= j < n && #[trigger] v.names[i] == a && #[trigger] v.names[j] == b
            && v.ancestors[i].contains(j as usize);
    let (j2, k) = choose|j2: int, k: int|
        0 <= j2 < n && 0 <= k < n && #[trigger] v.names[j2] == b && #[trigger] v.names[k] == c
            && v.ancestors[j2].contains(k as usize);
    if j2 != j {
        crate::sorted::lemma_sorted_names_distinct(v.names, j, j2);
    }
    assert(v.ancestors[i].to_set().contains(j as usize));
    assert(v.ancestors[j].to_set().contains(k as usize));
    assert(reaches(v.parents, i, j));
    assert(reaches(v.parents, j, k));
    let w1 = choose|w: Seq<int>| #[trigger] crate::graph::walk_between(v.parents, w, i, j) && w.len() >= 2;
    let w2 = choose|w: Seq<int>| #[trigger] crate::graph::walk_between(v.parents, w, j, k) && w.len() >= 2;
    let w = w1 + w2.drop_first();
    assert forall|t: int| 0 <= t < w.len() - 1 implies #[trigger] crate::graph::step(v.parents, w, t) by {
        if t < w1.len() - 1 {
            assert(crate::graph::step(v.parents, w1, t));
        } else if t == w1.len() - 1 {
            assert(crate::graph::step(v.parents, w2, 0));
            assert(w[t] == w1.last());
            assert(w[t + 1] == w2[1]);
        } else {
            let u = t - w1.len() + 1;
            assert(crate::graph::step(v.parents, w2, u));
            assert(w[t] == w2[u]);
            assert(w[t + 1] == w2[u + 1]);
        }
    }
    assert forall|t: int| 0 <= t < w.len() implies 0 <= #[trigger] w[t] < v.parents.len() by {
        if t < w1.len() {
            assert(w[t] == w1[t]);
        } else {
            assert(w[t] == w2[t - w1.len() + 1]);
        }
    }
    assert(w.last() == w2.last());
    assert(crate::graph::walk_between(v.parents, w, i, k));
    assert(ancestor_set(v.parents, i).contains(k as usize));
    assert(v.ancestors[i].to_set().contains(k as usize));
}

} // verus!
