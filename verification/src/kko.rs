//! Importer for KBpedia Knowledge Ontology (KKO) Turtle/N3 exports.
//!
//! KKO's serialization is regular: a named class is a subject block introduced
//! at column 0 as `:Name a owl:Class ;`, followed by indented predicates such
//! as `rdfs:subClassOf :Parent ;`. This extractor tracks the current named
//! subject and, for every `rdfs:subClassOf` naming a class in the default
//! namespace (`:Parent`), emits an edge. Subjects that are blank nodes and
//! superclasses that are not plain named classes are skipped.
use crate::resolver_index::ResolverBuilder;
use crate::sorted::{insert_name, lemma_sorted_names_distinct, names_of, sorted_names};
use crate::text::{
    char_is_white, chars_between, chars_eq, find_char, find_first, first_pos, is_white, lines_of,
    occurs_at, string_of, text_lines, to_chars, trim_start, trim_start_chars,
};
use vstd::prelude::*;

verus! {

/// Statistics from a KKO import.
#[derive(Debug, Clone, PartialEq, Eq, Default)]
pub struct KkoStats {
    /// Number of `subClassOf` edges to named classes extracted.
    pub edges: usize,
    /// Number of `subClassOf` statements skipped (superclass was a blank node /
    /// restriction, not a plain named class).
    pub skipped_structural: usize,
    /// Number of distinct named subjects that declared at least one edge.
    pub subjects: usize,
}

/// Unicode `Alphabetic` or `Numeric`: what `char::is_alphanumeric` answers.
pub uninterp spec fn unicode_alphanumeric(c: char) -> bool;

/// `char::is_alphanumeric`; its answer, which the Unicode tables decide,
/// is named and not stated.
#[verifier::external_body]
fn char_is_alphanumeric(c: char) -> (b: bool)
    ensures
        b == unicode_alphanumeric(c),
{
    c.is_alphanumeric()
}

/// A character of a local name, of a subject or of a superclass.
pub open spec fn local_char(c: char) -> bool {
    unicode_alphanumeric(c) || c == '_' || c == '-'
}

fn is_local_char(c: char) -> (b: bool)
    ensures
        b == local_char(c),
{
    char_is_alphanumeric(c) || c == '_' || c == '-'
}

/// The longest prefix of `s` made of local-name characters.
pub open spec fn local_run(s: Seq<char>) -> Seq<char>
    decreases s.len(),
{
    if s.len() > 0 && local_char(s[0]) {
        seq![s[0]] + local_run(s.drop_first())
    } else {
        seq![]
    }
}

/// If `s` begins with a default-namespace named subject `:Name`, `Name`.
pub open spec fn spec_named_local(s: Seq<char>) -> Option<Seq<char>> {
    if s.len() > 0 && s[0] == ':' && local_run(s.drop_first()).len() > 0 {
        Some(local_run(s.drop_first()))
    } else {
        None
    }
}

/// Position `i` of `c` is a bare `:` (not preceded by a name character,
/// which would make it a prefix like `owl:`) followed by a non-empty name.
pub open spec fn class_start(c: Seq<char>, i: int) -> bool {
    &&& c[i] == ':'
    &&& (i == 0 || !local_char(c[i - 1]))
    &&& local_run(c.skip(i + 1)).len() > 0
}

/// The names after the bare colons among the first `k` positions of `c`.
pub open spec fn classes_upto(c: Seq<char>, k: int) -> Seq<Seq<char>>
    decreases k,
{
    if k <= 0 {
        seq![]
    } else if class_start(c, k - 1) {
        classes_upto(c, k - 1).push(local_run(c.skip(k)))
    } else {
        classes_upto(c, k - 1)
    }
}

/// What precedes a blank-node restriction `[ … ]`, if any.
pub open spec fn before_bracket(s: Seq<char>) -> Seq<char> {
    match first_pos(s, '[') {
        Some(i) => s.take(i),
        None => s,
    }
}

/// The default-namespace named classes (`:Name`) appearing in `s`, in order,
/// up to a blank-node restriction.
pub open spec fn spec_named_classes(s: Seq<char>) -> Seq<Seq<char>> {
    let c = before_bracket(s);
    classes_upto(c, c.len() as int)
}

proof fn lemma_local_run_prefix(s: Seq<char>, j: int)
    requires
        0 <= j <= s.len(),
        forall|t: int| 0 <= t < j ==> local_char(s[t]),
        j == s.len() || !local_char(s[j]),
    ensures
        local_run(s) == s.take(j),
    decreases j,
{
    if j == 0 {
        assert(s.take(0) =~= seq![]);
    } else {
        assert forall|t: int| 0 <= t < j - 1 implies local_char(s.drop_first()[t]) by {
            assert(s.drop_first()[t] == s[t + 1]);
        }
        lemma_local_run_prefix(s.drop_first(), j - 1);
        assert(seq![s[0]] + s.drop_first().take(j - 1) =~= s.take(j));
    }
}

/// No bare colon stands among the name characters that follow a colon: each
/// is preceded by a name character, or (the first) by that colon, which is
/// then itself a name character. So a run of them adds no class.
proof fn lemma_classes_skip_run(c: Seq<char>, start: int, j: int)
    requires
        1 <= start <= j <= c.len(),
        c[start - 1] == ':',
        forall|t: int| start <= t < j ==> local_char(c[t]),
    ensures
        classes_upto(c, j) == classes_upto(c, start),
    decreases j - start,
{
    if j > start {
        assert(local_char(c[j - 1]));
        if c[j - 1] == ':' {
            assert(local_char(c[j - 2]));
        }
        assert(!class_start(c, j - 1));
        lemma_classes_skip_run(c, start, j - 1);
    }
}

/// If `s` begins with a default-namespace named subject `:Name`, return `Name`.
fn named_local(s: &Vec<char>) -> (r: Option<Vec<char>>)
    ensures
        r matches Some(v) ==> spec_named_local(s@) == Some(v@),
        r is None ==> spec_named_local(s@) is None,
{
    if s.len() == 0 || s[0] != ':' {
        return None;
    }
    let mut j: usize = 1;
    while j < s.len() && (char_is_alphanumeric(s[j]) || s[j] == '_' || s[j] == '-')
        invariant
            1 <= j <= s@.len(),
            forall|t: int| 1 <= t < j ==> local_char(s@[t]),
        decreases s@.len() - j,
    {
        j = j + 1;
    }
    proof {
        let rest = s@.drop_first();
        assert forall|t: int| 0 <= t < j - 1 implies local_char(rest[t]) by {
            assert(rest[t] == s@[t + 1]);
        }
        if j < s@.len() {
            assert(rest[j - 1] == s@[j as int]);
        }
        lemma_local_run_prefix(rest, j - 1);
        assert(rest.take(j - 1) =~= s@.subrange(1, j as int));
    }
    if j == 1 {
        None
    } else {
        Some(chars_between(s, 1, j))
    }
}

/// Collect the default-namespace named classes (`:Name`) appearing in `s`,
/// e.g. the superclasses on a `subClassOf` line.
fn named_classes(s: &Vec<char>) -> (r: Vec<Vec<char>>)
    ensures
        r@.len() == spec_named_classes(s@).len(),
        forall|k: int| 0 <= k < r@.len() ==> #[trigger] r@[k]@ == spec_named_classes(s@)[k],
{
    let c = match find_char(s, '[') {
        Some(i) => chars_between(s, 0, i),
        None => chars_between(s, 0, s.len()),
    };
    assert(c@ == before_bracket(s@)) by {
        assert(s@.subrange(0, s@.len() as int) =~= s@);
        if let Some(i) = first_pos(s@, '[') {
            assert(s@.subrange(0, i) =~= s@.take(i));
        }
    }
    let ghost cs = c@;
    let mut out: Vec<Vec<char>> = Vec::new();
    let mut i: usize = 0;
    while i < c.len()
        invariant
            cs == c@,
            i <= cs.len(),
            out@.len() == classes_upto(cs, i as int).len(),
            forall|k: int| 0 <= k < out@.len() ==> #[trigger] out@[k]@ == classes_upto(cs, i as int)[k],
        decreases cs.len() - i,
    {
        if c[i] == ':' && (i == 0 || !is_local_char(c[i - 1])) {
            let start = i + 1;
            let mut j = start;
            while j < c.len() && is_local_char(c[j])
                invariant
                    start <= j <= cs.len(),
                    cs == c@,
                    forall|t: int| start <= t < j ==> local_char(cs[t]),
                decreases cs.len() - j,
            {
                j = j + 1;
            }
            let ghost run = cs.subrange(start as int, j as int);
            proof {
                let rest = cs.skip(start as int);
                assert forall|t: int| 0 <= t < j - start implies local_char(rest[t]) by {
                    assert(rest[t] == cs[start + t]);
                }
                if j < cs.len() {
                    assert(rest[j - start] == cs[j as int]);
                }
                lemma_local_run_prefix(rest, j - start);
                assert(rest.take(j - start) =~= run);
            }
            let ghost before = out@;
            if j > start {
                let name = chars_between(&c, start, j);
                out.push(name);
            }
            proof {
                // Positions start..j hold name characters, so none is a bare colon.
                assert(classes_upto(cs, start as int) == if j > start { classes_upto(cs, i as int).push(run) } else { classes_upto(cs, i as int) });
                lemma_classes_skip_run(cs, start as int, j as int);
                assert forall|k: int| 0 <= k < out@.len() implies #[trigger] out@[k]@ == classes_upto(cs, j as int)[k] by {
                    if k < before.len() {
                        assert(out@[k] == before[k]);
                    }
                }
            }
            i = j;
        } else {
            proof {
                assert(!class_start(cs, i as int));
            }
            i = i + 1;
        }
    }
    out
}

/// The pattern that introduces a superclass.
pub open spec fn subclass_pattern() -> Seq<char> {
    "rdfs:subClassOf"@
}

/// Where the scan of a KKO document stands after some lines: the current
/// named subject, the edges found, and the structural statements skipped.
pub struct KkoScan {
    pub current: Option<Seq<char>>,
    pub edges: Seq<(Seq<char>, Seq<char>)>,
    pub skipped: nat,
}

/// The edges `(subject, p)` for every `p` of `ps` other than `subject`.
pub open spec fn subject_edges(subject: Seq<char>, ps: Seq<Seq<char>>) -> Seq<(Seq<char>, Seq<char>)>
    decreases ps.len(),
{
    if ps.len() == 0 {
        seq![]
    } else if ps.last() != subject {
        subject_edges(subject, ps.drop_last()).push((subject, ps.last()))
    } else {
        subject_edges(subject, ps.drop_last())
    }
}

/// The first position of the `subClassOf` pattern in `line`.
pub open spec fn subclass_pos(line: Seq<char>) -> int {
    choose|i: int| occurs_at(line, subclass_pattern(), i) && forall|j: int| 0 <= j < i ==> !occurs_at(line, subclass_pattern(), j)
}

/// One line of the scan. A line that starts at column 0 opens a subject
/// block (a named one, or none). A `subClassOf` on a line inside a named
/// block yields an edge per named superclass other than the subject itself;
/// one that names none counts as skipped.
pub open spec fn kko_step(st: KkoScan, line: Seq<char>) -> KkoScan {
    let current = if line.len() > 0 && !is_white(line[0]) {
        spec_named_local(trim_start(line))
    } else {
        st.current
    };
    if exists|i: int| occurs_at(line, subclass_pattern(), i) {
        match current {
            None => KkoScan { current, edges: st.edges, skipped: st.skipped },
            Some(subject) => {
                let ps = spec_named_classes(line.skip(subclass_pos(line) + subclass_pattern().len()));
                KkoScan {
                    current,
                    edges: st.edges + subject_edges(subject, ps),
                    skipped: if ps.len() == 0 { st.skipped + 1 } else { st.skipped },
                }
            },
        }
    } else {
        KkoScan { current, edges: st.edges, skipped: st.skipped }
    }
}

/// The scan after the first `k` lines.
pub open spec fn kko_scan(ls: Seq<Seq<char>>, k: nat) -> KkoScan
    decreases k,
{
    if k == 0 {
        KkoScan { current: None, edges: seq![], skipped: 0 }
    } else {
        kko_step(kko_scan(ls, (k - 1) as nat), ls[k - 1])
    }
}

/// The scan of a whole document.
pub open spec fn kko_document(turtle: Seq<char>) -> KkoScan {
    kko_scan(lines_of(turtle), lines_of(turtle).len())
}

/// The subjects of a list of edges.
pub open spec fn edge_subjects(es: Seq<(Seq<char>, Seq<char>)>) -> Set<Seq<char>> {
    es.map_values(|e: (Seq<char>, Seq<char>)| e.0).to_set()
}

/// The names of a list of string pairs.
pub open spec fn pair_names(v: Seq<(String, String)>) -> Seq<(Seq<char>, Seq<char>)> {
    v.map_values(|e: (String, String)| (e.0@, e.1@))
}

/// Adds the edges `(subject, p)` for the classes `ps` other than `subject`.
fn push_subject_edges(
    subject: &Vec<char>,
    ps: &Vec<Vec<char>>,
    edges: &mut Vec<(String, String)>,
    subjects: &mut Vec<String>,
)
    requires
        sorted_names(names_of(old(subjects)@)),
    ensures
        pair_names(final(edges)@) == pair_names(old(edges)@) + subject_edges(subject@, names_of_chars(ps@)),
        sorted_names(names_of(final(subjects)@)),
        names_of(final(subjects)@).to_set() == names_of(old(subjects)@).to_set().union(edge_subjects(subject_edges(subject@, names_of_chars(ps@)))),
{
    let ghost e0 = pair_names(edges@);
    let ghost s0 = names_of(subjects@).to_set();
    let ghost pn = names_of_chars(ps@);
    let mut k: usize = 0;
    proof {
        assert(pn.take(0) =~= seq![]);
        assert(e0 + subject_edges(subject@, pn.take(0)) =~= e0);
        assert(edge_subjects(subject_edges(subject@, pn.take(0))) =~= Set::empty());
        assert(s0.union(Set::empty()) =~= s0);
    }
    while k < ps.len()
        invariant
            pn == names_of_chars(ps@),
            k <= ps@.len(),
            pair_names(edges@) == e0 + subject_edges(subject@, pn.take(k as int)),
            sorted_names(names_of(subjects@)),
            names_of(subjects@).to_set() == s0.union(edge_subjects(subject_edges(subject@, pn.take(k as int)))),
        decreases ps@.len() - k,
    {
        let p = &ps[k];
        let ghost before = pair_names(edges@);
        let ghost sb = names_of(subjects@).to_set();
        assert(pn.take(k + 1).drop_last() =~= pn.take(k as int));
        assert(pn.take(k + 1).last() == p@);
        if !chars_eq(p, subject) {
            let subj = string_of(subject, 0, subject.len());
            let par = string_of(p, 0, p.len());
            assert(subject@.subrange(0, subject@.len() as int) =~= subject@);
            assert(p@.subrange(0, p@.len() as int) =~= p@);
            insert_name(subjects, subj.as_str());
            edges.push((subj, par));
            proof {
                assert(pair_names(edges@) =~= before.push((subject@, p@)));
                let se = subject_edges(subject@, pn.take(k + 1));
                assert(se == subject_edges(subject@, pn.take(k as int)).push((subject@, p@)));
                assert(edge_subjects(se) =~= edge_subjects(subject_edges(subject@, pn.take(k as int))).insert(subject@)) by {
                    let a = subject_edges(subject@, pn.take(k as int));
                    assert(se.map_values(|e: (Seq<char>, Seq<char>)| e.0) =~= a.map_values(|e: (Seq<char>, Seq<char>)| e.0).push(subject@));
                    let ma = a.map_values(|e: (Seq<char>, Seq<char>)| e.0);
                    let ms = se.map_values(|e: (Seq<char>, Seq<char>)| e.0);
                    assert forall|x| ms.to_set().contains(x) implies ma.to_set().insert(subject@).contains(x) by {
                        let t = choose|t: int| 0 <= t < ms.len() && ms[t] == x;
                        if t < ma.len() {
                            assert(ma[t] == x);
                        }
                    }
                    assert forall|x| ma.to_set().insert(subject@).contains(x) implies ms.to_set().contains(x) by {
                        if x == subject@ {
                            assert(ms[ma.len() as int] == x);
                        } else {
                            let t = choose|t: int| 0 <= t < ma.len() && ma[t] == x;
                            assert(ms[t] == x);
                        }
                    }
                }
                assert(names_of(subjects@).to_set() =~= s0.union(edge_subjects(se)));
            }
        } else {
            proof {
                assert(subject_edges(subject@, pn.take(k + 1)) == subject_edges(subject@, pn.take(k as int)));
            }
        }
        k = k + 1;
    }
    assert(pn.take(ps@.len() as int) =~= pn);
}

/// The character sequences of a vector of character vectors.
pub open spec fn names_of_chars(v: Seq<Vec<char>>) -> Seq<Seq<char>> {
    v.map_values(|x: Vec<char>| x@)
}

/// The subjects of two lists of edges, one after the other.
proof fn lemma_edge_subjects_concat(eb: Seq<(Seq<char>, Seq<char>)>, se: Seq<(Seq<char>, Seq<char>)>)
    ensures
        edge_subjects(eb + se) == edge_subjects(eb).union(edge_subjects(se)),
{
    let m1 = eb.map_values(|e: (Seq<char>, Seq<char>)| e.0);
    let m2 = se.map_values(|e: (Seq<char>, Seq<char>)| e.0);
    let m = (eb + se).map_values(|e: (Seq<char>, Seq<char>)| e.0);
    assert(m =~= m1 + m2);
    assert forall|x| m.to_set().contains(x) implies m1.to_set().union(m2.to_set()).contains(x) by {
        let t = choose|t: int| 0 <= t < m.len() && m[t] == x;
        if t < m1.len() {
            assert(m1[t] == x);
        } else {
            assert(m2[t - m1.len()] == x);
        }
    }
    assert forall|x| m1.to_set().union(m2.to_set()).contains(x) implies m.to_set().contains(x) by {
        if m1.to_set().contains(x) {
            let t = choose|t: int| 0 <= t < m1.len() && m1[t] == x;
            assert(m[t] == x);
        } else {
            let t = choose|t: int| 0 <= t < m2.len() && m2[t] == x;
            assert(m[t + m1.len()] == x);
        }
    }
    assert(m.to_set() =~= m1.to_set().union(m2.to_set()));
}

/// The name held as the current subject, if any.
pub open spec fn current_of(c: Option<Vec<char>>) -> Option<Seq<char>> {
    match c {
        Some(v) => Some(v@),
        None => None,
    }
}

/// The first occurrence of the pattern is where `subclass_pos` points.
proof fn lemma_subclass_pos(line: Seq<char>, i: int)
    requires
        occurs_at(line, subclass_pattern(), i),
        forall|j: int| 0 <= j < i ==> !occurs_at(line, subclass_pattern(), j),
    ensures
        subclass_pos(line) == i,
{
    let p = subclass_pos(line);
    assert(occurs_at(line, subclass_pattern(), p) && forall|j: int| 0 <= j < p ==> !occurs_at(line, subclass_pattern(), j));
    if p < i {
        assert(0 <= p);
    }
    if i < p {
        assert(0 <= i);
    }
}

/// Scans one line: the step `kko_step` on the executable state.
fn scan_line(
    line: &Vec<char>,
    pat: &Vec<char>,
    current: &mut Option<Vec<char>>,
    edges: &mut Vec<(String, String)>,
    subjects: &mut Vec<String>,
    skipped: &mut usize,
)
    requires
        pat@ == subclass_pattern(),
        *old(skipped) < usize::MAX,
        sorted_names(names_of(old(subjects)@)),
        names_of(old(subjects)@).to_set() == edge_subjects(pair_names(old(edges)@)),
    ensures
        kko_step(
            (KkoScan { current: current_of(*old(current)), edges: pair_names(old(edges)@), skipped: *old(skipped) as nat }),
            line@,
        ) == (KkoScan { current: current_of(*final(current)), edges: pair_names(final(edges)@), skipped: *final(skipped) as nat }),
        *final(skipped) <= *old(skipped) + 1,
        sorted_names(names_of(final(subjects)@)),
        names_of(final(subjects)@).to_set() == edge_subjects(pair_names(final(edges)@)),
{
    if line.len() > 0 && !char_is_white(line[0]) {
        let t = trim_start_chars(line);
        *current = named_local(&t);
    }
    match find_first(line, pat) {
        None => {},
        Some(pos) => {
            proof {
                lemma_subclass_pos(line@, pos as int);
            }
            match &*current {
                None => {},
                Some(subject) => {
                    let rest = chars_between(line, pos + pat.len(), line.len());
                    assert(rest@ =~= line@.skip(pos + pat@.len()));
                    let ps = named_classes(&rest);
                    assert(names_of_chars(ps@) =~= spec_named_classes(rest@));
                    if ps.len() == 0 {
                        *skipped = *skipped + 1;
                    }
                    let ghost eb = pair_names(edges@);
                    push_subject_edges(subject, &ps, edges, subjects);
                    proof {
                        lemma_edge_subjects_concat(eb, subject_edges(subject@, names_of_chars(ps@)));
                    }
                },
            }
        },
    }
}

/// Extract `(child, parent)` `subClassOf` edges from a KKO Turtle/N3 document.
///
/// Names are the default-namespace local names (`:Name` → `Name`). Returned
/// in document order; deduplication and closure are the resolver's job.
pub fn subclass_edges(turtle: &str) -> (r: (Vec<(String, String)>, KkoStats))
    ensures
        pair_names(r.0@) == kko_document(turtle@).edges,
        r.1.edges == r.0@.len(),
        r.1.skipped_structural == kko_document(turtle@).skipped,
        r.1.subjects == edge_subjects(kko_document(turtle@).edges).len(),
{
    let chars = to_chars(turtle);
    let lines = text_lines(&chars);
    let ghost ls = lines_of(turtle@);
    let pat = to_chars("rdfs:subClassOf");
    let mut current: Option<Vec<char>> = None;
    let mut edges: Vec<(String, String)> = Vec::new();
    let mut subjects: Vec<String> = Vec::new();
    let mut skipped: usize = 0;
    let mut i: usize = 0;
    proof {
        assert(pair_names(edges@) =~= seq![]);
        assert(names_of(subjects@).to_set() =~= Set::empty());
        assert(edge_subjects(seq![]) =~= Set::empty());
    }
    while i < lines.len()
        invariant
            ls == lines_of(turtle@),
            pat@ == subclass_pattern(),
            lines@.len() == ls.len(),
            forall|j: int| 0 <= j < lines@.len() ==> #[trigger] lines@[j]@ == ls[j],
            i <= lines@.len(),
            skipped <= i,
            current_of(current) == kko_scan(ls, i as nat).current,
            pair_names(edges@) == kko_scan(ls, i as nat).edges,
            skipped == kko_scan(ls, i as nat).skipped,
            sorted_names(names_of(subjects@)),
            names_of(subjects@).to_set() == edge_subjects(pair_names(edges@)),
        decreases lines@.len() - i,
    {
        let line = &lines[i];
        assert(line@ == ls[i as int]);
        scan_line(line, &pat, &mut current, &mut edges, &mut subjects, &mut skipped);
        proof {
            assert(kko_scan(ls, (i + 1) as nat) == kko_step(kko_scan(ls, i as nat), ls[i as int]));
        }
        i = i + 1;
    }
    let n_subjects = subjects.len();
    proof {
        let sn = names_of(subjects@);
        assert(sn.no_duplicates()) by {
            assert forall|a: int, b: int| 0 <= a < b < sn.len() implies sn[a] != sn[b] by {
                lemma_sorted_names_distinct(sn, a, b);
            }
        }
        sn.unique_seq_to_set();
    }
    let stats = KkoStats { edges: edges.len(), skipped_structural: skipped, subjects: n_subjects };
    (edges, stats)
}

/// The `(child, parent)` edges of a KKO document, as a set.
pub open spec fn kko_edge_set(turtle: Seq<char>) -> Set<(Seq<char>, Seq<char>)> {
    kko_document(turtle).edges.to_set()
}

impl ResolverBuilder {
    /// Load a KKO (KBpedia Knowledge Ontology) Turtle/N3 export, adding every
    /// `rdfs:subClassOf` edge among named classes. Returns the builder and
    /// import statistics.
    pub fn load_kko(self, turtle: &str) -> (r: (Self, KkoStats))
        ensures
            r.0@.strict == self@.strict,
            r.0@.edges == self@.edges.union(kko_edge_set(turtle@)),
            r.1.edges == kko_document(turtle@).edges.len(),
            r.1.skipped_structural == kko_document(turtle@).skipped,
            r.1.subjects == edge_subjects(kko_document(turtle@).edges).len(),
    {
        let (edges, stats) = subclass_edges(turtle);
        let ghost es = pair_names(edges@);
        let mut b = self;
        let mut k: usize = 0;
        proof {
            assert(es.take(0).to_set() =~= Set::empty());
            assert(self@.edges.union(Set::empty()) =~= self@.edges);
        }
        while k < edges.len()
            invariant
                es == pair_names(edges@),
                k <= edges@.len(),
                b@.strict == self@.strict,
                b@.edges == self@.edges.union(es.take(k as int).to_set()),
            decreases edges@.len() - k,
        {
            let e = &edges[k];
            b = b.edge(e.0.as_str(), e.1.as_str());
            proof {
                let a = es.take(k as int);
                let c = es.take(k + 1);
                assert(c =~= a.push(es[k as int]));
                assert(c.to_set() =~= a.to_set().insert(es[k as int])) by {
                    assert forall|x| c.to_set().contains(x) implies a.to_set().insert(es[k as int]).contains(x) by {
                        let t = choose|t: int| 0 <= t < c.len() && c[t] == x;
                        if t < k {
                            assert(a[t] == x);
                        }
                    }
                    assert forall|x| a.to_set().insert(es[k as int]).contains(x) implies c.to_set().contains(x) by {
                        if x == es[k as int] {
                            assert(c[k as int] == x);
                        } else {
                            let t = choose|t: int| 0 <= t < a.len() && a[t] == x;
                            assert(c[t] == x);
                        }
                    }
                }
                assert(b@.edges =~= self@.edges.union(c.to_set()));
            }
            k = k + 1;
        }
        assert(es.take(edges@.len() as int) =~= es);
        (b, stats)
    }
}

/// The edges `(subject, p)` hold every `p` of `ps` other than `subject`,
/// and nothing else.
proof fn lemma_subject_edges_members(subject: Seq<char>, ps: Seq<Seq<char>>, e: (Seq<char>, Seq<char>))
    ensures
        subject_edges(subject, ps).contains(e) <==> (e.0 == subject && ps.contains(e.1) && e.1 != subject),
    decreases ps.len(),
{
    if ps.len() > 0 {
        let init = ps.drop_last();
        lemma_subject_edges_members(subject, init, e);
        assert(ps =~= init.push(ps.last()));
        if ps.contains(e.1) && e.1 != ps.last() {
            let j = choose|j: int| 0 <= j < ps.len() && ps[j] == e.1;
            assert(init[j] == e.1);
        }
        if init.contains(e.1) {
            let j = choose|j: int| 0 <= j < init.len() && init[j] == e.1;
            assert(ps[j] == e.1);
        }
        if ps.last() != subject {
            let se = subject_edges(subject, init);
            if se.push((subject, ps.last())).contains(e) && !se.contains(e) {
                let j = choose|j: int| 0 <= j < se.len() + 1 && se.push((subject, ps.last()))[j] == e;
                if j < se.len() {
                    assert(se[j] == e);
                }
            }
            if se.contains(e) {
                let j = choose|j: int| 0 <= j < se.len() && se[j] == e;
                assert(se.push((subject, ps.last()))[j] == e);
            }
            if e == (subject, ps.last()) {
                assert(se.push((subject, ps.last()))[se.len() as int] == e);
            }
        }
    }
}

/// A line that does not start at column 0 stays in the block it is in: the
/// current subject after it is the one before it.
pub proof fn law_indented_lines_keep_the_subject(st: KkoScan, line: Seq<char>)
    requires
        line.len() == 0 || is_white(line[0]),
    ensures
        kko_step(st, line).current == st.current,
{
}

/// Scanning a line only appends edges: those found before stay, in order.
pub proof fn law_edges_only_grow(st: KkoScan, line: Seq<char>)
    ensures
        kko_step(st, line).edges.take(st.edges.len() as int) == st.edges,
        kko_step(st, line).edges.len() >= st.edges.len(),
{
    let nx = kko_step(st, line);
    assert(nx.edges.take(st.edges.len() as int) =~= st.edges);
}

/// A `subClassOf` line of a named block adds an edge from the block's
/// subject to each named class after the first `rdfs:subClassOf` of the
/// line (other than the subject itself), and only such edges.
pub proof fn law_subclass_lines_add_their_parents(st: KkoScan, line: Seq<char>, i: int, subject: Seq<char>, e: (Seq<char>, Seq<char>))
    requires
        occurs_at(line, subclass_pattern(), i),
        forall|j: int| 0 <= j < i ==> !occurs_at(line, subclass_pattern(), j),
        kko_step(st, line).current == Some(subject),
    ensures
        kko_step(st, line).edges == st.edges + kko_step(st, line).edges.skip(st.edges.len() as int),
        kko_step(st, line).edges.skip(st.edges.len() as int).contains(e) <==> (e.0 == subject
            && spec_named_classes(line.skip(i + subclass_pattern().len())).contains(e.1) && e.1 != subject),
{
    let p = subclass_pos(line);
    assert(occurs_at(line, subclass_pattern(), p) && forall|j: int| 0 <= j < p ==> !occurs_at(line, subclass_pattern(), j));
    if p < i {
        assert(!occurs_at(line, subclass_pattern(), p));
    }
    if i < p {
        assert(!occurs_at(line, subclass_pattern(), i));
    }
    let ps = spec_named_classes(line.skip(i + subclass_pattern().len()));
    let nx = kko_step(st, line);
    assert(nx.edges == st.edges + subject_edges(subject, ps));
    assert(nx.edges.skip(st.edges.len() as int) =~= subject_edges(subject, ps));
    lemma_subject_edges_members(subject, ps, e);
}

/// Edges found in the first lines of a document stay, in order, whatever
/// lines follow.
pub proof fn law_document_edges_only_grow(ls: Seq<Seq<char>>, k1: nat, k2: nat)
    requires
        k1 <= k2 <= ls.len(),
    ensures
        kko_scan(ls, k2).edges.take(kko_scan(ls, k1).edges.len() as int) == kko_scan(ls, k1).edges,
        kko_scan(ls, k2).edges.len() >= kko_scan(ls, k1).edges.len(),
    decreases k2,
{
    if k1 < k2 {
        law_document_edges_only_grow(ls, k1, (k2 - 1) as nat);
        let a = kko_scan(ls, k1).edges;
        let b = kko_scan(ls, (k2 - 1) as nat).edges;
        law_edges_only_grow(kko_scan(ls, (k2 - 1) as nat), ls[k2 - 1]);
        let c = kko_scan(ls, k2).edges;
        assert(c.take(a.len() as int) =~= b.take(a.len() as int)) by {
            assert forall|t: int| 0 <= t < a.len() implies c[t] == b[t] by {
                assert(c.take(b.len() as int)[t] == b[t]);
            }
        }
    }
}

} // verus!
