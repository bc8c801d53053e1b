//! Loading `child ⊑ parent` edges from a simple text export: one edge per
//! line, `child<sep>parent`, where `<sep>` is a tab or a comma.
use crate::resolver_index::ResolverBuilder;
use crate::text::{chars_between, find_char, first_pos, lines_of, string_of, text_lines, to_chars, trim, trim_chars};
use vstd::prelude::*;

verus! {

/// A blank line or a comment (`#` after leading white space): ignored.
pub open spec fn ignored_line(line: Seq<char>) -> bool {
    trim(line).len() == 0 || trim(line)[0] == '#'
}

/// The edge a line states: the trimmed line split at its first tab (or, when
/// it has none, at its first comma), both sides trimmed and non-empty.
pub open spec fn line_edge(line: Seq<char>) -> Option<(Seq<char>, Seq<char>)> {
    let t = trim(line);
    let sep = if t.contains('\t') { '\t' } else { ',' };
    match first_pos(t, sep) {
        Some(k) => if trim(t.take(k)).len() > 0 && trim(t.skip(k + 1)).len() > 0 {
            Some((trim(t.take(k)), trim(t.skip(k + 1))))
        } else {
            None
        },
        None => None,
    }
}

/// The edges stated by the lines of a text export.
pub open spec fn export_edges(text: Seq<char>) -> Set<(Seq<char>, Seq<char>)> {
    Set::new(|e: (Seq<char>, Seq<char>)| exists|i: int| 0 <= i < lines_of(text).len()
        && !ignored_line(#[trigger] lines_of(text)[i]) && line_edge(lines_of(text)[i]) == Some(e))
}

/// The 1-based numbers of the first `k` lines that are neither ignored nor
/// state an edge.
pub open spec fn skipped_upto(ls: Seq<Seq<char>>, k: nat) -> Seq<usize>
    decreases k,
{
    if k == 0 {
        seq![]
    } else {
        let prev = skipped_upto(ls, (k - 1) as nat);
        if !ignored_line(ls[k - 1]) && line_edge(ls[k - 1]) is None {
            prev.push(k as usize)
        } else {
            prev
        }
    }
}

/// The 1-based numbers of the lines of a text export that do not parse.
pub open spec fn skipped_lines(text: Seq<char>) -> Seq<usize> {
    skipped_upto(lines_of(text), lines_of(text).len())
}

/// The edges of the first `k` lines.
pub open spec fn edges_upto(ls: Seq<Seq<char>>, k: int) -> Set<(Seq<char>, Seq<char>)> {
    Set::new(|e: (Seq<char>, Seq<char>)| exists|i: int| 0 <= i < k && !ignored_line(#[trigger] ls[i]) && line_edge(ls[i]) == Some(e))
}

impl ResolverBuilder {
    /// Load `child ⊑ parent` edges from a simple text export — one edge per
    /// line, `child<sep>parent`, where `<sep>` is a tab or comma. Blank lines
    /// and lines beginning with `#` are ignored. Lines that do not parse are
    /// skipped and their 1-based numbers returned.
    pub fn load_edges(self, text: &str) -> (r: (Self, Vec<usize>))
        ensures
            r.0@.strict == self@.strict,
            r.0@.edges == self@.edges.union(export_edges(text@)),
            r.1@ == skipped_lines(text@),
    {
        let chars = to_chars(text);
        let lines = text_lines(&chars);
        let ghost ls = lines_of(text@);
        let mut b = self;
        let mut skipped: Vec<usize> = Vec::new();
        let mut i: usize = 0;
        proof {
            assert(edges_upto(ls, 0) =~= Set::empty());
            assert(self@.edges.union(Set::empty()) =~= self@.edges);
        }
        while i < lines.len()
            invariant
                ls == lines_of(text@),
                lines@.len() == ls.len(),
                forall|j: int| 0 <= j < lines@.len() ==> #[trigger] lines@[j]@ == ls[j],
                i <= lines@.len(),
                b@.strict == self@.strict,
                b@.edges == self@.edges.union(edges_upto(ls, i as int)),
                skipped@ == skipped_upto(ls, i as nat),
            decreases lines@.len() - i,
        {
            let line = &lines[i];
            assert(line@ == ls[i as int]);
            let t = trim_chars(line);
            let ghost before = b@.edges;
            let mut stated = false;
            let ignored = t.len() == 0 || t[0] == '#';
            if !ignored {
                let sep = if find_char(&t, '\t').is_some() { '\t' } else { ',' };
                match find_char(&t, sep) {
                    Some(k) => {
                        let a = trim_chars(&chars_between(&t, 0, k));
                        let c = trim_chars(&chars_between(&t, k + 1, t.len()));
                        assert(t@.subrange(0, k as int) =~= t@.take(k as int));
                        assert(t@.subrange(k + 1, t@.len() as int) =~= t@.skip(k + 1));
                        if a.len() > 0 && c.len() > 0 {
                            let child = string_of(&a, 0, a.len());
                            let parent = string_of(&c, 0, c.len());
                            assert(a@.subrange(0, a@.len() as int) =~= a@);
                            assert(c@.subrange(0, c@.len() as int) =~= c@);
                            b = b.edge(child.as_str(), parent.as_str());
                            stated = true;
                            assert(line_edge(ls[i as int]) == Some((a@, c@)));
                        }
                    },
                    None => {},
                }
            }
            assert(ignored == ignored_line(ls[i as int]));
            assert(stated <==> (!ignored && line_edge(ls[i as int]) is Some));
            if !ignored && !stated {
                skipped.push(i + 1);
            }
            proof {
                let next = edges_upto(ls, i + 1);
                if stated {
                    let e = line_edge(ls[i as int])->Some_0;
                    assert(next =~= edges_upto(ls, i as int).insert(e)) by {
                        assert forall|x| next.contains(x) implies edges_upto(ls, i as int).insert(e).contains(x) by {
                            let j = choose|j: int| 0 <= j < i + 1 && !ignored_line(#[trigger] ls[j]) && line_edge(ls[j]) == Some(x);
                            if j < i {
                                assert(edges_upto(ls, i as int).contains(x));
                            }
                        }
                        assert forall|x| edges_upto(ls, i as int).insert(e).contains(x) implies next.contains(x) by {
                            if x == e {
                                assert(!ignored_line(ls[i as int]) && line_edge(ls[i as int]) == Some(x));
                            } else {
                                let j = choose|j: int| 0 <= j < i && !ignored_line(#[trigger] ls[j]) && line_edge(ls[j]) == Some(x);
                            }
                        }
                    }
                    assert(b@.edges =~= self@.edges.union(next));
                } else {
                    assert(next =~= edges_upto(ls, i as int)) by {
                        assert forall|x| next.contains(x) implies edges_upto(ls, i as int).contains(x) by {
                            let j = choose|j: int| 0 <= j < i + 1 && !ignored_line(#[trigger] ls[j]) && line_edge(ls[j]) == Some(x);
                            if j == i {
                                assert(false);
                            }
                        }
                        assert forall|x| edges_upto(ls, i as int).contains(x) implies next.contains(x) by {
                            let j = choose|j: int| 0 <= j < i && !ignored_line(#[trigger] ls[j]) && line_edge(ls[j]) == Some(x);
                        }
                    }
                }
            }
            i = i + 1;
        }
        proof {
            assert(edges_upto(ls, ls.len() as int) =~= export_edges(text@));
        }
        (b, skipped)
    }
}

/// Every number in `skipped_upto(ls, n)` names a line that is neither
/// ignored nor states an edge.
proof fn lemma_skipped_unparsed(ls: Seq<Seq<char>>, n: nat, x: usize)
    requires
        n <= ls.len(),
        ls.len() <= usize::MAX,
        skipped_upto(ls, n).contains(x),
    ensures
        1 <= x <= n,
        !ignored_line(ls[x - 1]),
        line_edge(ls[x - 1]) is None,
    decreases n,
{
    let prev = skipped_upto(ls, (n - 1) as nat);
    if prev.contains(x) {
        lemma_skipped_unparsed(ls, (n - 1) as nat, x);
    } else {
        assert(skipped_upto(ls, n) == prev.push(n as usize));
        assert(x == n as usize);
    }
}

/// A line that is not blank, does not begin with `#` once trimmed, and
/// splits at its first tab (or, having none, its first comma) into two
/// non-empty trimmed sides loads the edge from the one side to the other,
/// whatever else the names hold (`#` included), and is not reported as
/// skipped.
pub proof fn law_edge_lines_load(text: Seq<char>, i: int, k: int)
    requires
        lines_of(text).len() <= usize::MAX,
        0 <= i < lines_of(text).len(),
        trim(lines_of(text)[i]).len() > 0,
        trim(lines_of(text)[i])[0] != '#',
        0 <= k < trim(lines_of(text)[i]).len(),
        trim(lines_of(text)[i])[k] == (if trim(lines_of(text)[i]).contains('\t') { '\t' } else { ',' }),
        forall|j: int| 0 <= j < k ==> trim(lines_of(text)[i])[j] != (if trim(lines_of(text)[i]).contains('\t') { '\t' } else { ',' }),
        trim(trim(lines_of(text)[i]).take(k)).len() > 0,
        trim(trim(lines_of(text)[i]).skip(k + 1)).len() > 0,
    ensures
        export_edges(text).contains(
            (trim(trim(lines_of(text)[i]).take(k)), trim(trim(lines_of(text)[i]).skip(k + 1))),
        ),
        !skipped_lines(text).contains((i + 1) as usize),
{
    let ls = lines_of(text);
    let line = ls[i];
    let t = trim(line);
    let sep = if t.contains('\t') { '\t' } else { ',' };
    assert(t.contains(sep));
    let k2 = choose|k2: int| 0 <= k2 < t.len() && t[k2] == sep && forall|j: int| 0 <= j < k2 ==> t[j] != sep;
    if k2 < k {
        assert(t[k2] != sep);
    }
    if k < k2 {
        assert(t[k] != sep);
    }
    assert(first_pos(t, sep) == Some(k));
    assert(!ignored_line(line));
    assert(line_edge(line) == Some((trim(t.take(k)), trim(t.skip(k + 1)))));
    let e = (trim(t.take(k)), trim(t.skip(k + 1)));
    assert(!ignored_line(ls[i]) && line_edge(ls[i]) == Some(e));
    if skipped_lines(text).contains((i + 1) as usize) {
        lemma_skipped_unparsed(ls, ls.len(), (i + 1) as usize);
    }
}

} // verus!
