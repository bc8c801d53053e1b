//! Text handling over characters: lines, white space, trimming, searching.
use vstd::prelude::*;

verus! {

/// The characters of a string.
pub fn to_chars(s: &str) -> (v: Vec<char>)
    ensures
        v@ == s@,
{
    let mut v: Vec<char> = Vec::new();
    for c in it: s.chars()
        invariant
            v@ == it.seq().take(it.index() as int),
    {
        v.push(c);
        assert(v@ =~= it.seq().take(it.index() + 1));
    }
    assert(v@ =~= s@);
    v
}

/// `String::push`, which per its documentation appends the character to the
/// end of the string.
#[verifier::external_body]
fn string_push(s: &mut String, c: char)
    ensures
        final(s)@ == old(s)@.push(c),
{
    s.push(c);
}

/// The string made of the characters `v[from..to]`.
pub fn string_of(v: &Vec<char>, from: usize, to: usize) -> (s: String)
    requires
        from <= to <= v@.len(),
    ensures
        s@ == v@.subrange(from as int, to as int),
{
    let mut s = String::new();
    let mut k = from;
    while k < to
        invariant
            from <= k <= to,
            to <= v@.len(),
            s@ == v@.subrange(from as int, k as int),
        decreases to - k,
    {
        string_push(&mut s, v[k]);
        assert(s@ =~= v@.subrange(from as int, k + 1));
        k = k + 1;
    }
    s
}

/// The characters `v[from..to]`.
pub fn chars_between(v: &Vec<char>, from: usize, to: usize) -> (w: Vec<char>)
    requires
        from <= to <= v@.len(),
    ensures
        w@ == v@.subrange(from as int, to as int),
{
    let mut w: Vec<char> = Vec::new();
    let mut k = from;
    while k < to
        invariant
            from <= k <= to,
            to <= v@.len(),
            w@ == v@.subrange(from as int, k as int),
        decreases to - k,
    {
        w.push(v[k]);
        assert(w@ =~= v@.subrange(from as int, k + 1));
        k = k + 1;
    }
    w
}

/// Unicode `White_Space`: the characters for which `char::is_whitespace`
/// holds.
pub open spec fn is_white(c: char) -> bool {
    let u = c as u32;
    ||| 0x09 <= u <= 0x0D
    ||| u == 0x20
    ||| u == 0x85
    ||| u == 0xA0
    ||| u == 0x1680
    ||| 0x2000 <= u <= 0x200A
    ||| u == 0x2028
    ||| u == 0x2029
    ||| u == 0x202F
    ||| u == 0x205F
    ||| u == 0x3000
}

/// Whether `c` is white space (Unicode `White_Space`).
pub fn char_is_white(c: char) -> (b: bool)
    ensures
        b == is_white(c),
{
    let u = c as u32;
    (0x09 <= u && u <= 0x0D) || u == 0x20 || u == 0x85 || u == 0xA0 || u == 0x1680 || (0x2000
        <= u && u <= 0x200A) || u == 0x2028 || u == 0x2029 || u == 0x202F || u == 0x205F || u
        == 0x3000
}

/// Drops leading white space.
pub open spec fn trim_start(l: Seq<char>) -> Seq<char>
    decreases l.len(),
{
    if l.len() > 0 && is_white(l[0]) {
        trim_start(l.drop_first())
    } else {
        l
    }
}

/// Drops trailing white space.
pub open spec fn trim_end(l: Seq<char>) -> Seq<char>
    decreases l.len(),
{
    if l.len() > 0 && is_white(l.last()) {
        trim_end(l.drop_last())
    } else {
        l
    }
}

/// Drops leading and trailing white space.
pub open spec fn trim(l: Seq<char>) -> Seq<char> {
    trim_end(trim_start(l))
}

proof fn lemma_trim_start_skip(l: Seq<char>, k: int)
    requires
        0 <= k <= l.len(),
        forall|t: int| 0 <= t < k ==> is_white(l[t]),
        k == l.len() || !is_white(l[k]),
    ensures
        trim_start(l) == l.skip(k),
    decreases k,
{
    if k == 0 {
        assert(l.skip(0) =~= l);
    } else {
        assert forall|t: int| 0 <= t < k - 1 implies is_white(l.drop_first()[t]) by {
            assert(l.drop_first()[t] == l[t + 1]);
        }
        lemma_trim_start_skip(l.drop_first(), k - 1);
        assert(l.drop_first().skip(k - 1) =~= l.skip(k));
    }
}

proof fn lemma_trim_end_take(l: Seq<char>, k: int)
    requires
        0 <= k <= l.len(),
        forall|t: int| k <= t < l.len() ==> is_white(l[t]),
        k == 0 || !is_white(l[k - 1]),
    ensures
        trim_end(l) == l.take(k),
    decreases l.len() - k,
{
    if k == l.len() {
        assert(l.take(k) =~= l);
    } else {
        assert forall|t: int| k <= t < l.drop_last().len() implies is_white(l.drop_last()[t]) by {
        }
        lemma_trim_end_take(l.drop_last(), k);
        assert(l.drop_last().take(k) =~= l.take(k));
    }
}

/// The characters of `l` without leading and trailing white space.
pub fn trim_chars(l: &Vec<char>) -> (w: Vec<char>)
    ensures
        w@ == trim(l@),
{
    let mut lo: usize = 0;
    while lo < l.len() && char_is_white(l[lo])
        invariant
            lo <= l@.len(),
            forall|t: int| 0 <= t < lo ==> is_white(l@[t]),
        decreases l@.len() - lo,
    {
        lo = lo + 1;
    }
    proof {
        lemma_trim_start_skip(l@, lo as int);
    }
    let mut hi: usize = l.len();
    while hi > lo && char_is_white(l[hi - 1])
        invariant
            lo <= hi <= l@.len(),
            forall|t: int| hi <= t < l@.len() ==> is_white(l@[t]),
        decreases hi,
    {
        hi = hi - 1;
    }
    proof {
        let st = l@.skip(lo as int);
        assert forall|t: int| hi - lo <= t < st.len() implies is_white(st[t]) by {
            assert(st[t] == l@[t + lo]);
        }
        if hi > lo {
            assert(st[hi - lo - 1] == l@[hi - 1]);
        }
        lemma_trim_end_take(st, hi - lo);
        assert(st.take(hi - lo) =~= l@.subrange(lo as int, hi as int));
    }
    chars_between(l, lo, hi)
}

/// The pieces of `s` between newlines; one more than there are newlines.
pub open spec fn split_nl(s: Seq<char>) -> Seq<Seq<char>>
    decreases s.len(),
{
    if s.len() == 0 {
        seq![seq![]]
    } else {
        let prev = split_nl(s.drop_last());
        if s.last() == '\n' {
            prev.push(seq![])
        } else {
            prev.update(prev.len() - 1, prev.last().push(s.last()))
        }
    }
}

/// Drops one trailing carriage return.
pub open spec fn strip_cr(l: Seq<char>) -> Seq<char> {
    if l.len() > 0 && l.last() == '\r' {
        l.drop_last()
    } else {
        l
    }
}

/// The lines of `s`, as `str::lines` gives them: split at `\n`, a `\r`
/// before the `\n` dropped, and no empty line after a final `\n`.
pub open spec fn lines_of(s: Seq<char>) -> Seq<Seq<char>> {
    let p = split_nl(s);
    let ended = Seq::new((p.len() - 1) as nat, |i: int| strip_cr(p[i]));
    if p.last().len() == 0 {
        ended
    } else {
        ended.push(p.last())
    }
}

proof fn lemma_split_nl_len(s: Seq<char>)
    ensures
        split_nl(s).len() >= 1,
    decreases s.len(),
{
    if s.len() > 0 {
        lemma_split_nl_len(s.drop_last());
    }
}

/// The lines of `s`.
pub fn text_lines(s: &Vec<char>) -> (ls: Vec<Vec<char>>)
    ensures
        ls@.len() == lines_of(s@).len(),
        forall|i: int| 0 <= i < ls@.len() ==> #[trigger] ls@[i]@ == lines_of(s@)[i],
{
    let mut done: Vec<Vec<char>> = Vec::new();
    let mut cur: Vec<char> = Vec::new();
    let mut k: usize = 0;
    while k < s.len()
        invariant
            k <= s@.len(),
            split_nl(s@.take(k as int)).len() == done@.len() + 1,
            forall|i: int| 0 <= i < done@.len() ==> #[trigger] done@[i]@ == strip_cr(split_nl(s@.take(k as int))[i]),
            cur@ == split_nl(s@.take(k as int)).last(),
        decreases s@.len() - k,
    {
        let c = s[k];
        let ghost pre = split_nl(s@.take(k as int));
        assert(s@.take(k + 1).drop_last() =~= s@.take(k as int));
        proof {
            lemma_split_nl_len(s@.take(k as int));
        }
        if c == '\n' {
            let n = cur.len();
            let line = if n > 0 && cur[n - 1] == '\r' {
                chars_between(&cur, 0, n - 1)
            } else {
                chars_between(&cur, 0, n)
            };
            assert(line@ == strip_cr(cur@)) by {
                assert(cur@.subrange(0, n as int) =~= cur@);
                assert(cur@.subrange(0, n - 1) =~= cur@.drop_last());
            }
            done.push(line);
            cur = Vec::new();
            proof {
                let post = split_nl(s@.take(k + 1));
                assert(post == pre.push(seq![]));
                assert forall|i: int| 0 <= i < done@.len() implies #[trigger] done@[i]@ == strip_cr(post[i]) by {
                    if i < done@.len() - 1 {
                        assert(post[i] == pre[i]);
                    }
                }
                assert(cur@ =~= post.last());
            }
        } else {
            cur.push(c);
            proof {
                let post = split_nl(s@.take(k + 1));
                assert(post == pre.update(pre.len() - 1, pre.last().push(c)));
                assert forall|i: int| 0 <= i < done@.len() implies #[trigger] done@[i]@ == strip_cr(post[i]) by {
                    assert(post[i] == pre[i]);
                }
            }
        }
        k = k + 1;
    }
    assert(s@.take(s@.len() as int) =~= s@);
    let ghost p = split_nl(s@);
    if cur.len() > 0 {
        done.push(cur);
    }
    proof {
        let ls = lines_of(s@);
        assert forall|i: int| 0 <= i < done@.len() implies #[trigger] done@[i]@ == ls[i] by {
        }
    }
    done
}

/// `pat` occurs in `l` at position `i`.
pub open spec fn occurs_at(l: Seq<char>, pat: Seq<char>, i: int) -> bool {
    0 <= i && i + pat.len() <= l.len() && l.subrange(i, i + pat.len()) == pat
}

/// The first position at which `pat` occurs in `l`, if any.
pub fn find_first(l: &Vec<char>, pat: &Vec<char>) -> (r: Option<usize>)
    ensures
        r matches Some(i) ==> occurs_at(l@, pat@, i as int) && forall|j: int| 0 <= j < i ==> !occurs_at(l@, pat@, j),
        r is None ==> forall|j: int| !occurs_at(l@, pat@, j),
{
    if pat.len() > l.len() {
        return None;
    }
    let last = l.len() - pat.len();
    let mut i: usize = 0;
    while i <= last
        invariant
            last == l@.len() - pat@.len(),
            l@.len() <= usize::MAX,
            i <= last + 1,
            forall|j: int| 0 <= j < i ==> !occurs_at(l@, pat@, j),
        decreases last + 1 - i,
    {
        let mut t: usize = 0;
        while t < pat.len() && l[i + t] == pat[t]
            invariant
                t <= pat@.len(),
                i <= last,
                last == l@.len() - pat@.len(),
                l@.len() <= usize::MAX,
                forall|u: int| 0 <= u < t ==> l@[i + u] == pat@[u],
            decreases pat@.len() - t,
        {
            t = t + 1;
        }
        if t == pat.len() {
            assert(l@.subrange(i as int, i + pat@.len()) =~= pat@);
            return Some(i);
        }
        assert(!occurs_at(l@, pat@, i as int)) by {
            if occurs_at(l@, pat@, i as int) {
                assert(l@.subrange(i as int, i + pat@.len())[t as int] == l@[i + t]);
            }
        }
        i = i + 1;
    }
    None
}

} // verus!

verus! {

/// The first position of `c` in `l`, if any.
pub open spec fn first_pos(l: Seq<char>, c: char) -> Option<int> {
    if l.contains(c) {
        Some(choose|k: int| 0 <= k < l.len() && l[k] == c && forall|j: int| 0 <= j < k ==> l[j] != c)
    } else {
        None
    }
}

/// The first position of `c` in `l`, if any.
pub fn find_char(l: &Vec<char>, c: char) -> (r: Option<usize>)
    ensures
        r matches Some(k) ==> k < l@.len() && l@[k as int] == c && forall|j: int| 0 <= j < k ==> l@[j] != c,
        r is None <==> !l@.contains(c),
        r matches Some(k) ==> first_pos(l@, c) == Some(k as int),
        r is None ==> first_pos(l@, c) is None,
{
    let mut k: usize = 0;
    while k < l.len()
        invariant
            k <= l@.len(),
            forall|j: int| 0 <= j < k ==> l@[j] != c,
        decreases l@.len() - k,
    {
        if l[k] == c {
            proof {
                assert(l@.contains(c));
                let k2 = choose|k2: int| 0 <= k2 < l@.len() && l@[k2] == c && forall|j: int| 0 <= j < k2 ==> l@[j] != c;
                if k2 < k {
                } else if k2 > k {
                    assert(l@[k as int] != c);
                }
            }
            return Some(k);
        }
        k = k + 1;
    }
    None
}

} // verus!

verus! {

/// The characters of `l` without leading white space.
pub fn trim_start_chars(l: &Vec<char>) -> (w: Vec<char>)
    ensures
        w@ == trim_start(l@),
{
    let mut lo: usize = 0;
    while lo < l.len() && char_is_white(l[lo])
        invariant
            lo <= l@.len(),
            forall|t: int| 0 <= t < lo ==> is_white(l@[t]),
        decreases l@.len() - lo,
    {
        lo = lo + 1;
    }
    proof {
        lemma_trim_start_skip(l@, lo as int);
        assert(l@.skip(lo as int) =~= l@.subrange(lo as int, l@.len() as int));
    }
    chars_between(l, lo, l.len())
}

/// Whether two character sequences are equal.
pub fn chars_eq(a: &Vec<char>, b: &Vec<char>) -> (r: bool)
    ensures
        r == (a@ == b@),
{
    if a.len() != b.len() {
        return false;
    }
    let mut k: usize = 0;
    while k < a.len()
        invariant
            a@.len() == b@.len(),
            k <= a@.len(),
            forall|t: int| 0 <= t < k ==> a@[t] == b@[t],
        decreases a@.len() - k,
    {
        if a[k] != b[k] {
            return false;
        }
        k = k + 1;
    }
    assert(a@ =~= b@);
    true
}

} // verus!
