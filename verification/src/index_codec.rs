//! The persisted form of a resolver's index: the concepts, their parent
//! lists and their ancestor closure, concepts interned to positions, in a
//! compact, deterministic byte string. Reloading it recomputes nothing.
//!
//! Layout: the magic `PSI1`; one byte, non-zero when strict; the number `n`
//! of concepts; `n` length-prefixed UTF-8 names; `n` parent lists; `n`
//! ancestor lists. Every number is a big-endian `u32`; a list is its length
//! followed by its positions.
use crate::graph::lists_of;
use crate::resolver_index::{IndexedResolver, ResolverView};
use crate::sorted::{lemma_sorted_idx_unique, lemma_sorted_names_unique, find_name, idx_below, insert_idx, insert_name, lemma_name_pos, lemma_sorted_names_distinct, name_pos, names_of, sorted_idx, sorted_names};
use vstd::prelude::*;
use vstd::utf8::{decode_utf8, encode_utf8, encode_utf8_decode_utf8, encode_utf8_valid_utf8, valid_utf8};

verus! {

/// Failure to decode a persisted resolver index.
#[derive(Debug, Clone, Copy, PartialEq, Eq)]
pub enum IndexDecodeError {
    /// The byte string ended mid-field.
    Truncated,
    /// A concept index referenced a node out of range.
    BadNodeIndex,
    /// A length-prefixed string was not valid UTF-8.
    BadUtf8,
    /// The format magic/version did not match.
    BadHeader,
}

/// The description of each decoding failure.
pub open spec fn decode_error_message(e: IndexDecodeError) -> Seq<char> {
    match e {
        IndexDecodeError::Truncated => "persisted index truncated"@,
        IndexDecodeError::BadNodeIndex => "persisted index referenced an out-of-range node"@,
        IndexDecodeError::BadUtf8 => "persisted index string was not UTF-8"@,
        IndexDecodeError::BadHeader => "persisted index header mismatch"@,
    }
}

impl IndexDecodeError {
    /// A human-readable description.
    pub fn message(&self) -> (s: &'static str)
        ensures
            s@ == decode_error_message(*self),
    {
        match self {
            IndexDecodeError::Truncated => "persisted index truncated",
            IndexDecodeError::BadNodeIndex => "persisted index referenced an out-of-range node",
            IndexDecodeError::BadUtf8 => "persisted index string was not UTF-8",
            IndexDecodeError::BadHeader => "persisted index header mismatch",
        }
    }
}

/// The format magic, `PSI1`.
pub open spec fn index_magic() -> Seq<u8> {
    seq![80u8, 83u8, 73u8, 49u8]
}

/// A `u32` in big-endian order.
pub open spec fn enc_u32(v: u32) -> Seq<u8> {
    seq![(v >> 24u32) as u8, (v >> 16u32) as u8, (v >> 8u32) as u8, v as u8]
}

/// The big-endian `u32` in the first four bytes.
pub open spec fn be32_value(b: Seq<u8>) -> u32 {
    ((b[0] as u32) << 24u32) | ((b[1] as u32) << 16u32) | ((b[2] as u32) << 8u32) | (b[3] as u32)
}

/// A name: its UTF-8 length, then its UTF-8 bytes.
pub open spec fn enc_name(x: Seq<char>) -> Seq<u8> {
    enc_u32(encode_utf8(x).len() as u32) + encode_utf8(x)
}

/// Names one after another.
pub open spec fn enc_names(ns: Seq<Seq<char>>) -> Seq<u8>
    decreases ns.len(),
{
    if ns.len() == 0 {
        seq![]
    } else {
        enc_names(ns.drop_last()) + enc_name(ns.last())
    }
}

/// Positions one after another.
pub open spec fn enc_items(l: Seq<usize>) -> Seq<u8>
    decreases l.len(),
{
    if l.len() == 0 {
        seq![]
    } else {
        enc_items(l.drop_last()) + enc_u32(l.last() as u32)
    }
}

/// A list: its length, then its positions.
pub open spec fn enc_list(l: Seq<usize>) -> Seq<u8> {
    enc_u32(l.len() as u32) + enc_items(l)
}

/// Lists one after another.
pub open spec fn enc_lists(ls: Seq<Seq<usize>>) -> Seq<u8>
    decreases ls.len(),
{
    if ls.len() == 0 {
        seq![]
    } else {
        enc_lists(ls.drop_last()) + enc_list(ls.last())
    }
}

/// The persisted form of a resolver.
pub open spec fn index_bytes(v: ResolverView) -> Seq<u8> {
    index_magic() + seq![if v.strict { 1u8 } else { 0u8 }] + enc_u32(v.names.len() as u32) + enc_names(
        v.names,
    ) + enc_lists(v.parents) + enc_lists(v.ancestors)
}

proof fn lemma_enc_u32_value(v: u32)
    ensures
        be32_value(enc_u32(v)) == v,
        enc_u32(v).len() == 4,
{
    let b0 = (v >> 24u32) as u8;
    let b1 = (v >> 16u32) as u8;
    let b2 = (v >> 8u32) as u8;
    let b3 = v as u8;
    assert(((b0 as u32) << 24u32) | ((b1 as u32) << 16u32) | ((b2 as u32) << 8u32) | (b3 as u32)
        == v) by (bit_vector)
        requires
            b0 == (v >> 24u32) as u8,
            b1 == (v >> 16u32) as u8,
            b2 == (v >> 8u32) as u8,
            b3 == v as u8,
    ;
}

/// Appends `v` in big-endian order.
pub fn put_u32(out: &mut Vec<u8>, v: u32)
    ensures
        final(out)@ == old(out)@ + enc_u32(v),
{
    out.push((v >> 24u32) as u8);
    out.push((v >> 16u32) as u8);
    out.push((v >> 8u32) as u8);
    out.push(v as u8);
    assert(final(out)@ =~= old(out)@ + enc_u32(v));
}

/// Appends a length-prefixed UTF-8 string.
pub fn put_str(out: &mut Vec<u8>, s: &str)
    ensures
        final(out)@ == old(out)@ + enc_name(s@),
{
    let b = s.as_bytes();
    put_u32(out, b.len() as u32);
    let ghost mid = out@;
    let mut k: usize = 0;
    while k < b.len()
        invariant
            k <= b@.len(),
            out@ == mid + b@.take(k as int),
        decreases b@.len() - k,
    {
        out.push(b[k]);
        assert(b@.take(k + 1) =~= b@.take(k as int).push(b@[k as int]));
        k = k + 1;
    }
    assert(b@.take(b@.len() as int) =~= b@);
    assert(out@ =~= old(out)@ + enc_name(s@));
}

/// Appends a list of positions.
fn put_list(out: &mut Vec<u8>, l: &Vec<usize>)
    ensures
        final(out)@ == old(out)@ + enc_list(l@),
{
    put_u32(out, l.len() as u32);
    let ghost mid = out@;
    let mut k: usize = 0;
    assert(l@.take(0) =~= Seq::<usize>::empty());
    while k < l.len()
        invariant
            k <= l@.len(),
            out@ == mid + enc_items(l@.take(k as int)),
        decreases l@.len() - k,
    {
        put_u32(out, l[k] as u32);
        assert(l@.take(k + 1).drop_last() =~= l@.take(k as int));
        k = k + 1;
    }
    assert(l@.take(l@.len() as int) =~= l@);
    assert(out@ =~= old(out)@ + enc_list(l@));
}

/// Appends every list of `ls`.
fn put_lists(out: &mut Vec<u8>, ls: &Vec<Vec<usize>>)
    ensures
        final(out)@ == old(out)@ + enc_lists(lists_of(ls@)),
{
    let ghost start = out@;
    let mut k: usize = 0;
    assert(lists_of(ls@).take(0) =~= Seq::<Seq<usize>>::empty());
    assert(start + enc_lists(Seq::<Seq<usize>>::empty()) =~= start);
    while k < ls.len()
        invariant
            k <= ls@.len(),
            out@ == start + enc_lists(lists_of(ls@).take(k as int)),
        decreases ls@.len() - k,
    {
        put_list(out, &ls[k]);
        assert(lists_of(ls@).take(k + 1).drop_last() =~= lists_of(ls@).take(k as int));
        assert(out@ =~= start + enc_lists(lists_of(ls@).take(k + 1)));
        k = k + 1;
    }
    assert(lists_of(ls@).take(ls@.len() as int) =~= lists_of(ls@));
}

impl IndexedResolver {
    /// Serialize the precomputed index (concepts, parent edges, and the full
    /// ancestor closure) to a compact, deterministic byte string.
    pub fn to_index_bytes(&self) -> (out: Vec<u8>)
        ensures
            out@ == index_bytes(self@),
    {
        let nodes = self.node_vec();
        let mut out: Vec<u8> = Vec::new();
        out.push(80u8);
        out.push(83u8);
        out.push(73u8);
        out.push(49u8);
        if self.is_strict() {
            out.push(1u8);
        } else {
            out.push(0u8);
        }
        put_u32(&mut out, nodes.len() as u32);
        let ghost start = out@;
        let mut k: usize = 0;
        assert(names_of(nodes@).take(0) =~= Seq::<Seq<char>>::empty());
        assert(start + enc_names(Seq::<Seq<char>>::empty()) =~= start);
        while k < nodes.len()
            invariant
                k <= nodes@.len(),
                out@ == start + enc_names(names_of(nodes@).take(k as int)),
            decreases nodes@.len() - k,
        {
            put_str(&mut out, nodes[k].as_str());
            assert(names_of(nodes@).take(k + 1).drop_last() =~= names_of(nodes@).take(k as int));
            assert(out@ =~= start + enc_names(names_of(nodes@).take(k + 1)));
            k = k + 1;
        }
        assert(names_of(nodes@).take(nodes@.len() as int) =~= names_of(nodes@));
        put_lists(&mut out, self.parent_vec());
        put_lists(&mut out, self.ancestor_vec());
        assert(out@ =~= index_bytes(self@));
        out
    }
}


/// A `u32` at the front of `s`, and what follows it.
pub open spec fn dec_u32(s: Seq<u8>) -> Option<(u32, Seq<u8>)> {
    if s.len() >= 4 {
        Some((be32_value(s.take(4)), s.skip(4)))
    } else {
        None
    }
}

/// A length-prefixed UTF-8 name at the front of `s`.
pub open spec fn dec_name(s: Seq<u8>) -> Result<(Seq<char>, Seq<u8>), IndexDecodeError> {
    match dec_u32(s) {
        None => Err(IndexDecodeError::Truncated),
        Some((len, r)) => if r.len() < len {
            Err(IndexDecodeError::Truncated)
        } else if !valid_utf8(r.take(len as int)) {
            Err(IndexDecodeError::BadUtf8)
        } else {
            Ok((decode_utf8(r.take(len as int)), r.skip(len as int)))
        },
    }
}

/// `k` names, one after another.
pub open spec fn dec_names(s: Seq<u8>, k: nat) -> Result<(Seq<Seq<char>>, Seq<u8>), IndexDecodeError>
    decreases k,
{
    if k == 0 {
        Ok((seq![], s))
    } else {
        match dec_names(s, (k - 1) as nat) {
            Err(e) => Err(e),
            Ok((ns, r)) => match dec_name(r) {
                Err(e) => Err(e),
                Ok((x, r2)) => Ok((ns.push(x), r2)),
            },
        }
    }
}

/// A position below `n`.
pub open spec fn dec_pos(s: Seq<u8>, n: nat) -> Result<(usize, Seq<u8>), IndexDecodeError> {
    match dec_u32(s) {
        None => Err(IndexDecodeError::Truncated),
        Some((x, r)) => if x >= n {
            Err(IndexDecodeError::BadNodeIndex)
        } else {
            Ok((x as usize, r))
        },
    }
}

/// `k` positions below `n`, one after another.
pub open spec fn dec_items(s: Seq<u8>, k: nat, n: nat) -> Result<(Seq<usize>, Seq<u8>), IndexDecodeError>
    decreases k,
{
    if k == 0 {
        Ok((seq![], s))
    } else {
        match dec_items(s, (k - 1) as nat, n) {
            Err(e) => Err(e),
            Ok((l, r)) => match dec_pos(r, n) {
                Err(e) => Err(e),
                Ok((x, r2)) => Ok((l.push(x), r2)),
            },
        }
    }
}

/// A list of positions below `n`.
pub open spec fn dec_list(s: Seq<u8>, n: nat) -> Result<(Seq<usize>, Seq<u8>), IndexDecodeError> {
    match dec_u32(s) {
        None => Err(IndexDecodeError::Truncated),
        Some((c, r)) => dec_items(r, c as nat, n),
    }
}

/// `k` lists, one after another.
pub open spec fn dec_lists(s: Seq<u8>, k: nat, n: nat) -> Result<(Seq<Seq<usize>>, Seq<u8>), IndexDecodeError>
    decreases k,
{
    if k == 0 {
        Ok((seq![], s))
    } else {
        match dec_lists(s, (k - 1) as nat, n) {
            Err(e) => Err(e),
            Ok((ls, r)) => match dec_list(r, n) {
                Err(e) => Err(e),
                Ok((l, r2)) => Ok((ls.push(l), r2)),
            },
        }
    }
}

/// What a persisted index holds, entry by entry, before it is normalized.
pub struct RawIndex {
    pub strict: bool,
    pub names: Seq<Seq<char>>,
    pub parents: Seq<Seq<usize>>,
    pub ancestors: Seq<Seq<usize>>,
}

/// Reading a persisted index: its entries, or the first error met reading
/// the bytes in order. Bytes after the last list are ignored.
pub open spec fn decode_index(s: Seq<u8>) -> Result<RawIndex, IndexDecodeError> {
    if s.len() < 4 {
        Err(IndexDecodeError::Truncated)
    } else if s.take(4) != index_magic() {
        Err(IndexDecodeError::BadHeader)
    } else if s.len() < 5 {
        Err(IndexDecodeError::Truncated)
    } else {
        match dec_u32(s.skip(5)) {
            None => Err(IndexDecodeError::Truncated),
            Some((n, r)) => match dec_names(r, n as nat) {
                Err(e) => Err(e),
                Ok((names, r2)) => match dec_lists(r2, n as nat, n as nat) {
                    Err(e) => Err(e),
                    Ok((ps, r3)) => match dec_lists(r3, n as nat, n as nat) {
                        Err(e) => Err(e),
                        Ok((an, _)) => Ok(
                            RawIndex { strict: s[4] != 0, names, parents: ps, ancestors: an },
                        ),
                    },
                },
            },
        }
    }
}

/// `core::str::from_utf8`. Per its documentation it succeeds exactly when
/// the bytes are well-formed UTF-8, and the string it returns is those bytes;
/// the contract says so with vstd's model of UTF-8.
#[verifier::external_body]
fn str_from_utf8<'a>(b: &'a [u8]) -> (r: Option<&'a str>)
    ensures
        r is Some <==> valid_utf8(b@),
        r matches Some(s) ==> s@ == decode_utf8(b@),
{
    match core::str::from_utf8(b) {
        Ok(s) => Some(s),
        Err(_) => None,
    }
}

/// Splits off the first `n` bytes of `input`.
pub fn take_idx<'a>(input: &mut &'a [u8], n: usize) -> (r: Result<&'a [u8], IndexDecodeError>)
    ensures
        old(input)@.len() < n ==> r == Err::<&[u8], IndexDecodeError>(IndexDecodeError::Truncated)
            && final(input)@ == old(input)@,
        old(input)@.len() >= n ==> (r matches Ok(h) && h@ == old(input)@.take(n as int))
            && final(input)@ == old(input)@.skip(n as int),
{
    if input.len() < n {
        return Err(IndexDecodeError::Truncated);
    }
    let (head, tail) = input.split_at(n);
    *input = tail;
    assert(head@ =~= old(input)@.take(n as int));
    assert(tail@ =~= old(input)@.skip(n as int));
    Ok(head)
}

/// Reads one byte.
pub fn get_u8_idx(input: &mut &[u8]) -> (r: Result<u8, IndexDecodeError>)
    ensures
        old(input)@.len() < 1 ==> r == Err::<u8, IndexDecodeError>(IndexDecodeError::Truncated) && final(input)@ == old(input)@,
        old(input)@.len() >= 1 ==> r == Ok::<u8, IndexDecodeError>(old(input)@[0]) && final(input)@
            == old(input)@.skip(1),
{
    let b = take_idx(input, 1)?;
    Ok(b[0])
}

/// Reads a big-endian `u32`.
pub fn get_u32_idx(input: &mut &[u8]) -> (r: Result<u32, IndexDecodeError>)
    ensures
        match dec_u32(old(input)@) {
            None => r == Err::<u32, IndexDecodeError>(IndexDecodeError::Truncated) && final(input)@ == old(input)@,
            Some((v, rest)) => r == Ok::<u32, IndexDecodeError>(v) && final(input)@ == rest,
        },
{
    let b = take_idx(input, 4)?;
    Ok(((b[0] as u32) << 24u32) | ((b[1] as u32) << 16u32) | ((b[2] as u32) << 8u32) | (b[3] as u32))
}

/// Reads a length-prefixed UTF-8 string.
fn get_str_idx(input: &mut &[u8]) -> (r: Result<String, IndexDecodeError>)
    ensures
        match dec_name(old(input)@) {
            Err(e) => r matches Err(e2) && e2 == e,
            Ok((x, rest)) => r matches Ok(s) && s@ == x && final(input)@ == rest,
        },
{
    let len = get_u32_idx(input)? as usize;
    let b = take_idx(input, len)?;
    match str_from_utf8(b) {
        Some(s) => Ok(s.to_owned()),
        None => Err(IndexDecodeError::BadUtf8),
    }
}

/// Reads a list of positions below `n`.
fn get_list_idx(input: &mut &[u8], n: usize) -> (r: Result<Vec<usize>, IndexDecodeError>)
    ensures
        match dec_list(old(input)@, n as nat) {
            Err(e) => r matches Err(e2) && e2 == e,
            Ok((l, rest)) => r matches Ok(v) && v@ == l && final(input)@ == rest,
        },
{
    let ghost s_in = input@;
    let count = get_u32_idx(input)?;
    let ghost s0 = input@;
    assert(dec_list(s_in, n as nat) == dec_items(s0, count as nat, n as nat));
    let mut out: Vec<usize> = Vec::new();
    let mut k: u32 = 0;
    while k < count
        invariant
            k <= count,
            dec_list(old(input)@, n as nat) == dec_items(s0, count as nat, n as nat),
            dec_items(s0, k as nat, n as nat) == Ok::<(Seq<usize>, Seq<u8>), IndexDecodeError>((out@, input@)),
        decreases count - k,
    {
        let ghost before = input@;
        let x = match get_u32_idx(input) {
            Ok(x) => x,
            Err(e) => {
                proof {
                    assert(dec_pos(before, n as nat) == Err::<(usize, Seq<u8>), IndexDecodeError>(e));
                    assert(dec_items(s0, (k + 1) as nat, n as nat) == Err::<(Seq<usize>, Seq<u8>), IndexDecodeError>(e));
                    lemma_dec_items_sticky(s0, (k + 1) as nat, count as nat, n as nat);
                }
                return Err(e);
            },
        };
        if x as usize >= n {
            proof {
                assert(dec_pos(before, n as nat) == Err::<(usize, Seq<u8>), IndexDecodeError>(IndexDecodeError::BadNodeIndex));
                assert(dec_items(s0, (k + 1) as nat, n as nat) == Err::<(Seq<usize>, Seq<u8>), IndexDecodeError>(IndexDecodeError::BadNodeIndex));
                lemma_dec_items_sticky(s0, (k + 1) as nat, count as nat, n as nat);
            }
            return Err(IndexDecodeError::BadNodeIndex);
        }
        out.push(x as usize);
        k = k + 1;
    }
    Ok(out)
}

/// Reads `k` lists of positions below `n`.
fn get_lists_idx(input: &mut &[u8], k: usize, n: usize) -> (r: Result<Vec<Vec<usize>>, IndexDecodeError>)
    ensures
        match dec_lists(old(input)@, k as nat, n as nat) {
            Err(e) => r matches Err(e2) && e2 == e,
            Ok((ls, rest)) => r matches Ok(v) && lists_of(v@) == ls && final(input)@ == rest,
        },
{
    let ghost s0 = input@;
    assert(s0 == old(input)@);
    let mut out: Vec<Vec<usize>> = Vec::new();
    let mut i: usize = 0;
    assert(lists_of(out@) =~= Seq::<Seq<usize>>::empty());
    while i < k
        invariant
            i <= k,
            s0 == old(input)@,
            dec_lists(s0, i as nat, n as nat) == Ok::<(Seq<Seq<usize>>, Seq<u8>), IndexDecodeError>((lists_of(out@), input@)),
        decreases k - i,
    {
        let l = match get_list_idx(input, n) {
            Ok(l) => l,
            Err(e) => {
                proof {
                    assert(dec_lists(s0, (i + 1) as nat, n as nat) == Err::<(Seq<Seq<usize>>, Seq<u8>), IndexDecodeError>(e));
                    lemma_dec_lists_sticky(s0, (i + 1) as nat, k as nat, n as nat);
                }
                return Err(e);
            },
        };
        out.push(l);
        assert(lists_of(out@) =~= dec_lists(s0, i as nat, n as nat)->Ok_0.0.push(l@));
        i = i + 1;
    }
    Ok(out)
}

proof fn lemma_dec_items_sticky(s: Seq<u8>, k: nat, k2: nat, n: nat)
    requires
        k <= k2,
        dec_items(s, k, n) is Err,
    ensures
        dec_items(s, k2, n) == dec_items(s, k, n),
    decreases k2,
{
    if k2 > k {
        lemma_dec_items_sticky(s, k, (k2 - 1) as nat, n);
    }
}

proof fn lemma_dec_lists_sticky(s: Seq<u8>, k: nat, k2: nat, n: nat)
    requires
        k <= k2,
        dec_lists(s, k, n) is Err,
    ensures
        dec_lists(s, k2, n) == dec_lists(s, k, n),
    decreases k2,
{
    if k2 > k {
        lemma_dec_lists_sticky(s, k, (k2 - 1) as nat, n);
    }
}

proof fn lemma_dec_names_shape(s: Seq<u8>, k: nat)
    ensures
        dec_names(s, k) matches Ok((ns, _)) ==> ns.len() == k,
    decreases k,
{
    if k > 0 {
        lemma_dec_names_shape(s, (k - 1) as nat);
    }
}

proof fn lemma_dec_items_shape(s: Seq<u8>, k: nat, n: nat)
    ensures
        dec_items(s, k, n) matches Ok((l, _)) ==> l.len() == k && forall|t: int| 0 <= t < l.len() ==> l[t] < n,
    decreases k,
{
    if k > 0 {
        lemma_dec_items_shape(s, (k - 1) as nat, n);
    }
}

proof fn lemma_dec_lists_shape(s: Seq<u8>, k: nat, n: nat)
    ensures
        dec_lists(s, k, n) matches Ok((ls, _)) ==> ls.len() == k && forall|i: int, t: int| 0 <= i < ls.len() && 0 <= t < ls[i].len() ==> #[trigger] ls[i][t] < n,
    decreases k,
{
    if k > 0 {
        lemma_dec_lists_shape(s, (k - 1) as nat, n);
        if let Ok((ls, r)) = dec_lists(s, (k - 1) as nat, n) {
            if let Some((c, r2)) = dec_u32(r) {
                lemma_dec_items_shape(r2, c as nat, n);
            }
        }
    }
}

proof fn lemma_dec_names_sticky(s: Seq<u8>, k: nat, k2: nat)
    requires
        k <= k2,
        dec_names(s, k) is Err,
    ensures
        dec_names(s, k2) == dec_names(s, k),
    decreases k2,
{
    if k2 > k {
        lemma_dec_names_sticky(s, k, (k2 - 1) as nat);
    }
}


/// The last entry `k < upto` naming `x` (with a non-empty list, when asked):
/// the one whose list a reload keeps.
pub open spec fn last_entry(names: Seq<Seq<char>>, lists: Seq<Seq<usize>>, x: Seq<char>, nonempty: bool, upto: int) -> Option<int>
    decreases upto,
{
    if upto <= 0 {
        None
    } else if names[upto - 1] == x && (!nonempty || lists[upto - 1].len() > 0) {
        Some(upto - 1)
    } else {
        last_entry(names, lists, x, nonempty, upto - 1)
    }
}

/// The concepts named by an entry's list, as positions among `sorted`.
pub open spec fn entry_positions(sorted: Seq<Seq<char>>, names: Seq<Seq<char>>, lists: Seq<Seq<usize>>, e: Option<int>) -> Set<usize> {
    match e {
        None => Set::empty(),
        Some(k) => lists[k].map_values(|t: usize| name_pos(sorted, names[t as int]) as usize).to_set(),
    }
}

/// `v` is what reloading the entries of `raw` gives: the distinct concepts
/// in order; for each, the parents of the last entry naming it with a
/// non-empty parent list (none if there is none), and the ancestors of the
/// last entry naming it.
pub open spec fn normalizes(raw: RawIndex, v: ResolverView) -> bool {
    let m = raw.names.len();
    &&& v.wf()
    &&& v.strict == raw.strict
    &&& v.names.to_set() == raw.names.to_set()
    &&& forall|i: int| 0 <= i < v.names.len() ==> #[trigger] v.parents[i].to_set() == entry_positions(
        v.names,
        raw.names,
        raw.parents,
        last_entry(raw.names, raw.parents, v.names[i], true, m as int),
    )
    &&& forall|i: int| 0 <= i < v.names.len() ==> #[trigger] v.ancestors[i].to_set() == entry_positions(
        v.names,
        raw.names,
        raw.ancestors,
        last_entry(raw.names, raw.ancestors, v.names[i], false, m as int),
    )
}

/// The positions of the concepts an entry's list names, ascending.
fn positions(l: &Vec<usize>, pos: &Vec<usize>, n: usize) -> (r: Vec<usize>)
    requires
        forall|t: int| 0 <= t < l@.len() ==> l@[t] < pos@.len(),
        forall|t: int| 0 <= t < pos@.len() ==> pos@[t] < n,
    ensures
        sorted_idx(r@),
        idx_below(r@, n as int),
        r@.to_set() == l@.map_values(|t: usize| pos@[t as int]).to_set(),
{
    let ghost target = l@.map_values(|t: usize| pos@[t as int]);
    let mut r: Vec<usize> = Vec::new();
    let mut k: usize = 0;
    assert(target.take(0).to_set() =~= Set::empty());
    while k < l.len()
        invariant
            k <= l@.len(),
            target == l@.map_values(|t: usize| pos@[t as int]),
            forall|t: int| 0 <= t < l@.len() ==> l@[t] < pos@.len(),
            forall|t: int| 0 <= t < pos@.len() ==> pos@[t] < n,
            sorted_idx(r@),
            r@.to_set() == target.take(k as int).to_set(),
        decreases l@.len() - k,
    {
        insert_idx(&mut r, pos[l[k]]);
        proof {
            assert(target.take(k + 1) =~= target.take(k as int).push(target[k as int]));
            let a = target.take(k as int);
            let b = target.take(k + 1);
            assert(b.to_set() =~= a.to_set().insert(target[k as int])) by {
                assert forall|x| b.to_set().contains(x) implies a.to_set().insert(target[k as int]).contains(x) by {
                    let t = choose|t: int| 0 <= t < b.len() && b[t] == x;
                    if t < k {
                        assert(a[t] == x);
                    }
                }
                assert forall|x| a.to_set().insert(target[k as int]).contains(x) implies b.to_set().contains(x) by {
                    if x == target[k as int] {
                        assert(b[k as int] == x);
                    } else {
                        let t = choose|t: int| 0 <= t < a.len() && a[t] == x;
                        assert(b[t] == x);
                    }
                }
            }
        }
        k = k + 1;
    }
    assert(target.take(l@.len() as int) =~= target);
    assert forall|t: int| 0 <= t < r@.len() implies r@[t] < n by {
        assert(r@.to_set().contains(r@[t]));
        let u = choose|u: int| 0 <= u < target.len() && target[u] == r@[t];
    }
    r
}

/// One entry taken into account: its concept's list becomes the entry's
/// positions (when its list counts), every other concept's list stays.
proof fn lemma_normalize_step(
    nn: Seq<Seq<char>>,
    rn: Seq<Seq<char>>,
    lists: Seq<Seq<usize>>,
    pos: Seq<usize>,
    k: int,
    before: Seq<Seq<usize>>,
    after: Seq<Seq<usize>>,
    nonempty: bool,
)
    requires
        sorted_names(nn),
        0 <= k < rn.len(),
        lists.len() == rn.len(),
        pos.len() == rn.len(),
        forall|t: int| 0 <= t < rn.len() ==> #[trigger] pos[t] < nn.len() && nn[pos[t] as int] == rn[t] && name_pos(nn, rn[t]) == pos[t] as int,
        forall|t: int| 0 <= t < lists[k].len() ==> #[trigger] lists[k][t] < rn.len(),
        before.len() == nn.len(),
        forall|i: int| 0 <= i < nn.len() ==> #[trigger] before[i].to_set() == entry_positions(nn, rn, lists, last_entry(rn, lists, nn[i], nonempty, k)) && sorted_idx(before[i]) && idx_below(before[i], nn.len() as int),
        (!nonempty || lists[k].len() > 0) ==> exists|l: Seq<usize>| after == before.update(pos[k] as int, l) && sorted_idx(l) && idx_below(l, nn.len() as int) && l.to_set() == lists[k].map_values(|t: usize| pos[t as int]).to_set(),
        !(!nonempty || lists[k].len() > 0) ==> after == before,
    ensures
        after.len() == nn.len(),
        forall|i: int| 0 <= i < nn.len() ==> #[trigger] after[i].to_set() == entry_positions(nn, rn, lists, last_entry(rn, lists, nn[i], nonempty, k + 1)) && sorted_idx(after[i]) && idx_below(after[i], nn.len() as int),
{
    let p = pos[k] as int;
    let counts = !nonempty || lists[k].len() > 0;
    assert(lists[k].map_values(|t: usize| pos[t as int]) =~= lists[k].map_values(|t: usize| name_pos(nn, rn[t as int]) as usize)) by {
        assert forall|t: int| 0 <= t < lists[k].len() implies #[trigger] pos[lists[k][t] as int] == name_pos(nn, rn[lists[k][t] as int]) as usize by {
            assert(lists[k][t] < rn.len());
        }
    }
    assert forall|i: int| 0 <= i < nn.len() implies #[trigger] after[i].to_set() == entry_positions(nn, rn, lists, last_entry(rn, lists, nn[i], nonempty, k + 1)) && sorted_idx(after[i]) && idx_below(after[i], nn.len() as int) by {
        assert(before[i].to_set() == entry_positions(nn, rn, lists, last_entry(rn, lists, nn[i], nonempty, k)));
        if i == p {
            assert(nn[i] == rn[k]);
            if counts {
                assert(last_entry(rn, lists, nn[i], nonempty, k + 1) == Some(k));
                let l = choose|l: Seq<usize>| after == before.update(pos[k] as int, l) && sorted_idx(l) && idx_below(l, nn.len() as int) && l.to_set() == lists[k].map_values(|t: usize| pos[t as int]).to_set();
                assert(after[i] == l);
            } else {
                assert(last_entry(rn, lists, nn[i], nonempty, k + 1) == last_entry(rn, lists, nn[i], nonempty, k));
            }
        } else {
            assert(nn[i] != rn[k]) by {
                lemma_sorted_names_distinct(nn, i, p);
            }
            assert(last_entry(rn, lists, nn[i], nonempty, k + 1) == last_entry(rn, lists, nn[i], nonempty, k));
            if counts {
                let l = choose|l: Seq<usize>| after == before.update(pos[k] as int, l) && sorted_idx(l) && idx_below(l, nn.len() as int) && l.to_set() == lists[k].map_values(|t: usize| pos[t as int]).to_set();
                assert(after[i] == before[i]);
            }
        }
    }
}

/// Rebuilds a resolver from decoded entries (see [`normalizes`]).
fn normalize(names: &Vec<String>, praw: &Vec<Vec<usize>>, araw: &Vec<Vec<usize>>, strict: bool) -> (r: IndexedResolver)
    requires
        praw@.len() == names@.len(),
        araw@.len() == names@.len(),
        forall|k: int, t: int| 0 <= k < praw@.len() && 0 <= t < praw@[k]@.len() ==> #[trigger] praw@[k]@[t] < names@.len(),
        forall|k: int, t: int| 0 <= k < araw@.len() && 0 <= t < araw@[k]@.len() ==> #[trigger] araw@[k]@[t] < names@.len(),
    ensures
        normalizes(RawIndex { strict, names: names_of(names@), parents: lists_of(praw@), ancestors: lists_of(araw@) }, r@),
{
    let ghost rn = names_of(names@);
    let ghost rp = lists_of(praw@);
    let ghost ra = lists_of(araw@);
    let m = names.len();
    // The distinct concepts, in order.
    let mut nodes: Vec<String> = Vec::new();
    let mut k: usize = 0;
    assert(rn.take(0).to_set() =~= Set::empty());
    assert(names_of(nodes@).to_set() =~= Set::empty());
    while k < m
        invariant
            m == names@.len(),
            rn == names_of(names@),
            k <= m,
            sorted_names(names_of(nodes@)),
            names_of(nodes@).to_set() == rn.take(k as int).to_set(),
        decreases m - k,
    {
        insert_name(&mut nodes, names[k].as_str());
        proof {
            let a = rn.take(k as int);
            let b = rn.take(k + 1);
            assert(b =~= a.push(rn[k as int]));
            assert forall|x| b.to_set().contains(x) implies a.to_set().insert(rn[k as int]).contains(x) by {
                let t = choose|t: int| 0 <= t < b.len() && b[t] == x;
                if t < k {
                    assert(a[t] == x);
                }
            }
            assert forall|x| a.to_set().insert(rn[k as int]).contains(x) implies b.to_set().contains(x) by {
                if x == rn[k as int] {
                    assert(b[k as int] == x);
                } else {
                    let t = choose|t: int| 0 <= t < a.len() && a[t] == x;
                    assert(b[t] == x);
                }
            }
            assert(b.to_set() =~= a.to_set().insert(rn[k as int]));
        }
        k = k + 1;
    }
    assert(rn.take(m as int) =~= rn);
    let n = nodes.len();
    let ghost nn = names_of(nodes@);
    // Where each entry's concept stands.
    let mut pos: Vec<usize> = Vec::new();
    k = 0;
    while k < m
        invariant
            m == names@.len(),
            rn == names_of(names@),
            nn == names_of(nodes@),
            n == nodes@.len(),
            sorted_names(nn),
            nn.to_set() == rn.to_set(),
            k <= m,
            pos@.len() == k,
            forall|t: int| 0 <= t < k ==> #[trigger] pos@[t] < n && nn[pos@[t] as int] == rn[t] && name_pos(nn, rn[t]) == pos@[t] as int,
        decreases m - k,
    {
        proof {
            assert(rn.to_set().contains(rn[k as int]));
            assert(nn.to_set().contains(rn[k as int]));
        }
        let i = match find_name(&nodes, names[k].as_str()) {
            Ok(i) => i,
            Err(_) => {
                assert(false);
                0
            },
        };
        proof {
            lemma_name_pos(nn, i as int);
        }
        pos.push(i);
        k = k + 1;
    }
    // The lists, each from the last entry naming its concept.
    let mut parents: Vec<Vec<usize>> = Vec::new();
    let mut ancestors: Vec<Vec<usize>> = Vec::new();
    let mut z: usize = 0;
    while z < n
        invariant
            z <= n,
            parents@.len() == z,
            ancestors@.len() == z,
            forall|i: int| 0 <= i < z ==> #[trigger] parents@[i]@ == Seq::<usize>::empty(),
            forall|i: int| 0 <= i < z ==> #[trigger] ancestors@[i]@ == Seq::<usize>::empty(),
        decreases n - z,
    {
        parents.push(Vec::new());
        ancestors.push(Vec::new());
        z = z + 1;
    }
    proof {
        assert forall|i: int| 0 <= i < n implies #[trigger] lists_of(parents@)[i].to_set() == entry_positions(nn, rn, rp, last_entry(rn, rp, nn[i], true, 0)) && sorted_idx(lists_of(parents@)[i]) && idx_below(lists_of(parents@)[i], n as int) by {
            assert(lists_of(parents@)[i] == parents@[i]@);
            assert(lists_of(parents@)[i].to_set() =~= Set::empty());
        }
        assert forall|i: int| 0 <= i < n implies #[trigger] lists_of(ancestors@)[i].to_set() == entry_positions(nn, rn, ra, last_entry(rn, ra, nn[i], false, 0)) && sorted_idx(lists_of(ancestors@)[i]) && idx_below(lists_of(ancestors@)[i], n as int) by {
            assert(lists_of(ancestors@)[i] == ancestors@[i]@);
            assert(lists_of(ancestors@)[i].to_set() =~= Set::empty());
        }
    }
    k = 0;
    while k < m
        invariant
            m == names@.len(),
            rn == names_of(names@),
            rp == lists_of(praw@),
            ra == lists_of(araw@),
            praw@.len() == m,
            araw@.len() == m,
            forall|k2: int, t: int| 0 <= k2 < praw@.len() && 0 <= t < praw@[k2]@.len() ==> #[trigger] praw@[k2]@[t] < m,
            forall|k2: int, t: int| 0 <= k2 < araw@.len() && 0 <= t < araw@[k2]@.len() ==> #[trigger] araw@[k2]@[t] < m,
            nn == names_of(nodes@),
            n == nodes@.len(),
            sorted_names(nn),
            nn.to_set() == rn.to_set(),
            pos@.len() == m,
            forall|t: int| 0 <= t < m ==> #[trigger] pos@[t] < n && nn[pos@[t] as int] == rn[t] && name_pos(nn, rn[t]) == pos@[t] as int,
            k <= m,
            parents@.len() == n,
            ancestors@.len() == n,
            forall|i: int| 0 <= i < n ==> #[trigger] lists_of(parents@)[i].to_set() == entry_positions(nn, rn, rp, last_entry(rn, rp, nn[i], true, k as int)) && sorted_idx(lists_of(parents@)[i]) && idx_below(lists_of(parents@)[i], n as int),
            forall|i: int| 0 <= i < n ==> #[trigger] lists_of(ancestors@)[i].to_set() == entry_positions(nn, rn, ra, last_entry(rn, ra, nn[i], false, k as int)) && sorted_idx(lists_of(ancestors@)[i]) && idx_below(lists_of(ancestors@)[i], n as int),
        decreases m - k,
    {
        let p = pos[k];
        let ghost pb = lists_of(parents@);
        let ghost ab = lists_of(ancestors@);
        proof {
            assert forall|t: int| 0 <= t < praw@[k as int]@.len() implies praw@[k as int]@[t] < pos@.len() by {
                assert(praw@[k as int]@[t] < m);
            }
            assert forall|t: int| 0 <= t < araw@[k as int]@.len() implies araw@[k as int]@[t] < pos@.len() by {
                assert(araw@[k as int]@[t] < m);
            }
            assert forall|t: int| 0 <= t < pos@.len() implies pos@[t] < n by {
                assert(pos@[t] < n && nn[pos@[t] as int] == rn[t]);
            }
        }
        if praw[k].len() > 0 {
            let l = positions(&praw[k], &pos, n);
            let ghost lv = l@;
            parents.set(p, l);
            assert(lists_of(parents@) =~= pb.update(p as int, lv));
        } else {
            assert(lists_of(parents@) =~= pb);
        }
        let l = positions(&araw[k], &pos, n);
        let ghost lv = l@;
        ancestors.set(p, l);
        assert(lists_of(ancestors@) =~= ab.update(p as int, lv));
        proof {
            assert(rp[k as int] == praw@[k as int]@);
            assert(ra[k as int] == araw@[k as int]@);
            assert forall|t: int| 0 <= t < m implies pos@[t] < n && nn[pos@[t] as int] == rn[t] && name_pos(nn, rn[t]) == pos@[t] as int by {
                assert(pos@[t] < n && nn[pos@[t] as int] == rn[t] && name_pos(nn, rn[t]) == pos@[t] as int);
            }
            lemma_normalize_step(nn, rn, rp, pos@, k as int, pb, lists_of(parents@), true);
            lemma_normalize_step(nn, rn, ra, pos@, k as int, ab, lists_of(ancestors@), false);
        }
        k = k + 1;
    }
    proof {
        let v = ResolverView {
            names: names_of(nodes@),
            parents: lists_of(parents@),
            ancestors: lists_of(ancestors@),
            strict,
        };
        assert(v.names == nn);
        assert forall|i: int| 0 <= i < n implies sorted_idx(#[trigger] v.parents[i]) && idx_below(v.parents[i], n as int) by {
            assert(lists_of(parents@)[i].to_set() == entry_positions(nn, rn, rp, last_entry(rn, rp, nn[i], true, k as int)));
        }
        assert forall|i: int| 0 <= i < n implies sorted_idx(#[trigger] v.ancestors[i]) && idx_below(v.ancestors[i], n as int) by {
            assert(lists_of(ancestors@)[i].to_set() == entry_positions(nn, rn, ra, last_entry(rn, ra, nn[i], false, k as int)));
        }
        assert(v.wf());
        assert(rn.len() == m);
    }
    IndexedResolver::from_parts(nodes, parents, ancestors, strict)
}


impl IndexedResolver {
    /// Reload a resolver from [`IndexedResolver::to_index_bytes`] with no
    /// closure recomputation.
    pub fn from_index_bytes(bytes: &[u8]) -> (r: Result<IndexedResolver, IndexDecodeError>)
        ensures
            match decode_index(bytes@) {
                Err(e) => r matches Err(e2) && e2 == e,
                Ok(raw) => r matches Ok(res) && normalizes(raw, res@),
            },
    {
        let mut cur = bytes;
        let header = take_idx(&mut cur, 4)?;
        if !(header[0] == 80u8 && header[1] == 83u8 && header[2] == 73u8 && header[3] == 49u8) {
            assert(header@ != index_magic()) by {
                if header@ == index_magic() {
                    assert(header@[0] == 80u8 && header@[1] == 83u8 && header@[2] == 73u8 && header@[3] == 49u8);
                }
            }
            return Err(IndexDecodeError::BadHeader);
        }
        assert(header@ =~= index_magic());
        let ghost after_header = cur@;
        let strict = get_u8_idx(&mut cur)? != 0;
        assert(cur@ =~= bytes@.skip(5));
        assert(bytes@.take(4) =~= header@);
        let n32 = get_u32_idx(&mut cur)?;
        let n = n32 as usize;
        let ghost s1 = cur@;
        let mut names: Vec<String> = Vec::new();
        let mut i: usize = 0;
        assert(names_of(names@) =~= Seq::<Seq<char>>::empty());
        while i < n
            invariant
                i <= n,
                n == n32 as usize,
                bytes@.len() >= 5,
                bytes@.take(4) == index_magic(),
                dec_u32(bytes@.skip(5)) == Some((n32, s1)),
                dec_names(s1, i as nat) == Ok::<(Seq<Seq<char>>, Seq<u8>), IndexDecodeError>((names_of(names@), cur@)),
            decreases n - i,
        {
            let x = match get_str_idx(&mut cur) {
                Ok(x) => x,
                Err(e) => {
                    proof {
                        assert(dec_names(s1, (i + 1) as nat) == Err::<(Seq<Seq<char>>, Seq<u8>), IndexDecodeError>(e));
                        lemma_dec_names_sticky(s1, (i + 1) as nat, n as nat);
                    }
                    return Err(e);
                },
            };
            let ghost before = names_of(names@);
            names.push(x);
            assert(names_of(names@) =~= before.push(x@));
            i = i + 1;
        }
        let ps = get_lists_idx(&mut cur, n, n)?;
        let an = get_lists_idx(&mut cur, n, n)?;
        proof {
            let s2 = dec_names(s1, n as nat)->Ok_0.1;
            let s3 = dec_lists(s2, n as nat, n as nat)->Ok_0.1;
            lemma_dec_names_shape(s1, n as nat);
            lemma_dec_lists_shape(s2, n as nat, n as nat);
            lemma_dec_lists_shape(s3, n as nat, n as nat);
            assert forall|k: int, t: int| 0 <= k < ps@.len() && 0 <= t < ps@[k]@.len() implies #[trigger] ps@[k]@[t] < names@.len() by {
                assert(lists_of(ps@)[k] == ps@[k]@);
            }
            assert forall|k: int, t: int| 0 <= k < an@.len() && 0 <= t < an@[k]@.len() implies #[trigger] an@[k]@[t] < names@.len() by {
                assert(lists_of(an@)[k] == an@[k]@);
            }
        }
        Ok(normalize(&names, &ps, &an, strict))
    }
}


/// Lengths that fit the format's `u32` fields.
pub open spec fn index_fits(v: ResolverView) -> bool {
    &&& v.names.len() <= u32::MAX
    &&& forall|i: int| 0 <= i < v.names.len() ==> encode_utf8(#[trigger] v.names[i]).len() <= u32::MAX
}

/// The entries a resolver writes.
pub open spec fn raw_of(v: ResolverView) -> RawIndex {
    RawIndex { strict: v.strict, names: v.names, parents: v.parents, ancestors: v.ancestors }
}

proof fn lemma_dec_u32_enc(x: u32, rest: Seq<u8>)
    ensures
        dec_u32(enc_u32(x) + rest) == Some((x, rest)),
{
    lemma_enc_u32_value(x);
    let s = enc_u32(x) + rest;
    assert(s.take(4) =~= enc_u32(x));
    assert(s.skip(4) =~= rest);
}

proof fn lemma_dec_name_enc(x: Seq<char>, rest: Seq<u8>)
    requires
        encode_utf8(x).len() <= u32::MAX,
    ensures
        dec_name(enc_name(x) + rest) == Ok::<(Seq<char>, Seq<u8>), IndexDecodeError>((x, rest)),
{
    let b = encode_utf8(x);
    let len = b.len() as u32;
    assert(enc_name(x) + rest =~= enc_u32(len) + (b + rest));
    lemma_dec_u32_enc(len, b + rest);
    assert((b + rest).take(len as int) =~= b);
    assert((b + rest).skip(len as int) =~= rest);
    encode_utf8_valid_utf8(x);
    encode_utf8_decode_utf8(x);
}

proof fn lemma_dec_names_enc(ns: Seq<Seq<char>>, rest: Seq<u8>)
    requires
        forall|i: int| 0 <= i < ns.len() ==> encode_utf8(#[trigger] ns[i]).len() <= u32::MAX,
    ensures
        dec_names(enc_names(ns) + rest, ns.len()) == Ok::<(Seq<Seq<char>>, Seq<u8>), IndexDecodeError>((ns, rest)),
    decreases ns.len(),
{
    if ns.len() > 0 {
        let init = ns.drop_last();
        let tail = enc_name(ns.last()) + rest;
        assert(enc_names(ns) + rest =~= enc_names(init) + tail);
        assert forall|i: int| 0 <= i < init.len() implies encode_utf8(#[trigger] init[i]).len() <= u32::MAX by {
            assert(init[i] == ns[i]);
        }
        lemma_dec_names_enc(init, tail);
        assert(encode_utf8(ns[ns.len() - 1]).len() <= u32::MAX);
        lemma_dec_name_enc(ns.last(), rest);
        assert(init.push(ns.last()) =~= ns);
    } else {
        assert(enc_names(ns) + rest =~= rest);
        assert(ns =~= seq![]);
    }
}

proof fn lemma_dec_items_enc(l: Seq<usize>, rest: Seq<u8>, n: nat)
    requires
        n <= u32::MAX,
        forall|t: int| 0 <= t < l.len() ==> l[t] < n,
    ensures
        dec_items(enc_items(l) + rest, l.len(), n) == Ok::<(Seq<usize>, Seq<u8>), IndexDecodeError>((l, rest)),
    decreases l.len(),
{
    if l.len() > 0 {
        let init = l.drop_last();
        let tail = enc_u32(l.last() as u32) + rest;
        assert(enc_items(l) + rest =~= enc_items(init) + tail);
        lemma_dec_items_enc(init, tail, n);
        lemma_dec_u32_enc(l.last() as u32, rest);
        assert(l[l.len() - 1] < n);
        assert(init.push(l.last()) =~= l);
    } else {
        assert(enc_items(l) + rest =~= rest);
        assert(l =~= seq![]);
    }
}

proof fn lemma_dec_lists_enc(ls: Seq<Seq<usize>>, rest: Seq<u8>, n: nat)
    requires
        n <= u32::MAX,
        forall|i: int| 0 <= i < ls.len() ==> (#[trigger] ls[i]).len() <= u32::MAX && forall|t: int| 0 <= t < ls[i].len() ==> ls[i][t] < n,
    ensures
        dec_lists(enc_lists(ls) + rest, ls.len(), n) == Ok::<(Seq<Seq<usize>>, Seq<u8>), IndexDecodeError>((ls, rest)),
    decreases ls.len(),
{
    if ls.len() > 0 {
        let init = ls.drop_last();
        let l = ls.last();
        let tail = enc_list(l) + rest;
        assert(enc_lists(ls) + rest =~= enc_lists(init) + tail);
        assert forall|i: int| 0 <= i < init.len() implies (#[trigger] init[i]).len() <= u32::MAX && forall|t: int| 0 <= t < init[i].len() ==> init[i][t] < n by {
            assert(init[i] == ls[i]);
        }
        lemma_dec_lists_enc(init, tail, n);
        assert(ls[ls.len() - 1] == l);
        assert(tail =~= enc_u32(l.len() as u32) + (enc_items(l) + rest));
        lemma_dec_u32_enc(l.len() as u32, enc_items(l) + rest);
        lemma_dec_items_enc(l, rest, n);
        assert(init.push(l) =~= ls);
    } else {
        assert(enc_lists(ls) + rest =~= rest);
        assert(ls =~= seq![]);
    }
}

/// In a list of distinct names, the last entry naming `names[i]` is `i`.
proof fn lemma_last_entry_distinct(names: Seq<Seq<char>>, lists: Seq<Seq<usize>>, i: int, nonempty: bool, upto: int)
    requires
        sorted_names(names),
        0 <= i < names.len(),
        upto <= names.len(),
    ensures
        last_entry(names, lists, names[i], nonempty, upto) == (if i < upto && (!nonempty || lists[i].len() > 0) {
            Some(i)
        } else {
            None::<int>
        }),
    decreases upto,
{
    if upto > 0 {
        if upto - 1 != i {
            lemma_sorted_names_distinct(names, upto - 1, i);
        }
        lemma_last_entry_distinct(names, lists, i, nonempty, upto - 1);
    }
}

/// A list's positions, named and found again, are the list itself.
proof fn lemma_entry_positions_self(v: ResolverView, lists: Seq<Seq<usize>>, i: int)
    requires
        v.wf(),
        0 <= i < lists.len(),
        forall|t: int| 0 <= t < lists[i].len() ==> lists[i][t] < v.names.len(),
    ensures
        entry_positions(v.names, v.names, lists, Some(i)) == lists[i].to_set(),
{
    let l = lists[i];
    let m = l.map_values(|t: usize| name_pos(v.names, v.names[t as int]) as usize);
    assert forall|t: int| 0 <= t < l.len() implies m[t] == l[t] by {
        lemma_name_pos(v.names, l[t] as int);
    }
    assert(m =~= l);
}

/// Writing a resolver's index and reading it back gives the same resolver:
/// the bytes decode without error, and the only resolver they normalize to
/// is the one written.
pub proof fn law_index_round_trip(v: ResolverView)
    requires
        v.wf(),
        index_fits(v),
    ensures
        decode_index(index_bytes(v)) == Ok::<RawIndex, IndexDecodeError>(raw_of(v)),
        forall|v2: ResolverView| #[trigger] normalizes(raw_of(v), v2) ==> v2 == v,
{
    let n = v.names.len();
    let s = index_bytes(v);
    let sb: u8 = if v.strict { 1u8 } else { 0u8 };
    // Every list holds distinct positions below n.
    assert forall|i: int| 0 <= i < n implies (#[trigger] v.parents[i]).len() <= u32::MAX && forall|t: int| 0 <= t < v.parents[i].len() ==> v.parents[i][t] < n by {
        assert(sorted_idx(v.parents[i]) && idx_below(v.parents[i], n as int));
        crate::graph::lemma_distinct_below_len(v.parents[i], n);
    }
    assert forall|i: int| 0 <= i < n implies (#[trigger] v.ancestors[i]).len() <= u32::MAX && forall|t: int| 0 <= t < v.ancestors[i].len() ==> v.ancestors[i][t] < n by {
        assert(sorted_idx(v.ancestors[i]) && idx_below(v.ancestors[i], n as int));
        crate::graph::lemma_distinct_below_len(v.ancestors[i], n);
    }
    let r3 = enc_lists(v.ancestors);
    let r2 = enc_lists(v.parents) + r3;
    let r1 = enc_names(v.names) + r2;
    assert(s =~= index_magic() + seq![sb] + (enc_u32(n as u32) + r1));
    assert(s.take(4) =~= index_magic());
    assert(s.skip(5) =~= enc_u32(n as u32) + r1);
    assert(s[4] == sb);
    lemma_dec_u32_enc(n as u32, r1);
    lemma_dec_names_enc(v.names, r2);
    lemma_dec_lists_enc(v.parents, r3, n);
    lemma_dec_lists_enc(v.ancestors, seq![], n);
    assert(r3 + seq![] =~= r3);
    assert(decode_index(s) == Ok::<RawIndex, IndexDecodeError>(raw_of(v)));
    assert forall|v2: ResolverView| #[trigger] normalizes(raw_of(v), v2) implies v2 == v by {
        lemma_sorted_names_unique(v2.names, v.names);
        assert forall|i: int| 0 <= i < n implies v2.parents[i] == v.parents[i] by {
            assert(v2.parents[i].to_set() == entry_positions(v2.names, v.names, v.parents, last_entry(v.names, v.parents, v2.names[i], true, n as int)));
            lemma_last_entry_distinct(v.names, v.parents, i, true, n as int);
            if v.parents[i].len() > 0 {
                lemma_entry_positions_self(v, v.parents, i);
            } else {
                assert(v.parents[i].to_set() =~= Set::empty());
            }
            lemma_sorted_idx_unique(v2.parents[i], v.parents[i]);
        }
        assert forall|i: int| 0 <= i < n implies v2.ancestors[i] == v.ancestors[i] by {
            assert(v2.ancestors[i].to_set() == entry_positions(v2.names, v.names, v.ancestors, last_entry(v.names, v.ancestors, v2.names[i], false, n as int)));
            lemma_last_entry_distinct(v.names, v.ancestors, i, false, n as int);
            lemma_entry_positions_self(v, v.ancestors, i);
            lemma_sorted_idx_unique(v2.ancestors[i], v.ancestors[i]);
        }
        assert(v2.parents =~= v.parents);
        assert(v2.ancestors =~= v.ancestors);
    }
}

} // verus!
