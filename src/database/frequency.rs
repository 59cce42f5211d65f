//! Per-article word counts, appended to a spill file, and their inversion
//! into per-word occurrence lists.
use vstd::prelude::*;
use std::collections::HashMap;
use super::error::{ErrorKind, Result};
use super::read::{Dict, dict_get, lower_of, lowercase, words_of};

verus! {

broadcast use vstd::std_specs::hash::group_hash_axioms;

/// The pattern of a word: a maximal run of non-space characters between
/// word boundaries.
pub const WORD_PATTERN: &'static str = "\\b[^\\s]+\\b";

/// The matches of `pattern` in `text`, leftmost first and not overlapping,
/// as the regex crate finds them; none where the pattern does not compile.
pub uninterp spec fn regex_matches(pattern: Seq<char>, text: Seq<char>) -> Seq<Seq<char>>;

/// Relies on `regex::Regex::new` and `Regex::find_iter`: the text of each
/// match, in order.
#[verifier::external_body]
pub(crate) fn find_matches(pattern: &str, text: &str) -> (r: Vec<String>)
    ensures
        r@.map_values(|s: String| s@) == regex_matches(pattern@, text@),
{
    match regex::Regex::new(pattern) {
        Ok(re) => re.find_iter(text).map(|m| m.as_str().to_string()).collect(),
        Err(_) => Vec::new(),
    }
}

/// The little-endian bytes of `v`, `n` of them.
pub open spec fn le_bytes(v: nat, n: nat) -> Seq<u8>
    decreases n,
{
    if n == 0 {
        Seq::empty()
    } else {
        seq![(v % 256) as u8] + le_bytes(v / 256, (n - 1) as nat)
    }
}

/// The bytes of the pairs of a count list, one after another.
pub open spec fn entries_bytes(es: Seq<(u32, u16)>) -> Seq<u8>
    decreases es.len(),
{
    if es.len() == 0 {
        Seq::empty()
    } else {
        entries_bytes(es.drop_last()) + le_bytes(es.last().0 as nat, 4) + le_bytes(
            es.last().1 as nat,
            2,
        )
    }
}

/// The compact binary encoding of a list of `(id, count)` pairs: the length
/// as 8 little-endian bytes, then each id in 4 bytes and count in 2.
pub open spec fn counts_bytes(es: Seq<(u32, u16)>) -> Seq<u8> {
    le_bytes(es.len(), 8) + entries_bytes(es)
}

proof fn lemma_le_bytes_len(v: nat, n: nat)
    ensures
        le_bytes(v, n).len() == n,
    decreases n,
{
    if n > 0 {
        lemma_le_bytes_len(v / 256, (n - 1) as nat);
    }
}

pub open spec fn pow256(n: nat) -> nat
    decreases n,
{
    if n == 0 {
        1
    } else {
        256 * pow256((n - 1) as nat)
    }
}

proof fn lemma_le_bytes_injective(a: nat, b: nat, n: nat)
    requires
        a < pow256(n),
        b < pow256(n),
        le_bytes(a, n) == le_bytes(b, n),
    ensures
        a == b,
    decreases n,
{
    if n == 0 {
    } else {
        let p = pow256((n - 1) as nat);
        assert(le_bytes(a, n) == seq![(a % 256) as u8] + le_bytes(a / 256, (n - 1) as nat));
        assert(le_bytes(b, n) == seq![(b % 256) as u8] + le_bytes(b / 256, (n - 1) as nat));
        assert(le_bytes(a, n)[0] == (a % 256) as u8);
        assert(le_bytes(b, n)[0] == (b % 256) as u8);
        assert((a % 256) as u8 == (b % 256) as u8);
        assert(a % 256 == b % 256);
        lemma_le_bytes_len(a / 256, (n - 1) as nat);
        lemma_le_bytes_len(b / 256, (n - 1) as nat);
        assert(le_bytes(a / 256, (n - 1) as nat) =~= le_bytes(a, n).drop_first());
        assert(le_bytes(b / 256, (n - 1) as nat) =~= le_bytes(b, n).drop_first());
        assert(a / 256 < p && b / 256 < p) by (nonlinear_arith)
            requires
                a < 256 * p,
                b < 256 * p,
        ;
        lemma_le_bytes_injective(a / 256, b / 256, (n - 1) as nat);
        assert(a == 256 * (a / 256) + a % 256) by (nonlinear_arith);
        assert(b == 256 * (b / 256) + b % 256) by (nonlinear_arith);
    }
}

proof fn lemma_entries_bytes_len(es: Seq<(u32, u16)>)
    ensures
        entries_bytes(es).len() == 6 * es.len(),
    decreases es.len(),
{
    if es.len() > 0 {
        lemma_entries_bytes_len(es.drop_last());
        lemma_le_bytes_len(es.last().0 as nat, 4);
        lemma_le_bytes_len(es.last().1 as nat, 2);
    }
}

proof fn lemma_pow256_values()
    ensures
        pow256(2) == 0x1_0000,
        pow256(4) == 0x1_0000_0000,
        pow256(8) == 0x1_0000_0000_0000_0000,
{
    reveal_with_fuel(pow256, 9);
}

proof fn lemma_entries_bytes_injective(a: Seq<(u32, u16)>, b: Seq<(u32, u16)>)
    requires
        a.len() == b.len(),
        entries_bytes(a) == entries_bytes(b),
    ensures
        a == b,
    decreases a.len(),
{
    if a.len() > 0 {
        let (pa, pb) = (a.drop_last(), b.drop_last());
        lemma_entries_bytes_len(pa);
        lemma_entries_bytes_len(pb);
        let (ea, eb) = (a.last(), b.last());
        let k = entries_bytes(pa).len() as int;
        lemma_le_bytes_len(ea.0 as nat, 4);
        lemma_le_bytes_len(eb.0 as nat, 4);
        lemma_le_bytes_len(ea.1 as nat, 2);
        lemma_le_bytes_len(eb.1 as nat, 2);
        let whole = entries_bytes(a);
        assert(whole.subrange(0, k) =~= entries_bytes(pa));
        assert(entries_bytes(b).subrange(0, k) =~= entries_bytes(pb));
        assert(whole.subrange(k, k + 4) =~= le_bytes(ea.0 as nat, 4));
        assert(entries_bytes(b).subrange(k, k + 4) =~= le_bytes(eb.0 as nat, 4));
        assert(whole.subrange(k + 4, k + 6) =~= le_bytes(ea.1 as nat, 2));
        assert(entries_bytes(b).subrange(k + 4, k + 6) =~= le_bytes(eb.1 as nat, 2));
        lemma_pow256_values();
        lemma_le_bytes_injective(ea.0 as nat, eb.0 as nat, 4);
        lemma_le_bytes_injective(ea.1 as nat, eb.1 as nat, 2);
        lemma_entries_bytes_injective(pa, pb);
        assert(a =~= pa.push(ea));
        assert(b =~= pb.push(eb));
    }
}

/// The spill codec is unambiguous: where the encoding of `a` is read from
/// the front of the encoding of `b`, `a` is `b`. So the records that `load`
/// decodes from a spill written by `insert` are the lists it wrote.
pub proof fn lemma_counts_codec_unambiguous(a: Seq<(u32, u16)>, b: Seq<(u32, u16)>)
    requires
        a.len() < 0x1_0000_0000_0000_0000,
        b.len() < 0x1_0000_0000_0000_0000,
        counts_bytes(a).len() <= counts_bytes(b).len(),
        counts_bytes(a) == counts_bytes(b).take(counts_bytes(a).len() as int),
    ensures
        a == b,
{
    lemma_le_bytes_len(a.len(), 8);
    lemma_le_bytes_len(b.len(), 8);
    lemma_entries_bytes_len(a);
    lemma_entries_bytes_len(b);
    lemma_pow256_values();
    assert(counts_bytes(a).subrange(0, 8) =~= le_bytes(a.len(), 8));
    assert(counts_bytes(b).subrange(0, 8) =~= le_bytes(b.len(), 8));
    assert(counts_bytes(b).take(counts_bytes(a).len() as int).subrange(0, 8) =~= counts_bytes(b).subrange(0, 8));
    assert(counts_bytes(a).subrange(0, 8) =~= counts_bytes(b).subrange(0, 8));
    lemma_le_bytes_injective(a.len(), b.len(), 8);
    assert(counts_bytes(a) =~= counts_bytes(b));
    assert(counts_bytes(a).subrange(8, counts_bytes(a).len() as int) =~= entries_bytes(a));
    assert(counts_bytes(b).subrange(8, counts_bytes(b).len() as int) =~= entries_bytes(b));
    lemma_entries_bytes_injective(a, b);
}

/// Relies on `bincode::serialize` (fixed-width little-endian integers,
/// lengths as `u64`).
#[verifier::external_body]
fn encode_counts(es: &Vec<(u32, u16)>) -> (r: Option<Vec<u8>>)
    ensures
        r is Some,
        r matches Some(b) ==> b@ == counts_bytes(es@),
{
    bincode::serialize(es).ok()
}

/// Whether `b` begins with the encoding of `es`.
pub open spec fn begins_with_counts(b: Seq<u8>, es: Seq<(u32, u16)>) -> bool {
    &&& es.len() < 0x1_0000_0000_0000_0000
    &&& counts_bytes(es).len() <= b.len()
    &&& counts_bytes(es) == b.take(counts_bytes(es).len() as int)
}

/// Relies on `bincode::deserialize`: it reads one encoded list from the
/// front of the bytes and ignores what follows; it succeeds wherever the
/// bytes begin with an encoded list.
#[verifier::external_body]
fn decode_counts(b: &[u8]) -> (r: Option<Vec<(u32, u16)>>)
    ensures
        r matches Some(es) ==> begins_with_counts(b@, es@),
        forall|es: Seq<(u32, u16)>| #[trigger] begins_with_counts(b@, es) ==> r is Some,
{
    bincode::deserialize(b).ok()
}

/// How many tokens fall on dictionary id `id` once lowercased.
pub open spec fn tally(tokens: Seq<Seq<char>>, words: Map<Seq<char>, u32>, id: u32) -> nat
    decreases tokens.len(),
{
    if tokens.len() == 0 {
        0
    } else {
        tally(tokens.drop_last(), words, id) + if words.contains_key(lower_of(tokens.last()))
            && words[lower_of(tokens.last())] == id {
            1nat
        } else {
            0nat
        }
    }
}

/// A count that stops at the largest 16-bit value.
pub open spec fn saturate(n: nat) -> u16 {
    if n > u16::MAX {
        u16::MAX
    } else {
        n as u16
    }
}

/// Whether `es` lists, once each, every id that occurs among the tokens,
/// with its saturated count.
pub open spec fn lists_counts(es: Seq<(u32, u16)>, tokens: Seq<Seq<char>>, words: Map<Seq<char>, u32>) -> bool {
    &&& forall|i: int, j: int| 0 <= i < j < es.len() ==> es[i].0 != es[j].0
    &&& forall|i: int|
        0 <= i < es.len() ==> tally(tokens, words, #[trigger] es[i].0) > 0 && es[i].1 == saturate(
            tally(tokens, words, es[i].0),
        )
    &&& forall|id: u32|
        #[trigger] tally(tokens, words, id) > 0 ==> exists|i: int| 0 <= i < es.len() && es[i].0 == id
}

/// The dictionary words of an article and how often each occurs: the text
/// is split into words, each lowercased and looked up. Counts stop at the
/// largest 16-bit value.
pub fn article_counts(dict: &Dict, text: &str) -> (r: Vec<(u32, u16)>)
    ensures
        lists_counts(
            r@,
            regex_matches(WORD_PATTERN@, text@),
            words_of(dict@),
        ),
        r.len() <= regex_matches(WORD_PATTERN@, text@).len(),
{
    let tokens = find_matches(WORD_PATTERN, text);
    let ghost toks = tokens@.map_values(|s: String| s@);
    let ghost words = words_of(dict@);
    let mut table: HashMap<u32, u16> = HashMap::new();
    let mut order: Vec<u32> = Vec::new();
    let mut i: usize = 0;
    while i < tokens.len()
        invariant
            i <= tokens.len(),
            order.len() <= i,
            toks == tokens@.map_values(|s: String| s@),
            words == words_of(dict@),
            forall|a: int, b: int| 0 <= a < b < order.len() ==> order[a] != order[b],
            forall|a: int| 0 <= a < order.len() ==> table@.contains_key(#[trigger] order[a]),
            forall|id: u32|
                #[trigger] table@.contains_key(id) ==> exists|a: int| 0 <= a < order.len() && order[a] == id,
            forall|id: u32|
                #[trigger] table@.contains_key(id) <==> tally(toks.take(i as int), words, id) > 0,
            forall|id: u32|
                #[trigger] table@.contains_key(id) ==> table@[id] == saturate(
                    tally(toks.take(i as int), words, id),
                ),
        decreases tokens.len() - i,
    {
        let w = lowercase(tokens[i].as_str());
        let ghost before = toks.take(i as int);
        let ghost after = toks.take(i + 1);
        assert(after.drop_last() =~= before);
        assert(after.last() == tokens[i as int]@);
        match dict_get(dict, w.as_str()) {
            Some(id) => {
                let c: u16 = match table.get(&id) {
                    Some(c) => *c,
                    None => 0,
                };
                let ghost old_order = order@;
                let ghost old_table = table@;
                if c == 0 {
                    order.push(id);
                }
                let next: u16 = if c == u16::MAX {
                    c
                } else {
                    c + 1
                };
                table.insert(id, next);
                proof {
                    assert forall|q: u32| #[trigger] table@.contains_key(q) implies exists|a: int|
                        0 <= a < order.len() && order[a] == q by {
                        if q == id && c == 0 {
                            assert(order[order.len() - 1] == q);
                        } else {
                            assert(old_table.contains_key(q));
                            let a = choose|a: int| 0 <= a < old_order.len() && old_order[a] == q;
                            assert(order[a] == q);
                        }
                    }
                    assert forall|q: u32| #[trigger] table@.contains_key(q) <==> tally(after, words, q) > 0 by {
                    }
                }
            },
            None => {},
        }
        i = i + 1;
    }
    assert(toks.take(tokens.len() as int) =~= toks);
    assert(toks.len() == tokens.len());
    let mut out: Vec<(u32, u16)> = Vec::new();
    let mut k: usize = 0;
    while k < order.len()
        invariant
            k <= order.len(),
            out.len() == k,
            forall|a: int| 0 <= a < k ==> #[trigger] out[a] == (order[a], table@[order[a]]),
            forall|a: int| 0 <= a < order.len() ==> table@.contains_key(#[trigger] order[a]),
        decreases order.len() - k,
    {
        let id = order[k];
        let c: u16 = match table.get(&id) {
            Some(c) => *c,
            None => 0,
        };
        out.push((id, c));
        k = k + 1;
    }
    proof {
        assert forall|q: u32| #[trigger] tally(toks, words, q) > 0 implies exists|a: int|
            0 <= a < out.len() && out[a].0 == q by {
            assert(table@.contains_key(q));
            let a = choose|a: int| 0 <= a < order.len() && order[a] == q;
            assert(out[a].0 == q);
        }
        assert forall|a: int| 0 <= a < out.len() implies tally(toks, words, #[trigger] out[a].0) > 0 && out[a].1
            == saturate(tally(toks, words, out[a].0)) by {
            assert(table@.contains_key(order[a]));
        }
    }
    out
}

/// The byte range of record `k` of the spill: from its offset to the next
/// one, or to the end of the data for the last.
pub open spec fn record_end(index: Seq<u64>, data_len: nat, k: int) -> int {
    if k + 1 < index.len() {
        index[k + 1] as int
    } else {
        data_len as int
    }
}

/// The bytes of record `k` of the spill.
pub open spec fn chunk_of(index: Seq<u64>, data: Seq<u8>, k: int) -> Seq<u8> {
    data.subrange(index[k] as int, record_end(index, data.len(), k))
}

/// Whether `records[k]` is what the spill holds at the start of record `k`.
pub open spec fn decodes_at(records: Seq<Seq<(u32, u16)>>, index: Seq<u64>, data: Seq<u8>, k: int) -> bool {
    &&& index[k] <= record_end(index, data.len(), k) <= data.len()
    &&& begins_with_counts(chunk_of(index, data, k), records[k])
}

/// Whether record `k` of the spill lies within the data and begins with an
/// encoded count list.
pub open spec fn record_intact(index: Seq<u64>, data: Seq<u8>, k: int) -> bool {
    &&& index[k] <= record_end(index, data.len(), k) <= data.len()
    &&& exists|es: Seq<(u32, u16)>| #[trigger] begins_with_counts(chunk_of(index, data, k), es)
}

/// Whether every record of the spill is intact.
pub open spec fn spill_intact(index: Seq<u64>, data: Seq<u8>) -> bool {
    forall|k: int| 0 <= k < index.len() ==> #[trigger] record_intact(index, data, k)
}

/// A byte sequence begins with the encoding of at most one list.
pub proof fn lemma_prefix_unique(c: Seq<u8>, a: Seq<(u32, u16)>, b: Seq<(u32, u16)>)
    requires
        begins_with_counts(c, a),
        begins_with_counts(c, b),
    ensures
        a == b,
{
    if counts_bytes(a).len() <= counts_bytes(b).len() {
        assert(counts_bytes(a) =~= counts_bytes(b).take(counts_bytes(a).len() as int));
        lemma_counts_codec_unambiguous(a, b);
    } else {
        assert(counts_bytes(b) =~= counts_bytes(a).take(counts_bytes(b).len() as int));
        lemma_counts_codec_unambiguous(b, a);
    }
}

/// The spill that inserting count lists in order writes: their encodings,
/// one after another.
pub open spec fn spill_of(lists: Seq<Seq<(u32, u16)>>) -> Seq<u8>
    decreases lists.len(),
{
    if lists.len() == 0 {
        Seq::empty()
    } else {
        spill_of(lists.drop_last()) + counts_bytes(lists.last())
    }
}

/// The offsets that inserting count lists in order records.
pub open spec fn offsets_of(lists: Seq<Seq<(u32, u16)>>) -> Seq<u64>
    decreases lists.len(),
{
    if lists.len() == 0 {
        Seq::empty()
    } else {
        offsets_of(lists.drop_last()).push(spill_of(lists.drop_last()).len() as u64)
    }
}

/// A spill written by inserting `lists` is intact, and its records are
/// those lists; so `load` on it gives `inverted(lists)`.
pub proof fn lemma_written_spill(lists: Seq<Seq<(u32, u16)>>)
    requires
        spill_of(lists).len() < 0x1_0000_0000_0000_0000,
        forall|i: int| 0 <= i < lists.len() ==> #[trigger] lists[i].len() < 0x1_0000_0000_0000_0000,
    ensures
        offsets_of(lists).len() == lists.len(),
        forall|k: int|
            0 <= k < lists.len() ==> #[trigger] decodes_at(lists, offsets_of(lists), spill_of(lists), k),
        spill_intact(offsets_of(lists), spill_of(lists)),
    decreases lists.len(),
{
    if lists.len() > 0 {
        let p = lists.drop_last();
        let last = lists.last();
        let d = spill_of(p);
        let o = offsets_of(p);
        let data = spill_of(lists);
        let idx = offsets_of(lists);
        let n = lists.len() as int;
        assert(data == d + counts_bytes(last));
        assert(forall|i: int| 0 <= i < p.len() ==> #[trigger] p[i] == lists[i]);
        lemma_written_spill(p);
        assert forall|k: int| 0 <= k < n implies #[trigger] decodes_at(lists, idx, data, k) by {
            if k < n - 1 {
                assert(decodes_at(p, o, d, k));
                assert(idx[k] == o[k]);
                if k + 1 < n - 1 {
                    assert(idx[k + 1] == o[k + 1]);
                }
                assert(record_end(idx, data.len(), k) == record_end(o, d.len(), k));
                assert(chunk_of(idx, data, k) =~= chunk_of(o, d, k));
            } else {
                assert(idx[k] == d.len());
                assert(chunk_of(idx, data, k) =~= counts_bytes(last));
                assert(counts_bytes(last).take(counts_bytes(last).len() as int) =~= counts_bytes(last));
            }
        }
        assert forall|k: int| 0 <= k < idx.len() implies #[trigger] record_intact(idx, data, k) by {
            assert(decodes_at(lists, idx, data, k));
            assert(begins_with_counts(chunk_of(idx, data, k), lists[k]));
        }
    }
}

/// Adds the pairs of `record`, the counts of article `k`, to the
/// occurrence lists, in order.
pub open spec fn add_record(
    m: Map<u32, Seq<(u32, u16)>>,
    k: u32,
    record: Seq<(u32, u16)>,
) -> Map<u32, Seq<(u32, u16)>>
    decreases record.len(),
{
    if record.len() == 0 {
        m
    } else {
        let before = add_record(m, k, record.drop_last());
        let (w, c) = record.last();
        let list = if before.contains_key(w) {
            before[w]
        } else {
            Seq::empty()
        };
        before.insert(w, list.push((k, c)))
    }
}

/// The occurrence list of every word over a sequence of article records.
pub open spec fn inverted(records: Seq<Seq<(u32, u16)>>) -> Map<u32, Seq<(u32, u16)>>
    decreases records.len(),
{
    if records.len() == 0 {
        Map::empty()
    } else {
        add_record(
            inverted(records.drop_last()),
            (records.len() - 1) as u32,
            records.last(),
        )
    }
}

/// The frequency table: an index of byte offsets into a spill file of
/// per-article count records, and the dictionary that new articles are
/// counted against, if any.
pub struct Frequency<'a> {
    fname: String,
    index: Vec<u64>,
    size: u64,
    dict: Option<&'a Dict>,
}

impl<'a> Frequency<'a> {
    pub closed spec fn file(&self) -> Seq<char> {
        self.fname@
    }

    /// The starting offset of each article's record.
    pub closed spec fn offsets(&self) -> Seq<u64> {
        self.index@
    }

    /// The length of the spill file.
    pub closed spec fn spill_len(&self) -> nat {
        self.size as nat
    }

    /// The dictionary, if the table is writable.
    pub closed spec fn words(&self) -> Option<Map<Seq<char>, u32>> {
        match self.dict {
            Some(d) => Some(words_of(d@)),
            None => None,
        }
    }

    /// An empty table over a new spill file, counting against `dict`.
    pub fn new(fname: &str, dict: &'a Dict) -> (r: Frequency<'a>)
        ensures
            r.file() == fname@,
            r.offsets() == Seq::<u64>::empty(),
            r.spill_len() == 0,
            r.words() == Some(words_of(dict@)),
    {
        Frequency { fname: fname.to_owned(), index: Vec::new(), size: 0, dict: Some(dict) }
    }

    /// A read-only table over an existing spill file of `size` bytes.
    pub fn deserialize(fname: &str, index: Vec<u64>, size: u64) -> (r: Frequency<'static>)
        ensures
            r.file() == fname@,
            r.offsets() == index@,
            r.spill_len() == size,
            r.words() is None,
    {
        Frequency { fname: fname.to_owned(), index, size, dict: None }
    }

    /// Makes the table writable by giving it a dictionary.
    pub fn set_dict(&mut self, dict: &'a Dict)
        ensures
            final(self).words() == Some(words_of(dict@)),
            final(self).file() == old(self).file(),
            final(self).offsets() == old(self).offsets(),
            final(self).spill_len() == old(self).spill_len(),
    {
        self.dict = Some(dict);
    }

    /// The file name of the spill.
    pub fn fname(&self) -> (r: &String)
        ensures
            r@ == self.file(),
    {
        &self.fname
    }

    /// The starting offset of each article's record.
    pub fn index(&self) -> (r: &Vec<u64>)
        ensures
            r@ == self.offsets(),
    {
        &self.index
    }

    /// The number of articles inserted.
    pub fn len(&self) -> (r: usize)
        ensures
            r == self.offsets().len(),
    {
        self.index.len()
    }

    /// Counts the dictionary words of an article and returns the record to
    /// append to the spill; its offset is the current end of the spill.
    /// Fails with `MissingDict` on a read-only table.
    pub fn insert(&mut self, article: String) -> (r: Result<Vec<u8>>)
        ensures
            old(self).words() is None <==> (r matches Err(e) && *e == ErrorKind::MissingDict),
            old(self).words() is Some && old(self).spill_len() + 8 + 6 * regex_matches(
                WORD_PATTERN@,
                article@,
            ).len() <= u64::MAX ==> r is Ok,
            r matches Err(e) ==> *e == ErrorKind::MissingDict || *e == ErrorKind::Io,
            final(self).words() == old(self).words(),
            final(self).file() == old(self).file(),
            r is Err ==> final(self).offsets() == old(self).offsets() && final(self).spill_len()
                == old(self).spill_len(),
            r matches Ok(b) ==> {
                &&& final(self).offsets() == old(self).offsets().push(old(self).spill_len() as u64)
                &&& final(self).spill_len() == old(self).spill_len() + b@.len()
                &&& exists|es: Seq<(u32, u16)>|
                    lists_counts(
                        es,
                        regex_matches(WORD_PATTERN@, article@),
                        old(self).words()->Some_0,
                    ) && b@ == counts_bytes(es)
            },
    {
        let dict = match self.dict {
            Some(d) => d,
            None => {
                return Err(Box::new(ErrorKind::MissingDict));
            },
        };
        let counts = article_counts(dict, article.as_str());
        proof {
            lemma_entries_bytes_len(counts@);
            lemma_le_bytes_len(counts@.len() as nat, 8);
        }
        let bytes = match encode_counts(&counts) {
            Some(b) => b,
            None => {
                return Err(Box::new(ErrorKind::Serialization));
            },
        };
        let n = bytes.len() as u64;
        if n > u64::MAX - self.size {
            return Err(Box::new(ErrorKind::Io));
        }
        self.index.push(self.size);
        self.size = self.size + n;
        Ok(bytes)
    }

    /// Inverts the spill, whose bytes are `data`, into the occurrence list
    /// of every word: `(article, count)` pairs in article order.
    #[verifier::loop_isolation(false)]
    pub fn load(&self, data: &Vec<u8>) -> (r: Result<HashMap<u32, Vec<(u32, u16)>>>)
        requires
            self.offsets().len() <= u32::MAX + 1,
        ensures
            r is Ok <==> spill_intact(self.offsets(), data@),
            r matches Err(e) ==> *e == ErrorKind::Io || *e == ErrorKind::Serialization,
            r matches Ok(m) ==> forall|records: Seq<Seq<(u32, u16)>>|
                records.len() == self.offsets().len() && (forall|k: int|
                    0 <= k < records.len() ==> #[trigger] decodes_at(records, self.offsets(), data@, k))
                    ==> m@.map_values(|v: Vec<(u32, u16)>| v@) == inverted(records),
    {
        let mut map: HashMap<u32, Vec<(u32, u16)>> = HashMap::new();
        let ghost mut records: Seq<Seq<(u32, u16)>> = Seq::empty();
        let n = self.index.len();
        let mut id: usize = 0;
        while id < n
            invariant
                id <= n == self.index.len() <= u32::MAX + 1,
                records.len() == id,
                forall|k: int| 0 <= k < id ==> #[trigger] decodes_at(records, self.index@, data@, k),
                forall|k: int| 0 <= k < id ==> #[trigger] record_intact(self.index@, data@, k),
                map@.map_values(|v: Vec<(u32, u16)>| v@) == inverted(records),
            decreases n - id,
        {
            let start = self.index[id];
            let end: u64 = if id + 1 < n {
                self.index[id + 1]
            } else {
                data.len() as u64
            };
            assert(record_end(self.index@, data@.len(), id as int) == end);
            if start > end || end > data.len() as u64 {
                assert(!record_intact(self.index@, data@, id as int));
                return Err(Box::new(ErrorKind::Io));
            }
            let chunk = vstd::slice::slice_subrange(data.as_slice(), start as usize, end as usize);
            assert(chunk@ == chunk_of(self.index@, data@, id as int));
            let record = match decode_counts(chunk) {
                Some(es) => es,
                None => {
                    assert(!record_intact(self.index@, data@, id as int));
                    return Err(Box::new(ErrorKind::Serialization));
                },
            };
            assert(record_intact(self.index@, data@, id as int));
            let ghost before = map@.map_values(|v: Vec<(u32, u16)>| v@);
            let mut j: usize = 0;
            while j < record.len()
                invariant
                    j <= record.len(),
                    id < n <= u32::MAX + 1,
                    map@.map_values(|v: Vec<(u32, u16)>| v@) == add_record(
                        before,
                        id as u32,
                        record@.take(j as int),
                    ),
                decreases record.len() - j,
            {
                let (w, c) = record[j];
                let ghost prev = map@.map_values(|v: Vec<(u32, u16)>| v@);
                assert(record@.take(j + 1).drop_last() =~= record@.take(j as int));
                assert(record@.take(j + 1).last() == (w, c));
                let list = match map.remove(&w) {
                    Some(v) => {
                        let mut v = v;
                        v.push((id as u32, c));
                        v
                    },
                    None => {
                        let mut v: Vec<(u32, u16)> = Vec::new();
                        v.push((id as u32, c));
                        v
                    },
                };
                map.insert(w, list);
                proof {
                    let expect = add_record(before, id as u32, record@.take(j + 1));
                    assert(map@.map_values(|v: Vec<(u32, u16)>| v@) =~= expect);
                }
                j = j + 1;
            }
            assert(record@.take(record.len() as int) =~= record@);
            proof {
                let old_records = records;
                records = records.push(record@);
                assert(records.drop_last() =~= old_records);
                assert forall|k: int| 0 <= k < id + 1 implies #[trigger] decodes_at(records, self.index@, data@, k) by {
                    if k < id {
                        assert(records[k] == old_records[k]);
                        assert(decodes_at(old_records, self.index@, data@, k));
                    } else {
                        assert(records[k] == record@);
                    }
                }
            }
            id = id + 1;
        }
        proof {
            assert forall|rs: Seq<Seq<(u32, u16)>>|
                rs.len() == self.offsets().len() && (forall|k: int|
                    0 <= k < rs.len() ==> #[trigger] decodes_at(rs, self.offsets(), data@, k))
                    implies map@.map_values(|v: Vec<(u32, u16)>| v@) == inverted(rs) by {
                assert forall|k: int| 0 <= k < rs.len() implies rs[k] == records[k] by {
                    assert(decodes_at(rs, self.offsets(), data@, k));
                    assert(decodes_at(records, self.index@, data@, k));
                    lemma_prefix_unique(chunk_of(self.index@, data@, k), rs[k], records[k]);
                }
                assert(rs =~= records);
            }
        }
        Ok(map)
    }
}

} // verus!
