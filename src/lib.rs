//! Word association statistics drawn from a Wikipedia dump, and the
//! correlation query engine built on top of them.
pub mod analyze;
pub mod database;
pub mod ranking;

use vstd::prelude::*;
use lru::LruCache;
use std::collections::hash_map::RandomState;
use rand::rngs::SmallRng;
use database::correlation::{Correlation, column_cells, pair_cell};
use database::read::{dict_entries, words_of};
use database::correlation::has_id;
use ranking::{is_index_ranking, order_key, ranks_of};

verus! {

#[verifier::external_type_specification]
#[verifier::external_body]
#[verifier::reject_recursive_types(K)]
#[verifier::reject_recursive_types(V)]
#[verifier::reject_recursive_types(S)]
pub struct ExLruCache<K, V, S>(lru::LruCache<K, V, S>);

#[verifier::external_type_specification]
#[verifier::external_body]
pub struct ExSmallRng(rand::rngs::SmallRng);

/// A cache of correlation columns by word id.
pub type CorrsCache = LruCache<u32, Vec<u64>, RandomState>;

/// A cache of rankings by word id.
pub type RanksCache = LruCache<u32, Vec<usize>, RandomState>;

/// The columns a correlation cache holds, by word id.
pub uninterp spec fn corrs_held(c: CorrsCache) -> Map<u32, Seq<u64>>;

/// The capacity a correlation cache was made with.
pub uninterp spec fn corrs_capacity(c: CorrsCache) -> nat;

/// The capacity a rank cache was made with.
pub uninterp spec fn ranks_capacity(c: RanksCache) -> nat;

/// The rankings a rank cache holds, by word id.
pub uninterp spec fn ranks_held(c: RanksCache) -> Map<u32, Seq<usize>>;

/// Relies on `LruCache::with_hasher`: a new cache is empty.
#[verifier::external_body]
fn new_corrs_cache(cap: usize) -> (r: CorrsCache)
    ensures
        corrs_held(r).dom() == Set::<u32>::empty(),
        corrs_capacity(r) == cap,
{
    LruCache::with_hasher(cap, RandomState::new())
}

/// Relies on `LruCache::get`: it hands out the value held for the key, and
/// only reorders the entries.
#[verifier::external_body]
fn cached_corrs(c: &mut CorrsCache, k: u32) -> (r: Option<Vec<u64>>)
    ensures
        corrs_held(*final(c)) == corrs_held(*old(c)),
        corrs_capacity(*final(c)) == corrs_capacity(*old(c)),
        r is Some <==> corrs_held(*old(c)).contains_key(k),
        r matches Some(v) ==> v@ == corrs_held(*old(c))[k],
{
    c.get(&k).cloned()
}

/// Relies on `LruCache::push`: afterwards every entry is either the one
/// pushed or one held before, unchanged; the pushed one is held unless the
/// capacity is zero.
#[verifier::external_body]
fn store_corrs(c: &mut CorrsCache, k: u32, v: Vec<u64>)
    ensures
        corrs_capacity(*final(c)) == corrs_capacity(*old(c)),
        corrs_capacity(*old(c)) > 0 ==> corrs_held(*final(c)).contains_key(k) && corrs_held(*final(c))[k] == v@,
        forall|j: u32|
            #[trigger] corrs_held(*final(c)).contains_key(j) ==> (j == k && corrs_held(*final(c))[j]
                == v@) || (corrs_held(*old(c)).contains_key(j) && corrs_held(*final(c))[j]
                == corrs_held(*old(c))[j]),
{
    c.push(k, v);
}

/// Relies on `LruCache::with_hasher`: a new cache is empty.
#[verifier::external_body]
fn new_ranks_cache(cap: usize) -> (r: RanksCache)
    ensures
        ranks_held(r).dom() == Set::<u32>::empty(),
        ranks_capacity(r) == cap,
{
    LruCache::with_hasher(cap, RandomState::new())
}

/// Relies on `LruCache::get`: it hands out the value held for the key, and
/// only reorders the entries.
#[verifier::external_body]
fn cached_ranks(c: &mut RanksCache, k: u32) -> (r: Option<Vec<usize>>)
    ensures
        ranks_held(*final(c)) == ranks_held(*old(c)),
        ranks_capacity(*final(c)) == ranks_capacity(*old(c)),
        r is Some <==> ranks_held(*old(c)).contains_key(k),
        r matches Some(v) ==> v@ == ranks_held(*old(c))[k],
{
    c.get(&k).cloned()
}

/// Relies on `LruCache::push`: afterwards every entry is either the one
/// pushed or one held before, unchanged; the pushed one is held unless the
/// capacity is zero.
#[verifier::external_body]
fn store_ranks(c: &mut RanksCache, k: u32, v: Vec<usize>)
    ensures
        ranks_capacity(*final(c)) == ranks_capacity(*old(c)),
        ranks_capacity(*old(c)) > 0 ==> ranks_held(*final(c)).contains_key(k) && ranks_held(*final(c))[k] == v@,
        forall|j: u32|
            #[trigger] ranks_held(*final(c)).contains_key(j) ==> (j == k && ranks_held(*final(c))[j]
                == v@) || (ranks_held(*old(c)).contains_key(j) && ranks_held(*final(c))[j]
                == ranks_held(*old(c))[j]),
{
    c.push(k, v);
}

/// Relies on `SeedableRng::from_seed` for `SmallRng`.
#[verifier::external_body]
fn seeded_rng(seed: [u8; 32]) -> (r: SmallRng) {
    <SmallRng as rand::SeedableRng>::from_seed(seed)
}

/// Relies on `SliceRandom::shuffle`: the words are permuted.
#[verifier::external_body]
fn shuffle_words(v: &mut Vec<String>, rng: &mut SmallRng)
    ensures
        final(v)@.to_multiset() == old(v)@.to_multiset(),
{
    rand::seq::SliceRandom::shuffle(v.as_mut_slice(), rng);
}

/// The seed of the shuffle that fixes the order of the daily answers.
pub const RNG_SEED: [u8; 32] = [
    77, 69, 82, 76, 73, 78, 32, 50, 46, 48, 32, 102, 97, 110, 32, 118, 46, 115, 46, 32, 72, 77, 77,
    32, 101, 110, 106, 111, 121, 101, 114, 10,
];

/// The day of the first answer, as a count of days since 1970-01-01
/// (2022-05-09).
pub const ROOT_DAY: i64 = 19121;

/// The capacity of the rank cache.
pub const RANKS_CAPACITY: usize = 10;

/// The index of the answer on `day` (days since 1970-01-01) in a list of
/// `len` answers.
pub open spec fn rotation(day: int, len: int) -> int {
    (day - ROOT_DAY) % len
}

/// The answer on `ROOT_DAY` is the first of the list, and `k` days later
/// (or earlier, for negative `k`) it is answer `k` modulo the list length.
pub proof fn lemma_daily_rotation(len: int, k: int)
    requires
        len > 0,
    ensures
        rotation(ROOT_DAY as int, len) == 0,
        rotation(ROOT_DAY + k, len) == k % len,
        0 <= rotation(ROOT_DAY + k, len) < len,
{
    assert(0int % len == 0) by (nonlinear_arith)
        requires
            len > 0,
    ;
    assert(0 <= k % len < len) by (nonlinear_arith)
        requires
            len > 0,
    ;
}

/// Whether `v` lists words of the dictionary with their entries in `col`,
/// most correlated first, and every id below `size` that a word has.
pub open spec fn is_listing(
    words: Map<Seq<char>, u32>,
    size: nat,
    col: Seq<u64>,
    v: Seq<(String, u64)>,
) -> bool {
    &&& forall|i: int|
        0 <= i < v.len() ==> words.contains_key(#[trigger] v[i].0@) && v[i].1 == col[words[v[i].0@] as int]
    &&& forall|i: int, j: int|
        0 <= i < j < v.len() ==> order_key(#[trigger] v[i].1) >= order_key(#[trigger] v[j].1)
    &&& forall|b: u32|
        b < size && #[trigger] has_id(words, b as nat) ==> exists|i: int|
            0 <= i < v.len() && words[v[i].0@] == b
}

/// The outcome of a guess: rank and correlation (its bits) against the
/// answer, and whether the guess is the answer.
pub struct GuessData {
    pub rank: usize,
    pub corr: u64,
    pub correct: bool,
}

/// The query engine: correlations and ranks of words, memoized per word.
pub struct CState {
    cache: CorrsCache,
    ranks: RanksCache,
    corr: Correlation,
    wordlist: Vec<String>,
    revdict: Vec<Option<String>>,
}

impl CState {
    pub closed spec fn matrix(&self) -> Correlation {
        self.corr
    }

    pub closed spec fn answers(&self) -> Seq<String> {
        self.wordlist@
    }

    /// The column of id `x`, where the matrix holds all of it.
    pub open spec fn column_of(&self, x: u32) -> Option<Seq<u64>> {
        column_cells(self.matrix().cells(), self.matrix().size(), x)
    }

    /// The ids whose correlation columns are cached.
    pub closed spec fn cached_columns(&self) -> Set<u32> {
        corrs_held(self.cache).dom()
    }

    /// The ids whose rankings are cached.
    pub closed spec fn cached_rankings(&self) -> Set<u32> {
        ranks_held(self.ranks).dom()
    }

    /// The capacity of the correlation cache.
    pub closed spec fn capacity(&self) -> nat {
        corrs_capacity(self.cache)
    }

    pub closed spec fn wf(&self) -> bool {
        &&& self.corr.wf()
        &&& ranks_capacity(self.ranks) == RANKS_CAPACITY
        &&& self.wordlist.len() > 0
        &&& forall|k: u32|
            #[trigger] corrs_held(self.cache).contains_key(k) ==> self.column_of(k) == Some(
                corrs_held(self.cache)[k],
            )
        &&& forall|k: u32|
            #[trigger] ranks_held(self.ranks).contains_key(k) ==> self.column_of(k) is Some
                && is_index_ranking(self.column_of(k)->Some_0, ranks_held(self.ranks)[k])
        &&& forall|i: int|
            0 <= i < self.revdict.len() ==> (#[trigger] self.revdict[i] matches Some(s) ==> (
            self.corr.words().contains_key(s@) && self.corr.words()[s@] == i))
        &&& forall|t: Seq<char>|
            #[trigger] self.corr.words().contains_key(t) ==> self.corr.words()[t]
                < self.revdict.len() && self.revdict[self.corr.words()[t] as int] is Some
    }

    /// Builds the engine over a correlation matrix, with a correlation
    /// cache of capacity `sz`. The answers are shuffled with the fixed seed.
    pub fn new(wordlist: Vec<String>, corr: Correlation, sz: usize) -> (r: CState)
        requires
            corr.wf(),
            wordlist.len() > 0,
        ensures
            r.wf(),
            r.matrix() == corr,
            r.answers().to_multiset() == wordlist@.to_multiset(),
            r.capacity() == sz,
            r.cached_columns() == Set::<u32>::empty(),
            r.cached_rankings() == Set::<u32>::empty(),
    {
        let mut wordlist = wordlist;
        let mut rng = seeded_rng(RNG_SEED);
        shuffle_words(&mut wordlist, &mut rng);
        proof {
            broadcast use vstd::seq_lib::group_to_multiset_ensures;
            assert(wordlist@.to_multiset().len() > 0);
        }
        let entries = dict_entries(corr.dict());
        let mut revdict: Vec<Option<String>> = Vec::new();
        let ghost words = corr.words();
        let mut i: usize = 0;
        while i < entries.len()
            invariant
                i <= entries.len(),
                words == corr.words(),
                corr.wf(),
                forall|a: int|
                    0 <= a < entries.len() ==> words.contains_key(#[trigger] entries[a].0@)
                        && words[entries[a].0@] == entries[a].1,
                forall|t: Seq<char>|
                    #[trigger] words.contains_key(t) ==> exists|a: int|
                        0 <= a < entries.len() && #[trigger] entries[a].0@ == t,
                forall|q: int|
                    0 <= q < revdict.len() ==> (#[trigger] revdict[q] matches Some(s) ==> (
                    words.contains_key(s@) && words[s@] == q)),
                forall|a: int| 0 <= a < i ==> #[trigger] entries[a].1 < revdict.len() && revdict[entries[a].1 as int] is Some,
            decreases entries.len() - i,
        {
            let id = entries[i].1;
            while revdict.len() <= id as usize
                invariant
                    forall|q: int|
                        0 <= q < revdict.len() ==> (#[trigger] revdict[q] matches Some(s) ==> (
                        words.contains_key(s@) && words[s@] == q)),
                    forall|a: int| 0 <= a < i ==> #[trigger] entries[a].1 < revdict.len() && revdict[entries[a].1 as int] is Some,
                decreases id as usize + 1 - revdict.len(),
            {
                revdict.push(None);
            }
            revdict.set(id as usize, Some(entries[i].0.clone()));
            proof {
                assert forall|a: int| 0 <= a < i + 1 implies #[trigger] entries[a].1 < revdict.len() && revdict[entries[a].1 as int] is Some by {
                }
            }
            i = i + 1;
        }
        proof {
            assert forall|t: Seq<char>| #[trigger] words.contains_key(t) implies words[t] < revdict.len() && revdict[words[t] as int] is Some by {
                let a = choose|a: int| 0 <= a < entries.len() && #[trigger] entries[a].0@ == t;
                assert(entries[a].1 < revdict.len());
            }
        }
        CState {
            cache: new_corrs_cache(sz),
            ranks: new_ranks_cache(RANKS_CAPACITY),
            corr,
            wordlist,
            revdict,
        }
    }

    /// Every word of the dictionary.
    pub fn words(&self) -> (r: Vec<String>)
        ensures
            forall|i: int| 0 <= i < r.len() ==> self.matrix().words().contains_key(#[trigger] r[i]@),
            forall|t: Seq<char>|
                #[trigger] self.matrix().words().contains_key(t) ==> exists|i: int|
                    0 <= i < r.len() && #[trigger] r[i]@ == t,
    {
        let entries = dict_entries(self.corr.dict());
        let mut out: Vec<String> = Vec::new();
        let mut i: usize = 0;
        while i < entries.len()
            invariant
                i <= entries.len(),
                out.len() == i,
                forall|a: int| 0 <= a < i ==> #[trigger] out[a]@ == entries[a].0@,
            decreases entries.len() - i,
        {
            out.push(entries[i].0.clone());
            i = i + 1;
        }
        proof {
            assert forall|t: Seq<char>| #[trigger] self.matrix().words().contains_key(t) implies exists|k: int|
                0 <= k < out.len() && #[trigger] out[k]@ == t by {
                let a = choose|a: int| 0 <= a < entries.len() && #[trigger] entries[a].0@ == t;
                assert(out[a]@ == t);
            }
        }
        out
    }

    /// The answer on `day`, counted in days since 1970-01-01: the answers
    /// repeat in their shuffled order, starting on `ROOT_DAY`.
    pub fn word(&self, day: i64) -> (r: &String)
        requires
            self.wf(),
        ensures
            r == self.answers()[rotation(day as int, self.answers().len() as int)],
    {
        let len = self.wordlist.len();
        let d: i128 = day as i128 - ROOT_DAY as i128;
        let m: i128 = len as i128;
        let idx: usize = if d >= 0 {
            (d % m) as usize
        } else {
            let q = (-d) % m;
            proof {
                lemma_negative_rotation(d as int, m as int);
            }
            if q == 0 {
                0
            } else {
                (m - q) as usize
            }
        };
        &self.wordlist[idx]
    }

    /// The answer today, where `today` counts days since 1970-01-01.
    pub fn answer(&self, today: i64) -> (r: &String)
        requires
            self.wf(),
        ensures
            r == self.answers()[rotation(today as int, self.answers().len() as int)],
    {
        self.word(today)
    }

    /// The correlations of `w` with every word, by id, loaded into the cache
    /// on a miss.
    pub fn corrs(&mut self, w: &str) -> (r: Option<Vec<u64>>)
        requires
            old(self).wf(),
        ensures
            final(self).wf(),
            final(self).matrix() == old(self).matrix(),
            final(self).answers() == old(self).answers(),
            final(self).capacity() == old(self).capacity(),
            final(self).cached_rankings() == old(self).cached_rankings(),
            old(self).matrix().id_of(w@) matches Some(x) ==> (old(self).cached_columns().contains(x)
                ==> final(self).cached_columns() == old(self).cached_columns()),
            old(self).matrix().id_of(w@) matches Some(x) ==> (old(self).column_of(x) is Some
                && old(self).capacity() > 0 ==> final(self).cached_columns().contains(x)),
            old(self).matrix().id_of(w@) is None ==> r is None,
            old(self).matrix().id_of(w@) matches Some(x) ==> (r is Some <==> old(self).column_of(
                x,
            ) is Some),
            r matches Some(v) ==> v@ == old(self).column_of(old(self).matrix().id_of(w@)->Some_0)->Some_0,
    {
        let wind = self.corr.index(w)?;
        match cached_corrs(&mut self.cache, wind) {
            Some(v) => Some(v),
            None => {
                let v = self.corr.corrall(w)?;
                let c = v.clone();
                store_corrs(&mut self.cache, wind, c);
                Some(v)
            },
        }
    }

    /// The rank of every word in the correlations of `w`, most correlated
    /// first, loaded into the cache on a miss.
    pub fn ranks(&mut self, w: &str) -> (r: Option<Vec<usize>>)
        requires
            old(self).wf(),
        ensures
            final(self).wf(),
            final(self).matrix() == old(self).matrix(),
            final(self).answers() == old(self).answers(),
            final(self).capacity() == old(self).capacity(),
            old(self).matrix().id_of(w@) matches Some(x) ==> (old(self).cached_columns().contains(x)
                ==> final(self).cached_columns().contains(x)),
            old(self).matrix().id_of(w@) matches Some(x) ==> (old(self).column_of(x) is Some
                ==> final(self).cached_rankings().contains(x)),
            old(self).matrix().id_of(w@) is None ==> r is None,
            old(self).matrix().id_of(w@) matches Some(x) ==> (r is Some <==> old(self).column_of(
                x,
            ) is Some),
            r matches Some(v) ==> is_index_ranking(
                old(self).column_of(old(self).matrix().id_of(w@)->Some_0)->Some_0,
                v@,
            ),
    {
        let wind = self.corr.index(w)?;
        match cached_ranks(&mut self.ranks, wind) {
            Some(v) => Some(v),
            None => {
                let dat = self.corrs(w)?;
                let v = ranks_of(&dat);
                let c = v.clone();
                store_ranks(&mut self.ranks, wind, c);
                Some(v)
            },
        }
    }

    /// The correlation of words `a` and `b`, read from whichever column is
    /// at hand.
    pub fn corr(&mut self, a: &str, b: &str) -> (r: Option<u64>)
        requires
            old(self).wf(),
        ensures
            final(self).wf(),
            final(self).matrix() == old(self).matrix(),
            final(self).answers() == old(self).answers(),
            final(self).capacity() == old(self).capacity(),
            r matches Some(v) ==> (old(self).matrix().id_of(a@) matches Some(x) && old(
                self,
            ).matrix().id_of(b@) matches Some(y) && pair_cell(old(self).matrix().cells(), x, y)
                == Some(v)),
            (old(self).matrix().id_of(a@) matches Some(x) && old(self).matrix().id_of(b@) matches Some(
                y,
            ) && old(self).column_of(y) is Some) ==> r is Some,
    {
        let x = self.corr.index(a)?;
        match cached_corrs(&mut self.cache, x) {
            Some(c) => {
                let y = self.corr.index(b)?;
                proof {
                    database::correlation::lemma_matrix_agreement(
                        self.corr.cells(),
                        self.corr.size(),
                        x,
                        y,
                    );
                }
                Some(c[y as usize])
            },
            None => {
                let c = self.corrs(b)?;
                let y = self.corr.index(b)?;
                proof {
                    database::correlation::lemma_matrix_agreement(
                        self.corr.cells(),
                        self.corr.size(),
                        x,
                        y,
                    );
                }
                Some(c[x as usize])
            },
        }
    }

    /// The rank of word `b` in the correlations of word `a`.
    pub fn rank(&mut self, a: &str, b: &str) -> (r: Option<usize>)
        requires
            old(self).wf(),
        ensures
            final(self).wf(),
            final(self).matrix() == old(self).matrix(),
            final(self).answers() == old(self).answers(),
            final(self).capacity() == old(self).capacity(),
            r is Some <==> (old(self).matrix().id_of(a@) matches Some(x) && old(self).matrix().id_of(
                b@,
            ) is Some && old(self).column_of(x) is Some),
            r matches Some(k) ==> exists|v: Seq<usize>|
                is_index_ranking(old(self).column_of(old(self).matrix().id_of(a@)->Some_0)->Some_0, v)
                    && v[old(self).matrix().id_of(b@)->Some_0 as int] == k,
    {
        let v = self.ranks(a)?;
        let y = self.corr.index(b)?;
        Some(v[y as usize])
    }

    /// Makes sure the correlations and ranks of `word` are cached.
    pub fn cache(&mut self, word: &str)
        requires
            old(self).wf(),
        ensures
            final(self).wf(),
            final(self).matrix() == old(self).matrix(),
            final(self).answers() == old(self).answers(),
            final(self).capacity() == old(self).capacity(),
            old(self).matrix().id_of(word@) matches Some(x) ==> (old(self).column_of(x) is Some ==> {
                &&& final(self).cached_rankings().contains(x)
                &&& old(self).capacity() > 0 ==> final(self).cached_columns().contains(x)
            }),
    {
        let _ = self.corrs(word);
        let _ = self.ranks(word);
    }

    /// A guess of `word` against the answer of `today`: its correlation
    /// with the answer, its rank among the answer's correlations, and
    /// whether it is the answer.
    pub fn guess(&mut self, word: &str, today: i64) -> (r: Option<GuessData>)
        requires
            old(self).wf(),
        ensures
            final(self).wf(),
            final(self).matrix() == old(self).matrix(),
            final(self).answers() == old(self).answers(),
            final(self).capacity() == old(self).capacity(),
            ({
                let ans = old(self).answers()[rotation(today as int, old(self).answers().len() as int)]@;
                let m = old(self).matrix();
                &&& r matches Some(g) ==> {
                    &&& m.id_of(ans) matches Some(x) && m.id_of(word@) matches Some(y)
                        && pair_cell(m.cells(), x, y) == Some(g.corr)
                    &&& exists|v: Seq<usize>|
                        is_index_ranking(old(self).column_of(m.id_of(ans)->Some_0)->Some_0, v)
                            && v[m.id_of(word@)->Some_0 as int] == g.rank
                    &&& g.correct == (word@ == ans)
                }
                &&& (m.id_of(ans) matches Some(x) && m.id_of(word@) matches Some(y)
                    && old(self).column_of(x) is Some && old(self).column_of(y) is Some) ==> r is Some
            }),
    {
        let ans = self.answer(today).clone();
        let corr = self.corr(ans.as_str(), word)?;
        let rank = self.rank(ans.as_str(), word)?;
        let correct = word.to_owned() == ans;
        Some(GuessData { rank, corr, correct })
    }

    /// The correlations of every word of `a` with every word of `b`; `None`
    /// where a word is unknown or a column is not stored.
    pub fn corr_matrix(&mut self, a: &Vec<String>, b: &Vec<String>) -> (r: Option<Vec<Vec<u64>>>)
        requires
            old(self).wf(),
        ensures
            final(self).wf(),
            final(self).matrix() == old(self).matrix(),
            final(self).answers() == old(self).answers(),
            final(self).capacity() == old(self).capacity(),
            r matches Some(m) ==> m.len() == a.len() && forall|i: int, j: int|
                0 <= i < a.len() && 0 <= j < b.len() ==> #[trigger] m[i]@[j] == pair_cell(
                    old(self).matrix().cells(),
                    old(self).matrix().id_of(a[i]@)->Some_0,
                    old(self).matrix().id_of(b[j]@)->Some_0,
                )->Some_0 && m[i].len() == b.len() && old(self).matrix().id_of(a[i]@) is Some
                    && old(self).matrix().id_of(b[j]@) is Some,
            (forall|j: int| 0 <= j < b.len() ==> (#[trigger] old(self).matrix().id_of(b[j]@) matches Some(y)
                && old(self).column_of(y) is Some)) && (forall|i: int| 0 <= i < a.len()
                ==> #[trigger] old(self).matrix().id_of(a[i]@) is Some) ==> r is Some,
    {
        let ghost start = *self;
        let mut out: Vec<Vec<u64>> = Vec::new();
        let mut i: usize = 0;
        while i < a.len()
            invariant
                self.wf(),
                start == *old(self),
                self.matrix() == start.matrix(),
                self.answers() == start.answers(),
                self.capacity() == start.capacity(),
                i <= a.len(),
                out.len() == i,
                forall|p: int, j: int|
                    0 <= p < i && 0 <= j < b.len() ==> #[trigger] out[p]@[j] == pair_cell(
                        start.matrix().cells(),
                        start.matrix().id_of(a[p]@)->Some_0,
                        start.matrix().id_of(b[j]@)->Some_0,
                    )->Some_0 && out[p].len() == b.len() && start.matrix().id_of(a[p]@) is Some
                        && start.matrix().id_of(b[j]@) is Some,
                forall|p: int| 0 <= p < i ==> #[trigger] out[p].len() == b.len(),
            decreases a.len() - i,
        {
            let mut row: Vec<u64> = Vec::new();
            let mut j: usize = 0;
            while j < b.len()
                invariant
                    self.wf(),
                    start == *old(self),
                    self.matrix() == start.matrix(),
                    self.answers() == start.answers(),
                    self.capacity() == start.capacity(),
                    i < a.len(),
                    j <= b.len(),
                    row.len() == j,
                    forall|q: int|
                        0 <= q < j ==> #[trigger] row@[q] == pair_cell(
                            start.matrix().cells(),
                            start.matrix().id_of(a[i as int]@)->Some_0,
                            start.matrix().id_of(b[q]@)->Some_0,
                        )->Some_0 && start.matrix().id_of(a[i as int]@) is Some
                            && start.matrix().id_of(b[q]@) is Some,
                decreases b.len() - j,
            {
                let v = self.corr(a[i].as_str(), b[j].as_str())?;
                row.push(v);
                j = j + 1;
            }
            out.push(row);
            proof {
                assert forall|p: int, q: int|
                    0 <= p < i + 1 && 0 <= q < b.len() implies #[trigger] out[p]@[q] == pair_cell(
                        start.matrix().cells(),
                        start.matrix().id_of(a[p]@)->Some_0,
                        start.matrix().id_of(b[q]@)->Some_0,
                    )->Some_0 && out[p].len() == b.len() && start.matrix().id_of(a[p]@) is Some
                        && start.matrix().id_of(b[q]@) is Some by {
                }
            }
            i = i + 1;
        }
        Some(out)
    }

    /// Every word of the dictionary with its correlation to `word`, most
    /// correlated first (ties by id).
    pub fn raw(&mut self, word: &str) -> (r: Option<Vec<(String, u64)>>)
        requires
            old(self).wf(),
        ensures
            final(self).wf(),
            final(self).matrix() == old(self).matrix(),
            final(self).answers() == old(self).answers(),
            final(self).capacity() == old(self).capacity(),
            old(self).matrix().id_of(word@) is None ==> r is None,
            old(self).matrix().id_of(word@) matches Some(x) ==> (r is Some <==> old(self).column_of(x) is Some),
            r matches Some(v) ==> is_listing(
                old(self).matrix().words(),
                old(self).matrix().size(),
                old(self).column_of(old(self).matrix().id_of(word@)->Some_0)->Some_0,
                v@,
            ),
    {
        let col = self.corrs(word)?;
        let ghost m = self.matrix();
        let ghost c = col@;
        let rank = ranks_of(&col);
        let n = col.len();
        let mut slots: Vec<Option<(String, u64)>> = Vec::new();
        let mut k: usize = 0;
        while k < n
            invariant
                k <= n,
                slots.len() == k,
                forall|p: int| 0 <= p < k ==> #[trigger] slots[p] is None,
            decreases n - k,
        {
            slots.push(None);
            k = k + 1;
        }
        let mut b: usize = 0;
        while b < n
            invariant
                self.wf(),
                m == self.matrix(),
                c == col@,
                n == col.len() == m.size(),
                is_index_ranking(c, rank@),
                b <= n,
                slots.len() == n,
                forall|p: int|
                    0 <= p < n ==> (#[trigger] slots[p] matches Some(e) ==> exists|q: int|
                        0 <= q < b && rank@[q] == p && m.words().contains_key(e.0@) && m.words()[e.0@]
                            == q && e.1 == c[q]),
                forall|q: int|
                    0 <= q < b ==> (#[trigger] has_id(m.words(), q as nat) ==> slots[rank@[q] as int] is Some),
            decreases n - b,
        {
            match self.of_index(b as u32) {
                Some(s) => {
                    let p = rank[b];
                    slots.set(p, Some((s.clone(), col[b])));
                    proof {
                        assert forall|q: int| 0 <= q < b + 1 implies (#[trigger] has_id(m.words(), q as nat)
                            ==> slots[rank@[q] as int] is Some) by {
                        }
                    }
                },
                None => {},
            }
            b = b + 1;
        }
        let mut out: Vec<(String, u64)> = Vec::new();
        let ghost mut from: Seq<int> = Seq::empty();
        let mut p: usize = 0;
        while p < n
            invariant
                m == self.matrix(),
                c == col@,
                n == col.len() == m.size(),
                is_index_ranking(c, rank@),
                p <= n,
                slots.len() == n,
                forall|t: int|
                    0 <= t < n ==> (#[trigger] slots[t] matches Some(e) ==> exists|q: int|
                        0 <= q < n && rank@[q] == t && m.words().contains_key(e.0@) && m.words()[e.0@]
                            == q && e.1 == c[q]),
                from.len() == out.len(),
                forall|i: int| 0 <= i < out.len() ==> 0 <= #[trigger] from[i] < p,
                forall|i: int, j: int| 0 <= i < j < out.len() ==> #[trigger] from[i] < #[trigger] from[j],
                forall|i: int|
                    0 <= i < out.len() ==> (slots[#[trigger] from[i]] matches Some(e) && out[i] == e),
                forall|t: int| 0 <= t < p && (#[trigger] slots[t] is Some) ==> exists|i: int|
                    0 <= i < out.len() && from[i] == t,
                forall|q: int|
                    0 <= q < n ==> (#[trigger] has_id(m.words(), q as nat) ==> slots[rank@[q] as int] is Some),
            decreases n - p,
        {
            match &slots[p] {
                Some(e) => {
                    let ghost old_from = from;
                    out.push((e.0.clone(), e.1));
                    proof {
                        from = from.push(p as int);
                        assert forall|t: int| 0 <= t < p + 1 && (#[trigger] slots[t] is Some) implies exists|i: int|
                            0 <= i < out.len() && from[i] == t by {
                            if t < p {
                                let i = choose|i: int| 0 <= i < old_from.len() && old_from[i] == t;
                                assert(from[i] == t);
                            } else {
                                assert(from[out.len() - 1] == t);
                            }
                        }
                    }
                },
                None => {},
            }
            p = p + 1;
        }
        proof {
            let col_spec = old(self).column_of(m.id_of(word@)->Some_0)->Some_0;
            assert(old(self).matrix() == m);
            assert(col_spec == c);
            assert forall|i: int| 0 <= i < out.len() implies m.words().contains_key(#[trigger] out[i].0@)
                && out[i].1 == c[m.words()[out[i].0@] as int] by {
                let t = from[i];
                let q = choose|q: int| 0 <= q < n && rank@[q] == t && m.words().contains_key(out[i].0@)
                    && m.words()[out[i].0@] == q && out[i].1 == c[q];
            }
            assert forall|i: int, j: int| 0 <= i < j < out.len() implies order_key(#[trigger] out[i].1)
                >= order_key(#[trigger] out[j].1) by {
                let (ti, tj) = (from[i], from[j]);
                let qi = choose|q: int| 0 <= q < n && rank@[q] == ti && m.words().contains_key(out[i].0@)
                    && m.words()[out[i].0@] == q && out[i].1 == c[q];
                let qj = choose|q: int| 0 <= q < n && rank@[q] == tj && m.words().contains_key(out[j].0@)
                    && m.words()[out[j].0@] == q && out[j].1 == c[q];
                assert(rank@[qi] < rank@[qj]);
            }
            assert forall|bb: u32| bb < m.size() && #[trigger] has_id(m.words(), bb as nat) implies exists|i: int|
                0 <= i < out.len() && m.words()[out[i].0@] == bb by {
                let t = rank@[bb as int] as int;
                let qb: int = bb as int;
                assert(0 <= qb < n);
                assert(has_id(m.words(), qb as nat));
                assert(slots[rank@[qb] as int] is Some);
                assert(slots[t] is Some);
                let i = choose|i: int| 0 <= i < out.len() && from[i] == t;
                let q = choose|q: int| 0 <= q < n && rank@[q] == t && m.words().contains_key(out[i].0@)
                    && m.words()[out[i].0@] == q && out[i].1 == c[q];
                assert(rank@[q] == rank@[bb as int]);
                assert(q == bb);
            }
            assert(is_listing(m.words(), m.size(), c, out@));
        }
        Some(out)
    }

    /// The word with id `ind`.
    pub fn of_index(&self, ind: u32) -> (r: Option<&String>)
        requires
            self.wf(),
        ensures
            r matches Some(s) ==> self.matrix().words().contains_key(s@) && self.matrix().words()[s@]
                == ind,
            has_id(self.matrix().words(), ind as nat) ==> r is Some,
    {
        if (ind as usize) < self.revdict.len() {
            match &self.revdict[ind as usize] {
                Some(s) => Some(s),
                None => None,
            }
        } else {
            None
        }
    }
}

proof fn lemma_negative_rotation(d: int, m: int)
    requires
        d < 0,
        m > 0,
    ensures
        (-d) % m == 0 ==> d % m == 0,
        (-d) % m != 0 ==> d % m == m - (-d) % m,
{
    let q = (-d) / m;
    let s = (-d) % m;
    assert(-d == q * m + s && 0 <= s < m) by (nonlinear_arith)
        requires
            m > 0,
            q == (-d) / m,
            s == (-d) % m,
    ;
    if s == 0 {
        assert(d == (-q) * m) by (nonlinear_arith)
            requires
                -d == q * m + s,
                s == 0,
        ;
        assert(d % m == 0) by (nonlinear_arith)
            requires
                d == (-q) * m,
                m > 0,
        ;
    } else {
        assert(d == (-q - 1) * m + (m - s)) by (nonlinear_arith)
            requires
                -d == q * m + s,
        ;
        assert(d % m == m - s) by (nonlinear_arith)
            requires
                d == (-q - 1) * m + (m - s),
                0 < m - s < m,
        ;
    }
}

} // verus!
