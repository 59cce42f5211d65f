//! Pearson correlation between dictionary words, with articles as
//! observations.
//!
//! Every word's occurrences form a sparse vector over the `n` articles: a list
//! of `(article, count)` pairs in increasing article order, where an article
//! that is absent counts zero. The correlation of two words is built from
//! exact integer moments: with `Sx`, `Sy` the totals and `Sxy` the cross sum,
//! `r = (n Sxy - Sx Sy) / sqrt((n Sxx - Sx^2) (n Syy - Sy^2))`.
use vstd::prelude::*;
use std::collections::HashMap;
use super::error::{ErrorKind, Result};
use super::read::{Dict, dict_entries, dict_insert, empty_dict, words_of};

verus! {

broadcast use vstd::std_specs::hash::group_hash_axioms;

/// The count that `list` records for article `k`, zero where it has none.
pub open spec fn count_at(list: Seq<(u32, u16)>, k: int) -> int
    decreases list.len(),
{
    if list.len() == 0 {
        0
    } else if list.last().0 as int == k {
        list.last().1 as int
    } else {
        count_at(list.drop_last(), k)
    }
}

/// `sum over k < n of count_at(list, k) * f(k)`.
pub open spec fn weighted(list: Seq<(u32, u16)>, f: spec_fn(int) -> int, n: nat) -> int
    decreases n,
{
    if n == 0 {
        0
    } else {
        weighted(list, f, (n - 1) as nat) + count_at(list, n - 1) * f(n - 1)
    }
}

/// `sum over the pairs (k, c) of list of c * f(k)`.
pub open spec fn entry_sum(list: Seq<(u32, u16)>, f: spec_fn(int) -> int) -> int
    decreases list.len(),
{
    if list.len() == 0 {
        0
    } else {
        entry_sum(list.drop_last(), f) + list.last().1 * f(list.last().0 as int)
    }
}

pub open spec fn one() -> spec_fn(int) -> int {
    |k: int| 1int
}

pub open spec fn counts_of(list: Seq<(u32, u16)>) -> spec_fn(int) -> int {
    |k: int| count_at(list, k)
}

/// Total number of occurrences over the `n` articles.
pub open spec fn total(list: Seq<(u32, u16)>, n: nat) -> int {
    weighted(list, one(), n)
}

/// `sum over k < n of x_k * y_k`.
pub open spec fn cross(a: Seq<(u32, u16)>, b: Seq<(u32, u16)>, n: nat) -> int {
    weighted(a, counts_of(b), n)
}

/// `n^2` times the covariance of the two count vectors over `n` articles:
/// the numerator of Pearson's r.
pub open spec fn comoment(a: Seq<(u32, u16)>, b: Seq<(u32, u16)>, n: nat) -> int {
    n * cross(a, b, n) - total(a, n) * total(b, n)
}

/// Articles strictly increasing, all below `n`.
pub open spec fn is_sparse_vector(list: Seq<(u32, u16)>, n: nat) -> bool {
    &&& forall|i: int, j: int| 0 <= i < j < list.len() ==> list[i].0 < list[j].0
    &&& forall|i: int| 0 <= i < list.len() ==> list[i].0 < n
}

proof fn lemma_count_above(list: Seq<(u32, u16)>, c: int)
    requires
        forall|i: int| 0 <= i < list.len() ==> list[i].0 < c,
    ensures
        count_at(list, c) == 0,
    decreases list.len(),
{
    if list.len() > 0 {
        lemma_count_above(list.drop_last(), c);
    }
}

proof fn lemma_weighted_empty(f: spec_fn(int) -> int, n: nat)
    ensures
        weighted(Seq::empty(), f, n) == 0,
    decreases n,
{
    if n > 0 {
        lemma_weighted_empty(f, (n - 1) as nat);
    }
}

proof fn lemma_weighted_push(p: Seq<(u32, u16)>, e: (u32, u16), f: spec_fn(int) -> int, m: nat)
    requires
        count_at(p, e.0 as int) == 0,
    ensures
        weighted(p.push(e), f, m) == weighted(p, f, m) + (if (e.0 as int) < m {
            e.1 * f(e.0 as int)
        } else {
            0
        }),
    decreases m,
{
    if m > 0 {
        let q = p.push(e);
        assert(q.drop_last() =~= p);
        lemma_weighted_push(p, e, f, (m - 1) as nat);
        if e.0 as int == m - 1 {
            assert(count_at(p, m - 1) * f(m - 1) == 0);
        }
    }
}

/// Summing over the whole domain equals summing over the stored pairs.
proof fn lemma_weighted_entries(list: Seq<(u32, u16)>, f: spec_fn(int) -> int, n: nat)
    requires
        is_sparse_vector(list, n),
    ensures
        weighted(list, f, n) == entry_sum(list, f),
    decreases list.len(),
{
    if list.len() == 0 {
        assert(list =~= Seq::empty());
        lemma_weighted_empty(f, n);
    } else {
        let p = list.drop_last();
        let e = list.last();
        assert(p.push(e) =~= list);
        assert forall|i: int| 0 <= i < p.len() implies p[i].0 < e.0 by {
            assert(list[i].0 < list[list.len() - 1].0);
        }
        lemma_count_above(p, e.0 as int);
        lemma_weighted_push(p, e, f, n);
        assert(is_sparse_vector(p, n)) by {
            assert forall|i: int, j: int| 0 <= i < j < p.len() implies p[i].0 < p[j].0 by {
                assert(p[i] == list[i] && p[j] == list[j]);
            }
            assert forall|i: int| 0 <= i < p.len() implies p[i].0 < n by {
                assert(p[i] == list[i]);
            }
        }
        lemma_weighted_entries(p, f, n);
    }
}

proof fn lemma_weighted_symmetric(a: Seq<(u32, u16)>, b: Seq<(u32, u16)>, n: nat)
    ensures
        cross(a, b, n) == cross(b, a, n),
    decreases n,
{
    if n > 0 {
        lemma_weighted_symmetric(a, b, (n - 1) as nat);
        assert(count_at(a, n - 1) * count_at(b, n - 1) == count_at(b, n - 1) * count_at(a, n - 1))
            by (nonlinear_arith);
    }
}

/// The numerator of the correlation does not depend on the order of the
/// two words.
pub proof fn lemma_comoment_symmetric(a: Seq<(u32, u16)>, b: Seq<(u32, u16)>, n: nat)
    ensures
        comoment(a, b, n) == comoment(b, a, n),
{
    lemma_weighted_symmetric(a, b, n);
    assert(total(a, n) * total(b, n) == total(b, n) * total(a, n)) by (nonlinear_arith);
}

proof fn lemma_sparse_len(list: Seq<(u32, u16)>, n: nat)
    requires
        is_sparse_vector(list, n),
    ensures
        list.len() <= n,
{
    assert forall|i: int| 0 <= i < list.len() implies list[i].0 >= i by {
        lemma_sparse_floor(list, n, i);
    }
    if list.len() > 0 {
        assert(list[list.len() - 1].0 >= list.len() - 1);
    }
}

proof fn lemma_sparse_floor(list: Seq<(u32, u16)>, n: nat, i: int)
    requires
        is_sparse_vector(list, n),
        0 <= i < list.len(),
    ensures
        list[i].0 >= i,
    decreases i,
{
    if i > 0 {
        lemma_sparse_floor(list, n, i - 1);
    }
}

proof fn lemma_entry_sum_bound(list: Seq<(u32, u16)>, f: spec_fn(int) -> int, bound: int)
    requires
        bound >= 0,
        forall|k: int| 0 <= #[trigger] f(k) <= bound,
    ensures
        0 <= entry_sum(list, f) <= list.len() * 65535 * bound,
    decreases list.len(),
{
    if list.len() > 0 {
        let p = list.drop_last();
        let e = list.last();
        lemma_entry_sum_bound(p, f, bound);
        let fe = f(e.0 as int);
        assert(0 <= e.1 * fe <= 65535 * bound) by (nonlinear_arith)
            requires
                0 <= e.1 <= 65535,
                0 <= fe <= bound,
        ;
        assert(p.len() * 65535 * bound + 65535 * bound == list.len() * 65535 * bound)
            by (nonlinear_arith)
            requires
                p.len() + 1 == list.len(),
        ;
    }
}

proof fn lemma_count_bound(list: Seq<(u32, u16)>, k: int)
    ensures
        0 <= count_at(list, k) <= 65535,
    decreases list.len(),
{
    if list.len() > 0 {
        lemma_count_bound(list.drop_last(), k);
    }
}

/// Whether `table` maps each article to its count in `list`, holding no
/// article that `list` lacks.
pub open spec fn indexes(table: Map<u32, u16>, list: Seq<(u32, u16)>) -> bool {
    forall|k: u32|
        #![trigger table.contains_key(k)]
        if table.contains_key(k) {
            table[k] as int == count_at(list, k as int)
        } else {
            count_at(list, k as int) == 0
        }
}

/// Whether every list is a sparse vector over `n` articles.
pub open spec fn all_sparse(lists: Seq<Seq<(u32, u16)>>, n: nat) -> bool {
    forall|i: int| 0 <= i < lists.len() ==> is_sparse_vector(#[trigger] lists[i], n)
}

/// Per-word pre-sums and lookup tables, from which the correlation of any
/// pair of words is computed with one pass over the shorter of the two lists.
pub struct Moments {
    n: usize,
    lists: Vec<Vec<(u32, u16)>>,
    tables: Vec<HashMap<u32, u16>>,
    totals: Vec<u64>,
    squares: Vec<u128>,
}

impl Moments {
    /// The occurrence list of each word, by dense id.
    pub closed spec fn lists(&self) -> Seq<Seq<(u32, u16)>> {
        self.lists@.map_values(|l: Vec<(u32, u16)>| l@)
    }

    /// The number of articles.
    pub closed spec fn articles(&self) -> nat {
        self.n as nat
    }

    pub closed spec fn wf(&self) -> bool {
        &&& self.n <= u32::MAX
        &&& all_sparse(self.lists(), self.n as nat)
        &&& self.tables.len() == self.lists.len()
        &&& self.totals.len() == self.lists.len()
        &&& self.squares.len() == self.lists.len()
        &&& forall|i: int|
            0 <= i < self.lists.len() ==> indexes(#[trigger] self.tables[i]@, self.lists[i]@)
        &&& forall|i: int|
            0 <= i < self.lists.len() ==> #[trigger] self.totals[i] as int == total(
                self.lists[i]@,
                self.n as nat,
            )
        &&& forall|i: int|
            0 <= i < self.lists.len() ==> #[trigger] self.squares[i] as int == cross(
                self.lists[i]@,
                self.lists[i]@,
                self.n as nat,
            )
    }

    /// Gathers the pre-sums of each list over `n` articles. Fails where a
    /// list is not in strictly increasing article order below `n`.
    pub fn new(lists: Vec<Vec<(u32, u16)>>, n: usize) -> (r: Option<Moments>)
        requires
            n <= u32::MAX,
        ensures
            r is Some <==> all_sparse(lists@.map_values(|l: Vec<(u32, u16)>| l@), n as nat),
            r matches Some(m) ==> m.wf() && m.articles() == n && m.lists() == lists@.map_values(
                |l: Vec<(u32, u16)>| l@,
            ),
    {
        let ghost views = lists@.map_values(|l: Vec<(u32, u16)>| l@);
        let mut tables: Vec<HashMap<u32, u16>> = Vec::new();
        let mut totals: Vec<u64> = Vec::new();
        let mut squares: Vec<u128> = Vec::new();
        let mut i: usize = 0;
        while i < lists.len()
            invariant
                i <= lists.len(),
                n <= u32::MAX,
                views == lists@.map_values(|l: Vec<(u32, u16)>| l@),
                tables.len() == i,
                totals.len() == i,
                squares.len() == i,
                forall|j: int| 0 <= j < i ==> is_sparse_vector(#[trigger] views[j], n as nat),
                forall|j: int| 0 <= j < i ==> indexes(#[trigger] tables[j]@, lists[j]@),
                forall|j: int| 0 <= j < i ==> #[trigger] totals[j] as int == total(lists[j]@, n as nat),
                forall|j: int|
                    0 <= j < i ==> #[trigger] squares[j] as int == cross(lists[j]@, lists[j]@, n as nat),
            decreases lists.len() - i,
        {
            let list = &lists[i];
            if !check_sparse(list, n) {
                assert(!is_sparse_vector(views[i as int], n as nat));
                return None;
            }
            let table = table_of(list);
            let t = list_total(list, n);
            let s = list_cross(list, &table, Ghost(list@), n);
            tables.push(table);
            totals.push(t);
            squares.push(s);
            i = i + 1;
        }
        Some(Moments { n, lists, tables, totals, squares })
    }

    /// The number of words.
    pub fn len(&self) -> (r: usize)
        ensures
            r == self.lists().len(),
    {
        self.lists.len()
    }

    /// `n Sxy - Sx Sy` for words `i` and `j`, the numerator of their
    /// correlation.
    pub fn comoment(&self, i: usize, j: usize) -> (r: i128)
        requires
            self.wf(),
            i < self.lists().len(),
            j < self.lists().len(),
        ensures
            r == comoment(self.lists()[i as int], self.lists()[j as int], self.articles()),
    {
        let ghost a = self.lists[i as int]@;
        let ghost b = self.lists[j as int]@;
        let ghost n = self.n as nat;
        assert(self.lists()[i as int] == a);
        assert(self.lists()[j as int] == b);
        assert(is_sparse_vector(self.lists()[i as int], n));
        assert(is_sparse_vector(self.lists()[j as int], n));
        let c: u128 = if self.lists[i].len() <= self.lists[j].len() {
            list_cross(&self.lists[i], &self.tables[j], Ghost(b), self.n)
        } else {
            proof {
                lemma_weighted_symmetric(a, b, n);
            }
            list_cross(&self.lists[j], &self.tables[i], Ghost(a), self.n)
        };
        let ta = self.totals[i];
        let tb = self.totals[j];
        proof {
            lemma_total_bound(a, n);
            lemma_total_bound(b, n);
            lemma_cross_bound(a, b, n);
            let nn = n as int;
            assert(0 <= nn * c <= 0x1_0000_0000 * (0x1_0000_0000 * 0x1_0000_0000)) by (nonlinear_arith)
                requires
                    0 <= nn <= 0x1_0000_0000,
                    0 <= c <= 0x1_0000_0000 * 0x1_0000_0000,
            ;
            assert(0 <= ta * tb <= (0x1_0000_0000 * 0x10000) * (0x1_0000_0000 * 0x10000)) by (nonlinear_arith)
                requires
                    0 <= ta <= 0x1_0000_0000 * 0x10000,
                    0 <= tb <= 0x1_0000_0000 * 0x10000,
            ;
        }
        (self.n as i128) * (c as i128) - (ta as i128) * (tb as i128)
    }

    /// `n Sxx - Sx^2` for word `i`, its spread; the correlation of `i` and
    /// `j` is `comoment(i, j) / sqrt(spread(i) * spread(j))`.
    pub fn spread(&self, i: usize) -> (r: i128)
        requires
            self.wf(),
            i < self.lists().len(),
        ensures
            r == comoment(self.lists()[i as int], self.lists()[i as int], self.articles()),
    {
        let ghost a = self.lists[i as int]@;
        let ghost n = self.n as nat;
        assert(self.lists()[i as int] == a);
        assert(is_sparse_vector(a, n));
        let c = self.squares[i];
        let t = self.totals[i];
        proof {
            lemma_total_bound(a, n);
            lemma_cross_bound(a, a, n);
            let nn = n as int;
            assert(0 <= nn * c <= 0x1_0000_0000 * (0x1_0000_0000 * 0x1_0000_0000)) by (nonlinear_arith)
                requires
                    0 <= nn <= 0x1_0000_0000,
                    0 <= c <= 0x1_0000_0000 * 0x1_0000_0000,
            ;
            assert(0 <= t * t <= (0x1_0000_0000 * 0x10000) * (0x1_0000_0000 * 0x10000)) by (nonlinear_arith)
                requires
                    0 <= t <= 0x1_0000_0000 * 0x10000,
            ;
        }
        (self.n as i128) * (c as i128) - (t as i128) * (t as i128)
    }

    /// The numerators of row `i` of the lower triangle: the comoment of `i`
    /// with every `j < i`, in order of `j`.
    pub fn row(&self, i: usize) -> (r: Vec<i128>)
        requires
            self.wf(),
            i < self.lists().len(),
        ensures
            r.len() == i,
            forall|j: int|
                0 <= j < i ==> r[j] == comoment(
                    self.lists()[i as int],
                    #[trigger] self.lists()[j],
                    self.articles(),
                ),
    {
        let mut r: Vec<i128> = Vec::new();
        let mut j: usize = 0;
        while j < i
            invariant
                self.wf(),
                i < self.lists().len(),
                j <= i,
                r.len() == j,
                forall|k: int|
                    0 <= k < j ==> r[k] == comoment(
                        self.lists()[i as int],
                        #[trigger] self.lists()[k],
                        self.articles(),
                    ),
            decreases i - j,
        {
            let c = self.comoment(i, j);
            r.push(c);
            j = j + 1;
        }
        r
    }
}

proof fn lemma_total_bound(a: Seq<(u32, u16)>, n: nat)
    requires
        is_sparse_vector(a, n),
        n <= u32::MAX,
    ensures
        0 <= total(a, n) <= 0x1_0000_0000 * 0x10000 - 0x10000,
{
    lemma_weighted_entries(a, one(), n);
    lemma_entry_sum_bound(a, one(), 1);
    lemma_sparse_len(a, n);
    assert(a.len() * 65535 * 1 <= 0xFFFF_FFFF * 65535) by (nonlinear_arith)
        requires
            a.len() <= 0xFFFF_FFFF,
    ;
}

proof fn lemma_cross_bound(a: Seq<(u32, u16)>, b: Seq<(u32, u16)>, n: nat)
    requires
        is_sparse_vector(a, n),
        n <= u32::MAX,
    ensures
        0 <= cross(a, b, n) <= 0x1_0000_0000 * 0x1_0000_0000,
{
    lemma_weighted_entries(a, counts_of(b), n);
    assert forall|k: int| 0 <= #[trigger] counts_of(b)(k) <= 65535 by {
        lemma_count_bound(b, k);
    }
    lemma_entry_sum_bound(a, counts_of(b), 65535);
    lemma_sparse_len(a, n);
    assert(a.len() * 65535 * 65535 <= 0xFFFF_FFFF * 65535 * 65535) by (nonlinear_arith)
        requires
            a.len() <= 0xFFFF_FFFF,
    ;
}

/// Whether the articles of `list` strictly increase and stay below `n`.
fn check_sparse(list: &Vec<(u32, u16)>, n: usize) -> (r: bool)
    ensures
        r == is_sparse_vector(list@, n as nat),
{
    let mut i: usize = 0;
    while i < list.len()
        invariant
            i <= list.len(),
            forall|a: int, b: int| 0 <= a < b < i ==> list@[a].0 < list@[b].0,
            forall|a: int| 0 <= a < i ==> list@[a].0 < n,
        decreases list.len() - i,
    {
        if (list[i].0 as usize) >= n {
            return false;
        }
        if i > 0 && list[i - 1].0 >= list[i].0 {
            return false;
        }
        proof {
            assert forall|a: int, b: int| 0 <= a < b < i + 1 implies list@[a].0 < list@[b].0 by {
                if b == i as int && a < i - 1 {
                    assert(list@[a].0 < list@[i - 1].0);
                }
            }
        }
        i = i + 1;
    }
    true
}

/// A lookup table from article to count.
fn table_of(list: &Vec<(u32, u16)>) -> (r: HashMap<u32, u16>)
    ensures
        indexes(r@, list@),
{
    let mut table: HashMap<u32, u16> = HashMap::new();
    let mut i: usize = 0;
    while i < list.len()
        invariant
            i <= list.len(),
            indexes(table@, list@.take(i as int)),
        decreases list.len() - i,
    {
        let (k, c) = list[i];
        let ghost before = table@;
        table.insert(k, c);
        proof {
            let next = list@.take(i + 1);
            assert(next.drop_last() =~= list@.take(i as int));
            assert(next.last() == (k, c));
            assert forall|q: u32| #![trigger table@.contains_key(q)]
                if table@.contains_key(q) {
                    table@[q] as int == count_at(next, q as int)
                } else {
                    count_at(next, q as int) == 0
                } by {
                if q != k {
                    assert(before.contains_key(q) == table@.contains_key(q));
                }
            }
        }
        i = i + 1;
    }
    assert(list@.take(list.len() as int) =~= list@);
    table
}

/// The total count of a sparse vector.
fn list_total(list: &Vec<(u32, u16)>, n: usize) -> (r: u64)
    requires
        is_sparse_vector(list@, n as nat),
        n <= u32::MAX,
    ensures
        r == total(list@, n as nat),
{
    proof {
        lemma_sparse_len(list@, n as nat);
        lemma_weighted_entries(list@, one(), n as nat);
    }
    let mut s: u64 = 0;
    let mut i: usize = 0;
    while i < list.len()
        invariant
            i <= list.len() <= u32::MAX,
            s == entry_sum(list@.take(i as int), one()),
            s <= i * 65535,
        decreases list.len() - i,
    {
        let ghost p = list@.take(i as int);
        assert(list@.take(i + 1).drop_last() =~= p);
        assert(list@.take(i + 1).last() == list@[i as int]);
        assert(one()(list@[i as int].0 as int) == 1);
        s = s + list[i].1 as u64;
        i = i + 1;
    }
    assert(list@.take(list.len() as int) =~= list@);
    s
}

/// `sum over k < n of x_k * y_k`, walking the pairs of `list` and looking
/// each article up in `other`, the table of the second vector.
fn list_cross(
    list: &Vec<(u32, u16)>,
    other: &HashMap<u32, u16>,
    other_list: Ghost<Seq<(u32, u16)>>,
    n: usize,
) -> (r: u128)
    requires
        is_sparse_vector(list@, n as nat),
        indexes(other@, other_list@),
        n <= u32::MAX,
    ensures
        r == cross(list@, other_list@, n as nat),
{
    let ghost f = counts_of(other_list@);
    proof {
        lemma_sparse_len(list@, n as nat);
        lemma_weighted_entries(list@, f, n as nat);
    }
    let mut s: u128 = 0;
    let mut i: usize = 0;
    while i < list.len()
        invariant
            i <= list.len() <= u32::MAX,
            indexes(other@, other_list@),
            f == counts_of(other_list@),
            s == entry_sum(list@.take(i as int), f),
            s <= i * (65535 * 65535),
        decreases list.len() - i,
    {
        let ghost p = list@.take(i as int);
        assert(list@.take(i + 1).drop_last() =~= p);
        let (k, c) = list[i];
        let y: u16 = match other.get(&k) {
            Some(v) => *v,
            None => 0,
        };
        assert(y == f(k as int)) by {
            assert(other@.contains_key(k) ==> other@[k] as int == count_at(other_list@, k as int));
        }
        assert((c as int) * (y as int) <= 65535 * 65535) by (nonlinear_arith)
            requires
                c <= 65535,
                y <= 65535,
        ;
        assert(i * (65535 * 65535) <= 0x1_0000_0000 * (65535 * 65535)) by (nonlinear_arith)
            requires
                i <= 0x1_0000_0000,
        ;
        s = s + (c as u128) * (y as u128);
        assert(i * (65535 * 65535) + 65535 * 65535 == (i + 1) * (65535 * 65535)) by (nonlinear_arith);
        i = i + 1;
    }
    assert(list@.take(list.len() as int) =~= list@);
    s
}


/// Whether no other word of `d` shares the id of `t`.
pub open spec fn sole_owner(d: Map<Seq<char>, u32>, t: Seq<char>) -> bool {
    forall|u: Seq<char>| #[trigger] d.contains_key(u) && u != t ==> d[u] != d[t]
}

/// Whether some word has id `k`.
pub open spec fn has_id(d: Map<Seq<char>, u32>, k: nat) -> bool {
    exists|t: Seq<char>| #[trigger] d.contains_key(t) && d[t] == k
}

/// Whether the dictionary assigns ids `0..size`, one to each word.
pub open spec fn is_dense(d: Map<Seq<char>, u32>, size: nat) -> bool {
    &&& forall|t: Seq<char>| #[trigger] d.contains_key(t) ==> d[t] < size
    &&& forall|k: nat| k < size ==> #[trigger] has_id(d, k)
    &&& forall|t: Seq<char>, u: Seq<char>|
        #[trigger] d.contains_key(t) && #[trigger] d.contains_key(u) && t != u ==> d[t] != d[u]
}

/// Whether some word of the dictionary has a list in `dat` that is not a
/// sparse vector over `n` articles.
pub open spec fn has_malformed(
    dat: Map<u32, Vec<(u32, u16)>>,
    words: Map<Seq<char>, u32>,
    n: nat,
) -> bool {
    exists|t: Seq<char>|
        #[trigger] words.contains_key(t) && dat.contains_key(words[t]) && !is_sparse_vector(
            dat[words[t]]@,
            n,
        )
}

/// The occurrence lists together with the dictionary pruned to the words
/// that occur.
pub struct Pruned {
    pub dict: Dict,
    pub moments: Moments,
}

impl Correlation {
    /// Prunes the dictionary to the words that occur in `dat` (occurrence
    /// lists keyed by dictionary id, over `len` articles), numbers them
    /// densely, and gathers their pre-sums. Fails where `len` exceeds the
    /// article numbering or an occurrence list is not in strictly increasing
    /// article order below `len`.
    #[verifier::rlimit(100)]
    pub fn new(dat: HashMap<u32, Vec<(u32, u16)>>, len: usize, dict: &Dict) -> (r: Result<Pruned>)
        ensures
            r is Err <==> (len > u32::MAX || has_malformed(dat@, words_of(dict@), len as nat)),
            r matches Err(e) ==> *e == ErrorKind::Serialization,
            r matches Ok(p) ==> {
                let words = words_of(p.dict@);
                let source = words_of(dict@);
                &&& p.moments.wf()
                &&& p.moments.articles() == len
                &&& is_dense(words, p.moments.lists().len())
                &&& forall|t: Seq<char>|
                    #[trigger] words.contains_key(t) ==> {
                        &&& source.contains_key(t)
                        &&& dat@.contains_key(source[t])
                        &&& p.moments.lists()[words[t] as int] == dat@[source[t]]@
                    }
                &&& forall|t: Seq<char>|
                    #[trigger] source.contains_key(t) && dat@.contains_key(source[t])
                        && sole_owner(source, t) ==> words.contains_key(t)
            },
    {
        if len > u32::MAX as usize {
            return Err(Box::new(ErrorKind::Serialization));
        }
        let ghost orig = dat@;
        let ghost source = words_of(dict@);
        let entries = dict_entries(dict);
        let mut dat = dat;
        let mut pruned = empty_dict();
        let mut lists: Vec<Vec<(u32, u16)>> = Vec::new();
        let ghost mut names: Seq<Seq<char>> = Seq::empty();
        let ghost mut taken: Seq<u32> = Seq::empty();
        let ghost mut src: Seq<int> = Seq::empty();
        let mut i: usize = 0;
        while i < entries.len()
            invariant
                i <= entries.len(),
                source == words_of(dict@),
                forall|a: int, b: int|
                    #![trigger entries[a].0@, entries[b].0@]
                    0 <= a < b < entries.len() ==> entries[a].0@ != entries[b].0@,
                forall|a: int|
                    0 <= a < entries.len() ==> source.contains_key(#[trigger] entries[a].0@)
                        && source[entries[a].0@] == entries[a].1,
                names.len() == lists.len(),
                taken.len() == lists.len(),
                src.len() == lists.len(),
                taken.no_duplicates(),
                lists.len() <= i,
                forall|k: int|
                    0 <= k < lists.len() ==> {
                        &&& orig.contains_key(#[trigger] taken[k])
                        &&& lists[k]@ == orig[taken[k]]@
                        &&& source.contains_key(names[k])
                        &&& source[names[k]] == taken[k]
                        &&& 0 <= src[k] < i
                        &&& entries[src[k]].0@ == names[k]
                    },
                forall|k: int|
                    0 <= k < names.len() ==> words_of(pruned@).contains_key(#[trigger] names[k])
                        && words_of(pruned@)[names[k]] == k,
                forall|t: Seq<char>|
                    #[trigger] words_of(pruned@).contains_key(t) ==> exists|k: int|
                        0 <= k < names.len() && names[k] == t,
                forall|id: u32|
                    #[trigger] dat@.contains_key(id) <==> (orig.contains_key(id) && forall|k: int|
                        0 <= k < taken.len() ==> taken[k] != id),
                forall|id: u32| #[trigger] dat@.contains_key(id) ==> dat@[id] == orig[id],
                forall|j: int|
                    0 <= j < i && orig.contains_key(#[trigger] entries[j].1) ==> exists|k: int|
                        0 <= k < taken.len() && taken[k] == entries[j].1,
            decreases entries.len() - i,
        {
            let id = entries[i].1;
            match dat.remove(&id) {
                Some(list) => {
                    let k = lists.len();
                    proof {
                        let more = taken.push(id);
                        assert(more.no_duplicates()) by {
                            assert(forall|q: int| 0 <= q < taken.len() ==> taken[q] != id);
                        }
                        lemma_distinct_u32_count(more);
                    }
                    let w = entries[i].0.clone();
                    let ghost before = words_of(pruned@);
                    let ghost old_names = names;
                    let ghost old_taken = taken;
                    let ghost old_src = src;
                    let ghost old_lists = lists@;
                    dict_insert(&mut pruned, w, k as u32);
                    proof {
                        assert forall|q: int| 0 <= q < old_names.len() implies old_names[q] != entries[i as int].0@ by {
                            assert(orig.contains_key(old_taken[q]));
                            let j = old_src[q];
                            assert(entries[j].0@ != entries[i as int].0@);
                        }
                        names = old_names.push(entries[i as int].0@);
                        taken = old_taken.push(id);
                        src = old_src.push(i as int);
                    }
                    lists.push(list);
                    proof {
                        assert forall|t: Seq<char>| #[trigger] words_of(pruned@).contains_key(t) implies exists|q: int|
                            0 <= q < names.len() && names[q] == t by {
                            if t != entries[i as int].0@ {
                                assert(before.contains_key(t));
                                let q = choose|q: int| 0 <= q < old_names.len() && old_names[q] == t;
                                assert(names[q] == t);
                            } else {
                                assert(names[names.len() - 1] == t);
                            }
                        }
                        assert forall|q: int| 0 <= q < names.len() implies words_of(pruned@).contains_key(#[trigger] names[q])
                            && words_of(pruned@)[names[q]] == q by {
                            if q < old_names.len() {
                                assert(names[q] == old_names[q]);
                                assert(before.contains_key(old_names[q]) && before[old_names[q]] == q);
                                assert(old_names[q] != entries[i as int].0@);
                            }
                        }
                        assert forall|q: int| 0 <= q < lists.len() implies {
                            &&& orig.contains_key(#[trigger] taken[q])
                            &&& lists[q]@ == orig[taken[q]]@
                            &&& source.contains_key(names[q])
                            &&& source[names[q]] == taken[q]
                            &&& 0 <= src[q] < i + 1
                            &&& entries[src[q]].0@ == names[q]
                        } by {
                            if q < old_lists.len() {
                                assert(orig.contains_key(old_taken[q]));
                                assert(taken[q] == old_taken[q]);
                                assert(names[q] == old_names[q]);
                                assert(src[q] == old_src[q]);
                                assert(lists[q] == old_lists[q]);
                            } else {
                                assert(entries[i as int].0@ == names[q]);
                            }
                        }
                        assert forall|j: int| 0 <= j < i + 1 && orig.contains_key(#[trigger] entries[j].1) implies exists|q: int|
                            0 <= q < taken.len() && taken[q] == entries[j].1 by {
                            if j < i {
                                let q = choose|q: int| 0 <= q < old_taken.len() && old_taken[q] == entries[j].1;
                                assert(taken[q] == entries[j].1);
                            } else {
                                assert(taken[taken.len() - 1] == entries[j].1);
                            }
                        }
                        assert forall|idv: u32| #[trigger] dat@.contains_key(idv) <==> (orig.contains_key(idv) && forall|q: int|
                            0 <= q < taken.len() ==> taken[q] != idv) by {
                            if idv != id {
                                assert forall|q: int| 0 <= q < taken.len() && taken[q] == idv implies q < old_taken.len() && old_taken[q] == idv by {
                                }
                            }
                        }
                    }
                },
                None => {
                    proof {
                        assert forall|j: int| 0 <= j < i + 1 && orig.contains_key(#[trigger] entries[j].1) implies exists|q: int|
                            0 <= q < taken.len() && taken[q] == entries[j].1 by {
                            if j == i {
                                assert(!dat@.contains_key(id));
                            }
                        }
                    }
                },
            }
            i = i + 1;
        }
        let ghost views = lists@.map_values(|l: Vec<(u32, u16)>| l@);
        match Moments::new(lists, len) {
            Some(moments) => {
                proof {
                    assert(!has_malformed(orig, source, len as nat)) by {
                        if has_malformed(orig, source, len as nat) {
                            let t = choose|t: Seq<char>| #[trigger] source.contains_key(t)
                                && orig.contains_key(source[t]) && !is_sparse_vector(orig[source[t]]@, len as nat);
                            let j = choose|j: int| 0 <= j < entries.len() && #[trigger] entries[j].0@ == t;
                            assert(orig.contains_key(entries[j].1));
                            let k = choose|k: int| 0 <= k < taken.len() && taken[k] == entries[j].1;
                            assert(views[k] == lists@[k]@);
                            assert(is_sparse_vector(views[k], len as nat));
                        }
                    }
                    let words = words_of(pruned@);
                    let size = moments.lists().len();
                    assert forall|t: Seq<char>| #[trigger] words.contains_key(t) implies words[t] < size by {
                        let k = choose|k: int| 0 <= k < names.len() && names[k] == t;
                    }
                    assert forall|k: nat| k < size implies #[trigger] has_id(words, k) by {
                        assert(words.contains_key(names[k as int]));
                    }
                    assert forall|t: Seq<char>, u: Seq<char>|
                        #[trigger] words.contains_key(t) && #[trigger] words.contains_key(u) && t != u implies words[t] != words[u] by {
                        let a = choose|k: int| 0 <= k < names.len() && names[k] == t;
                        let b = choose|k: int| 0 <= k < names.len() && names[k] == u;
                    }
                    assert forall|t: Seq<char>| #[trigger] words.contains_key(t) implies {
                        &&& source.contains_key(t)
                        &&& orig.contains_key(source[t])
                        &&& moments.lists()[words[t] as int] == orig[source[t]]@
                    } by {
                        let k = choose|k: int| 0 <= k < names.len() && names[k] == t;
                        assert(orig.contains_key(taken[k]));
                        assert(words[t] == k);
                        assert(views[k] == lists@[k]@);
                    }
                    assert forall|t: Seq<char>|
                        #[trigger] source.contains_key(t) && orig.contains_key(source[t])
                            && sole_owner(source, t) implies words.contains_key(t) by {
                        let j = choose|j: int| 0 <= j < entries.len() && #[trigger] entries[j].0@ == t;
                        assert(orig.contains_key(entries[j].1));
                        let k = choose|k: int| 0 <= k < taken.len() && taken[k] == entries[j].1;
                        assert(source[names[k]] == source[t]);
                        assert(names[k] == t);
                    }
                }
                Ok(Pruned { dict: pruned, moments })
            },
            None => {
                proof {
                    let k = choose|k: int| 0 <= k < views.len() && !is_sparse_vector(#[trigger] views[k], len as nat);
                    assert(views[k] == lists@[k]@);
                    let t = names[k];
                    assert(orig.contains_key(taken[k]));
                    assert(source.contains_key(t) && orig.contains_key(source[t]));
                }
                Err(Box::new(ErrorKind::Serialization))
            },
        }
    }
}


/// At most `2^32` distinct `u32` values.
proof fn lemma_distinct_u32_count(s: Seq<u32>)
    requires
        s.no_duplicates(),
    ensures
        s.len() <= 0x1_0000_0000,
{
    let t = s.map_values(|x: u32| x as int);
    assert(t.no_duplicates()) by {
        assert forall|i: int, j: int| 0 <= i < t.len() && 0 <= j < t.len() && i != j implies t[i] != t[j] by {
            assert(s[i] != s[j]);
        }
    }
    t.unique_seq_to_set();
    let r = vstd::set_lib::set_int_range(0, 0x1_0000_0000);
    assert(t.to_set().subset_of(r));
    vstd::set_lib::lemma_int_range(0, 0x1_0000_0000);
    vstd::set_lib::lemma_len_subset(t.to_set(), r);
}

/// The bits of the IEEE-754 double `1.0`, the correlation of a word with
/// itself.
pub const ONE_BITS: u64 = 0x3FF0_0000_0000_0000;

/// The position of the pair `a > b` in the strictly lower triangle stored
/// row by row: row `a` starts after `a (a - 1) / 2` cells.
pub open spec fn tri(a: int, b: int) -> int {
    a * (a - 1) / 2 + b
}

/// The big-endian value of a byte sequence.
pub open spec fn be_value(bytes: Seq<u8>) -> nat
    decreases bytes.len(),
{
    if bytes.len() == 0 {
        0
    } else {
        (be_value(bytes.drop_last()) * 256 + bytes.last()) as nat
    }
}

/// The `n` big-endian bytes of `v`.
pub open spec fn be_bytes(v: nat, n: nat) -> Seq<u8>
    decreases n,
{
    if n == 0 {
        Seq::empty()
    } else {
        be_bytes(v / 256, (n - 1) as nat).push((v % 256) as u8)
    }
}

/// The bytes of a row of cells: each cell's 8 big-endian bytes in turn.
pub open spec fn row_of(cells: Seq<u64>) -> Seq<u8>
    decreases cells.len(),
{
    if cells.len() == 0 {
        Seq::empty()
    } else {
        row_of(cells.drop_last()) + be_bytes(cells.last() as nat, 8)
    }
}

proof fn lemma_be_bytes(v: nat, n: nat)
    ensures
        be_bytes(v, n).len() == n,
        be_value(be_bytes(v, n)) == v % pow256(n),
    decreases n,
{
    if n > 0 {
        lemma_be_bytes(v / 256, (n - 1) as nat);
        let s = be_bytes(v, n);
        assert(s.drop_last() =~= be_bytes(v / 256, (n - 1) as nat));
        let p = pow256((n - 1) as nat);
        assert(p > 0) by {
            lemma_pow256_positive((n - 1) as nat);
        }
        vstd::arithmetic::div_mod::lemma_breakdown(v as int, 256, p as int);
        assert(pow256(n) == p * 256);
        assert(256 * p == p * 256);
    }
}

proof fn lemma_pow256_positive(n: nat)
    ensures
        pow256(n) > 0,
    decreases n,
{
    if n > 0 {
        lemma_pow256_positive((n - 1) as nat);
    }
}

/// Each cell of a row reads back from the row's bytes.
pub proof fn lemma_row_cells(cells: Seq<u64>, j: int)
    requires
        0 <= j < cells.len(),
    ensures
        row_of(cells).len() == 8 * cells.len(),
        cell(row_of(cells), j) == Some(cells[j]),
    decreases cells.len(),
{
    let p = cells.drop_last();
    lemma_row_len(cells);
    lemma_row_len(p);
    lemma_be_bytes(cells.last() as nat, 8);
    if j < cells.len() - 1 {
        lemma_row_cells(p, j);
        assert(row_of(cells).subrange(j * 8, j * 8 + 8) =~= row_of(p).subrange(j * 8, j * 8 + 8));
        assert(p[j] == cells[j]);
    } else {
        assert(row_of(cells).subrange(j * 8, j * 8 + 8) =~= be_bytes(cells.last() as nat, 8));
        reveal_with_fuel(pow256, 9);
        assert(pow256(8) == 0x1_0000_0000_0000_0000);
        vstd::arithmetic::div_mod::lemma_small_mod(cells.last() as nat, pow256(8));
        assert((cells.last() as nat) % pow256(8) == cells.last() as nat);
    }
}

proof fn lemma_row_len(cells: Seq<u64>)
    ensures
        row_of(cells).len() == 8 * cells.len(),
    decreases cells.len(),
{
    if cells.len() > 0 {
        lemma_row_len(cells.drop_last());
        lemma_be_bytes(cells.last() as nat, 8);
    }
}

fn be_n(v: u64, n: usize) -> (r: Vec<u8>)
    requires
        n <= 8,
    ensures
        r@ == be_bytes(v as nat, n as nat),
    decreases n,
{
    if n == 0 {
        Vec::new()
    } else {
        let mut r = be_n(v / 256, n - 1);
        r.push((v % 256) as u8);
        r
    }
}

/// The bytes of a row of the matrix: each cell, given by the bits of its
/// double, as 8 big-endian bytes.
pub fn row_bytes(cells: &Vec<u64>) -> (r: Vec<u8>)
    ensures
        r@ == row_of(cells@),
        r@.len() == 8 * cells@.len(),
        forall|j: int| 0 <= j < cells@.len() ==> #[trigger] cell(r@, j) == Some(cells@[j]),
{
    let mut out: Vec<u8> = Vec::new();
    let mut i: usize = 0;
    while i < cells.len()
        invariant
            i <= cells.len(),
            out@ == row_of(cells@.take(i as int)),
        decreases cells.len() - i,
    {
        assert(cells@.take(i + 1).drop_last() =~= cells@.take(i as int));
        let b = be_n(cells[i], 8);
        proof {
            lemma_be_bytes(cells[i as int] as nat, 8);
        }
        let mut k: usize = 0;
        let ghost start = out@;
        while k < 8
            invariant
                k <= 8,
                b@.len() == 8,
                out@ == start + b@.take(k as int),
            decreases 8 - k,
        {
            out.push(b[k]);
            assert(b@.take(k + 1) =~= b@.take(k as int).push(b@[k as int]));
            k = k + 1;
        }
        proof {
            lemma_be_bytes(cells[i as int] as nat, 8);
            assert(b@.take(8) =~= b@);
        }
        i = i + 1;
    }
    assert(cells@.take(cells.len() as int) =~= cells@);
    proof {
        lemma_row_len(cells@);
        assert forall|j: int| 0 <= j < cells@.len() implies #[trigger] cell(out@, j) == Some(cells@[j]) by {
            lemma_row_cells(cells@, j);
        }
    }
    out
}

/// The 8-byte cell `idx` of the matrix, where the matrix holds it.
pub open spec fn cell(cells: Seq<u8>, idx: int) -> Option<u64> {
    if 0 <= idx && (idx + 1) * 8 <= cells.len() {
        Some(be_value(cells.subrange(idx * 8, idx * 8 + 8)) as u64)
    } else {
        None
    }
}

/// The stored correlation of ids `x` and `y`: `1.0` on the diagonal, else
/// the cell of the pair ordered larger first.
pub open spec fn pair_cell(cells: Seq<u8>, x: u32, y: u32) -> Option<u64> {
    if x == y {
        Some(ONE_BITS)
    } else if x > y {
        cell(cells, tri(x as int, y as int))
    } else {
        cell(cells, tri(y as int, x as int))
    }
}

/// The full column of `x` over ids `0..size`, where every cell of it is
/// stored.
pub open spec fn column_cells(cells: Seq<u8>, size: nat, x: u32) -> Option<Seq<u64>> {
    if forall|b: u32| b < size ==> #[trigger] pair_cell(cells, x, b) is Some {
        Some(Seq::new(size, |b: int| pair_cell(cells, x, b as u32)->Some_0))
    } else {
        None
    }
}

/// The id a dictionary gives a word, if any.
pub open spec fn lookup(words: Map<Seq<char>, u32>, t: Seq<char>) -> Option<u32> {
    if words.contains_key(t) {
        Some(words[t])
    } else {
        None
    }
}

/// Rows are written one after another, row `a` holding `a` cells, so the
/// pair `a > b` lands at `tri(a, b)`; a dictionary of `d` words fills
/// `tri(d, 0)` cells.
pub proof fn lemma_row_major(a: nat, b: nat)
    requires
        b < a,
    ensures
        tri(a as int, 0) + a == tri(a + 1int, 0),
        tri(a as int, 0) <= tri(a as int, b as int) < tri(a + 1int, 0),
{
    let h = a / 2;
    let x: int = if a % 2 == 0 {
        assert(a * (a - 1) == 2 * (h * (a - 1))) by (nonlinear_arith)
            requires
                a == 2 * h,
        ;
        h * (a - 1)
    } else {
        assert(a * (a - 1) == 2 * (h * a)) by (nonlinear_arith)
            requires
                a == 2 * h + 1,
        ;
        (h * a) as int
    };
    assert((a + 1) * a == a * (a - 1) + 2 * a) by (nonlinear_arith);
    assert(a * (a - 1) / 2 == x);
    assert((a + 1) * a / 2 == x + a);
}

/// Reading a pair gives the same value in either order, and the same value
/// as the column of either word.
pub proof fn lemma_matrix_agreement(cells: Seq<u8>, size: nat, x: u32, y: u32)
    requires
        x < size,
        y < size,
    ensures
        pair_cell(cells, x, y) == pair_cell(cells, y, x),
        column_cells(cells, size, x) matches Some(c) ==> pair_cell(cells, x, y) == Some(c[y as int]),
        column_cells(cells, size, y) matches Some(c) ==> pair_cell(cells, x, y) == Some(c[x as int]),
{
    if column_cells(cells, size, x) is Some {
        assert(pair_cell(cells, x, y) is Some);
    }
    if column_cells(cells, size, y) is Some {
        assert(pair_cell(cells, y, x) is Some);
    }
}

/// Reads the correlation matrix: a strictly lower triangular matrix of
/// big-endian doubles, one 8-byte cell per pair of distinct words. Values
/// are handed out as their bit patterns.
pub struct Correlation {
    fname: String,
    dict: Dict,
    size: u64,
    matrix: Vec<u8>,
}

impl Correlation {
    pub closed spec fn words(&self) -> Map<Seq<char>, u32> {
        words_of(self.dict@)
    }

    /// The number of words.
    pub closed spec fn size(&self) -> nat {
        self.size as nat
    }

    /// The bytes of the matrix.
    pub closed spec fn cells(&self) -> Seq<u8> {
        self.matrix@
    }

    pub closed spec fn file(&self) -> Seq<char> {
        self.fname@
    }

    /// Every id is below the number of words.
    pub open spec fn wf(&self) -> bool {
        &&& self.size() <= u32::MAX + 1
        &&& forall|t: Seq<char>| #[trigger] self.words().contains_key(t) ==> self.words()[t] < self.size()
    }

    /// The id of word `a` after lowercasing.
    pub open spec fn id_of(&self, a: Seq<char>) -> Option<u32> {
        lookup(self.words(), crate::database::read::lower_of(a))
    }

    /// Opens a matrix, read from `fname`, over the dictionary it was built
    /// with. The number of words is one past the largest id.
    pub fn deserialize(fname: String, dict: Dict, matrix: Vec<u8>) -> (r: Correlation)
        ensures
            r.wf(),
            r.words() == words_of(dict@),
            r.size() == 0 || has_id(words_of(dict@), (r.size() - 1) as nat),
            r.cells() == matrix@,
            r.file() == fname@,
    {
        let entries = dict_entries(&dict);
        let ghost words = words_of(dict@);
        let mut size: u64 = 0;
        let mut i: usize = 0;
        while i < entries.len()
            invariant
                i <= entries.len(),
                words == words_of(dict@),
                forall|a: int|
                    0 <= a < entries.len() ==> words.contains_key(#[trigger] entries[a].0@)
                        && words[entries[a].0@] == entries[a].1,
                forall|a: int| 0 <= a < i ==> #[trigger] entries[a].1 < size,
                size == 0 || has_id(words, (size - 1) as nat),
                size <= u32::MAX + 1,
            decreases entries.len() - i,
        {
            if entries[i].1 as u64 >= size {
                size = entries[i].1 as u64 + 1;
                assert(words.contains_key(entries[i as int].0@));
            }
            i = i + 1;
        }
        let c = Correlation { fname, dict, size, matrix };
        proof {
            assert forall|t: Seq<char>| #[trigger] words.contains_key(t) implies words[t] < size by {
                let a = choose|a: int| 0 <= a < entries.len() && #[trigger] entries[a].0@ == t;
                assert(entries[a].1 < size);
            }
        }
        c
    }

    /// The file the matrix was read from.
    pub fn fname(&self) -> (r: &String)
        ensures
            r@ == self.file(),
    {
        &self.fname
    }

    /// The number of words.
    pub fn len(&self) -> (r: u64)
        ensures
            r == self.size(),
    {
        self.size
    }

    /// The dictionary.
    pub fn dict(&self) -> (r: &Dict)
        ensures
            words_of(r@) == self.words(),
    {
        &self.dict
    }

    /// The id of a word, after lowercasing.
    pub fn index(&self, a: &str) -> (r: Option<u32>)
        ensures
            r == self.id_of(a@),
    {
        let w = crate::database::read::lowercase(a);
        crate::database::read::dict_get(&self.dict, w.as_str())
    }

    /// The cell index of a pair of distinct ids, the larger one first.
    pub fn find(a: u64, b: u64) -> (r: Option<u64>)
        requires
            a <= u32::MAX,
            b <= u32::MAX,
        ensures
            a == b ==> r is None,
            a > b ==> (r matches Some(v) && v as int == tri(a as int, b as int)),
            a < b ==> (r matches Some(v) && v as int == tri(b as int, a as int)),
    {
        if a == b {
            return None;
        }
        let (hi, lo) = if a < b {
            (b, a)
        } else {
            (a, b)
        };
        assert(hi * (hi - 1) <= 0xFFFF_FFFF * 0xFFFF_FFFF) by (nonlinear_arith)
            requires
                1 <= hi <= 0xFFFF_FFFF,
        ;
        assert(hi * (hi - 1) / 2 + lo <= 0xFFFF_FFFF * 0xFFFF_FFFF);
        Some(hi * (hi - 1) / 2 + lo)
    }

    /// Reads cell `idx`, if the matrix holds it.
    fn read_cell(&self, idx: u64) -> (r: Option<u64>)
        ensures
            r == cell(self.cells(), idx as int),
    {
        let count = self.matrix.len() / 8;
        if idx >= count as u64 {
            return None;
        }
        let start = (idx as usize) * 8;
        let mut v: u64 = 0;
        let mut i: usize = 0;
        let ghost bytes = self.matrix@.subrange(start as int, start + 8);
        while i < 8
            invariant
                i <= 8,
                start + 8 <= self.matrix.len(),
                bytes == self.matrix@.subrange(start as int, start + 8),
                v == be_value(bytes.take(i as int)),
                v < pow256(i as nat),
            decreases 8 - i,
        {
            let b = self.matrix[start + i];
            assert(bytes.take(i + 1).drop_last() =~= bytes.take(i as int));
            assert(bytes.take(i + 1).last() == b);
            assert(v * 256 + b < pow256((i + 1) as nat)) by (nonlinear_arith)
                requires
                    v < pow256(i as nat),
                    b < 256,
                    pow256((i + 1) as nat) == pow256(i as nat) * 256,
            ;
            proof {
                lemma_pow256_bound((i + 1) as nat);
            }
            assert(v * 256 + b < 0x1_0000_0000_0000_0000);
            v = v * 256 + b as u64;
            i = i + 1;
        }
        assert(bytes.take(8) =~= bytes);
        Some(v)
    }

    /// The stored value of a pair of ids.
    fn pair(&self, x: u32, y: u32) -> (r: Option<u64>)
        ensures
            r == pair_cell(self.cells(), x, y),
    {
        match Correlation::find(x as u64, y as u64) {
            None => Some(ONE_BITS),
            Some(idx) => self.read_cell(idx),
        }
    }

    /// The correlation of two words: `1.0` for a word with itself, else the
    /// stored cell of their pair. `None` where a word is not in the
    /// dictionary or the matrix does not hold the cell.
    pub fn corr(&self, a: &str, b: &str) -> (r: Option<u64>)
        ensures
            r == if a@ == b@ {
                Some(ONE_BITS)
            } else {
                match (self.id_of(a@), self.id_of(b@)) {
                    (Some(x), Some(y)) => pair_cell(self.cells(), x, y),
                    _ => None,
                }
            },
    {
        if a.to_owned() == b.to_owned() {
            return Some(ONE_BITS);
        }
        let x = self.index(a)?;
        let y = self.index(b)?;
        self.pair(x, y)
    }

    /// The correlations of a word with every word, by id, itself included.
    pub fn corrall(&self, a: &str) -> (r: Option<Vec<u64>>)
        requires
            self.wf(),
        ensures
            self.id_of(a@) is None ==> r is None,
            self.id_of(a@) is Some ==> (r is Some <==> column_cells(
                self.cells(),
                self.size(),
                self.id_of(a@)->Some_0,
            ) is Some),
            r matches Some(v) ==> v@ == column_cells(self.cells(), self.size(), self.id_of(a@)->Some_0)->Some_0,
    {
        let x = self.index(a)?;
        assert(self.id_of(a@)->Some_0 == x);
        let mut out: Vec<u64> = Vec::new();
        let mut b: u64 = 0;
        while b < self.size
            invariant
                b <= self.size,
                self.size <= u32::MAX + 1,
                self.id_of(a@) == Some(x),
                out.len() == b,
                forall|k: int| 0 <= k < b ==> pair_cell(self.cells(), x, k as u32) == Some(#[trigger] out@[k]),
            decreases self.size - b,
        {
            match self.pair(x, b as u32) {
                Some(v) => out.push(v),
                None => {
                    assert(!(forall|c: u32| c < self.size() ==> #[trigger] pair_cell(self.cells(), x, c) is Some)) by {
                        assert(!(pair_cell(self.cells(), x, b as u32) is Some));
                    }
                    assert(column_cells(self.cells(), self.size(), x) is None);
                    return None;
                },
            }
            b = b + 1;
        }
        assert(forall|c: u32| c < self.size() ==> #[trigger] pair_cell(self.cells(), x, c) is Some) by {
            assert forall|c: u32| c < self.size() implies #[trigger] pair_cell(self.cells(), x, c) is Some by {
                assert(pair_cell(self.cells(), x, c as int as u32) == Some(out@[c as int]));
            }
        }
        assert(out@ =~= column_cells(self.cells(), self.size(), x)->Some_0);
        Some(out)
    }
}

pub open spec fn pow256(i: nat) -> nat
    decreases i,
{
    if i == 0 {
        1
    } else {
        pow256((i - 1) as nat) * 256
    }
}

proof fn lemma_pow256_bound(i: nat)
    requires
        i <= 8,
    ensures
        pow256(i) <= 0x1_0000_0000_0000_0000,
    decreases i,
{
    if i > 0 {
        lemma_pow256_bound((i - 1) as nat);
        assert(pow256(i) == pow256((i - 1) as nat) * 256);
        if i < 8 {
            assert(pow256((i - 1) as nat) * 256 <= 0x1_0000_0000_0000_0000) by {
                lemma_pow256_small((i - 1) as nat);
            }
        }
        else {
            lemma_pow256_small(7);
        }
    }
}

proof fn lemma_pow256_small(i: nat)
    requires
        i <= 7,
    ensures
        pow256(i) <= 0x100_0000_0000_0000,
    decreases i,
{
    reveal_with_fuel(pow256, 8);
    if i > 0 {
        lemma_pow256_small((i - 1) as nat);
    }
}

} // verus!
