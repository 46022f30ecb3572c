//! The exhaustive, duplicate-free set of comparisons over an item collection.

use vstd::prelude::*;

use crate::items::has_item;
use crate::items::lemma_eq_iff_same_key;
use crate::items::pair_key;
use crate::items::pair_of;
use crate::items::Comparison;
use crate::items::Item;

verus! {

/// Whether the comparisons of `s` are pairwise distinct, where two
/// comparisons count as the same when their canonical keys coincide.
pub open spec fn distinct_keys(s: Seq<Comparison>) -> bool {
    forall|i: int, j: int|
        0 <= i < j < s.len() ==> #[trigger] pair_key(s[i]) != #[trigger] pair_key(s[j])
}

/// Whether some comparison of `s` has the canonical key `k`.
pub open spec fn key_in(s: Seq<Comparison>, k: (u64, u64)) -> bool {
    exists|i: int| 0 <= i < s.len() && #[trigger] pair_key(s[i]) == k
}

/// Whether some comparison of `s` has the item `it` on either side.
pub open spec fn some_pair_has(s: Seq<Comparison>, it: Item) -> bool {
    exists|i: int| 0 <= i < s.len() && #[trigger] has_item(s[i], it)
}

/// Whether the items of `items` are pairwise distinct.
pub open spec fn distinct_items(items: Seq<Item>) -> bool {
    forall|i: int, j: int| 0 <= i < j < items.len() ==> items[i] != items[j]
}

/// Whether `k` is the canonical key of some unordered combination of two
/// items of `items` taken at distinct positions.
pub open spec fn combination_key(items: Seq<Item>, k: (u64, u64)) -> bool {
    exists|i: int, j: int|
        0 <= j < i < items.len() && #[trigger] pair_key(pair_of(items[i], items[j])) == k
}

/// The number of unordered combinations of two among `n` things:
/// the nth triangular-style count 0 + 1 + ... + (n - 1).
pub open spec fn choose_two(n: int) -> int
    decreases n,
{
    if n <= 0 {
        0
    } else {
        (n - 1) + choose_two(n - 1)
    }
}

/// The closed formula for [`choose_two`]: n over 2 equals n(n-1)/2.
pub proof fn lemma_choose_two_closed_form(n: int)
    requires
        0 <= n,
    ensures
        2 * choose_two(n) == n * (n - 1),
    decreases n,
{
    if n > 0 {
        lemma_choose_two_closed_form(n - 1);
        assert(choose_two(n) == (n - 1) + choose_two(n - 1));
        assert(2 * ((n - 1) + choose_two(n - 1)) == n * (n - 1)) by (nonlinear_arith)
            requires
                2 * choose_two(n - 1) == (n - 1) * (n - 2),
        ;
    } else {
        assert(n * (n - 1) == 0) by (nonlinear_arith)
            requires
                n == 0,
        ;
    }
}

/// Keys of the combinations the generator has already formed: those of all
/// pairs `(items[i], items[j])` with `j < i` that come before position
/// `(m, jj)` in the processing order, which works the rows `i` from the top
/// down and, within row `m`, the partners `j` from `0` up to `jj`.
pub open spec fn generated(items: Seq<Item>, m: int, jj: int, k: (u64, u64)) -> bool {
    exists|i: int, j: int|
        0 <= j < i < items.len() && (i > m || (i == m && j < jj)) && #[trigger] pair_key(
            pair_of(items[i], items[j]),
        ) == k
}

/// In a collection of pairwise-distinct items, equal items sit at equal
/// positions.
proof fn lemma_distinct_index(items: Seq<Item>, x: int, y: int)
    requires
        distinct_items(items),
        0 <= x < items.len(),
        0 <= y < items.len(),
        items[x] == items[y],
    ensures
        x == y,
{
}

/// Among distinct items, the combination at position `(m, jj)` has not been
/// generated by any earlier position.
proof fn lemma_row_key_fresh(items: Seq<Item>, m: int, jj: int)
    requires
        distinct_items(items),
        0 <= jj < m < items.len(),
    ensures
        !generated(items, m, jj, pair_key(pair_of(items[m], items[jj]))),
{
    let k = pair_key(pair_of(items[m], items[jj]));
    if generated(items, m, jj, k) {
        let (i, j): (int, int) = choose|i: int, j: int|
            0 <= j < i < items.len() && (i > m || (i == m && j < jj)) && #[trigger] pair_key(
                pair_of(items[i], items[j]),
            ) == k;
        lemma_eq_iff_same_key(pair_of(items[i], items[j]), pair_of(items[m], items[jj]));
        if items[i] == items[m] {
            lemma_distinct_index(items, i, m);
            lemma_distinct_index(items, j, jj);
        } else {
            lemma_distinct_index(items, i, jj);
            lemma_distinct_index(items, j, m);
        }
    }
}

/// Advancing one partner within a row adds exactly the key of that one
/// combination to the generated keys.
proof fn lemma_generated_step(items: Seq<Item>, m: int, jj: int)
    requires
        0 <= jj < m < items.len(),
    ensures
        forall|k: (u64, u64)|
            #[trigger] generated(items, m, jj + 1, k) <==> generated(items, m, jj, k) || pair_key(
                pair_of(items[m], items[jj]),
            ) == k,
{
    assert forall|k: (u64, u64)|
        #[trigger] generated(items, m, jj + 1, k) <==> generated(items, m, jj, k) || pair_key(
            pair_of(items[m], items[jj]),
        ) == k by {
        if generated(items, m, jj + 1, k) {
            let (i, j): (int, int) = choose|i: int, j: int|
                0 <= j < i < items.len() && (i > m || (i == m && j < jj + 1)) && #[trigger] pair_key(
                    pair_of(items[i], items[j]),
                ) == k;
            if i == m && j == jj {
            } else {
                assert(0 <= j < i < items.len() && (i > m || (i == m && j < jj)) && pair_key(
                    pair_of(items[i], items[j]),
                ) == k);
            }
        }
        if generated(items, m, jj, k) {
            let (i, j): (int, int) = choose|i: int, j: int|
                0 <= j < i < items.len() && (i > m || (i == m && j < jj)) && #[trigger] pair_key(
                    pair_of(items[i], items[j]),
                ) == k;
            assert(0 <= j < i < items.len() && (i > m || (i == m && j < jj + 1)) && pair_key(
                pair_of(items[i], items[j]),
            ) == k);
        }
        if pair_key(pair_of(items[m], items[jj])) == k {
            assert(0 <= jj < m < items.len() && (m > m || (m == m && jj < jj + 1)) && pair_key(
                pair_of(items[m], items[jj]),
            ) == k);
        }
    }
}

/// A fully processed row generates the same keys as the next row boundary:
/// finishing the partners of row `m` is the same as having done all rows
/// above `m - 1`.
proof fn lemma_generated_row_complete(items: Seq<Item>, m: int)
    ensures
        forall|k: (u64, u64)| #[trigger] generated(items, m, m, k) <==> generated(items, m - 1, 0, k),
{
    assert forall|k: (u64, u64)|
        #[trigger] generated(items, m, m, k) <==> generated(items, m - 1, 0, k) by {
        if generated(items, m, m, k) {
            let (i, j): (int, int) = choose|i: int, j: int|
                0 <= j < i < items.len() && (i > m || (i == m && j < m)) && #[trigger] pair_key(
                    pair_of(items[i], items[j]),
                ) == k;
            assert(0 <= j < i < items.len() && (i > m - 1 || (i == m - 1 && j < 0)) && pair_key(
                pair_of(items[i], items[j]),
            ) == k);
        }
        if generated(items, m - 1, 0, k) {
            let (i, j): (int, int) = choose|i: int, j: int|
                0 <= j < i < items.len() && (i > m - 1 || (i == m - 1 && j < 0)) && #[trigger] pair_key(
                    pair_of(items[i], items[j]),
                ) == k;
            assert(0 <= j < i < items.len() && (i > m || (i == m && j < m)) && pair_key(
                pair_of(items[i], items[j]),
            ) == k);
        }
    }
}

/// Appending a comparison to a sequence adds exactly its key to the keys
/// present.
proof fn lemma_key_in_push(s: Seq<Comparison>, c: Comparison)
    ensures
        forall|k: (u64, u64)| #[trigger] key_in(s.push(c), k) <==> key_in(s, k) || pair_key(c) == k,
{
    assert forall|k: (u64, u64)|
        #[trigger] key_in(s.push(c), k) <==> key_in(s, k) || pair_key(c) == k by {
        if key_in(s.push(c), k) {
            let i: int = choose|i: int| 0 <= i < s.push(c).len() && #[trigger] pair_key(s.push(c)[i])
                == k;
            if i < s.len() {
                assert(0 <= i < s.len() && pair_key(s[i]) == k);
            }
        }
        if key_in(s, k) {
            let i: int = choose|i: int| 0 <= i < s.len() && #[trigger] pair_key(s[i]) == k;
            assert(0 <= i < s.push(c).len() && pair_key(s.push(c)[i]) == k);
        }
        if pair_key(c) == k {
            assert(pair_key(s.push(c)[s.len() as int]) == k);
        }
    }
}

/// The complete collection of unordered comparisons over a set of items:
/// every unordered combination of two distinct items, each exactly once.
#[derive(Debug)]
pub struct Comparisons {
    pairs: Vec<Comparison>,
}

impl View for Comparisons {
    type V = Seq<Comparison>;

    closed spec fn view(&self) -> Seq<Comparison> {
        self.pairs@
    }
}

impl Comparisons {
    /// Validity: no unordered combination appears twice.
    pub open spec fn wf(&self) -> bool {
        distinct_keys(self@)
    }

    /// The number of comparisons in the set.
    pub fn len(&self) -> (n: usize)
        ensures
            n == self@.len(),
    {
        self.pairs.len()
    }

    /// The comparison at position `i`. The order of the comparisons carries
    /// no meaning; callers must not rely on it.
    pub fn get(&self, i: usize) -> (c: Comparison)
        requires
            i < self@.len(),
        ensures
            c == self@[i as int],
    {
        self.pairs[i]
    }

    /// Whether the set holds a comparison of the same two items as `c`.
    pub fn contains(&self, c: &Comparison) -> (r: bool)
        ensures
            r == key_in(self@, pair_key(*c)),
    {
        let mut i: usize = 0;
        while i < self.pairs.len()
            invariant
                i <= self.pairs@.len(),
                forall|j: int| 0 <= j < i ==> #[trigger] pair_key(self.pairs@[j]) != pair_key(*c),
            decreases self.pairs@.len() - i,
        {
            if self.pairs[i] == *c {
                proof {
                    lemma_eq_iff_same_key(self.pairs@[i as int], *c);
                }
                return true;
            }
            proof {
                lemma_eq_iff_same_key(self.pairs@[i as int], *c);
            }
            i += 1;
        }
        false
    }

    /// Create the exhaustive set of comparisons over `items`: one
    /// comparison for every unordered combination of two items taken at
    /// distinct positions.
    ///
    /// For pairwise-distinct items this yields exactly
    /// `items.len() * (items.len() - 1) / 2` comparisons
    /// (see [`lemma_choose_two_closed_form`]); fewer than two items yield
    /// the empty set. Duplicate items are not rejected: the combinations
    /// they induce compare equal and collapse, so the set merely comes out
    /// smaller.
    ///
    /// The algorithm pops items one at a time from a working list and pairs
    /// each popped item with every item still remaining.
    #[verifier::loop_isolation(false)]
    pub fn new(items: &Vec<Item>) -> (r: Comparisons)
        ensures
            r.wf(),
            forall|k: (u64, u64)| #[trigger] key_in(r@, k) <==> combination_key(items@, k),
            distinct_items(items@) ==> r@.len() == choose_two(items@.len() as int),
            items@.len() < 2 ==> r@.len() == 0,
    {
        let ghost iseq = items@;
        let n = items.len();
        let mut work: Vec<Item> = Vec::new();
        let mut i: usize = 0;
        while i < n
            invariant
                i <= n,
                work@ == iseq.subrange(0, i as int),
            decreases n - i,
        {
            work.push(items[i]);
            proof {
                assert(work@ =~= iseq.subrange(0, i + 1));
            }
            i += 1;
        }
        let mut r = Comparisons { pairs: Vec::new() };
        proof {
            assert(work@ =~= iseq);
        }
        while work.len() > 0
            invariant
                work@ == iseq.subrange(0, work@.len() as int),
                work@.len() <= iseq.len(),
                distinct_keys(r.pairs@),
                forall|k: (u64, u64)|
                    #[trigger] key_in(r.pairs@, k) <==> generated(iseq, work@.len() - 1, 0, k),
                distinct_items(iseq) ==> r.pairs@.len() == choose_two(iseq.len() as int)
                    - choose_two(work@.len() as int),
            decreases work@.len(),
        {
            let item = work.pop().unwrap();
            let ghost m = work@.len() as int;
            proof {
                assert(work@ =~= iseq.subrange(0, m));
                assert(item == iseq[m]);
            }
            let mut j: usize = 0;
            while j < work.len()
                invariant
                    j <= m,
                    distinct_keys(r.pairs@),
                    forall|k: (u64, u64)|
                        #[trigger] key_in(r.pairs@, k) <==> generated(iseq, m, j as int, k),
                    distinct_items(iseq) ==> r.pairs@.len() == choose_two(iseq.len() as int)
                        - choose_two(m + 1) + j,
                decreases m - j,
            {
                let partner = work[j];
                proof {
                    assert(partner == iseq[j as int]);
                    if distinct_items(iseq) {
                        lemma_row_key_fresh(iseq, m, j as int);
                    }
                    lemma_generated_step(iseq, m, j as int);
                    lemma_key_in_push(r.pairs@, pair_of(item, partner));
                }
                let added = r.insert(Comparison::new(item, partner));
                proof {
                    if distinct_items(iseq) {
                        assert(added);
                        assert(choose_two(m + 1) == m + choose_two(m));
                    }
                }
                j += 1;
            }
            proof {
                lemma_generated_row_complete(iseq, m);
            }
        }
        proof {
            assert forall|k: (u64, u64)| #[trigger] key_in(r.pairs@, k) <==> combination_key(
                iseq,
                k,
            ) by {
                if generated(iseq, -1, 0, k) {
                    let (gi, gj): (int, int) = choose|gi: int, gj: int|
                        0 <= gj < gi < iseq.len() && (gi > -1 || (gi == -1 && gj < 0))
                            && #[trigger] pair_key(pair_of(iseq[gi], iseq[gj])) == k;
                    assert(0 <= gj < gi < iseq.len() && pair_key(pair_of(iseq[gi], iseq[gj])) == k);
                }
                if combination_key(iseq, k) {
                    let (gi, gj): (int, int) = choose|gi: int, gj: int|
                        0 <= gj < gi < iseq.len() && #[trigger] pair_key(pair_of(iseq[gi], iseq[gj]))
                            == k;
                    assert(0 <= gj < gi < iseq.len() && (gi > -1 || (gi == -1 && gj < 0))
                        && pair_key(pair_of(iseq[gi], iseq[gj])) == k);
                }
            }
        }
        r
    }

    /// Add `c` to the set unless a comparison of the same two items is
    /// already present; reports whether the set grew.
    pub fn insert(&mut self, c: Comparison) -> (added: bool)
        ensures
            added == !key_in(old(self)@, pair_key(c)),
            added ==> final(self)@ == old(self)@.push(c),
            !added ==> final(self)@ == old(self)@,
            old(self).wf() ==> final(self).wf(),
    {
        if self.contains(&c) {
            false
        } else {
            self.pairs.push(c);
            proof {
                if distinct_keys(old(self)@) {
                    assert forall|i: int, j: int| 0 <= i < j < self@.len() implies #[trigger] pair_key(
                        self@[i],
                    ) != #[trigger] pair_key(self@[j]) by {
                        if j == self@.len() - 1 {
                            assert(self@[j] == c);
                        }
                    }
                }
            }
            true
        }
    }
}

/// In a pair set whose keys are exactly the combination keys of
/// pairwise-distinct items — as [`Comparisons::new`] builds it — no
/// comparison compares an item against itself.
pub proof fn lemma_no_self_comparison(items: Seq<Item>, s: Seq<Comparison>)
    requires
        distinct_items(items),
        forall|k: (u64, u64)| #[trigger] key_in(s, k) <==> combination_key(items, k),
    ensures
        forall|i: int| 0 <= i < s.len() ==> (#[trigger] s[i]).left != s[i].right,
{
    assert forall|i: int| 0 <= i < s.len() implies (#[trigger] s[i]).left != s[i].right by {
        assert(key_in(s, pair_key(s[i])));
        let (a, b): (int, int) = choose|a: int, b: int|
            0 <= b < a < items.len() && #[trigger] pair_key(pair_of(items[a], items[b])) == pair_key(
                s[i],
            );
        lemma_eq_iff_same_key(pair_of(items[a], items[b]), s[i]);
        assert(items[b] != items[a]);
    }
}

impl Default for Comparisons {
    /// The empty set of comparisons.
    fn default() -> (r: Comparisons)
        ensures
            r.wf(),
            r@ == Seq::<Comparison>::empty(),
    {
        Comparisons { pairs: Vec::new() }
    }
}

} // verus!
