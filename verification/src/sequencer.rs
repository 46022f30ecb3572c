//! The retaining sequencer: yields every comparison of a pair set exactly
//! once, preferring a comparison that keeps the previous winner on screen.

use vstd::prelude::*;

use crate::items::has_item;
use crate::items::other_of;
use crate::items::pair_key;
use crate::items::Comparison;
use crate::items::Item;
use crate::pairs::distinct_keys;
use crate::pairs::key_in;
use crate::pairs::some_pair_has;
use crate::pairs::Comparisons;

verus! {

/// Whether no comparison of `a` pairs up the same two items as one of `b`.
pub open spec fn disjoint_keys(a: Seq<Comparison>, b: Seq<Comparison>) -> bool {
    forall|i: int, j: int|
        0 <= i < a.len() && 0 <= j < b.len() ==> #[trigger] pair_key(a[i]) != #[trigger] pair_key(
            b[j],
        )
}

/// The position of the first comparison of `s` that has `it` on either
/// side, if any.
pub open spec fn first_index_with(s: Seq<Comparison>, it: Item) -> Option<int>
    decreases s.len(),
{
    if s.len() == 0 {
        None
    } else if has_item(s[0], it) {
        Some(0)
    } else {
        match first_index_with(s.drop_first(), it) {
            Some(i) => Some(i + 1),
            None => None,
        }
    }
}

/// What [`first_index_with`] finds: a position that has the item, with no
/// earlier one — or nothing, when no comparison has the item.
pub proof fn lemma_first_index_with(s: Seq<Comparison>, it: Item)
    ensures
        match first_index_with(s, it) {
            Some(i) => 0 <= i < s.len() && has_item(s[i], it) && forall|j: int|
                0 <= j < i ==> !(#[trigger] has_item(s[j], it)),
            None => forall|j: int| 0 <= j < s.len() ==> !(#[trigger] has_item(s[j], it)),
        },
    decreases s.len(),
{
    if s.len() == 0 {
    } else if has_item(s[0], it) {
    } else {
        lemma_first_index_with(s.drop_first(), it);
        match first_index_with(s.drop_first(), it) {
            Some(i) => {
                assert(s.drop_first()[i] == s[i + 1]);
                assert forall|j: int| 0 <= j < i + 1 implies !(#[trigger] has_item(s[j], it)) by {
                    if j > 0 {
                        assert(s.drop_first()[j - 1] == s[j]);
                    }
                }
            },
            None => {
                assert forall|j: int| 0 <= j < s.len() implies !(#[trigger] has_item(s[j], it)) by {
                    if j > 0 {
                        assert(s.drop_first()[j - 1] == s[j]);
                    }
                }
            },
        }
    }
}

/// The position of the comparison the sequencer emits next from `s`, for
/// an anchor winner `w` and loser `l`: the first comparison that has the
/// winner, else the first that has the loser, else — so that no pair is
/// ever stranded — the front of the remaining pool.
pub open spec fn chosen_index(s: Seq<Comparison>, w: Item, l: Item) -> int {
    match first_index_with(s, w) {
        Some(i) => i,
        None => match first_index_with(s, l) {
            Some(i) => i,
            None => 0,
        },
    }
}

/// Removing one comparison from a duplicate-free sequence removes exactly
/// its key, and keeps the rest duplicate-free.
proof fn lemma_key_in_remove(s: Seq<Comparison>, idx: int)
    requires
        distinct_keys(s),
        0 <= idx < s.len(),
    ensures
        forall|k: (u64, u64)|
            #[trigger] key_in(s.remove(idx), k) <==> (key_in(s, k) && k != pair_key(s[idx])),
        distinct_keys(s.remove(idx)),
{
    s.remove_ensures(idx);
    let s2 = s.remove(idx);
    assert forall|k: (u64, u64)|
        #[trigger] key_in(s2, k) <==> (key_in(s, k) && k != pair_key(s[idx])) by {
        if key_in(s2, k) {
            let i: int = choose|i: int| 0 <= i < s2.len() && #[trigger] pair_key(s2[i]) == k;
            if i < idx {
                assert(pair_key(s[i]) == k);
            } else {
                assert(s2[i] == s[i + 1]);
                assert(pair_key(s[i + 1]) == k);
            }
        }
        if key_in(s, k) && k != pair_key(s[idx]) {
            let i: int = choose|i: int| 0 <= i < s.len() && #[trigger] pair_key(s[i]) == k;
            if i < idx {
                assert(pair_key(s2[i]) == k);
            } else {
                assert(s2[i - 1] == s[i]);
                assert(pair_key(s2[i - 1]) == k);
            }
        }
    }
    assert forall|i: int, j: int| 0 <= i < j < s2.len() implies #[trigger] pair_key(s2[i])
        != #[trigger] pair_key(s2[j]) by {
        let i2: int = if i < idx {
            i
        } else {
            i + 1
        };
        let j2: int = if j < idx {
            j
        } else {
            j + 1
        };
        assert(s2[i] == s[i2]);
        assert(s2[j] == s[j2]);
    }
}

/// Appending a comparison to a sequence adds exactly its key to the keys
/// present.
proof fn lemma_key_in_push_pairs(s: Seq<Comparison>, c: Comparison)
    ensures
        forall|k: (u64, u64)| #[trigger] key_in(s.push(c), k) <==> key_in(s, k) || pair_key(c) == k,
{
    assert forall|k: (u64, u64)|
        #[trigger] key_in(s.push(c), k) <==> key_in(s, k) || pair_key(c) == k by {
        if key_in(s.push(c), k) {
            let i: int = choose|i: int|
                0 <= i < s.push(c).len() && #[trigger] pair_key(s.push(c)[i]) == k;
            if i < s.len() {
                assert(pair_key(s[i]) == k);
            }
        }
        if key_in(s, k) {
            let i: int = choose|i: int| 0 <= i < s.len() && #[trigger] pair_key(s[i]) == k;
            assert(pair_key(s.push(c)[i]) == k);
        }
        if pair_key(c) == k {
            assert(pair_key(s.push(c)[s.len() as int]) == k);
        }
    }
}

/// The recorded outcome of the most recently emitted comparison.
#[derive(Clone, Copy)]
struct ComparisonResult {
    winner: Item,
    loser: Item,
}

/// A single-use handle with which to report the winner of one emitted
/// comparison back to the sequencer that emitted it.
pub struct ComparisonResultTracker {
    comparison: Comparison,
}

/// A sequencer over a set of comparisons that emits every comparison
/// exactly once and then runs dry.
///
/// After a winner is reported, the next emission prefers a comparison that
/// still has that winner, then one that has the loser; without a report,
/// the two items of the previous comparison play those roles. When neither
/// anchor item has a comparison left but others do, the sequencer reseeds
/// from the remaining pool, so that every pair is still visited.
pub struct RetainItemIterator {
    pending: Vec<Comparison>,
    previous: Option<Comparison>,
    result: Option<ComparisonResult>,
    emitted: Ghost<Seq<Comparison>>,
    initial: Ghost<Seq<Comparison>>,
}

impl ComparisonResultTracker {
    /// The comparison whose outcome this tracker reports.
    pub closed spec fn comparison(&self) -> Comparison {
        self.comparison
    }

    /// Track the winner of the comparison this tracker was handed out for.
    ///
    /// `winner` must be one of the two items of that comparison, and the
    /// comparison must still be the sequencer's most recently emitted one.
    pub fn winner(self, it: &mut RetainItemIterator, winner: Item)
        requires
            old(it).wf(),
            old(it).prev_pair() == Some(self.comparison()),
            has_item(self.comparison(), winner),
        ensures
            final(it).wf(),
            final(it).pending() == old(it).pending(),
            final(it).emitted() == old(it).emitted(),
            final(it).initial() == old(it).initial(),
            final(it).prev_pair() == old(it).prev_pair(),
            final(it).prev_result() == Some((winner, other_of(self.comparison(), winner))),
    {
        it.winner(winner)
    }
}

impl RetainItemIterator {
    /// The comparisons not yet emitted.
    pub closed spec fn pending(&self) -> Seq<Comparison> {
        self.pending@
    }

    /// The most recently emitted comparison, if any.
    pub closed spec fn prev_pair(&self) -> Option<Comparison> {
        self.previous
    }

    /// The reported winner and loser of the most recently emitted
    /// comparison, if a winner was reported since that emission.
    pub closed spec fn prev_result(&self) -> Option<(Item, Item)> {
        match self.result {
            Some(res) => Some((res.winner, res.loser)),
            None => None,
        }
    }

    /// The comparisons emitted so far, in emission order.
    pub closed spec fn emitted(&self) -> Seq<Comparison> {
        self.emitted@
    }

    /// The comparisons the sequencer started from.
    pub closed spec fn initial(&self) -> Seq<Comparison> {
        self.initial@
    }

    /// Validity: pending and emitted comparisons are duplicate-free and
    /// share no pair; together they are exactly the initial set; a
    /// recorded result names the two sides of the previous comparison.
    pub open spec fn wf(&self) -> bool {
        &&& distinct_keys(self.pending())
        &&& distinct_keys(self.emitted())
        &&& disjoint_keys(self.emitted(), self.pending())
        &&& self.emitted().len() + self.pending().len() == self.initial().len()
        &&& forall|k: (u64, u64)|
            #[trigger] key_in(self.initial(), k) <==> key_in(self.emitted(), k) || key_in(
                self.pending(),
                k,
            )
        &&& match self.prev_result() {
            Some(res) => self.prev_pair() matches Some(p) && has_item(p, res.0) && res.1
                == other_of(p, res.0),
            None => true,
        }
    }

    /// The anchor for the next emission: the reported winner and loser if
    /// a result was tracked, else the two sides of the previous
    /// comparison, else the front of the pending pool as a fresh seed.
    pub open spec fn anchor(&self) -> (Item, Item) {
        match self.prev_result() {
            Some(res) => res,
            None => match self.prev_pair() {
                Some(c) => (c.left, c.right),
                None => (self.pending()[0].left, self.pending()[0].right),
            },
        }
    }

    /// Create a sequencer over the comparisons of `input`.
    pub(crate) fn new(input: &Comparisons) -> (it: RetainItemIterator)
        requires
            input.wf(),
        ensures
            it.wf(),
            it.pending() == input@,
            it.emitted() == Seq::<Comparison>::empty(),
            it.initial() == input@,
            it.prev_pair() is None,
            it.prev_result() is None,
    {
        let mut pending: Vec<Comparison> = Vec::new();
        let n = input.len();
        let mut i: usize = 0;
        while i < n
            invariant
                i <= n,
                n == input@.len(),
                input.wf(),
                pending@ == input@.subrange(0, i as int),
            decreases n - i,
        {
            pending.push(input.get(i));
            proof {
                assert(pending@ =~= input@.subrange(0, i + 1));
            }
            i += 1;
        }
        proof {
            assert(pending@ =~= input@);
        }
        RetainItemIterator {
            pending,
            previous: None,
            result: None,
            emitted: Ghost(Seq::empty()),
            initial: Ghost(input@),
        }
    }

    /// Track the winner of the most recently emitted comparison.
    ///
    /// `winner` must be one of that comparison's two items; the very next
    /// emission will then prefer a comparison that still has the winner.
    /// Before anything was emitted this records nothing.
    pub fn winner(&mut self, winner: Item)
        requires
            old(self).wf(),
            old(self).prev_pair() matches Some(c) ==> has_item(c, winner),
        ensures
            final(self).wf(),
            final(self).pending() == old(self).pending(),
            final(self).emitted() == old(self).emitted(),
            final(self).initial() == old(self).initial(),
            final(self).prev_pair() == old(self).prev_pair(),
            match old(self).prev_pair() {
                Some(c) => final(self).prev_result() == Some((winner, other_of(c, winner))),
                None => final(self).prev_result() == old(self).prev_result(),
            },
    {
        if let Some(prev) = self.previous {
            let loser = prev.other(winner);
            self.result = Some(ComparisonResult { winner, loser });
        }
    }

    /// Emit the next comparison, together with a single-use tracker for
    /// reporting its winner, or nothing once every comparison has been
    /// emitted.
    ///
    /// The emitted comparison is the first pending one that has the anchor
    /// winner, else the first that has the anchor loser, else the front of
    /// the pending pool; it is removed from the pending pool for good. In
    /// particular, whenever a reported winner still has a pending
    /// comparison, the emitted comparison has that winner.
    pub fn next(&mut self) -> (r: Option<(Comparison, ComparisonResultTracker)>)
        requires
            old(self).wf(),
        ensures
            final(self).wf(),
            final(self).initial() == old(self).initial(),
            old(self).pending().len() == 0 ==> r is None && *final(self) == *old(self),
            old(self).pending().len() > 0 ==> {
                let idx = chosen_index(
                    old(self).pending(),
                    old(self).anchor().0,
                    old(self).anchor().1,
                );
                let c = old(self).pending()[idx];
                &&& r matches Some(p) && p.0 == c && p.1.comparison() == c
                &&& final(self).pending() == old(self).pending().remove(idx)
                &&& final(self).prev_pair() == Some(c)
                &&& final(self).prev_result() is None
                &&& final(self).emitted() == old(self).emitted().push(c)
            },
            match old(self).prev_result() {
                Some(res) => some_pair_has(old(self).pending(), res.0) ==> (r matches Some(p)
                    && has_item(p.0, res.0)),
                None => true,
            },
    {
        if self.pending.len() == 0 {
            return None;
        }
        let (w, l) = match self.result {
            Some(res) => (res.winner, res.loser),
            None => match self.previous {
                Some(c) => (c.left, c.right),
                None => {
                    let seed = self.pending[0];
                    (seed.left, seed.right)
                },
            },
        };
        let idx = match Self::find_with(&self.pending, w) {
            Some(i) => i,
            None => match Self::find_with(&self.pending, l) {
                Some(i) => i,
                None => 0,
            },
        };
        proof {
            lemma_first_index_with(self.pending@, w);
            lemma_first_index_with(self.pending@, l);
            assert(idx < self.pending@.len());
        }
        let ghost p = self.pending@;
        let ghost e = self.emitted@;
        let c = self.pending.remove(idx);
        self.previous = Some(c);
        self.result = None;
        proof {
            self.emitted@ = e.push(c);
            lemma_key_in_remove(p, idx as int);
            lemma_key_in_push_pairs(e, c);
            p.remove_ensures(idx as int);
            assert forall|i: int, j: int| 0 <= i < j < self.emitted@.len() implies #[trigger] pair_key(
                self.emitted@[i],
            ) != #[trigger] pair_key(self.emitted@[j]) by {
                if j == self.emitted@.len() - 1 {
                    assert(self.emitted@[j] == p[idx as int]);
                    assert(pair_key(e[i]) != pair_key(p[idx as int]));
                }
            }
            assert forall|i: int, j: int|
                0 <= i < self.emitted@.len() && 0 <= j
                    < self.pending@.len() implies #[trigger] pair_key(self.emitted@[i])
                != #[trigger] pair_key(self.pending@[j]) by {
                assert(key_in(self.pending@, pair_key(self.pending@[j])));
                if i < e.len() {
                    assert(key_in(p, pair_key(self.pending@[j])));
                    let pj: int = choose|pj: int|
                        0 <= pj < p.len() && #[trigger] pair_key(p[pj]) == pair_key(
                            self.pending@[j],
                        );
                    assert(pair_key(e[i]) != pair_key(p[pj]));
                } else {
                    assert(self.emitted@[i] == p[idx as int]);
                }
            }
        }
        Some((c, ComparisonResultTracker { comparison: c }))
    }

    /// The position of the first pending comparison that has `it` on
    /// either side, if any.
    fn find_with(v: &Vec<Comparison>, it: Item) -> (r: Option<usize>)
        ensures
            match r {
                Some(i) => first_index_with(v@, it) == Some(i as int),
                None => first_index_with(v@, it) is None,
            },
    {
        let mut i: usize = 0;
        while i < v.len()
            invariant
                i <= v@.len(),
                forall|j: int| 0 <= j < i ==> !(#[trigger] has_item(v@[j], it)),
            decreases v@.len() - i,
        {
            let c = v[i];
            if c.left == it || c.right == it {
                proof {
                    lemma_first_index_with(v@, it);
                    assert(has_item(v@[i as int], it));
                    match first_index_with(v@, it) {
                        Some(fi) => {
                            if fi < i {
                                assert(!has_item(v@[fi], it));
                            }
                        },
                        None => {
                            assert(!has_item(v@[i as int], it));
                        },
                    }
                }
                return Some(i);
            }
            i += 1;
        }
        proof {
            lemma_first_index_with(v@, it);
            match first_index_with(v@, it) {
                Some(fi) => {
                    assert(!has_item(v@[fi], it));
                },
                None => {},
            }
        }
        None
    }
}

/// Exhaustion means full coverage: once no comparison is pending, the
/// sequencer has emitted pairwise-distinct comparisons, as many as the
/// initial set held, whose pairs are exactly the initial pairs — every
/// pair was visited exactly once.
pub proof fn lemma_exhausted_visits_all(it: &RetainItemIterator)
    requires
        it.wf(),
        it.pending().len() == 0,
    ensures
        distinct_keys(it.emitted()),
        it.emitted().len() == it.initial().len(),
        forall|k: (u64, u64)| #[trigger] key_in(it.emitted(), k) <==> key_in(it.initial(), k),
{
}

impl Comparisons {
    /// Get a sequencer over the comparisons such that every comparison
    /// returned after the first shares an item with the previous one
    /// whenever the tracked winner (or, without tracking, either previous
    /// item) still has comparisons left.
    pub fn retain_item_iterator(&self) -> (it: RetainItemIterator)
        requires
            self.wf(),
        ensures
            it.wf(),
            it.pending() == self@,
            it.emitted() == Seq::<Comparison>::empty(),
            it.initial() == self@,
            it.prev_pair() is None,
            it.prev_result() is None,
    {
        RetainItemIterator::new(self)
    }
}

} // verus!
