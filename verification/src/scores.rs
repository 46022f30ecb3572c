//! Win counts per item, accumulated from reported comparison results.

use vstd::prelude::*;

use crate::items::Item;

verus! {

/// Whether some entry of `s` is keyed by the item `it`.
pub open spec fn has_key(s: Seq<(Item, usize)>, it: Item) -> bool {
    exists|i: int| 0 <= i < s.len() && (#[trigger] s[i]).0 == it
}

/// Whether the entries of `s` are keyed by pairwise-distinct items.
pub open spec fn distinct_entry_keys(s: Seq<(Item, usize)>) -> bool {
    forall|i: int, j: int| 0 <= i < j < s.len() ==> (#[trigger] s[i]).0 != (#[trigger] s[j]).0
}

/// The position of the entry of `s` keyed by `it`.
spec fn index_of_key(s: Seq<(Item, usize)>, it: Item) -> int {
    choose|i: int| 0 <= i < s.len() && (#[trigger] s[i]).0 == it
}

/// The mapping from items to counts that the entries of `s` spell out.
spec fn map_of(s: Seq<(Item, usize)>) -> Map<Item, nat> {
    Map::new(|it: Item| has_key(s, it), |it: Item| s[index_of_key(s, it)].1 as nat)
}

/// Among entries with pairwise-distinct keys, the entry at a position
/// whose key is `it` is the entry [`index_of_key`] finds.
proof fn lemma_index_of_key(s: Seq<(Item, usize)>, it: Item, i: int)
    requires
        distinct_entry_keys(s),
        0 <= i < s.len(),
        s[i].0 == it,
    ensures
        has_key(s, it),
        index_of_key(s, it) == i,
{
    assert(0 <= i < s.len() && s[i].0 == it);
    let ci = index_of_key(s, it);
    if ci != i {
        assert(s[ci].0 != s[i].0);
    }
}

/// What one tracked result does to a score mapping: the winner's count
/// grows by one (from zero if absent), and the loser is given an entry at
/// zero if it has none; an existing loser count is left alone.
pub open spec fn track_map(m: Map<Item, nat>, winner: Item, loser: Item) -> Map<Item, nat> {
    let bumped = m.insert(
        winner,
        if m.contains_key(winner) {
            (m[winner] + 1) as nat
        } else {
            1nat
        },
    );
    if bumped.contains_key(loser) {
        bumped
    } else {
        bumped.insert(loser, 0nat)
    }
}

/// The score mapping after tracking the same result `k` times over.
pub open spec fn track_map_k(m: Map<Item, nat>, winner: Item, loser: Item, k: nat) -> Map<
    Item,
    nat,
>
    decreases k,
{
    if k == 0 {
        m
    } else {
        track_map(track_map_k(m, winner, loser, (k - 1) as nat), winner, loser)
    }
}

/// Tracking the same result `k` times gives the winner exactly `k` wins,
/// and leaves the loser's count at what it was — created at zero first
/// when the loser had no entry.
pub proof fn lemma_repeated_track(m: Map<Item, nat>, winner: Item, loser: Item, k: nat)
    requires
        winner != loser,
        !m.contains_key(winner),
    ensures
        k > 0 ==> track_map_k(m, winner, loser, k).contains_key(winner) && track_map_k(
            m,
            winner,
            loser,
            k,
        )[winner] == k,
        k > 0 ==> track_map_k(m, winner, loser, k).contains_key(loser),
        m.contains_key(loser) ==> track_map_k(m, winner, loser, k)[loser] == m[loser],
        !m.contains_key(loser) && k > 0 ==> track_map_k(m, winner, loser, k)[loser] == 0,
    decreases k,
{
    if k > 0 {
        lemma_repeated_track(m, winner, loser, (k - 1) as nat);
        let prev = track_map_k(m, winner, loser, (k - 1) as nat);
        assert(track_map_k(m, winner, loser, k) == track_map(prev, winner, loser));
        if k == 1 {
            assert(prev == m);
            assert(track_map(prev, winner, loser)[winner] == 1);
        } else {
            assert(prev.contains_key(winner) && prev[winner] == k - 1);
            assert(track_map(prev, winner, loser)[winner] == k);
        }
    }
}

/// Scores of a pairwise-comparison session: how many times each item was
/// chosen over another.
///
/// An item gets an entry the first time it takes part in a tracked result,
/// in either role; only wins raise its count. Items never tracked have no
/// entry at all.
#[derive(Debug)]
pub struct Scores {
    entries: Vec<(Item, usize)>,
}

impl View for Scores {
    type V = Map<Item, nat>;

    closed spec fn view(&self) -> Map<Item, nat> {
        map_of(self.entries@)
    }
}

impl Scores {
    /// Validity: no item has two entries.
    pub closed spec fn wf(&self) -> bool {
        distinct_entry_keys(self.entries@)
    }

    /// Constructs a new, empty set of scores.
    pub fn new() -> (r: Scores)
        ensures
            r.wf(),
            r@ == Map::<Item, nat>::empty(),
    {
        let r = Scores { entries: Vec::new() };
        proof {
            assert(r@ =~= Map::<Item, nat>::empty());
        }
        r
    }

    /// The score of `item`: the number of results it won, or nothing for
    /// an item that no tracked result has mentioned.
    pub fn get(&self, item: Item) -> (r: Option<usize>)
        requires
            self.wf(),
        ensures
            match r {
                Some(n) => self@.contains_key(item) && n as nat == self@[item],
                None => !self@.contains_key(item),
            },
    {
        match Self::find_key(&self.entries, item) {
            Some(i) => {
                let e = self.entries[i];
                proof {
                    lemma_index_of_key(self.entries@, item, i as int);
                }
                Some(e.1)
            },
            None => None,
        }
    }

    /// Every item that has taken part in a tracked result, with its score.
    /// The order of the entries carries no meaning.
    pub fn all(&self) -> (v: Vec<(Item, usize)>)
        requires
            self.wf(),
        ensures
            distinct_entry_keys(v@),
            forall|i: int|
                0 <= i < v@.len() ==> self@.contains_key((#[trigger] v@[i]).0) && v@[i].1 as nat
                    == self@[v@[i].0],
            forall|it: Item| self@.contains_key(it) ==> has_key(v@, it),
    {
        let mut v: Vec<(Item, usize)> = Vec::new();
        let n = self.entries.len();
        let mut i: usize = 0;
        while i < n
            invariant
                i <= n,
                n == self.entries@.len(),
                self.wf(),
                v@ == self.entries@.subrange(0, i as int),
            decreases n - i,
        {
            v.push(self.entries[i]);
            proof {
                assert(v@ =~= self.entries@.subrange(0, i + 1));
            }
            i += 1;
        }
        proof {
            assert(v@ =~= self.entries@);
            assert forall|i2: int| 0 <= i2 < v@.len() implies self@.contains_key(
                (#[trigger] v@[i2]).0,
            ) && v@[i2].1 as nat == self@[v@[i2].0] by {
                lemma_index_of_key(self.entries@, v@[i2].0, i2);
            }
        }
        v
    }

    /// Track the result of a single pairwise comparison.
    ///
    /// The winning item's score grows by one, the losing item's score is
    /// kept as is (created at zero if it has not been tracked yet).
    pub fn track(&mut self, winner: Item, loser: Item)
        requires
            old(self).wf(),
            old(self)@.contains_key(winner) ==> old(self)@[winner] < usize::MAX,
        ensures
            final(self).wf(),
            final(self)@ == track_map(old(self)@, winner, loser),
    {
        let ghost s0 = self.entries@;
        match Self::find_key(&self.entries, winner) {
            Some(i) => {
                let e = self.entries[i];
                proof {
                    lemma_index_of_key(s0, winner, i as int);
                }
                self.entries.set(i, (winner, e.1 + 1));
                proof {
                    lemma_map_of_update(s0, i as int, winner, (e.1 + 1) as usize);
                }
            },
            None => {
                self.entries.push((winner, 1));
                proof {
                    lemma_map_of_push(s0, winner, 1);
                }
            },
        }
        let ghost s1 = self.entries@;
        match Self::find_key(&self.entries, loser) {
            Some(_) => {
                proof {
                    assert(self@ =~= track_map(map_of(s0), winner, loser));
                }
            },
            None => {
                self.entries.push((loser, 0));
                proof {
                    lemma_map_of_push(s1, loser, 0);
                    assert(self@ =~= track_map(map_of(s0), winner, loser));
                }
            },
        }
    }

    /// The position of an entry of `v` keyed by `it`, if one exists.
    fn find_key(v: &Vec<(Item, usize)>, it: Item) -> (r: Option<usize>)
        ensures
            match r {
                Some(i) => i < v@.len() && v@[i as int].0 == it,
                None => !has_key(v@, it),
            },
    {
        let mut i: usize = 0;
        while i < v.len()
            invariant
                i <= v@.len(),
                forall|j: int| 0 <= j < i ==> (#[trigger] v@[j]).0 != it,
            decreases v@.len() - i,
        {
            let e = v[i];
            if e.0 == it {
                return Some(i);
            }
            i += 1;
        }
        None
    }
}

impl Default for Scores {
    /// An empty set of scores.
    fn default() -> (r: Scores)
        ensures
            r.wf(),
            r@ == Map::<Item, nat>::empty(),
    {
        Scores::new()
    }
}

/// Replacing the entry at a position keyed by `it` with a new count for
/// `it` updates exactly that item's count in the spelled-out mapping.
proof fn lemma_map_of_update(s: Seq<(Item, usize)>, i: int, it: Item, n: usize)
    requires
        distinct_entry_keys(s),
        0 <= i < s.len(),
        s[i].0 == it,
    ensures
        distinct_entry_keys(s.update(i, (it, n))),
        map_of(s.update(i, (it, n))) == map_of(s).insert(it, n as nat),
{
    let s2 = s.update(i, (it, n));
    assert forall|a: int, b: int| 0 <= a < b < s2.len() implies (#[trigger] s2[a]).0
        != (#[trigger] s2[b]).0 by {
        assert(s2[a].0 == s[a].0);
        assert(s2[b].0 == s[b].0);
    }
    assert forall|x: Item| #[trigger] has_key(s2, x) <==> has_key(s, x) by {
        if has_key(s2, x) {
            let j: int = choose|j: int| 0 <= j < s2.len() && (#[trigger] s2[j]).0 == x;
            assert(s[j].0 == x);
        }
        if has_key(s, x) {
            let j: int = choose|j: int| 0 <= j < s.len() && (#[trigger] s[j]).0 == x;
            assert(s2[j].0 == x);
        }
    }
    assert forall|x: Item| has_key(s, x) implies map_of(s2)[x] == map_of(s).insert(it, n as nat)[x] by {
        if x == it {
            lemma_index_of_key(s2, it, i);
        } else {
            let j: int = choose|j: int| 0 <= j < s.len() && (#[trigger] s[j]).0 == x;
            lemma_index_of_key(s, x, j);
            lemma_index_of_key(s2, x, j);
        }
    }
    assert(map_of(s2) =~= map_of(s).insert(it, n as nat));
}

/// Appending an entry for an item that has none adds exactly that item,
/// with the given count, to the spelled-out mapping.
proof fn lemma_map_of_push(s: Seq<(Item, usize)>, it: Item, n: usize)
    requires
        distinct_entry_keys(s),
        !has_key(s, it),
    ensures
        distinct_entry_keys(s.push((it, n))),
        map_of(s.push((it, n))) == map_of(s).insert(it, n as nat),
{
    let s2 = s.push((it, n));
    assert forall|a: int, b: int| 0 <= a < b < s2.len() implies (#[trigger] s2[a]).0
        != (#[trigger] s2[b]).0 by {
        if b == s2.len() - 1 {
            assert(s2[a].0 == s[a].0);
            if s2[a].0 == it {
                assert(has_key(s, it));
            }
        } else {
            assert(s2[a].0 == s[a].0);
            assert(s2[b].0 == s[b].0);
        }
    }
    assert forall|x: Item| #[trigger] has_key(s2, x) <==> has_key(s, x) || x == it by {
        if has_key(s2, x) {
            let j: int = choose|j: int| 0 <= j < s2.len() && (#[trigger] s2[j]).0 == x;
            if j < s.len() {
                assert(s[j].0 == x);
            }
        }
        if has_key(s, x) {
            let j: int = choose|j: int| 0 <= j < s.len() && (#[trigger] s[j]).0 == x;
            assert(s2[j].0 == x);
        }
        if x == it {
            assert(s2[s.len() as int].0 == x);
        }
    }
    assert forall|x: Item| has_key(s, x) || x == it implies map_of(s2)[x] == map_of(s).insert(
        it,
        n as nat,
    )[x] by {
        if x == it {
            lemma_index_of_key(s2, it, s.len() as int);
        } else {
            let j: int = choose|j: int| 0 <= j < s.len() && (#[trigger] s[j]).0 == x;
            lemma_index_of_key(s, x, j);
            lemma_index_of_key(s2, x, j);
        }
    }
    assert(map_of(s2) =~= map_of(s).insert(it, n as nat));
}

} // verus!
