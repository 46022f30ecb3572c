//! Items and unordered comparisons of two items.

use vstd::prelude::*;

verus! {

/// An item offered for pairwise comparison.
///
/// The wrapped value is a caller-chosen numeric handle; two items are the
/// same exactly when their handles are equal. A host that compares richer
/// values (strings, records) keeps its own table from handles to values and
/// hands the core only the handles.
#[derive(Clone, Copy, PartialEq, Eq, Structural, Hash, Debug)]
pub struct Item(pub u64);

/// Two items that should be compared against each other.
///
/// The order of the two sides carries no meaning: `Comparison::new(a, b)`
/// and `Comparison::new(b, a)` compare equal, and both have the same
/// canonical key (see [`pair_key`]).
#[derive(Clone, Copy, Debug)]
pub struct Comparison {
    /// One side of the comparison; no priority over `right`.
    pub left: Item,
    /// The other side of the comparison; no priority over `left`.
    pub right: Item,
}

/// The comparison whose left side is `a` and whose right side is `b`.
pub open spec fn pair_of(a: Item, b: Item) -> Comparison {
    Comparison { left: a, right: b }
}

/// Whether `a` and `b` pair up the same two items, regardless of which side
/// each item is stored on. This is what `==` on [`Comparison`] computes.
pub open spec fn same_pair(a: Comparison, b: Comparison) -> bool {
    ||| (a.left == b.left && a.right == b.right)
    ||| (a.left == b.right && a.right == b.left)
}

/// The canonical form of a comparison: its two handles in ascending order.
///
/// Two comparisons are equal exactly when their keys coincide
/// ([`lemma_eq_iff_same_key`]), so any fingerprint computed from the key —
/// for instance a hash — is independent of the stored order of the sides.
pub open spec fn pair_key(c: Comparison) -> (u64, u64) {
    if c.left.0 <= c.right.0 {
        (c.left.0, c.right.0)
    } else {
        (c.right.0, c.left.0)
    }
}

/// Whether the comparison `c` has the item `it` on either side.
pub open spec fn has_item(c: Comparison, it: Item) -> bool {
    c.left == it || c.right == it
}

/// The member of `c` other than `it`: the right side when `it` is the left
/// member, and the left side otherwise.
pub open spec fn other_of(c: Comparison, it: Item) -> Item {
    if c.left == it {
        c.right
    } else {
        c.left
    }
}

impl Comparison {
    /// Create a new comparison of two items.
    ///
    /// The order of `left` and `right` does not matter.
    pub fn new(left: Item, right: Item) -> (r: Comparison)
        ensures
            r == pair_of(left, right),
    {
        Comparison { left, right }
    }

    /// The member of the comparison other than `item`.
    ///
    /// When `item` is on neither side, the left member is returned.
    pub fn other(&self, item: Item) -> (r: Item)
        ensures
            r == other_of(*self, item),
    {
        if self.left == item {
            self.right
        } else {
            self.left
        }
    }
}

impl PartialEq for Comparison {
    fn eq(&self, other: &Comparison) -> (r: bool) {
        (self.left == other.left && self.right == other.right) || (self.left == other.right
            && self.right == other.left)
    }
}

impl vstd::std_specs::cmp::PartialEqSpecImpl for Comparison {
    open spec fn obeys_eq_spec() -> bool {
        true
    }

    open spec fn eq_spec(&self, other: &Comparison) -> bool {
        same_pair(*self, *other)
    }
}

/// Swapping the two sides of a comparison yields a comparison that compares
/// equal and has the same canonical key.
pub proof fn lemma_comparison_order_independent(a: Item, b: Item)
    ensures
        same_pair(pair_of(a, b), pair_of(b, a)),
        pair_key(pair_of(a, b)) == pair_key(pair_of(b, a)),
{
}

/// Comparison equality coincides with equality of canonical keys.
pub proof fn lemma_eq_iff_same_key(a: Comparison, b: Comparison)
    ensures
        same_pair(a, b) <==> pair_key(a) == pair_key(b),
{
}

} // verus!
