//! Q4: the running average closing price per category. Fed by the
//! auction-close operator with `(category, price)` pairs, it keeps a running
//! sum and count per category and emits the integer-division average after
//! each closed auction.

use vstd::prelude::*;
use std::collections::HashMap;

verus! {

broadcast use vstd::std_specs::hash::group_hash_axioms;

pub struct CategoryAverages {
    state: HashMap<usize, (usize, usize)>,
}

impl CategoryAverages {
    /// The running `(sum, count)` of a category; never seen counts as zero.
    pub closed spec fn totals(self, category: usize) -> (usize, usize) {
        if self.state@.contains_key(category) {
            self.state@[category]
        } else {
            (0, 0)
        }
    }

    pub fn new() -> (s: CategoryAverages)
        ensures
            forall|c: usize| s.totals(c) == (0usize, 0usize),
    {
        CategoryAverages { state: HashMap::new() }
    }

    pub fn totals_at(&self, category: usize) -> (r: (usize, usize))
        ensures
            r == self.totals(category),
    {
        match self.state.get(&category) {
            Some(v) => *v,
            None => (0, 0),
        }
    }

    /// Folds one closed auction into its category and emits the category's
    /// new average price, rounded down.
    pub fn on_closed_auction(&mut self, category: usize, price: usize) -> (r: (usize, usize))
        requires
            old(self).totals(category).0 + price <= usize::MAX,
            old(self).totals(category).1 + 1 <= usize::MAX,
        ensures
            final(self).totals(category).0 == old(self).totals(category).0 + price,
            final(self).totals(category).1 == old(self).totals(category).1 + 1,
            forall|c: usize| c != category ==> final(self).totals(c) == old(self).totals(c),
            r.0 == category,
            r.1 == (old(self).totals(category).0 + price) as usize / (old(self).totals(
                category,
            ).1 + 1) as usize,
    {
        let (sum, count) = self.totals_at(category);
        let new_sum = sum + price;
        let new_count = count + 1;
        self.state.insert(category, (new_sum, new_count));
        proof {
            assert forall|c: usize|
                c != category implies self.totals(c) == old(self).totals(c) by {
                assert(self.state@.contains_key(c) == old(self).state@.contains_key(c));
                if self.state@.contains_key(c) {
                    assert(self.state@[c] == old(self).state@[c]);
                }
            }
        }
        (category, new_sum / new_count)
    }
}

} // verus!
