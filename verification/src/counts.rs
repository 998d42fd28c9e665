//! A counting table: per-key occurrence counts held in a hash map, together
//! with the list of keys present so the table can be scanned. This is the
//! per-slide state of the hot-items operator and the accumulator its
//! window-end scan folds into.

use vstd::prelude::*;
use std::collections::HashMap;

verus! {

broadcast use vstd::std_specs::hash::group_hash_axioms;

pub struct CountTable {
    keys: Vec<usize>,
    counts: HashMap<usize, usize>,
}

impl CountTable {
    /// Keys listed exactly once, exactly the keys of the map, all counts positive.
    pub closed spec fn wf(self) -> bool {
        &&& forall|i: int, j: int|
            0 <= i < j < self.keys@.len() ==> self.keys@[i] != self.keys@[j]
        &&& forall|k: usize| self.counts@.contains_key(k) <==> self.keys@.contains(k)
        &&& forall|k: usize| self.counts@.contains_key(k) ==> self.counts@[k] >= 1
    }

    /// The count recorded for `k`; an absent key counts zero.
    pub closed spec fn count(self, k: usize) -> usize {
        if self.counts@.contains_key(k) {
            self.counts@[k]
        } else {
            0
        }
    }

    pub fn new() -> (t: CountTable)
        ensures
            t.wf(),
            forall|k: usize| t.count(k) == 0,
    {
        CountTable { keys: Vec::new(), counts: HashMap::new() }
    }

    pub fn count_at(&self, k: usize) -> (c: usize)
        requires
            self.wf(),
        ensures
            c == self.count(k),
    {
        match self.counts.get(&k) {
            Some(v) => *v,
            None => 0,
        }
    }

    /// Adds `c` to the count of `k`, leaving every other count unchanged.
    pub fn bump(&mut self, k: usize, c: usize)
        requires
            old(self).wf(),
            c >= 1,
            old(self).count(k) + c <= usize::MAX,
        ensures
            final(self).wf(),
            forall|q: usize|
                #[trigger] final(self).count(q) == old(self).count(q) + if q == k {
                    c as int
                } else {
                    0int
                },
    {
        let cur = match self.counts.get(&k) {
            Some(v) => Some(*v),
            None => None,
        };
        match cur {
            Some(v) => {
                proof {
                    assert(self.counts@.contains_key(k));
                    assert(v == self.counts@[k]);
                }
                self.counts.insert(k, v + c);
                proof {
                    assert(self.keys@ == old(self).keys@);
                    assert(self.counts@ == old(self).counts@.insert(k, (v + c) as usize));
                    assert forall|q: usize|
                        self.counts@.contains_key(q) <==> self.keys@.contains(q) by {
                        assert(self.counts@.contains_key(q) <==> (q == k || old(
                            self,
                        ).counts@.contains_key(q)));
                    }
                    assert(forall|i: int, j: int|
                        0 <= i < j < self.keys@.len() ==> self.keys@[i] != self.keys@[j]);
                    assert(forall|q: usize|
                        self.counts@.contains_key(q) ==> self.counts@[q] >= 1);
                    assert(self.wf());
                }
            },
            None => {
                proof {
                    assert(!old(self).counts@.contains_key(k));
                    assert(!old(self).keys@.contains(k));
                }
                self.keys.push(k);
                self.counts.insert(k, c);
                proof {
                    assert forall|i: int, j: int|
                        0 <= i < j < self.keys@.len() implies self.keys@[i] != self.keys@[j] by {
                        if j == self.keys@.len() - 1 {
                            assert(self.keys@[i] == old(self).keys@[i]);
                            if self.keys@[i] == k {
                                assert(old(self).keys@.contains(k));
                            }
                        } else {
                            assert(self.keys@[i] == old(self).keys@[i]);
                            assert(self.keys@[j] == old(self).keys@[j]);
                        }
                    }
                    assert forall|q: usize|
                        self.counts@.contains_key(q) <==> self.keys@.contains(q) by {
                        if q != k {
                            assert(self.counts@.contains_key(q) == old(
                                self,
                            ).counts@.contains_key(q));
                            if old(self).keys@.contains(q) {
                                let i = choose|i: int|
                                    0 <= i < old(self).keys@.len() && old(self).keys@[i] == q;
                                assert(self.keys@[i] == q);
                            }
                            if self.keys@.contains(q) {
                                let i = choose|i: int|
                                    0 <= i < self.keys@.len() && self.keys@[i] == q;
                                assert(i < old(self).keys@.len());
                                assert(old(self).keys@[i] == q);
                            }
                        } else {
                            assert(self.keys@.last() == k);
                        }
                    }
                }
            },
        }
        proof {
            assert(self.wf());
        }
    }

    /// Adds every count of `other` into `self`, pointwise.
    pub fn add_all(&mut self, other: &CountTable)
        requires
            old(self).wf(),
            other.wf(),
            forall|q: usize| old(self).count(q) + other.count(q) <= usize::MAX,
        ensures
            final(self).wf(),
            forall|q: usize|
                #[trigger] final(self).count(q) == old(self).count(q) + other.count(q),
    {
        let n = other.keys.len();
        let mut j: usize = 0;
        while j < n
            invariant
                n == other.keys@.len(),
                j <= n,
                self.wf(),
                other.wf(),
                forall|q: usize| old(self).count(q) + other.count(q) <= usize::MAX,
                forall|q: usize|
                    #[trigger] self.count(q) == old(self).count(q) + if other.keys@.take(
                        j as int,
                    ).contains(q) {
                        other.count(q) as int
                    } else {
                        0int
                    },
            decreases n - j,
        {
            let k = other.keys[j];
            let c = other.count_at(k);
            proof {
                assert(other.keys@.contains(k));
                assert(c >= 1);
                assert(!other.keys@.take(j as int).contains(k)) by {
                    if other.keys@.take(j as int).contains(k) {
                        let i = choose|i: int|
                            0 <= i < j && #[trigger] other.keys@.take(j as int)[i] == k;
                        assert(other.keys@[i] == other.keys@[j as int]);
                    }
                }
            }
            self.bump(k, c);
            proof {
                assert forall|q: usize|
                    self.count(q) == old(self).count(q) + if other.keys@.take(
                        j + 1 as int,
                    ).contains(q) {
                        other.count(q) as int
                    } else {
                        0int
                    } by {
                    if q == k {
                        assert(other.keys@.take(j + 1 as int)[j as int] == k);
                        assert(other.keys@.take(j + 1 as int).contains(k));
                    } else {
                        if other.keys@.take(j as int).contains(q) {
                            let i = choose|i: int|
                                0 <= i < j && #[trigger] other.keys@.take(j as int)[i] == q;
                            assert(other.keys@.take(j + 1 as int)[i] == q);
                            assert(other.keys@.take(j + 1 as int).contains(q));
                        }
                        if other.keys@.take(j + 1 as int).contains(q) {
                            let i = choose|i: int|
                                0 <= i < j + 1 && #[trigger] other.keys@.take(j + 1 as int)[i] == q;
                            assert(i < j);
                            assert(other.keys@.take(j as int)[i] == q);
                            assert(other.keys@.take(j as int).contains(q));
                        }
                    }
                }
            }
            j = j + 1;
        }
        proof {
            assert forall|q: usize|
                self.count(q) == old(self).count(q) + other.count(q) by {
            if other.count(q) > 0 {
                    assert(other.counts@.contains_key(q));
                    assert(other.keys@.contains(q));
                    assert(other.keys@.take(n as int) =~= other.keys@);
                } else {
                    if other.keys@.take(n as int).contains(q) {
                        assert(other.keys@.take(n as int) =~= other.keys@);
                        assert(other.counts@.contains_key(q));
                    }
                }
            }
        }
    }

    /// The entry with the greatest count; ties go to the greatest key.
    /// Returns `None` exactly when every count is zero.
    pub fn max_entry(&self) -> (r: Option<(usize, usize)>)
        requires
            self.wf(),
        ensures
            match r {
                None => forall|q: usize| self.count(q) == 0,
                Some(p) => {
                    &&& self.count(p.0) == p.1
                    &&& p.1 >= 1
                    &&& forall|q: usize|
                        #[trigger] self.count(q) < p.1 || (self.count(q) == p.1 && q <= p.0)
                },
            },
    {
        let n = self.keys.len();
        let mut best: Option<(usize, usize)> = None;
        let mut j: usize = 0;
        while j < n
            invariant
                n == self.keys@.len(),
                j <= n,
                self.wf(),
                match best {
                    None => j == 0,
                    Some(p) => {
                        &&& self.count(p.0) == p.1
                        &&& p.1 >= 1
                        &&& forall|q: usize|
                            self.keys@.take(j as int).contains(q) ==> #[trigger] self.count(q)
                                < p.1 || (self.count(q) == p.1 && q <= p.0)
                    },
                },
            decreases n - j,
        {
            let k = self.keys[j];
            let c = self.count_at(k);
            proof {
                assert(self.keys@.contains(k));
                assert(c >= 1);
            }
            best = match best {
                None => Some((k, c)),
                Some(p) => {
                    if c > p.1 || (c == p.1 && k > p.0) {
                        Some((k, c))
                    } else {
                        Some(p)
                    }
                },
            };
            proof {
                let p = best->Some_0;
                assert forall|q: usize|
                    self.keys@.take(j + 1 as int).contains(q) implies #[trigger] self.count(q)
                    < p.1 || (self.count(q) == p.1 && q <= p.0) by {
                    let i = choose|i: int|
                        0 <= i < j + 1 && #[trigger] self.keys@.take(j + 1 as int)[i] == q;
                    if i < j {
                        assert(self.keys@.take(j as int)[i] == q);
                        assert(self.keys@.take(j as int).contains(q));
                    } else {
                        assert(q == k);
                    }
                }
            }
            j = j + 1;
        }
        proof {
            match best {
                None => {
                    assert forall|q: usize| self.count(q) == 0 by {
                        if self.count(q) > 0 {
                            assert(self.counts@.contains_key(q));
                            assert(self.keys@.contains(q));
                        }
                    }
                },
                Some(p) => {
                    assert forall|q: usize|
                        #[trigger] self.count(q) < p.1 || (self.count(q) == p.1 && q <= p.0) by {
                        if self.count(q) >= p.1 {
                            if self.count(q) > 0 {
                                assert(self.counts@.contains_key(q));
                                assert(self.keys@.contains(q));
                                assert(self.keys@.take(n as int) =~= self.keys@);
                            }
                        }
                    }
                },
            }
        }
        best
    }
}

} // verus!
