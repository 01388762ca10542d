//! Finding places by key: a sorted index with binary search.

use vstd::prelude::*;

use crate::order::{
    comes_before, lemma_stable_prefix, places, sorted_places, stable_order, SortKey, Standing,
};

verus! {

/// The places of `0..n` at which `p` holds, in ascending order.
pub open spec fn places_where(n: int, p: spec_fn(int) -> bool) -> Seq<int>
    decreases n,
{
    if n <= 0 {
        Seq::empty()
    } else if p(n - 1) {
        places_where(n - 1, p).push(n - 1)
    } else {
        places_where(n - 1, p)
    }
}

/// The last place of `0..n` at which `p` holds.
pub open spec fn last_where(n: int, p: spec_fn(int) -> bool) -> Option<int>
    decreases n,
{
    if n <= 0 {
        None
    } else if p(n - 1) {
        Some(n - 1)
    } else {
        last_where(n - 1, p)
    }
}

/// Those places, each of them and no other, ascending.
pub proof fn lemma_places_where(n: int, p: spec_fn(int) -> bool)
    requires
        0 <= n,
    ensures
        places_where(n, p).len() <= n,
        forall|i: int|
            0 <= i < places_where(n, p).len() ==> {
                let place = #[trigger] places_where(n, p)[i];
                0 <= place < n && p(place)
            },
        forall|i: int, j: int|
            0 <= i < j < places_where(n, p).len() ==> places_where(n, p)[i] < places_where(n, p)[j],
        forall|place: int|
            0 <= place < n && #[trigger] p(place) ==> places_where(n, p).contains(place),
    decreases n,
{
    if n > 0 {
        lemma_places_where(n - 1, p);
        let before = places_where(n - 1, p);
        let now = places_where(n, p);
        assert forall|place: int| 0 <= place < n && #[trigger] p(place) implies now.contains(
            place,
        ) by {
            if place == n - 1 {
                assert(now[before.len() as int] == place);
            } else {
                assert(before.contains(place));
                let i = choose|i: int| 0 <= i < before.len() && before[i] == place;
                assert(now[i] == place);
            }
        }
    }
}

/// Conditions that agree on `0..n` pick the same places.
pub proof fn lemma_places_where_same(n: int, p: spec_fn(int) -> bool, q: spec_fn(int) -> bool)
    requires
        forall|i: int| 0 <= i < n ==> #[trigger] p(i) == q(i),
    ensures
        places_where(n, p) == places_where(n, q),
        last_where(n, p) == last_where(n, q),
    decreases n,
{
    if n > 0 {
        assert(p(n - 1) == q(n - 1));
        lemma_places_where_same(n - 1, p, q);
    }
}

/// The last place is the last of the places.
pub proof fn lemma_last_where(n: int, p: spec_fn(int) -> bool)
    ensures
        last_where(n, p) == (if places_where(n, p).len() > 0 {
            Some(places_where(n, p).last())
        } else {
            None
        }),
        last_where(n, p) matches Some(i) ==> 0 <= i < n && p(i),
    decreases n,
{
    if n > 0 {
        lemma_last_where(n - 1, p);
    }
}

/// An ascending sequence with exactly the places of `0..n` at which `p` holds is
/// their list.
pub proof fn lemma_places_unique(n: int, p: spec_fn(int) -> bool, found: Seq<int>)
    requires
        0 <= n,
        forall|i: int| 0 <= i < found.len() ==> 0 <= #[trigger] found[i] < n && p(found[i]),
        forall|i: int, j: int| 0 <= i < j < found.len() ==> found[i] < found[j],
        forall|place: int| 0 <= place < n && #[trigger] p(place) ==> found.contains(place),
    ensures
        found == places_where(n, p),
    decreases n,
{
    if n <= 0 {
        if found.len() > 0 {
            assert(0 <= found[0] < n);
        }
        assert(found =~= Seq::empty());
    } else if p(n - 1) {
        assert(found.contains(n - 1));
        let at = choose|at: int| 0 <= at < found.len() && found[at] == n - 1;
        if at < found.len() - 1 {
            assert(found[at] < found[at + 1]);
        }
        let rest = found.drop_last();
        assert forall|i: int| 0 <= i < rest.len() implies 0 <= #[trigger] rest[i] < n - 1 && p(
            rest[i],
        ) by {
            assert(rest[i] == found[i]);
            assert(found[i] < found[found.len() - 1]);
        }
        assert forall|place: int| 0 <= place < n - 1 && #[trigger] p(place) implies rest.contains(
            place,
        ) by {
            assert(found.contains(place));
            let i = choose|i: int| 0 <= i < found.len() && found[i] == place;
            assert(rest[i] == place);
        }
        lemma_places_unique(n - 1, p, rest);
        assert(found =~= rest.push(n - 1));
    } else {
        lemma_places_unique(n - 1, p, found);
    }
}

/// Neither key comes before the other.
pub open spec fn level<K: SortKey>(a: K, b: K) -> bool {
    !a.precedes(&b) && !b.precedes(&a)
}

/// Pairs are on a level where both their parts are.
pub proof fn lemma_level_pair<A: SortKey, B: SortKey>(a: (A, B), b: (A, B))
    ensures
        level(a, b) == (level(a.0, b.0) && level(a.1, b.1)),
{
}

/// The keys of a list with their sorted order, for finding places by key.
#[derive(Debug)]
pub struct KeyIndex<K> {
    keys: Vec<K>,
    order: Vec<usize>,
}

impl<K: SortKey> View for KeyIndex<K> {
    type V = Seq<K>;

    /// The keys, in their places.
    closed spec fn view(&self) -> Seq<K> {
        self.keys@
    }
}

impl<K: SortKey> KeyIndex<K> {
    /// The order is that of the keys.
    pub closed spec fn wf(&self) -> bool {
        places(self.order@) == stable_order(self.keys@)
    }

    pub fn new(keys: Vec<K>) -> (r: Self)
        ensures
            r.wf(),
            r@ == keys@,
    {
        let order = sorted_places(&keys);
        KeyIndex { keys, order }
    }

    proof fn lemma_sorted(&self)
        requires
            self.wf(),
        ensures
            self.order@.len() == self.keys@.len(),
            forall|i: int| 0 <= i < self.order@.len() ==> #[trigger] self.order@[i] < self.keys@.len(),
            forall|i: int, j: int|
                0 <= i < j < self.order@.len() ==> comes_before(
                    self.keys@,
                    #[trigger] self.order@[i] as int,
                    #[trigger] self.order@[j] as int,
                ),
            forall|p: int| 0 <= p < self.keys@.len() ==> #[trigger] places(self.order@).contains(p),
    {
        lemma_stable_prefix(self.keys@, self.keys@.len() as int);
        let order = stable_order(self.keys@);
        assert forall|i: int| 0 <= i < self.order@.len() implies order[i] == #[trigger] self.order@[i] by {
            assert(places(self.order@)[i] == self.order@[i] as int);
        }
    }

    /// Number of places whose key is before `key`; with `through`, or on a level
    /// with it.
    fn bound(&self, key: &K, through: bool) -> (r: usize)
        requires
            self.wf(),
        ensures
            r <= self.order@.len(),
            forall|i: int|
                0 <= i < self.order@.len() ==> (i < r) == (if through {
                    !key.precedes(&self.keys@[#[trigger] self.order@[i] as int])
                } else {
                    self.keys@[self.order@[i] as int].precedes(key)
                }),
    {
        proof {
            self.lemma_sorted();
        }
        let mut low: usize = 0;
        let mut high: usize = self.order.len();
        while low < high
            invariant
                self.wf(),
                low <= high <= self.order@.len(),
                self.order@.len() == self.keys@.len(),
                forall|i: int|
                    0 <= i < self.order@.len() ==> #[trigger] self.order@[i] < self.keys@.len(),
                forall|i: int, j: int|
                    0 <= i < j < self.order@.len() ==> comes_before(
                        self.keys@,
                        #[trigger] self.order@[i] as int,
                        #[trigger] self.order@[j] as int,
                    ),
                forall|i: int|
                    0 <= i < low ==> (if through {
                        !key.precedes(&self.keys@[#[trigger] self.order@[i] as int])
                    } else {
                        self.keys@[self.order@[i] as int].precedes(key)
                    }),
                forall|i: int|
                    high <= i < self.order@.len() ==> !(if through {
                        !key.precedes(&self.keys@[#[trigger] self.order@[i] as int])
                    } else {
                        self.keys@[self.order@[i] as int].precedes(key)
                    }),
            decreases high - low,
        {
            let mid: usize = low + (high - low) / 2;
            let at: usize = self.order[mid];
            let standing: Standing = self.keys[at].compare(key);
            let goes_low: bool = match standing {
                Standing::Before => true,
                Standing::Level => through,
                Standing::After => false,
            };
            proof {
                let x = self.keys@[at as int];
                assert forall|i: int| 0 <= i < self.order@.len() implies {
                    let y = self.keys@[#[trigger] self.order@[i] as int];
                    &&& i < mid ==> !x.precedes(&y)
                    &&& i > mid ==> !y.precedes(&x)
                } by {
                    let y = self.keys@[self.order@[i] as int];
                    if i < mid {
                        assert(comes_before(self.keys@, self.order@[i] as int, self.order@[mid as int] as int));
                        y.asymmetric(&x);
                    } else if i > mid {
                        assert(comes_before(self.keys@, self.order@[mid as int] as int, self.order@[i] as int));
                        x.asymmetric(&y);
                    }
                }
                x.asymmetric(key);
                assert forall|i: int| 0 <= i < self.order@.len() implies {
                    let y = self.keys@[#[trigger] self.order@[i] as int];
                    &&& goes_low && i <= mid ==> (if through {
                        !key.precedes(&y)
                    } else {
                        y.precedes(key)
                    })
                    &&& !goes_low && i >= mid ==> !(if through {
                        !key.precedes(&y)
                    } else {
                        y.precedes(key)
                    })
                } by {
                    let y = self.keys@[self.order@[i] as int];
                    if i != mid {
                        // y <= x or x <= y
                        key.negatively_transitive(&x, &y);
                        y.negatively_transitive(key, &x);
                        key.negatively_transitive(&y, &x);
                        x.negatively_transitive(&y, key);
                        y.negatively_transitive(&x, key);
                        x.negatively_transitive(key, &y);
                    }
                }
            }
            if goes_low {
                low = mid + 1;
            } else {
                high = mid;
            }
        }
        low
    }

    /// Every place that holds a key on a level with `key`, ascending.
    pub fn find_all(&self, key: &K) -> (r: Vec<usize>)
        requires
            self.wf(),
        ensures
            places(r@) == places_where(self@.len() as int, |i: int| level(self@[i], *key)),
            forall|i: int| 0 <= i < r@.len() ==> #[trigger] r@[i] < self@.len(),
    {
        let low: usize = self.bound(key, false);
        let high: usize = self.bound(key, true);
        proof {
            self.lemma_sorted();
            if high < low {
                let at = self.order@[high as int];
                self.keys@[at as int].asymmetric(key);
            }
        }
        let mut r: Vec<usize> = Vec::new();
        let mut i: usize = low;
        while i < high
            invariant
                low <= i <= high,
                high <= self.order@.len(),
                r@ == self.order@.subrange(low as int, i as int),
            decreases high - i,
        {
            r.push(self.order[i]);
            i += 1;
            assert(r@ =~= self.order@.subrange(low as int, i as int));
        }
        proof {
            let p = |i: int| level(self@[i], *key);
            let found = places(r@);
            assert forall|i: int| 0 <= i < self.order@.len() implies (level(
                self.keys@[#[trigger] self.order@[i] as int],
                *key,
            ) == (low <= i < high)) by {}
            assert forall|i: int| 0 <= i < found.len() implies 0 <= #[trigger] found[i]
                < self@.len() && p(found[i]) by {
                assert(found[i] == self.order@[low + i] as int);
            }
            assert forall|i: int, j: int| 0 <= i < j < found.len() implies found[i] < found[j] by {
                assert(found[i] == self.order@[low + i] as int);
                assert(found[j] == self.order@[low + j] as int);
                let x = self.keys@[found[i]];
                let y = self.keys@[found[j]];
                assert(comes_before(self.keys@, found[i], found[j]));
                key.negatively_transitive(&x, key);
                x.negatively_transitive(key, &y);
            }
            assert forall|place: int| 0 <= place < self@.len() && #[trigger] p(
                place,
            ) implies found.contains(place) by {
                assert(places(self.order@).contains(place));
                let i = choose|i: int|
                    0 <= i < places(self.order@).len() && places(self.order@)[i] == place;
                assert(self.order@[i] == place);
                assert(low <= i < high);
                assert(found[i - low] == place);
            }
            lemma_places_unique(self@.len() as int, p, found);
            assert forall|i: int| 0 <= i < r@.len() implies #[trigger] r@[i] < self@.len() by {
                assert(found[i] == r@[i] as int);
            }
        }
        r
    }

    /// The last place that holds a key on a level with `key`.
    pub fn find_last(&self, key: &K) -> (r: Option<usize>)
        requires
            self.wf(),
        ensures
            match r {
                Some(i) => i < self@.len() && last_where(
                    self@.len() as int,
                    |i: int| level(self@[i], *key),
                ) == Some(i as int),
                None => last_where(self@.len() as int, |i: int| level(self@[i], *key)) is None,
            },
    {
        let high: usize = self.bound(key, true);
        proof {
            self.lemma_sorted();
        }
        let ghost p = |i: int| level(self@[i], *key);
        let ghost n = self@.len() as int;
        proof {
            lemma_last_where(n, p);
            lemma_places_where(n, p);
            if last_where(n, p) is Some {
                let place = last_where(n, p)->0;
                assert(places(self.order@).contains(place));
                let i = choose|i: int|
                    0 <= i < places(self.order@).len() && places(self.order@)[i] == place;
                assert(self.order@[i] == place);
                assert(i < high);
                if i < high - 1 {
                    assert(comes_before(self.keys@, self.order@[i] as int, self.order@[high - 1] as int));
                    let x = self.keys@[place];
                    let y = self.keys@[self.order@[high - 1] as int];
                    x.negatively_transitive(key, &y);
                    key.negatively_transitive(&x, &y);
                    y.negatively_transitive(&x, key);
                    x.negatively_transitive(&y, key);
                    x.asymmetric(&y);
                    y.asymmetric(key);
                    assert(!key.precedes(&y));
                    assert(p(self.order@[high - 1] as int));
                    assert(places_where(n, p).contains(self.order@[high - 1] as int));
                    let k = choose|k: int|
                        0 <= k < places_where(n, p).len() && places_where(n, p)[k]
                            == self.order@[high - 1] as int;
                    assert(k <= places_where(n, p).len() - 1);
                    assert(self.order@[high - 1] <= place);
                }
            }
        }
        if high == 0 {
            return None;
        }
        let at: usize = self.order[high - 1];
        match self.keys[at].compare(key) {
            Standing::Level => {
                proof {
                    assert(p(at as int));
                    assert(places_where(n, p).contains(at as int));
                }
                Some(at)
            },
            _ => {
                proof {
                    if last_where(n, p) is Some {
                        let place = last_where(n, p)->0;
                        assert(places(self.order@).contains(place));
                        let i = choose|i: int|
                            0 <= i < places(self.order@).len() && places(self.order@)[i] == place;
                        assert(self.order@[i] == place);
                        assert(i < high);
                        assert(i != high - 1);
                        assert(false);
                    }
                }
                None
            },
        }
    }
}

} // verus!
