//! Total orders on sort keys, and a stable sort by keys.

use vstd::prelude::*;
use vstd::std_specs::iter::IteratorSpec;
use vstd::string::*;

verus! {

/// How one key stands to another.
#[derive(Clone, Copy, Debug, PartialEq, Eq, Structural)]
pub enum Standing {
    Before,
    Level,
    After,
}

/// A key that things are sorted by.
pub trait SortKey: Sized {
    /// Strictly before.
    spec fn precedes(&self, other: &Self) -> bool;

    /// The order is asymmetric.
    proof fn asymmetric(&self, other: &Self)
        ensures
            self.precedes(other) ==> !other.precedes(self),
    ;

    /// Not coming before is transitive.
    proof fn negatively_transitive(&self, middle: &Self, other: &Self)
        ensures
            !self.precedes(middle) && !middle.precedes(other) ==> !self.precedes(other),
    ;

    fn compare(&self, other: &Self) -> (r: Standing)
        ensures
            (r == Standing::Before) == self.precedes(other),
            (r == Standing::After) == other.precedes(self),
    ;
}

impl SortKey for usize {
    open spec fn precedes(&self, other: &Self) -> bool {
        *self < *other
    }

    proof fn asymmetric(&self, other: &Self) {
    }

    proof fn negatively_transitive(&self, middle: &Self, other: &Self) {
    }

    fn compare(&self, other: &Self) -> (r: Standing) {
        if *self < *other {
            Standing::Before
        } else if *other < *self {
            Standing::After
        } else {
            Standing::Level
        }
    }
}

impl SortKey for u32 {
    open spec fn precedes(&self, other: &Self) -> bool {
        *self < *other
    }

    proof fn asymmetric(&self, other: &Self) {
    }

    proof fn negatively_transitive(&self, middle: &Self, other: &Self) {
    }

    fn compare(&self, other: &Self) -> (r: Standing) {
        if *self < *other {
            Standing::Before
        } else if *other < *self {
            Standing::After
        } else {
            Standing::Level
        }
    }
}

/// Lexicographic by character: for UTF-8 text the same as by byte.
pub open spec fn text_precedes(a: Seq<char>, b: Seq<char>) -> bool
    decreases a.len(),
{
    b.len() > 0 && (a.len() == 0 || (a[0] as u32) < (b[0] as u32) || a[0] == b[0] && text_precedes(
        a.drop_first(),
        b.drop_first(),
    ))
}

proof fn lemma_char_codes(a: char, b: char)
    ensures
        a as u32 == b as u32 ==> a == b,
{
    vstd::utf8::char_u32_cast(a, a as u32);
    vstd::utf8::char_u32_cast(b, b as u32);
}

pub proof fn lemma_text_asymmetric(a: Seq<char>, b: Seq<char>)
    ensures
        text_precedes(a, b) ==> !text_precedes(b, a),
    decreases a.len(),
{
    if a.len() > 0 && b.len() > 0 {
        lemma_text_asymmetric(a.drop_first(), b.drop_first());
    }
}

pub proof fn lemma_text_negatively_transitive(a: Seq<char>, b: Seq<char>, c: Seq<char>)
    ensures
        !text_precedes(a, b) && !text_precedes(b, c) ==> !text_precedes(a, c),
    decreases a.len(),
{
    if a.len() > 0 && b.len() > 0 && c.len() > 0 {
        lemma_char_codes(a[0], b[0]);
        lemma_char_codes(b[0], c[0]);
        lemma_text_negatively_transitive(a.drop_first(), b.drop_first(), c.drop_first());
    }
}

/// Texts on a level are equal.
pub proof fn lemma_text_level(a: Seq<char>, b: Seq<char>)
    ensures
        !text_precedes(a, b) && !text_precedes(b, a) ==> a == b,
    decreases a.len(),
{
    if a.len() > 0 && b.len() > 0 {
        lemma_char_codes(a[0], b[0]);
        lemma_text_level(a.drop_first(), b.drop_first());
        if !text_precedes(a, b) && !text_precedes(b, a) {
            assert(a =~= seq![a[0]] + a.drop_first());
            assert(b =~= seq![b[0]] + b.drop_first());
        }
    } else if a.len() == 0 && b.len() == 0 {
        assert(a =~= b);
    }
}

/// Compare two texts.
pub fn compare_text(a: &str, b: &str) -> (r: Standing)
    ensures
        (r == Standing::Before) == text_precedes(a@, b@),
        (r == Standing::After) == text_precedes(b@, a@),
{
    let mut left = a.chars();
    let mut right = b.chars();
    loop
        invariant
            left.obeys_prophetic_iter_laws(),
            right.obeys_prophetic_iter_laws(),
            left.decrease() is Some,
            text_precedes(a@, b@) == text_precedes(left.remaining(), right.remaining()),
            text_precedes(b@, a@) == text_precedes(right.remaining(), left.remaining()),
        decreases left.decrease()->0,
    {
        match left.next() {
            None => {
                return match right.next() {
                    None => Standing::Level,
                    Some(_) => Standing::Before,
                };
            },
            Some(x) => match right.next() {
                None => {
                    return Standing::After;
                },
                Some(y) => {
                    proof {
                        lemma_char_codes(x, y);
                    }
                    let x: u32 = x as u32;
                    let y: u32 = y as u32;
                    if x < y {
                        return Standing::Before;
                    }
                    if y < x {
                        return Standing::After;
                    }
                },
            },
        }
    }
}

impl SortKey for String {
    open spec fn precedes(&self, other: &Self) -> bool {
        text_precedes(self@, other@)
    }

    proof fn asymmetric(&self, other: &Self) {
        lemma_text_asymmetric(self@, other@);
    }

    proof fn negatively_transitive(&self, middle: &Self, other: &Self) {
        lemma_text_negatively_transitive(self@, middle@, other@);
    }

    fn compare(&self, other: &Self) -> (r: Standing) {
        compare_text(self.as_str(), other.as_str())
    }
}

impl<A: SortKey, B: SortKey> SortKey for (A, B) {
    open spec fn precedes(&self, other: &Self) -> bool {
        self.0.precedes(&other.0) || !other.0.precedes(&self.0) && self.1.precedes(&other.1)
    }

    proof fn asymmetric(&self, other: &Self) {
        self.0.asymmetric(&other.0);
        self.1.asymmetric(&other.1);
    }

    proof fn negatively_transitive(&self, middle: &Self, other: &Self) {
        self.0.negatively_transitive(&middle.0, &other.0);
        self.0.negatively_transitive(&other.0, &middle.0);
        middle.0.negatively_transitive(&self.0, &other.0);
        middle.0.negatively_transitive(&other.0, &self.0);
        other.0.negatively_transitive(&middle.0, &self.0);
        other.0.negatively_transitive(&self.0, &middle.0);
        self.0.asymmetric(&middle.0);
        middle.0.asymmetric(&other.0);
        self.0.asymmetric(&other.0);
        self.1.negatively_transitive(&middle.1, &other.1);
    }

    fn compare(&self, other: &Self) -> (r: Standing) {
        proof {
            self.0.asymmetric(&other.0);
        }
        match self.0.compare(&other.0) {
            Standing::Level => self.1.compare(&other.1),
            decided => decided,
        }
    }
}

/// Nothing comes before something.
impl<A: SortKey> SortKey for Option<A> {
    open spec fn precedes(&self, other: &Self) -> bool {
        match (self, other) {
            (None, Some(_)) => true,
            (Some(a), Some(b)) => a.precedes(b),
            (_, None) => false,
        }
    }

    proof fn asymmetric(&self, other: &Self) {
        match (self, other) {
            (Some(a), Some(b)) => a.asymmetric(b),
            _ => {},
        }
    }

    proof fn negatively_transitive(&self, middle: &Self, other: &Self) {
        match (self, middle, other) {
            (Some(a), Some(b), Some(c)) => a.negatively_transitive(b, c),
            _ => {},
        }
    }

    fn compare(&self, other: &Self) -> (r: Standing) {
        match self {
            None => match other {
                None => Standing::Level,
                Some(_) => Standing::Before,
            },
            Some(a) => match other {
                None => Standing::After,
                Some(b) => a.compare(b),
            },
        }
    }
}

// ---------------------------------------------------------------------------
// Stable order

/// Place `p` comes before place `q` in the stable order of the keys: its key is
/// before, or neither key is before the other and the place itself is earlier.
pub open spec fn comes_before<K: SortKey>(keys: Seq<K>, p: int, q: int) -> bool {
    keys[p].precedes(&keys[q]) || !keys[q].precedes(&keys[p]) && p < q
}

/// The number of places in `order`, a prefix of which comes before place `p`,
/// that do.
pub open spec fn rank_in<K: SortKey>(keys: Seq<K>, order: Seq<int>, p: int) -> int
    decreases order.len(),
{
    if order.len() == 0 || comes_before(keys, order.last(), p) {
        order.len() as int
    } else {
        rank_in(keys, order.drop_last(), p)
    }
}

/// The first `n` places in the stable order of their keys.
pub open spec fn stable_prefix<K: SortKey>(keys: Seq<K>, n: int) -> Seq<int>
    decreases n,
{
    if n <= 0 {
        Seq::empty()
    } else {
        let before = stable_prefix(keys, n - 1);
        before.insert(rank_in(keys, before, n - 1), n - 1)
    }
}

/// The places `0..keys.len()` in the stable order of their keys.
pub open spec fn stable_order<K: SortKey>(keys: Seq<K>) -> Seq<int> {
    stable_prefix(keys, keys.len() as int)
}

/// The items at the given places, in that order.
pub open spec fn gather<T>(items: Seq<T>, places: Seq<int>) -> Seq<T> {
    Seq::new(places.len(), |i: int| items[places[i]])
}

/// Every place of `lo..hi`, each once, each before those behind it.
pub open spec fn is_ordered_range<K: SortKey>(keys: Seq<K>, lo: int, hi: int, order: Seq<int>) -> bool {
    &&& forall|i: int| 0 <= i < order.len() ==> lo <= #[trigger] order[i] < hi
    &&& forall|p: int| lo <= p < hi ==> #[trigger] order.contains(p)
    &&& forall|i: int, j: int|
        0 <= i < j < order.len() ==> comes_before(keys, #[trigger] order[i], #[trigger] order[j])
}

pub proof fn lemma_before_transitive<K: SortKey>(keys: Seq<K>, p: int, q: int, r: int)
    requires
        comes_before(keys, p, q),
        comes_before(keys, q, r),
    ensures
        comes_before(keys, p, r),
{
    let (a, b, c) = (keys[p], keys[q], keys[r]);
    a.asymmetric(&b);
    b.asymmetric(&c);
    c.negatively_transitive(&b, &a);
    a.negatively_transitive(&c, &b);
    b.negatively_transitive(&a, &c);
    a.negatively_transitive(&b, &c);
    c.negatively_transitive(&a, &b);
    b.negatively_transitive(&c, &a);
    a.asymmetric(&c);
}

pub proof fn lemma_before_total<K: SortKey>(keys: Seq<K>, p: int, q: int)
    ensures
        p != q ==> comes_before(keys, p, q) || comes_before(keys, q, p),
        !(comes_before(keys, p, q) && comes_before(keys, q, p)),
        !comes_before(keys, p, p),
{
    keys[p].asymmetric(&keys[q]);
    keys[p].asymmetric(&keys[p]);
}

/// An ordered range has as many places as the range.
pub proof fn lemma_ordered_unique<K: SortKey>(keys: Seq<K>, a: Seq<int>, b: Seq<int>)
    requires
        forall|p: int| a.contains(p) <==> #[trigger] b.contains(p),
        forall|i: int, j: int|
            0 <= i < j < a.len() ==> comes_before(keys, #[trigger] a[i], #[trigger] a[j]),
        forall|i: int, j: int|
            0 <= i < j < b.len() ==> comes_before(keys, #[trigger] b[i], #[trigger] b[j]),
    ensures
        a == b,
    decreases a.len(),
{
    if a.len() == 0 {
        if b.len() > 0 {
            assert(b.contains(b[0]));
        }
        assert(a =~= b);
    } else {
        assert(a.contains(a.last()));
        assert(b.contains(a.last()));
        assert(b.contains(b.last()));
        assert(a.contains(b.last()));
        let x = a.last();
        let y = b.last();
        let i = choose|i: int| 0 <= i < a.len() && a[i] == y;
        let j = choose|j: int| 0 <= j < b.len() && b[j] == x;
        if x != y {
            assert(comes_before(keys, a[i], a[a.len() - 1]));
            assert(comes_before(keys, b[j], b[b.len() - 1]));
            lemma_before_total(keys, x, y);
        }
        let a0 = a.drop_last();
        let b0 = b.drop_last();
        assert forall|p: int| a0.contains(p) <==> #[trigger] b0.contains(p) by {
            if a0.contains(p) {
                let k = choose|k: int| 0 <= k < a0.len() && a0[k] == p;
                assert(a[k] == p);
                assert(comes_before(keys, a[k], a[a.len() - 1]));
                lemma_before_total(keys, p, p);
                assert(a.contains(p));
                assert(b.contains(p));
                let m = choose|m: int| 0 <= m < b.len() && b[m] == p;
                assert(b0[m] == p);
            }
            if b0.contains(p) {
                let k = choose|k: int| 0 <= k < b0.len() && b0[k] == p;
                assert(b[k] == p);
                assert(comes_before(keys, b[k], b[b.len() - 1]));
                lemma_before_total(keys, p, p);
                assert(b.contains(p));
                assert(a.contains(p));
                let m = choose|m: int| 0 <= m < a.len() && a[m] == p;
                assert(a0[m] == p);
            }
        }
        lemma_ordered_unique(keys, a0, b0);
        assert(a =~= a0.push(x));
        assert(b =~= b0.push(y));
    }
}

proof fn lemma_rank<K: SortKey>(keys: Seq<K>, order: Seq<int>, p: int)
    requires
        forall|i: int, j: int|
            0 <= i < j < order.len() ==> comes_before(keys, #[trigger] order[i], #[trigger] order[j]),
        forall|i: int| 0 <= i < order.len() ==> #[trigger] order[i] != p,
    ensures
        0 <= rank_in(keys, order, p) <= order.len(),
        forall|i: int|
            0 <= i < rank_in(keys, order, p) ==> comes_before(keys, #[trigger] order[i], p),
        forall|i: int|
            rank_in(keys, order, p) <= i < order.len() ==> comes_before(keys, p, #[trigger] order[i]),
    decreases order.len(),
{
    if order.len() == 0 {
    } else if comes_before(keys, order.last(), p) {
        assert forall|i: int| 0 <= i < order.len() implies comes_before(keys, #[trigger] order[i], p) by {
            if i < order.len() - 1 {
                lemma_before_transitive(keys, order[i], order.last(), p);
            }
        }
    } else {
        let before = order.drop_last();
        assert forall|i: int, j: int| 0 <= i < j < before.len() implies comes_before(
            keys,
            #[trigger] before[i],
            #[trigger] before[j],
        ) by {
            assert(before[i] == order[i] && before[j] == order[j]);
        }
        lemma_rank(keys, before, p);
        lemma_before_total(keys, order.last(), p);
        assert forall|i: int| 0 <= i < rank_in(keys, order, p) implies comes_before(
            keys,
            #[trigger] order[i],
            p,
        ) by {
            assert(order[i] == before[i]);
        }
        assert forall|i: int| rank_in(keys, order, p) <= i < order.len() implies comes_before(
            keys,
            p,
            #[trigger] order[i],
        ) by {
            if i < before.len() {
                assert(order[i] == before[i]);
            }
        }
    }
}

/// The stable order holds each place once, and each before those behind it.
pub proof fn lemma_stable_prefix<K: SortKey>(keys: Seq<K>, n: int)
    requires
        0 <= n <= keys.len(),
    ensures
        is_ordered_range(keys, 0, n, stable_prefix(keys, n)),
        stable_prefix(keys, n).len() == n,
    decreases n,
{
    if n > 0 {
        lemma_stable_prefix(keys, n - 1);
        let before = stable_prefix(keys, n - 1);
        let rank = rank_in(keys, before, n - 1);
        lemma_rank(keys, before, n - 1);
        let after = stable_prefix(keys, n);
        assert(after == before.insert(rank, n - 1));
        assert forall|i: int, j: int| 0 <= i < j < after.len() implies comes_before(
            keys,
            #[trigger] after[i],
            #[trigger] after[j],
        ) by {
            if i < rank {
                assert(after[i] == before[i]);
            } else if i > rank {
                assert(after[i] == before[i - 1]);
            }
            if j < rank {
                assert(after[j] == before[j]);
            } else if j > rank {
                assert(after[j] == before[j - 1]);
            }
        }
        assert forall|p: int| 0 <= p < n implies #[trigger] after.contains(p) by {
            if p == n - 1 {
                assert(after[rank] == p);
            } else {
                assert(before.contains(p));
                let i = choose|i: int| 0 <= i < before.len() && before[i] == p;
                if i < rank {
                    assert(after[i] == p);
                } else {
                    assert(after[i + 1] == p);
                }
            }
        }
        assert forall|i: int| 0 <= i < after.len() implies 0 <= #[trigger] after[i] < n by {
            if i < rank {
                assert(after[i] == before[i]);
            } else if i > rank {
                assert(after[i] == before[i - 1]);
            }
        }
    }
}

/// Sorting is determined by its result being ordered and complete.
pub proof fn lemma_stable_order_unique<K: SortKey>(keys: Seq<K>, order: Seq<int>)
    requires
        is_ordered_range(keys, 0, keys.len() as int, order),
    ensures
        order == stable_order(keys),
{
    let n = keys.len() as int;
    let other = stable_order(keys);
    lemma_stable_prefix(keys, n);
    assert forall|p: int| order.contains(p) <==> #[trigger] other.contains(p) by {
        if order.contains(p) {
            let i = choose|i: int| 0 <= i < order.len() && order[i] == p;
            assert(0 <= order[i] < n);
        }
        if other.contains(p) {
            let i = choose|i: int| 0 <= i < other.len() && other[i] == p;
            assert(0 <= other[i] < n);
            assert(order.contains(p));
        }
    }
    lemma_ordered_unique(keys, order, other);
}

/// Sorting keeps every item and adds none: the result is a permutation, keys
/// never decrease along it, and level keys keep their order.
pub proof fn stable_sort_is_a_stable_permutation<K: SortKey>(keys: Seq<K>)
    ensures
        stable_order(keys).len() == keys.len(),
        stable_order(keys).no_duplicates(),
        forall|p: int| 0 <= p < keys.len() ==> #[trigger] stable_order(keys).contains(p),
        forall|i: int, j: int|
            0 <= i < j < keys.len() ==> {
                let (p, q) = (#[trigger] stable_order(keys)[i], #[trigger] stable_order(keys)[j]);
                !keys[q].precedes(&keys[p]) && (!keys[p].precedes(&keys[q]) ==> p < q)
            },
{
    lemma_stable_prefix(keys, keys.len() as int);
    let order = stable_order(keys);
    assert forall|i: int, j: int| 0 <= i < j < keys.len() implies ({
        let (p, q) = (#[trigger] order[i], #[trigger] order[j]);
        !keys[q].precedes(&keys[p]) && (!keys[p].precedes(&keys[q]) ==> p < q)
    }) by {
        assert(comes_before(keys, order[i], order[j]));
        keys[order[i]].asymmetric(&keys[order[j]]);
    }
    assert forall|i: int, j: int| 0 <= i < order.len() && 0 <= j < order.len() && i
        != j implies order[i] != order[j] by {
        if i < j {
            assert(comes_before(keys, order[i], order[j]));
        } else {
            assert(comes_before(keys, order[j], order[i]));
        }
        lemma_before_total(keys, order[i], order[j]);
        lemma_before_total(keys, order[i], order[i]);
    }
}

/// A vector of places as mathematical integers.
pub open spec fn places(v: Seq<usize>) -> Seq<int> {
    v.map_values(|p: usize| p as int)
}

fn merge<K: SortKey>(keys: &Vec<K>, left: &Vec<usize>, right: &Vec<usize>, Ghost(lo): Ghost<int>, Ghost(mid): Ghost<int>, Ghost(hi): Ghost<int>) -> (r: Vec<usize>)
    requires
        0 <= lo <= mid <= hi <= keys.len(),
        is_ordered_range(keys@, lo, mid, places(left@)),
        is_ordered_range(keys@, mid, hi, places(right@)),
    ensures
        is_ordered_range(keys@, lo, hi, places(r@)),
{
    let mut out: Vec<usize> = Vec::new();
    let mut i: usize = 0;
    let mut j: usize = 0;
    while i < left.len() || j < right.len()
        invariant
            0 <= lo <= mid <= hi <= keys.len(),
            is_ordered_range(keys@, lo, mid, places(left@)),
            is_ordered_range(keys@, mid, hi, places(right@)),
            i <= left.len(),
            j <= right.len(),
            forall|a: int, b: int|
                0 <= a < b < out@.len() ==> comes_before(
                    keys@,
                    #[trigger] out@[a] as int,
                    #[trigger] out@[b] as int,
                ),
            forall|a: int| 0 <= a < out@.len() ==> lo <= (#[trigger] out@[a]) < hi,
            forall|a: int, b: int|
                0 <= a < out@.len() && i <= b < left@.len() ==> comes_before(
                    keys@,
                    #[trigger] out@[a] as int,
                    #[trigger] left@[b] as int,
                ),
            forall|a: int, b: int|
                0 <= a < out@.len() && j <= b < right@.len() ==> comes_before(
                    keys@,
                    #[trigger] out@[a] as int,
                    #[trigger] right@[b] as int,
                ),
            forall|b: int| 0 <= b < i ==> out@.contains(#[trigger] left@[b]),
            forall|b: int| 0 <= b < j ==> out@.contains(#[trigger] right@[b]),
        decreases left.len() - i + right.len() - j,
    {
        proof {
            assert forall|b: int| 0 <= b < left@.len() implies lo <= #[trigger] left@[b] < mid by {
                assert(places(left@)[b] == left@[b] as int);
            }
            assert forall|b: int| 0 <= b < right@.len() implies mid <= #[trigger] right@[b] < hi by {
                assert(places(right@)[b] == right@[b] as int);
            }
            assert forall|a: int, b: int| 0 <= a < b < left@.len() implies comes_before(
                keys@,
                #[trigger] left@[a] as int,
                #[trigger] left@[b] as int,
            ) by {
                assert(places(left@)[a] == left@[a] as int && places(left@)[b] == left@[b] as int);
            }
            assert forall|a: int, b: int| 0 <= a < b < right@.len() implies comes_before(
                keys@,
                #[trigger] right@[a] as int,
                #[trigger] right@[b] as int,
            ) by {
                assert(places(right@)[a] == right@[a] as int && places(right@)[b] == right@[b] as int);
            }
        }
        let ghost before = out@;
        let take_left: bool = if i >= left.len() {
            false
        } else if j >= right.len() {
            true
        } else {
            match keys[right[j]].compare(&keys[left[i]]) {
                Standing::Before => false,
                _ => true,
            }
        };
        if take_left {
            let next: usize = left[i];
            proof {
                assert forall|b: int| j <= b < right@.len() implies comes_before(
                    keys@,
                    next as int,
                    #[trigger] right@[b] as int,
                ) by {
                    if b > j {
                        lemma_before_transitive(keys@, next as int, right@[j as int] as int, right@[b] as int);
                    }
                }
            }
            out.push(next);
            i += 1;
        } else {
            let next: usize = right[j];
            proof {
                assert forall|b: int| i <= b < left@.len() implies comes_before(
                    keys@,
                    next as int,
                    #[trigger] left@[b] as int,
                ) by {
                    if b > i {
                        lemma_before_transitive(keys@, next as int, left@[i as int] as int, left@[b] as int);
                    }
                }
            }
            out.push(next);
            j += 1;
        }
        proof {
            assert forall|x: usize| before.contains(x) implies #[trigger] out@.contains(x) by {
                let k = choose|k: int| 0 <= k < before.len() && before[k] == x;
                assert(out@[k] == x);
            }
            assert(out@.last() == out@[before.len() as int]);
            assert(out@.contains(out@[before.len() as int]));
        }
    }
    proof {
        let order = places(out@);
        assert forall|a: int, b: int| 0 <= a < b < order.len() implies comes_before(
            keys@,
            #[trigger] order[a],
            #[trigger] order[b],
        ) by {
            assert(order[a] == out@[a] as int && order[b] == out@[b] as int);
        }
        assert forall|p: int| lo <= p < hi implies #[trigger] order.contains(p) by {
            if p < mid {
                assert(places(left@).contains(p));
                let b = choose|b: int| 0 <= b < places(left@).len() && places(left@)[b] == p;
                assert(out@.contains(left@[b]));
                let k = choose|k: int| 0 <= k < out@.len() && out@[k] == left@[b];
                assert(order[k] == p);
            } else {
                assert(places(right@).contains(p));
                let b = choose|b: int| 0 <= b < places(right@).len() && places(right@)[b] == p;
                assert(out@.contains(right@[b]));
                let k = choose|k: int| 0 <= k < out@.len() && out@[k] == right@[b];
                assert(order[k] == p);
            }
        }
    }
    out
}

fn sort_range<K: SortKey>(keys: &Vec<K>, lo: usize, hi: usize) -> (r: Vec<usize>)
    requires
        lo <= hi <= keys.len(),
    ensures
        is_ordered_range(keys@, lo as int, hi as int, places(r@)),
    decreases hi - lo,
{
    let mut out: Vec<usize> = Vec::new();
    if lo == hi {
        return out;
    }
    if hi - lo == 1 {
        out.push(lo);
        assert(places(out@)[0] == lo as int);
        return out;
    }
    let mid: usize = lo + (hi - lo) / 2;
    let left = sort_range(keys, lo, mid);
    let right = sort_range(keys, mid, hi);
    merge(keys, &left, &right, Ghost(lo as int), Ghost(mid as int), Ghost(hi as int))
}

/// The places of the keys in their stable order.
pub fn sorted_places<K: SortKey>(keys: &Vec<K>) -> (r: Vec<usize>)
    ensures
        places(r@) == stable_order(keys@),
        r@.len() == keys@.len(),
        forall|i: int| 0 <= i < r@.len() ==> #[trigger] r@[i] < keys@.len(),
{
    let r = sort_range(keys, 0, keys.len());
    proof {
        lemma_stable_order_unique(keys@, places(r@));
        lemma_stable_prefix(keys@, keys@.len() as int);
        assert forall|i: int| 0 <= i < r@.len() implies #[trigger] r@[i] < keys@.len() by {
            assert(places(r@)[i] == r@[i] as int);
        }
    }
    r
}

/// Keys that stand to each other alike sort alike.
pub proof fn lemma_same_order<K: SortKey, L: SortKey>(a: Seq<K>, b: Seq<L>)
    requires
        a.len() == b.len(),
        forall|i: int, j: int|
            0 <= i < a.len() && 0 <= j < a.len() ==> #[trigger] a[i].precedes(&a[j])
                == b[i].precedes(&b[j]),
    ensures
        stable_order(a) == stable_order(b),
{
    lemma_same_prefix(a, b, a.len() as int);
}

proof fn lemma_same_prefix<K: SortKey, L: SortKey>(a: Seq<K>, b: Seq<L>, n: int)
    requires
        0 <= n <= a.len(),
        a.len() == b.len(),
        forall|i: int, j: int|
            0 <= i < a.len() && 0 <= j < a.len() ==> #[trigger] a[i].precedes(&a[j])
                == b[i].precedes(&b[j]),
    ensures
        stable_prefix(a, n) == stable_prefix(b, n),
    decreases n,
{
    if n > 0 {
        lemma_same_prefix(a, b, n - 1);
        lemma_stable_prefix(a, n - 1);
        lemma_same_rank(a, b, stable_prefix(a, n - 1), n - 1);
    }
}

proof fn lemma_same_rank<K: SortKey, L: SortKey>(a: Seq<K>, b: Seq<L>, order: Seq<int>, p: int)
    requires
        0 <= p < a.len(),
        a.len() == b.len(),
        forall|i: int| 0 <= i < order.len() ==> 0 <= #[trigger] order[i] < a.len(),
        forall|i: int, j: int|
            0 <= i < a.len() && 0 <= j < a.len() ==> #[trigger] a[i].precedes(&a[j])
                == b[i].precedes(&b[j]),
    ensures
        rank_in(a, order, p) == rank_in(b, order, p),
    decreases order.len(),
{
    if order.len() > 0 {
        let q = order.last();
        assert(0 <= q < a.len());
        assert(a[q].precedes(&a[p]) == b[q].precedes(&b[p]));
        assert(a[p].precedes(&a[q]) == b[p].precedes(&b[q]));
        lemma_same_rank(a, b, order.drop_last(), p);
    }
}

/// The items in the given order of places.
fn reorder<T>(items: Vec<T>, order: &Vec<usize>) -> (r: Vec<T>)
    requires
        forall|i: int| 0 <= i < order@.len() ==> #[trigger] order@[i] < items@.len(),
        order@.no_duplicates(),
    ensures
        r@ == gather(items@, places(order@)),
{
    let ghost all = items@;
    let mut items = items;
    let mut slots: Vec<Option<T>> = Vec::new();
    while items.len() > 0
        invariant
            items@ + Seq::new(slots@.len(), |k: int| slots@[slots@.len() - 1 - k]->0) == all,
            forall|k: int| 0 <= k < slots@.len() ==> (#[trigger] slots@[k]) is Some,
        decreases items.len(),
    {
        let ghost before = items@ + Seq::new(slots@.len(), |k: int| slots@[slots@.len() - 1 - k]->0);
        if let Some(item) = items.pop() {
            slots.push(Some(item));
        }
        assert(items@ + Seq::new(slots@.len(), |k: int| slots@[slots@.len() - 1 - k]->0) =~= before);
    }
    let n: usize = slots.len();
    assert forall|p: int| 0 <= p < n implies #[trigger] slots@[n - 1 - p] == Some(all[p]) by {
        let back = items@ + Seq::new(slots@.len(), |k: int| slots@[slots@.len() - 1 - k]->0);
        assert(back[p] == slots@[slots@.len() - 1 - p]->0);
    }
    assert(n == all.len());
    let mut r: Vec<T> = Vec::new();
    let mut i: usize = 0;
    while i < order.len()
        invariant
            i <= order@.len(),
            n == slots@.len() == all.len(),
            forall|k: int| 0 <= k < order@.len() ==> #[trigger] order@[k] < n,
            order@.no_duplicates(),
            r@.len() == i,
            forall|k: int| 0 <= k < i ==> #[trigger] r@[k] == all[order@[k] as int],
            forall|k: int|
                i <= k < order@.len() ==> slots@[n - 1 - (#[trigger] order@[k])] == Some(
                    all[order@[k] as int],
                ),
        decreases order.len() - i,
    {
        let mut slot: Option<T> = None;
        assert(order@[i as int] < n);
        let at: usize = n - 1 - order[i];
        std::mem::swap(&mut slots[at], &mut slot);
        if let Some(item) = slot {
            r.push(item);
        }
        i += 1;
    }
    assert(r@ =~= gather(all, places(order@)));
    r
}

/// The items in the stable order of their keys.
pub fn sort_by_keys<T, K: SortKey>(items: Vec<T>, keys: &Vec<K>) -> (r: Vec<T>)
    requires
        items@.len() == keys@.len(),
    ensures
        r@ == gather(items@, stable_order(keys@)),
        r@.len() == items@.len(),
{
    let order = sorted_places(keys);
    proof {
        stable_sort_is_a_stable_permutation(keys@);
        assert forall|i: int, j: int| 0 <= i < order@.len() && 0 <= j < order@.len() && i
            != j implies order@[i] != order@[j] by {
            assert(places(order@)[i] == order@[i] as int);
            assert(places(order@)[j] == order@[j] as int);
        }
    }
    reorder(items, &order)
}

// ---------------------------------------------------------------------------
// Distinct keys

/// Of a list of places, those whose key is not on a level with the one kept
/// before.
pub open spec fn distinct_places<K: SortKey>(keys: Seq<K>, order: Seq<int>) -> Seq<int>
    decreases order.len(),
{
    if order.len() == 0 {
        order
    } else {
        let kept = distinct_places(keys, order.drop_last());
        if kept.len() > 0 && !keys[kept.last()].precedes(&keys[order.last()])
            && !keys[order.last()].precedes(&keys[kept.last()]) {
            kept
        } else {
            kept.push(order.last())
        }
    }
}

/// The key at a place is on a level with one at the kept places.
pub open spec fn is_represented<K: SortKey>(keys: Seq<K>, kept: Seq<int>, p: int) -> bool {
    exists|j: int|
        0 <= j < kept.len() && !keys[#[trigger] kept[j]].precedes(&keys[p]) && !keys[p].precedes(
            &keys[kept[j]],
        )
}

/// The places in the stable order of their keys, the first for each key.
pub open spec fn distinct_order<K: SortKey>(keys: Seq<K>) -> Seq<int> {
    distinct_places(keys, stable_order(keys))
}

proof fn lemma_distinct_places_bounds<K: SortKey>(keys: Seq<K>, order: Seq<int>)
    requires
        forall|i: int| 0 <= i < order.len() ==> 0 <= #[trigger] order[i] < keys.len(),
    ensures
        distinct_places(keys, order).len() <= order.len(),
        forall|i: int|
            0 <= i < distinct_places(keys, order).len() ==> 0 <= #[trigger] distinct_places(
                keys,
                order,
            )[i] < keys.len(),
    decreases order.len(),
{
    if order.len() > 0 {
        lemma_distinct_places_bounds(keys, order.drop_last());
    }
}

pub proof fn lemma_distinct_order_bounds<K: SortKey>(keys: Seq<K>)
    ensures
        distinct_order(keys).len() <= keys.len(),
        forall|i: int|
            0 <= i < distinct_order(keys).len() ==> 0 <= #[trigger] distinct_order(keys)[i]
                < keys.len(),
{
    lemma_stable_prefix(keys, keys.len() as int);
    lemma_distinct_places_bounds(keys, stable_order(keys));
}

proof fn lemma_same_distinct<K: SortKey, L: SortKey>(a: Seq<K>, b: Seq<L>, order: Seq<int>)
    requires
        a.len() == b.len(),
        forall|i: int| 0 <= i < order.len() ==> 0 <= #[trigger] order[i] < a.len(),
        forall|i: int, j: int|
            0 <= i < a.len() && 0 <= j < a.len() ==> #[trigger] a[i].precedes(&a[j])
                == b[i].precedes(&b[j]),
    ensures
        distinct_places(a, order) == distinct_places(b, order),
    decreases order.len(),
{
    if order.len() > 0 {
        let rest = order.drop_last();
        lemma_same_distinct(a, b, rest);
        lemma_distinct_places_bounds(a, rest);
        let kept = distinct_places(a, rest);
        if kept.len() > 0 {
            let (p, q) = (kept[kept.len() - 1], order[order.len() - 1]);
            assert(a[p].precedes(&a[q]) == b[p].precedes(&b[q]));
            assert(a[q].precedes(&a[p]) == b[q].precedes(&b[p]));
        }
    }
}

/// Keys that stand to each other alike leave the same places.
pub proof fn lemma_same_distinct_order<K: SortKey, L: SortKey>(a: Seq<K>, b: Seq<L>)
    requires
        a.len() == b.len(),
        forall|i: int, j: int|
            0 <= i < a.len() && 0 <= j < a.len() ==> #[trigger] a[i].precedes(&a[j])
                == b[i].precedes(&b[j]),
    ensures
        distinct_order(a) == distinct_order(b),
{
    lemma_same_order(a, b);
    lemma_stable_prefix(a, a.len() as int);
    lemma_same_distinct(a, b, stable_order(a));
}

proof fn lemma_distinct_places<K: SortKey>(keys: Seq<K>, order: Seq<int>)
    requires
        forall|i: int| 0 <= i < order.len() ==> 0 <= #[trigger] order[i] < keys.len(),
        forall|i: int, j: int|
            0 <= i < j < order.len() ==> comes_before(keys, #[trigger] order[i], #[trigger] order[j]),
    ensures
        ({
            let kept = distinct_places(keys, order);
            &&& forall|i: int, j: int|
                0 <= i < j < kept.len() ==> keys[#[trigger] kept[i]].precedes(
                    &keys[#[trigger] kept[j]],
                )
            &&& forall|i: int|
                0 <= i < order.len() ==> is_represented(keys, kept, #[trigger] order[i])
            &&& order.len() > 0 ==> kept.len() > 0 && !keys[kept.last()].precedes(
                &keys[order.last()],
            ) && !keys[order.last()].precedes(&keys[kept.last()])
        }),
    decreases order.len(),
{
    if order.len() > 0 {
        let rest = order.drop_last();
        let last = order.last();
        assert forall|i: int, j: int| 0 <= i < j < rest.len() implies comes_before(
            keys,
            #[trigger] rest[i],
            #[trigger] rest[j],
        ) by {
            assert(rest[i] == order[i] && rest[j] == order[j]);
        }
        lemma_distinct_places(keys, rest);
        let before = distinct_places(keys, rest);
        let kept = distinct_places(keys, order);
        keys[last].asymmetric(&keys[last]);
        if kept.len() > before.len() {
            if before.len() > 0 {
                let top = before.last();
                assert(rest.len() > 0);
                assert(comes_before(keys, order[rest.len() - 1], order[rest.len() as int]));
                let y = keys[rest.last()];
                let x = keys[top];
                let z = keys[last];
                y.asymmetric(&z);
                z.negatively_transitive(&y, &x);
                x.asymmetric(&z);
                assert(x.precedes(&z));
                assert forall|i: int, j: int| 0 <= i < j < kept.len() implies keys[#[trigger] kept[i]].precedes(
                    &keys[#[trigger] kept[j]],
                ) by {
                    if j < before.len() {
                        assert(kept[i] == before[i] && kept[j] == before[j]);
                    } else if i < before.len() - 1 {
                        assert(keys[before[i]].precedes(&keys[before[before.len() - 1]]));
                        keys[before[i]].asymmetric(&x);
                        keys[before[i]].negatively_transitive(&z, &x);
                        z.asymmetric(&x);
                        assert(!z.precedes(&x));
                        assert(kept[i] == before[i]);
                    } else {
                        assert(kept[i] == top);
                    }
                }
            }
        }
        assert forall|i: int| 0 <= i < order.len() implies is_represented(
            keys,
            kept,
            #[trigger] order[i],
        ) by {
            if i < rest.len() {
                assert(rest[i] == order[i]);
                assert(is_represented(keys, before, rest[i]));
                let j = choose|j: int|
                    0 <= j < before.len() && !keys[#[trigger] before[j]].precedes(&keys[rest[i]])
                        && !keys[rest[i]].precedes(&keys[before[j]]);
                assert(kept[j] == before[j]);
            } else {
                assert(kept[kept.len() - 1] == kept.last());
            }
        }
    }
}

/// Distinct order: keys strictly increase along it, and every key is on a level
/// with one that is kept.
pub proof fn distinct_order_keeps_every_key_once<K: SortKey>(keys: Seq<K>)
    ensures
        forall|i: int, j: int|
            0 <= i < j < distinct_order(keys).len() ==> keys[#[trigger] distinct_order(
                keys,
            )[i]].precedes(&keys[#[trigger] distinct_order(keys)[j]]),
        forall|p: int|
            0 <= p < keys.len() ==> #[trigger] is_represented(keys, distinct_order(keys), p),
{
    lemma_stable_prefix(keys, keys.len() as int);
    let order = stable_order(keys);
    lemma_distinct_places(keys, order);
    let kept = distinct_order(keys);
    assert forall|p: int| 0 <= p < keys.len() implies #[trigger] is_represented(keys, kept, p) by {
        assert(order.contains(p));
        let i = choose|i: int| 0 <= i < order.len() && order[i] == p;
        assert(is_represented(keys, kept, order[i]));
    }
}

/// The items in the stable order of their keys, the first for each key.
pub fn sort_distinct_by_keys<T, K: SortKey>(items: Vec<T>, keys: &Vec<K>) -> (r: Vec<T>)
    requires
        items@.len() == keys@.len(),
    ensures
        r@ == gather(items@, distinct_order(keys@)),
{
    let order = sorted_places(keys);
    let ghost all = stable_order(keys@);
    let mut kept: Vec<usize> = Vec::new();
    let mut n: usize = 0;
    while n < order.len()
        invariant
            n <= order@.len(),
            places(order@) == all,
            forall|i: int| 0 <= i < order@.len() ==> #[trigger] order@[i] < keys@.len(),
            places(kept@) == distinct_places(keys@, all.take(n as int)),
            forall|i: int| 0 <= i < kept@.len() ==> #[trigger] kept@[i] < keys@.len(),
        decreases order.len() - n,
    {
        let next: usize = order[n];
        let ghost before = kept@;
        assert(places(order@)[n as int] == next as int);
        assert(all.take(n as int + 1).drop_last() =~= all.take(n as int));
        assert(all.take(n as int + 1).last() == next as int);
        let repeated: bool = if kept.len() == 0 {
            false
        } else {
            let top: usize = kept[kept.len() - 1];
            assert(places(kept@).last() == top as int);
            match keys[top].compare(&keys[next]) {
                Standing::Level => true,
                _ => false,
            }
        };
        assert(places(kept@).len() == kept@.len());
        if !repeated {
            kept.push(next);
            assert(places(kept@) =~= places(before).push(next as int));
        }
        n += 1;
    }
    proof {
        assert(all.take(n as int) =~= all);
        lemma_stable_prefix(keys@, keys@.len() as int);
        lemma_distinct_places(keys@, all);
        assert forall|i: int, j: int| 0 <= i < kept@.len() && 0 <= j < kept@.len() && i
            != j implies kept@[i] != kept@[j] by {
            let list = distinct_order(keys@);
            assert(list[i] == kept@[i] as int && list[j] == kept@[j] as int);
            keys@[list[i]].asymmetric(&keys@[list[i]]);
            if i < j {
                assert(keys@[list[i]].precedes(&keys@[list[j]]));
            } else {
                assert(keys@[list[j]].precedes(&keys@[list[i]]));
            }
        }
    }
    reorder(items, &kept)
}

// ---------------------------------------------------------------------------
// Least key

/// The place of the first least key among those that are there.
pub open spec fn first_least<K: SortKey>(keys: Seq<Option<K>>) -> Option<int>
    decreases keys.len(),
{
    if keys.len() == 0 {
        None
    } else {
        match (first_least(keys.drop_last()), keys.last()) {
            (found, None) => found,
            (None, Some(_)) => Some(keys.len() - 1),
            (Some(i), Some(key)) => if key.precedes(&keys[i]->0) {
                Some(keys.len() - 1)
            } else {
                Some(i)
            },
        }
    }
}

/// The first least key is there, nothing there is before it, and everything
/// level with it comes later; it is missing only where no key is there.
pub proof fn first_least_is_least<K: SortKey>(keys: Seq<Option<K>>)
    ensures
        match first_least(keys) {
            None => forall|j: int| 0 <= j < keys.len() ==> (#[trigger] keys[j]) is None,
            Some(i) => 0 <= i < keys.len() && keys[i] is Some && forall|j: int|
                0 <= j < keys.len() && (#[trigger] keys[j]) is Some ==> {
                    &&& !keys[j]->0.precedes(&keys[i]->0)
                    &&& j < i ==> keys[i]->0.precedes(&keys[j]->0)
                },
        },
    decreases keys.len(),
{
    if keys.len() > 0 {
        let rest = keys.drop_last();
        first_least_is_least(rest);
        assert forall|j: int| 0 <= j < rest.len() implies rest[j] == keys[j] by {}
        match (first_least(rest), keys.last()) {
            (Some(i), Some(key)) => {
                let at = keys[i]->0;
                key.asymmetric(&key);
                key.asymmetric(&at);
                assert forall|j: int| 0 <= j < keys.len() && (#[trigger] keys[j]) is Some implies ({
                    let least = first_least(keys)->0;
                    &&& !keys[j]->0.precedes(&keys[least]->0)
                    &&& j < least ==> keys[least]->0.precedes(&keys[j]->0)
                }) by {
                    if j < rest.len() {
                        let other = rest[j]->0;
                        assert(!other.precedes(&at));
                        if key.precedes(&at) {
                            key.negatively_transitive(&other, &at);
                            key.asymmetric(&other);
                        }
                    }
                }
            },
            (None, Some(key)) => {
                key.asymmetric(&key);
            },
            _ => {},
        }
    }
}

/// The place of the first least key among those that are there.
pub fn least_place<K: SortKey>(keys: &Vec<Option<K>>) -> (r: Option<usize>)
    ensures
        r is Some == first_least(keys@) is Some,
        r matches Some(i) ==> i < keys@.len() && i as int == first_least(keys@)->0 && keys@[i as int] is Some,
{
    let mut best: Option<usize> = None;
    let mut n: usize = 0;
    while n < keys.len()
        invariant
            n <= keys@.len(),
            best is Some == first_least(keys@.take(n as int)) is Some,
            best matches Some(i) ==> i < n && i as int == first_least(keys@.take(n as int))->0
                && keys@[i as int] is Some,
        decreases keys.len() - n,
    {
        assert(keys@.take(n as int + 1).drop_last() =~= keys@.take(n as int));
        if let Some(key) = &keys[n] {
            best = match best {
                None => Some(n),
                Some(i) => {
                    match &keys[i] {
                        Some(at) => match key.compare(at) {
                            Standing::Before => Some(n),
                            _ => Some(i),
                        },
                        None => Some(n),
                    }
                },
            };
        }
        n += 1;
    }
    assert(keys@.take(n as int) =~= keys@);
    best
}

} // verus!
