//! The wheel: 64-bit positions held by nodes, where a hash is served by the first position at
//! or after it, wrapping around to the smallest.

use std::collections::HashMap;
use vstd::prelude::*;

verus! {

broadcast use vstd::std_specs::hash::group_hash_axioms;

/// The distance from `from` forward to `to` on the wheel of 64-bit positions.
pub open spec fn dist(from: u64, to: u64) -> int {
    if to >= from {
        to - from
    } else {
        to - from + 0x1_0000_0000_0000_0000
    }
}

/// `k` is the position of `keys` that serves hash `h`: the first at or after `h`, wrapping around.
pub open spec fn is_successor(keys: Set<u64>, h: u64, k: u64) -> bool {
    &&& keys.contains(k)
    &&& forall|j: u64| #[trigger] keys.contains(j) ==> dist(h, k) <= dist(h, j)
}

/// The position of `keys` that serves hash `h`.
pub open spec fn successor(keys: Set<u64>, h: u64) -> u64 {
    choose|k: u64| is_successor(keys, h, k)
}

/// The node that a wheel hands a point of hash `h` to.
pub open spec fn lookup(wheel: Map<u64, u32>, h: u64) -> u32 {
    wheel[successor(wheel.dom(), h)]
}

/// A position serves a hash in one way only.
pub proof fn lemma_successor_unique(keys: Set<u64>, h: u64, k1: u64, k2: u64)
    requires
        is_successor(keys, h, k1),
        is_successor(keys, h, k2),
    ensures
        k1 == k2,
{
}

/// The position that serves a hash is the one that `successor` names.
pub proof fn lemma_successor_is(keys: Set<u64>, h: u64, k: u64)
    requires
        is_successor(keys, h, k),
    ensures
        successor(keys, h) == k,
{
    let s = successor(keys, h);
    assert(is_successor(keys, h, s));
    lemma_successor_unique(keys, h, s, k);
}

/// A wheel with a position has a position that serves any hash.
pub proof fn lemma_successor_exists(keys: Set<u64>, h: u64, k0: u64)
    requires
        keys.contains(k0),
    ensures
        is_successor(keys, h, successor(keys, h)),
    decreases dist(h, k0),
{
    if is_successor(keys, h, k0) {
        lemma_successor_is(keys, h, k0);
    } else {
        let j = choose|j: u64| #[trigger] keys.contains(j) && dist(h, j) < dist(h, k0);
        lemma_successor_exists(keys, h, j);
    }
}

/// Going forward from `a`, passing `b` before `c` splits the distance to `c` at `b`.
pub proof fn lemma_dist_split(a: u64, b: u64, c: u64)
    requires
        dist(a, b) <= dist(a, c),
    ensures
        dist(b, c) == dist(a, c) - dist(a, b),
{
}

/// Distinct positions lie at distinct distances from any hash.
pub proof fn lemma_dist_injective(a: u64, b: u64, c: u64)
    requires
        b != c,
    ensures
        dist(a, b) != dist(a, c),
{
}

/// A new position `h` takes over from the position that served `ph` exactly when it lies
/// closer ahead of `ph`.
pub proof fn lemma_successor_insert(keys: Set<u64>, ph: u64, k: u64, h: u64)
    requires
        is_successor(keys, ph, k),
        !keys.contains(h),
    ensures
        is_successor(keys.insert(h), ph, if dist(ph, h) < dist(ph, k) { h } else { k }),
{
    lemma_dist_injective(ph, h, k);
}

/// A point served by some position other than the one that a new position `h` falls before
/// keeps its position.
pub proof fn lemma_successor_insert_elsewhere(keys: Set<u64>, ph: u64, k: u64, h: u64, sh: u64)
    requires
        is_successor(keys, ph, k),
        is_successor(keys, h, sh),
        !keys.contains(h),
        k != sh,
    ensures
        dist(ph, k) < dist(ph, h),
{
    lemma_dist_injective(ph, h, k);
    if dist(ph, h) < dist(ph, k) {
        assert forall|j: u64| #[trigger] keys.contains(j) implies dist(h, k) <= dist(h, j) by {
            lemma_dist_split(ph, h, k);
            lemma_dist_split(ph, h, j);
        }
        lemma_successor_unique(keys, h, k, sh);
    }
}

/// The points of a position `h` that leaves go to the position that would serve `h` itself.
pub proof fn lemma_successor_remove(old_keys: Set<u64>, keys: Set<u64>, ph: u64, h: u64, s: u64)
    requires
        is_successor(old_keys, ph, h),
        keys.subset_of(old_keys),
        !keys.contains(h),
        is_successor(keys, h, s),
    ensures
        is_successor(keys, ph, s),
{
    assert forall|j: u64| #[trigger] keys.contains(j) implies dist(ph, s) <= dist(ph, j) by {
        assert(old_keys.contains(j));
        assert(old_keys.contains(s));
        lemma_dist_split(ph, h, j);
        lemma_dist_split(ph, h, s);
    }
}

/// Pushing onto a sequence keeps what it held and adds the new element.
pub proof fn lemma_push_contains<A>(s: Seq<A>, x: A, y: A)
    ensures
        s.push(x).contains(x),
        s.contains(y) ==> s.push(x).contains(y),
        s.push(x).contains(y) ==> s.contains(y) || y == x,
{
    assert(s.push(x)[s.len() as int] == x);
    if s.contains(y) {
        let i = choose|i: int| 0 <= i < s.len() && s[i] == y;
        assert(s.push(x)[i] == y);
    }
    if s.push(x).contains(y) {
        let i = choose|i: int| 0 <= i < s.len() + 1 && s.push(x)[i] == y;
        if i < s.len() {
            assert(s[i] == y);
        }
    }
}

/// Removing the element at `i` from a sequence without duplicates leaves it without that element
/// and with every other one.
pub proof fn lemma_seq_remove_contains<A>(s: Seq<A>, i: int)
    requires
        s.no_duplicates(),
        0 <= i < s.len(),
    ensures
        s.remove(i).no_duplicates(),
        forall|y: A| #[trigger] s.remove(i).contains(y) <==> s.contains(y) && y != s[i],
{
    let t = s.remove(i);
    assert forall|a: int, c: int| 0 <= a < c < t.len() implies t[a] != t[c] by {
        let a0 = if a < i { a } else { a + 1 };
        let c0 = if c < i { c } else { c + 1 };
        assert(s[a0] != s[c0]);
    }
    assert forall|y: A| #[trigger] t.contains(y) <==> s.contains(y) && y != s[i] by {
        if t.contains(y) {
            let q = choose|q: int| 0 <= q < t.len() && t[q] == y;
            if q < i {
                assert(s[q] == y);
            } else {
                assert(s[q + 1] == y);
            }
        }
        if s.contains(y) && y != s[i] {
            let q = choose|q: int| 0 <= q < s.len() && s[q] == y;
            if q < i {
                assert(t[q] == y);
            } else {
                assert(t[q - 1] == y);
            }
        }
    }
}

/// The forward distance from `from` to `to`.
pub fn forward_dist(from: u64, to: u64) -> (r: u64)
    ensures
        r == dist(from, to),
{
    if to >= from {
        to - from
    } else {
        (u64::MAX - (from - to)) + 1
    }
}

/// Positions held by nodes, kept in order for successor search.
pub(crate) struct Wheel {
    pub(crate) keys: Vec<u64>,
    pub(crate) owners: HashMap<u64, u32>,
}

impl Wheel {
    /// Each occupied position and the node that holds it.
    pub(crate) open spec fn map(&self) -> Map<u64, u32> {
        self.owners@
    }

    pub(crate) open spec fn wf(&self) -> bool {
        &&& forall|i: int, j: int|
            0 <= i < j < self.keys@.len() ==> #[trigger] self.keys@[i] < #[trigger] self.keys@[j]
        &&& forall|h: u64| #[trigger] self.owners@.contains_key(h) <==> self.keys@.contains(h)
    }

    pub(crate) fn new() -> (r: Wheel)
        ensures
            r.wf(),
            r.map() == Map::<u64, u32>::empty(),
    {
        let r = Wheel { keys: Vec::new(), owners: HashMap::new() };
        assert(r.owners@ =~= Map::<u64, u32>::empty());
        r
    }

    /// The node at position `h`, if it is held.
    pub(crate) fn get(&self, h: u64) -> (r: Option<u32>)
        ensures
            r == (if self.map().contains_key(h) {
                Some(self.map()[h])
            } else {
                None::<u32>
            }),
    {
        match self.owners.get(&h) {
            Some(n) => Some(*n),
            None => None,
        }
    }

    /// Whether position `h` is held.
    pub(crate) fn contains(&self, h: u64) -> (r: bool)
        ensures
            r == self.map().contains_key(h),
    {
        self.owners.contains_key(&h)
    }

    /// As many positions are kept in order as are held.
    pub(crate) proof fn lemma_len(&self)
        requires
            self.wf(),
        ensures
            self.keys@.len() == self.map().len(),
            self.keys@.no_duplicates(),
    {
        assert(self.keys@.no_duplicates()) by {
            assert forall|a: int, c: int| 0 <= a < c < self.keys@.len() implies self.keys@[a]
                != self.keys@[c] by {
                assert(self.keys@[a] < self.keys@[c]);
            }
        }
        self.keys@.unique_seq_to_set();
        assert(self.keys@.to_set() =~= self.map().dom());
    }

    /// The number of held positions.
    pub(crate) fn len(&self) -> (r: usize)
        ensures
            r == self.map().len(),
    {
        self.owners.len()
    }

    /// The number of positions below `h`.
    pub(crate) fn lower_bound(&self, h: u64) -> (i: usize)
        requires
            self.wf(),
        ensures
            i <= self.keys@.len(),
            forall|j: int| 0 <= j < i ==> self.keys@[j] < h,
            forall|j: int| i <= j < self.keys@.len() ==> self.keys@[j] >= h,
    {
        let mut lo: usize = 0;
        let mut hi: usize = self.keys.len();
        while lo < hi
            invariant
                self.wf(),
                lo <= hi <= self.keys@.len(),
                forall|j: int| 0 <= j < lo ==> self.keys@[j] < h,
                forall|j: int| hi <= j < self.keys@.len() ==> self.keys@[j] >= h,
            decreases hi - lo,
        {
            let mid = lo + (hi - lo) / 2;
            if self.keys[mid] < h {
                lo = mid + 1;
            } else {
                hi = mid;
            }
        }
        lo
    }

    /// The position that serves hash `h`, if the wheel has any.
    pub(crate) fn successor_key(&self, h: u64) -> (r: Option<u64>)
        requires
            self.wf(),
        ensures
            r is None <==> self.map().dom() =~= Set::<u64>::empty(),
            r matches Some(k) ==> is_successor(self.map().dom(), h, k) && successor(
                self.map().dom(),
                h,
            ) == k,
    {
        let i = self.lower_bound(h);
        let len = self.keys.len();
        if len == 0 {
            assert(self.map().dom() =~= Set::<u64>::empty()) by {
                assert forall|x: u64| !self.owners@.contains_key(x) by {
                    if self.owners@.contains_key(x) {
                        assert(self.keys@.contains(x));
                    }
                }
            }
            return None;
        }
        let k = if i < len {
            self.keys[i]
        } else {
            self.keys[0]
        };
        assert(self.keys@.contains(k));
        assert(self.map().dom().contains(k));
        assert forall|j: u64| #[trigger] self.map().dom().contains(j) implies dist(h, k) <= dist(
            h,
            j,
        ) by {
            assert(self.keys@.contains(j));
            let m = choose|m: int| 0 <= m < self.keys@.len() && self.keys@[m] == j;
            if i < len {
                if m < i {
                } else if m > i {
                    assert(self.keys@[i as int] < self.keys@[m]);
                }
            } else {
                if m > 0 {
                    assert(self.keys@[0] < self.keys@[m]);
                }
            }
        }
        assert(self.map().dom().contains(k));
        proof {
            lemma_successor_is(self.map().dom(), h, k);
        }
        Some(k)
    }

    /// Gives position `h` to node `id`.
    pub(crate) fn place(&mut self, h: u64, id: u32)
        requires
            old(self).wf(),
        ensures
            final(self).wf(),
            final(self).map() == old(self).map().insert(h, id),
    {
        let i = self.lower_bound(h);
        if i < self.keys.len() && self.keys[i] == h {
            self.owners.insert(h, id);
            assert forall|x: u64| #[trigger] self.owners@.contains_key(x) <==> self.keys@.contains(
                x,
            ) by {
                if x == h {
                    assert(self.keys@[i as int] == h);
                }
            }
        } else {
            let ghost old_keys = self.keys@;
            self.keys.insert(i, h);
            self.owners.insert(h, id);
            assert(self.keys@ == old_keys.insert(i as int, h));
            assert forall|a: int, b: int|
                0 <= a < b < self.keys@.len() implies #[trigger] self.keys@[a]
                < #[trigger] self.keys@[b] by {
                if b < i {
                } else if b == i {
                } else if a < i {
                    assert(old_keys[b - 1] >= h);
                } else if a == i {
                    assert(old_keys[b - 1] >= h);
                    assert(old_keys[b - 1] != h || i < old_keys.len());
                    if old_keys[b - 1] == h {
                        if b - 1 > i {
                            assert(old_keys[i as int] < old_keys[b - 1]);
                        }
                    }
                } else {
                    assert(old_keys[a - 1] < old_keys[b - 1]);
                }
            }
            assert forall|x: u64| #[trigger] self.owners@.contains_key(x) <==> self.keys@.contains(
                x,
            ) by {
                if old_keys.contains(x) {
                    let m = choose|m: int| 0 <= m < old_keys.len() && old_keys[m] == x;
                    if m < i {
                        assert(self.keys@[m] == x);
                    } else {
                        assert(self.keys@[m + 1] == x);
                    }
                }
                if self.keys@.contains(x) {
                    let m = choose|m: int| 0 <= m < self.keys@.len() && self.keys@[m] == x;
                    if m < i {
                        assert(old_keys[m] == x);
                    } else if m > i {
                        assert(old_keys[m - 1] == x);
                    }
                }
                if x == h {
                    assert(self.keys@[i as int] == h);
                }
            }
        }
    }

    /// Takes position `h` off the wheel.
    pub(crate) fn unplace(&mut self, h: u64)
        requires
            old(self).wf(),
            old(self).map().contains_key(h),
        ensures
            final(self).wf(),
            final(self).map() == old(self).map().remove(h),
    {
        let i = self.lower_bound(h);
        assert(self.keys@.contains(h));
        let ghost m = choose|m: int| 0 <= m < self.keys@.len() && self.keys@[m] == h;
        assert(m == i) by {
            if m < i {
            } else if m > i {
                assert(self.keys@[i as int] < self.keys@[m]);
            }
        }
        let ghost old_keys = self.keys@;
        self.keys.remove(i);
        self.owners.remove(&h);
        assert forall|x: u64| #[trigger] self.owners@.contains_key(x) <==> self.keys@.contains(x) by {
            if old_keys.contains(x) && x != h {
                let q = choose|q: int| 0 <= q < old_keys.len() && old_keys[q] == x;
                if q < i {
                    assert(self.keys@[q] == x);
                } else {
                    assert(q != i);
                    assert(self.keys@[q - 1] == x);
                }
            }
            if self.keys@.contains(x) {
                let q = choose|q: int| 0 <= q < self.keys@.len() && self.keys@[q] == x;
                if q < i {
                    assert(old_keys[q] == x);
                    assert(old_keys[i as int] != x);
                } else {
                    assert(old_keys[q + 1] == x);
                }
            }
        }
        assert forall|a: int, b: int|
            0 <= a < b < self.keys@.len() implies #[trigger] self.keys@[a]
            < #[trigger] self.keys@[b] by {
            if a < i && b >= i {
                assert(old_keys[a] < old_keys[b + 1]);
            } else if a >= i {
                assert(old_keys[a + 1] < old_keys[b + 1]);
            }
        }
    }

    /// Whether no position is held.
    pub(crate) fn is_empty(&self) -> (r: bool)
        requires
            self.wf(),
        ensures
            r <==> self.map().dom() =~= Set::<u64>::empty(),
    {
        let r = self.keys.len() == 0;
        if !r {
            assert(self.map().contains_key(self.keys@[0])) by {
                assert(self.keys@.contains(self.keys@[0]));
            }
        } else {
            assert forall|k: u64| !self.map().contains_key(k) by {
                if self.map().contains_key(k) {
                    assert(self.keys@.contains(k));
                }
            }
        }
        r
    }

}

} // verus!
