//! A compact bitset over slot indices.
use vstd::prelude::*;
use vstd::std_specs::bits::axiom_u64_trailing_zeros;

verus! {

/// Whether bit `i` of `x` is set.
pub open spec fn bit(x: u64, i: u64) -> bool {
    (x >> i) & 1u64 == 1u64
}

/// A set of integers within `[0, 64)`, one bit each.
#[derive(Clone, Copy, PartialEq, Eq, Structural)]
pub struct TinySet(pub u64);

impl View for TinySet {
    type V = Set<u32>;

    open spec fn view(&self) -> Set<u32> {
        Set::new(|i: u32| i < 64 && bit(self.0, i as u64))
    }
}

/// The elements of a `TinySet` in ascending order, consumed as they are read.
pub struct TinySetIterator(pub TinySet);

impl TinySetIterator {
    /// Hands out the lowest element left, or `None` once none is left.
    pub fn next(&mut self) -> (r: Option<u32>)
        ensures
            old(self).0@.is_empty() ==> r.is_none() && final(self).0@ == old(self).0@,
            !old(self).0@.is_empty() ==> r.is_some() && old(self).0@.contains(r.unwrap())
                && final(self).0@ == old(self).0@.remove(r.unwrap()) && (forall|x: u32|
                old(self).0@.contains(x) ==> r.unwrap() <= x),
            r.is_some() ==> final(self).0.0 < old(self).0.0,
    {
        self.0.pop_lowest()
    }
}

impl TinySet {
    /// Iterates over the elements in ascending order.
    pub fn into_iter(self) -> (r: TinySetIterator)
        ensures
            r.0@ == self@,
    {
        TinySetIterator(self)
    }

    /// Returns an empty `TinySet`.
    pub fn empty() -> (r: TinySet)
        ensures
            r@ == Set::<u32>::empty(),
    {
        let r = TinySet(0u64);
        assert forall|i: u64| !bit(0u64, i) by {
            assert((0u64 >> i) & 1u64 == 0u64) by (bit_vector);
        }
        assert(r@ =~= Set::<u32>::empty());
        r
    }

    /// Creates a `TinySet` holding only `el`, which lies within `[0, 64)`.
    pub fn singleton(el: u32) -> (r: TinySet)
        requires
            el < 64,
        ensures
            r@ == set![el],
            r.0 == 1u64 << el as u64,
    {
        let r = TinySet(1u64 << (el as u64));
        let e = el as u64;
        assert forall|i: u64| i < 64 implies bit(1u64 << e, i) == (i == e) by {
            assert(e < 64 && i < 64 ==> ((((1u64 << e) >> i) & 1u64 == 1u64) == (i == e)))
                by (bit_vector);
        }
        assert(r@ =~= set![el]);
        r
    }

    /// Returns this set with `el` added; `el` lies within `[0, 64)`.
    pub fn insert(self, el: u32) -> (r: TinySet)
        requires
            el < 64,
        ensures
            r@ == self@.insert(el),
            r.0 == self.0 | (1u64 << el as u64),
    {
        let r = self.union(TinySet::singleton(el));
        assert(r@ =~= self@.insert(el));
        r
    }

    /// Adds `el`, which lies within `[0, 64)`; returns whether it was absent.
    pub fn insert_mut(&mut self, el: u32) -> (r: bool)
        requires
            el < 64,
        ensures
            final(self)@ == old(self)@.insert(el),
            r == !old(self)@.contains(el),
    {
        let old_bits = self.0;
        *self = self.insert(el);
        let e = el as u64;
        assert(e < 64 ==> ((old_bits | (1u64 << e)) != old_bits) == ((old_bits >> e) & 1u64 != 1u64))
            by (bit_vector);
        old_bits != self.0
    }

    /// Returns the union of two sets.
    pub fn union(self, other: TinySet) -> (r: TinySet)
        ensures
            r@ == self@.union(other@),
            r.0 == self.0 | other.0,
    {
        let r = TinySet(self.0 | other.0);
        let (x, y) = (self.0, other.0);
        assert forall|i: u64| i < 64 implies bit(x | y, i) == (bit(x, i) || bit(y, i)) by {
            assert((((x | y) >> i) & 1u64 == 1u64) == (((x >> i) & 1u64 == 1u64) || ((y >> i)
                & 1u64 == 1u64))) by (bit_vector);
        }
        assert(r@ =~= self@.union(other@));
        r
    }

    /// Returns true iff the set is empty.
    pub fn is_empty(self) -> (r: bool)
        ensures
            r == self@.is_empty(),
    {
        proof {
            axiom_u64_trailing_zeros(self.0);
            if self.0 != 0 {
                let t = self.0.trailing_zeros();
                assert(self@.contains(t));
            } else {
                assert forall|i: u64| !bit(0u64, i) by {
                    assert((0u64 >> i) & 1u64 == 0u64) by (bit_vector);
                }
                assert(self@ =~= Set::<u32>::empty());
            }
        }
        self.0 == 0u64
    }

    /// Removes and returns the lowest element, or `None` when the set is empty.
    pub fn pop_lowest(&mut self) -> (r: Option<u32>)
        ensures
            old(self)@.is_empty() ==> r.is_none() && final(self)@ == old(self)@,
            !old(self)@.is_empty() ==> r.is_some() && old(self)@.contains(r.unwrap())
                && final(self)@ == old(self)@.remove(r.unwrap()) && (forall|x: u32|
                old(self)@.contains(x) ==> r.unwrap() <= x),
            r.is_some() ==> final(self).0 < old(self).0,
    {
        if self.is_empty() {
            None
        } else {
            let x = self.0;
            proof {
                axiom_u64_trailing_zeros(x);
            }
            let lowest = x.trailing_zeros();
            let l = lowest as u64;
            self.0 = x ^ TinySet::singleton(lowest).0;
            let y = self.0;
            assert forall|i: u64| i < 64 implies bit(y, i) == (bit(x, i) && i != l) by {
                assert(l < 64 && (x >> l) & 1u64 == 1u64 && y == x ^ (1u64 << l) ==> ((((y >> i) & 1u64 == 1u64) == (((x
                    >> i) & 1u64 == 1u64) && i != l)))) by (bit_vector);
            }
            assert(self@ =~= old(self)@.remove(lowest));
            assert(l < 64 && (x >> l) & 1u64 == 1u64 && y == x ^ (1u64 << l) ==> y < x)
                by (bit_vector);
            assert forall|v: u32| old(self)@.contains(v) implies lowest <= v by {
                if v < lowest {
                    assert((x >> (v as u64)) & 1u64 == 0u64);
                }
            }
            Some(lowest)
        }
    }
}

fn num_buckets(max_val: u32) -> (r: u32)
    ensures
        r == bucket_count(max_val),
{
    max_val / 64 + if max_val % 64 != 0 {
        1
    } else {
        0
    }
}

/// Number of 64-bit words needed for the values `[0, max_val)`.
pub open spec fn bucket_count(max_val: u32) -> u32 {
    (max_val / 64 + if max_val % 64 != 0 {
        1int
    } else {
        0int
    }) as u32
}

/// A finite set of integers below `m` has at most `m` elements.
pub proof fn lemma_bounded_set_len(s: Set<u32>, m: nat)
    requires
        s.finite(),
        forall|x: u32| #[trigger] s.contains(x) ==> x < m,
    ensures
        s.len() <= m,
    decreases m,
{
    if m > 0 {
        let top = (m - 1) as int;
        if top <= u32::MAX && s.contains(top as u32) {
            lemma_bounded_set_len(s.remove(top as u32), (m - 1) as nat);
        } else {
            assert forall|x: u32| #[trigger] s.contains(x) implies x < (m - 1) as nat by {
                if x == top {
                    assert(s.contains(top as u32));
                }
            }
            lemma_bounded_set_len(s, (m - 1) as nat);
        }
    } else {
        if s.len() > 0 {
            let x = s.choose();
            assert(s.contains(x));
        }
    }
}

/// A set of integers within `[0, max_value)`, one bit each.
pub struct BitSet {
    tinysets: Vec<TinySet>,
    len: usize,
    max_value: u32,
    elems: Ghost<Set<u32>>,
}

impl View for BitSet {
    type V = Set<u32>;

    closed spec fn view(&self) -> Set<u32> {
        self.elems@
    }
}

impl BitSet {
    /// The bound given at creation: every element lies below it.
    pub closed spec fn max_value(&self) -> u32 {
        self.max_value
    }

    /// The stored bits agree with the element set and the count.
    pub closed spec fn wf(&self) -> bool {
        &&& self.tinysets@.len() == bucket_count(self.max_value) as int
        &&& self.elems@.finite()
        &&& self.len == self.elems@.len()
        &&& forall|i: u32| #[trigger]
            self.elems@.contains(i) ==> i < self.max_value
        &&& forall|i: u32|
            i < self.max_value ==> (#[trigger] self.elems@.contains(i) <==> self.tinysets@[(i
                / 64) as int]@.contains(i % 64))
        &&& forall|w: int, j: u32|
            0 <= w < self.tinysets@.len() && #[trigger] self.tinysets@[w]@.contains(j) ==> 64 * w
                + j < self.max_value
    }

    /// Creates an empty `BitSet` for elements within `[0, max_value)`.
    pub fn with_max_value(max_value: u32) -> (r: BitSet)
        ensures
            r.wf(),
            r@ == Set::<u32>::empty(),
            r@.finite(),
            r.max_value() == max_value,
    {
        let n = num_buckets(max_value);
        let mut tinysets: Vec<TinySet> = Vec::new();
        let mut i: u32 = 0;
        while i < n
            invariant
                i <= n,
                tinysets@.len() == i,
                forall|k: int| 0 <= k < i ==> (#[trigger] tinysets@[k])@ == Set::<u32>::empty(),
            decreases n - i,
        {
            tinysets.push(TinySet::empty());
            i = i + 1;
        }
        let r = BitSet { tinysets, len: 0, max_value, elems: Ghost(Set::empty()) };
        r
    }

    /// Returns the number of elements.
    pub fn len(&self) -> (r: usize)
        requires
            self.wf(),
        ensures
            r == self@.len(),
            self@.finite(),
    {
        self.len
    }

    /// Inserts `el`, which lies within `[0, max_value)`.
    pub fn insert(&mut self, el: u32)
        requires
            old(self).wf(),
            el < old(self).max_value(),
        ensures
            final(self).wf(),
            final(self)@ == old(self)@.insert(el),
            final(self)@.finite(),
            final(self).max_value() == old(self).max_value(),
    {
        let higher = el / 64u32;
        let lower = el % 64u32;
        let mut t = self.tinysets[higher as usize];
        let inserted = t.insert_mut(lower);
        proof {
            lemma_bounded_set_len(self.elems@.insert(el), self.max_value as nat);
        }
        self.tinysets.set(higher as usize, t);
        self.elems = Ghost(self.elems@.insert(el));
        if inserted {
            self.len = self.len + 1;
        }
    }

    /// The elements in ascending order.
    pub fn iter(&self) -> (r: Vec<u32>)
        requires
            self.wf(),
        ensures
            forall|x: u32| r@.contains(x) <==> self@.contains(x),
            forall|i: int, j: int| 0 <= i < j < r@.len() ==> r@[i] < r@[j],
    {
        let mut out: Vec<u32> = Vec::new();
        let mut w: usize = 0;
        while w < self.tinysets.len()
            invariant
                self.wf(),
                w <= self.tinysets@.len(),
                forall|x: u32| out@.contains(x) <==> (self@.contains(x) && x < 64 * w),
                forall|i: int, j: int| 0 <= i < j < out@.len() ==> out@[i] < out@[j],
                forall|i: int| 0 <= i < out@.len() ==> out@[i] < 64 * w,
            decreases self.tinysets@.len() - w,
        {
            let word = self.tinysets[w];
            let mut it = word.into_iter();
            loop
                invariant
                    self.wf(),
                    w < self.tinysets@.len(),
                    word == self.tinysets@[w as int],
                    it.0@ <= word@,
                    forall|x: u32|
                        out@.contains(x) <==> ((self@.contains(x) && x < 64 * w) || (64 * w <= x
                            && x < 64 * w + 64 && word@.contains((x - 64 * w) as u32)
                            && !it.0@.contains((x - 64 * w) as u32))),
                    forall|i: int, j: int| 0 <= i < j < out@.len() ==> out@[i] < out@[j],
                    forall|i: int, y: u32|
                        0 <= i < out@.len() && it.0@.contains(y) ==> out@[i] < 64 * w + y,
                    forall|i: int| 0 <= i < out@.len() ==> out@[i] < 64 * w + 64,
                ensures
                    forall|x: u32|
                        out@.contains(x) <==> ((self@.contains(x) && x < 64 * w) || (64 * w <= x
                            && x < 64 * w + 64 && word@.contains((x - 64 * w) as u32))),
                    forall|i: int, j: int| 0 <= i < j < out@.len() ==> out@[i] < out@[j],
                    forall|i: int| 0 <= i < out@.len() ==> out@[i] < 64 * w + 64,
                decreases it.0.0,
            {
                let ghost before = it.0@;
                match it.next() {
                    None => {
                        break;
                    },
                    Some(el) => {
                        assert(word@.contains(el));
                        assert(64 * w + el < self.max_value);
                        let v = (w as u32) * 64 + el;
                        let ghost old_out = out@;
                        out.push(v);
                        assert forall|x: u32| out@.contains(x) <==> ((self@.contains(x) && x < 64
                            * w) || (64 * w <= x && x < 64 * w + 64 && word@.contains(
                            (x - 64 * w) as u32) && !it.0@.contains((x - 64 * w) as u32))) by {
                            if x == v {
                                assert(out@[out@.len() - 1] == v);
                            } else {
                                if out@.contains(x) {
                                    let k = choose|k: int| 0 <= k < out@.len() && out@[k] == x;
                                    assert(k < old_out.len());
                                    assert(old_out.contains(x));
                                } else if old_out.contains(x) {
                                    let k = choose|k: int| 0 <= k < old_out.len() && old_out[k] == x;
                                    assert(out@[k] == x);
                                }
                            }
                        }
                    },
                }
            }
            proof {
                assert forall|x: u32|
                    out@.contains(x) <==> (self@.contains(x) && x < 64 * (w + 1)) by {
                    if 64 * w <= x && x < 64 * w + 64 {
                        assert(x / 64 == w);
                        assert(x % 64 == x - 64 * w);
                        if word@.contains((x - 64 * w) as u32) {
                            assert(x < self.max_value);
                        }
                    }
                }
            }
            w = w + 1;
        }
        out
    }
}

} // verus!
