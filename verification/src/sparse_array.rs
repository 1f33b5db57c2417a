//! A compact, order-preserving mapping from logical slots in `[0, 32)` to
//! elements, backed by a 32-bit occupancy bitmap. Elements are stored
//! contiguously in ascending logical-slot order: the physical offset of an
//! occupied slot is the population count of the bitmap bits below it.

use vstd::prelude::*;
use vstd::seq_lib::*;

verus! {

/// Whether bit `i` of the occupancy bitmap `b` is set.
pub open spec fn spec_bit(b: u32, i: int) -> bool {
    0 <= i < 32 && b & (1u32 << (i as u32)) != 0
}

/// The occupied logical slots of `b` that lie below `hi`, in ascending order.
pub open spec fn slots_below(b: u32, hi: int) -> Seq<int>
    decreases hi,
{
    if hi <= 0 {
        Seq::empty()
    } else {
        let rest = slots_below(b, hi - 1);
        if spec_bit(b, hi - 1) {
            rest.push(hi - 1)
        } else {
            rest
        }
    }
}

/// Setting bit `s` leaves every other bit unchanged and sets bit `s`.
proof fn lemma_bit_or(b: u32, s: int, t: int)
    requires
        0 <= s < 32,
        0 <= t < 32,
    ensures
        spec_bit(b | (1u32 << (s as u32)), t) == (spec_bit(b, t) || t == s),
{
    let su = s as u32;
    let tu = t as u32;
    assert((((b | (1u32 << su)) & (1u32 << tu)) != 0) == (((b & (1u32 << tu)) != 0) || su == tu))
        by (bit_vector)
        requires
            su < 32,
            tu < 32,
    ;
}

/// Clearing bit `s` leaves every other bit unchanged and clears bit `s`.
proof fn lemma_bit_andnot(b: u32, s: int, t: int)
    requires
        0 <= s < 32,
        0 <= t < 32,
    ensures
        spec_bit(b & !(1u32 << (s as u32)), t) == (spec_bit(b, t) && t != s),
{
    let su = s as u32;
    let tu = t as u32;
    assert((((b & !(1u32 << su)) & (1u32 << tu)) != 0) == (((b & (1u32 << tu)) != 0) && su != tu))
        by (bit_vector)
        requires
            su < 32,
            tu < 32,
    ;
}

/// The zero bitmap has no bits set.
proof fn lemma_bit_zero(t: int)
    requires
        0 <= t < 32,
    ensures
        !spec_bit(0u32, t),
{
    let tu = t as u32;
    assert((0u32 & (1u32 << tu)) == 0) by (bit_vector);
}

/// The zero bitmap has no occupied slots below any bound.
pub proof fn lemma_slots_below_zero(hi: int)
    ensures
        slots_below(0u32, hi) =~= Seq::<int>::empty(),
    decreases hi,
{
    if hi > 0 {
        lemma_slots_below_zero(hi - 1);
        if hi - 1 < 32 {
            lemma_bit_zero(hi - 1);
        }
    }
}

/// The basic shape of `slots_below`: its elements are exactly the occupied
/// slots below the bound, in strictly ascending order, and the physical
/// position of an occupied slot `s` is `slots_below(b, s).len()`.
pub proof fn lemma_slots_below_props(b: u32, hi: int)
    ensures
        slots_below(b, hi).len() <= (if hi >= 0 { hi } else { 0 }),
        forall|j: int|
            0 <= j < slots_below(b, hi).len() ==> 0 <= #[trigger] slots_below(b, hi)[j] < hi
                && spec_bit(b, slots_below(b, hi)[j]),
        forall|j1: int, j2: int|
            0 <= j1 < j2 < slots_below(b, hi).len() ==> #[trigger] slots_below(b, hi)[j1]
                < #[trigger] slots_below(b, hi)[j2],
        forall|s: int|
            0 <= s < hi && spec_bit(b, s) ==> #[trigger] slots_below(b, s).len() < slots_below(
                b,
                hi,
            ).len() && slots_below(b, hi)[slots_below(b, s).len() as int] == s,
        forall|j: int|
            0 <= j < slots_below(b, hi).len() ==> slots_below(
                b,
                #[trigger] slots_below(b, hi)[j],
            ).len() == j,
    decreases hi,
{
    if hi > 0 {
        lemma_slots_below_props(b, hi - 1);
        let rest = slots_below(b, hi - 1);
        let cur = slots_below(b, hi);
        if spec_bit(b, hi - 1) {
            assert(cur == rest.push(hi - 1));
            assert forall|j: int| 0 <= j < cur.len() implies slots_below(
                b,
                #[trigger] cur[j],
            ).len() == j by {
                if j < rest.len() {
                    assert(cur[j] == rest[j]);
                } else {
                    assert(cur[j] == hi - 1);
                }
            }
        }
    }
}

/// `slots_below(b, lo)` is a pointwise prefix of `slots_below(b, hi)` for `lo <= hi`.
pub proof fn lemma_slots_below_prefix(b: u32, lo: int, hi: int)
    requires
        lo <= hi,
    ensures
        slots_below(b, lo).len() <= slots_below(b, hi).len(),
        forall|j: int|
            0 <= j < slots_below(b, lo).len() ==> #[trigger] slots_below(b, hi)[j] == slots_below(
                b,
                lo,
            )[j],
    decreases hi - lo,
{
    if hi > lo {
        lemma_slots_below_prefix(b, lo, hi - 1);
    }
}

/// Setting an unoccupied bit `s` inserts `s` into the slot sequence at its
/// sorted position, and leaves the slots below `s` untouched.
pub proof fn lemma_slots_below_set(b: u32, s: int, hi: int)
    requires
        0 <= s < 32,
        !spec_bit(b, s),
    ensures
        hi <= s ==> slots_below(b | (1u32 << (s as u32)), hi) == slots_below(b, hi),
        hi > s ==> slots_below(b | (1u32 << (s as u32)), hi) == slots_below(b, hi).insert(
            slots_below(b, s).len() as int,
            s,
        ),
    decreases hi,
{
    let b2 = b | (1u32 << (s as u32));
    if hi <= 0 {
        if hi > s {
        } else {
            assert(slots_below(b2, hi) =~= slots_below(b, hi));
        }
    } else {
        lemma_slots_below_set(b, s, hi - 1);
        if 0 <= hi - 1 < 32 {
            lemma_bit_or(b, s, hi - 1);
        }
        let rest = slots_below(b, hi - 1);
        let rest2 = slots_below(b2, hi - 1);
        let pos = slots_below(b, s).len() as int;
        if hi - 1 < s {
            assert(slots_below(b2, hi) =~= slots_below(b, hi));
        } else if hi - 1 == s {
            // `rest2 == rest`, and bit `s` is newly set: the new sequence is
            // `rest.push(s)`, which is `slots_below(b, hi).insert(pos, s)`
            // because `slots_below(b, hi) == rest` and `pos == rest.len()`.
            assert(slots_below(b2, hi) == rest2.push(s));
            assert(slots_below(b, hi) == rest);
            assert(pos == rest.len());
            rest.insert_ensures(pos, s);
            assert(slots_below(b2, hi) =~= slots_below(b, hi).insert(pos, s));
        } else {
            // hi - 1 > s: the tail bit is unchanged; pushing it commutes with
            // the insertion of `s` at `pos` (which lies within `rest`).
            lemma_slots_below_prefix(b, s, hi - 1);
            assert(pos <= rest.len());
            rest.insert_ensures(pos, s);
            if spec_bit(b, hi - 1) {
                assert(rest2 == rest.insert(pos, s));
                slots_below(b, hi).insert_ensures(pos, s);
                assert(slots_below(b2, hi) =~= slots_below(b, hi).insert(pos, s));
            } else {
                assert(slots_below(b2, hi) =~= slots_below(b, hi).insert(pos, s));
            }
        }
    }
}

/// Clearing an occupied bit `s` removes `s` from the slot sequence at its
/// physical position, and leaves the slots below `s` untouched.
pub proof fn lemma_slots_below_clear(b: u32, s: int, hi: int)
    requires
        0 <= s < 32,
        spec_bit(b, s),
    ensures
        hi <= s ==> slots_below(b & !(1u32 << (s as u32)), hi) == slots_below(b, hi),
        hi > s ==> slots_below(b & !(1u32 << (s as u32)), hi) == slots_below(b, hi).remove(
            slots_below(b, s).len() as int,
        ),
    decreases hi,
{
    let b2 = b & !(1u32 << (s as u32));
    if hi <= 0 {
        if hi > s {
        } else {
            assert(slots_below(b2, hi) =~= slots_below(b, hi));
        }
    } else {
        lemma_slots_below_clear(b, s, hi - 1);
        if 0 <= hi - 1 < 32 {
            lemma_bit_andnot(b, s, hi - 1);
        }
        let rest = slots_below(b, hi - 1);
        let rest2 = slots_below(b2, hi - 1);
        let pos = slots_below(b, s).len() as int;
        if hi - 1 < s {
            assert(slots_below(b2, hi) =~= slots_below(b, hi));
        } else if hi - 1 == s {
            // Bit `s` is the one being cleared: the new sequence is `rest`,
            // and `slots_below(b, hi) == rest.push(s)` with `pos == rest.len()`.
            assert(slots_below(b2, hi) == rest2);
            assert(rest2 == rest);
            assert(slots_below(b, hi) == rest.push(s));
            assert(pos == rest.len());
            rest.push(s).remove_ensures(pos);
            assert(slots_below(b2, hi) =~= slots_below(b, hi).remove(pos));
        } else {
            // hi - 1 > s: removal at `pos` (inside `rest`) commutes with
            // pushing the unchanged tail bit.
            lemma_slots_below_prefix(b, s, hi - 1);
            lemma_slots_below_props(b, hi - 1);
            assert(pos < rest.len());
            rest.remove_ensures(pos);
            if spec_bit(b, hi - 1) {
                assert(rest2 == rest.remove(pos));
                slots_below(b, hi).remove_ensures(pos);
                assert(slots_below(b2, hi) =~= slots_below(b, hi).remove(pos));
            } else {
                assert(slots_below(b2, hi) =~= slots_below(b, hi).remove(pos));
            }
        }
    }
}

/// Slots with no occupied bit at or above `lo` contribute nothing beyond `lo`.
pub proof fn lemma_slots_below_high_empty(b: u32, lo: int, hi: int)
    requires
        lo <= hi,
        forall|t: int| lo <= t < hi ==> !spec_bit(b, t),
    ensures
        slots_below(b, hi) == slots_below(b, lo),
    decreases hi - lo,
{
    if hi > lo {
        lemma_slots_below_high_empty(b, lo, hi - 1);
    }
}

/// When any slot is occupied, the first entry of the slot sequence is the
/// lowest occupied slot, and it sits at physical offset 0.
pub proof fn lemma_min_slot(b: u32)
    requires
        slots_below(b, 32).len() >= 1,
    ensures
        spec_bit(b, slots_below(b, 32).first()),
        0 <= slots_below(b, 32).first() < 32,
        slots_below(b, slots_below(b, 32).first()).len() == 0,
        forall|t: int| spec_bit(b, t) ==> slots_below(b, 32).first() <= t,
{
    lemma_slots_below_props(b, 32);
    let m = slots_below(b, 32).first();
    assert forall|t: int| spec_bit(b, t) implies m <= t by {
        let j = slots_below(b, t).len() as int;
        assert(slots_below(b, 32)[j] == t);
        if j > 0 {
            assert(slots_below(b, 32)[0] < slots_below(b, 32)[j]);
        }
    }
}

/// A fixed-capacity (32 logical slots) compacted sequence addressed by
/// logical slot. The number of set bits in `bitmap` equals the number of
/// stored elements; element order follows ascending slot order.
#[derive(Clone, Debug)]
pub struct SparseArray<T> {
    pub array: Vec<T>,
    pub bitmap: u32,
}

impl<T> SparseArray<T> {
    /// The stored element count matches the occupancy bitmap.
    pub open spec fn wf(self) -> bool {
        self.array@.len() == slots_below(self.bitmap, 32).len()
    }

    /// Whether logical slot `s` is occupied.
    pub open spec fn spec_has(self, s: int) -> bool {
        spec_bit(self.bitmap, s)
    }

    /// The physical offset of logical slot `s`: the number of occupied slots
    /// below it.
    pub open spec fn spec_index_of(self, s: int) -> int {
        slots_below(self.bitmap, s).len() as int
    }

    /// The element stored at logical slot `s` (meaningful when `spec_has(s)`).
    pub open spec fn spec_get(self, s: int) -> T {
        self.array@[self.spec_index_of(s)]
    }

    /// The number of stored elements.
    pub open spec fn spec_len(self) -> int {
        self.array@.len() as int
    }

    /// The lowest occupied logical slot (meaningful when non-empty).
    pub open spec fn spec_min_slot(self) -> int {
        slots_below(self.bitmap, 32).first()
    }

    /// Creates an empty sparse array.
    pub fn new() -> (r: Self)
        ensures
            r.wf(),
            r.spec_len() == 0,
            forall|s: int| !r.spec_has(s),
    {
        let r = SparseArray { array: Vec::new(), bitmap: 0u32 };
        proof {
            lemma_slots_below_zero(32);
            assert forall|s: int| !r.spec_has(s) by {
                if 0 <= s < 32 {
                    lemma_bit_zero(s);
                }
            }
        }
        r
    }

    /// Creates an empty sparse array with room for `capacity` elements.
    pub fn with_capacity(capacity: usize) -> (r: Self)
        requires
            capacity <= 32,
        ensures
            r.wf(),
            r.spec_len() == 0,
            forall|s: int| !r.spec_has(s),
    {
        let r = SparseArray { array: Vec::with_capacity(capacity), bitmap: 0u32 };
        proof {
            lemma_slots_below_zero(32);
            assert forall|s: int| !r.spec_has(s) by {
                if 0 <= s < 32 {
                    lemma_bit_zero(s);
                }
            }
        }
        r
    }

    /// The number of logical slots: the width of the occupancy bitmap.
    pub fn bitmap_size() -> (r: usize)
        ensures
            r == 32,
    {
        32
    }

    /// Tests whether logical slot `sparse_index` is occupied.
    #[inline]
    pub fn has_sparse_index(&self, sparse_index: usize) -> (r: bool)
        requires
            sparse_index < 32,
        ensures
            r == self.spec_has(sparse_index as int),
    {
        (self.bitmap & (1u32 << (sparse_index as u32))) != 0
    }

    /// The physical offset of logical slot `sparse_index`: the population
    /// count of the bitmap bits below it.
    fn actual_index(&self, sparse_index: usize) -> (r: usize)
        requires
            sparse_index <= 32,
        ensures
            r == slots_below(self.bitmap, sparse_index as int).len(),
    {
        let mut count: usize = 0;
        let mut i: usize = 0;
        while i < sparse_index
            invariant
                i <= sparse_index <= 32,
                count == slots_below(self.bitmap, i as int).len(),
                count <= i,
            decreases sparse_index - i,
        {
            if (self.bitmap & (1u32 << (i as u32))) != 0 {
                count = count + 1;
            }
            i = i + 1;
        }
        count
    }

    /// The element at slot `sparse_index`, or none if the slot is unoccupied.
    #[inline]
    pub fn get(&self, sparse_index: usize) -> (r: Option<&T>)
        requires
            self.wf(),
            sparse_index < 32,
        ensures
            (match r {
                Some(v) => self.spec_has(sparse_index as int) && *v == self.spec_get(
                    sparse_index as int,
                ),
                None => !self.spec_has(sparse_index as int),
            }),
    {
        if self.has_sparse_index(sparse_index) {
            let idx = self.actual_index(sparse_index);
            proof {
                lemma_slots_below_props(self.bitmap, 32);
            }
            Some(&self.array[idx])
        } else {
            None
        }
    }

    /// Mutable access to the element at slot `sparse_index`, if occupied.
    #[inline]
    pub fn get_mut(&mut self, sparse_index: usize) -> (r: Option<&mut T>)
        requires
            old(self).wf(),
            sparse_index < 32,
        ensures
            (match r {
                Some(p) => {
                    &&& old(self).spec_has(sparse_index as int)
                    &&& *p == old(self).spec_get(sparse_index as int)
                    &&& final(self).array@ == old(self).array@.update(
                        old(self).spec_index_of(sparse_index as int),
                        *final(p),
                    )
                    &&& final(self).wf()
                    &&& final(self).spec_get(sparse_index as int) == *final(p)
                    &&& forall|t: int|
                        t != sparse_index as int && old(self).spec_has(t)
                            ==> final(self).spec_get(t) == old(self).spec_get(t)
                },
                None => !old(self).spec_has(sparse_index as int) && *final(self) == *old(self),
            }),
            final(self).bitmap == old(self).bitmap,
            final(self).spec_len() == old(self).spec_len(),
            forall|t: int| final(self).spec_has(t) == old(self).spec_has(t),
    {
        if self.has_sparse_index(sparse_index) {
            let idx = self.actual_index(sparse_index);
            proof {
                lemma_slots_below_props(self.bitmap, 32);
                assert forall|t: int|
                    t != sparse_index as int && self.spec_has(t) implies self.spec_index_of(t)
                    != idx by {
                    lemma_slots_below_props(self.bitmap, 32);
                }
            }
            Some(&mut self.array[idx])
        } else {
            None
        }
    }

    /// The element count (equals the bitmap's population count).
    #[inline]
    pub fn len(&self) -> (r: usize)
        ensures
            r == self.spec_len(),
    {
        self.array.len()
    }

    /// Whether no slot is occupied.
    #[inline]
    pub fn is_empty(&self) -> (r: bool)
        ensures
            r == (self.spec_len() == 0),
    {
        self.array.is_empty()
    }

    /// Removes every element.
    #[inline]
    pub fn clear(&mut self)
        ensures
            final(self).wf(),
            final(self).spec_len() == 0,
            forall|s: int| !final(self).spec_has(s),
    {
        self.bitmap = 0;
        self.array.clear();
        proof {
            lemma_slots_below_zero(32);
            assert forall|s: int| !self.spec_has(s) by {
                if 0 <= s < 32 {
                    lemma_bit_zero(s);
                }
            }
        }
    }

    /// Stores `item` at logical slot `sparse_index`: inserts at the sorted
    /// physical position if the slot was unoccupied (returning true), or
    /// overwrites in place (returning false).
    pub fn set(&mut self, sparse_index: usize, item: T) -> (r: bool)
        requires
            old(self).wf(),
            sparse_index < 32,
            old(self).spec_has(sparse_index as int) || old(self).spec_len() < 32,
        ensures
            final(self).wf(),
            r == !old(self).spec_has(sparse_index as int),
            forall|t: int|
                final(self).spec_has(t) == (old(self).spec_has(t) || t == sparse_index as int),
            final(self).spec_get(sparse_index as int) == item,
            forall|t: int|
                t != sparse_index as int && old(self).spec_has(t)
                    ==> final(self).spec_get(t) == old(self).spec_get(t),
            final(self).spec_len() == old(self).spec_len() + (if old(self).spec_has(
                sparse_index as int,
            ) {
                0int
            } else {
                1int
            }),
    {
        let ghost b = self.bitmap;
        let ghost s = sparse_index as int;
        let actual_index = self.actual_index(sparse_index);
        proof {
            lemma_slots_below_props(b, 32);
            lemma_slots_below_prefix(b, s, 32);
        }
        if !self.has_sparse_index(sparse_index) {
            self.bitmap = self.bitmap | (1u32 << (sparse_index as u32));
            self.array.insert(actual_index, item);
            proof {
                let b2 = self.bitmap;
                lemma_slots_below_set(b, s, 32);
                slots_below(b, 32).insert_ensures(actual_index as int, s);
                assert(self.wf());
                assert forall|t: int|
                    self.spec_has(t) == (spec_bit(b, t) || t == s) by {
                    if 0 <= t < 32 {
                        lemma_bit_or(b, s, t);
                    }
                }
                let arr = old(self).array@;
                arr.insert_ensures(actual_index as int, item);
                assert forall|t: int|
                    t != s && spec_bit(b, t) implies self.spec_get(t) == arr[slots_below(
                    b,
                    t,
                ).len() as int] by {
                    lemma_slots_below_set(b, s, t);
                    if t < s {
                        // index and element both unchanged
                        lemma_slots_below_props(b, s);
                        assert(slots_below(b, t).len() < actual_index);
                    } else {
                        // index shifted up by one past the insertion point
                        lemma_slots_below_prefix(b, s, t);
                        assert(slots_below(b2, t) == slots_below(b, t).insert(
                            actual_index as int,
                            s,
                        ));
                        slots_below(b, t).insert_ensures(actual_index as int, s);
                        assert(slots_below(b2, t).len() == slots_below(b, t).len() + 1);
                    }
                }
                lemma_slots_below_set(b, s, s);
                old(self).array@.insert_ensures(actual_index as int, item);
                assert(self.spec_get(s) == item);
            }
            true
        } else {
            proof {
                assert forall|t: int|
                    t != s && spec_bit(b, t) implies slots_below(b, t).len() != actual_index by {
                    lemma_slots_below_props(b, 32);
                }
            }
            let p = &mut self.array[actual_index];
            *p = item;
            false
        }
    }

    /// Deletes the element at occupied slot `sparse_index` and closes the gap.
    pub fn remove(&mut self, sparse_index: usize)
        requires
            old(self).wf(),
            sparse_index < 32,
            old(self).spec_has(sparse_index as int),
        ensures
            final(self).wf(),
            forall|t: int|
                final(self).spec_has(t) == (old(self).spec_has(t) && t != sparse_index as int),
            forall|t: int|
                t != sparse_index as int && old(self).spec_has(t)
                    ==> final(self).spec_get(t) == old(self).spec_get(t),
            final(self).spec_len() == old(self).spec_len() - 1,
    {
        let ghost b = self.bitmap;
        let ghost s = sparse_index as int;
        self.bitmap = self.bitmap & !(1u32 << (sparse_index as u32));
        let actual_index = self.actual_index(sparse_index);
        proof {
            let b2 = self.bitmap;
            lemma_slots_below_clear(b, s, s);
            lemma_slots_below_clear(b, s, 32);
            lemma_slots_below_props(b, 32);
            assert(actual_index == slots_below(b, s).len());
            assert(actual_index < self.array@.len());
        }
        self.array.remove(actual_index);
        proof {
            let b2 = self.bitmap;
            slots_below(b, 32).remove_ensures(actual_index as int);
            assert(self.wf());
            assert forall|t: int|
                self.spec_has(t) == (spec_bit(b, t) && t != s) by {
                if 0 <= t < 32 {
                    lemma_bit_andnot(b, s, t);
                }
            }
            let arr = old(self).array@;
            assert forall|t: int|
                t != s && spec_bit(b, t) implies self.spec_get(t) == arr[slots_below(
                b,
                t,
            ).len() as int] by {
                lemma_slots_below_clear(b, s, t);
                lemma_slots_below_props(b, 32);
                if t < s {
                    lemma_slots_below_props(b, s);
                    assert(slots_below(b, t).len() < actual_index);
                    arr.remove_ensures(actual_index as int);
                } else {
                    lemma_slots_below_prefix(b, s, t);
                    lemma_slots_below_props(b, t);
                    assert(slots_below(b2, t) == slots_below(b, t).remove(actual_index as int));
                    slots_below(b, t).remove_ensures(actual_index as int);
                    assert(actual_index < slots_below(b, t).len());
                    assert(slots_below(b2, t).len() == slots_below(b, t).len() - 1);
                    arr.remove_ensures(actual_index as int);
                }
            }
        }
    }

    /// The element at the lowest occupied slot.
    #[inline]
    pub fn head(&self) -> (r: &T)
        requires
            self.wf(),
            self.spec_len() >= 1,
        ensures
            self.spec_has(self.spec_min_slot()),
            *r == self.spec_get(self.spec_min_slot()),
            forall|t: int| self.spec_has(t) ==> self.spec_min_slot() <= t,
    {
        proof {
            lemma_min_slot(self.bitmap);
        }
        &self.array[0]
    }

    /// Mutable access to the element at the lowest occupied slot.
    #[inline]
    pub fn head_mut(&mut self) -> (r: &mut T)
        requires
            old(self).wf(),
            old(self).spec_len() >= 1,
        ensures
            old(self).spec_has(old(self).spec_min_slot()),
            *r == old(self).spec_get(old(self).spec_min_slot()),
            final(self).bitmap == old(self).bitmap,
            final(self).array@ == old(self).array@.update(0, *final(r)),
            final(self).wf(),
            final(self).spec_get(old(self).spec_min_slot()) == *final(r),
            forall|t: int| final(self).spec_has(t) == old(self).spec_has(t),
            forall|t: int|
                t != old(self).spec_min_slot() && old(self).spec_has(t)
                    ==> final(self).spec_get(t) == old(self).spec_get(t),
            forall|t: int| old(self).spec_has(t) ==> old(self).spec_min_slot() <= t,
    {
        proof {
            lemma_min_slot(self.bitmap);
            assert forall|t: int|
                t != self.spec_min_slot() && self.spec_has(t) implies 0 < self.spec_index_of(t)
                < self.array@.len() by {
                lemma_slots_below_props(self.bitmap, 32);
                let j = slots_below(self.bitmap, t).len() as int;
                assert(slots_below(self.bitmap, 32)[j] == t);
                if j == 0 {
                    assert(t == self.spec_min_slot());
                }
            }
            assert(self.spec_index_of(self.spec_min_slot()) == 0);
        }
        &mut self.array[0]
    }

    /// Removes and returns the element at the lowest occupied slot.
    #[verifier::loop_isolation(false)]
    pub fn pop(&mut self) -> (r: T)
        requires
            old(self).wf(),
            old(self).spec_len() >= 1,
        ensures
            final(self).wf(),
            old(self).spec_has(old(self).spec_min_slot()),
            r == old(self).spec_get(old(self).spec_min_slot()),
            forall|t: int|
                final(self).spec_has(t) == (old(self).spec_has(t) && t != old(self).spec_min_slot()),
            forall|t: int|
                t != old(self).spec_min_slot() && old(self).spec_has(t)
                    ==> final(self).spec_get(t) == old(self).spec_get(t),
            final(self).spec_len() == old(self).spec_len() - 1,
            forall|t: int| old(self).spec_has(t) ==> old(self).spec_min_slot() <= t,
    {
        let ghost b = self.bitmap;
        let ghost m = self.spec_min_slot();
        proof {
            lemma_min_slot(b);
        }
        let mut sparse_index: usize = 0;
        while (self.bitmap & (1u32 << (sparse_index as u32))) == 0
            invariant
                sparse_index as int <= m,
            decreases m - sparse_index,
        {
            proof {
                // `m` itself is occupied, so the scan stops at or before it
                if sparse_index as int == m {
                    assert(false);
                }
            }
            sparse_index = sparse_index + 1;
        }
        proof {
            assert(spec_bit(b, sparse_index as int));
            assert(m <= sparse_index as int);
            assert(sparse_index as int == m);
        }
        self.bitmap = self.bitmap & !(1u32 << (sparse_index as u32));
        proof {
            let b2 = self.bitmap;
            lemma_slots_below_clear(b, m, 32);
            lemma_slots_below_props(b, 32);
            assert(slots_below(b, m).len() == 0);
            slots_below(b, 32).remove_ensures(0);
            assert forall|t: int|
                self.spec_has(t) == (spec_bit(b, t) && t != m) by {
                if 0 <= t < 32 {
                    lemma_bit_andnot(b, m, t);
                }
            }
        }
        let r = self.array.remove(0);
        proof {
            let b2 = self.bitmap;
            let arr = old(self).array@;
            assert(self.wf());
            assert forall|t: int|
                t != m && spec_bit(b, t) implies self.spec_get(t) == arr[slots_below(
                b,
                t,
            ).len() as int] by {
                lemma_slots_below_clear(b, m, t);
                lemma_slots_below_props(b, 32);
                assert(t > m);
                assert(slots_below(b2, t) == slots_below(b, t).remove(0));
                slots_below(b, t).remove_ensures(0);
                assert(0 < slots_below(b, t).len());
                arr.remove_ensures(0);
            }
        }
        r
    }

    /// The element at slot `sparse_index` if occupied, else the element at
    /// the lowest occupied slot.
    #[inline]
    pub fn get_or_head(&self, sparse_index: usize) -> (r: &T)
        requires
            self.wf(),
            sparse_index < 32,
            self.spec_len() >= 1,
        ensures
            *r == (if self.spec_has(sparse_index as int) {
                self.spec_get(sparse_index as int)
            } else {
                self.spec_get(self.spec_min_slot())
            }),
    {
        if self.has_sparse_index(sparse_index) {
            let idx = self.actual_index(sparse_index);
            proof {
                lemma_slots_below_props(self.bitmap, 32);
            }
            &self.array[idx]
        } else {
            self.head()
        }
    }

    /// Mutable access to the element at slot `sparse_index` if occupied, else
    /// to the element at the lowest occupied slot.
    #[inline]
    pub fn get_or_head_mut(&mut self, sparse_index: usize) -> (r: &mut T)
        requires
            old(self).wf(),
            sparse_index < 32,
            old(self).spec_len() >= 1,
        ensures
            ({
                let s_eff = if old(self).spec_has(sparse_index as int) {
                    sparse_index as int
                } else {
                    old(self).spec_min_slot()
                };
                &&& old(self).spec_has(s_eff)
                &&& *r == old(self).spec_get(s_eff)
                &&& final(self).bitmap == old(self).bitmap
                &&& final(self).array@ == old(self).array@.update(
                    old(self).spec_index_of(s_eff),
                    *final(r),
                )
                &&& final(self).wf()
                &&& final(self).spec_get(s_eff) == *final(r)
                &&& forall|t: int| final(self).spec_has(t) == old(self).spec_has(t)
                &&& forall|t: int|
                    t != s_eff && old(self).spec_has(t)
                        ==> final(self).spec_get(t) == old(self).spec_get(t)
            }),
    {
        if self.has_sparse_index(sparse_index) {
            let idx = self.actual_index(sparse_index);
            proof {
                lemma_slots_below_props(self.bitmap, 32);
                assert forall|t: int|
                    t != sparse_index as int && self.spec_has(t) implies self.spec_index_of(t)
                    != idx by {
                    lemma_slots_below_props(self.bitmap, 32);
                }
            }
            &mut self.array[idx]
        } else {
            proof {
                lemma_min_slot(self.bitmap);
            }
            self.head_mut()
        }
    }

    /// The physical element sequence, in ascending logical-slot order.
    #[inline]
    pub fn all(&self) -> (r: &Vec<T>)
        ensures
            r@ == self.array@,
    {
        &self.array
    }
}

impl<T> Default for SparseArray<T> {
    /// Creates an empty sparse array.
    fn default() -> (r: Self)
        ensures
            r.wf(),
            r.spec_len() == 0,
            forall|s: int| !r.spec_has(s),
    {
        SparseArray::new()
    }
}

/// Under well-formedness, physical positions and occupied slots are two views
/// of the same contents: element `i` of the array belongs to the `i`-th
/// occupied slot, and each occupied slot's element sits at its physical offset.
pub proof fn lemma_sparse_correspondence<T>(sa: SparseArray<T>)
    requires
        sa.wf(),
    ensures
        forall|i: int|
            0 <= i < sa.array@.len() ==> {
                let t = #[trigger] slots_below(sa.bitmap, 32)[i];
                sa.spec_has(t) && sa.spec_get(t) == sa.array@[i] && sa.spec_index_of(t) == i
            },
        forall|t: int|
            #[trigger] sa.spec_has(t) ==> 0 <= sa.spec_index_of(t) < sa.array@.len()
                && sa.array@[sa.spec_index_of(t)] == sa.spec_get(t) && slots_below(
                sa.bitmap,
                32,
            )[sa.spec_index_of(t)] == t,
{
    lemma_slots_below_props(sa.bitmap, 32);
}

} // verus!
