//! Fixed-width vertex sets backed by `fixedbitset::FixedBitSet`.
use fixedbitset::FixedBitSet;
use vstd::prelude::*;

verus! {

/// `fixedbitset::FixedBitSet`, opaque: its contents are read through
/// `fbs_ones` and `fbs_len`.
#[verifier::external_type_specification]
#[verifier::external_body]
pub struct ExFixedBitSet(FixedBitSet);

/// The indices of the bits that are set.
pub uninterp spec fn fbs_ones(b: FixedBitSet) -> Set<int>;

/// The number of bits the set holds (`FixedBitSet::len`).
pub uninterp spec fn fbs_len(b: FixedBitSet) -> nat;

/// Relies on `FixedBitSet::with_capacity`: `n` bits, all clear.
#[verifier::external_body]
fn fbs_with_capacity(n: usize) -> (r: FixedBitSet)
    ensures
        fbs_len(r) == n,
        fbs_ones(r) == Set::<int>::empty(),
{
    FixedBitSet::with_capacity(n)
}

/// Relies on `FixedBitSet::clone`: same length, same bits.
#[verifier::external_body]
fn fbs_clone(b: &FixedBitSet) -> (r: FixedBitSet)
    ensures
        fbs_len(r) == fbs_len(*b),
        fbs_ones(r) == fbs_ones(*b),
{
    b.clone()
}

/// Relies on `FixedBitSet::insert`: sets one bit; panics past `len`.
#[verifier::external_body]
fn fbs_insert(b: &mut FixedBitSet, i: usize)
    requires
        i < fbs_len(*old(b)),
    ensures
        fbs_len(*final(b)) == fbs_len(*old(b)),
        fbs_ones(*final(b)) == fbs_ones(*old(b)).insert(i as int),
{
    b.insert(i)
}

/// Relies on `FixedBitSet::remove`: clears one bit; panics past `len`.
#[verifier::external_body]
fn fbs_remove(b: &mut FixedBitSet, i: usize)
    requires
        i < fbs_len(*old(b)),
    ensures
        fbs_len(*final(b)) == fbs_len(*old(b)),
        fbs_ones(*final(b)) == fbs_ones(*old(b)).remove(i as int),
{
    b.remove(i)
}

/// Relies on `FixedBitSet::contains`: whether the bit is set.
#[verifier::external_body]
fn fbs_contains(b: &FixedBitSet, i: usize) -> (r: bool)
    ensures
        r == fbs_ones(*b).contains(i as int),
{
    b.contains(i)
}

/// Relies on `FixedBitSet::count_ones(..)`: the number of set bits.
#[verifier::external_body]
fn fbs_count_ones(b: &FixedBitSet) -> (r: usize)
    ensures
        r == fbs_ones(*b).len(),
{
    b.count_ones(..)
}

/// Relies on `FixedBitSet::minimum`: the lowest set bit, if any.
#[verifier::external_body]
fn fbs_minimum(b: &FixedBitSet) -> (r: Option<usize>)
    ensures
        r is None <==> fbs_ones(*b) == Set::<int>::empty(),
        r matches Some(m) ==> fbs_ones(*b).contains(m as int) && forall|j: int|
            fbs_ones(*b).contains(j) ==> m <= j,
{
    b.minimum()
}

/// Relies on `FixedBitSet::intersect_with`: keeps the bits set in both; the
/// length stays.
#[verifier::external_body]
fn fbs_intersect_with(b: &mut FixedBitSet, o: &FixedBitSet)
    ensures
        fbs_len(*final(b)) == fbs_len(*old(b)),
        fbs_ones(*final(b)) == fbs_ones(*old(b)).intersect(fbs_ones(*o)),
{
    b.intersect_with(o)
}

/// Relies on `FixedBitSet::difference_with`: clears the bits set in `o`; the
/// length stays.
#[verifier::external_body]
fn fbs_difference_with(b: &mut FixedBitSet, o: &FixedBitSet)
    ensures
        fbs_len(*final(b)) == fbs_len(*old(b)),
        fbs_ones(*final(b)) == fbs_ones(*old(b)).difference(fbs_ones(*o)),
{
    b.difference_with(o)
}

/// Relies on `FixedBitSet::union_with`: sets the bits set in `o`; with equal
/// lengths the length stays.
#[verifier::external_body]
fn fbs_union_with(b: &mut FixedBitSet, o: &FixedBitSet)
    requires
        fbs_len(*o) == fbs_len(*old(b)),
    ensures
        fbs_len(*final(b)) == fbs_len(*old(b)),
        fbs_ones(*final(b)) == fbs_ones(*old(b)).union(fbs_ones(*o)),
{
    b.union_with(o)
}

/// A set of vertex ids below a fixed width.
pub struct VertexSet {
    bits: FixedBitSet,
}

impl View for VertexSet {
    type V = Set<int>;

    closed spec fn view(&self) -> Set<int> {
        fbs_ones(self.bits)
    }
}

impl Clone for VertexSet {
    fn clone(&self) -> (r: VertexSet)
        ensures
            r@ == self@,
            r.width() == self.width(),
    {
        VertexSet { bits: fbs_clone(&self.bits) }
    }
}

impl VertexSet {
    /// The width: every member is below it.
    pub closed spec fn width(&self) -> nat {
        fbs_len(self.bits)
    }

    pub open spec fn wf(&self) -> bool {
        &&& self@.finite()
        &&& forall|i: int| #[trigger] self@.contains(i) ==> 0 <= i < self.width()
    }

    /// The empty set of width `n`.
    pub fn new(n: usize) -> (r: VertexSet)
        ensures
            r.wf(),
            r.width() == n,
            r@ == Set::<int>::empty(),
    {
        VertexSet { bits: fbs_with_capacity(n) }
    }

    /// The set `{0, .., n-1}`.
    pub fn full(n: usize) -> (r: VertexSet)
        ensures
            r.wf(),
            r.width() == n,
            r@ == Set::new(|i: int| 0 <= i < n),
    {
        let mut r = VertexSet::new(n);
        let mut i: usize = 0;
        while i < n
            invariant
                i <= n,
                r.wf(),
                r.width() == n,
                r@ == Set::new(|j: int| 0 <= j < i),
            decreases n - i,
        {
            r.insert(i);
            i = i + 1;
            assert(r@ =~= Set::new(|j: int| 0 <= j < i));
        }
        r
    }

    pub fn insert(&mut self, i: usize)
        requires
            old(self).wf(),
            i < old(self).width(),
        ensures
            final(self).wf(),
            final(self).width() == old(self).width(),
            final(self)@ == old(self)@.insert(i as int),
    {
        fbs_insert(&mut self.bits, i);
    }

    pub fn remove(&mut self, i: usize)
        requires
            old(self).wf(),
            i < old(self).width(),
        ensures
            final(self).wf(),
            final(self).width() == old(self).width(),
            final(self)@ == old(self)@.remove(i as int),
    {
        fbs_remove(&mut self.bits, i);
    }

    pub fn contains(&self, i: usize) -> (r: bool)
        ensures
            r == self@.contains(i as int),
    {
        fbs_contains(&self.bits, i)
    }

    /// The number of members.
    pub fn count(&self) -> (r: usize)
        requires
            self.wf(),
        ensures
            r == self@.len(),
    {
        fbs_count_ones(&self.bits)
    }

    pub fn is_empty(&self) -> (r: bool)
        requires
            self.wf(),
        ensures
            r <==> self@ == Set::<int>::empty(),
    {
        fbs_minimum(&self.bits).is_none()
    }

    /// The smallest member, if any.
    pub fn first(&self) -> (r: Option<usize>)
        requires
            self.wf(),
        ensures
            r is None <==> self@ == Set::<int>::empty(),
            r matches Some(m) ==> self@.contains(m as int) && forall|j: int|
                self@.contains(j) ==> m <= j,
    {
        fbs_minimum(&self.bits)
    }

    pub fn intersect_with(&mut self, o: &VertexSet)
        requires
            old(self).wf(),
        ensures
            final(self).wf(),
            final(self).width() == old(self).width(),
            final(self)@ == old(self)@.intersect(o@),
    {
        fbs_intersect_with(&mut self.bits, &o.bits);
    }

    pub fn difference_with(&mut self, o: &VertexSet)
        requires
            old(self).wf(),
        ensures
            final(self).wf(),
            final(self).width() == old(self).width(),
            final(self)@ == old(self)@.difference(o@),
    {
        fbs_difference_with(&mut self.bits, &o.bits);
    }

    pub fn union_with(&mut self, o: &VertexSet)
        requires
            old(self).wf(),
            o.wf(),
            o.width() == old(self).width(),
        ensures
            final(self).wf(),
            final(self).width() == old(self).width(),
            final(self)@ == old(self)@.union(o@),
    {
        fbs_union_with(&mut self.bits, &o.bits);
    }

    /// The members in ascending order.
    pub fn to_vec(&self) -> (r: Vec<usize>)
        requires
            self.wf(),
        ensures
            r@.len() == self@.len(),
            r@.no_duplicates(),
            forall|k: int| 0 <= k < r@.len() ==> self@.contains(r@[k] as int),
            forall|j: int| self@.contains(j) ==> exists|k: int| 0 <= k < r@.len() && r@[k] == j,
            forall|a: int, b: int| 0 <= a < b < r@.len() ==> r@[a] < r@[b],
    {
        let mut rest = self.clone();
        let mut out: Vec<usize> = Vec::new();
        while !rest.is_empty()
            invariant
                rest.wf(),
                self.wf(),
                rest.width() == self.width(),
                rest@.subset_of(self@),
                forall|k: int| 0 <= k < out@.len() ==> self@.contains(out@[k] as int) && !rest@.contains(out@[k] as int),
                forall|j: int| self@.contains(j) ==> rest@.contains(j) || exists|k: int| 0 <= k < out@.len() && out@[k] == j,
                forall|a: int, b: int| 0 <= a < b < out@.len() ==> out@[a] < out@[b],
                forall|a: int, j: int| 0 <= a < out@.len() && rest@.contains(j) ==> out@[a] < j,
                out@.len() + rest@.len() == self@.len(),
            decreases rest@.len(),
        {
            let m = rest.first().unwrap();
            let ghost prev = out@;
            rest.remove(m);
            out.push(m);
            proof {
                assert forall|j: int| self@.contains(j) implies rest@.contains(j) || exists|k: int|
                    0 <= k < out@.len() && out@[k] == j by {
                    if j == m as int {
                        assert(out@[out@.len() - 1] == j);
                    } else if !rest@.contains(j) {
                        let k = choose|k: int| 0 <= k < prev.len() && prev[k] == j;
                        assert(out@[k] == j);
                    }
                }
            }
        }
        proof {
            assert(out@.no_duplicates()) by {
                assert forall|a: int, b: int| 0 <= a < out@.len() && 0 <= b < out@.len() && a != b
                    implies out@[a] != out@[b] by {
                    if a < b {} else {}
                }
            }
        }
        out
    }
}

} // verus!
