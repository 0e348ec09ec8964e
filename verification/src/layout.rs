//! Size/alignment packing calculus and the per-type reference-enumeration
//! capability that lets the collector discover interior pointers.

use vstd::prelude::*;
use vstd::arithmetic::div_mod::{lemma_fundamental_div_mod, lemma_mod_multiples_basic};

verus! {

/// Smallest multiple of `a` that is greater than or equal to `p`.
pub open spec fn align_up(p: int, a: int) -> int
    recommends
        a >= 1,
        p >= 0,
{
    if p % a == 0 {
        p
    } else {
        p + (a - p % a)
    }
}

/// `a` is a power of two (1, 2, 4, ...).
pub open spec fn is_pow2(a: int) -> bool
    decreases a,
{
    if a <= 0 {
        false
    } else if a == 1 {
        true
    } else {
        a % 2 == 0 && is_pow2(a / 2)
    }
}

/// Aligning forward lands on a multiple of the alignment, never moves
/// backwards, and moves forward by less than one alignment unit.
pub proof fn lemma_align_up(p: int, a: int)
    requires
        a >= 1,
        p >= 0,
    ensures
        align_up(p, a) % a == 0,
        p <= align_up(p, a) < p + a,
{
    if p % a != 0 {
        lemma_fundamental_div_mod(p, a);
        let q = p / a;
        assert(align_up(p, a) == a * q + a);
        assert(a * q + a == (q + 1) * a) by (nonlinear_arith);
        lemma_mod_multiples_basic(q + 1, a);
    }
}

/// Law stated of every power-of-two alignment `a` and address `p`:
/// `align_up(p, a)` is a multiple of `a`, is at least `p`, and exceeds `p`
/// by less than `a`.
pub proof fn lemma_align_forward_pow2(p: int, a: int)
    requires
        is_pow2(a),
        p >= 0,
    ensures
        align_up(p, a) % a == 0,
        align_up(p, a) >= p,
        align_up(p, a) - p < a,
{
    lemma_align_up(p, a);
}

proof fn lemma_pow2_small(n: int)
    requires
        is_pow2(n),
        n < 256,
    ensures
        n == 1 || n == 2 || n == 4 || n == 8 || n == 16 || n == 32 || n == 64 || n == 128,
    decreases n,
{
    if n > 1 {
        lemma_fundamental_div_mod(n, 2);
        lemma_pow2_small(n / 2);
    }
}

/// Eight is a power of two: the alignment of metadata slots and of
/// forwarding-reference placeholders.
pub proof fn lemma_is_pow2_8()
    ensures
        is_pow2(8),
{
    reveal_with_fuel(is_pow2, 5);
}

/// A power of two that fits in a byte is at most 128.
pub proof fn lemma_pow2_u8_le_128(a: u8)
    requires
        is_pow2(a as int),
    ensures
        1 <= a <= 128,
{
    lemma_pow2_small(a as int);
}

/// Size and alignment facts for one logical type, in bytes. The alignment
/// must be a power of two; that is a caller contract on the operations that
/// do address arithmetic, not a field invariant.
#[derive(Clone, Copy, Debug, PartialEq, Eq, Structural)]
pub struct Packing {
    pub size: u8,
    pub align: u8,
}

/// Total bytes an allocation with packing `k` placed at address `p` consumes:
/// the padding up to the aligned payload start, then the payload itself.
pub open spec fn spec_footprint(p: int, k: Packing) -> int {
    align_up(p, k.align as int) + k.size - p
}

/// Law relating the three address operations: the footprint at `p` is
/// exactly `advance(align_up(p)) - p`.
pub proof fn lemma_footprint(p: int, k: Packing)
    requires
        k.align >= 1,
        p >= 0,
    ensures
        spec_footprint(p, k) == (align_up(p, k.align as int) + k.size) - p,
{
}

impl Packing {
    /// Packing facts of the type `T`, as the compiler lays it out, reduced
    /// to the byte-sized calculus this arena works in.
    pub fn new<T>() -> (k: Packing)
        ensures
            k.size as nat == vstd::layout::size_of::<T>() % 256,
            k.align as nat == vstd::layout::align_of::<T>() % 256,
    {
        Packing::raw((core::mem::size_of::<T>() % 256) as u8, (core::mem::align_of::<T>() % 256) as u8)
    }

    /// Element-wise maximum of the packing of `T` and `other`: a slot sized
    /// this way can hold either occupant.
    pub fn at_least<T>(other: Packing) -> (k: Packing)
        ensures
            k.size == max_u8((vstd::layout::size_of::<T>() % 256) as u8, other.size),
            k.align == max_u8((vstd::layout::align_of::<T>() % 256) as u8, other.align),
    {
        let s = (core::mem::size_of::<T>() % 256) as u8;
        let a = (core::mem::align_of::<T>() % 256) as u8;
        Packing::raw(
            if s >= other.size { s } else { other.size },
            if a >= other.align { a } else { other.align },
        )
    }

    pub fn raw(size: u8, align: u8) -> (k: Packing)
        ensures
            k.size == size,
            k.align == align,
    {
        Packing { size, align }
    }

    /// Smallest address greater than or equal to `p` that satisfies this
    /// alignment. The alignment must be a power of two.
    pub fn align_after(&self, p: usize) -> (r: usize)
        requires
            is_pow2(self.align as int),
            align_up(p as int, self.align as int) <= usize::MAX,
        ensures
            r == align_up(p as int, self.align as int),
            r % (self.align as usize) == 0,
            p <= r < p + self.align,
    {
        proof {
            lemma_align_up(p as int, self.align as int);
        }
        let a = self.align as usize;
        let m = p % a;
        if m == 0 {
            p
        } else {
            p + (a - m)
        }
    }

    /// The address just past a payload of this size placed at `p`.
    pub fn advance(&self, p: usize) -> (r: usize)
        requires
            p + self.size <= usize::MAX,
        ensures
            r == p + self.size,
    {
        p + self.size as usize
    }

    /// Total bytes an allocation at `p` would consume; used to test fit
    /// before committing. Exact integer arithmetic, no error states.
    pub fn footprint(&self, p: usize) -> (r: usize)
        requires
            is_pow2(self.align as int),
            align_up(p as int, self.align as int) + self.size <= usize::MAX,
        ensures
            r == spec_footprint(p as int, *self),
            r == (align_up(p as int, self.align as int) + self.size) - p,
    {
        proof {
            lemma_align_up(p as int, self.align as int);
        }
        self.advance(self.align_after(p)) - p
    }
}

pub open spec fn max_u8(x: u8, y: u8) -> u8 {
    if x >= y {
        x
    } else {
        y
    }
}

/// Per-type layout capability: a finite, deterministic enumeration of the
/// byte offsets (within the payload) of every interior slot that holds a
/// reference to another managed object. Leaf types enumerate nothing.
pub trait GCLayout: Sized + Copy + Clone {
    /// The interior reference slots this tag describes, in enumeration order.
    spec fn ref_slots(&self) -> Seq<usize>;

    /// The enumeration is finite: implementations bound its length.
    proof fn ref_slots_finite(&self)
        ensures
            self.ref_slots().len() <= usize::MAX,
    ;

    /// The slot at enumeration index `i`, or `None` once the enumeration is
    /// exhausted.
    fn get_ref(&self, i: usize) -> (r: Option<usize>)
        ensures
            i < self.ref_slots().len() ==> r == Some(self.ref_slots()[i as int]),
            i >= self.ref_slots().len() ==> r is None,
    ;

    /// A restartable cursor over the reference slots.
    fn refs(&self) -> (it: Refs<'_, Self>)
        ensures
            *it.layout_tag() == *self,
            it.index() == 0,
    {
        Refs { tag: self, pos: 0 }
    }
}

/// Cursor over the reference slots of one layout tag, yielding each slot
/// offset in enumeration order.
pub struct Refs<'a, T> {
    tag: &'a T,
    pos: usize,
}

impl<'a, T> Refs<'a, T> {
    pub closed spec fn layout_tag(&self) -> &'a T {
        self.tag
    }

    pub closed spec fn index(&self) -> usize {
        self.pos
    }
}

impl<'a, T: GCLayout> Refs<'a, T> {
    /// The next slot offset, or `None` at the end of the enumeration.
    pub fn next(&mut self) -> (r: Option<usize>)
        ensures
            final(self).layout_tag() == old(self).layout_tag(),
            old(self).index() < old(self).layout_tag().ref_slots().len() ==> {
                &&& r == Some(old(self).layout_tag().ref_slots()[old(self).index() as int])
                &&& final(self).index() == old(self).index() + 1
            },
            old(self).index() >= old(self).layout_tag().ref_slots().len() ==> {
                &&& r is None
                &&& *final(self) == *old(self)
            },
    {
        let r = self.tag.get_ref(self.pos);
        if r.is_some() {
            proof {
                self.tag.ref_slots_finite();
            }
            self.pos = self.pos + 1;
        }
        r
    }
}

} // verus!
