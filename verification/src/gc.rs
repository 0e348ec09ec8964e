//! The arena: a bump allocator over one contiguous byte buffer, per-object
//! metadata with in-place forwarding, and a Cheney-style semi-space copying
//! collector driven by the registered root set.
//!
//! Addresses are byte offsets into an owned buffer, so every address
//! computation is bounds-checked arithmetic; the metadata slot reserved
//! before each payload is modelled by a parallel metadata vector indexed
//! by the same offsets. An interior reference slot holds the referenced object's
//! metadata offset, encoded as eight little-endian bytes.

use vstd::prelude::*;
use vstd::pervasive::VecAdditionalExecFns;
use vstd::pervasive::unreached;
use vstd::bytes::{spec_u64_from_le_bytes, spec_u64_to_le_bytes, lemma_auto_spec_u64_to_from_le_bytes};
use crate::layout::{Packing, GCLayout, align_up, is_pow2, lemma_align_up, max_u8};

verus! {

/// Ceiling on arena capacity, leaving headroom so that offset arithmetic
/// (alignment padding plus a maximal object) never overflows `usize`.
pub const CAP_MAX: usize = usize::MAX / 8;

/// Bytes reserved in the buffer for the metadata slot preceding a payload.
pub const META_SIZE: u8 = 8;

/// Alignment of every metadata slot.
pub const META_ALIGN: u8 = 8;

/// Packing of the forwarding-reference placeholder: every payload slot must
/// be able to hold a forwarded metadata offset, eight bytes aligned to eight.
pub const REF_SIZE: u8 = 8;

/// Alignment of the forwarding-reference placeholder.
pub const REF_ALIGN: u8 = 8;

/// Per-object metadata, stored at the object's metadata offset.
///
/// A `Header` describes a live object: payload offset `off` from the
/// metadata slot, payload `size`, payload alignment `algn`, and the opaque
/// layout tag. A `Forward` exists only in a stale buffer during a
/// collection pass and points at the object's relocated header.
#[derive(Clone, Copy)]
pub enum Meta<L> {
    Header { off: u8, size: u8, algn: u8, tag: L },
    Forward { to: usize },
}

/// A metadata offset `h` names a live header in `metas`.
pub open spec fn hdr_at<L>(metas: Seq<Option<Meta<L>>>, h: int) -> bool {
    &&& 0 <= h < metas.len()
    &&& metas[h] is Some
    &&& metas[h]->Some_0 is Header
}

pub open spec fn hdr_of<L>(metas: Seq<Option<Meta<L>>>, h: int) -> Meta<L> {
    metas[h]->Some_0
}

/// Payload offset of the object whose header is at `h`.
pub open spec fn obj_pay<L>(metas: Seq<Option<Meta<L>>>, h: int) -> int {
    h + hdr_of(metas, h)->Header_off
}

pub open spec fn obj_size<L>(metas: Seq<Option<Meta<L>>>, h: int) -> int {
    hdr_of(metas, h)->Header_size as int
}

pub open spec fn obj_algn<L>(metas: Seq<Option<Meta<L>>>, h: int) -> int {
    hdr_of(metas, h)->Header_algn as int
}

pub open spec fn obj_tag<L>(metas: Seq<Option<Meta<L>>>, h: int) -> L {
    hdr_of(metas, h)->Header_tag
}

/// End of the object's extent: one past the last payload byte.
pub open spec fn obj_end<L>(metas: Seq<Option<Meta<L>>>, h: int) -> int {
    obj_pay(metas, h) + obj_size(metas, h)
}

/// Structural soundness of one header: slot and payload alignment, payload
/// after the metadata slot, extent below the allocation frontier.
pub open spec fn hdr_ok<L>(metas: Seq<Option<Meta<L>>>, h: int, free: int) -> bool
    recommends
        hdr_at(metas, h),
{
    let m = hdr_of(metas, h);
    &&& h % (META_ALIGN as int) == 0
    &&& m->Header_off >= META_SIZE
    &&& m->Header_off < 255
    &&& m->Header_algn >= 8
    &&& is_pow2(m->Header_algn as int)
    &&& m->Header_size >= 8
    &&& (h + m->Header_off) % (m->Header_algn as int) == 0
    &&& h + m->Header_off + m->Header_size <= free
}

/// Distinct live objects occupy disjoint extents `[h, obj_end)`.
pub open spec fn objs_disjoint<L>(metas: Seq<Option<Meta<L>>>) -> bool {
    forall|h1: int, h2: int|
        hdr_at(metas, h1) && hdr_at(metas, h2) && h1 != h2 ==> #[trigger] obj_end(metas, h1)
            <= h2 || #[trigger] obj_end(metas, h2) <= h1
}

/// Well-formedness of an arena generation given as its parts. A live
/// buffer never holds a forwarding marker: those exist only in a stale
/// buffer in the middle of a collection pass.
pub open spec fn wf_parts<L>(
    data: Seq<u8>,
    metas: Seq<Option<Meta<L>>>,
    free: int,
    roots: Seq<usize>,
) -> bool {
    &&& data.len() <= CAP_MAX as int
    &&& metas.len() == data.len()
    &&& 0 <= free <= data.len()
    &&& forall|h: int| #[trigger] hdr_at(metas, h) ==> hdr_ok(metas, h, free)
    &&& objs_disjoint(metas)
    &&& forall|i: int| 0 <= i < roots.len() ==> hdr_at(metas, #[trigger] roots[i] as int)
    &&& forall|i: int|
        0 <= i < metas.len() && #[trigger] metas[i] is Some ==> metas[i]->Some_0 is Header
}

/// The value held by reference slot `k` of the object at `h`: the eight
/// little-endian bytes at the slot, decoded to a metadata offset.
pub open spec fn slot_val<L: GCLayout>(
    data: Seq<u8>,
    metas: Seq<Option<Meta<L>>>,
    h: int,
    k: int,
) -> int {
    let s = obj_tag(metas, h).ref_slots()[k] as int;
    spec_u64_from_le_bytes(data.subrange(obj_pay(metas, h) + s, obj_pay(metas, h) + s + 8)) as int
}

/// The reference slots of the object at `h` lie inside its payload, do not
/// overlap one another, and each holds the offset of a live header.
pub open spec fn refs_ok<L: GCLayout>(
    data: Seq<u8>,
    metas: Seq<Option<Meta<L>>>,
    h: int,
) -> bool
    recommends
        hdr_at(metas, h),
{
    let slots = obj_tag(metas, h).ref_slots();
    &&& forall|k: int| 0 <= k < slots.len() ==> #[trigger] slots[k] + 8 <= obj_size(metas, h)
    &&& forall|k1: int, k2: int|
        0 <= k1 < slots.len() && 0 <= k2 < slots.len() && k1 != k2 ==> #[trigger] slots[k1] + 8
            <= slots[k2] || #[trigger] slots[k2] + 8 <= slots[k1]
    &&& forall|k: int| 0 <= k < slots.len() ==> hdr_at(metas, #[trigger] slot_val(data, metas, h, k))
}

/// Every live object's interior references point at live objects: the
/// reference-enumeration contract the caller owes the collector.
pub open spec fn refs_closed_parts<L: GCLayout>(
    data: Seq<u8>,
    metas: Seq<Option<Meta<L>>>,
) -> bool {
    forall|h: int| #[trigger] hdr_at(metas, h) ==> refs_ok(data, metas, h)
}

/// Eight bytes of `w` written into `b` at `at`; everything else unchanged.
pub open spec fn splice8(b: Seq<u8>, at: int, w: Seq<u8>) -> Seq<u8> {
    b.map(|j: int, x: u8| if at <= j < at + 8 { w[j - at] } else { x })
}

/// Byte position `p` of a payload falls inside one of its reference slots.
pub open spec fn in_slot(slots: Seq<usize>, p: int) -> bool {
    exists|k: int| 0 <= k < slots.len() && #[trigger] slots[k] <= p < slots[k] + 8
}

/// Header fields other than the payload offset survive a move unchanged.
pub open spec fn fields_preserved<L: GCLayout>(
    om: Seq<Option<Meta<L>>>,
    nm: Seq<Option<Meta<L>>>,
    j: int,
    w: int,
) -> bool {
    &&& obj_size(nm, w) == obj_size(om, j)
    &&& obj_algn(nm, w) == obj_algn(om, j)
    &&& obj_tag(nm, w) == obj_tag(om, j)
}

/// Relation between the payload of old object `j` and its copy at `w`,
/// with the first `kdone` reference slots already rewritten through the
/// forwarding map `f`: bytes outside reference slots are copied verbatim,
/// rewritten slots hold the forwarded offset of their old target, and
/// slots not yet rewritten still hold the old bytes.
pub open spec fn payload_part<L: GCLayout>(
    od: Seq<u8>,
    om: Seq<Option<Meta<L>>>,
    nd: Seq<u8>,
    nm: Seq<Option<Meta<L>>>,
    f: Map<int, int>,
    j: int,
    w: int,
    kdone: int,
) -> bool {
    let slots = obj_tag(om, j).ref_slots();
    let op = obj_pay(om, j);
    let np = obj_pay(nm, w);
    let sz = obj_size(om, j);
    &&& forall|p: int| 0 <= p < sz && !in_slot(slots, p) ==> #[trigger] nd[np + p] == od[op + p]
    &&& forall|k: int|
        0 <= k < kdone ==> f.dom().contains(#[trigger] slot_val(od, om, j, k))
    &&& forall|k: int|
        0 <= k < kdone ==> nd.subrange(np + #[trigger] slots[k], np + slots[k] + 8)
            == spec_u64_to_le_bytes(f[slot_val(od, om, j, k)] as u64)
    &&& forall|k: int|
        kdone <= k < slots.len() ==> nd.subrange(np + #[trigger] slots[k], np + slots[k] + 8)
            == od.subrange(op + slots[k], op + slots[k] + 8)
}

/// A fully processed copy: every reference slot rewritten through `f`.
pub open spec fn payload_done<L: GCLayout>(
    od: Seq<u8>,
    om: Seq<Option<Meta<L>>>,
    nd: Seq<u8>,
    nm: Seq<Option<Meta<L>>>,
    f: Map<int, int>,
    j: int,
    w: int,
) -> bool {
    payload_part(od, om, nd, nm, f, j, w, obj_tag(om, j).ref_slots().len() as int)
}

/// How one arena generation relates to its successor after a collection
/// pass. `f` maps the metadata offset of each surviving old object to the
/// offset of its single copy: it is injective (no object is copied twice),
/// copies keep size, alignment, tag and all payload bytes outside
/// reference slots, every reference slot is rewritten to the forwarded
/// offset of the object it pointed at, and every root is rewritten to the
/// forwarded offset of the object it named.
pub open spec fn relocation<L: GCLayout>(
    od: Seq<u8>,
    om: Seq<Option<Meta<L>>>,
    oroots: Seq<usize>,
    nd: Seq<u8>,
    nm: Seq<Option<Meta<L>>>,
    nroots: Seq<usize>,
    f: Map<int, int>,
) -> bool {
    &&& forall|j: int| #[trigger] f.dom().contains(j) ==> hdr_at(om, j)
    &&& forall|j: int| #[trigger] f.dom().contains(j) ==> hdr_at(nm, f[j])
    &&& forall|j: int| #[trigger]
        f.dom().contains(j) ==> fields_preserved(om, nm, j, f[j]) && payload_done(
            od,
            om,
            nd,
            nm,
            f,
            j,
            f[j],
        )
    &&& forall|j1: int, j2: int|
        f.dom().contains(j1) && f.dom().contains(j2) && #[trigger] f[j1] == #[trigger] f[j2]
            ==> j1 == j2
    &&& nroots.len() == oroots.len()
    &&& forall|i: int|
        0 <= i < oroots.len() ==> f.dom().contains(#[trigger] oroots[i] as int) && nroots[i] as int
            == f[oroots[i] as int]
}

/// `h` is reachable from the root set in at most `n` reference-slot
/// steps through the object graph of `od`/`om`.
pub open spec fn reached_in<L: GCLayout>(
    od: Seq<u8>,
    om: Seq<Option<Meta<L>>>,
    roots: Seq<usize>,
    h: int,
    n: nat,
) -> bool
    decreases n,
{
    if n == 0 {
        exists|i: int| 0 <= i < roots.len() && roots[i] == h
    } else {
        reached_in(od, om, roots, h, (n - 1) as nat) || exists|p: int, k: int|
            reached_in(od, om, roots, p, (n - 1) as nat) && hdr_at(om, p) && 0 <= k < obj_tag(
                om,
                p,
            ).ref_slots().len() && #[trigger] slot_val(od, om, p, k) == h
    }
}

/// `h` is reachable from the root set via reference enumeration.
pub open spec fn reached<L: GCLayout>(
    od: Seq<u8>,
    om: Seq<Option<Meta<L>>>,
    roots: Seq<usize>,
    h: int,
) -> bool {
    exists|n: nat| reached_in(od, om, roots, h, n)
}

/// The forwarding map copied nothing but reachable objects.
pub open spec fn only_reachable<L: GCLayout>(
    od: Seq<u8>,
    om: Seq<Option<Meta<L>>>,
    roots: Seq<usize>,
    f: Map<int, int>,
) -> bool {
    forall|j: int| #[trigger] f.dom().contains(j) ==> reached(od, om, roots, j)
}

proof fn lemma_reached_root<L: GCLayout>(
    od: Seq<u8>,
    om: Seq<Option<Meta<L>>>,
    roots: Seq<usize>,
    i: int,
)
    requires
        0 <= i < roots.len(),
    ensures
        reached(od, om, roots, roots[i] as int),
{
    assert(reached_in(od, om, roots, roots[i] as int, 0));
}

proof fn lemma_reached_step<L: GCLayout>(
    od: Seq<u8>,
    om: Seq<Option<Meta<L>>>,
    roots: Seq<usize>,
    p: int,
    k: int,
)
    requires
        reached(od, om, roots, p),
        hdr_at(om, p),
        0 <= k < obj_tag(om, p).ref_slots().len(),
    ensures
        reached(od, om, roots, slot_val(od, om, p, k)),
{
    let n = choose|n: nat| reached_in(od, om, roots, p, n);
    assert(reached_in(od, om, roots, slot_val(od, om, p, k), n + 1));
}

/// Every live header of `nm` except `excl` is the image of the
/// forwarding map `f`: the buffer holds nothing but the copies `f` made
/// (negative `excl` excludes nothing, since no header has a negative
/// offset).
pub open spec fn copies_cover<L>(nm: Seq<Option<Meta<L>>>, f: Map<int, int>, excl: int) -> bool {
    forall|x: int|
        #[trigger] hdr_at(nm, x) && x != excl ==> exists|j: int| f.dom().contains(j) && f[j] == x
}

/// Every live object's payload alignment equals the metadata-slot
/// alignment: the situation after allocations that never asked for more
/// than eight-byte alignment. Under it a collection pass packs survivors
/// at least as tightly as any order the old buffer held them in.
pub open spec fn uniform_align<L>(metas: Seq<Option<Meta<L>>>) -> bool {
    forall|h: int| #[trigger] hdr_at(metas, h) ==> hdr_of(metas, h)->Header_algn == 8
}

/// Bytes the object at `j` occupies, header to payload end, rounded up to
/// whole metadata-slot units (the trailing padding the next bump
/// allocation would skip).
pub open spec fn slot_len<L>(metas: Seq<Option<Meta<L>>>, j: int) -> int {
    align_up(obj_end(metas, j) - j, 8)
}

/// Total rounded extent of the listed objects.
pub open spec fn slot_sum<L>(metas: Seq<Option<Meta<L>>>, src: Seq<int>) -> int
    decreases src.len(),
{
    if src.len() == 0 {
        0
    } else {
        slot_sum(metas, src.drop_last()) + slot_len(metas, src.last())
    }
}

/// Adding a multiple of eight commutes with rounding up to eight.
proof fn lemma_align_up_shift8(x: int, m: int)
    requires
        m % 8 == 0,
        x >= 0,
        m >= 0,
    ensures
        align_up(x + m, 8) == align_up(x, 8) + m,
{
    vstd::arithmetic::div_mod::lemma_add_mod_noop(x, m, 8);
}

/// Rounding up to eight never passes a multiple of eight that is already
/// at or above the value.
proof fn lemma_align_up_at_most(x: int, n8: int)
    requires
        0 <= x <= n8,
        n8 % 8 == 0,
    ensures
        align_up(x, 8) <= n8,
{
    lemma_align_up(x, 8);
    let a = align_up(x, 8);
    if a > n8 {
        assert(a % 8 == 0 && n8 % 8 == 0);
        assert(a >= n8 + 8) by {
            vstd::arithmetic::div_mod::lemma_fundamental_div_mod(a, 8);
            vstd::arithmetic::div_mod::lemma_fundamental_div_mod(n8, 8);
            assert(a == 8 * (a / 8) && n8 == 8 * (n8 / 8));
            assert(a / 8 >= n8 / 8 + 1) by (nonlinear_arith)
                requires
                    a > n8,
                    a == 8 * (a / 8),
                    n8 == 8 * (n8 / 8),
            {
            }
        }
        assert(a < x + 8);
    }
}

/// `m` indexes a maximal entry of `s`.
spec fn is_max_at(s: Seq<int>, m: int) -> bool {
    &&& 0 <= m < s.len()
    &&& forall|i: int| 0 <= i < s.len() ==> #[trigger] s[i] <= s[m]
}

/// A non-empty integer sequence has an index holding its maximum.
proof fn lemma_seq_max_index(s: Seq<int>)
    requires
        s.len() > 0,
    ensures
        exists|m: int| #[trigger] is_max_at(s, m),
    decreases s.len(),
{
    if s.len() == 1 {
        assert(is_max_at(s, 0));
    } else {
        lemma_seq_max_index(s.drop_last());
        let m0 = choose|m: int| #[trigger] is_max_at(s.drop_last(), m);
        if s.last() >= s[m0] {
            let w = s.len() - 1;
            assert forall|i: int| 0 <= i < s.len() implies #[trigger] s[i] <= s[w] by {
                if i < s.len() - 1 {
                    assert(s.drop_last()[i] <= s.drop_last()[m0]);
                }
            }
            assert(is_max_at(s, w));
        } else {
            assert forall|i: int| 0 <= i < s.len() implies #[trigger] s[i] <= s[m0] by {
                if i < s.len() - 1 {
                    assert(s.drop_last()[i] <= s.drop_last()[m0]);
                }
            }
            assert(is_max_at(s, m0));
        }
    }
}

/// Removing one entry removes exactly its rounded extent from the total.
proof fn lemma_slot_sum_remove<L>(metas: Seq<Option<Meta<L>>>, s: Seq<int>, i: int)
    requires
        0 <= i < s.len(),
    ensures
        slot_sum(metas, s.remove(i)) == slot_sum(metas, s) - slot_len(metas, s[i]),
    decreases s.len(),
{
    if i == s.len() - 1 {
        assert(s.remove(i) =~= s.drop_last());
    } else {
        lemma_slot_sum_remove(metas, s.drop_last(), i);
        assert(s.remove(i).drop_last() =~= s.drop_last().remove(i));
        assert(s.remove(i).last() == s.last());
    }
}

/// Distinct objects with pairwise disjoint extents inside `[0, n8)` have
/// rounded extents summing to at most `n8`: survivors always pack into
/// the space they came from.
proof fn lemma_packed_slots_fit<L>(metas: Seq<Option<Meta<L>>>, src: Seq<int>, n8: int)
    requires
        forall|i: int| 0 <= i < src.len() ==> hdr_at(metas, #[trigger] src[i]),
        forall|i: int|
            0 <= i < src.len() ==> (#[trigger] src[i]) % 8 == 0 && src[i] < obj_end(metas, src[i])
                <= n8,
        forall|i: int, j: int| 0 <= i < j < src.len() ==> src[i] != src[j],
        objs_disjoint(metas),
        n8 % 8 == 0,
        0 <= n8,
    ensures
        slot_sum(metas, src) <= n8,
    decreases src.len(),
{
    if src.len() > 0 {
        lemma_seq_max_index(src);
        let m = choose|m: int| #[trigger] is_max_at(src, m);
        let hm = src[m];
        assert forall|i: int| 0 <= i < src.len() && i != m implies obj_end(metas, #[trigger] src[i])
            <= hm by {
            assert(src[i] != hm);
            assert(obj_end(metas, src[i]) <= hm || obj_end(metas, hm) <= src[i]);
            if obj_end(metas, hm) <= src[i] {
                assert(hm < obj_end(metas, hm));
                assert(src[i] <= hm);
            }
        }
        let rest = src.remove(m);
        lemma_slot_sum_remove(metas, src, m);
        assert forall|i: int, j: int| 0 <= i < j < rest.len() implies rest[i] != rest[j] by {
            let i2: int = if i < m {
                i
            } else {
                i + 1
            };
            let j2: int = if j < m {
                j
            } else {
                j + 1
            };
            assert(rest[i] == src[i2] && rest[j] == src[j2]);
        }
        assert forall|i: int| 0 <= i < rest.len() implies hdr_at(metas, #[trigger] rest[i]) && rest[i]
            % 8 == 0 && rest[i] < obj_end(metas, rest[i]) <= hm by {
            let i2: int = if i < m {
                i
            } else {
                i + 1
            };
            assert(rest[i] == src[i2]);
            assert(i2 != m);
        }
        assert(hm % 8 == 0 && hm >= 0);
        lemma_packed_slots_fit(metas, rest, hm);
        assert(hm + slot_len(metas, hm) == align_up(obj_end(metas, hm), 8)) by {
            lemma_align_up_shift8(obj_end(metas, hm) - hm, hm);
        }
        lemma_align_up_at_most(obj_end(metas, hm), n8);
    }
}

/// One more copy advances the destination frontier by at most the
/// object's rounded extent, when its alignment is the slot alignment.
proof fn lemma_slot_step<L>(om: Seq<Option<Meta<L>>>, src: Seq<int>, j: int, f0: int, f1: int)
    requires
        hdr_at(om, j),
        hdr_of(om, j)->Header_algn == 8,
        hdr_of(om, j)->Header_off >= 8,
        0 <= f0,
        f1 == slot_end(
            f0,
            (Packing {
                size: hdr_of(om, j)->Header_size,
                align: hdr_of(om, j)->Header_algn,
            }),
        ),
        align_up(f0, 8) <= slot_sum(om, src),
    ensures
        align_up(f1, 8) <= slot_sum(om, src.push(j)),
        f1 <= slot_sum(om, src.push(j)),
{
    let sz = hdr_of(om, j)->Header_size as int;
    let off = hdr_of(om, j)->Header_off as int;
    lemma_align_up(f0, 8);
    assert(f1 == align_up(f0, 8) + 8 + sz);
    lemma_align_up_shift8(sz, align_up(f0, 8) + 8);
    assert(align_up(f1, 8) == align_up(f0, 8) + 8 + align_up(sz, 8));
    assert(slot_len(om, j) >= 8 + align_up(sz, 8)) by {
        lemma_align_up(off + sz, 8);
        lemma_align_up_at_most(8 + sz, align_up(off + sz, 8));
        lemma_align_up_shift8(sz, 8);
    }
    assert(src.push(j).drop_last() =~= src);
    assert(src.push(j).last() == j);
    lemma_align_up(f1, 8);
}

/// The objects a pass has copied (optionally with one more candidate)
/// pack into the old frontier's rounded extent.
proof fn lemma_copied_pack<L: GCLayout>(
    od: Seq<u8>,
    om: Seq<Option<Meta<L>>>,
    oroots: Seq<usize>,
    fwd: Seq<Option<Meta<L>>>,
    t: ToSpace<L>,
    f: Map<int, int>,
    src: Seq<int>,
    scan: int,
    kdone: int,
    ofree: int,
    extra: Seq<int>,
)
    requires
        cinv(od, om, oroots, fwd, t, f, src, scan, kdone),
        objs_disjoint(om),
        forall|h: int| #[trigger] hdr_at(om, h) ==> hdr_ok(om, h, ofree),
        0 <= ofree,
        extra.len() <= 1,
        forall|e: int|
            0 <= e < extra.len() ==> hdr_at(om, #[trigger] extra[e]) && !f.dom().contains(
                extra[e],
            ),
    ensures
        slot_sum(om, src + extra) <= align_up(ofree, 8),
{
    let all = src + extra;
    lemma_align_up(ofree, 8);
    assert forall|i: int, j2: int| 0 <= i < j2 < all.len() implies all[i] != all[j2] by {
        if i < src.len() && j2 < src.len() {
            if all[i] == all[j2] {
                assert(f[src[i]] == t.work@[i] as int);
                assert(f[src[j2]] == t.work@[j2] as int);
                assert(t.work@[i] != t.work@[j2]);
            }
        } else if i < src.len() {
            // a candidate is not yet forwarded, copied entries are
            assert(f.dom().contains(src[i]));
            assert(!f.dom().contains(all[j2]));
        }
    }
    assert forall|i: int| 0 <= i < all.len() implies hdr_at(om, #[trigger] all[i]) && all[i] % 8
        == 0 && all[i] < obj_end(om, all[i]) <= align_up(ofree, 8) by {
        if i < src.len() {
            assert(f.dom().contains(src[i]));
        }
        assert(hdr_at(om, all[i]));
        assert(hdr_ok(om, all[i], ofree));
    }
    lemma_packed_slots_fit(om, all, align_up(ofree, 8));
}

/// Under uniform alignment a pass with a destination at least the old
/// frontier's rounded extent never exhausts it: the failed copy would
/// contradict the packing bound.
proof fn lemma_no_exhaustion<L: GCLayout>(
    od: Seq<u8>,
    om: Seq<Option<Meta<L>>>,
    oroots: Seq<usize>,
    fwd: Seq<Option<Meta<L>>>,
    t: ToSpace<L>,
    f: Map<int, int>,
    src: Seq<int>,
    scan: int,
    kdone: int,
    ofree: int,
    j: int,
    nlen: int,
)
    requires
        cinv(od, om, oroots, fwd, t, f, src, scan, kdone),
        objs_disjoint(om),
        forall|h: int| #[trigger] hdr_at(om, h) ==> hdr_ok(om, h, ofree),
        0 <= ofree,
        uniform_align(om),
        align_up(t.free as int, 8) <= slot_sum(om, src),
        align_up(ofree, 8) <= nlen,
        hdr_at(om, j),
        !f.dom().contains(j),
    ensures
        slot_end(
            t.free as int,
            (Packing { size: hdr_of(om, j)->Header_size, align: hdr_of(om, j)->Header_algn }),
        ) <= nlen,
{
    assert(hdr_ok(om, j, ofree));
    let fend = slot_end(
        t.free as int,
        (Packing { size: hdr_of(om, j)->Header_size, align: hdr_of(om, j)->Header_algn }),
    );
    lemma_slot_step(om, src, j, t.free as int, fend);
    lemma_copied_pack(od, om, oroots, fwd, t, f, src, scan, kdone, ofree, seq![j]);
    assert(src.push(j) =~= src + seq![j]);
}

/// The identity map over the live headers of `m`.
pub open spec fn ident<L>(m: Seq<Option<Meta<L>>>) -> Map<int, int> {
    Map::new(|j: int| hdr_at(m, j), |j: int| j)
}

/// An arena whose objects did not move is related to itself by the
/// identity relocation; used on the allocation fast path, where no
/// collection runs.
proof fn lemma_relocation_identity<L: GCLayout>(
    od: Seq<u8>,
    om: Seq<Option<Meta<L>>>,
    roots: Seq<usize>,
    nm: Seq<Option<Meta<L>>>,
)
    requires
        refs_closed_parts(od, om),
        forall|i: int| 0 <= i < roots.len() ==> hdr_at(om, #[trigger] roots[i] as int),
        om.len() <= usize::MAX,
        forall|h: int| #[trigger] hdr_at(om, h) ==> 0 <= obj_pay(om, h) && obj_end(om, h) <= od.len(),
        forall|j: int| #[trigger] hdr_at(om, j) ==> hdr_at(nm, j) && hdr_of(nm, j) == hdr_of(om, j),
    ensures
        relocation(od, om, roots, od, nm, roots, ident(om)),
{
    let f = ident(om);
    lemma_auto_spec_u64_to_from_le_bytes();
    assert forall|j: int| #[trigger] f.dom().contains(j) implies fields_preserved(om, nm, j, f[j])
        && payload_done(od, om, od, nm, f, j, f[j]) by {
        let slots = obj_tag(om, j).ref_slots();
        let op = obj_pay(om, j);
        assert(obj_pay(nm, j) == op);
        assert forall|k: int| 0 <= k < slots.len() implies f.dom().contains(
            #[trigger] slot_val(od, om, j, k),
        ) by {
            assert(hdr_at(om, slot_val(od, om, j, k)));
        }
        assert forall|k: int| 0 <= k < slots.len() implies od.subrange(
            op + #[trigger] slots[k],
            op + slots[k] + 8,
        ) == spec_u64_to_le_bytes(f[slot_val(od, om, j, k)] as u64) by {
            let bytes = od.subrange(op + slots[k], op + slots[k] + 8);
            assert(bytes.len() == 8);
            assert(slot_val(od, om, j, k) == spec_u64_from_le_bytes(bytes) as int);
            assert(f[slot_val(od, om, j, k)] as u64 == spec_u64_from_le_bytes(bytes));
            assert(spec_u64_to_le_bytes(spec_u64_from_le_bytes(bytes)) == bytes);
        }
    }
}

/// The arena: owns exactly one live buffer, a monotone allocation
/// frontier, and the ordered root set that seeds every collection.
pub struct GC<L> {
    data: Vec<u8>,
    meta: Vec<Option<Meta<L>>>,
    free: usize,
    root: Vec<usize>,
}

impl<L> GC<L> {
    pub closed spec fn bytes(&self) -> Seq<u8> {
        self.data@
    }

    pub closed spec fn metas(&self) -> Seq<Option<Meta<L>>> {
        self.meta@
    }

    pub closed spec fn frontier(&self) -> usize {
        self.free
    }

    pub closed spec fn roots(&self) -> Seq<usize> {
        self.root@
    }

    pub open spec fn cap(&self) -> nat {
        self.bytes().len()
    }

    /// The metadata offset `m` names a live object of this arena.
    pub open spec fn is_live(&self, m: usize) -> bool {
        hdr_at(self.metas(), m as int)
    }
}

impl<L: GCLayout> GC<L> {
    pub open spec fn wf(&self) -> bool {
        wf_parts(self.bytes(), self.metas(), self.frontier() as int, self.roots())
    }

    pub open spec fn refs_closed(&self) -> bool {
        refs_closed_parts(self.bytes(), self.metas())
    }

    /// A fresh arena of `size` zeroed bytes, no objects, no roots.
    pub fn new(size: usize) -> (gc: GC<L>)
        requires
            size <= CAP_MAX,
        ensures
            gc.wf(),
            gc.refs_closed(),
            gc.cap() == size,
            gc.frontier() == 0,
            gc.roots() =~= Seq::<usize>::empty(),
            forall|h: int| !hdr_at(gc.metas(), h),
    {
        let data = zero_bytes(size);
        let meta = none_metas::<L>(size);
        let gc = GC { data, meta, free: 0, root: vec![] };
        proof {
            assert(forall|h: int| !hdr_at(gc.metas(), h));
        }
        gc
    }

    /// Number of bytes in the live buffer.
    pub fn capacity(&self) -> (n: usize)
        ensures
            n == self.cap(),
    {
        self.data.len()
    }

    /// Current allocation frontier: bytes below it are in use.
    pub fn used(&self) -> (n: usize)
        ensures
            n == self.frontier(),
    {
        self.free
    }

    /// Register a metadata offset whose object must survive every
    /// collection; the entry is rewritten to the relocated offset by each
    /// collection pass.
    pub fn register_root(&mut self, m: usize)
        requires
            old(self).wf(),
            old(self).is_live(m),
        ensures
            final(self).wf(),
            final(self).roots() == old(self).roots().push(m),
            final(self).bytes() == old(self).bytes(),
            final(self).metas() == old(self).metas(),
            final(self).frontier() == old(self).frontier(),
    {
        self.root.push(m);
    }

    pub fn root_count(&self) -> (n: usize)
        ensures
            n == self.roots().len(),
    {
        self.root.len()
    }

    /// The current metadata offset of root `i`; re-read it after any
    /// operation that may have triggered a collection.
    pub fn root_at(&self, i: usize) -> (m: usize)
        requires
            i < self.roots().len(),
        ensures
            m == self.roots()[i as int],
    {
        self.root[i]
    }

    /// Resolve a metadata offset to its object's payload offset.
    ///
    /// A live buffer holds no forwarding markers (they exist only in the
    /// stale buffer in the middle of a collection pass, where the collector
    /// itself resolves them), so resolution takes a single step here.
    pub fn fetch(&self, m: usize) -> (r: usize)
        requires
            self.wf(),
            self.is_live(m),
        ensures
            r as int == obj_pay(self.metas(), m as int),
            r as int % obj_algn(self.metas(), m as int) == 0,
            r + obj_size(self.metas(), m as int) <= self.frontier(),
    {
        match self.meta[m] {
            Some(Meta::Header { off, .. }) => m + off as usize,
            _ => unreached(),
        }
    }

    /// One byte of the live buffer.
    pub fn read_byte(&self, i: usize) -> (b: u8)
        requires
            i < self.cap(),
        ensures
            b == self.bytes()[i as int],
    {
        self.data[i]
    }

    /// Overwrite one byte of the live buffer. Object payloads are written
    /// through this interface; the metadata slots are not byte-addressed,
    /// so no write can corrupt a header.
    pub fn write_byte(&mut self, i: usize, b: u8)
        requires
            old(self).wf(),
            i < old(self).cap(),
        ensures
            final(self).wf(),
            final(self).bytes() == old(self).bytes().update(i as int, b),
            final(self).metas() == old(self).metas(),
            final(self).frontier() == old(self).frontier(),
            final(self).roots() == old(self).roots(),
    {
        self.data.set(i, b);
    }

    /// Read the eight little-endian bytes at `at` as one value; interior
    /// reference slots are read this way.
    pub fn read_u64(&self, at: usize) -> (v: u64)
        requires
            at + 8 <= self.cap(),
        ensures
            v == spec_u64_from_le_bytes(self.bytes().subrange(at as int, at + 8)),
    {
        vec_read_u64(&self.data, at)
    }

    /// Write `v` as eight little-endian bytes at `at`; interior reference
    /// slots are written this way.
    pub fn write_u64(&mut self, at: usize, v: u64)
        requires
            old(self).wf(),
            at + 8 <= old(self).cap(),
        ensures
            final(self).wf(),
            final(self).bytes() =~= splice8(old(self).bytes(), at as int, spec_u64_to_le_bytes(v)),
            spec_u64_from_le_bytes(final(self).bytes().subrange(at as int, at + 8)) == v,
            final(self).metas() == old(self).metas(),
            final(self).frontier() == old(self).frontier(),
            final(self).roots() == old(self).roots(),
    {
        proof {
            lemma_auto_spec_u64_to_from_le_bytes();
        }
        vec_write_u64(&mut self.data, at, v);
    }
}

/// A `u8` tag describes a leaf payload: no interior references. This is
/// the simplest embedding: the tag byte itself is an opaque marker.
impl GCLayout for u8 {
    open spec fn ref_slots(&self) -> Seq<usize> {
        Seq::empty()
    }

    proof fn ref_slots_finite(&self) {
    }

    fn get_ref(&self, i: usize) -> (r: Option<usize>) {
        None
    }
}

/// A small closed set of shape descriptors: a leaf payload, or a payload
/// with two interior reference slots at the given byte offsets.
#[derive(Clone, Copy, Debug, PartialEq, Eq, Structural)]
pub enum Shape {
    Leaf,
    Pair { first: usize, second: usize },
}

impl GCLayout for Shape {
    open spec fn ref_slots(&self) -> Seq<usize> {
        match *self {
            Shape::Leaf => Seq::empty(),
            Shape::Pair { first, second } => seq![first, second],
        }
    }

    proof fn ref_slots_finite(&self) {
    }

    fn get_ref(&self, i: usize) -> (r: Option<usize>) {
        match *self {
            Shape::Leaf => None,
            Shape::Pair { first, second } => {
                if i == 0 {
                    Some(first)
                } else if i == 1 {
                    Some(second)
                } else {
                    None
                }
            },
        }
    }
}

/// Law: in a well-formed arena every live object's payload is aligned to
/// its header's alignment, lies inside the used part of the buffer, and
/// is disjoint from every other live object's payload range — so in
/// particular for a metadata offset a fresh allocation returned.
pub proof fn lemma_payloads_disjoint<L: GCLayout>(gc: GC<L>, m1: usize, m2: usize)
    requires
        gc.wf(),
        gc.is_live(m1),
        gc.is_live(m2),
        m1 != m2,
    ensures
        obj_pay(gc.metas(), m1 as int) % obj_algn(gc.metas(), m1 as int) == 0,
        0 <= obj_pay(gc.metas(), m1 as int),
        obj_end(gc.metas(), m1 as int) <= gc.frontier(),
        obj_end(gc.metas(), m1 as int) <= obj_pay(gc.metas(), m2 as int) || obj_end(
            gc.metas(),
            m2 as int,
        ) <= obj_pay(gc.metas(), m1 as int),
{
    assert(hdr_ok(gc.metas(), m1 as int, gc.frontier() as int));
    assert(hdr_ok(gc.metas(), m2 as int, gc.frontier() as int));
    assert(obj_end(gc.metas(), m1 as int) <= m2 as int || obj_end(gc.metas(), m2 as int)
        <= m1 as int);
}

/// Law: an object whose tag enumerates no reference slots survives a
/// collection with a byte-identical payload at its relocated address.
pub proof fn lemma_leaf_payload_preserved<L: GCLayout>(
    od: Seq<u8>,
    om: Seq<Option<Meta<L>>>,
    oroots: Seq<usize>,
    nd: Seq<u8>,
    nm: Seq<Option<Meta<L>>>,
    nroots: Seq<usize>,
    f: Map<int, int>,
    j: int,
    p: int,
)
    requires
        relocation(od, om, oroots, nd, nm, nroots, f),
        f.dom().contains(j),
        obj_tag(om, j).ref_slots().len() == 0,
        0 <= p < obj_size(om, j),
    ensures
        nd[obj_pay(nm, f[j]) + p] == od[obj_pay(om, j) + p],
{
    assert(payload_done(od, om, nd, nm, f, j, f[j]));
    assert(!in_slot(obj_tag(om, j).ref_slots(), p));
}

/// Law: the content of every root's leaf object is preserved across a
/// collection — the bytes reached through the rewritten root entry equal
/// the bytes reached through the old entry.
pub proof fn lemma_root_content_preserved<L: GCLayout>(
    od: Seq<u8>,
    om: Seq<Option<Meta<L>>>,
    oroots: Seq<usize>,
    nd: Seq<u8>,
    nm: Seq<Option<Meta<L>>>,
    nroots: Seq<usize>,
    f: Map<int, int>,
    i: int,
    p: int,
)
    requires
        relocation(od, om, oroots, nd, nm, nroots, f),
        0 <= i < oroots.len(),
        obj_tag(om, oroots[i] as int).ref_slots().len() == 0,
        0 <= p < obj_size(om, oroots[i] as int),
    ensures
        nd[obj_pay(nm, nroots[i] as int) + p] == od[obj_pay(om, oroots[i] as int) + p],
{
    lemma_leaf_payload_preserved(od, om, oroots, nd, nm, nroots, f, oroots[i] as int, p);
}

/// Law: an object reachable through two distinct interior slots (of the
/// same or different surviving objects) is copied exactly once — both
/// rewritten slots hold one and the same relocated offset, namely the
/// forwarding map's single image of the shared target.
pub proof fn lemma_shared_target_single_copy<L: GCLayout>(
    od: Seq<u8>,
    om: Seq<Option<Meta<L>>>,
    oroots: Seq<usize>,
    nd: Seq<u8>,
    nm: Seq<Option<Meta<L>>>,
    nroots: Seq<usize>,
    f: Map<int, int>,
    j1: int,
    k1: int,
    j2: int,
    k2: int,
)
    requires
        relocation(od, om, oroots, nd, nm, nroots, f),
        f.dom().contains(j1),
        f.dom().contains(j2),
        0 <= k1 < obj_tag(om, j1).ref_slots().len(),
        0 <= k2 < obj_tag(om, j2).ref_slots().len(),
        slot_val(od, om, j1, k1) == slot_val(od, om, j2, k2),
    ensures
        nd.subrange(
            obj_pay(nm, f[j1]) + obj_tag(om, j1).ref_slots()[k1],
            obj_pay(nm, f[j1]) + obj_tag(om, j1).ref_slots()[k1] + 8,
        ) == spec_u64_to_le_bytes(f[slot_val(od, om, j1, k1)] as u64),
        nd.subrange(
            obj_pay(nm, f[j2]) + obj_tag(om, j2).ref_slots()[k2],
            obj_pay(nm, f[j2]) + obj_tag(om, j2).ref_slots()[k2] + 8,
        ) == nd.subrange(
            obj_pay(nm, f[j1]) + obj_tag(om, j1).ref_slots()[k1],
            obj_pay(nm, f[j1]) + obj_tag(om, j1).ref_slots()[k1] + 8,
        ),
{
    assert(payload_done(od, om, nd, nm, f, j1, f[j1]));
    assert(payload_done(od, om, nd, nm, f, j2, f[j2]));
}

proof fn lemma_reached_in_dom<L: GCLayout>(
    od: Seq<u8>,
    om: Seq<Option<Meta<L>>>,
    oroots: Seq<usize>,
    nd: Seq<u8>,
    nm: Seq<Option<Meta<L>>>,
    nroots: Seq<usize>,
    f: Map<int, int>,
    h: int,
    n: nat,
)
    requires
        relocation(od, om, oroots, nd, nm, nroots, f),
        reached_in(od, om, oroots, h, n),
    ensures
        f.dom().contains(h),
    decreases n,
{
    if n == 0 {
        let i = choose|i: int| 0 <= i < oroots.len() && oroots[i] == h;
        assert(f.dom().contains(oroots[i] as int));
    } else if reached_in(od, om, oroots, h, (n - 1) as nat) {
        lemma_reached_in_dom(od, om, oroots, nd, nm, nroots, f, h, (n - 1) as nat);
    } else {
        let (p, k) = choose|p: int, k: int|
            reached_in(od, om, oroots, p, (n - 1) as nat) && hdr_at(om, p) && 0 <= k < obj_tag(
                om,
                p,
            ).ref_slots().len() && #[trigger] slot_val(od, om, p, k) == h;
        lemma_reached_in_dom(od, om, oroots, nd, nm, nroots, f, p, (n - 1) as nat);
        assert(payload_done(od, om, nd, nm, f, p, f[p]));
    }
}

/// Law: every object reachable from the root set via reference
/// enumeration survives a collection — with `only_reachable`, the
/// forwarding map's domain is exactly the reachable set, so the
/// post-collection buffer holds the reachable objects and nothing else.
pub proof fn lemma_reachable_survives<L: GCLayout>(
    od: Seq<u8>,
    om: Seq<Option<Meta<L>>>,
    oroots: Seq<usize>,
    nd: Seq<u8>,
    nm: Seq<Option<Meta<L>>>,
    nroots: Seq<usize>,
    f: Map<int, int>,
    h: int,
)
    requires
        relocation(od, om, oroots, nd, nm, nroots, f),
        reached(od, om, oroots, h),
    ensures
        f.dom().contains(h),
        hdr_at(nm, f[h]),
{
    let n = choose|n: nat| reached_in(od, om, oroots, h, n);
    lemma_reached_in_dom(od, om, oroots, nd, nm, nroots, f, h, n);
}

/// A vector of `n` zero bytes.
fn zero_bytes(n: usize) -> (v: Vec<u8>)
    ensures
        v@ =~= Seq::new(n as nat, |i: int| 0u8),
{
    let mut v: Vec<u8> = Vec::new();
    for p in 0..n
        invariant
            v@ =~= Seq::new(p as nat, |i: int| 0u8),
    {
        v.push(0);
        proof {
            assert(v@ =~= Seq::new((p + 1) as nat, |i: int| 0u8));
        }
    }
    v
}

/// A vector of `n` empty metadata slots.
fn none_metas<L>(n: usize) -> (v: Vec<Option<Meta<L>>>)
    ensures
        v@ =~= Seq::new(n as nat, |i: int| None::<Meta<L>>),
{
    let mut v: Vec<Option<Meta<L>>> = Vec::new();
    for p in 0..n
        invariant
            v@ =~= Seq::new(p as nat, |i: int| None::<Meta<L>>),
    {
        v.push(None);
        proof {
            assert(v@ =~= Seq::new((p + 1) as nat, |i: int| None::<Meta<L>>));
        }
    }
    v
}

/// Read the eight little-endian bytes at `at` of `d` as one value.
fn vec_read_u64(d: &Vec<u8>, at: usize) -> (v: u64)
    requires
        at + 8 <= d@.len(),
    ensures
        v == spec_u64_from_le_bytes(d@.subrange(at as int, at + 8)),
{
    let n = d.len();
    let mut tmp: Vec<u8> = Vec::new();
    for p in 0..8usize
        invariant
            at + 8 <= n == d@.len() <= usize::MAX,
            tmp@ =~= d@.subrange(at as int, at + p),
    {
        tmp.push(d[at + p]);
        proof {
            assert(tmp@ =~= d@.subrange(at as int, at + p + 1));
        }
    }
    vstd::bytes::u64_from_le_bytes(tmp.as_slice())
}

/// Write `v` as eight little-endian bytes into `d` at `at`.
fn vec_write_u64(d: &mut Vec<u8>, at: usize, v: u64)
    requires
        at + 8 <= old(d)@.len(),
    ensures
        final(d)@ =~= splice8(old(d)@, at as int, spec_u64_to_le_bytes(v)),
        final(d)@.len() == old(d)@.len(),
        final(d)@.subrange(at as int, at + 8) == spec_u64_to_le_bytes(v),
        forall|j: int|
            0 <= j < old(d)@.len() && !(at <= j < at + 8) ==> final(d)@[j] == old(d)@[j],
{
    proof {
        lemma_auto_spec_u64_to_from_le_bytes();
    }
    let bs = vstd::bytes::u64_to_le_bytes(v);
    let n = d.len();
    let ghost start = d@;
    for p in 0..8usize
        invariant
            at + 8 <= n == start.len() <= usize::MAX,
            bs@ == spec_u64_to_le_bytes(v),
            bs@.len() == 8,
            d@.len() == start.len(),
            start == old(d)@,
            forall|j: int|
                0 <= j < start.len() ==> d@[j] == if at <= j < at + p {
                    bs@[j - at]
                } else {
                    start[j]
                },
    {
        d.set(at + p, bs[p]);
    }
    proof {
        assert(d@ =~= splice8(start, at as int, spec_u64_to_le_bytes(v)));
        assert(d@.subrange(at as int, at + 8) =~= spec_u64_to_le_bytes(v));
    }
}

/// An element-wise copy of a metadata vector: the working copy of the
/// stale space that forwarding markers are written into during a pass.
fn clone_metas<L: GCLayout>(v: &Vec<Option<Meta<L>>>) -> (r: Vec<Option<Meta<L>>>)
    ensures
        r@ =~= v@,
{
    let n = v.len();
    let mut r: Vec<Option<Meta<L>>> = Vec::new();
    for p in 0..n
        invariant
            n == v@.len(),
            r@ =~= v@.subrange(0, p as int),
    {
        r.push(v[p]);
        proof {
            assert(r@ =~= v@.subrange(0, p + 1));
        }
    }
    proof {
        assert(v@.subrange(0, n as int) =~= v@);
    }
    r
}

/// The destination space a collection pass copies into: its buffer, its
/// metadata, its write frontier, and the ordered list of copied objects
/// that the scan frontier walks.
struct ToSpace<L> {
    data: Vec<u8>,
    meta: Vec<Option<Meta<L>>>,
    free: usize,
    work: Vec<usize>,
}

/// Structural invariant of the destination space: every copied object is
/// on the work list exactly once, every header is sound against the write
/// frontier, extents are disjoint, and no forwarding markers exist here.
spec fn tinv<L: GCLayout>(t: ToSpace<L>) -> bool {
    &&& t.data@.len() == t.meta@.len()
    &&& t.data@.len() <= CAP_MAX
    &&& 0 <= t.free <= t.data@.len()
    &&& forall|i: int|
        0 <= i < t.work@.len() ==> hdr_at(t.meta@, #[trigger] t.work@[i] as int) && hdr_ok(
            t.meta@,
            t.work@[i] as int,
            t.free as int,
        )
    &&& forall|h: int| #[trigger]
        hdr_at(t.meta@, h) ==> exists|i: int| 0 <= i < t.work@.len() && t.work@[i] == h
    &&& objs_disjoint(t.meta@)
    &&& forall|i: int|
        0 <= i < t.meta@.len() && #[trigger] t.meta@[i] is Some ==> t.meta@[i]->Some_0 is Header
    &&& forall|i1: int, i2: int|
        0 <= i1 < i2 < t.work@.len() ==> #[trigger] t.work@[i1] != #[trigger] t.work@[i2]
    &&& 16 * t.work@.len() <= t.free
}

/// Copy one object into the destination space: bump-allocate an
/// equivalent region, copy the payload bytes verbatim, append the copy to
/// the work list. Fails only if the destination is exhausted, in which
/// case nothing changes.
fn transfer<L: GCLayout>(
    old_data: &Vec<u8>,
    opay: usize,
    sz: u8,
    al: u8,
    tag: L,
    t: &mut ToSpace<L>,
) -> (r: Option<usize>)
    requires
        tinv(*old(t)),
        opay + sz <= old_data@.len(),
        old_data@.len() <= CAP_MAX,
        is_pow2(al as int),
        al >= 8,
        sz >= 8,
    ensures
        r is None ==> *final(t) == *old(t) && slot_end(
            old(t).free as int,
            (Packing { size: sz, align: al }),
        ) > old(t).data@.len(),
        r matches Some(w) ==> {
            &&& tinv(*final(t))
            &&& final(t).data@.len() == old(t).data@.len()
            &&& final(t).work@ == old(t).work@.push(w)
            &&& old(t).free < w + 16 <= final(t).free
            &&& final(t).free as int == slot_end(
                old(t).free as int,
                (Packing { size: sz, align: al }),
            )
            &&& old(t).free <= w
            &&& final(t).meta@ == old(t).meta@.update(
                w as int,
                Some(
                    Meta::Header {
                        off: (obj_pay(final(t).meta@, w as int) - w) as u8,
                        size: sz,
                        algn: al,
                        tag,
                    },
                ),
            )
            &&& hdr_at(final(t).meta@, w as int)
            &&& obj_size(final(t).meta@, w as int) == sz
            &&& obj_algn(final(t).meta@, w as int) == al
            &&& obj_tag(final(t).meta@, w as int) == tag
            &&& obj_end(final(t).meta@, w as int) == final(t).free
            &&& final(t).data@.subrange(
                obj_pay(final(t).meta@, w as int),
                obj_end(final(t).meta@, w as int),
            ) == old_data@.subrange(opay as int, opay + sz)
            &&& forall|j: int|
                0 <= j < old(t).data@.len() && !(obj_pay(final(t).meta@, w as int) <= j < obj_end(
                    final(t).meta@,
                    w as int,
                )) ==> final(t).data@[j] == old(t).data@[j]
        },
{
    let k = Packing::raw(sz, al);
    let cap = t.data.len();
    let ghost m0 = t.meta@;
    let res = alloc_after(t.free, cap, &mut t.meta, tag, k);
    match res {
        None => None,
        Some((end, hdr)) => {
            let off_usize = {
                match t.meta[hdr] {
                    Some(Meta::Header { off, .. }) => off as usize,
                    _ => unreached(),
                }
            };
            let npay = hdr + off_usize;
            proof {
                assert(npay == slot_pay(old(t).free as int, k));
                assert(npay + sz == end);
            }
            let ghost d0 = t.data@;
            let ghost m1 = t.meta@;
            let mut p: usize = 0;
            while p < sz as usize
                invariant
                    p <= sz,
                    t.meta@ == m1,
                    t.free == old(t).free,
                    t.work@ == old(t).work@,
                    npay + sz <= d0.len(),
                    opay + sz <= old_data@.len(),
                    old_data@.len() <= CAP_MAX,
                    d0.len() <= CAP_MAX,
                    t.data@.len() == d0.len(),
                    forall|j: int|
                        0 <= j < d0.len() && !(npay <= j < npay + p) ==> t.data@[j] == d0[j],
                    forall|q: int| 0 <= q < p ==> #[trigger] t.data@[npay + q] == old_data@[opay + q],
                decreases sz - p,
            {
                t.data.set(npay + p, old_data[opay + p]);
                p = p + 1;
            }
            t.free = end;
            t.work.push(hdr);
            proof {
                let w = hdr as int;
                assert(obj_pay(t.meta@, w) == npay);
                assert(obj_end(t.meta@, w) == end);
                assert forall|q: int| 0 <= q < sz implies t.data@.subrange(
                    npay as int,
                    end as int,
                )[q] == old_data@.subrange(opay as int, opay + sz)[q] by {
                    assert(t.data@[npay + q] == old_data@[opay + q]);
                }
                assert(t.data@.subrange(npay as int, end as int) =~= old_data@.subrange(
                    opay as int,
                    opay + sz,
                ));
                // the new extent begins at or after the old frontier, so
                // every pre-existing object is untouched and distinct
                assert forall|h: int| #[trigger] hdr_at(t.meta@, h) implies exists|i: int|
                    0 <= i < t.work@.len() && t.work@[i] == h by {
                    if h == w {
                        assert(t.work@[t.work@.len() - 1] == hdr);
                    } else {
                        assert(hdr_at(m0, h));
                        let i = choose|i: int| 0 <= i < old(t).work@.len() && old(t).work@[i] == h;
                        assert(t.work@[i] == h);
                    }
                }
                assert forall|h1: int, h2: int|
                    hdr_at(t.meta@, h1) && hdr_at(t.meta@, h2) && h1 != h2 implies #[trigger] obj_end(
                    t.meta@,
                    h1,
                ) <= h2 || #[trigger] obj_end(t.meta@, h2) <= h1 by {
                    if h1 != w && h2 != w {
                        assert(hdr_at(m0, h1) && hdr_at(m0, h2));
                        assert(obj_end(m0, h1) <= h2 || obj_end(m0, h2) <= h1);
                    } else if h1 == w {
                        assert(hdr_at(m0, h2));
                        assert(obj_end(m0, h2) <= old(t).free);
                    } else {
                        assert(hdr_at(m0, h1));
                        assert(obj_end(m0, h1) <= old(t).free);
                    }
                }
                assert(tinv(*t));
            }
            Some(hdr)
        },
    }
}

/// A payload relation is stable under changes elsewhere in the
/// destination: growing the forwarding map and writing bytes outside the
/// copy's extent leave it intact.
proof fn lemma_payload_part_stable<L: GCLayout>(
    od: Seq<u8>,
    om: Seq<Option<Meta<L>>>,
    nd1: Seq<u8>,
    nm1: Seq<Option<Meta<L>>>,
    f1: Map<int, int>,
    nd2: Seq<u8>,
    nm2: Seq<Option<Meta<L>>>,
    f2: Map<int, int>,
    j: int,
    w: int,
    kdone: int,
)
    requires
        payload_part(od, om, nd1, nm1, f1, j, w, kdone),
        hdr_at(nm1, w),
        hdr_at(nm2, w),
        hdr_of(nm2, w) == hdr_of(nm1, w),
        nd2.len() == nd1.len(),
        obj_pay(nm1, w) >= 0,
        obj_pay(nm1, w) + obj_size(om, j) <= nd1.len(),
        forall|p: int|
            obj_pay(nm1, w) <= p < obj_pay(nm1, w) + obj_size(om, j) ==> #[trigger] nd2[p]
                == nd1[p],
        forall|x: int| #[trigger] f1.dom().contains(x) ==> f2.dom().contains(x) && f2[x] == f1[x],
        forall|k: int|
            0 <= k < obj_tag(om, j).ref_slots().len() ==> #[trigger] obj_tag(om, j).ref_slots()[k]
                + 8 <= obj_size(om, j),
        0 <= kdone <= obj_tag(om, j).ref_slots().len(),
    ensures
        payload_part(od, om, nd2, nm2, f2, j, w, kdone),
{
    let slots = obj_tag(om, j).ref_slots();
    let np = obj_pay(nm1, w);
    let op = obj_pay(om, j);
    let sz = obj_size(om, j);
    assert(obj_pay(nm2, w) == np);
    assert forall|p: int| 0 <= p < sz && !in_slot(slots, p) implies #[trigger] nd2[np + p] == od[op
        + p] by {
        assert(nd2[np + p] == nd1[np + p]);
    }
    assert forall|k: int| 0 <= k < kdone implies f2.dom().contains(
        #[trigger] slot_val(od, om, j, k),
    ) && f2[slot_val(od, om, j, k)] == f1[slot_val(od, om, j, k)] by {
        assert(f1.dom().contains(slot_val(od, om, j, k)));
    }
    assert forall|k: int| 0 <= k < slots.len() implies nd2.subrange(
        np + #[trigger] slots[k],
        np + slots[k] + 8,
    ) == nd1.subrange(np + slots[k], np + slots[k] + 8) by {
        assert forall|q: int| 0 <= q < 8 implies #[trigger] nd2.subrange(
            np + slots[k],
            np + slots[k] + 8,
        )[q] == nd1.subrange(np + slots[k], np + slots[k] + 8)[q] by {
            let pp = slots[k] + q;
            assert(nd2[np + pp] == nd1[np + pp]);
            assert(nd2.subrange(np + slots[k], np + slots[k] + 8)[q] == nd2[np + pp]);
            assert(nd1.subrange(np + slots[k], np + slots[k] + 8)[q] == nd1[np + pp]);
        }
        assert(nd2.subrange(np + slots[k], np + slots[k] + 8) =~= nd1.subrange(
            np + slots[k],
            np + slots[k] + 8,
        ));
    }
}

/// A verbatim copy of a payload satisfies the payload relation with no
/// slots rewritten yet.
proof fn lemma_payload_verbatim<L: GCLayout>(
    od: Seq<u8>,
    om: Seq<Option<Meta<L>>>,
    nd: Seq<u8>,
    nm: Seq<Option<Meta<L>>>,
    f: Map<int, int>,
    j: int,
    w: int,
)
    requires
        hdr_at(om, j),
        hdr_at(nm, w),
        0 <= obj_pay(om, j),
        obj_end(om, j) <= od.len(),
        0 <= obj_pay(nm, w),
        obj_pay(nm, w) + obj_size(om, j) <= nd.len(),
        nd.subrange(obj_pay(nm, w), obj_pay(nm, w) + obj_size(om, j)) == od.subrange(
            obj_pay(om, j),
            obj_end(om, j),
        ),
        forall|k: int|
            0 <= k < obj_tag(om, j).ref_slots().len() ==> #[trigger] obj_tag(om, j).ref_slots()[k]
                + 8 <= obj_size(om, j),
    ensures
        payload_part(od, om, nd, nm, f, j, w, 0),
{
    let slots = obj_tag(om, j).ref_slots();
    let op = obj_pay(om, j);
    let np = obj_pay(nm, w);
    let sz = obj_size(om, j);
    assert forall|p: int| 0 <= p < sz implies #[trigger] nd[np + p] == od[op + p] by {
        assert(nd.subrange(np, np + sz)[p] == od.subrange(op, op + sz)[p]);
    }
    assert forall|k: int| 0 <= k < slots.len() implies nd.subrange(
        np + #[trigger] slots[k],
        np + slots[k] + 8,
    ) == od.subrange(op + slots[k], op + slots[k] + 8) by {
        assert forall|q: int| 0 <= q < 8 implies #[trigger] nd.subrange(
            np + slots[k],
            np + slots[k] + 8,
        )[q] == od.subrange(op + slots[k], op + slots[k] + 8)[q] by {
            let pp = slots[k] + q;
            assert(nd.subrange(np, np + sz)[pp] == od.subrange(op, op + sz)[pp]);
            assert(nd.subrange(np + slots[k], np + slots[k] + 8)[q] == nd[np + pp]);
            assert(od.subrange(op + slots[k], op + slots[k] + 8)[q] == od[op + pp]);
        }
        assert(nd.subrange(np + slots[k], np + slots[k] + 8) =~= od.subrange(
            op + slots[k],
            op + slots[k] + 8,
        ));
    }
}

/// Invariant of a collection pass over old space `od`/`om`, the working
/// copy `fwd` of the old metadata that forwarding markers are written
/// into, the destination `t`, the forwarding map `f`, and the old offsets
/// `src` of the copied objects, aligned index by index with `t.work`.
/// Objects before `scan` on the work list are fully processed; the one at
/// `scan` has its first `kdone` slots rewritten; later ones are verbatim.
spec fn cinv<L: GCLayout>(
    od: Seq<u8>,
    om: Seq<Option<Meta<L>>>,
    oroots: Seq<usize>,
    fwd: Seq<Option<Meta<L>>>,
    t: ToSpace<L>,
    f: Map<int, int>,
    src: Seq<int>,
    scan: int,
    kdone: int,
) -> bool {
    &&& tinv(t)
    &&& only_reachable(od, om, oroots, f)
    &&& fwd.len() == om.len()
    &&& forall|j: int|
        0 <= j < fwd.len() ==> (#[trigger] fwd[j] == om[j] || (hdr_at(om, j)
            && f.dom().contains(j) && fwd[j] == Some(Meta::Forward::<L> { to: f[j] as usize })))
    &&& forall|j: int| #[trigger]
        f.dom().contains(j) ==> {
            &&& hdr_at(om, j)
            &&& 0 <= f[j] <= usize::MAX
            &&& fwd[j] == Some(Meta::Forward::<L> { to: f[j] as usize })
        }
    &&& src.len() == t.work@.len()
    &&& forall|i: int|
        0 <= i < src.len() ==> f.dom().contains(#[trigger] src[i]) && f[src[i]] == t.work@[i] as int
    &&& forall|j: int| #[trigger]
        f.dom().contains(j) ==> exists|i: int| 0 <= i < src.len() && src[i] == j
    &&& forall|i: int|
        0 <= i < src.len() ==> fields_preserved(om, t.meta@, #[trigger] src[i], t.work@[i] as int)
    &&& 0 <= scan <= src.len()
    &&& forall|i: int|
        0 <= i < scan ==> payload_done(od, om, t.data@, t.meta@, f, #[trigger] src[i], t.work@[i] as int)
    &&& (scan < src.len() ==> payload_part(
        od,
        om,
        t.data@,
        t.meta@,
        f,
        src[scan],
        t.work@[scan] as int,
        kdone,
    ))
    &&& (scan < src.len() ==> 0 <= kdone <= obj_tag(om, src[scan]).ref_slots().len())
    &&& forall|i: int|
        scan < i < src.len() ==> payload_part(
            od,
            om,
            t.data@,
            t.meta@,
            f,
            #[trigger] src[i],
            t.work@[i] as int,
            0,
        )
}

/// Resolve one old-space object to its copy in the destination space: if
/// its metadata already holds a forwarding marker the object was copied
/// before and the marker's target is returned (this is what guarantees a
/// single copy per object); otherwise the object is copied now, the stale
/// header is overwritten with a forwarding marker, and the forwarding map
/// records the move. Fails only on destination exhaustion, changing
/// nothing.
fn relocate_one<L: GCLayout>(
    old_data: &Vec<u8>,
    om: Ghost<Seq<Option<Meta<L>>>>,
    oroots: Ghost<Seq<usize>>,
    fwd: &mut Vec<Option<Meta<L>>>,
    j: usize,
    t: &mut ToSpace<L>,
    f: Ghost<Map<int, int>>,
    src: Ghost<Seq<int>>,
    scan: Ghost<int>,
    kdone: Ghost<int>,
) -> (r: Option<(usize, Ghost<Map<int, int>>, Ghost<Seq<int>>)>)
    requires
        cinv(old_data@, om@, oroots@, old(fwd)@, *old(t), f@, src@, scan@, kdone@),
        reached(old_data@, om@, oroots@, j as int),
        refs_closed_parts(old_data@, om@),
        forall|h: int| #[trigger] hdr_at(om@, h) ==> hdr_ok(om@, h, old_data@.len() as int),
        old_data@.len() <= CAP_MAX,
        hdr_at(om@, j as int),
        scan@ == src@.len() ==> kdone@ == 0,
    ensures
        r is None ==> {
            &&& *final(t) == *old(t)
            &&& *final(fwd) == *old(fwd)
            &&& !f@.dom().contains(j as int)
            &&& slot_end(
                old(t).free as int,
                (Packing {
                    size: hdr_of(om@, j as int)->Header_size,
                    align: hdr_of(om@, j as int)->Header_algn,
                }),
            ) > old(t).data@.len()
        },
        r matches Some((w, f1, src1)) ==> {
            &&& cinv(old_data@, om@, oroots@, final(fwd)@, *final(t), f1@, src1@, scan@, kdone@)
            &&& forall|x: int| #[trigger]
                f@.dom().contains(x) ==> f1@.dom().contains(x) && f1@[x] == f@[x]
            &&& f1@.dom().contains(j as int)
            &&& f1@[j as int] == w as int
            &&& src@.is_prefix_of(src1@)
            &&& old(t).work@.is_prefix_of(final(t).work@)
            &&& final(t).data@.len() == old(t).data@.len()
            &&& src1@.len() == final(t).work@.len()
            &&& (forall|p: int|
                0 <= p < old(t).free ==> #[trigger] final(t).data@[p] == old(t).data@[p])
            &&& (forall|x: int|
                0 <= x < old(t).meta@.len() && old(t).meta@[x] is Some
                    ==> #[trigger] final(t).meta@[x] == old(t).meta@[x])
            &&& final(t).free >= old(t).free
            &&& (src1@ == src@ || src1@ == src@.push(j as int))
            &&& (src1@ == src@ ==> *final(t) == *old(t))
            &&& (src1@ == src@.push(j as int) ==> final(t).free as int == slot_end(
                old(t).free as int,
                (Packing {
                    size: hdr_of(om@, j as int)->Header_size,
                    align: hdr_of(om@, j as int)->Header_algn,
                }),
            ))
        },
{
    let ghost od = old_data@;
    match fwd[j] {
        Some(Meta::Forward { to }) => {
            proof {
                assert(fwd@[j as int] != om@[j as int]);
                assert(f@.dom().contains(j as int) && f@[j as int] == to as int);
            }
            Some((to, f, src))
        },
        Some(Meta::Header { off, size, algn, tag }) => {
            proof {
                // not yet forwarded: a forwarded offset holds a marker
                assert(fwd@[j as int] == om@[j as int]);
                assert(!f@.dom().contains(j as int));
                assert(hdr_ok(om@, j as int, od.len() as int));
            }
            let opay = j + off as usize;
            let ghost t0 = *t;
            let res = transfer(old_data, opay, size, algn, tag, t);
            match res {
                None => None,
                Some(w) => {
                    fwd.set(j, Some(Meta::Forward { to: w }));
                    let ghost f1 = f@.insert(j as int, w as int);
                    let ghost src1 = src@.push(j as int);
                    proof {
                        lemma_relocate_one_transfer(
                            od,
                            om@,
                            oroots@,
                            old(fwd)@,
                            fwd@,
                            t0,
                            *t,
                            f@,
                            f1,
                            src@,
                            src1,
                            scan@,
                            kdone@,
                            j as int,
                            w as int,
                        );
                        assert forall|x: int|
                            0 <= x < t0.meta@.len() && t0.meta@[x] is Some implies #[trigger] t.meta@[x]
                            == t0.meta@[x] by {
                            if x == w as int {
                                assert(hdr_at(t0.meta@, x));
                                assert(hdr_ok(t0.meta@, x, t0.free as int));
                                assert(false);
                            }
                        }
                    }
                    Some((w, Ghost(f1), Ghost(src1)))
                },
            }
        },
        None => unreached(),
    }
}

/// After copying an unforwarded object `j` to `w` and writing its
/// forwarding marker, the pass invariant holds for the extended forwarding
/// map and source list.
proof fn lemma_relocate_one_transfer<L: GCLayout>(
    od: Seq<u8>,
    om: Seq<Option<Meta<L>>>,
    oroots: Seq<usize>,
    fwd0: Seq<Option<Meta<L>>>,
    fwd1: Seq<Option<Meta<L>>>,
    t0: ToSpace<L>,
    t1: ToSpace<L>,
    f0: Map<int, int>,
    f1: Map<int, int>,
    src0: Seq<int>,
    src1: Seq<int>,
    scan: int,
    kdone: int,
    j: int,
    w: int,
)
    requires
        cinv(od, om, oroots, fwd0, t0, f0, src0, scan, kdone),
        refs_closed_parts(od, om),
        forall|h: int| #[trigger] hdr_at(om, h) ==> hdr_ok(om, h, od.len() as int),
        od.len() <= CAP_MAX,
        hdr_at(om, j),
        reached(od, om, oroots, j),
        !f0.dom().contains(j),
        scan == src0.len() ==> kdone == 0,
        f1 == f0.insert(j, w),
        src1 == src0.push(j),
        fwd1 == fwd0.update(j, Some(Meta::Forward::<L> { to: w as usize })),
        0 <= w <= usize::MAX,
        // what the copy established
        tinv(t1),
        t1.data@.len() == t0.data@.len(),
        t1.work@ == t0.work@.push(w as usize),
        t0.free < w + 16 <= t1.free,
        t0.free <= w,
        t1.meta@ == t0.meta@.update(
            w,
            Some(
                Meta::Header {
                    off: (obj_pay(t1.meta@, w) - w) as u8,
                    size: hdr_of(om, j)->Header_size,
                    algn: hdr_of(om, j)->Header_algn,
                    tag: hdr_of(om, j)->Header_tag,
                },
            ),
        ),
        hdr_at(t1.meta@, w),
        obj_size(t1.meta@, w) == obj_size(om, j),
        obj_algn(t1.meta@, w) == obj_algn(om, j),
        obj_tag(t1.meta@, w) == obj_tag(om, j),
        obj_end(t1.meta@, w) == t1.free,
        t1.data@.subrange(obj_pay(t1.meta@, w), obj_end(t1.meta@, w)) == od.subrange(
            obj_pay(om, j),
            obj_pay(om, j) + obj_size(om, j),
        ),
        forall|p: int|
            0 <= p < t0.data@.len() && !(obj_pay(t1.meta@, w) <= p < obj_end(t1.meta@, w))
                ==> #[trigger] t1.data@[p] == t0.data@[p],
    ensures
        cinv(od, om, oroots, fwd1, t1, f1, src1, scan, kdone),
{
    let nw = t0.work@.len() as int;
    assert forall|x: int| #[trigger] f1.dom().contains(x) implies reached(od, om, oroots, x) by {
        if x != j {
            assert(f0.dom().contains(x));
        }
    }
    assert(src1.len() == t1.work@.len());
    // forwarding relation at and away from `j`
    assert forall|x: int| 0 <= x < fwd1.len() implies (#[trigger] fwd1[x] == om[x] || (hdr_at(
        om,
        x,
    ) && f1.dom().contains(x) && fwd1[x] == Some(Meta::Forward::<L> { to: f1[x] as usize }))) by {
        if x != j {
            assert(fwd1[x] == fwd0[x]);
        }
    }
    assert forall|x: int| #[trigger] f1.dom().contains(x) implies {
        &&& hdr_at(om, x)
        &&& 0 <= f1[x] <= usize::MAX
        &&& fwd1[x] == Some(Meta::Forward::<L> { to: f1[x] as usize })
    } by {
        if x != j {
            assert(f0.dom().contains(x));
            assert(fwd0[x] == Some(Meta::Forward::<L> { to: f0[x] as usize }));
        }
    }
    assert forall|i: int| 0 <= i < src1.len() implies f1.dom().contains(#[trigger] src1[i])
        && f1[src1[i]] == t1.work@[i] as int by {
        if i < nw {
            assert(src1[i] == src0[i]);
            assert(t1.work@[i] == t0.work@[i]);
            assert(f0.dom().contains(src0[i]));
            assert(src0[i] != j);
        }
    }
    assert forall|x: int| #[trigger] f1.dom().contains(x) implies exists|i: int|
        0 <= i < src1.len() && src1[i] == x by {
        if x == j {
            assert(src1[nw] == j);
        } else {
            let i = choose|i: int| 0 <= i < src0.len() && src0[i] == x;
            assert(src1[i] == x);
        }
    }
    // headers of previously copied objects are untouched by the update
    assert forall|i: int| 0 <= i < src1.len() implies fields_preserved(
        om,
        t1.meta@,
        #[trigger] src1[i],
        t1.work@[i] as int,
    ) by {
        if i < nw {
            assert(t0.work@[i] as int != w) by {
                assert(hdr_at(t0.meta@, t0.work@[i] as int));
                assert(obj_end(t0.meta@, t0.work@[i] as int) <= t0.free);
            }
            assert(t1.meta@[t0.work@[i] as int] == t0.meta@[t0.work@[i] as int]);
        }
    }
    // payload relations survive: old copies' bytes are below the old
    // frontier, the new copy's bytes are above it
    assert forall|i: int| 0 <= i < src1.len() && i != scan implies payload_part(
        od,
        om,
        t1.data@,
        t1.meta@,
        f1,
        #[trigger] src1[i],
        t1.work@[i] as int,
        if i < scan {
            obj_tag(om, src1[i]).ref_slots().len() as int
        } else {
            0
        },
    ) by {
        if i < nw {
            let ww = t0.work@[i] as int;
            assert(ww != w) by {
                assert(hdr_at(t0.meta@, ww));
                assert(obj_end(t0.meta@, ww) <= t0.free);
            }
            assert(t1.meta@[ww] == t0.meta@[ww]);
            assert(hdr_ok(t0.meta@, ww, t0.free as int));
            assert(obj_pay(t0.meta@, ww) + obj_size(om, src0[i]) <= t0.free);
            assert forall|p: int|
                obj_pay(t0.meta@, ww) <= p < obj_pay(t0.meta@, ww) + obj_size(om, src0[i])
                    implies #[trigger] t1.data@[p] == t0.data@[p] by {
                assert(p < t0.free <= obj_pay(t1.meta@, w));
            }
            assert(refs_ok(od, om, src0[i]));
            lemma_payload_part_stable(
                od,
                om,
                t0.data@,
                t0.meta@,
                f0,
                t1.data@,
                t1.meta@,
                f1,
                src0[i],
                ww,
                if i < scan {
                    obj_tag(om, src0[i]).ref_slots().len() as int
                } else {
                    0
                },
            );
        } else {
            // the fresh copy itself: verbatim payload, no slots rewritten
            assert(src1[i] == j && t1.work@[i] as int == w);
            assert(refs_ok(od, om, j));
            assert(hdr_ok(om, j, od.len() as int));
            lemma_payload_verbatim(od, om, t1.data@, t1.meta@, f1, j, w);
            assert(i > scan ==> payload_part(od, om, t1.data@, t1.meta@, f1, j, w, 0));
            assert(i >= scan);
        }
    }
    if scan < src1.len() {
        // the object under the scan frontier keeps its partial progress
        if scan < nw {
            let ww = t0.work@[scan] as int;
            assert(ww != w) by {
                assert(hdr_at(t0.meta@, ww));
                assert(obj_end(t0.meta@, ww) <= t0.free);
            }
            assert(t1.meta@[ww] == t0.meta@[ww]);
            assert(obj_pay(t0.meta@, ww) + obj_size(om, src0[scan]) <= t0.free);
            assert forall|p: int|
                obj_pay(t0.meta@, ww) <= p < obj_pay(t0.meta@, ww) + obj_size(om, src0[scan])
                    implies #[trigger] t1.data@[p] == t0.data@[p] by {
                assert(p < t0.free <= obj_pay(t1.meta@, w));
            }
            assert(refs_ok(od, om, src0[scan]));
            lemma_payload_part_stable(
                od,
                om,
                t0.data@,
                t0.meta@,
                f0,
                t1.data@,
                t1.meta@,
                f1,
                src0[scan],
                ww,
                kdone,
            );
        } else {
            assert(scan == nw);
            assert(kdone == 0);
            assert(refs_ok(od, om, j));
            lemma_payload_verbatim(od, om, t1.data@, t1.meta@, f1, j, w);
        }
    }
}

/// Rewriting reference slot `kk` of the object under the scan frontier to
/// the forwarded offset of its old target advances the pass invariant by
/// one slot.
proof fn lemma_scan_slot_write<L: GCLayout>(
    od: Seq<u8>,
    om: Seq<Option<Meta<L>>>,
    oroots: Seq<usize>,
    fwd: Seq<Option<Meta<L>>>,
    t1: ToSpace<L>,
    t2: ToSpace<L>,
    f: Map<int, int>,
    src: Seq<int>,
    scan: int,
    kk: int,
    j: int,
    w: int,
    tgt: int,
    w2: int,
    at: int,
)
    requires
        cinv(od, om, oroots, fwd, t1, f, src, scan, kk),
        refs_closed_parts(od, om),
        forall|h: int| #[trigger] hdr_at(om, h) ==> hdr_ok(om, h, od.len() as int),
        0 <= scan < src.len(),
        j == src[scan],
        w == t1.work@[scan] as int,
        hdr_at(om, j),
        refs_ok(od, om, j),
        0 <= kk < obj_tag(om, j).ref_slots().len(),
        tgt == slot_val(od, om, j, kk),
        f.dom().contains(tgt),
        f[tgt] == w2,
        at == obj_pay(t1.meta@, w) + obj_tag(om, j).ref_slots()[kk],
        t2.meta@ == t1.meta@,
        t2.free == t1.free,
        t2.work@ == t1.work@,
        t2.data@.len() == t1.data@.len(),
        t2.data@.subrange(at, at + 8) == spec_u64_to_le_bytes(w2 as u64),
        forall|x: int|
            0 <= x < t1.data@.len() && !(at <= x < at + 8) ==> #[trigger] t2.data@[x]
                == t1.data@[x],
        0 <= w2 <= usize::MAX,
    ensures
        cinv(od, om, oroots, fwd, t2, f, src, scan, kk + 1),
{
    let slots = obj_tag(om, j).ref_slots();
    let sk = slots[kk] as int;
    let np = obj_pay(t1.meta@, w);
    let op = obj_pay(om, j);
    let sz = obj_size(om, j);
    assert(hdr_at(t1.meta@, w));
    assert(hdr_ok(t1.meta@, w, t1.free as int));
    assert(fields_preserved(om, t1.meta@, j, w));
    assert(np + sz <= t1.free);
    assert(sk + 8 <= sz);
    assert(np + sk == at);
    // the object under the scan frontier advances one slot
    assert forall|p: int| 0 <= p < sz && !in_slot(slots, p) implies #[trigger] t2.data@[np + p]
        == od[op + p] by {
        assert(!(slots[kk] <= p < slots[kk] + 8));
        assert(t2.data@[np + p] == t1.data@[np + p]);
    }
    assert forall|k: int| 0 <= k < kk + 1 implies f.dom().contains(
        #[trigger] slot_val(od, om, j, k),
    ) by {
        if k < kk {
            assert(payload_part(od, om, t1.data@, t1.meta@, f, j, w, kk));
        }
    }
    assert forall|k: int| 0 <= k < kk + 1 implies t2.data@.subrange(
        np + #[trigger] slots[k],
        np + slots[k] + 8,
    ) == spec_u64_to_le_bytes(f[slot_val(od, om, j, k)] as u64) by {
        if k < kk {
            assert(slots[k] + 8 <= slots[kk] || slots[kk] + 8 <= slots[k]);
            assert forall|q: int| 0 <= q < 8 implies #[trigger] t2.data@.subrange(
                np + slots[k],
                np + slots[k] + 8,
            )[q] == t1.data@.subrange(np + slots[k], np + slots[k] + 8)[q] by {
                let pp = slots[k] + q;
                assert(!(at <= np + pp < at + 8));
                assert(t2.data@[np + pp] == t1.data@[np + pp]);
                assert(t2.data@.subrange(np + slots[k], np + slots[k] + 8)[q] == t2.data@[np + pp]);
                assert(t1.data@.subrange(np + slots[k], np + slots[k] + 8)[q] == t1.data@[np + pp]);
            }
            assert(t2.data@.subrange(np + slots[k], np + slots[k] + 8) =~= t1.data@.subrange(
                np + slots[k],
                np + slots[k] + 8,
            ));
        } else {
            assert(np + slots[k] == at);
        }
    }
    assert forall|k: int| kk + 1 <= k < slots.len() implies t2.data@.subrange(
        np + #[trigger] slots[k],
        np + slots[k] + 8,
    ) == od.subrange(op + slots[k], op + slots[k] + 8) by {
        assert(slots[k] + 8 <= slots[kk] || slots[kk] + 8 <= slots[k]);
        assert forall|q: int| 0 <= q < 8 implies #[trigger] t2.data@.subrange(
            np + slots[k],
            np + slots[k] + 8,
        )[q] == t1.data@.subrange(np + slots[k], np + slots[k] + 8)[q] by {
            let pp = slots[k] + q;
            assert(!(at <= np + pp < at + 8));
            assert(t2.data@[np + pp] == t1.data@[np + pp]);
            assert(t2.data@.subrange(np + slots[k], np + slots[k] + 8)[q] == t2.data@[np + pp]);
            assert(t1.data@.subrange(np + slots[k], np + slots[k] + 8)[q] == t1.data@[np + pp]);
        }
        assert(t2.data@.subrange(np + slots[k], np + slots[k] + 8) =~= t1.data@.subrange(
            np + slots[k],
            np + slots[k] + 8,
        ));
    }
    assert(payload_part(od, om, t2.data@, t2.meta@, f, j, w, kk + 1));
    // every other copy is untouched: the written range lies inside the
    // scanned object's extent, and extents are disjoint
    assert forall|i: int| 0 <= i < src.len() && i != scan implies payload_part(
        od,
        om,
        t2.data@,
        t2.meta@,
        f,
        #[trigger] src[i],
        t2.work@[i] as int,
        if i < scan {
            obj_tag(om, src[i]).ref_slots().len() as int
        } else {
            0
        },
    ) by {
        let ww = t1.work@[i] as int;
        assert(hdr_at(t1.meta@, ww));
        assert(hdr_ok(t1.meta@, ww, t1.free as int));
        assert(ww != w) by {
            if ww == w {
                assert(i != scan && t1.work@[i] == t1.work@[scan]);
            }
        }
        assert(obj_end(t1.meta@, ww) <= w || obj_end(t1.meta@, w) <= ww);
        assert(fields_preserved(om, t1.meta@, src[i], ww));
        assert forall|p: int|
            obj_pay(t1.meta@, ww) <= p < obj_pay(t1.meta@, ww) + obj_size(om, src[i])
                implies #[trigger] t2.data@[p] == t1.data@[p] by {
            assert(w <= np && np + sz == obj_end(t1.meta@, w));
            assert(!(at <= p < at + 8));
        }
        assert(refs_ok(od, om, src[i]));
        lemma_payload_part_stable(
            od,
            om,
            t1.data@,
            t1.meta@,
            f,
            t2.data@,
            t2.meta@,
            f,
            src[i],
            ww,
            if i < scan {
                obj_tag(om, src[i]).ref_slots().len() as int
            } else {
                0
            },
        );
    }
}

/// When the scan frontier has passed every copied object, the pass is
/// complete: the destination space is a well-formed, reference-closed
/// arena generation related to the old one by the forwarding map.
proof fn lemma_pass_complete<L: GCLayout>(
    od: Seq<u8>,
    om: Seq<Option<Meta<L>>>,
    oroots: Seq<usize>,
    fwd: Seq<Option<Meta<L>>>,
    t: ToSpace<L>,
    f: Map<int, int>,
    src: Seq<int>,
    nroots: Seq<usize>,
)
    requires
        cinv(od, om, oroots, fwd, t, f, src, src.len() as int, 0),
        refs_closed_parts(od, om),
        forall|h: int| #[trigger] hdr_at(om, h) ==> hdr_ok(om, h, od.len() as int),
        nroots.len() == oroots.len(),
        forall|x: int|
            0 <= x < oroots.len() ==> f.dom().contains(#[trigger] oroots[x] as int)
                && nroots[x] as int == f[oroots[x] as int],
    ensures
        wf_parts(t.data@, t.meta@, t.free as int, nroots),
        refs_closed_parts(t.data@, t.meta@),
        relocation(od, om, oroots, t.data@, t.meta@, nroots, f),
        copies_cover(t.meta@, f, -1),
        only_reachable(od, om, oroots, f),
{
    lemma_auto_spec_u64_to_from_le_bytes();
    assert forall|x: int| #[trigger] hdr_at(t.meta@, x) implies exists|j: int|
        f.dom().contains(j) && f[j] == x by {
        let i = choose|i: int| 0 <= i < t.work@.len() && t.work@[i] == x;
        assert(f.dom().contains(src[i]) && f[src[i]] == x);
    }
    assert forall|j: int| #[trigger] f.dom().contains(j) implies hdr_at(t.meta@, f[j])
        && fields_preserved(om, t.meta@, j, f[j]) && payload_done(
        od,
        om,
        t.data@,
        t.meta@,
        f,
        j,
        f[j],
    ) by {
        let i = choose|i: int| 0 <= i < src.len() && src[i] == j;
        assert(f[src[i]] == t.work@[i] as int);
        assert(hdr_at(t.meta@, t.work@[i] as int));
        assert(payload_done(od, om, t.data@, t.meta@, f, src[i], t.work@[i] as int));
    }
    assert forall|h: int| #[trigger] hdr_at(t.meta@, h) implies hdr_ok(
        t.meta@,
        h,
        t.free as int,
    ) by {
        let i = choose|i: int| 0 <= i < t.work@.len() && t.work@[i] == h;
        assert(hdr_ok(t.meta@, t.work@[i] as int, t.free as int));
    }
    assert forall|i: int| 0 <= i < nroots.len() implies hdr_at(
        t.meta@,
        #[trigger] nroots[i] as int,
    ) by {
        assert(f.dom().contains(oroots[i] as int));
    }
    // the copies' rewritten slots decode to forwarded, hence live, offsets
    assert forall|h: int| #[trigger] hdr_at(t.meta@, h) implies refs_ok(t.data@, t.meta@, h) by {
        let i = choose|i: int| 0 <= i < t.work@.len() && t.work@[i] == h;
        let jj = src[i];
        assert(f.dom().contains(jj) && f[jj] == h);
        assert(fields_preserved(om, t.meta@, jj, h));
        assert(payload_done(od, om, t.data@, t.meta@, f, jj, h));
        assert(refs_ok(od, om, jj));
        let slots = obj_tag(om, jj).ref_slots();
        let np = obj_pay(t.meta@, h);
        assert(obj_tag(t.meta@, h).ref_slots() == slots);
        assert forall|k: int| 0 <= k < slots.len() implies hdr_at(
            t.meta@,
            #[trigger] slot_val(t.data@, t.meta@, h, k),
        ) by {
            let tv = f[slot_val(od, om, jj, k)];
            assert(f.dom().contains(slot_val(od, om, jj, k)));
            assert(t.data@.subrange(np + slots[k], np + slots[k] + 8) == spec_u64_to_le_bytes(
                tv as u64,
            ));
            assert(spec_u64_from_le_bytes(spec_u64_to_le_bytes(tv as u64)) == tv as u64);
            assert(slot_val(t.data@, t.meta@, h, k) == tv);
        }
    }
    // no object is copied twice: distinct survivors have distinct copies
    assert forall|j1: int, j2: int|
        f.dom().contains(j1) && f.dom().contains(j2) && #[trigger] f[j1] == #[trigger] f[j2]
            implies j1 == j2 by {
        let i1 = choose|i: int| 0 <= i < src.len() && src[i] == j1;
        let i2 = choose|i: int| 0 <= i < src.len() && src[i] == j2;
        assert(f[src[i1]] == t.work@[i1] as int);
        assert(f[src[i2]] == t.work@[i2] as int);
        if i1 != i2 {
            assert(t.work@[i1] != t.work@[i2]);
        }
    }
}

impl<L: GCLayout> GC<L> {
    /// One collection pass into a fresh destination buffer of `new_len`
    /// bytes: copy every root's object, then walk the scan frontier over
    /// the copied objects, copying each object their reference slots name
    /// (unless its stale header already carries a forwarding marker) and
    /// rewriting each slot to the forwarded offset. Returns the finished
    /// destination space, the rewritten root set, and the forwarding map;
    /// `None` on destination exhaustion, leaving the arena untouched.
    #[verifier::rlimit(100)]
    #[verifier::spinoff_prover]
    fn collect_to(&self, new_len: usize) -> (r: Option<
        (ToSpace<L>, Vec<usize>, Ghost<Map<int, int>>),
    >)
        requires
            self.wf(),
            self.refs_closed(),
            new_len <= CAP_MAX,
        ensures
            uniform_align(self.metas()) && align_up(self.frontier() as int, 8) <= new_len
                ==> r is Some,
            r matches Some((t, nroots, f)) ==> {
                &&& wf_parts(t.data@, t.meta@, t.free as int, nroots@)
                &&& refs_closed_parts(t.data@, t.meta@)
                &&& t.data@.len() == new_len
                &&& (uniform_align(self.metas()) ==> align_up(t.free as int, 8) <= align_up(
                    self.frontier() as int,
                    8,
                ))
                &&& copies_cover(t.meta@, f@, -1)
                &&& only_reachable(self.bytes(), self.metas(), self.roots(), f@)
                &&& relocation(
                    self.bytes(),
                    self.metas(),
                    self.roots(),
                    t.data@,
                    t.meta@,
                    nroots@,
                    f@,
                )
            },
    {
        let ghost od = self.bytes();
        let ghost om = self.metas();
        proof {
            assert forall|h: int| #[trigger] hdr_at(om, h) implies hdr_ok(
                om,
                h,
                od.len() as int,
            ) by {
                assert(hdr_ok(om, h, self.frontier() as int));
            }
        }
        let mut t = ToSpace {
            data: zero_bytes(new_len),
            meta: none_metas::<L>(new_len),
            free: 0,
            work: Vec::new(),
        };
        let mut fwd = clone_metas(&self.meta);
        let mut nroots: Vec<usize> = Vec::new();
        let ghost mut f: Map<int, int> = Map::empty();
        let ghost mut src: Seq<int> = Seq::empty();
        proof {
            assert(fwd@ == om);
            assert(forall|h: int| !hdr_at(t.meta@, h));
            assert(cinv(od, om, self.roots(), fwd@, t, f, src, 0, 0));
        }
        let rc = self.root.len();
        let mut i: usize = 0;
        while i < rc
            invariant
                self.wf(),
                self.refs_closed(),
                od == self.bytes(),
                om == self.metas(),
                forall|h: int| #[trigger] hdr_at(om, h) ==> hdr_ok(om, h, od.len() as int),
                rc == self.roots().len(),
                i <= rc,
                cinv(od, om, self.roots(), fwd@, t, f, src, 0, 0),
                t.data@.len() == new_len,
                uniform_align(om) ==> align_up(t.free as int, 8) <= slot_sum(om, src),
                nroots@.len() == i,
                forall|x: int|
                    0 <= x < i ==> f.dom().contains(#[trigger] self.roots()[x] as int)
                        && nroots@[x] as int == f[self.roots()[x] as int],
            decreases rc - i,
        {
            let rt = self.root[i];
            proof {
                lemma_reached_root(od, om, self.roots(), i as int);
            }
            let ghost src_pre = src;
            let ghost free_pre = t.free;
            let res = relocate_one(
                &self.data,
                Ghost(om),
                Ghost(self.roots()),
                &mut fwd,
                rt,
                &mut t,
                Ghost(f),
                Ghost(src),
                Ghost(0),
                Ghost(0),
            );
            match res {
                None => {
                    proof {
                        if uniform_align(om) && align_up(self.frontier() as int, 8)
                            <= new_len as int {
                            lemma_no_exhaustion(
                                od,
                                om,
                                self.roots(),
                                fwd@,
                                t,
                                f,
                                src,
                                0,
                                0,
                                self.frontier() as int,
                                rt as int,
                                new_len as int,
                            );
                        }
                    }
                    return None;
                },
                Some((w, f1, src1)) => {
                    proof {
                        f = f1@;
                        src = src1@;
                        if uniform_align(om) && src != src_pre {
                            assert(hdr_ok(om, rt as int, self.frontier() as int));
                            lemma_slot_step(om, src_pre, rt as int, free_pre as int, t.free as int);
                        }
                    }
                    nroots.push(w);
                },
            }
            i = i + 1;
        }
        let mut scan: usize = 0;
        while scan < t.work.len()
            invariant
                self.wf(),
                self.refs_closed(),
                od == self.bytes(),
                om == self.metas(),
                forall|h: int| #[trigger] hdr_at(om, h) ==> hdr_ok(om, h, od.len() as int),
                cinv(od, om, self.roots(), fwd@, t, f, src, scan as int, 0),
                t.data@.len() == new_len,
                uniform_align(om) ==> align_up(t.free as int, 8) <= slot_sum(om, src),
                scan <= t.work@.len(),
                nroots@.len() == self.roots().len(),
                forall|x: int|
                    0 <= x < self.roots().len() ==> f.dom().contains(
                        #[trigger] self.roots()[x] as int,
                    ) && nroots@[x] as int == f[self.roots()[x] as int],
            decreases new_len + 1 - scan,
        {
            let w = t.work[scan];
            let ghost j = src[scan as int];
            let (woff, wtag) = {
                match t.meta[w] {
                    Some(Meta::Header { off, tag, .. }) => (off, tag),
                    _ => unreached(),
                }
            };
            proof {
                assert(fields_preserved(om, t.meta@, j, w as int));
                assert(wtag == obj_tag(om, j));
                assert(hdr_at(om, j));
                assert(refs_ok(od, om, j));
            }
            let wpay = w + woff as usize;
            let mut kk: usize = 0;
            let mut cur = wtag.get_ref(kk);
            proof {
                wtag.ref_slots_finite();
            }
            while cur.is_some()
                invariant
                    self.wf(),
                    self.refs_closed(),
                    od == self.bytes(),
                    om == self.metas(),
                    forall|h: int| #[trigger] hdr_at(om, h) ==> hdr_ok(om, h, od.len() as int),
                    cinv(od, om, self.roots(), fwd@, t, f, src, scan as int, kk as int),
                    t.data@.len() == new_len,
                    uniform_align(om) ==> align_up(t.free as int, 8) <= slot_sum(om, src),
                    scan < t.work@.len(),
                    scan < src.len(),
                    w == t.work@[scan as int],
                    j == src[scan as int],
                    hdr_at(om, j),
                    refs_ok(od, om, j),
                    hdr_at(t.meta@, w as int),
                    wtag == obj_tag(om, j),
                    wpay as int == obj_pay(t.meta@, w as int),
                    wpay + obj_size(om, j) <= t.data@.len(),
                    kk <= wtag.ref_slots().len() <= usize::MAX,
                    kk < wtag.ref_slots().len() ==> cur == Some(wtag.ref_slots()[kk as int]),
                    kk >= wtag.ref_slots().len() ==> cur is None,
                    nroots@.len() == self.roots().len(),
                    forall|x: int|
                        0 <= x < self.roots().len() ==> f.dom().contains(
                            #[trigger] self.roots()[x] as int,
                        ) && nroots@[x] as int == f[self.roots()[x] as int],
                decreases wtag.ref_slots().len() - kk,
            {
                let s = cur.unwrap();
                proof {
                    assert(s == wtag.ref_slots()[kk as int]);
                    assert(s + 8 <= obj_size(om, j));
                }
                let slot_at = wpay + s;
                let oldref64 = vec_read_u64(&t.data, slot_at);
                let ghost tgt = slot_val(od, om, j, kk as int);
                proof {
                    // this slot has not been rewritten yet, so it still
                    // holds the old bytes: it decodes to the old target
                    assert(t.data@.subrange(slot_at as int, slot_at + 8) == od.subrange(
                        obj_pay(om, j) + s,
                        obj_pay(om, j) + s + 8,
                    ));
                    assert(oldref64 as int == tgt);
                    assert(hdr_at(om, tgt));
                    assert(tgt < om.len() <= CAP_MAX);
                }
                let oldref = oldref64 as usize;
                proof {
                    assert(reached(od, om, self.roots(), j));
                    lemma_reached_step(od, om, self.roots(), j, kk as int);
                }
                let ghost src_pre = src;
                let ghost free_pre = t.free;
                let res = relocate_one(
                    &self.data,
                    Ghost(om),
                    Ghost(self.roots()),
                    &mut fwd,
                    oldref,
                    &mut t,
                    Ghost(f),
                    Ghost(src),
                    Ghost(scan as int),
                    Ghost(kk as int),
                );
                match res {
                    None => {
                        proof {
                            if uniform_align(om) && align_up(self.frontier() as int, 8)
                                <= new_len as int {
                                lemma_no_exhaustion(
                                    od,
                                    om,
                                    self.roots(),
                                    fwd@,
                                    t,
                                    f,
                                    src,
                                    scan as int,
                                    kk as int,
                                    self.frontier() as int,
                                    oldref as int,
                                    new_len as int,
                                );
                            }
                        }
                        return None;
                    },
                    Some((w2, f1, src1)) => {
                        proof {
                            f = f1@;
                            src = src1@;
                            if uniform_align(om) && src != src_pre {
                                assert(hdr_ok(om, oldref as int, self.frontier() as int));
                                lemma_slot_step(
                                    om,
                                    src_pre,
                                    oldref as int,
                                    free_pre as int,
                                    t.free as int,
                                );
                            }
                        }
                        let ghost t_mid = t;
                        vec_write_u64(&mut t.data, slot_at, w2 as u64);
                        proof {
                            lemma_scan_slot_write(
                                od,
                                om,
                                self.roots(),
                                fwd@,
                                t_mid,
                                t,
                                f,
                                src,
                                scan as int,
                                kk as int,
                                j,
                                w as int,
                                tgt,
                                w2 as int,
                                slot_at as int,
                            );
                        }
                        kk = kk + 1;
                        cur = wtag.get_ref(kk);
                    },
                }
            }
            proof {
                assert(payload_done(od, om, t.data@, t.meta@, f, j, w as int));
                assert forall|x: int| 0 <= x < scan + 1 implies payload_done(
                    od,
                    om,
                    t.data@,
                    t.meta@,
                    f,
                    #[trigger] src[x],
                    t.work@[x] as int,
                ) by {}
                assert(cinv(od, om, self.roots(), fwd@, t, f, src, scan + 1, 0));
            }
            scan = scan + 1;
        }
        proof {
            lemma_pass_complete(od, om, self.roots(), fwd@, t, f, src, nroots@);
            assert(copies_cover(t.meta@, f, -1));
            assert(only_reachable(od, om, self.roots(), f));
            if uniform_align(om) {
                lemma_copied_pack(
                    od,
                    om,
                    self.roots(),
                    fwd@,
                    t,
                    f,
                    src,
                    src.len() as int,
                    0,
                    self.frontier() as int,
                    Seq::empty(),
                );
                assert(src + Seq::<int>::empty() =~= src);
            }
        }
        Some((t, nroots, Ghost(f)))
    }
}

/// Extending a well-formed generation with one fresh header above its
/// frontier preserves well-formedness, keeps every existing object's
/// references closed, and does not disturb a relocation from the previous
/// generation.
proof fn lemma_install_fresh<L: GCLayout>(
    od: Seq<u8>,
    om: Seq<Option<Meta<L>>>,
    oroots: Seq<usize>,
    nd: Seq<u8>,
    nm1: Seq<Option<Meta<L>>>,
    nm2: Seq<Option<Meta<L>>>,
    nroots: Seq<usize>,
    f: Map<int, int>,
    h: int,
    end: int,
    free1: int,
)
    requires
        wf_parts(nd, nm1, free1, nroots),
        refs_closed_parts(nd, nm1),
        relocation(od, om, oroots, nd, nm1, nroots, f),
        refs_closed_parts(od, om),
        forall|x: int| #[trigger] hdr_at(om, x) ==> 0 <= obj_pay(om, x) && obj_end(om, x) <= od.len(),
        nm2.len() == nm1.len(),
        forall|x: int| 0 <= x < nm1.len() && x != h ==> nm2[x] == nm1[x],
        hdr_at(nm2, h),
        hdr_ok(nm2, h, end),
        free1 <= h,
        free1 <= end <= nd.len(),
    ensures
        wf_parts(nd, nm2, end, nroots),
        forall|x: int| #[trigger] hdr_at(nm2, x) && x != h ==> hdr_at(nm1, x),
        forall|x: int|
            #[trigger] hdr_at(nm2, x) && x != h ==> refs_ok(nd, nm2, x),
        relocation(od, om, oroots, nd, nm2, nroots, f),
        forall|j: int| #[trigger] f.dom().contains(j) ==> f[j] != h,
    decreases 0int,
{
    assert(!(nm1[h] is Some)) by {
        if nm1[h] is Some {
            assert(hdr_at(nm1, h));
            assert(hdr_ok(nm1, h, free1));
        }
    }
    assert forall|x: int| #[trigger] hdr_at(nm2, x) && x != h implies hdr_at(nm1, x) by {
        assert(nm2[x] == nm1[x]);
    }
    assert forall|x: int| #[trigger] hdr_at(nm2, x) implies hdr_ok(nm2, x, end) by {
        if x != h {
            assert(hdr_at(nm1, x));
            assert(hdr_ok(nm1, x, free1));
        }
    }
    assert forall|h1: int, h2: int|
        hdr_at(nm2, h1) && hdr_at(nm2, h2) && h1 != h2 implies #[trigger] obj_end(nm2, h1) <= h2
            || #[trigger] obj_end(nm2, h2) <= h1 by {
        if h1 != h && h2 != h {
            assert(hdr_at(nm1, h1) && hdr_at(nm1, h2));
            assert(obj_end(nm1, h1) <= h2 || obj_end(nm1, h2) <= h1);
        } else if h1 == h {
            assert(hdr_at(nm1, h2) && hdr_ok(nm1, h2, free1));
        } else {
            assert(hdr_at(nm1, h1) && hdr_ok(nm1, h1, free1));
        }
    }
    assert forall|i: int| 0 <= i < nroots.len() implies hdr_at(
        nm2,
        #[trigger] nroots[i] as int,
    ) by {
        assert(hdr_at(nm1, nroots[i] as int));
    }
    assert forall|x: int| #[trigger] hdr_at(nm2, x) && x != h implies refs_ok(nd, nm2, x) by {
        assert(hdr_at(nm1, x));
        assert(refs_ok(nd, nm1, x));
        let slots = obj_tag(nm1, x).ref_slots();
        assert(obj_tag(nm2, x) == obj_tag(nm1, x));
        assert forall|k: int| 0 <= k < slots.len() implies hdr_at(
            nm2,
            #[trigger] slot_val(nd, nm2, x, k),
        ) by {
            assert(slot_val(nd, nm2, x, k) == slot_val(nd, nm1, x, k));
            assert(hdr_at(nm1, slot_val(nd, nm1, x, k)));
            assert(slot_val(nd, nm1, x, k) != h);
        }
    }
    assert forall|j: int| #[trigger] f.dom().contains(j) implies f[j] != h by {
        assert(hdr_at(nm1, f[j]));
    }
    assert forall|j: int| #[trigger] f.dom().contains(j) implies hdr_at(nm2, f[j])
        && fields_preserved(om, nm2, j, f[j]) && payload_done(od, om, nd, nm2, f, j, f[j]) by {
        assert(hdr_at(nm1, f[j]) && f[j] != h);
        assert(nm2[f[j]] == nm1[f[j]]);
        assert(hdr_at(om, j));
        assert(refs_ok(od, om, j));
        assert(hdr_ok(nm1, f[j], free1));
        assert(fields_preserved(om, nm1, j, f[j]));
        lemma_payload_part_stable(
            od,
            om,
            nd,
            nm1,
            f,
            nd,
            nm2,
            f,
            j,
            f[j],
            obj_tag(om, j).ref_slots().len() as int,
        );
    }
}

impl<L: GCLayout> GC<L> {
    /// One collection pass (same capacity for reclamation, larger for
    /// growth) followed by an attempt to serve the pending allocation from
    /// the fresh buffer. On success the fresh generation is installed
    /// atomically; on failure the arena is left untouched.
    fn try_pass(&mut self, tag: L, kp: Packing, target: usize) -> (r: Option<usize>)
        requires
            old(self).wf(),
            old(self).refs_closed(),
            is_pow2(kp.align as int),
            kp.align >= 8,
            kp.size >= 8,
            target <= CAP_MAX,
        ensures
            r is None ==> *final(self) == *old(self),
            r matches Some(h) ==> final(self).cap() == target && alloc_result(
                *old(self),
                *final(self),
                h,
                tag,
                kp,
            ),
            uniform_align(old(self).metas()) && kp.align == 8 && align_up(
                old(self).frontier() as int,
                8,
            ) + 8 + kp.size <= target ==> r is Some,
    {
        let res0 = self.collect_to(target);
        match res0 {
            None => None,
            Some((mut t, nroots, fg)) => {
                let ghost f = fg@;
                let cap2 = t.data.len();
                let ghost nm1 = t.meta@;
                let ghost free1 = t.free;
                let res = alloc_after(t.free, cap2, &mut t.meta, tag, kp);
                match res {
                    None => {
                        proof {
                            // under uniform alignment a sufficient target
                            // cannot have missed: the frontier bound makes
                            // the request's extent fit
                            if uniform_align(self.metas()) && kp.align == 8 && align_up(
                                self.frontier() as int,
                                8,
                            ) + 8 + kp.size <= target {
                                lemma_align_up(free1 as int, 8);
                                assert(align_up(align_up(free1 as int, 8) + 8, 8) == align_up(
                                    free1 as int,
                                    8,
                                ) + 8);
                                assert(slot_end(free1 as int, kp) == align_up(free1 as int, 8) + 8
                                    + kp.size);
                            }
                        }
                        None
                    },
                    Some((end, h)) => {
                        proof {
                            assert forall|x: int| #[trigger] hdr_at(self.metas(), x) implies 0
                                <= obj_pay(self.metas(), x) && obj_end(self.metas(), x)
                                <= self.bytes().len() by {
                                assert(hdr_ok(self.metas(), x, self.frontier() as int));
                            }
                            assert(t.meta@ == nm1.update(
                                h as int,
                                t.meta@[h as int],
                            ));
                            assert(forall|x: int|
                                0 <= x < nm1.len() && x != h as int ==> t.meta@[x] == nm1[x]);
                            lemma_install_fresh(
                                self.bytes(),
                                self.metas(),
                                self.roots(),
                                t.data@,
                                nm1,
                                t.meta@,
                                nroots@,
                                f,
                                h as int,
                                end as int,
                                free1 as int,
                            );
                        }
                        let ghost pre = *self;
                        self.data = t.data;
                        self.meta = t.meta;
                        self.free = end;
                        self.root = nroots;
                        proof {
                            assert(self.wf());
                            assert forall|x: int|
                                #[trigger] hdr_at(self.metas(), x) && x != h as int
                                implies exists|j: int| f.dom().contains(j) && f[j] == x by {
                                assert(hdr_at(nm1, x));
                            }
                            assert(copies_cover(self.metas(), f, h as int));
                            if tag.ref_slots().len() == 0 {
                                assert forall|x: int| #[trigger] hdr_at(self.metas(), x)
                                    implies refs_ok(self.bytes(), self.metas(), x) by {
                                    if x == h as int {
                                        assert(obj_tag(self.metas(), x) == tag);
                                        assert(obj_tag(self.metas(), x).ref_slots().len() == 0);
                                    }
                                }
                            }
                            assert(relocation(
                                pre.bytes(),
                                pre.metas(),
                                pre.roots(),
                                self.bytes(),
                                self.metas(),
                                self.roots(),
                                f,
                            ));
                            assert(alloc_result(pre, *self, h, tag, kp));
                        }
                        Some(h)
                    },
                }
            },
        }
    }

    /// Allocate space for one object: a metadata slot followed by an
    /// aligned payload big enough for the requested packing or, if larger,
    /// the forwarding-reference placeholder that must fit the same slot
    /// later. The fast path bump-allocates in place; on exhaustion a
    /// same-capacity collection pass runs, then capacity-doubling passes,
    /// until the request fits. The payload is reserved, not initialised.
    ///
    /// `None` is the fatal path — the request cannot be satisfied within
    /// the capacity ceiling — and leaves the arena untouched; the embedder
    /// decides how to terminate.
    pub fn allocate(&mut self, tag: L, pack: Packing) -> (r: Option<usize>)
        requires
            old(self).wf(),
            old(self).refs_closed(),
            is_pow2(pack.align as int),
            old(self).cap() >= 1,
        ensures
            r is None ==> *final(self) == *old(self),
            slot_end(
                old(self).frontier() as int,
                (Packing {
                    size: max_u8(pack.size, REF_SIZE),
                    align: max_u8(pack.align, REF_ALIGN),
                }),
            ) <= old(self).cap() ==> r is Some,
            ({
                // under memory pressure, a miss is absorbed: one
                // same-capacity reclamation pass, then one doubling, after
                // which the request is served — provided every alignment
                // in play is the slot alignment and the ceiling is not hit
                let kq = (Packing {
                    size: max_u8(pack.size, REF_SIZE),
                    align: max_u8(pack.align, REF_ALIGN),
                });
                uniform_align(old(self).metas()) && pack.align <= REF_ALIGN && 2 * old(
                    self,
                ).cap() <= CAP_MAX && slot_end(old(self).cap() as int, kq) <= 2 * old(self).cap()
                    ==> r is Some && (final(self).cap() == old(self).cap() || final(self).cap()
                    == 2 * old(self).cap())
            }),
            r matches Some(h) ==> {
                &&& alloc_result(
                    *old(self),
                    *final(self),
                    h,
                    tag,
                    (Packing {
                        size: max_u8(pack.size, REF_SIZE),
                        align: max_u8(pack.align, REF_ALIGN),
                    }),
                )
                &&& exists|n: nat|
                    final(self).cap() == old(self).cap()
                        * vstd::arithmetic::power2::pow2(n)
                &&& ({
                    let kq = (Packing {
                        size: max_u8(pack.size, REF_SIZE),
                        align: max_u8(pack.align, REF_ALIGN),
                    });
                    // the fit case is the fast path: nothing is collected,
                    // nothing moves, the frontier bumps to the extent's end
                    slot_end(old(self).frontier() as int, kq) <= old(self).cap() ==> {
                        &&& h as int == slot_hdr(old(self).frontier() as int)
                        &&& final(self).frontier() as int == slot_end(
                            old(self).frontier() as int,
                            kq,
                        )
                        &&& final(self).bytes() == old(self).bytes()
                        &&& final(self).roots() == old(self).roots()
                        &&& final(self).metas().len() == old(self).metas().len()
                        &&& forall|x: int|
                            0 <= x < old(self).metas().len() && x != h as int
                                ==> #[trigger] final(self).metas()[x] == old(self).metas()[x]
                    }
                })
            },
    {
        proof {
            crate::layout::lemma_is_pow2_8();
        }
        let kp = Packing::raw(
            if pack.size >= REF_SIZE {
                pack.size
            } else {
                REF_SIZE
            },
            if pack.align >= REF_ALIGN {
                pack.align
            } else {
                REF_ALIGN
            },
        );
        let ghost pre = *self;
        let cap0 = self.data.len();
        let ghost nm1 = self.meta@;
        let res0 = alloc_after(self.free, cap0, &mut self.meta, tag, kp);
        match res0 {
            Some((end, h)) => {
                self.free = end;
                proof {
                    assert forall|x: int| #[trigger] hdr_at(pre.metas(), x) implies 0 <= obj_pay(
                        pre.metas(),
                        x,
                    ) && obj_end(pre.metas(), x) <= pre.bytes().len() by {
                        assert(hdr_ok(pre.metas(), x, pre.frontier() as int));
                    }
                    assert(self.meta@ == nm1.update(h as int, self.meta@[h as int]));
                    assert(forall|x: int|
                        0 <= x < nm1.len() && x != h as int ==> self.meta@[x] == nm1[x]);
                    lemma_relocation_identity(
                        pre.bytes(),
                        pre.metas(),
                        pre.roots(),
                        self.metas(),
                    );
                    lemma_install_fresh(
                        pre.bytes(),
                        pre.metas(),
                        pre.roots(),
                        self.bytes(),
                        nm1,
                        self.metas(),
                        self.roots(),
                        ident(pre.metas()),
                        h as int,
                        end as int,
                        pre.frontier() as int,
                    );
                    assert forall|x: int|
                        #[trigger] hdr_at(self.metas(), x) && x != h as int implies exists|
                        j: int,
                    | ident(pre.metas()).dom().contains(j) && ident(pre.metas())[j] == x by {
                        assert(hdr_at(pre.metas(), x));
                        assert(ident(pre.metas()).dom().contains(x) && ident(pre.metas())[x]
                            == x);
                    }
                    assert(copies_cover(self.metas(), ident(pre.metas()), h as int));
                    assert(vstd::arithmetic::power2::pow2(0) == 1) by {
                        vstd::arithmetic::power2::lemma_pow2(0);
                        vstd::arithmetic::power::lemma_pow0(2);
                    }
                    assert(self.cap() == pre.cap() * vstd::arithmetic::power2::pow2(0));
                }
                return Some(h);
            },
            None => {},
        }
        let mut target = cap0;
        let ghost mut n: nat = 0;
        proof {
            assert(vstd::arithmetic::power2::pow2(0) == 1) by {
                vstd::arithmetic::power2::lemma_pow2(0);
                vstd::arithmetic::power::lemma_pow0(2);
            }
        }
        loop
            invariant
                self.wf(),
                self.refs_closed(),
                *self == pre,
                pre == *old(self),
                is_pow2(kp.align as int),
                kp.align >= 8,
                kp.size >= 8,
                kp.size == max_u8(pack.size, REF_SIZE),
                kp.align == max_u8(pack.align, REF_ALIGN),
                1 <= target <= CAP_MAX,
                target == pre.cap() * vstd::arithmetic::power2::pow2(n),
                slot_end(pre.frontier() as int, kp) > pre.cap(),
                pressure_hyp(pre, kp) ==> target == pre.cap() || target == 2 * pre.cap(),
            decreases CAP_MAX - target,
        {
            let r1 = self.try_pass(tag, kp, target);
            match r1 {
                Some(h) => {
                    return Some(h);
                },
                None => {},
            }
            proof {
                // a doubled pass under the pressure hypothesis cannot miss
                if pressure_hyp(pre, kp) && target == 2 * pre.cap() {
                    lemma_pressure_target_serves(pre, kp, target as int);
                }
            }
            if target > CAP_MAX / 2 {
                return None;
            }
            target = 2 * target;
            proof {
                let ghost c = pre.cap() as int;
                let ghost p = vstd::arithmetic::power2::pow2(n) as int;
                n = n + 1;
                vstd::arithmetic::power2::lemma_pow2_unfold(n);
                assert(2 * (c * p) == c * (2 * p)) by (nonlinear_arith);
            }
        }
    }
}

/// The hypothesis under which an allocation is served after at most one
/// reclamation pass and one doubling: every alignment in play equals the
/// slot alignment, the capacity ceiling is not hit, and the request's
/// extent fits a doubled buffer even when placed after the whole old
/// frontier's rounded extent.
pub open spec fn pressure_hyp<L: GCLayout>(pre: GC<L>, kp: Packing) -> bool {
    &&& uniform_align(pre.metas())
    &&& kp.align == 8
    &&& 2 * pre.cap() <= CAP_MAX
    &&& slot_end(pre.cap() as int, kp) <= 2 * pre.cap()
}

/// Under the pressure hypothesis a pass at double the capacity satisfies
/// the pass-level success condition: the frontier is at most the
/// capacity, so the request's extent fits behind its rounded image.
proof fn lemma_pressure_target_serves<L: GCLayout>(pre: GC<L>, kp: Packing, target: int)
    requires
        pre.wf(),
        pressure_hyp(pre, kp),
        target == 2 * pre.cap(),
    ensures
        align_up(pre.frontier() as int, 8) + 8 + kp.size <= target,
{
    lemma_align_up(pre.cap() as int, 8);
    lemma_align_up_at_most(pre.frontier() as int, align_up(pre.cap() as int, 8));
    assert(align_up(align_up(pre.cap() as int, 8) + 8, 8) == align_up(pre.cap() as int, 8) + 8);
    assert(slot_end(pre.cap() as int, kp) == align_up(pre.cap() as int, 8) + 8 + kp.size);
}

/// What a successful allocation guarantees: the arena is well formed, the
/// returned offset names a fresh live header carrying the tag and the
/// payload packing, every object that existed before keeps closed
/// references (the fresh payload is reserved, not initialised, so its
/// slots — if its tag enumerates any — are the caller's to fill), and the
/// previous generation relates to the new one by a forwarding map that
/// never produced the fresh offset: roots were rewritten through it,
/// every survivor was copied exactly once with its payload preserved.
pub open spec fn alloc_result<L: GCLayout>(
    pre: GC<L>,
    post: GC<L>,
    h: usize,
    tag: L,
    kp: Packing,
) -> bool {
    &&& post.wf()
    &&& hdr_at(post.metas(), h as int)
    &&& obj_tag(post.metas(), h as int) == tag
    &&& obj_size(post.metas(), h as int) == kp.size as int
    &&& obj_algn(post.metas(), h as int) == kp.align as int
    &&& forall|x: int|
        #[trigger] hdr_at(post.metas(), x) && x != h as int ==> refs_ok(
            post.bytes(),
            post.metas(),
            x,
        )
    &&& (tag.ref_slots().len() == 0 ==> post.refs_closed())
    &&& exists|f: Map<int, int>|
        relocation(
            pre.bytes(),
            pre.metas(),
            pre.roots(),
            post.bytes(),
            post.metas(),
            post.roots(),
            f,
        ) && (forall|j: int| #[trigger] f.dom().contains(j) ==> f[j] != h as int)
            && copies_cover(post.metas(), f, h as int) && (only_reachable(
            pre.bytes(),
            pre.metas(),
            pre.roots(),
            f,
        ) || f == ident(pre.metas()))
}

/// Metadata offset of the slot a bump allocation from `free` would use.
pub open spec fn slot_hdr(free: int) -> int {
    align_up(free, META_ALIGN as int)
}

/// Payload offset of a bump allocation from `free` with packing `k`.
pub open spec fn slot_pay(free: int, k: Packing) -> int {
    align_up(slot_hdr(free) + META_SIZE, k.align as int)
}

/// End of the extent a bump allocation from `free` with packing `k` uses.
pub open spec fn slot_end(free: int, k: Packing) -> int {
    slot_pay(free, k) + k.size
}

/// Bump-allocate a header-plus-payload region from `free`: align forward
/// for the metadata slot, then for the payload, and commit the header only
/// if the whole extent fits below `cap`. On a miss nothing changes.
fn alloc_after<L: GCLayout>(
    free: usize,
    cap: usize,
    metas: &mut Vec<Option<Meta<L>>>,
    tag: L,
    k: Packing,
) -> (r: Option<(usize, usize)>)
    requires
        old(metas)@.len() == cap,
        cap <= CAP_MAX,
        free <= cap,
        is_pow2(k.align as int),
        k.align >= 8,
        k.size >= 8,
    ensures
        r is None ==> *final(metas) == *old(metas) && slot_end(free as int, k) > cap,
        r matches Some((end, hdr)) ==> {
            &&& hdr == slot_hdr(free as int)
            &&& end == slot_end(free as int, k)
            &&& free <= hdr
            &&& hdr + META_SIZE <= slot_pay(free as int, k)
            &&& slot_pay(free as int, k) - hdr < 255
            &&& end <= cap
            &&& final(metas)@ == old(metas)@.update(
                hdr as int,
                Some(
                    Meta::Header {
                        off: (slot_pay(free as int, k) - hdr) as u8,
                        size: k.size,
                        algn: k.align,
                        tag,
                    },
                ),
            )
            &&& hdr_at(final(metas)@, hdr as int)
            &&& hdr_ok(final(metas)@, hdr as int, end as int)
        },
{
    proof {
        crate::layout::lemma_is_pow2_8();
        lemma_align_up(free as int, META_ALIGN as int);
        assert(k.align <= 128) by {
            crate::layout::lemma_pow2_u8_le_128(k.align);
        }
    }
    let mpack = Packing::raw(META_SIZE, META_ALIGN);
    let hdr = mpack.align_after(free);
    proof {
        lemma_align_up(hdr + META_SIZE, k.align as int);
    }
    let after_hdr = mpack.advance(hdr);
    let pay = k.align_after(after_hdr);
    let end = k.advance(pay);
    if end > cap {
        None
    } else {
        let off = (pay - hdr) as u8;
        metas.set(hdr, Some(Meta::Header { off, size: k.size, algn: k.align, tag }));
        proof {
            assert(hdr_at(metas@, hdr as int));
            assert(hdr_ok(metas@, hdr as int, end as int));
        }
        Some((end, hdr))
    }
}

} // verus!
