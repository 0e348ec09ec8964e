use gcarena::layout::{GCLayout, Packing};
use gcarena::gc::Shape;

#[test]
fn align_forward_lands_on_a_multiple_without_overshooting() {
    let p = Packing::raw(8, 8);
    assert_eq!(p.align_after(0), 0);
    assert_eq!(p.align_after(1), 8);
    assert_eq!(p.align_after(7), 8);
    assert_eq!(p.align_after(8), 8);
    assert_eq!(p.align_after(9), 16);
    let q = Packing::raw(3, 4);
    for addr in 0..64usize {
        let r = q.align_after(addr);
        assert_eq!(r % 4, 0);
        assert!(r >= addr);
        assert!(r - addr < 4);
    }
}

#[test]
fn footprint_is_advance_of_aligned_minus_base() {
    let p = Packing::raw(12, 4);
    assert_eq!(p.footprint(6), 14);
    for addr in 0..32usize {
        assert_eq!(p.footprint(addr), p.advance(p.align_after(addr)) - addr);
    }
}

#[test]
fn packing_of_concrete_types() {
    assert_eq!(Packing::new::<u64>(), Packing::raw(8, 8));
    assert_eq!(Packing::new::<u8>(), Packing::raw(1, 1));
    let widened = Packing::at_least::<u8>(Packing::raw(4, 2));
    assert_eq!(widened, Packing::raw(4, 2));
    let kept = Packing::at_least::<u64>(Packing::raw(4, 2));
    assert_eq!(kept, Packing::raw(8, 8));
}

#[test]
fn leaf_tags_enumerate_no_references() {
    assert_eq!(0u8.get_ref(0), None);
    assert_eq!(Shape::Leaf.get_ref(0), None);
}

#[test]
fn pair_tags_enumerate_both_slots_in_order() {
    let tag = Shape::Pair { first: 0, second: 8 };
    assert_eq!(tag.get_ref(0), Some(0));
    assert_eq!(tag.get_ref(1), Some(8));
    assert_eq!(tag.get_ref(2), None);
    let mut it = tag.refs();
    assert_eq!(it.next(), Some(0));
    assert_eq!(it.next(), Some(8));
    assert_eq!(it.next(), None);
    assert_eq!(it.next(), None);
}
