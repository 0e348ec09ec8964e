use gcarena::gc::{Shape, GC};
use gcarena::layout::Packing;

fn leaf() -> Packing {
    Packing::raw(8, 8)
}

#[test]
fn three_leaves_round_trip() {
    let mut gc = GC::<u8>::new(128);
    let x = gc.allocate(0x11, leaf()).unwrap();
    let y = gc.allocate(0x22, leaf()).unwrap();
    let z = gc.allocate(0x33, leaf()).unwrap();

    // three distinct metadata offsets with non-overlapping extents
    assert_eq!(x, 0);
    assert_eq!(y, 16);
    assert_eq!(z, 32);
    let px = gc.fetch(x);
    let py = gc.fetch(y);
    let pz = gc.fetch(z);
    assert_eq!(px, 8);
    assert_eq!(py, 24);
    assert_eq!(pz, 40);

    gc.write_u64(px, 0xDEADBEEFBAADCAFE);
    gc.write_u64(py, 0xBAADCAFEDEADBEEF);
    gc.write_u64(pz, 0xDEADBEEFDEADBEEF);
    assert_eq!(gc.read_u64(gc.fetch(x)), 0xDEADBEEFBAADCAFE);
    assert_eq!(gc.read_u64(gc.fetch(y)), 0xBAADCAFEDEADBEEF);
    assert_eq!(gc.read_u64(gc.fetch(z)), 0xDEADBEEFDEADBEEF);
}

#[test]
fn collection_relocates_the_rooted_graph_and_drops_garbage() {
    let mut gc = GC::<Shape>::new(128);
    let r = gc
        .allocate(Shape::Pair { first: 0, second: 8 }, Packing::raw(16, 8))
        .unwrap();
    let a = gc.allocate(Shape::Leaf, leaf()).unwrap();
    let b = gc.allocate(Shape::Leaf, leaf()).unwrap();
    let c = gc.allocate(Shape::Leaf, leaf()).unwrap();
    assert_eq!((r, a, b, c), (0, 24, 40, 56));

    // r's two interior slots point at a and b; c has no incoming edge
    let pr = gc.fetch(r);
    gc.write_u64(pr, a as u64);
    gc.write_u64(pr + 8, b as u64);
    gc.write_u64(gc.fetch(a), 0xAAAA_AAAA_AAAA_AAAA);
    gc.write_u64(gc.fetch(b), 0xBBBB_BBBB_BBBB_BBBB);
    gc.write_u64(gc.fetch(c), 0xCCCC_CCCC_CCCC_CCCC);
    gc.register_root(r);

    // 72 bytes used; a 64-byte request forces a same-capacity collection,
    // which reclaims only c's 16 bytes — exactly enough
    let big = gc.allocate(Shape::Leaf, Packing::raw(56, 8)).unwrap();
    assert_eq!(gc.capacity(), 128);

    // survivors were packed from the bottom in root-copy order
    let r2 = gc.root_at(0);
    assert_eq!(r2, 0);
    let pr2 = gc.fetch(r2);
    assert_eq!(pr2, 8);
    let a2 = gc.read_u64(pr2) as usize;
    let b2 = gc.read_u64(pr2 + 8) as usize;
    assert_eq!(a2, 24);
    assert_eq!(b2, 40);
    assert_eq!(gc.read_u64(gc.fetch(a2)), 0xAAAA_AAAA_AAAA_AAAA);
    assert_eq!(gc.read_u64(gc.fetch(b2)), 0xBBBB_BBBB_BBBB_BBBB);

    // space accounting: r (24) + a (16) + b (16) survived, c did not,
    // and the pending allocation consumed its 64 bytes
    assert_eq!(big, 56);
    assert_eq!(gc.used(), 120);
    // the reclaimed region was rewritten from the zeroed destination
    assert_eq!(gc.read_u64(gc.fetch(big)), 0);
}

#[test]
fn object_shared_by_two_slots_is_copied_once() {
    let mut gc = GC::<Shape>::new(128);
    let r = gc
        .allocate(Shape::Pair { first: 0, second: 8 }, Packing::raw(16, 8))
        .unwrap();
    let a = gc.allocate(Shape::Leaf, leaf()).unwrap();
    let c = gc.allocate(Shape::Leaf, leaf()).unwrap();
    let pr = gc.fetch(r);
    gc.write_u64(pr, a as u64);
    gc.write_u64(pr + 8, a as u64);
    gc.write_u64(gc.fetch(a), 0x5151_5151_5151_5151);
    gc.write_u64(gc.fetch(c), 0xCCCC_CCCC_CCCC_CCCC);
    gc.register_root(r);

    // 56 bytes used; an 80-byte request forces a collection
    gc.allocate(Shape::Leaf, Packing::raw(72, 8)).unwrap();
    assert_eq!(gc.capacity(), 128);

    let r2 = gc.root_at(0);
    let pr2 = gc.fetch(r2);
    let first = gc.read_u64(pr2) as usize;
    let second = gc.read_u64(pr2 + 8) as usize;
    // both slots resolve to one and the same relocated copy
    assert_eq!(first, second);
    assert_eq!(gc.read_u64(gc.fetch(first)), 0x5151_5151_5151_5151);
    // one copy of r (24 bytes), one of a (16), then the 80-byte request:
    // a second copy of a would not have left room
    assert_eq!(gc.used(), 120);
}

#[test]
fn full_arena_doubles_and_serves_the_allocation() {
    let mut gc = GC::<u8>::new(64);
    let mut handles = Vec::new();
    for i in 0..4u64 {
        let m = gc.allocate(i as u8, leaf()).unwrap();
        gc.register_root(m);
        let p = gc.fetch(m);
        gc.write_u64(p, 0x1000 + i);
        handles.push(m);
    }
    assert_eq!(gc.used(), 64);
    assert_eq!(gc.capacity(), 64);

    // everything is live and rooted: collect reclaims nothing, expand
    // doubles the buffer to exactly 128 bytes, and the request succeeds
    let fresh = gc.allocate(9, leaf()).unwrap();
    assert_eq!(gc.capacity(), 128);
    assert_eq!(fresh, 64);
    assert_eq!(gc.used(), 80);

    // every root survived with its content
    for i in 0..4usize {
        let m = gc.root_at(i);
        assert_eq!(m, 16 * i);
        assert_eq!(gc.read_u64(gc.fetch(m)), 0x1000 + i as u64);
    }
}

#[test]
fn fetch_resolves_after_every_generation() {
    let mut gc = GC::<u8>::new(64);
    let m = gc.allocate(7, leaf()).unwrap();
    gc.register_root(m);
    gc.write_u64(gc.fetch(m), 42);
    // a too-large request: one reclaiming pass at 64 bytes, then a
    // doubling pass to 128, with the root surviving both
    let _ = gc.allocate(8, Packing::raw(96, 8)).unwrap();
    assert_eq!(gc.capacity(), 128);
    let m2 = gc.root_at(0);
    assert_eq!(gc.read_u64(gc.fetch(m2)), 42);
}
