//! Blocks of a composite cloud, and the patches for it.

use gaussian_splat_stream::float_bits::FloatBits;
use gaussian_splat_stream::gaussian::{Gaussian3d, PlanarGaussian3d, PositionBounds};
use gaussian_splat_stream::stream::allocator::BlockAllocator;
use gaussian_splat_stream::stream::composite::{
    plan_write, plane_offset, CompositeStep, CompositeWrite, CompositeWriteQueue,
};

#[test]
fn alloc_first_fit_and_exhaustion() {
    let mut allocator = BlockAllocator::new(100);
    assert_eq!(allocator.allocate(40), Some(0));
    assert_eq!(allocator.allocate(40), Some(40));
    assert_eq!(allocator.allocate(40), None);
    assert_eq!(allocator.allocate(20), Some(80));
    assert_eq!(allocator.used(), 100);
    assert_eq!(allocator.allocate(1), None);
}

#[test]
fn free_coalesces_both_sides() {
    let mut allocator = BlockAllocator::new(90);
    let a = allocator.allocate(30).unwrap();
    let b = allocator.allocate(30).unwrap();
    let c = allocator.allocate(30).unwrap();

    allocator.free(a, 30);
    allocator.free(c, 30);
    assert_eq!(allocator.allocate(40), None);

    allocator.free(b, 30);
    assert_eq!(allocator.used(), 0);
    assert_eq!(allocator.allocate(90), Some(0));
}

#[test]
fn free_reuses_space() {
    let mut allocator = BlockAllocator::new(100);
    let a = allocator.allocate(60).unwrap();
    assert_eq!(allocator.allocate(60), None);
    allocator.free(a, 60);
    assert_eq!(allocator.allocate(60), Some(0));
}

#[test]
fn zero_len_noops() {
    let mut allocator = BlockAllocator::new(10);
    assert_eq!(allocator.allocate(0), None);
    allocator.free(0, 0);
    assert_eq!(allocator.used(), 0);
}

#[test]
fn used_follows_blocks() {
    let mut allocator = BlockAllocator::new(50);
    assert_eq!(allocator.capacity(), 50);
    let a = allocator.allocate(7).unwrap();
    let b = allocator.allocate(11).unwrap();
    assert_eq!(allocator.used(), 18);
    assert!(a + 7 <= b);
    allocator.free(a, 7);
    assert_eq!(allocator.used(), 11);
    assert_eq!(allocator.allocate(5), Some(0));
    assert_eq!(allocator.allocate(2), Some(5));
    assert_eq!(allocator.used(), 18);

    let mut none = BlockAllocator::new(0);
    assert_eq!(none.used(), 0);
    assert_eq!(none.allocate(1), None);
}

#[test]
fn copies_stand_alone() {
    let mut allocator = BlockAllocator::new(10);
    assert_eq!(allocator.allocate(6), Some(0));
    let mut copy = allocator.copied();
    copy.free(0, 6);
    assert_eq!(copy.allocate(10), Some(0));
    assert_eq!(allocator.used(), 6);
    assert_eq!(allocator.allocate(5), None);
}

fn cloud(splats: usize) -> PlanarGaussian3d {
    let zero = FloatBits { bits: 0 };
    PlanarGaussian3d::from_interleaved(
        PositionBounds { mins: [zero; 3], maxs: [zero; 3] },
        vec![Gaussian3d::default(); splats],
    )
}

#[test]
fn patches_wait_for_their_cloud() {
    let mut queue = CompositeWriteQueue::new();
    assert!(queue.is_empty());
    queue.push(CompositeWrite::Block { asset: 1, offset: 0, data: cloud(2) });
    queue.push(CompositeWrite::Clear { asset: 2, offset: 3, len: 4 });
    queue.push(CompositeWrite::Clear { asset: 1, offset: 5, len: 6 });
    assert_eq!(queue.len(), 3);

    let prepared: Vec<Option<usize>> = queue
        .writes
        .iter()
        .map(|write| if write.asset() == 2 { Some(7) } else { None })
        .collect();
    let steps = queue.drain(&prepared);
    assert_eq!(steps.len(), 1);
    assert!(matches!(
        &steps[0],
        CompositeStep::Hide { asset: 2, offset: 3, planes } if planes.len() == 4
    ));
    assert_eq!(queue.len(), 2);
    assert!(matches!(queue.writes[0], CompositeWrite::Block { asset: 1, .. }));
    assert!(matches!(queue.writes[1], CompositeWrite::Clear { asset: 1, offset: 5, len: 6 }));

    let steps = queue.drain(&vec![Some(8), Some(8)]);
    assert!(matches!(&steps[0], CompositeStep::Upload { offset: 0, data, .. } if data.len() == 2));
    assert_eq!(steps[1].warning().unwrap(), "composite clear 5..11 exceeds capacity 8");
    assert!(queue.is_empty());
}

#[test]
fn patches_past_the_end_are_refused() {
    let step = plan_write(CompositeWrite::Block { asset: 1, offset: 7, data: cloud(2) }, 8);
    assert_eq!(step.warning().unwrap(), "composite write 7..9 exceeds capacity 8");
    let step = plan_write(CompositeWrite::Block { asset: 1, offset: 6, data: cloud(2) }, 8);
    assert!(step.warning().is_none());
    assert_eq!(plane_offset(6, 16), 96);
}
