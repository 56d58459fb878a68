use voxtree::octree::{Octree, OctreeError, EMPTY_VOXEL};

#[test]
fn new_tree_is_empty() {
    let t = Octree::new();
    assert_eq!(t.get([0, 0, 0]), EMPTY_VOXEL);
    assert_eq!(t.get([5, 0, 0]), EMPTY_VOXEL);
}

#[test]
fn sample_out_of_domain_is_empty() {
    let t = Octree::new();
    assert_eq!(t.sample([1, 1, 1], 0), EMPTY_VOXEL);
    assert_eq!(t.sample([0, 0, 0], 3), EMPTY_VOXEL);
}

#[test]
fn paint_grows_and_fills_box() {
    let mut t = Octree::new();
    t.set([0, 0, 0], [2, 2, 2], 5);
    assert_eq!(t.get([0, 0, 0]), 5);
    assert_eq!(t.get([1, 1, 1]), 5);
    assert_eq!(t.get([2, 0, 0]), EMPTY_VOXEL);
}

#[test]
fn paint_partial_box_keeps_rest() {
    let mut t = Octree::new();
    t.set([0, 0, 0], [4, 4, 4], 9);
    t.set([1, 1, 1], [2, 2, 2], 3);
    assert_eq!(t.get([0, 0, 0]), 9);
    assert_eq!(t.get([1, 1, 1]), 3);
    assert_eq!(t.get([2, 2, 2]), 3);
    assert_eq!(t.get([3, 3, 3]), 9);
    assert_eq!(t.get([1, 2, 3]), 9);
    assert_eq!(t.get([2, 1, 2]), 3);
}

#[test]
fn paint_zero_extent_is_noop() {
    let mut t = Octree::new();
    t.set([0, 0, 0], [2, 2, 2], 5);
    let before = t.clone();
    t.set([0, 0, 0], [0, 3, 3], 7);
    assert_eq!(t, before);
}

#[test]
fn paint_merges_uniform_regions() {
    let mut t = Octree::new();
    t.set([0, 0, 0], [1, 1, 1], 7);
    t.set([1, 0, 0], [1, 1, 1], 7);
    t.set([0, 1, 0], [1, 1, 1], 7);
    t.set([1, 1, 0], [1, 1, 1], 7);
    t.set([0, 0, 1], [1, 1, 1], 7);
    t.set([1, 0, 1], [1, 1, 1], 7);
    t.set([0, 1, 1], [1, 1, 1], 7);
    t.set([1, 1, 1], [1, 1, 1], 7);
    for x in 0..2 {
        for y in 0..2 {
            for z in 0..2 {
                assert_eq!(t.get([x, y, z]), 7);
            }
        }
    }
}

#[test]
fn gpu_data_of_fresh_tree() {
    let t = Octree::new();
    let buf = t.gpu_data().unwrap();
    let mut expect = vec![0u32, 0, 0, 0, EMPTY_VOXEL];
    for _ in 0..8 {
        expect.push(0xFFFF_FFFF);
    }
    expect.push(0);
    expect.push(0);
    expect.push(0);
    assert_eq!(buf, expect);
}

#[test]
fn gpu_data_rejects_uncompacted() {
    let mut t = Octree::new();
    t.set([0, 0, 0], [1, 1, 1], 7);
    t.set([0, 0, 0], [2, 2, 2], 5);
    assert_eq!(t.gpu_data(), Err(OctreeError::NotCompacted));
}

#[test]
fn bit_spread_round_trip() {
    assert_eq!(voxtree::voxel_bintree::expand_bits_2(0b1011), 0b1000101);
    assert_eq!(voxtree::voxel_bintree::shrink_bits_2(0b1000101), 0b1011);
    assert_eq!(
        voxtree::voxel_bintree::shrink_bits_2(voxtree::voxel_bintree::expand_bits_2(0xDEAD_BEEF)),
        0xDEAD_BEEF
    );
}

#[test]
fn debug_boxes_lists_solid_leaves() {
    let t = Octree::new();
    assert_eq!(t.debug_boxes(), vec![]);
    let mut t2 = Octree::new();
    t2.set([0, 0, 0], [2, 2, 2], 5);
    assert_eq!(t2.debug_boxes(), vec![([0, 0, 0], 2)]);
    let mut t3 = Octree::new();
    t3.set([0, 0, 0], [1, 1, 1], 9);
    t3.set([1, 1, 1], [1, 1, 1], 4);
    assert_eq!(t3.debug_boxes(), vec![([0, 0, 0], 1), ([1, 1, 1], 1)]);
}

fn buf_query(buf: &[u32], log_extent: u32, mut x: usize, mut y: usize, mut z: usize) -> u32 {
    let mut j = 0usize;
    let mut d = log_extent;
    loop {
        let base = 4 + 12 * j;
        if buf[base + 1] == 0xFFFF_FFFF {
            return buf[base];
        }
        assert!(d > 0);
        let h = 1usize << (d - 1);
        let mut k = 0usize;
        if x >= h {
            k += 1;
            x -= h;
        }
        if y >= h {
            k += 2;
            y -= h;
        }
        if z >= h {
            k += 4;
            z -= h;
        }
        j = buf[base + 1 + k] as usize;
        d -= 1;
    }
}

#[test]
fn gpu_buffer_round_trip() {
    let mut t = Octree::new();
    t.set([2, 2, 2], [1, 1, 1], 5);
    t.set([0, 0, 0], [1, 1, 1], 7);
    let buf = t.gpu_data().unwrap();
    assert_eq!(buf[0], 2);
    for x in 0..4 {
        for y in 0..4 {
            for z in 0..4 {
                assert_eq!(buf_query(&buf, buf[0], x, y, z), t.get([x, y, z]));
            }
        }
    }
}

#[test]
fn paint_far_from_origin_grows_minimally() {
    let mut t = Octree::new();
    t.set([1000, 0, 0], [1, 1, 1], 6);
    assert_eq!(t.get([1000, 0, 0]), 6);
    assert_eq!(t.get([999, 0, 0]), EMPTY_VOXEL);
    assert_eq!(t.get([1001, 0, 0]), EMPTY_VOXEL);
}

#[test]
fn coarse_sample_reports_first_leaf_descendant() {
    let mut t = Octree::new();
    t.set([0, 0, 0], [2, 2, 2], 1);
    t.set([1, 0, 0], [1, 1, 1], 9);
    assert_eq!(t.get([1, 0, 0]), 9);
    assert_eq!(t.sample([0, 0, 0], 1), 1);
    assert_eq!(t.sample([1, 0, 0], 1), 1);
}

#[test]
fn paint_box_spanning_octants() {
    let mut t = Octree::new();
    t.set([0, 0, 0], [4, 4, 4], 2);
    t.set([1, 1, 1], [2, 2, 2], 8);
    for x in 0..4usize {
        for y in 0..4usize {
            for z in 0..4usize {
                let inside = (1..3).contains(&x) && (1..3).contains(&y) && (1..3).contains(&z);
                assert_eq!(t.get([x, y, z]), if inside { 8 } else { 2 });
            }
        }
    }
}

#[test]
fn from_voxels_fills_by_flat_index() {
    let t = Octree::from_voxels(&vec![1, 2, 3, 4, 5, 6, 7, 8]).unwrap();
    for x in 0..2 {
        for y in 0..2 {
            for z in 0..2 {
                assert_eq!(t.get([x, y, z]), (1 + x + 2 * y + 4 * z) as u32);
            }
        }
    }
    assert_eq!(Octree::from_voxels(&vec![0; 7]), Err(OctreeError::InvalidSize));
    assert_eq!(Octree::from_voxels(&vec![]), Err(OctreeError::InvalidSize));
}

#[test]
fn from_voxels_uniform_collapses_to_one_node() {
    let t = Octree::from_voxels(&vec![9; 64]).unwrap();
    let buf = t.gpu_data().unwrap();
    assert_eq!(buf.len(), 4 + 12);
    assert_eq!(t.get([3, 3, 3]), 9);
    assert_eq!(t.get([0, 0, 0]), 9);
}

#[test]
fn shrink_enables_serialization_and_repeats_identically() {
    let mut t = Octree::new();
    t.set([0, 0, 0], [1, 1, 1], 7);
    t.set([0, 0, 0], [2, 2, 2], 5);
    assert_eq!(t.gpu_data(), Err(OctreeError::NotCompacted));
    t.shrink();
    let once = t.clone();
    t.shrink();
    assert_eq!(t, once);
    let buf = t.gpu_data().unwrap();
    assert_eq!(buf.len(), 4 + 12);
    assert_eq!(t.get([1, 1, 1]), 5);
}

#[test]
fn shrink_preserves_values_and_round_trips() {
    let mut t = Octree::new();
    t.set([2, 2, 2], [1, 1, 1], 5);
    t.set([0, 1, 0], [2, 1, 3], 11);
    t.shrink();
    let buf = t.gpu_data().unwrap();
    for x in 0..4 {
        for y in 0..4 {
            for z in 0..4 {
                assert_eq!(buf_query(&buf, buf[0], x, y, z), t.get([x, y, z]));
            }
        }
    }
    assert_eq!(t.get([2, 2, 2]), 5);
    assert_eq!(t.get([1, 1, 2]), 11);
}
