use voxtree::voxel_bintree::VoxelBintree;

#[test]
fn fresh_line_reads_zero() {
    let t = VoxelBintree::new();
    assert_eq!(t.get(0), 0);
    assert_eq!(t.get(17), 0);
}
