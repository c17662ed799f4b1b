use shocovox_rs::bricktree::BrickTree;
use shocovox_rs::spatial::V3c;
use shocovox_rs::types::OctreeError;

#[test]
fn brick_tree_stores_packed_values() {
    let mut tree = BrickTree::new(16, 4).ok().unwrap();
    assert_eq!(tree.size(), 16);
    assert_eq!(tree.insert_at_lod_internal(&V3c::new(9, 9, 9), 1, 7), Ok(()));
    assert_eq!(tree.get(&V3c::new(9, 9, 9)), Some(7));
    assert_eq!(tree.get(&V3c::new(9, 9, 8)), None);
    assert_eq!(tree.insert_at_lod_internal(&V3c::new(0, 0, 0), 8, 3), Ok(()));
    assert_eq!(tree.get(&V3c::new(7, 7, 7)), Some(3));
    assert_eq!(tree.get(&V3c::new(8, 7, 7)), None);
    assert_eq!(tree.get(&V3c::new(9, 9, 9)), Some(7));
    assert_eq!(tree.insert_at_lod_internal(&V3c::new(5, 5, 5), 2, u32::MAX), Ok(()));
    assert_eq!(tree.get(&V3c::new(4, 4, 4)), None);
    assert_eq!(tree.get(&V3c::new(5, 5, 5)), None);
    assert_eq!(tree.get(&V3c::new(6, 5, 5)), Some(3));
    assert_eq!(tree.get(&V3c::new(16, 0, 0)), None);
}

#[test]
fn brick_tree_rejects_bad_requests() {
    assert_eq!(BrickTree::new(16, 5).err(), Some(OctreeError::InvalidBrickDimension(5)));
    assert_eq!(BrickTree::new(24, 4).err(), Some(OctreeError::InvalidSize(24)));
    let mut tree = BrickTree::new(8, 2).ok().unwrap();
    assert_eq!(
        tree.insert_at_lod_internal(&V3c::new(0, 8, 0), 1, 1),
        Err(OctreeError::InvalidPosition { x: 0, y: 8, z: 0 })
    );
    assert_eq!(tree.insert_at_lod_internal(&V3c::new(0, 0, 0), 6, 1), Err(OctreeError::InvalidSize(6)));
    assert_eq!(tree.get(&V3c::new(0, 0, 0)), None);
}

#[test]
fn brick_tree_simplify_keeps_voxels() {
    let mut tree = BrickTree::new(8, 2).ok().unwrap();
    assert_eq!(tree.insert_at_lod_internal(&V3c::new(0, 0, 0), 1, 5), Ok(()));
    assert!(!tree.simplify(&V3c::new(0, 0, 0)));
    assert_eq!(tree.insert_at_lod_internal(&V3c::new(0, 0, 0), 1, u32::MAX), Ok(()));
    assert!(tree.simplify(&V3c::new(1, 1, 1)));
    assert_eq!(tree.get(&V3c::new(0, 0, 0)), None);
    assert_eq!(tree.insert_at_lod_internal(&V3c::new(2, 2, 2), 2, 9), Ok(()));
    assert!(!tree.simplify(&V3c::new(2, 2, 2)));
    assert_eq!(tree.get(&V3c::new(3, 3, 3)), Some(9));
}
