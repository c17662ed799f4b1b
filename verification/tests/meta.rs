use shocovox_rs::cache::VictimPointer;
use shocovox_rs::octree::Octree;

#[test]
fn test_lvl1_occupancy_bitmask() {
    let original_bitmap: u64 = 0xFA17EDBEEF15DEAD;
    let mut bitmap_target = [0; 8];
    Octree::<u32>::meta_set_lvvl1_occupancy_bitmask(&mut bitmap_target, original_bitmap);
    let reconstructed_bitmap: u64 = bitmap_target[0] as u64 | (bitmap_target[1] as u64) << 32;
    assert!(reconstructed_bitmap == original_bitmap);
}

#[test]
fn node_meta_bits() {
    let mut meta: u32 = 0xABCD_EF12;
    Octree::<u32>::meta_set_is_leaf(&mut meta, true);
    assert_eq!(meta, 0x01CD_EF12);
    Octree::<u32>::meta_set_is_leaf(&mut meta, false);
    assert_eq!(meta, 0x00CD_EF12);
    Octree::<u32>::meta_set_node_occupancy_bitmap(&mut meta, 0x5A);
    assert_eq!(meta, 0x00CD_EF5A);
    let mut target = [7u32; 8];
    Octree::<u32>::meta_set_leaf_occupancy_bitmap(&mut target, 0x0000_0001_0000_0002);
    assert_eq!(target, [2, 1, 7, 7, 7, 7, 7, 7]);
}

#[test]
fn victim_pointer_walks_children_then_nodes() {
    let mut pointer = VictimPointer::new(3);
    assert_eq!(pointer.len(), 3);
    assert!(!pointer.is_full());
    assert_eq!(pointer.meta_index, 2);
    for child in 1..8 {
        pointer.step();
        assert_eq!(pointer.child, child);
        assert_eq!(pointer.meta_index, 2);
    }
    pointer.step();
    assert_eq!(pointer.child, 0);
    assert_eq!(pointer.meta_index, 1);
    pointer.skip_node();
    pointer.skip_node();
    assert_eq!(pointer.meta_index, 2);
    assert_eq!(pointer.get_loop_count(), 1);
    pointer.stored_items = 3;
    assert!(pointer.is_full());
}
