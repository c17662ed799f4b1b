use shocovox_rs::cache::{
    BrickOwnedBy, OctreeGPUDataHandler, OctreeRenderData, VictimPointer, NODE_LEAF_MASK,
    NODE_USED_MASK,
};
use shocovox_rs::object_pool::empty_marker;
use shocovox_rs::types::{Albedo, BrickData, NodeContent};

fn color() -> Albedo {
    Albedo { r: 1, g: 2, b: 3, a: 255 }
}

fn handler(metadata: Vec<u32>, ownership: Vec<BrickOwnedBy>, victim_brick: usize) -> OctreeGPUDataHandler {
    OctreeGPUDataHandler {
        render_data: OctreeRenderData {
            metadata,
            node_children: vec![],
            node_ocbits: vec![],
        },
        victim_node: VictimPointer::new(1),
        victim_brick,
        brick_ownership: ownership,
        uploaded_color_palette_size: 0,
    }
}

#[test]
fn test_brick_used_mask() {
    assert_eq!(OctreeGPUDataHandler::brick_used_mask(0), 0x0100_0000);
    assert_eq!(OctreeGPUDataHandler::brick_used_mask(7), 0x8000_0000);
    assert_eq!(OctreeGPUDataHandler::brick_used_mask(9), 0x0200_0000);
}

#[test]
fn test_meta_add_leaf_brick_structure() {
    let mut meta = 0x0000_0004;
    OctreeGPUDataHandler::meta_add_leaf_brick_structure(&mut meta, &BrickData::<Albedo>::Empty, 1);
    assert_eq!(meta, 0x0000_0004);
    OctreeGPUDataHandler::meta_add_leaf_brick_structure(&mut meta, &BrickData::Solid(color()), 3);
    assert_eq!(meta, 0x0000_0804);
    OctreeGPUDataHandler::meta_add_leaf_brick_structure(
        &mut meta,
        &BrickData::Parted(vec![color(); 8]),
        2,
    );
    assert_eq!(meta, 0x0004_0C04);
}

#[test]
fn test_create_node_properties() {
    assert_eq!(OctreeGPUDataHandler::create_node_properties(&NodeContent::<Albedo>::Nothing), 0);
    assert_eq!(OctreeGPUDataHandler::create_node_properties(&NodeContent::<Albedo>::Internal(5)), 0);
    assert_eq!(
        OctreeGPUDataHandler::create_node_properties(&NodeContent::UniformLeaf(BrickData::Parted(
            vec![color(); 8]
        ))),
        0x0001_010C
    );
    assert_eq!(
        OctreeGPUDataHandler::create_node_properties(&NodeContent::UniformLeaf(BrickData::<Albedo>::Empty)),
        0x0000_000C
    );
    let leaf = NodeContent::Leaf([
        BrickData::Solid(color()),
        BrickData::Empty,
        BrickData::Parted(vec![color(); 8]),
        BrickData::Empty,
        BrickData::Empty,
        BrickData::Empty,
        BrickData::Empty,
        BrickData::Solid(color()),
    ]);
    // leaf bit, occupancy of bricks 0, 2 and 7, brick 2 parted
    assert_eq!(OctreeGPUDataHandler::create_node_properties(&leaf), 0x0004_8504);
}

#[test]
fn test_first_available_brick_takes_unowned() {
    let mut h = handler(vec![0x0000_0003, 0], vec![BrickOwnedBy::NotOwned; 16], 0);
    assert_eq!(h.first_available_brick(), 0);
    assert_eq!(h.render_data.metadata, vec![0x0100_0003, 0]);
    assert_eq!(h.victim_brick, 0);
}

#[test]
fn test_first_available_brick_second_chance() {
    // every brick is owned and used, except brick 5
    let mut h = handler(
        vec![0xDF00_0005, 0xFF00_0000],
        vec![BrickOwnedBy::Node(1, 0); 16],
        2,
    );
    assert_eq!(h.first_available_brick(), 5);
    // bricks 2, 3 and 4 lost their used bit, brick 5 is marked used
    assert_eq!(h.render_data.metadata, vec![0xE300_0005, 0xFF00_0000]);
    assert_eq!(h.victim_brick, 5);
}

#[test]
fn test_first_available_brick_full_round() {
    let mut h = handler(
        vec![0xFF00_0000, 0xFF00_0000],
        vec![BrickOwnedBy::Node(3, 1); 16],
        11,
    );
    assert_eq!(h.first_available_brick(), 11);
    assert_eq!(h.render_data.metadata, vec![0x0000_0000, 0x0800_0000]);
    assert_eq!(h.victim_brick, 11);
}

#[test]
fn test_first_available_node_with_room() {
    let mut pointer = VictimPointer::new(4);
    let mut data = OctreeRenderData {
        metadata: vec![0; 4],
        node_children: vec![empty_marker(); 32],
        node_ocbits: vec![0; 8],
    };
    assert_eq!(pointer.first_available_node(&mut data), (0, None));
    assert_eq!(data.metadata[0], NODE_USED_MASK);
    assert_eq!(pointer.stored_items, 1);
    assert_eq!(pointer.meta_index, 0);
    assert_eq!(pointer.first_available_node(&mut data), (1, None));
    assert_eq!(pointer.stored_items, 2);
}

#[test]
fn test_first_available_node_robs_a_parent() {
    let mut pointer = VictimPointer::new(2);
    pointer.stored_items = 2;
    let mut children = vec![empty_marker(); 16];
    // node 1 refers to node 0 at its third slot
    children[8 + 2] = 0;
    let mut data = OctreeRenderData {
        metadata: vec![NODE_USED_MASK, NODE_USED_MASK],
        node_children: children,
        node_ocbits: vec![0; 4],
    };
    // node 0 is in use, so it is marked unused on the first pass and taken on the second
    assert_eq!(pointer.first_available_node(&mut data), (0, Some((1, 2))));
    assert_eq!(data.metadata, vec![NODE_USED_MASK, NODE_USED_MASK]);
    assert_eq!(pointer.meta_index, 1);
    assert_eq!(pointer.child, 2);
    assert_eq!(pointer.get_loop_count(), 1);
}

#[test]
fn test_first_available_node_skips_leaves() {
    let mut pointer = VictimPointer::new(3);
    pointer.stored_items = 3;
    let mut children = vec![empty_marker(); 24];
    // node 2 is a leaf, its slots refer to bricks
    children[16] = 1;
    // node 0 refers to node 1 at its fifth slot
    children[4] = 1;
    let mut data = OctreeRenderData {
        metadata: vec![0, 0, NODE_LEAF_MASK | NODE_USED_MASK],
        node_children: children,
        node_ocbits: vec![0; 6],
    };
    assert_eq!(pointer.first_available_node(&mut data), (1, Some((0, 4))));
    assert_eq!(data.metadata, vec![0, NODE_USED_MASK, NODE_LEAF_MASK | NODE_USED_MASK]);
    assert_eq!(pointer.get_loop_count(), 0);
}
