use shocovox_rs::object_pool::empty_marker;
use shocovox_rs::types::{
    Albedo, BoxTreeEntry, BrickData, NodeChildren, NodeChildrenArray, NodeContent,
};

fn palette() -> Vec<Albedo> {
    vec![Albedo { r: 1, g: 2, b: 3, a: 0 }, Albedo { r: 9, g: 9, b: 9, a: 255 }]
}

#[test]
fn packed_voxel_values_split_back() {
    let index = NodeContent::<u32>::pix_complex(7, 3);
    assert_eq!(index, 7 + 3 * 65536);
    assert_eq!(NodeContent::<u32>::pix_color_index(&index), 7);
    assert_eq!(NodeContent::<u32>::pix_data_index(&index), 3);
    let visual = NodeContent::<u32>::pix_visual(1);
    assert_eq!(visual, 0xFFFF_0001);
    assert!(NodeContent::<u32>::pix_data_is_none(&visual));
    assert!(NodeContent::<u32>::pix_color_is_some(&visual));
    let informal = NodeContent::<u32>::pix_informal(2);
    assert_eq!(informal, 0x0002_FFFF);
    assert!(NodeContent::<u32>::pix_color_is_none(&informal));
    assert!(!NodeContent::<u32>::pix_data_is_none(&informal));
    assert!(NodeContent::<u32>::pix_data_is_some(&informal));
}

#[test]
fn empty_voxels_point_to_transparent_colors() {
    let colors = palette();
    let data: Vec<Albedo> = vec![];
    assert!(NodeContent::<u32>::pix_points_to_empty(&NodeContent::<u32>::pix_visual(0), &colors, &data));
    assert!(!NodeContent::<u32>::pix_points_to_empty(&NodeContent::<u32>::pix_visual(1), &colors, &data));
    assert!(NodeContent::<u32>::pix_points_to_empty(&0xFFFF_FFFF, &colors, &data));
    match NodeContent::<u32>::pix_get_ref(&NodeContent::<u32>::pix_visual(1), &colors, &data) {
        BoxTreeEntry::Visual(color) => assert_eq!(*color, colors[1]),
        _ => panic!("expected a color"),
    }
    assert!(matches!(
        NodeContent::<u32>::pix_get_ref(&0xFFFF_FFFF, &colors, &data),
        BoxTreeEntry::Empty
    ));
}

#[test]
fn homogeneous_bricks_simplify() {
    let colors = palette();
    let data: Vec<Albedo> = vec![];
    let visible = NodeContent::<u32>::pix_visual(1);
    let mut brick = BrickData::Parted(vec![visible; 8]);
    assert_eq!(brick.get_homogeneous_data(), Some(&visible));
    assert!(brick.simplify(&colors, &data));
    assert!(brick == BrickData::Solid(visible));

    let mut clear = BrickData::Parted(vec![NodeContent::<u32>::pix_visual(0); 8]);
    assert!(clear.simplify(&colors, &data));
    assert!(clear == BrickData::Empty);

    let mut mixed = BrickData::Parted(vec![visible, NodeContent::<u32>::pix_visual(0)]);
    assert_eq!(mixed.get_homogeneous_data(), None);
    assert!(!mixed.simplify(&colors, &data));

    // a second call finds nothing left to simplify
    assert!(!brick.simplify(&colors, &data));
    assert!(brick == BrickData::Solid(visible));
    let mut solid_clear = BrickData::Solid(NodeContent::<u32>::pix_visual(0));
    assert!(solid_clear.simplify(&colors, &data));
    assert!(solid_clear == BrickData::Empty);
}

#[test]
fn octant_occupancy_of_bricks() {
    let colors = palette();
    let data: Vec<Albedo> = vec![];
    let empty = NodeContent::<u32>::pix_visual(0);
    let full = NodeContent::<u32>::pix_visual(1);
    // 4x4x4 brick with a single visible voxel at (3, 3, 3)
    let mut voxels = vec![empty; 64];
    voxels[3 + 3 * 4 + 3 * 16] = full;
    let brick = BrickData::Parted(voxels);
    // octant 7 has all offsets set in this numbering
    assert!(!brick.is_empty_throughout(7, 4, &colors, &data));
    for octant in 0..7 {
        assert!(brick.is_empty_throughout(octant, 4, &colors, &data));
    }
    assert!(!brick.is_part_empty_throughout(7, 7, 4, &colors, &data));
    assert!(brick.is_part_empty_throughout(7, 0, 4, &colors, &data));
    assert!(BrickData::<u32>::Empty.is_empty_throughout(0, 4, &colors, &data));
    assert!(!BrickData::Solid(full).is_part_empty_throughout(1, 2, 4, &colors, &data));
}

#[test]
fn node_content_queries() {
    let colors = palette();
    let data: Vec<Albedo> = vec![];
    let full = NodeContent::<u32>::pix_visual(1);
    let leaf = NodeContent::Leaf([
        BrickData::Solid(full),
        BrickData::Parted(vec![full; 8]),
        BrickData::Solid(full),
        BrickData::Solid(full),
        BrickData::Solid(full),
        BrickData::Solid(full),
        BrickData::Solid(full),
        BrickData::Solid(full),
    ]);
    assert!(leaf.is_all(&full));
    assert!(!leaf.is_empty(&colors, &data));
    assert!(leaf.compare(&leaf.clone()));
    assert!(!NodeContent::<u32>::Internal(3).compare(&NodeContent::Internal(3)));
    assert!(NodeContent::<u32>::Nothing.compare(&NodeContent::Nothing));
    assert!(NodeContent::<u32>::Nothing.is_empty(&colors, &data));
    assert!(!NodeContent::<u32>::Internal(0).is_all(&full));
    let uniform = NodeContent::UniformLeaf(BrickData::Parted(vec![NodeContent::<u32>::pix_visual(0); 8]));
    assert!(uniform.is_empty(&colors, &data));
    assert!(!uniform.compare(&leaf));
}

#[test]
fn node_children_bookkeeping() {
    let mut children = NodeChildren::new(empty_marker());
    assert!(children.is_empty());
    assert!(children.iter().is_none());
    assert_eq!(children.index(3), empty_marker());
    children.index_set(2, 17);
    assert_eq!(children.index(2), 17);
    assert_eq!(children.index(1), empty_marker());
    assert!(!children.is_empty());
    assert_eq!(children.iter().unwrap()[2], 17);
    children.clear(2);
    assert!(children.content == NodeChildrenArray::NoChildren);
    let bitmaps = NodeChildren::<u32> {
        empty_marker: empty_marker(),
        content: NodeChildrenArray::OccupancyBitmaps([0; 8]),
    };
    assert!(bitmaps.is_empty());
    let bitmap = NodeChildren::<u32> {
        empty_marker: empty_marker(),
        content: NodeChildrenArray::OccupancyBitmap(5),
    };
    assert!(!bitmap.is_empty());
}

fn flat(x: usize, y: usize, z: usize, size: usize) -> usize {
    x + y * size + z * size * size
}

#[test]
fn occupancy_bitmap_of_bricks() {
    let colors = palette();
    let data: Vec<Albedo> = vec![];
    let clear = NodeContent::<u32>::pix_visual(0);
    let visible = NodeContent::<u32>::pix_visual(1);

    let mut four = vec![clear; 64];
    four[flat(3, 0, 2, 4)] = visible;
    let bits = BrickData::Parted(four).calculate_occupied_bits(4, &colors, &data);
    assert_eq!(bits, 1u64 << 35);

    let mut eight = vec![clear; 512];
    eight[flat(5, 1, 7, 8)] = visible;
    let bits = BrickData::Parted(eight).calculate_occupied_bits(8, &colors, &data);
    assert_eq!(bits, 1u64 << 50);

    // in a brick of dimension 2 each voxel covers 2 by 2 by 2 cells
    let mut two = vec![clear; 8];
    two[flat(1, 0, 0, 2)] = visible;
    let bits = BrickData::Parted(two).calculate_occupied_bits(2, &colors, &data);
    let mut expected = 0u64;
    for x in 2..4 {
        for y in 0..2 {
            for z in 0..2 {
                expected |= 1u64 << flat(x, y, z, 4);
            }
        }
    }
    assert_eq!(bits, expected);

    assert_eq!(BrickData::<u32>::Empty.calculate_occupied_bits(4, &colors, &data), 0);
    assert_eq!(BrickData::Solid(visible).calculate_occupied_bits(4, &colors, &data), u64::MAX);
    assert_eq!(BrickData::Solid(clear).calculate_occupied_bits(4, &colors, &data), 0);
}
