use shocovox_rs::magicavoxel::{ModelPlacement, RotationMatrix};
use shocovox_rs::spatial::V3c;
use shocovox_rs::types::{Albedo, BoxTreeEntry, OctreeError};
use shocovox_rs::vox_octree::{octree_from_placements, VoxModel, VoxVoxel};

fn palette() -> Vec<Albedo> {
    vec![
        Albedo { r: 255, g: 0, b: 0, a: 255 },
        Albedo { r: 0, g: 255, b: 0, a: 255 },
        Albedo { r: 0, g: 0, b: 255, a: 255 },
        Albedo { r: 9, g: 9, b: 9, a: 0 },
    ]
}

fn cube_model(voxels: Vec<VoxVoxel>) -> VoxModel {
    VoxModel { size: V3c::new(2, 2, 2), voxels }
}

fn voxel(x: u8, y: u8, z: u8, i: u8) -> VoxVoxel {
    VoxVoxel { x, y, z, i }
}

#[test]
fn placed_model_lands_with_y_and_z_swapped() {
    let models = vec![cube_model(vec![
        voxel(0, 0, 0, 0),
        voxel(1, 0, 0, 1),
        voxel(0, 1, 0, 2),
        voxel(0, 0, 1, 3),
    ])];
    let placements = vec![ModelPlacement {
        model_id: 0,
        translation: V3c::new(0, 0, 0),
        rotation: RotationMatrix::identity(),
    }];
    let colors = palette();
    let tree = octree_from_placements::<Albedo>(&models, &colors, &placements, 1).ok().unwrap();
    assert_eq!(tree.get(&V3c::new(0, 0, 0)), BoxTreeEntry::Visual(&colors[0]));
    assert_eq!(tree.get(&V3c::new(1, 0, 0)), BoxTreeEntry::Visual(&colors[1]));
    assert_eq!(tree.get(&V3c::new(0, 0, 1)), BoxTreeEntry::Visual(&colors[2]));
    assert_eq!(tree.get(&V3c::new(0, 1, 0)), BoxTreeEntry::Empty);
    assert_eq!(tree.get(&V3c::new(1, 1, 1)), BoxTreeEntry::Empty);
    assert_eq!(tree.get(&V3c::new(3, 3, 3)), BoxTreeEntry::Empty);
    assert_eq!(tree.get(&V3c::new(4, 0, 0)), BoxTreeEntry::Empty);
}

#[test]
fn mirrored_model_is_placed_mirrored() {
    let models = vec![cube_model(vec![voxel(0, 0, 0, 0), voxel(1, 0, 0, 1)])];
    let placements = vec![ModelPlacement {
        model_id: 0,
        translation: V3c::new(0, 0, 0),
        rotation: RotationMatrix { rows: [[-1, 0, 0], [0, 1, 0], [0, 0, 1]] },
    }];
    let colors = palette();
    let tree = octree_from_placements::<Albedo>(&models, &colors, &placements, 1).ok().unwrap();
    assert_eq!(tree.get(&V3c::new(1, 0, 0)), BoxTreeEntry::Visual(&colors[0]));
    assert_eq!(tree.get(&V3c::new(0, 0, 0)), BoxTreeEntry::Visual(&colors[1]));
}

#[test]
fn later_placement_overwrites_an_earlier_voxel() {
    let models = vec![cube_model(vec![voxel(0, 0, 0, 0)]), cube_model(vec![voxel(1, 1, 1, 2)])];
    let placements = vec![
        ModelPlacement { model_id: 0, translation: V3c::new(10, 0, 0), rotation: RotationMatrix::identity() },
        ModelPlacement { model_id: 1, translation: V3c::new(9, -1, -1), rotation: RotationMatrix::identity() },
    ];
    let colors = palette();
    let tree = octree_from_placements::<Albedo>(&models, &colors, &placements, 2).ok().unwrap();
    assert_eq!(tree.get(&V3c::new(1, 1, 1)), BoxTreeEntry::Visual(&colors[2]));
    assert_eq!(tree.get(&V3c::new(0, 0, 0)), BoxTreeEntry::Empty);
    assert_eq!(tree.get(&V3c::new(2, 1, 1)), BoxTreeEntry::Empty);
    assert_eq!(tree.get(&V3c::new(7, 7, 7)), BoxTreeEntry::Empty);
}

#[test]
fn loading_fails_on_bad_brick_dimension_or_stray_voxel() {
    let colors = palette();
    let placements = vec![ModelPlacement {
        model_id: 0,
        translation: V3c::new(0, 0, 0),
        rotation: RotationMatrix::identity(),
    }];
    let models = vec![cube_model(vec![voxel(0, 0, 0, 0)])];
    assert_eq!(
        octree_from_placements::<Albedo>(&models, &colors, &placements, 3).err(),
        Some(OctreeError::InvalidBrickDimension(3))
    );
    let stray = vec![cube_model(vec![voxel(5, 0, 0, 0)])];
    assert_eq!(
        octree_from_placements::<Albedo>(&stray, &colors, &placements, 1).err(),
        Some(OctreeError::InvalidPosition { x: 5, y: 0, z: 0 })
    );
}
