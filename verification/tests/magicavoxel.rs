use nalgebra::Matrix3;
use shocovox_rs::magicavoxel::{parse_rotation_matrix, RotationMatrix};

fn from_matrix(m: &Matrix3<i8>) -> RotationMatrix {
    RotationMatrix {
        rows: [
            [m.m11, m.m12, m.m13],
            [m.m21, m.m22, m.m23],
            [m.m31, m.m32, m.m33],
        ],
    }
}

#[test]
fn test_matrix_parse() {
    let test_matrix = Matrix3::<i8>::new(1, 0, 0, 0, 1, 0, 0, 0, 1);
    assert!(test_matrix.m11 == 1);
    assert!(test_matrix.m22 == 1);
    assert!(test_matrix.m33 == 1);

    let parsed_matrix = parse_rotation_matrix(4);
    assert!(parse_rotation_matrix(4) == from_matrix(&test_matrix));
    assert!(parsed_matrix.rows[0][0] == 1);
    assert!(parsed_matrix.rows[1][1] == 1);
    assert!(parsed_matrix.rows[2][2] == 1);

    let example = Matrix3::<i8>::new(0, 1, 0, 0, 0, -1, -1, 0, 0);
    let parsed_example =
        parse_rotation_matrix((1 << 0) | (2 << 2) | (0 << 4) | (1 << 5) | (1 << 6));
    assert!(parsed_example == from_matrix(&example));
    assert!(parsed_example.rows[0][1] == 1);
    assert!(parsed_example.rows[1][2] == -1);
    assert!(parsed_example.rows[2][0] == -1);
}

#[test]
fn identity_rotation() {
    let identity = RotationMatrix::identity();
    assert_eq!(identity.rows, [[1, 0, 0], [0, 1, 0], [0, 0, 1]]);
    assert_eq!(parse_rotation_matrix(4), identity);
}

use shocovox_rs::magicavoxel::{iterate_vox_tree, VoxError, VoxFrame, VoxSceneNode, VoxShapeModel};
use shocovox_rs::spatial::V3c;

fn frame(translation: Option<(i32, i32, i32)>, rotation: Option<u8>) -> VoxFrame {
    VoxFrame {
        translation: translation.map(|(x, y, z)| V3c::new(x, y, z)),
        rotation,
    }
}

fn sample_scene() -> Vec<VoxSceneNode> {
    vec![
        VoxSceneNode::Transform { child: 1, frames: vec![frame(Some((1, 2, 3)), None)] },
        VoxSceneNode::Group { children: vec![2, 4] },
        VoxSceneNode::Transform { child: 3, frames: vec![frame(Some((10, 0, 0)), Some(4))] },
        VoxSceneNode::Shape {
            models: vec![
                VoxShapeModel { model_id: 7, frame: 0 },
                VoxShapeModel { model_id: 8, frame: 1 },
            ],
        },
        VoxSceneNode::Transform {
            child: 5,
            frames: vec![frame(Some((0, 5, 0)), Some((1 << 0) | (2 << 2) | (1 << 5) | (1 << 6)))],
        },
        VoxSceneNode::Shape { models: vec![VoxShapeModel { model_id: 9, frame: 0 }] },
    ]
}

#[test]
fn scene_walk_places_models() {
    let placements = iterate_vox_tree(&sample_scene(), 0).ok().unwrap();
    assert_eq!(placements.len(), 2);
    assert_eq!(placements[0].model_id, 7);
    assert_eq!(placements[0].translation, V3c::new(10, 0, 0));
    assert_eq!(placements[0].rotation, RotationMatrix::identity());
    assert_eq!(placements[1].model_id, 9);
    assert_eq!(placements[1].translation, V3c::new(0, 5, 0));
    assert_eq!(placements[1].rotation.rows, [[0, 1, 0], [0, 0, -1], [-1, 0, 0]]);

    let later = iterate_vox_tree(&sample_scene(), 1).ok().unwrap();
    assert_eq!(later.len(), 1);
    assert_eq!(later[0].model_id, 8);
    assert_eq!(later[0].translation, V3c::new(10, 0, 0));
}

#[test]
fn rotations_accumulate_down_the_scene() {
    let quarter = (1 << 0) | (0 << 2) | (1 << 4);
    let scene = vec![
        VoxSceneNode::Transform { child: 1, frames: vec![frame(None, None)] },
        VoxSceneNode::Transform { child: 2, frames: vec![frame(None, Some(quarter))] },
        VoxSceneNode::Transform { child: 3, frames: vec![frame(Some((1, 1, 1)), Some(quarter))] },
        VoxSceneNode::Shape { models: vec![VoxShapeModel { model_id: 0, frame: 0 }] },
    ];
    let placements = iterate_vox_tree(&scene, 0).ok().unwrap();
    let single = parse_rotation_matrix(quarter);
    assert_eq!(placements[0].rotation, single.multiplied(&single));
    assert_eq!(placements[0].translation, V3c::new(1, 1, 1));
}

#[test]
fn malformed_scenes_are_refused() {
    assert_eq!(iterate_vox_tree(&vec![], 0).err(), Some(VoxError::NoRootTransform));
    assert_eq!(
        iterate_vox_tree(&vec![VoxSceneNode::Group { children: vec![] }], 0).err(),
        Some(VoxError::NoRootTransform)
    );
    let cycle = vec![
        VoxSceneNode::Transform { child: 1, frames: vec![frame(None, None)] },
        VoxSceneNode::Group { children: vec![1] },
    ];
    assert_eq!(iterate_vox_tree(&cycle, 0).err(), Some(VoxError::TooDeep));
    let missing = vec![VoxSceneNode::Transform { child: 9, frames: vec![frame(None, None)] }];
    assert_eq!(iterate_vox_tree(&missing, 0).err(), Some(VoxError::MissingNode));
    let no_frames = vec![
        VoxSceneNode::Transform { child: 1, frames: vec![frame(None, None)] },
        VoxSceneNode::Transform { child: 0, frames: vec![] },
    ];
    assert_eq!(iterate_vox_tree(&no_frames, 0).err(), Some(VoxError::MissingFrame));
    let bad_rotation = vec![
        VoxSceneNode::Transform { child: 1, frames: vec![frame(None, None)] },
        VoxSceneNode::Transform { child: 2, frames: vec![frame(None, Some(3))] },
        VoxSceneNode::Shape { models: vec![] },
    ];
    assert_eq!(iterate_vox_tree(&bad_rotation, 0).err(), Some(VoxError::InvalidRotation));
    let far = vec![
        VoxSceneNode::Transform { child: 1, frames: vec![frame(None, None)] },
        VoxSceneNode::Transform { child: 2, frames: vec![frame(Some((i32::MAX, 0, 0)), None)] },
        VoxSceneNode::Transform { child: 3, frames: vec![frame(Some((1, 0, 0)), None)] },
        VoxSceneNode::Shape { models: vec![] },
    ];
    assert_eq!(iterate_vox_tree(&far, 0).err(), Some(VoxError::TranslationOverflow));
}

#[test]
fn every_child_of_a_group_is_placed() {
    let scene = vec![
        VoxSceneNode::Transform { child: 1, frames: vec![frame(None, None)] },
        VoxSceneNode::Group { children: vec![2, 3, 4] },
        VoxSceneNode::Shape { models: vec![VoxShapeModel { model_id: 1, frame: 0 }] },
        VoxSceneNode::Shape { models: vec![VoxShapeModel { model_id: 2, frame: 0 }] },
        VoxSceneNode::Shape { models: vec![VoxShapeModel { model_id: 3, frame: 0 }] },
    ];
    let placements = iterate_vox_tree(&scene, 0).ok().unwrap();
    let ids: Vec<u32> = placements.iter().map(|p| p.model_id).collect();
    assert_eq!(ids, vec![1, 2, 3]);
}
