use shocovox_rs::brick_octree::BrickOctree;
use shocovox_rs::spatial::V3c;
use shocovox_rs::types::{Albedo, BoxTreeEntry, OctreeError};

fn red() -> Albedo {
    Albedo { r: 255, g: 0, b: 0, a: 255 }
}

fn blue() -> Albedo {
    Albedo { r: 0, g: 0, b: 255, a: 255 }
}

#[test]
fn brick_octree_rejects_bad_dimensions() {
    assert_eq!(
        BrickOctree::<Albedo>::new(8, 3).err(),
        Some(OctreeError::InvalidBrickDimension(3))
    );
    assert_eq!(
        BrickOctree::<Albedo>::new(8, 2048).err(),
        Some(OctreeError::InvalidBrickDimension(2048))
    );
    assert_eq!(BrickOctree::<Albedo>::new(12, 4).err(), Some(OctreeError::InvalidSize(12)));
    assert_eq!(BrickOctree::<Albedo>::new(6, 4).err(), Some(OctreeError::InvalidSize(6)));
    assert!(BrickOctree::<Albedo>::new(8, 2).is_ok());
    assert!(BrickOctree::<Albedo>::new(4, 4).is_ok());
}

#[test]
fn brick_octree_insert_then_get() {
    let mut tree = BrickOctree::<Albedo>::new(8, 2).ok().unwrap();
    let color = red();
    assert_eq!(tree.insert(&V3c::new(1, 2, 3), &BoxTreeEntry::Visual(&color)), Ok(()));
    assert_eq!(tree.get(&V3c::new(1, 2, 3)), BoxTreeEntry::Visual(&color));
    assert_eq!(tree.get(&V3c::new(1, 2, 2)), BoxTreeEntry::Empty);
    assert_eq!(tree.get(&V3c::new(0, 2, 3)), BoxTreeEntry::Empty);
    assert_eq!(tree.get(&V3c::new(7, 7, 7)), BoxTreeEntry::Empty);
}

#[test]
fn brick_octree_insert_outside_or_bad_size() {
    let mut tree = BrickOctree::<Albedo>::new(8, 2).ok().unwrap();
    let color = red();
    assert_eq!(
        tree.insert(&V3c::new(8, 0, 0), &BoxTreeEntry::Visual(&color)),
        Err(OctreeError::InvalidPosition { x: 8, y: 0, z: 0 })
    );
    assert_eq!(
        tree.insert_at_lod(&V3c::new(0, 0, 0), 3, &BoxTreeEntry::Visual(&color)),
        Err(OctreeError::InvalidSize(3))
    );
    assert_eq!(tree.get(&V3c::new(0, 0, 0)), BoxTreeEntry::Empty);
    assert_eq!(tree.get(&V3c::new(8, 0, 0)), BoxTreeEntry::Empty);
}

#[test]
fn brick_octree_insert_at_lod_fills_the_cell() {
    let mut tree = BrickOctree::<Albedo>::new(8, 2).ok().unwrap();
    let color = blue();
    assert_eq!(tree.insert_at_lod(&V3c::new(5, 1, 2), 4, &BoxTreeEntry::Visual(&color)), Ok(()));
    for x in 0..8 {
        for y in 0..8 {
            for z in 0..8 {
                let expected = if x >= 4 && y < 4 && z < 4 {
                    BoxTreeEntry::Visual(&color)
                } else {
                    BoxTreeEntry::Empty
                };
                assert_eq!(tree.get(&V3c::new(x, y, z)), expected);
            }
        }
    }
}

#[test]
fn brick_octree_insert_at_lod_inside_a_brick() {
    let mut tree = BrickOctree::<Albedo>::new(8, 4).ok().unwrap();
    let first = red();
    let second = blue();
    assert_eq!(tree.insert_at_lod(&V3c::new(0, 0, 0), 8, &BoxTreeEntry::Visual(&first)), Ok(()));
    assert_eq!(tree.insert_at_lod(&V3c::new(1, 1, 1), 2, &BoxTreeEntry::Visual(&second)), Ok(()));
    for x in 0..8 {
        for y in 0..8 {
            for z in 0..8 {
                let expected = if x < 2 && y < 2 && z < 2 {
                    BoxTreeEntry::Visual(&second)
                } else {
                    BoxTreeEntry::Visual(&first)
                };
                assert_eq!(tree.get(&V3c::new(x, y, z)), expected);
            }
        }
    }
}

#[test]
fn brick_octree_insert_larger_than_the_tree_fills_it() {
    let mut tree = BrickOctree::<Albedo>::new(4, 2).ok().unwrap();
    let color = red();
    assert_eq!(tree.insert_at_lod(&V3c::new(3, 3, 3), 64, &BoxTreeEntry::Visual(&color)), Ok(()));
    assert_eq!(tree.get(&V3c::new(0, 0, 0)), BoxTreeEntry::Visual(&color));
    assert_eq!(tree.get(&V3c::new(3, 0, 2)), BoxTreeEntry::Visual(&color));
}

#[test]
fn brick_octree_entry_without_content_is_not_stored() {
    let mut tree = BrickOctree::<Albedo>::new(8, 2).ok().unwrap();
    let transparent = Albedo { r: 10, g: 20, b: 30, a: 0 };
    assert_eq!(tree.insert(&V3c::new(1, 1, 1), &BoxTreeEntry::Visual(&transparent)), Ok(()));
    assert_eq!(tree.get(&V3c::new(1, 1, 1)), BoxTreeEntry::Empty);
    let color = red();
    assert_eq!(tree.insert(&V3c::new(1, 1, 1), &BoxTreeEntry::Visual(&color)), Ok(()));
    assert_eq!(tree.insert(&V3c::new(1, 1, 1), &BoxTreeEntry::Empty), Ok(()));
    assert_eq!(tree.get(&V3c::new(1, 1, 1)), BoxTreeEntry::Visual(&color));
}

#[test]
fn brick_octree_clear_at_lod_erases_the_cell() {
    let mut tree = BrickOctree::<Albedo>::new(8, 2).ok().unwrap();
    let color = red();
    assert_eq!(tree.insert_at_lod(&V3c::new(0, 0, 0), 8, &BoxTreeEntry::Visual(&color)), Ok(()));
    assert_eq!(tree.clear_at_lod(&V3c::new(6, 6, 6), 4), Ok(()));
    assert_eq!(tree.clear(&V3c::new(0, 0, 0)), Ok(()));
    for x in 0..8 {
        for y in 0..8 {
            for z in 0..8 {
                let cleared = (x >= 4 && y >= 4 && z >= 4) || (x == 0 && y == 0 && z == 0);
                let expected = if cleared {
                    BoxTreeEntry::Empty
                } else {
                    BoxTreeEntry::Visual(&color)
                };
                assert_eq!(tree.get(&V3c::new(x, y, z)), expected);
            }
        }
    }
    assert_eq!(
        tree.clear(&V3c::new(0, 9, 0)),
        Err(OctreeError::InvalidPosition { x: 0, y: 9, z: 0 })
    );
    assert_eq!(tree.clear_at_lod(&V3c::new(0, 0, 0), 5), Err(OctreeError::InvalidSize(5)));
}

#[test]
fn brick_octree_update_keeps_the_other_part() {
    let mut tree = BrickOctree::<Albedo>::new(8, 2).ok().unwrap();
    let color = red();
    let data = blue();
    assert_eq!(tree.insert(&V3c::new(2, 3, 4), &BoxTreeEntry::Visual(&color)), Ok(()));
    assert_eq!(tree.update(&V3c::new(2, 3, 4), &BoxTreeEntry::Informative(&data)), Ok(()));
    assert_eq!(tree.get(&V3c::new(2, 3, 4)), BoxTreeEntry::Complex(&color, &data));
    assert_eq!(tree.insert(&V3c::new(2, 3, 4), &BoxTreeEntry::Informative(&data)), Ok(()));
    assert_eq!(tree.get(&V3c::new(2, 3, 4)), BoxTreeEntry::Informative(&data));
    assert_eq!(tree.update(&V3c::new(5, 5, 5), &BoxTreeEntry::Visual(&color)), Ok(()));
    assert_eq!(tree.get(&V3c::new(5, 5, 5)), BoxTreeEntry::Visual(&color));
    assert_eq!(
        tree.update(&V3c::new(5, 5, 8), &BoxTreeEntry::Visual(&color)),
        Err(OctreeError::InvalidPosition { x: 5, y: 5, z: 8 })
    );
}

#[test]
fn brick_octree_simplify_uniform_brick() {
    let mut tree = BrickOctree::<Albedo>::new(8, 2).ok().unwrap();
    let color = red();
    for x in 0..2 {
        for y in 0..2 {
            for z in 0..2 {
                assert_eq!(tree.insert(&V3c::new(x, y, z), &BoxTreeEntry::Visual(&color)), Ok(()));
            }
        }
    }
    assert_eq!(tree.insert(&V3c::new(2, 0, 0), &BoxTreeEntry::Visual(&color)), Ok(()));
    assert!(tree.simplify(&V3c::new(1, 1, 1)));
    assert!(!tree.simplify(&V3c::new(1, 1, 1)));
    assert!(!tree.simplify(&V3c::new(2, 0, 0)));
    assert!(!tree.simplify(&V3c::new(6, 6, 6)));
    assert!(!tree.simplify(&V3c::new(9, 0, 0)));
    for x in 0..2 {
        for y in 0..2 {
            for z in 0..2 {
                assert_eq!(tree.get(&V3c::new(x, y, z)), BoxTreeEntry::Visual(&color));
            }
        }
    }
    assert_eq!(tree.get(&V3c::new(2, 0, 0)), BoxTreeEntry::Visual(&color));
    assert_eq!(tree.get(&V3c::new(3, 0, 0)), BoxTreeEntry::Empty);
}

#[test]
fn brick_octree_clear_after_insert_and_insert_twice() {
    let color = red();
    let other = blue();
    let mut once = BrickOctree::<Albedo>::new(8, 2).ok().unwrap();
    let mut twice = BrickOctree::<Albedo>::new(8, 2).ok().unwrap();
    assert_eq!(once.insert(&V3c::new(7, 7, 7), &BoxTreeEntry::Visual(&other)), Ok(()));
    assert_eq!(twice.insert(&V3c::new(7, 7, 7), &BoxTreeEntry::Visual(&other)), Ok(()));
    assert_eq!(once.insert_at_lod(&V3c::new(1, 0, 0), 2, &BoxTreeEntry::Visual(&color)), Ok(()));
    assert_eq!(twice.insert_at_lod(&V3c::new(1, 0, 0), 2, &BoxTreeEntry::Visual(&color)), Ok(()));
    assert_eq!(twice.insert_at_lod(&V3c::new(0, 1, 1), 2, &BoxTreeEntry::Visual(&color)), Ok(()));
    for x in 0..8 {
        for y in 0..8 {
            for z in 0..8 {
                assert_eq!(once.get(&V3c::new(x, y, z)), twice.get(&V3c::new(x, y, z)));
            }
        }
    }
    assert_eq!(twice.clear_at_lod(&V3c::new(0, 0, 0), 2), Ok(()));
    for x in 0..8 {
        for y in 0..8 {
            for z in 0..8 {
                let expected = if x == 7 && y == 7 && z == 7 {
                    BoxTreeEntry::Visual(&other)
                } else {
                    BoxTreeEntry::Empty
                };
                assert_eq!(twice.get(&V3c::new(x, y, z)), expected);
            }
        }
    }
}
