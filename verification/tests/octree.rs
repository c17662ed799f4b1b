use shocovox_rs::octree::{Error, Octree};
use shocovox_rs::spatial::V3c;

#[test]
fn test_simple_insert_and_get() {
    let mut tree = Octree::<f32>::new(2).ok().unwrap();
    tree.auto_simplify = false;
    tree.insert(&V3c::new(1, 0, 0), 5.0).ok();
    tree.insert(&V3c::new(0, 1, 0), 6.0).ok();
    tree.insert(&V3c::new(0, 0, 1), 7.0).ok();

    assert!(*tree.get(&V3c::new(1, 0, 0)).unwrap() == 5.0);
    assert!(*tree.get(&V3c::new(0, 1, 0)).unwrap() == 6.0);
    assert!(*tree.get(&V3c::new(0, 0, 1)).unwrap() == 7.0);
    assert!(tree.get(&V3c::new(1, 1, 1)).is_none());
}

#[test]
fn test_get_mut() {
    let mut tree = Octree::<f32>::new(2).ok().unwrap();
    tree.auto_simplify = false;
    tree.insert(&V3c::new(1, 0, 0), 5.0).ok();
    tree.insert(&V3c::new(0, 1, 0), 6.0).ok();
    tree.insert(&V3c::new(0, 0, 1), 7.0).ok();

    assert!(*tree.get_mut(&V3c::new(1, 0, 0)).unwrap() == 5.0);
    assert!(*tree.get_mut(&V3c::new(0, 1, 0)).unwrap() == 6.0);
    assert!(*tree.get_mut(&V3c::new(0, 0, 1)).unwrap() == 7.0);
    assert!(tree.get_mut(&V3c::new(1, 1, 1)).is_none());
}

#[test]
fn test_insert_at_lod() {
    let mut tree = Octree::<f32>::new(4).ok().unwrap();
    tree.auto_simplify = false;

    // This will set the area equal to 8 1-sized nodes
    tree.insert_at_lod(&V3c::new(0, 0, 0), 2, 5.0).ok();

    assert!(*tree.get(&V3c::new(0, 0, 0)).unwrap() == 5.0);
    assert!(*tree.get(&V3c::new(0, 0, 1)).unwrap() == 5.0);
    assert!(*tree.get(&V3c::new(0, 1, 0)).unwrap() == 5.0);
    assert!(*tree.get(&V3c::new(0, 1, 1)).unwrap() == 5.0);
    assert!(*tree.get(&V3c::new(1, 0, 0)).unwrap() == 5.0);
    assert!(*tree.get(&V3c::new(1, 0, 1)).unwrap() == 5.0);
    assert!(*tree.get(&V3c::new(1, 1, 0)).unwrap() == 5.0);
    assert!(*tree.get(&V3c::new(1, 1, 1)).unwrap() == 5.0);

    // This will set the area equal to 64 1-sized nodes
    tree.insert_at_lod(&V3c::new(0, 0, 0), 4, 1.0).ok();
    let mut hits = 0;
    for x in 0..4 {
        for y in 0..4 {
            for z in 0..4 {
                if tree.get(&V3c::new(x, y, z)).is_some()
                    && *tree.get(&V3c::new(x, y, z)).unwrap() == 1.0
                {
                    hits += 1;
                }
            }
        }
    }
    assert!(hits == 64);
}

#[test]
fn test_insert_at_lod_with_simplify() {
    let mut tree = Octree::<f32>::new(4).ok().unwrap();

    // This will set the area equal to 8 1-sized nodes
    tree.insert_at_lod(&V3c::new(0, 0, 0), 2, 5.0).ok();

    assert!(*tree.get(&V3c::new(0, 0, 0)).unwrap() == 5.0);
    assert!(*tree.get(&V3c::new(0, 0, 1)).unwrap() == 5.0);
    assert!(*tree.get(&V3c::new(0, 1, 0)).unwrap() == 5.0);
    assert!(*tree.get(&V3c::new(0, 1, 1)).unwrap() == 5.0);
    assert!(*tree.get(&V3c::new(1, 0, 0)).unwrap() == 5.0);
    assert!(*tree.get(&V3c::new(1, 0, 1)).unwrap() == 5.0);
    assert!(*tree.get(&V3c::new(1, 1, 0)).unwrap() == 5.0);
    assert!(*tree.get(&V3c::new(1, 1, 1)).unwrap() == 5.0);

    // This will set the area equal to 64 1-sized nodes
    tree.insert_at_lod(&V3c::new(0, 0, 0), 4, 1.0).ok();
    let mut hits = 0;
    for x in 0..4 {
        for y in 0..4 {
            for z in 0..4 {
                if tree.get(&V3c::new(x, y, z)).is_some()
                    && *tree.get(&V3c::new(x, y, z)).unwrap() == 1.0
                {
                    hits += 1;
                }
            }
        }
    }
    assert!(hits == 64);
}

#[test]
fn test_simplifyable_insert_and_get() {
    let mut tree = Octree::<f32>::new(2).ok().unwrap();

    // The below set of values should be simplified to a single node
    tree.insert(&V3c::new(0, 0, 0), 5.0).ok();
    tree.insert(&V3c::new(0, 0, 1), 5.0).ok();
    tree.insert(&V3c::new(0, 1, 0), 5.0).ok();
    tree.insert(&V3c::new(0, 1, 1), 5.0).ok();
    tree.insert(&V3c::new(1, 0, 0), 5.0).ok();
    tree.insert(&V3c::new(1, 0, 1), 5.0).ok();
    tree.insert(&V3c::new(1, 1, 0), 5.0).ok();
    tree.insert(&V3c::new(1, 1, 1), 5.0).ok();

    // The below should brake the simplified node back to its party
    tree.insert(&V3c::new(0, 0, 0), 4.0).ok();

    // Integrity should be kept
    assert!(*tree.get(&V3c::new(0, 0, 0)).unwrap() == 4.0);
    assert!(*tree.get(&V3c::new(0, 0, 1)).unwrap() == 5.0);
    assert!(*tree.get(&V3c::new(0, 1, 0)).unwrap() == 5.0);
    assert!(*tree.get(&V3c::new(0, 1, 1)).unwrap() == 5.0);
    assert!(*tree.get(&V3c::new(1, 0, 0)).unwrap() == 5.0);
    assert!(*tree.get(&V3c::new(1, 0, 1)).unwrap() == 5.0);
    assert!(*tree.get(&V3c::new(1, 1, 0)).unwrap() == 5.0);
    assert!(*tree.get(&V3c::new(1, 1, 1)).unwrap() == 5.0);
}

#[test]
fn test_simple_clear() {
    let mut tree = Octree::<f32>::new(2).ok().unwrap();
    tree.auto_simplify = false;
    tree.insert(&V3c::new(1, 0, 0), 5.0).ok();
    tree.insert(&V3c::new(0, 1, 0), 6.0).ok();
    tree.insert(&V3c::new(0, 0, 1), 7.0).ok();
    tree.clear(&V3c::new(0, 0, 1)).ok();

    assert!(*tree.get(&V3c::new(1, 0, 0)).unwrap() == 5.0);
    assert!(*tree.get(&V3c::new(0, 1, 0)).unwrap() == 6.0);
    assert!(tree.get(&V3c::new(0, 0, 1)).is_none());
    assert!(tree.get(&V3c::new(1, 1, 1)).is_none());
}

#[test]
fn test_simplifyable_clear() {
    let mut tree = Octree::<f32>::new(2).ok().unwrap();

    // The below set of values should be simplified to a single node
    tree.insert(&V3c::new(0, 0, 0), 5.0).ok();
    tree.insert(&V3c::new(0, 0, 1), 5.0).ok();
    tree.insert(&V3c::new(0, 1, 0), 5.0).ok();
    tree.insert(&V3c::new(0, 1, 1), 5.0).ok();
    tree.insert(&V3c::new(1, 0, 0), 5.0).ok();
    tree.insert(&V3c::new(1, 0, 1), 5.0).ok();
    tree.insert(&V3c::new(1, 1, 0), 5.0).ok();
    tree.insert(&V3c::new(1, 1, 1), 5.0).ok();

    // The below should brake the simplified node back to its party
    tree.clear(&V3c::new(0, 0, 0)).ok();

    // Integrity should be kept
    assert!(tree.get(&V3c::new(0, 0, 0)).is_none());
    assert!(*tree.get(&V3c::new(0, 0, 1)).unwrap() == 5.0);
    assert!(*tree.get(&V3c::new(0, 1, 0)).unwrap() == 5.0);
    assert!(*tree.get(&V3c::new(0, 1, 1)).unwrap() == 5.0);
    assert!(*tree.get(&V3c::new(1, 0, 0)).unwrap() == 5.0);
    assert!(*tree.get(&V3c::new(1, 0, 1)).unwrap() == 5.0);
    assert!(*tree.get(&V3c::new(1, 1, 0)).unwrap() == 5.0);
    assert!(*tree.get(&V3c::new(1, 1, 1)).unwrap() == 5.0);
}

#[test]
fn test_clear_at_lod() {
    let mut tree = Octree::<f32>::new(4).ok().unwrap();

    // This will set the area equal to 64 1-sized nodes
    tree.insert_at_lod(&V3c::new(0, 0, 0), 4, 5.0).ok();

    // This will clear an area equal to 8 1-sized nodes
    tree.clear_at_lod(&V3c::new(0, 0, 0), 2).ok();

    let mut hits = 0;
    for x in 0..4 {
        for y in 0..4 {
            for z in 0..4 {
                if tree.get(&V3c::new(x, y, z)).is_some()
                    && *tree.get(&V3c::new(x, y, z)).unwrap() == 5.0
                {
                    hits += 1;
                }
            }
        }
    }

    // number of hits should be the number of nodes set minus the number of nodes cleared
    assert!(hits == (64 - 8));
}

#[test]
fn new_refuses_sizes_that_are_no_power_of_two() {
    assert!(matches!(Octree::<u32>::new(3), Err(Error::InvalidNodeSize(3))));
    assert!(matches!(Octree::<u32>::new(0), Err(Error::InvalidNodeSize(0))));
    assert!(Octree::<u32>::new(1).is_ok());
    assert!(Octree::<u32>::new(8).is_ok());
}

#[test]
fn positions_outside_the_tree_are_refused() {
    let mut tree = Octree::<u32>::new(4).ok().unwrap();
    assert!(tree.insert(&V3c::new(4, 0, 0), 1).is_err());
    assert!(tree.insert_at_lod(&V3c::new(0, 9, 0), 2, 1).is_err());
    assert!(tree.clear(&V3c::new(0, 0, 4)).is_err());
    assert!(tree.clear_at_lod(&V3c::new(7, 0, 0), 2).is_err());
    assert!(tree.get(&V3c::new(4, 4, 4)).is_none());
}

#[test]
fn get_mut_updates_the_whole_leaf() {
    let mut tree = Octree::<u32>::new(4).ok().unwrap();
    tree.auto_simplify = false;
    tree.insert_at_lod(&V3c::new(0, 0, 0), 2, 3).ok().unwrap();
    *tree.get_mut(&V3c::new(1, 1, 1)).unwrap() = 9;
    for x in 0..2 {
        for y in 0..2 {
            for z in 0..2 {
                assert_eq!(*tree.get(&V3c::new(x, y, z)).unwrap(), 9);
            }
        }
    }
    assert!(tree.get(&V3c::new(2, 0, 0)).is_none());
}

#[test]
fn insert_then_get_gives_back_the_data() {
    let mut tree = Octree::<u32>::new(8).ok().unwrap();
    for i in 0..8u32 {
        tree.insert(&V3c::new(i, 7 - i, i / 2), i + 100).ok().unwrap();
    }
    for i in 0..8u32 {
        assert_eq!(*tree.get(&V3c::new(i, 7 - i, i / 2)).unwrap(), i + 100);
    }
    tree.clear(&V3c::new(3, 4, 1)).ok().unwrap();
    assert!(tree.get(&V3c::new(3, 4, 1)).is_none());
    assert_eq!(*tree.get(&V3c::new(4, 3, 2)).unwrap(), 104);
}

#[test]
fn clear_at_root_level_empties_the_tree() {
    let mut tree = Octree::<u32>::new(2).ok().unwrap();
    tree.insert(&V3c::new(1, 1, 1), 5).ok().unwrap();
    tree.clear_at_lod(&V3c::new(0, 0, 0), 2).ok().unwrap();
    assert!(tree.get(&V3c::new(1, 1, 1)).is_none());
    tree.insert(&V3c::new(0, 1, 0), 6).ok().unwrap();
    assert_eq!(*tree.get(&V3c::new(0, 1, 0)).unwrap(), 6);
}

#[test]
fn setter_switches_simplification_and_keeps_voxels() {
    let mut tree = Octree::<u32>::new(2).ok().unwrap();
    assert!(tree.auto_simplify);
    tree.insert(&V3c::new(1, 0, 0), 3).unwrap();
    tree.set_auto_simplify(false);
    assert!(!tree.auto_simplify);
    assert_eq!(tree.get(&V3c::new(1, 0, 0)), Some(&3));
    for x in 0..2 {
        for y in 0..2 {
            for z in 0..2 {
                tree.insert(&V3c::new(x, y, z), 9).unwrap();
            }
        }
    }
    tree.set_auto_simplify(true);
    tree.clear(&V3c::new(0, 0, 0)).unwrap();
    assert!(tree.get(&V3c::new(0, 0, 0)).is_none());
    assert_eq!(tree.get(&V3c::new(1, 1, 1)), Some(&9));
}
