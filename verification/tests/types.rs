use shocovox_rs::types::{Albedo, BoxTreeEntry, VoxelData};

#[test]
fn albedo_builders_and_packing() {
    let color = Albedo::default().with_red(1).with_green(2).with_blue(3).with_alpha(4);
    assert_eq!(color, Albedo { r: 1, g: 2, b: 3, a: 4 });
    let packed: Albedo = 0x11223344u32.into();
    assert_eq!(packed, Albedo { r: 0x11, g: 0x22, b: 0x33, a: 0x44 });
    assert!(Albedo::default().is_transparent());
    assert!(!packed.is_transparent());
    assert!(Albedo::default().is_empty());
    assert_eq!(Albedo::default_color(), Albedo::default());
}

#[test]
fn entries_tell_what_they_hold() {
    let red = Albedo { r: 255, g: 0, b: 0, a: 255 };
    let clear = Albedo::default();
    let visual = BoxTreeEntry::<Albedo>::Visual(&red);
    assert_eq!(visual.albedo(), Some(&red));
    assert_eq!(visual.data(), None);
    assert!(visual.is_some());
    let informative = BoxTreeEntry::Informative(&clear);
    assert_eq!(informative.albedo(), None);
    assert_eq!(informative.data(), Some(&clear));
    assert!(informative.is_none());
    let complex = BoxTreeEntry::Complex(&red, &clear);
    assert_eq!(complex.albedo(), Some(&red));
    assert_eq!(complex.data(), Some(&clear));
    assert!(complex.is_some());
    assert!(BoxTreeEntry::<Albedo>::Empty.is_none());
    assert!(!BoxTreeEntry::<Albedo>::Empty.is_some());
}
