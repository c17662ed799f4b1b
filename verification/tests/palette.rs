use shocovox_rs::palette::Palettes;
use shocovox_rs::types::{Albedo, BoxTreeEntry, NodeContent};

#[test]
fn colors_are_stored_once() {
    let mut palettes = Palettes::<Albedo>::new();
    let red = Albedo { r: 255, g: 0, b: 0, a: 255 };
    let blue = Albedo { r: 0, g: 0, b: 255, a: 255 };
    let first = palettes.add_to_palette(&BoxTreeEntry::Visual(&red));
    let second = palettes.add_to_palette(&BoxTreeEntry::Visual(&blue));
    let again = palettes.add_to_palette(&BoxTreeEntry::Visual(&red));
    assert_eq!(first, 0xFFFF_0000);
    assert_eq!(second, 0xFFFF_0001);
    assert_eq!(again, first);
    assert_eq!(palettes.voxel_color_palette, vec![red, blue]);
    assert!(palettes.voxel_data_palette.is_empty());
}

#[test]
fn nothing_to_store_gives_the_empty_marker() {
    let mut palettes = Palettes::<Albedo>::new();
    let zero = Albedo::default();
    assert_eq!(palettes.add_to_palette(&BoxTreeEntry::Empty), u32::MAX);
    assert_eq!(palettes.add_to_palette(&BoxTreeEntry::Visual(&zero)), u32::MAX);
    assert_eq!(palettes.add_to_palette(&BoxTreeEntry::Informative(&zero)), u32::MAX);
    assert_eq!(palettes.add_to_palette(&BoxTreeEntry::Complex(&zero, &zero)), u32::MAX);
    assert!(palettes.voxel_color_palette.is_empty());
}

#[test]
fn complex_entries_store_both() {
    let mut palettes = Palettes::<Albedo>::new();
    let color = Albedo { r: 1, g: 2, b: 3, a: 4 };
    let data = Albedo { r: 5, g: 6, b: 7, a: 8 };
    let index = palettes.add_to_palette(&BoxTreeEntry::Complex(&color, &data));
    assert_eq!(NodeContent::<u32>::pix_color_index(&index), 0);
    assert_eq!(NodeContent::<u32>::pix_data_index(&index), 0);
    assert_eq!(palettes.voxel_color_palette, vec![color]);
    assert_eq!(palettes.voxel_data_palette, vec![data]);
    let only_data = palettes.add_to_palette(&BoxTreeEntry::Complex(&Albedo::default(), &data));
    assert_eq!(only_data, 0x0000_FFFF);
}

#[test]
fn adding_an_entry_twice_changes_nothing() {
    let mut palettes = Palettes::<Albedo>::new();
    let color = Albedo { r: 4, g: 5, b: 6, a: 255 };
    let data = Albedo { r: 1, g: 1, b: 1, a: 1 };
    let first = palettes.add_to_palette(&BoxTreeEntry::Complex(&color, &data));
    let colors = palettes.voxel_color_palette.len();
    let datas = palettes.voxel_data_palette.len();
    let second = palettes.add_to_palette(&BoxTreeEntry::Complex(&color, &data));
    assert_eq!(first, second);
    assert_eq!(palettes.voxel_color_palette.len(), colors);
    assert_eq!(palettes.voxel_data_palette.len(), datas);
}
