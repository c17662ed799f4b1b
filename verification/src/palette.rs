use crate::node::{color_index_of, data_index_of, has_color, has_data};
use crate::object_pool::empty_marker;
use crate::types::{Albedo, BoxTreeEntry, NodeContent, VoxelData};
use vstd::laws_eq::obeys_concrete_eq;
use std::collections::HashMap;
use vstd::prelude::*;
use vstd::std_specs::cmp::PartialEqSpec;

verus! {

/// The colors and the user data that the voxels of a tree refer to by their index; every color
/// and every user data is stored once
pub struct Palettes<T> {
    pub voxel_color_palette: Vec<Albedo>,
    pub voxel_data_palette: Vec<T>,
    /// The index of each color in the color palette, by the color's packed value
    pub map_to_color_index_in_palette: HashMap<u32, usize>,
}

/// A color packed into one word, as `0xRRGGBBAA`
pub open spec fn packed_color(color: Albedo) -> u32 {
    (color.r * 0x100_0000 + color.g * 0x1_0000 + color.b * 0x100 + color.a) as u32
}

/// Packs a color into one word, as `0xRRGGBBAA`
pub fn pack_color(color: Albedo) -> (packed: u32)
    ensures
        packed == packed_color(color),
{
    (color.r as u32) * 0x100_0000 + (color.g as u32) * 0x1_0000 + (color.b as u32) * 0x100
        + color.a as u32
}

/// Different colors pack into different words
proof fn lemma_packed_color_injective(a: Albedo, b: Albedo)
    requires
        packed_color(a) == packed_color(b),
    ensures
        a == b,
{
    let pa = a.r * 0x100_0000 + a.g * 0x1_0000 + a.b * 0x100 + a.a;
    let pb = b.r * 0x100_0000 + b.g * 0x1_0000 + b.b * 0x100 + b.a;
    assert(0 <= pa <= u32::MAX && 0 <= pb <= u32::MAX);
    assert(pa == pb);
    let p = pa;
    vstd::arithmetic::div_mod::lemma_fundamental_div_mod_converse(p, 0x100, a.r * 0x1_0000 + a.g * 0x100 + a.b, a.a as int);
    vstd::arithmetic::div_mod::lemma_fundamental_div_mod_converse(p, 0x100, b.r * 0x1_0000 + b.g * 0x100 + b.b, b.a as int);
    let q = p / 0x100;
    vstd::arithmetic::div_mod::lemma_fundamental_div_mod_converse(q, 0x100, a.r * 0x100 + a.g, a.b as int);
    vstd::arithmetic::div_mod::lemma_fundamental_div_mod_converse(q, 0x100, b.r * 0x100 + b.g, b.b as int);
    let q2 = q / 0x100;
    vstd::arithmetic::div_mod::lemma_fundamental_div_mod_converse(q2, 0x100, a.r as int, a.g as int);
    vstd::arithmetic::div_mod::lemma_fundamental_div_mod_converse(q2, 0x100, b.r as int, b.g as int);
}

/// The map finds each color of the palette at its index, and holds nothing else
pub open spec fn color_map_ok(palette: Seq<Albedo>, map: Map<u32, usize>) -> bool {
    &&& forall|i: int|
        0 <= i < palette.len() ==> #[trigger] map.contains_key(packed_color(palette[i]))
            && map[packed_color(palette[i])] == i
    &&& forall|k: u32|
        #[trigger] map.contains_key(k) ==> map[k] < palette.len() && packed_color(
            palette[map[k] as int],
        ) == k
}

/// Whether no item occurs twice in the sequence
pub open spec fn no_duplicates<A>(items: Seq<A>) -> bool {
    forall|i: int, j: int| 0 <= i < j < items.len() ==> items[i] != items[j]
}

/// The color every component of which is zero
pub open spec fn zero_albedo() -> Albedo {
    Albedo { r: 0, g: 0, b: 0, a: 0 }
}

impl<T: Copy + PartialEq + VoxelData> Palettes<T> {
    /// Every color and user data is stored once, and both palettes have room for an index
    /// that differs from the missing-entry marker
    pub open spec fn wf(&self) -> bool {
        &&& no_duplicates(self.voxel_color_palette@)
        &&& no_duplicates(self.voxel_data_palette@)
        &&& color_map_ok(self.voxel_color_palette@, self.map_to_color_index_in_palette@)
    }

    /// Empty palettes
    pub fn new() -> (palettes: Self)
        ensures
            palettes.wf(),
            palettes.voxel_color_palette@ == Seq::<Albedo>::empty(),
            palettes.voxel_data_palette@ == Seq::<T>::empty(),
    {
        let palettes = Palettes {
            voxel_color_palette: Vec::new(),
            voxel_data_palette: Vec::new(),
            map_to_color_index_in_palette: HashMap::new(),
        };
        assert(color_map_ok(palettes.voxel_color_palette@, palettes.map_to_color_index_in_palette@));
        palettes
    }

    /// The index of the color in the color palette, which receives it if it does not hold it yet
    fn color_index(&mut self, albedo: Albedo) -> (index: usize)
        requires
            old(self).wf(),
            old(self).voxel_color_palette@.len() < 0xFFFF,
        ensures
            final(self).wf(),
            final(self).voxel_data_palette == old(self).voxel_data_palette,
            index < final(self).voxel_color_palette@.len(),
            index < 0xFFFF,
            final(self).voxel_color_palette@[index as int] == albedo,
            old(self).voxel_color_palette@.contains(albedo) ==> final(self).voxel_color_palette@
                == old(self).voxel_color_palette@,
            !old(self).voxel_color_palette@.contains(albedo) ==> final(self).voxel_color_palette@
                == old(self).voxel_color_palette@.push(albedo),
    {
        broadcast use vstd::std_specs::hash::group_hash_axioms;

        let key = pack_color(albedo);
        let ghost before = self.voxel_color_palette@;
        let ghost map = self.map_to_color_index_in_palette@;
        match self.map_to_color_index_in_palette.get(&key) {
            Some(found) => {
                let i = *found;
                proof {
                    lemma_packed_color_injective(before[i as int], albedo);
                    assert(before.contains(albedo));
                }
                i
            },
            None => {
                proof {
                    assert(!before.contains(albedo)) by {
                        if before.contains(albedo) {
                            let k = choose|k: int| 0 <= k < before.len() && before[k] == albedo;
                            assert(map.contains_key(packed_color(before[k])));
                        }
                    }
                }
                let index = self.voxel_color_palette.len();
                self.voxel_color_palette.push(albedo);
                self.map_to_color_index_in_palette.insert(key, index);
                proof {
                    let after = self.voxel_color_palette@;
                    let m = self.map_to_color_index_in_palette@;
                    assert forall|a: int, b: int| 0 <= a < b < after.len() implies after[a]
                        != after[b] by {
                        if b == before.len() {
                            assert(after[a] == before[a]);
                        }
                    }
                    assert forall|i: int| 0 <= i < after.len() implies #[trigger] m.contains_key(
                        packed_color(after[i]),
                    ) && m[packed_color(after[i])] == i by {
                        if i < before.len() {
                            assert(after[i] == before[i]);
                            if packed_color(before[i]) == key {
                                lemma_packed_color_injective(before[i], albedo);
                            }
                        }
                    }
                    assert forall|k: u32| #[trigger] m.contains_key(k) implies m[k] < after.len()
                        && packed_color(after[m[k] as int]) == k by {
                        if k != key {
                            assert(map.contains_key(k));
                        }
                    }
                }
                index
            },
        }
    }

    /// The index of the user data in the data palette, which receives it if it does not hold it
    /// yet
    fn data_index(&mut self, data: T) -> (index: usize)
        requires
            old(self).wf(),
            old(self).voxel_data_palette@.len() < 0xFFFF,
            obeys_concrete_eq::<T>(),
        ensures
            final(self).wf(),
            final(self).voxel_color_palette == old(self).voxel_color_palette,
            index < final(self).voxel_data_palette@.len(),
            index < 0xFFFF,
            final(self).voxel_data_palette@[index as int] == data,
            old(self).voxel_data_palette@.contains(data) ==> final(self).voxel_data_palette@
                == old(self).voxel_data_palette@,
            !old(self).voxel_data_palette@.contains(data) ==> final(self).voxel_data_palette@
                == old(self).voxel_data_palette@.push(data),
    {
        let mut i: usize = 0;
        while i < self.voxel_data_palette.len()
            invariant
                i <= self.voxel_data_palette@.len(),
                *self == *old(self),
                old(self).wf(),
                old(self).voxel_data_palette@.len() < 0xFFFF,
                obeys_concrete_eq::<T>(),
                forall|j: int| 0 <= j < i ==> self.voxel_data_palette@[j] != data,
            decreases self.voxel_data_palette@.len() - i,
        {
            proof {
                reveal(obeys_concrete_eq);
            }
            if self.voxel_data_palette[i] == data {
                return i;
            }
            i = i + 1;
        }
        let ghost before = self.voxel_data_palette@;
        self.voxel_data_palette.push(data);
        proof {
            assert(!before.contains(data)) by {
                if before.contains(data) {
                    let k = choose|k: int| 0 <= k < before.len() && before[k] == data;
                    assert(before[k] != data);
                }
            }
            assert forall|a: int, b: int|
                0 <= a < b < self.voxel_data_palette@.len() implies self.voxel_data_palette@[a]
                != self.voxel_data_palette@[b] by {
                if b == before.len() {
                    assert(self.voxel_data_palette@[a] == before[a]);
                }
            }
        }
        i
    }
}

/// The color of an entry that goes into the color palette: every color but the zero one
pub open spec fn entry_color<T: VoxelData>(entry: BoxTreeEntry<T>) -> Option<Albedo> {
    match entry {
        BoxTreeEntry::Visual(albedo) => if *albedo != zero_albedo() {
            Some(*albedo)
        } else {
            None
        },
        BoxTreeEntry::Complex(albedo, _) => if *albedo != zero_albedo() {
            Some(*albedo)
        } else {
            None
        },
        _ => None,
    }
}

/// The user data of an entry that goes into the data palette: every user data that is not empty
pub open spec fn entry_data<T: VoxelData>(entry: BoxTreeEntry<T>) -> Option<T> {
    match entry {
        BoxTreeEntry::Informative(data) => if !data.empty() {
            Some(*data)
        } else {
            None
        },
        BoxTreeEntry::Complex(_, data) => if !data.empty() {
            Some(*data)
        } else {
            None
        },
        _ => None,
    }
}

/// A palette after adding the item, if there is one: the palette holds it afterwards, and
/// receives it at its end when it did not hold it
pub open spec fn palette_after<A>(before: Seq<A>, after: Seq<A>, item: Option<A>) -> bool {
    match item {
        Some(x) => if before.contains(x) {
            after == before
        } else {
            after == before.push(x)
        },
        None => after == before,
    }
}

/// The palettes after adding an entry, and the packed value the entry is given: each palette
/// holds the entry's part for it afterwards, receiving it at its end if it did not hold it, and
/// the value refers to those parts of the entry that go into the palettes
pub open spec fn palette_added<T: VoxelData>(
    colors: Seq<Albedo>,
    data: Seq<T>,
    colors_after: Seq<Albedo>,
    data_after: Seq<T>,
    entry: BoxTreeEntry<T>,
    index: u32,
) -> bool {
    &&& palette_after(colors, colors_after, entry_color(entry))
    &&& palette_after(data, data_after, entry_data(entry))
    &&& entry_color(entry) is None && entry_data(entry) is None ==> index == u32::MAX
    &&& has_color(index) <==> entry_color(entry) is Some
    &&& has_data(index) <==> entry_data(entry) is Some
    &&& entry_color(entry) matches Some(color) ==> color_index_of(index) < colors_after.len()
        && colors_after[color_index_of(index)] == color
    &&& entry_data(entry) matches Some(d) ==> data_index_of(index) < data_after.len()
        && data_after[data_index_of(index)] == d
}

/// Adding an entry a second time leaves the palettes as they are and gives the same packed
/// value as the first time
pub proof fn lemma_add_to_palette_twice<T: VoxelData>(
    colors: Seq<Albedo>,
    data: Seq<T>,
    colors_mid: Seq<Albedo>,
    data_mid: Seq<T>,
    colors_after: Seq<Albedo>,
    data_after: Seq<T>,
    entry: BoxTreeEntry<T>,
    first: u32,
    second: u32,
)
    requires
        no_duplicates(colors_mid),
        no_duplicates(data_mid),
        palette_added(colors, data, colors_mid, data_mid, entry, first),
        palette_added(colors_mid, data_mid, colors_after, data_after, entry, second),
    ensures
        colors_after == colors_mid,
        data_after == data_mid,
        second == first,
{
    if let Some(c) = entry_color(entry) {
        assert(colors_mid.contains(c)) by {
            assert(colors_mid[color_index_of(first)] == c);
        }
        assert(color_index_of(second) == color_index_of(first)) by {
            if color_index_of(second) < color_index_of(first) {
                assert(colors_mid[color_index_of(second)] != colors_mid[color_index_of(first)]);
            } else if color_index_of(second) > color_index_of(first) {
                assert(colors_mid[color_index_of(first)] != colors_mid[color_index_of(second)]);
            }
        }
    }
    if let Some(d) = entry_data(entry) {
        assert(data_mid.contains(d)) by {
            assert(data_mid[data_index_of(first)] == d);
        }
        assert(data_index_of(second) == data_index_of(first)) by {
            if data_index_of(second) < data_index_of(first) {
                assert(data_mid[data_index_of(second)] != data_mid[data_index_of(first)]);
            } else if data_index_of(second) > data_index_of(first) {
                assert(data_mid[data_index_of(first)] != data_mid[data_index_of(second)]);
            }
        }
    }
    assert(color_index_of(second) == color_index_of(first));
    assert(data_index_of(second) == data_index_of(first));
    assert(second == first);
}

impl<T: Copy + PartialEq + VoxelData> Palettes<T> {
    /// Updates the stored palette by adding the new colors and data in the given entry
    /// Since unused colors are not removed from the palette, possible "pollution" is possible,
    /// where unused colors remain in the palette.
    /// * Returns with the resulting packed voxel value
    pub fn add_to_palette(&mut self, entry: &BoxTreeEntry<T>) -> (index: u32)
        requires
            old(self).wf(),
            old(self).voxel_color_palette@.len() < 0xFFFF,
            old(self).voxel_data_palette@.len() < 0xFFFF,
            obeys_concrete_eq::<T>(),
        ensures
            final(self).wf(),
            palette_added(old(self).voxel_color_palette@, old(self).voxel_data_palette@, final(self).voxel_color_palette@, final(self).voxel_data_palette@, *entry, index),
    {
        let (color, data): (Option<Albedo>, Option<T>) = match entry {
            BoxTreeEntry::Empty => (None, None),
            BoxTreeEntry::Visual(albedo) => (
                if **albedo == Albedo::default_color() {
                    None
                } else {
                    Some(**albedo)
                },
                None,
            ),
            BoxTreeEntry::Informative(data) => (
                None,
                if data.is_empty() {
                    None
                } else {
                    Some(**data)
                },
            ),
            BoxTreeEntry::Complex(albedo, data) => (
                if **albedo == Albedo::default_color() {
                    None
                } else {
                    Some(**albedo)
                },
                if data.is_empty() {
                    None
                } else {
                    Some(**data)
                },
            ),
        };
        assert(color == entry_color(*entry));
        assert(data == entry_data(*entry));
        assert(u32::MAX / 0x1_0000 == 0xFFFF && u32::MAX % 0x1_0000 == 0xFFFF);
        match (color, data) {
            (None, None) => empty_marker(),
            (Some(albedo), None) => {
                let color_index = self.color_index(albedo);
                NodeContent::pix_visual(color_index as u16)
            },
            (None, Some(user_data)) => {
                let data_index = self.data_index(user_data);
                NodeContent::pix_informal(data_index as u16)
            },
            (Some(albedo), Some(user_data)) => {
                let color_index = self.color_index(albedo);
                let data_index = self.data_index(user_data);
                NodeContent::pix_complex(color_index as u16, data_index as u16)
            },
        }
    }
}

} // verus!