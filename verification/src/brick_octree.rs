use crate::bricktree::BrickTree;
use crate::node::{color_index_of, data_index_of, has_color, has_data, index_in_palettes};
use crate::octree::{cleared_cell, filled_cell, in_tree, lod_size};
use crate::palette::{entry_color, entry_data, palette_after, Palettes};
use crate::spatial::{is_power_of_two, power_of_two, same_cell, V3c};
use crate::types::{Albedo, BoxTreeEntry, BrickData, NodeContent, OctreeError, VoxelData};
use vstd::laws_eq::obeys_concrete_eq;
use vstd::prelude::*;

verus! {

/// The color and the user data a packed palette value refers to
pub open spec fn entry_value<T>(index: u32, colors: Seq<Albedo>, data: Seq<T>) -> (
    Option<Albedo>,
    Option<T>,
) {
    (
        if has_color(index) {
            Some(colors[color_index_of(index)])
        } else {
            None
        },
        if has_data(index) {
            Some(data[data_index_of(index)])
        } else {
            None
        },
    )
}

/// The color and the user data an entry holds
pub open spec fn entry_parts<T: VoxelData>(entry: BoxTreeEntry<T>) -> (Option<Albedo>, Option<T>) {
    match entry {
        BoxTreeEntry::Empty => (None, None),
        BoxTreeEntry::Visual(albedo) => (Some(*albedo), None),
        BoxTreeEntry::Informative(data) => (None, Some(*data)),
        BoxTreeEntry::Complex(albedo, data) => (Some(*albedo), Some(*data)),
    }
}

/// The color and the user data an entry stores, leaving out its zero color and its empty data
pub open spec fn stored_parts<T: VoxelData>(entry: BoxTreeEntry<T>) -> (Option<Albedo>, Option<T>) {
    (entry_color(entry), entry_data(entry))
}

/// What a position holds after an update: each part the entry stores replaces the one held
pub open spec fn merged_parts<T>(new: (Option<Albedo>, Option<T>), old: Option<(Option<Albedo>, Option<T>)>) -> (
    Option<Albedo>,
    Option<T>,
) {
    match old {
        None => new,
        Some(held) => (
            if new.0 is Some {
                new.0
            } else {
                held.0
            },
            if new.1 is Some {
                new.1
            } else {
                held.1
            },
        ),
    }
}

/// A voxel octree with palettes: every voxel refers by a packed value to a color of the color
/// palette and to a user data of the data palette, and the packed values are stored in the
/// bricks of a brick tree
pub struct BrickOctree<T> {
    voxels: BrickTree,
    palettes: Palettes<T>,
}

impl<T> BrickOctree<T> {
    /// The colors the voxels refer to
    pub closed spec fn colors(&self) -> Seq<Albedo> {
        self.palettes.voxel_color_palette@
    }

    /// The user data the voxels refer to
    pub closed spec fn data(&self) -> Seq<T> {
        self.palettes.voxel_data_palette@
    }

    /// The edge length of the cube the tree covers
    pub closed spec fn spec_size(&self) -> nat {
        self.voxels.spec_size()
    }

    /// The edge length of a brick
    pub closed spec fn spec_brick_dim(&self) -> u32 {
        self.voxels.spec_brick_dim()
    }
}

impl<T> View for BrickOctree<T> {
    /// The color and the user data stored at each position
    type V = Map<V3c<u32>, (Option<Albedo>, Option<T>)>;

    closed spec fn view(&self) -> Map<V3c<u32>, (Option<Albedo>, Option<T>)> {
        Map::new(
            |p: V3c<u32>| self.voxels@.contains_key(p),
            |p: V3c<u32>| entry_value(self.voxels@[p], self.colors(), self.data()),
        )
    }
}

/// A value a palette refers to stays the same when the palette receives more items at its end
proof fn lemma_entry_value_grows<T>(
    index: u32,
    colors: Seq<Albedo>,
    data: Seq<T>,
    colors_after: Seq<Albedo>,
    data_after: Seq<T>,
)
    requires
        index_in_palettes(index, colors.len() as int, data.len() as int),
        colors.len() <= colors_after.len(),
        data.len() <= data_after.len(),
        colors_after.subrange(0, colors.len() as int) == colors,
        data_after.subrange(0, data.len() as int) == data,
    ensures
        index_in_palettes(index, colors_after.len() as int, data_after.len() as int),
        entry_value(index, colors_after, data_after) == entry_value(index, colors, data),
{
    if has_color(index) {
        assert(colors_after[color_index_of(index)] == colors_after.subrange(
            0,
            colors.len() as int,
        )[color_index_of(index)]);
    }
    if has_data(index) {
        assert(data_after[data_index_of(index)] == data_after.subrange(
            0,
            data.len() as int,
        )[data_index_of(index)]);
    }
}

/// A palette after receiving at most one item at its end starts with the palette before
proof fn lemma_palette_prefix<A>(before: Seq<A>, after: Seq<A>, item: Option<A>)
    requires
        palette_after(before, after, item),
    ensures
        before.len() <= after.len() <= before.len() + 1,
        after.subrange(0, before.len() as int) == before,
{
    assert(after.subrange(0, before.len() as int) =~= before);
}

impl<T: Copy + PartialEq + VoxelData> BrickOctree<T> {
    /// The structural invariant: the brick tree and the palettes are well formed, and every
    /// stored voxel refers to palette entries that exist
    pub closed spec fn wf(&self) -> bool {
        &&& self.voxels.wf()
        &&& self.palettes.wf()
        &&& forall|p: V3c<u32>| #[trigger]
            self.voxels@.contains_key(p) ==> index_in_palettes(
                self.voxels@[p],
                self.colors().len() as int,
                self.data().len() as int,
            ) && self.voxels@[p] != u32::MAX
    }

    /// Creates an empty tree covering a cube of the given size, made of bricks of the given
    /// dimension. The brick dimension must be a power of two of at most 1024, and the size a
    /// multiple of it by a power of two.
    pub fn new(size: u32, brick_dimension: u32) -> (result: Result<Self, OctreeError>)
        ensures
            match result {
                Ok(tree) => {
                    &&& tree.wf()
                    &&& tree@ == Map::<V3c<u32>, (Option<Albedo>, Option<T>)>::empty()
                    &&& tree.spec_size() == size
                    &&& tree.spec_brick_dim() == brick_dimension
                    &&& tree.colors() == Seq::<Albedo>::empty()
                    &&& tree.data() == Seq::<T>::empty()
                },
                Err(OctreeError::InvalidBrickDimension(d)) => d == brick_dimension && (
                !is_power_of_two(brick_dimension as nat) || brick_dimension > 1024),
                Err(OctreeError::InvalidSize(s)) => s == size && is_power_of_two(
                    brick_dimension as nat,
                ) && brick_dimension <= 1024 && !(size % brick_dimension == 0
                    && is_power_of_two((size / brick_dimension) as nat)),
                Err(_) => false,
            },
            result is Ok <==> (is_power_of_two(brick_dimension as nat) && brick_dimension <= 1024
                && size % brick_dimension == 0 && is_power_of_two((size / brick_dimension) as nat)),
    {
        let voxels = match BrickTree::new(size, brick_dimension) {
            Ok(v) => v,
            Err(e) => {
                return Err(e);
            },
        };
        let result = BrickOctree { voxels, palettes: Palettes::new() };
        assert(result@ =~= Map::<V3c<u32>, (Option<Albedo>, Option<T>)>::empty());
        Ok(result)
    }

    /// The entry at the given position: the color and the user data stored there
    pub fn get(&self, position: &V3c<u32>) -> (entry: BoxTreeEntry<'_, T>)
        requires
            self.wf(),
        ensures
            self@.contains_key(*position) ==> entry_parts(entry) == self@[*position],
            !self@.contains_key(*position) ==> entry == BoxTreeEntry::<T>::Empty,
    {
        match self.voxels.get(position) {
            None => BoxTreeEntry::Empty,
            Some(index) => {
                assert(self.voxels@.contains_key(*position));
                NodeContent::pix_get_ref(
                    &index,
                    self.palettes.voxel_color_palette.as_slice(),
                    self.palettes.voxel_data_palette.as_slice(),
                )
            },
        }
    }

    /// Stores the packed value at the grid cell of the given size holding the position, after
    /// the palettes grew by at most the parts of one entry
    proof fn lemma_store(
        old_t: Self,
        new_t: Self,
        p: V3c<u32>,
        s: nat,
        index: u32,
        value: (Option<Albedo>, Option<T>),
    )
        requires
            old_t.wf(),
            new_t.voxels.wf(),
            new_t.palettes.wf(),
            old_t.colors().len() <= new_t.colors().len(),
            old_t.data().len() <= new_t.data().len(),
            new_t.colors().subrange(0, old_t.colors().len() as int) == old_t.colors(),
            new_t.data().subrange(0, old_t.data().len() as int) == old_t.data(),
            index != u32::MAX,
            index_in_palettes(index, new_t.colors().len() as int, new_t.data().len() as int),
            entry_value(index, new_t.colors(), new_t.data()) == value,
            new_t.voxels@ == filled_cell(old_t.voxels@, p, s, index),
        ensures
            new_t.wf(),
            new_t@ == filled_cell(old_t@, p, s, value),
    {
        assert forall|q: V3c<u32>| #[trigger] new_t.voxels@.contains_key(q) implies index_in_palettes(
            new_t.voxels@[q],
            new_t.colors().len() as int,
            new_t.data().len() as int,
        ) && new_t.voxels@[q] != u32::MAX by {
            if !crate::spatial::same_cell(p, q, s) {
                lemma_entry_value_grows(
                    old_t.voxels@[q],
                    old_t.colors(),
                    old_t.data(),
                    new_t.colors(),
                    new_t.data(),
                );
            }
        }
        assert forall|q: V3c<u32>| #[trigger] new_t@.contains_key(q) implies new_t@[q] == filled_cell(
            old_t@,
            p,
            s,
            value,
        )[q] by {
            if !crate::spatial::same_cell(p, q, s) {
                lemma_entry_value_grows(
                    old_t.voxels@[q],
                    old_t.colors(),
                    old_t.data(),
                    new_t.colors(),
                    new_t.data(),
                );
            }
        }
        assert(new_t@ =~= filled_cell(old_t@, p, s, value));
    }

    /// Inserts the entry into every position of the grid cell of the given size holding the
    /// position, the size being cut to the size of the tree. An entry that holds nothing rays
    /// would hit leaves the tree as it is; to erase, use `clear_at_lod`. The colors and user data
    /// of the entry are added to the palettes where they are not there yet.
    pub fn insert_at_lod(
        &mut self,
        position: &V3c<u32>,
        insert_size: u32,
        data: &BoxTreeEntry<T>,
    ) -> (result: Result<(), OctreeError>)
        requires
            old(self).wf(),
            old(self).colors().len() < 0xFFFF,
            old(self).data().len() < 0xFFFF,
            obeys_concrete_eq::<T>(),
        ensures
            final(self).wf(),
            final(self).spec_size() == old(self).spec_size(),
            final(self).spec_brick_dim() == old(self).spec_brick_dim(),
            !is_power_of_two(insert_size as nat) ==> result == Err::<(), OctreeError>(
                OctreeError::InvalidSize(insert_size),
            ),
            is_power_of_two(insert_size as nat) && !in_tree(*position, old(self).spec_size() as u32)
                ==> result == Err::<(), OctreeError>(
                OctreeError::InvalidPosition { x: position.x, y: position.y, z: position.z },
            ),
            is_power_of_two(insert_size as nat) && in_tree(*position, old(self).spec_size() as u32)
                ==> result == Ok::<(), OctreeError>(()),
            result is Ok && !data.holds_nothing() ==> final(self)@ == filled_cell(
                old(self)@,
                *position,
                lod_size(insert_size, old(self).spec_size() as u32),
                stored_parts(*data),
            ) && palette_after(old(self).colors(), final(self).colors(), entry_color(*data))
                && palette_after(old(self).data(), final(self).data(), entry_data(*data)),
            result is Err || data.holds_nothing() ==> final(self)@ == old(self)@
                && final(self).colors() == old(self).colors()
                && final(self).data() == old(self).data(),
    {
        if !power_of_two(insert_size) {
            return Err(OctreeError::InvalidSize(insert_size));
        }
        let size = self.voxels.size();
        if position.x >= size || position.y >= size || position.z >= size {
            return Err(
                OctreeError::InvalidPosition { x: position.x, y: position.y, z: position.z },
            );
        }
        if data.is_none() {
            return Ok(());
        }
        let ghost old_t = *self;
        let packed = self.palettes.add_to_palette(data);
        proof {
            assert(entry_color(*data) is Some || entry_data(*data) is Some);
            assert(packed != u32::MAX);
            lemma_palette_prefix(old_t.colors(), self.colors(), entry_color(*data));
            lemma_palette_prefix(old_t.data(), self.data(), entry_data(*data));
        }
        let result = self.voxels.insert_at_lod_internal(position, insert_size, packed);
        proof {
            let s = lod_size(insert_size, old_t.spec_size() as u32);
            assert(self.voxels@ == filled_cell(old_t.voxels@, *position, s, packed));
            BrickOctree::lemma_store(old_t, *self, *position, s, packed, stored_parts(*data));
        }
        result
    }
}


impl<T: Copy + PartialEq + VoxelData> BrickOctree<T> {
    /// The brick that holds the position, if the tree holds one there
    pub closed spec fn brick_at(&self, p: V3c<u32>) -> Option<BrickData<u32>> {
        self.voxels.brick_at(p)
    }

    /// Inserts the entry at the given position; see `insert_at_lod`
    pub fn insert(&mut self, position: &V3c<u32>, data: &BoxTreeEntry<T>) -> (result: Result<
        (),
        OctreeError,
    >)
        requires
            old(self).wf(),
            old(self).colors().len() < 0xFFFF,
            old(self).data().len() < 0xFFFF,
            obeys_concrete_eq::<T>(),
        ensures
            final(self).wf(),
            final(self).spec_size() == old(self).spec_size(),
            final(self).spec_brick_dim() == old(self).spec_brick_dim(),
            !in_tree(*position, old(self).spec_size() as u32) ==> result == Err::<(), OctreeError>(
                OctreeError::InvalidPosition { x: position.x, y: position.y, z: position.z },
            ),
            in_tree(*position, old(self).spec_size() as u32) ==> result == Ok::<(), OctreeError>(()),
            result is Ok && !data.holds_nothing() ==> final(self)@ == old(self)@.insert(
                *position,
                stored_parts(*data),
            ) && palette_after(old(self).colors(), final(self).colors(), entry_color(*data))
                && palette_after(old(self).data(), final(self).data(), entry_data(*data)),
            result is Err || data.holds_nothing() ==> final(self)@ == old(self)@
                && final(self).colors() == old(self).colors()
                && final(self).data() == old(self).data(),
    {
        proof {
            lemma_pow2_one();
        }
        let result = self.insert_at_lod(position, 1, data);
        proof {
            if result is Ok && !data.holds_nothing() {
                lemma_unit_cell(old(self)@, *position, stored_parts(*data));
            }
        }
        result
    }

    /// Erases every position of the grid cell of the given size holding the position, the size
    /// being cut to the size of the tree
    pub fn clear_at_lod(&mut self, position: &V3c<u32>, clear_size: u32) -> (result: Result<
        (),
        OctreeError,
    >)
        requires
            old(self).wf(),
        ensures
            final(self).wf(),
            final(self).spec_size() == old(self).spec_size(),
            final(self).spec_brick_dim() == old(self).spec_brick_dim(),
            final(self).colors() == old(self).colors(),
            final(self).data() == old(self).data(),
            !is_power_of_two(clear_size as nat) ==> result == Err::<(), OctreeError>(
                OctreeError::InvalidSize(clear_size),
            ) && final(self)@ == old(self)@,
            is_power_of_two(clear_size as nat) && !in_tree(*position, old(self).spec_size() as u32)
                ==> result == Err::<(), OctreeError>(
                OctreeError::InvalidPosition { x: position.x, y: position.y, z: position.z },
            ) && final(self)@ == old(self)@,
            is_power_of_two(clear_size as nat) && in_tree(*position, old(self).spec_size() as u32)
                ==> result == Ok::<(), OctreeError>(()) && final(self)@ == cleared_cell(
                old(self)@,
                *position,
                lod_size(clear_size, old(self).spec_size() as u32),
            ),
    {
        let ghost old_t = *self;
        let result = self.voxels.insert_at_lod_internal(position, clear_size, u32::MAX);
        proof {
            assert forall|q: V3c<u32>| #[trigger] self.voxels@.contains_key(q) implies index_in_palettes(
                self.voxels@[q],
                self.colors().len() as int,
                self.data().len() as int,
            ) && self.voxels@[q] != u32::MAX by {
                assert(old_t.voxels@.contains_key(q));
            }
            if result is Ok {
                assert(self@ =~= cleared_cell(
                    old_t@,
                    *position,
                    lod_size(clear_size, old_t.spec_size() as u32),
                ));
            } else {
                assert(self@ =~= old_t@);
            }
        }
        result
    }

    /// Erases the given position; see `clear_at_lod`
    pub fn clear(&mut self, position: &V3c<u32>) -> (result: Result<(), OctreeError>)
        requires
            old(self).wf(),
        ensures
            final(self).wf(),
            final(self).spec_size() == old(self).spec_size(),
            final(self).spec_brick_dim() == old(self).spec_brick_dim(),
            final(self).colors() == old(self).colors(),
            final(self).data() == old(self).data(),
            !in_tree(*position, old(self).spec_size() as u32) ==> result == Err::<(), OctreeError>(
                OctreeError::InvalidPosition { x: position.x, y: position.y, z: position.z },
            ) && final(self)@ == old(self)@,
            in_tree(*position, old(self).spec_size() as u32) ==> result == Ok::<(), OctreeError>(())
                && final(self)@ == old(self)@.remove(*position),
    {
        proof {
            lemma_pow2_one();
        }
        let result = self.clear_at_lod(position, 1);
        proof {
            if result is Ok {
                lemma_unit_cell_cleared(old(self)@, *position);
            }
        }
        result
    }

    /// Replaces the brick holding the position by a solid or an empty brick when all of its
    /// voxels hold one value; the stored voxels stay as they were. Returns whether the brick was
    /// replaced.
    pub fn simplify(&mut self, position: &V3c<u32>) -> (simplified: bool)
        requires
            old(self).wf(),
        ensures
            final(self).wf(),
            final(self)@ == old(self)@,
            final(self).colors() == old(self).colors(),
            final(self).data() == old(self).data(),
            final(self).spec_size() == old(self).spec_size(),
            final(self).spec_brick_dim() == old(self).spec_brick_dim(),
            simplified == (old(self).brick_at(*position) matches Some(brick) && brick is Parted
                && brick.homogeneous() is Some),
            !simplified ==> final(self).brick_at(*position) == old(self).brick_at(*position),
    {
        let ghost old_t = *self;
        let simplified = self.voxels.simplify(position);
        proof {
            assert(self@ =~= old_t@);
        }
        simplified
    }
}

/// One is a power of two
proof fn lemma_pow2_one()
    ensures
        is_power_of_two(1),
{
    reveal_with_fuel(is_power_of_two, 2);
}

/// The grid cell of size one holding a position holds that position alone
proof fn lemma_unit_cell<V>(m: Map<V3c<u32>, V>, p: V3c<u32>, value: V)
    ensures
        filled_cell(m, p, 1, value) == m.insert(p, value),
{
    assert forall|q: V3c<u32>| same_cell(p, q, 1) <==> q == p by {
        assert(p.x as nat / 1 == p.x && q.x as nat / 1 == q.x);
        assert(p.y as nat / 1 == p.y && q.y as nat / 1 == q.y);
        assert(p.z as nat / 1 == p.z && q.z as nat / 1 == q.z);
    }
    assert(filled_cell(m, p, 1, value) =~= m.insert(p, value));
}

/// Erasing the grid cell of size one holding a position erases that position alone
proof fn lemma_unit_cell_cleared<V>(m: Map<V3c<u32>, V>, p: V3c<u32>)
    ensures
        cleared_cell(m, p, 1) == m.remove(p),
{
    assert forall|q: V3c<u32>| same_cell(p, q, 1) <==> q == p by {
        assert(p.x as nat / 1 == p.x && q.x as nat / 1 == q.x);
        assert(p.y as nat / 1 == p.y && q.y as nat / 1 == q.y);
        assert(p.z as nat / 1 == p.z && q.z as nat / 1 == q.z);
    }
    assert(cleared_cell(m, p, 1) =~= m.remove(p));
}


/// The packed value that refers to the color of the first value where it has one, else to that
/// of the second, and likewise for the user data
pub open spec fn merged_index(new: u32, old: u32) -> u32 {
    let color = if has_color(new) {
        color_index_of(new)
    } else {
        color_index_of(old)
    };
    let data = if has_data(new) {
        data_index_of(new)
    } else {
        data_index_of(old)
    };
    (data * 0x1_0000 + color) as u32
}

/// Merges two packed values: the parts the first refers to, completed by those of the second
fn merge_index(new: u32, old: u32) -> (merged: u32)
    ensures
        merged == merged_index(new, old),
        color_index_of(merged) == if has_color(new) {
            color_index_of(new)
        } else {
            color_index_of(old)
        },
        data_index_of(merged) == if has_data(new) {
            data_index_of(new)
        } else {
            data_index_of(old)
        },
{
    let color = if new % 0x1_0000 < 0xFFFF {
        new % 0x1_0000
    } else {
        old % 0x1_0000
    };
    let data = if new / 0x1_0000 != 0xFFFF {
        new / 0x1_0000
    } else {
        old / 0x1_0000
    };
    let merged = data * 0x1_0000 + color;
    proof {
        vstd::arithmetic::div_mod::lemma_fundamental_div_mod_converse(
            merged as int,
            0x1_0000,
            data as int,
            color as int,
        );
    }
    merged
}

impl<T: Copy + PartialEq + VoxelData> BrickOctree<T> {
    /// Updates the entry at the given position: each part the entry stores, its color or its
    /// user data, replaces the one held there, and the other part stays. An entry that holds
    /// nothing rays would hit leaves the tree as it is.
    pub fn update(&mut self, position: &V3c<u32>, data: &BoxTreeEntry<T>) -> (result: Result<
        (),
        OctreeError,
    >)
        requires
            old(self).wf(),
            old(self).colors().len() < 0xFFFF,
            old(self).data().len() < 0xFFFF,
            obeys_concrete_eq::<T>(),
        ensures
            final(self).wf(),
            final(self).spec_size() == old(self).spec_size(),
            final(self).spec_brick_dim() == old(self).spec_brick_dim(),
            !in_tree(*position, old(self).spec_size() as u32) ==> result == Err::<(), OctreeError>(
                OctreeError::InvalidPosition { x: position.x, y: position.y, z: position.z },
            ),
            in_tree(*position, old(self).spec_size() as u32) ==> result == Ok::<(), OctreeError>(()),
            result is Ok && !data.holds_nothing() ==> final(self)@ == old(self)@.insert(
                *position,
                merged_parts(
                    stored_parts(*data),
                    if old(self)@.contains_key(*position) {
                        Some(old(self)@[*position])
                    } else {
                        None
                    },
                ),
            ) && palette_after(old(self).colors(), final(self).colors(), entry_color(*data))
                && palette_after(old(self).data(), final(self).data(), entry_data(*data)),
            result is Err || data.holds_nothing() ==> final(self)@ == old(self)@
                && final(self).colors() == old(self).colors()
                && final(self).data() == old(self).data(),
    {
        let size = self.voxels.size();
        if position.x >= size || position.y >= size || position.z >= size {
            return Err(
                OctreeError::InvalidPosition { x: position.x, y: position.y, z: position.z },
            );
        }
        if data.is_none() {
            return Ok(());
        }
        let ghost old_t = *self;
        let current = self.voxels.get(position);
        let packed = self.palettes.add_to_palette(data);
        proof {
            assert(entry_color(*data) is Some || entry_data(*data) is Some);
            lemma_palette_prefix(old_t.colors(), self.colors(), entry_color(*data));
            lemma_palette_prefix(old_t.data(), self.data(), entry_data(*data));
        }
        let merged = match current {
            None => packed,
            Some(held) => merge_index(packed, held),
        };
        proof {
            lemma_pow2_one();
            let value = merged_parts(
                stored_parts(*data),
                if old_t@.contains_key(*position) {
                    Some(old_t@[*position])
                } else {
                    None
                },
            );
            if let Some(held) = current {
                assert(old_t.voxels@.contains_key(*position));
                lemma_entry_value_grows(held, old_t.colors(), old_t.data(), self.colors(), self.data());
            }
            assert(merged != u32::MAX);
            assert(index_in_palettes(merged, self.colors().len() as int, self.data().len() as int));
            assert(entry_value(merged, self.colors(), self.data()) == value);
        }
        let result = self.voxels.insert_at_lod_internal(position, 1, merged);
        proof {
            let value = merged_parts(
                stored_parts(*data),
                if old_t@.contains_key(*position) {
                    Some(old_t@[*position])
                } else {
                    None
                },
            );
            assert(self.voxels@ == filled_cell(old_t.voxels@, *position, 1, merged));
            BrickOctree::lemma_store(old_t, *self, *position, 1, merged, value);
            lemma_unit_cell(old_t@, *position, value);
        }
        result
    }
}


impl<T: Copy + PartialEq + VoxelData> BrickOctree<T> {
    /// No color is stored twice in the color palette
    pub proof fn lemma_colors_distinct(&self)
        requires
            self.wf(),
        ensures
            self.colors().no_duplicates(),
    {
        assert forall|i: int, j: int|
            0 <= i < self.colors().len() && 0 <= j < self.colors().len() && i != j implies self.colors()[i]
            != self.colors()[j] by {
            if i < j {
                assert(crate::palette::no_duplicates(self.colors()));
            } else {
                assert(crate::palette::no_duplicates(self.colors()));
            }
        }
    }
}


/// After inserting a value at a level of detail, every position of the cell holding the
/// inserted position holds that value, and every other position holds what it held before
pub proof fn lemma_inserted_cell<V>(m: Map<V3c<u32>, V>, p: V3c<u32>, size: nat, value: V, q: V3c<u32>)
    ensures
        same_cell(p, q, size) ==> filled_cell(m, p, size, value).contains_key(q) && filled_cell(
            m,
            p,
            size,
            value,
        )[q] == value,
        !same_cell(p, q, size) ==> filled_cell(m, p, size, value).contains_key(q) == m.contains_key(
            q,
        ) && (m.contains_key(q) ==> filled_cell(m, p, size, value)[q] == m[q]),
{
}

/// Clearing a cell after inserting into the same cell leaves the tree as clearing alone would
pub proof fn lemma_clear_after_insert<V>(m: Map<V3c<u32>, V>, p: V3c<u32>, size: nat, value: V)
    ensures
        cleared_cell(filled_cell(m, p, size, value), p, size) == cleared_cell(m, p, size),
{
    assert(cleared_cell(filled_cell(m, p, size, value), p, size) =~= cleared_cell(m, p, size));
}

/// Inserting the same value into the same cell twice leaves the tree as inserting it once
pub proof fn lemma_insert_twice<V>(m: Map<V3c<u32>, V>, p: V3c<u32>, size: nat, value: V)
    ensures
        filled_cell(filled_cell(m, p, size, value), p, size, value) == filled_cell(m, p, size, value),
{
    assert(filled_cell(filled_cell(m, p, size, value), p, size, value) =~= filled_cell(
        m,
        p,
        size,
        value,
    ));
}

} // verus!
