use crate::object_pool::empty_marker_u16;
use crate::spatial::{flat_projection, octant_x, octant_y, octant_z, offset_region, spec_flat_projection};
use crate::types::{
    Albedo, BoxTreeEntry, BrickData, NodeChildren, NodeChildrenArray, NodeContent, VoxelData,
};
use vstd::laws_eq::obeys_concrete_eq;
use vstd::prelude::*;
use vstd::std_specs::cmp::PartialEqSpec;

verus! {

/// The children array after one child was replaced by the empty marker
pub open spec fn cleared_children<T>(children: [T; 8], index: int, marker: T) -> Seq<T> {
    children@.update(index, marker)
}

impl<T: Copy + PartialEq> NodeChildren<T> {
    /// Whether the node has no children, or no occupied part
    pub open spec fn holds_nothing(&self) -> bool {
        match self.content {
            NodeChildrenArray::NoChildren => true,
            NodeChildrenArray::Children(_) => false,
            NodeChildrenArray::OccupancyBitmap(mask) => mask == 0,
            NodeChildrenArray::OccupancyBitmaps(masks) => forall|i: int|
                0 <= i < 8 ==> #[trigger] masks@[i] == 0,
        }
    }

    /// Returns with true if empty
    pub fn is_empty(&self) -> (result: bool)
        ensures
            result == self.holds_nothing(),
    {
        match &self.content {
            NodeChildrenArray::NoChildren => true,
            NodeChildrenArray::Children(_) => false,
            NodeChildrenArray::OccupancyBitmap(mask) => 0 == *mask,
            NodeChildrenArray::OccupancyBitmaps(masks) => {
                let mut all_zero = true;
                let mut i: usize = 0;
                while i < 8
                    invariant
                        i <= 8,
                        all_zero == forall|j: int| 0 <= j < i ==> #[trigger] masks@[j] == 0,
                    decreases 8 - i,
                {
                    if masks[i] != 0 {
                        all_zero = false;
                    }
                    i = i + 1;
                }
                all_zero
            },
        }
    }

    /// Creates a new default element, with the given empty_marker
    pub fn new(empty_marker: T) -> (result: Self)
        ensures
            result.empty_marker == empty_marker,
            result.content == NodeChildrenArray::<T>::NoChildren,
    {
        NodeChildren { empty_marker, content: NodeChildrenArray::NoChildren }
    }

    /// Provides the children for iteration, if there are children to iterate on
    pub fn iter(&self) -> (result: Option<&[T; 8]>)
        ensures
            match self.content {
                NodeChildrenArray::Children(c) => result == Some(&c),
                _ => result is None,
            },
    {
        match &self.content {
            NodeChildrenArray::Children(c) => Some(c),
            _ => None,
        }
    }

    /// Erases the child under the given index, if any; the node loses its children array
    /// once every child in it is erased
    pub fn clear(&mut self, child_index: usize)
        requires
            child_index < 8,
            obeys_concrete_eq::<T>(),
        ensures
            final(self).empty_marker == old(self).empty_marker,
            match old(self).content {
                NodeChildrenArray::Children(c) => {
                    let updated = cleared_children(
                        c,
                        child_index as int,
                        old(self).empty_marker,
                    );
                    if forall|j: int| 0 <= j < 8 ==> #[trigger] updated[j] == old(self).empty_marker {
                        final(self).content == NodeChildrenArray::<T>::NoChildren
                    } else {
                        final(self).content matches NodeChildrenArray::Children(n) && n@ == updated
                    }
                },
                _ => final(self).content == old(self).content,
            },
    {
        if let NodeChildrenArray::Children(c) = self.content {
            let mut children = c;
            children[child_index] = self.empty_marker;
            let ghost updated = cleared_children(c, child_index as int, self.empty_marker);
            assert(children@ == updated);
            let mut empty_count: usize = 0;
            let mut i: usize = 0;
            while i < 8
                invariant
                    i <= 8,
                    obeys_concrete_eq::<T>(),
                    children@ == updated,
                    updated.len() == 8,
                    empty_count <= i,
                    empty_count == i <==> forall|j: int|
                        0 <= j < i ==> #[trigger] updated[j] == self.empty_marker,
                decreases 8 - i,
            {
                proof {
                    reveal(obeys_concrete_eq);
                }
                if children[i] == self.empty_marker {
                    empty_count = empty_count + 1;
                } else {
                    assert(updated[i as int] != self.empty_marker);
                }
                i = i + 1;
            }
            if empty_count == 8 {
                self.content = NodeChildrenArray::NoChildren;
            } else {
                self.content = NodeChildrenArray::Children(children);
            }
        }
    }

    /// The child under the given index, or the empty marker when there are no children
    pub fn index(&self, index: u32) -> (result: T)
        requires
            self.content is Children ==> index < 8,
        ensures
            result == match self.content {
                NodeChildrenArray::Children(c) => c[index as int],
                _ => self.empty_marker,
            },
    {
        match &self.content {
            NodeChildrenArray::Children(c) => c[index as usize],
            _ => self.empty_marker,
        }
    }

    /// Sets the child under the given index; a node without children gets a children array
    /// where every other child is missing
    pub fn index_set(&mut self, index: u32, child: T)
        requires
            index < 8,
            old(self).content is NoChildren || old(self).content is Children,
        ensures
            final(self).empty_marker == old(self).empty_marker,
            final(self).content matches NodeChildrenArray::Children(n) && n@ == match old(
                self,
            ).content {
                NodeChildrenArray::Children(c) => c@.update(index as int, child),
                _ => Seq::new(8, |j: int| old(self).empty_marker).update(index as int, child),
            },
    {
        let mut children = match self.content {
            NodeChildrenArray::Children(c) => c,
            _ => [self.empty_marker;8],
        };
        let ghost base = children@;
        children[index as usize] = child;
        assert(children@ == base.update(index as int, child));
        proof {
            if !(old(self).content is Children) {
                assert(base == Seq::new(8, |j: int| old(self).empty_marker));
            }
        }
        self.content = NodeChildrenArray::Children(children);
    }
}

/// The palette index of the color a packed voxel value refers to
pub open spec fn color_index_of(index: u32) -> int {
    (index % 0x1_0000) as int
}

/// The palette index of the user data a packed voxel value refers to
pub open spec fn data_index_of(index: u32) -> int {
    (index / 0x1_0000) as int
}

/// Whether a packed voxel value refers to a color
pub open spec fn has_color(index: u32) -> bool {
    color_index_of(index) < 0xFFFF
}

/// Whether a packed voxel value refers to user data
pub open spec fn has_data(index: u32) -> bool {
    data_index_of(index) != 0xFFFF
}

/// Whether the palette entries a packed voxel value refers to exist
pub open spec fn index_in_palettes(index: u32, color_len: int, data_len: int) -> bool {
    &&& has_color(index) ==> color_index_of(index) < color_len
    &&& has_data(index) ==> data_index_of(index) < data_len
}

/// Whether a packed voxel value refers to nothing that rays would hit
pub open spec fn points_to_empty<V: VoxelData>(
    index: u32,
    colors: Seq<Albedo>,
    data: Seq<V>,
) -> bool {
    &&& has_color(index) ==> colors[color_index_of(index)].a == 0
    &&& has_data(index) ==> data[data_index_of(index)].empty()
}

impl NodeContent<u32> {
    /// Packs a color palette index into a voxel value without user data
    pub fn pix_visual(color_index: u16) -> (index: u32)
        ensures
            index == color_index + 0xFFFF * 0x1_0000,
            color_index_of(index) == color_index,
            !has_data(index),
    {
        let c = color_index;
        assert(((c as u32) | (0xFFFFu32 << 16u32)) == (c as u32) + 0xFFFF_0000u32) by (bit_vector);
        (color_index as u32) | ((empty_marker_u16() as u32) << 16)
    }

    /// Packs a user data palette index into a voxel value without color
    pub fn pix_informal(data_index: u16) -> (index: u32)
        ensures
            index == 0xFFFF + data_index * 0x1_0000,
            data_index_of(index) == data_index,
            !has_color(index),
    {
        let d = data_index;
        assert((0xFFFFu32 | ((d as u32) << 16u32)) == 0xFFFFu32 + (d as u32) * 0x1_0000u32)
            by (bit_vector);
        (empty_marker_u16() as u32) | ((data_index as u32) << 16)
    }

    /// Packs a color and a user data palette index into a voxel value
    pub fn pix_complex(color_index: u16, data_index: u16) -> (index: u32)
        ensures
            index == color_index + data_index * 0x1_0000,
            color_index_of(index) == color_index,
            data_index_of(index) == data_index,
    {
        let c = color_index;
        let d = data_index;
        assert(((c as u32) | ((d as u32) << 16u32)) == (c as u32) + (d as u32) * 0x1_0000u32)
            by (bit_vector);
        (color_index as u32) | ((data_index as u32) << 16)
    }

    /// The color palette index of a packed voxel value
    pub fn pix_color_index(index: &u32) -> (color_index: usize)
        ensures
            color_index == color_index_of(*index),
    {
        let i = *index;
        assert(i & 0x0000_FFFF == i % 0x1_0000) by (bit_vector);
        (*index & 0x0000_FFFF) as usize
    }

    /// The user data palette index of a packed voxel value
    pub fn pix_data_index(index: &u32) -> (data_index: usize)
        ensures
            data_index == data_index_of(*index),
    {
        let i = *index;
        assert((i & 0xFFFF_0000) >> 16u32 == i / 0x1_0000) by (bit_vector);
        ((*index & 0xFFFF_0000) >> 16) as usize
    }

    /// Whether the packed voxel value refers to a color
    pub fn pix_color_is_some(index: &u32) -> (result: bool)
        ensures
            result == has_color(*index),
    {
        Self::pix_color_index(index) < empty_marker_u16() as usize
    }

    /// Whether the packed voxel value refers to no color
    pub fn pix_color_is_none(index: &u32) -> (result: bool)
        ensures
            result == !has_color(*index),
    {
        !Self::pix_color_is_some(index)
    }

    /// Whether the packed voxel value refers to no user data
    pub fn pix_data_is_none(index: &u32) -> (result: bool)
        ensures
            result == !has_data(*index),
    {
        Self::pix_data_index(index) == empty_marker_u16() as usize
    }

    /// Compares the user data palette index against the largest `usize`, which every
    /// index is below
    pub fn pix_data_is_some(index: &u32) -> (result: bool)
        ensures
            result == (data_index_of(*index) < usize::MAX),
            result,
    {
        Self::pix_data_index(index) < usize::MAX
    }

    /// Whether the packed voxel value refers to nothing that rays would hit
    pub fn pix_points_to_empty<V: VoxelData>(
        index: &u32,
        color_palette: &[Albedo],
        data_palette: &[V],
    ) -> (result: bool)
        requires
            index_in_palettes(*index, color_palette@.len() as int, data_palette@.len() as int),
        ensures
            result == points_to_empty(*index, color_palette@, data_palette@),
    {
        (Self::pix_color_is_none(index) || color_palette[Self::pix_color_index(
            index,
        )].is_transparent()) && (Self::pix_data_is_none(index)
            || data_palette[Self::pix_data_index(index)].is_empty())
    }

    /// The palette entries a packed voxel value refers to
    pub fn pix_get_ref<'a, V: VoxelData>(
        index: &u32,
        color_palette: &'a [Albedo],
        data_palette: &'a [V],
    ) -> (entry: BoxTreeEntry<'a, V>)
        requires
            index_in_palettes(*index, color_palette@.len() as int, data_palette@.len() as int),
        ensures
            entry == (if !has_data(*index) && !has_color(*index) {
                BoxTreeEntry::<V>::Empty
            } else if !has_data(*index) {
                BoxTreeEntry::<V>::Visual(&color_palette@[color_index_of(*index)])
            } else if !has_color(*index) {
                BoxTreeEntry::<V>::Informative(&data_palette@[data_index_of(*index)])
            } else {
                BoxTreeEntry::<V>::Complex(
                    &color_palette@[color_index_of(*index)],
                    &data_palette@[data_index_of(*index)],
                )
            }),
    {
        if Self::pix_data_is_none(index) && Self::pix_color_is_none(index) {
            return BoxTreeEntry::Empty;
        }
        if Self::pix_data_is_none(index) {
            return BoxTreeEntry::Visual(&color_palette[Self::pix_color_index(index)]);
        }
        if Self::pix_color_is_none(index) {
            return BoxTreeEntry::Informative(&data_palette[Self::pix_data_index(index)]);
        }
        BoxTreeEntry::Complex(
            &color_palette[Self::pix_color_index(index)],
            &data_palette[Self::pix_data_index(index)],
        )
    }
}

/// Whether every palette entry the voxels of a brick refer to exists
pub open spec fn brick_in_palettes(brick: BrickData<u32>, color_len: int, data_len: int) -> bool {
    match brick {
        BrickData::Empty => true,
        BrickData::Solid(voxel) => index_in_palettes(voxel, color_len, data_len),
        BrickData::Parted(voxels) => forall|i: int|
            0 <= i < voxels@.len() ==> #[trigger] index_in_palettes(voxels@[i], color_len, data_len),
    }
}

impl<T: Copy + PartialEq> BrickData<T> {
    /// The single item every voxel of the brick holds, if there is one
    pub open spec fn homogeneous(&self) -> Option<T> {
        match *self {
            BrickData::Empty => None,
            BrickData::Solid(voxel) => Some(voxel),
            BrickData::Parted(voxels) => if forall|i: int|
                0 <= i < voxels@.len() ==> #[trigger] voxels@[i] == voxels@[0] {
                Some(voxels@[0])
            } else {
                None
            },
        }
    }

    /// A parted brick holds at least one voxel
    pub open spec fn parts_nonempty(&self) -> bool {
        self matches BrickData::Parted(voxels) ==> voxels@.len() > 0
    }

    /// In case all contained voxels are the same, returns with a reference to the data
    pub fn get_homogeneous_data(&self) -> (result: Option<&T>)
        requires
            self.parts_nonempty(),
            obeys_concrete_eq::<T>(),
        ensures
            match result {
                Some(voxel) => self.homogeneous() == Some(*voxel),
                None => self.homogeneous() is None,
            },
    {
        match self {
            BrickData::Empty => None,
            BrickData::Solid(voxel) => Some(voxel),
            BrickData::Parted(brick) => {
                let mut uniform = true;
                let mut i: usize = 0;
                while i < brick.len()
                    invariant
                        obeys_concrete_eq::<T>(),
                        brick@.len() > 0,
                        i <= brick@.len(),
                        uniform == forall|j: int| 0 <= j < i ==> #[trigger] brick@[j] == brick@[0],
                    decreases brick@.len() - i,
                {
                    proof {
                        reveal(obeys_concrete_eq);
                    }
                    if brick[i] != brick[0] {
                        uniform = false;
                    }
                    i = i + 1;
                }
                if uniform {
                    Some(&brick[0])
                } else {
                    None
                }
            },
        }
    }
}

impl BrickData<u32> {
    /// Tries to simplify brick data, returns true if the view was simplified during function call
    pub fn simplify<V: VoxelData>(&mut self, color_palette: &[Albedo], data_palette: &[V]) -> (simplified: bool)
        requires
            old(self).parts_nonempty(),
            brick_in_palettes(*old(self), color_palette@.len() as int, data_palette@.len() as int),
        ensures
            simplified == (*final(self) != *old(self)),
            match old(self).homogeneous() {
                Some(voxel) => *final(self) == if points_to_empty(
                    voxel,
                    color_palette@,
                    data_palette@,
                ) {
                    BrickData::<u32>::Empty
                } else {
                    BrickData::Solid(voxel)
                },
                None => *final(self) == *old(self),
            },
    {
        let homogeneous = match self.get_homogeneous_data() {
            Some(voxel) => Some(*voxel),
            None => None,
        };
        if let Some(voxel) = homogeneous {
            let was_solid = match self {
                BrickData::Solid(_) => true,
                _ => false,
            };
            if NodeContent::pix_points_to_empty(&voxel, color_palette, data_palette) {
                *self = BrickData::Empty;
                true
            } else {
                *self = BrickData::Solid(voxel);
                !was_solid
            }
        } else {
            false
        }
    }
}

/// Whether every voxel in a cubic region of a brick refers to nothing that rays would hit
pub open spec fn region_empty<V: VoxelData>(
    brick: Seq<u32>,
    x0: int,
    y0: int,
    z0: int,
    extent: int,
    dim: int,
    colors: Seq<Albedo>,
    data: Seq<V>,
) -> bool {
    forall|x: int, y: int, z: int|
        x0 <= x < x0 + extent && y0 <= y < y0 + extent && z0 <= z < z0 + extent
            ==> #[trigger] points_to_empty(brick[spec_flat_projection(x, y, z, dim)], colors, data)
}

/// A bit scales a length to either nothing or the whole length
proof fn lemma_scaled_bit(bit: int, length: int)
    requires
        bit == 0 || bit == 1,
    ensures
        bit * length == if bit == 1 {
            length
        } else {
            0
        },
{
}

/// Tells if every voxel in the cubic region of the brick with the given corner and extent
/// refers to nothing that rays would hit
fn region_is_empty<V: VoxelData>(
    brick: &Vec<u32>,
    x0: usize,
    y0: usize,
    z0: usize,
    extent: usize,
    dim: usize,
    color_palette: &[Albedo],
    data_palette: &[V],
) -> (result: bool)
    requires
        x0 + extent <= dim,
        y0 + extent <= dim,
        z0 + extent <= dim,
        brick@.len() == dim * dim * dim,
        forall|i: int|
            0 <= i < brick@.len() ==> #[trigger] index_in_palettes(
                brick@[i],
                color_palette@.len() as int,
                data_palette@.len() as int,
            ),
    ensures
        result == region_empty(
            brick@,
            x0 as int,
            y0 as int,
            z0 as int,
            extent as int,
            dim as int,
            color_palette@,
            data_palette@,
        ),
{
    let ghost colors = color_palette@;
    let ghost datas = data_palette@;
    let len = brick.len();
    assert(len == dim * dim * dim);
    let mut x = x0;
    while x < x0 + extent
        invariant
            x0 <= x <= x0 + extent,
            x0 + extent <= dim,
            y0 + extent <= dim,
            z0 + extent <= dim,
            brick@.len() == dim * dim * dim,
            dim * dim * dim <= usize::MAX,
            colors == color_palette@,
            datas == data_palette@,
            forall|i: int|
                0 <= i < brick@.len() ==> #[trigger] index_in_palettes(
                    brick@[i],
                    colors.len() as int,
                    datas.len() as int,
                ),
            forall|a: int, b: int, c: int|
                x0 <= a < x && y0 <= b < y0 + extent && z0 <= c < z0 + extent
                    ==> #[trigger] points_to_empty(
                    brick@[spec_flat_projection(a, b, c, dim as int)],
                    colors,
                    datas,
                ),
        decreases x0 + extent - x,
    {
        let mut y = y0;
        while y < y0 + extent
            invariant
                x0 <= x < x0 + extent,
                y0 <= y <= y0 + extent,
                x0 + extent <= dim,
                y0 + extent <= dim,
                z0 + extent <= dim,
                brick@.len() == dim * dim * dim,
                dim * dim * dim <= usize::MAX,
            dim * dim * dim <= usize::MAX,
                colors == color_palette@,
                datas == data_palette@,
                forall|i: int|
                    0 <= i < brick@.len() ==> #[trigger] index_in_palettes(
                        brick@[i],
                        colors.len() as int,
                        datas.len() as int,
                    ),
                forall|a: int, b: int, c: int|
                    (x0 <= a < x && y0 <= b < y0 + extent && z0 <= c < z0 + extent) || (a == x
                        && y0 <= b < y && z0 <= c < z0 + extent) ==> #[trigger] points_to_empty(
                        brick@[spec_flat_projection(a, b, c, dim as int)],
                        colors,
                        datas,
                    ),
            decreases y0 + extent - y,
        {
            let mut z = z0;
            while z < z0 + extent
                invariant
                    x0 <= x < x0 + extent,
                    y0 <= y < y0 + extent,
                    z0 <= z <= z0 + extent,
                    x0 + extent <= dim,
                    y0 + extent <= dim,
                    z0 + extent <= dim,
                    brick@.len() == dim * dim * dim,
                    dim * dim * dim <= usize::MAX,
                dim * dim * dim <= usize::MAX,
            dim * dim * dim <= usize::MAX,
                    colors == color_palette@,
                    datas == data_palette@,
                    forall|i: int|
                        0 <= i < brick@.len() ==> #[trigger] index_in_palettes(
                            brick@[i],
                            colors.len() as int,
                            datas.len() as int,
                        ),
                    forall|a: int, b: int, c: int|
                        (x0 <= a < x && y0 <= b < y0 + extent && z0 <= c < z0 + extent) || (a
                            == x && y0 <= b < y && z0 <= c < z0 + extent) || (a == x && b == y
                            && z0 <= c < z) ==> #[trigger] points_to_empty(
                            brick@[spec_flat_projection(a, b, c, dim as int)],
                            colors,
                            datas,
                        ),
                decreases z0 + extent - z,
            {
                let flat_index = flat_projection(x, y, z, dim);
                if !NodeContent::pix_points_to_empty(&brick[flat_index], color_palette, data_palette) {
                    return false;
                }
                z = z + 1;
            }
            y = y + 1;
        }
        x = x + 1;
    }
    true
}

/// The first coordinate, along one axis, of the part of a brick that the given cell of a 4 by 4
/// by 4 occupancy grid covers: a brick of dimension 4 or more is split evenly, a smaller brick
/// has each of its voxels cover several cells
pub open spec fn cell_origin(cell: int, dim: int) -> int {
    if dim >= 4 {
        cell * (dim / 4)
    } else {
        cell * dim / 4
    }
}

/// The extent, along one axis, of the part of a brick that a cell of the occupancy grid covers
pub open spec fn cell_extent(dim: int) -> int {
    if dim >= 4 {
        dim / 4
    } else {
        1
    }
}

/// Whether the part of the brick that the cell with the given flat index (x + 4 y + 16 z) of
/// the occupancy grid covers holds a voxel that rays would hit
pub open spec fn cell_occupied<V: VoxelData>(
    brick: Seq<u32>,
    cell: int,
    dim: int,
    colors: Seq<Albedo>,
    data: Seq<V>,
) -> bool {
    !region_empty(
        brick,
        cell_origin(cell % 4, dim),
        cell_origin((cell / 4) % 4, dim),
        cell_origin(cell / 16, dim),
        cell_extent(dim),
        dim,
        colors,
        data,
    )
}

/// Whether the part of the brick that a cell of the occupancy grid covers holds a voxel that
/// rays would hit: never for an empty brick, for every cell or none for a solid one
pub open spec fn brick_cell_occupied<V: VoxelData>(
    brick: BrickData<u32>,
    cell: int,
    dim: int,
    colors: Seq<Albedo>,
    data: Seq<V>,
) -> bool {
    match brick {
        BrickData::Empty => false,
        BrickData::Solid(voxel) => !points_to_empty(voxel, colors, data),
        BrickData::Parted(voxels) => cell_occupied(voxels@, cell, dim, colors, data),
    }
}

/// Setting one bit of a bitmap keeps every other bit
proof fn lemma_set_bit(bits: u64, i: u64, j: u64)
    by (bit_vector)
    requires
        i < 64,
        j < 64,
    ensures
        ((bits | (1u64 << i)) >> j) & 1 == if j == i {
            1u64
        } else {
            (bits >> j) & 1
        },
{
}

/// The part of a brick a cell covers lies inside the brick
proof fn lemma_cell_within(cell: int, dim: int)
    requires
        0 <= cell < 4,
        dim == 1 || dim == 2 || (dim >= 4 && dim % 4 == 0),
    ensures
        0 <= cell_origin(cell, dim),
        cell_origin(cell, dim) + cell_extent(dim) <= dim,
{
    if dim >= 4 {
        let q = dim / 4;
        assert(cell * q + q <= 4 * q) by (nonlinear_arith)
            requires
                0 <= cell < 4,
                q >= 1,
        ;
        assert(0 <= cell * q) by (nonlinear_arith)
            requires
                0 <= cell,
                q >= 1,
        ;
    } else if dim == 2 {
        assert(cell * 2 / 4 == cell / 2);
    }
}

impl BrickData<u32> {
    /// Calculates the occupancy bitmap of the given voxel brick: bit `x + 4 y + 16 z` is set
    /// exactly when the part of the brick that cell `(x, y, z)` of a 4 by 4 by 4 grid covers
    /// holds a voxel that rays would hit
    pub fn calculate_brick_occupied_bits<V: VoxelData>(
        brick: &Vec<u32>,
        brick_dimension: usize,
        color_palette: &[Albedo],
        data_palette: &[V],
    ) -> (bitmap: u64)
        requires
            brick_dimension == 1 || brick_dimension == 2 || (brick_dimension >= 4 && brick_dimension
                % 4 == 0),
            brick@.len() == brick_dimension * brick_dimension * brick_dimension,
            forall|i: int|
                0 <= i < brick@.len() ==> #[trigger] index_in_palettes(
                    brick@[i],
                    color_palette@.len() as int,
                    data_palette@.len() as int,
                ),
        ensures
            forall|i: u64|
                i < 64 ==> (((bitmap >> i) & 1 == 1) <==> #[trigger] cell_occupied(
                    brick@,
                    i as int,
                    brick_dimension as int,
                    color_palette@,
                    data_palette@,
                )),
    {
        let dim = brick_dimension;
        let extent: usize = if dim >= 4 {
            dim / 4
        } else {
            1
        };
        let mut bitmap: u64 = 0;
        let mut cell: u64 = 0;
        assert forall|i: u64| 0 <= i < 64 implies #[trigger] ((0u64 >> i) & 1) == 0 by {
            assert(((0u64 >> i) & 1) == 0) by (bit_vector);
        }
        while cell < 64
            invariant
                cell <= 64,
                dim == brick_dimension,
                extent == cell_extent(dim as int),
                dim == 1 || dim == 2 || (dim >= 4 && dim % 4 == 0),
                brick@.len() == dim * dim * dim,
                forall|i: int|
                    0 <= i < brick@.len() ==> #[trigger] index_in_palettes(
                        brick@[i],
                        color_palette@.len() as int,
                        data_palette@.len() as int,
                    ),
                forall|i: u64|
                    i < cell ==> (((bitmap >> i) & 1 == 1) <==> #[trigger] cell_occupied(
                        brick@,
                        i as int,
                        dim as int,
                        color_palette@,
                        data_palette@,
                    )),
                forall|i: u64| cell <= i < 64 ==> #[trigger] ((bitmap >> i) & 1) == 0,
            decreases 64 - cell,
        {
            let cx = (cell % 4) as usize;
            let cy = ((cell / 4) % 4) as usize;
            let cz = (cell / 16) as usize;
            proof {
                lemma_cell_within(cx as int, dim as int);
                lemma_cell_within(cy as int, dim as int);
                lemma_cell_within(cz as int, dim as int);
            }
            let (x0, y0, z0) = if dim >= 4 {
                (cx * extent, cy * extent, cz * extent)
            } else {
                (cx * dim / 4, cy * dim / 4, cz * dim / 4)
            };
            let empty = region_is_empty(
                brick,
                x0,
                y0,
                z0,
                extent,
                dim,
                color_palette,
                data_palette,
            );
            let ghost before = bitmap;
            if !empty {
                bitmap = bitmap | (1u64 << cell);
            }
            proof {
                assert forall|i: u64| i < cell + 1 implies (((bitmap >> i) & 1 == 1) <==> #[trigger] cell_occupied(
                    brick@,
                    i as int,
                    dim as int,
                    color_palette@,
                    data_palette@,
                )) by {
                    if !empty {
                        lemma_set_bit(before, cell, i);
                    }
                    if i == cell {
                        assert(((before >> i) & 1) == 0);
                    }
                }
                assert forall|i: u64| cell + 1 <= i < 64 implies #[trigger] ((bitmap >> i) & 1) == 0 by {
                    if !empty {
                        lemma_set_bit(before, cell, i);
                    }
                }
            }
            cell = cell + 1;
        }
        bitmap
    }

    /// Calculates the occupancy bitmap of the brick: nothing for an empty brick, everything or
    /// nothing for a solid one, depending on its voxel, and the occupancy of its voxels for a
    /// parted one
    pub fn calculate_occupied_bits<V: VoxelData>(
        &self,
        brick_dimension: usize,
        color_palette: &[Albedo],
        data_palette: &[V],
    ) -> (bitmap: u64)
        requires
            brick_dimension == 1 || brick_dimension == 2 || (brick_dimension >= 4 && brick_dimension
                % 4 == 0),
            self matches BrickData::Parted(voxels) ==> voxels@.len() == brick_dimension
                * brick_dimension * brick_dimension,
            brick_in_palettes(*self, color_palette@.len() as int, data_palette@.len() as int),
        ensures
            forall|i: u64|
                i < 64 ==> (((bitmap >> i) & 1 == 1) <==> #[trigger] brick_cell_occupied(
                    *self,
                    i as int,
                    brick_dimension as int,
                    color_palette@,
                    data_palette@,
                )),
    {
        match self {
            BrickData::Empty => {
                assert forall|i: u64| i < 64 implies ((0u64 >> i) & 1) == 0 by {
                    assert(((0u64 >> i) & 1) == 0) by (bit_vector);
                }
                0
            },
            BrickData::Solid(voxel) => {
                if NodeContent::pix_points_to_empty(voxel, color_palette, data_palette) {
                    assert forall|i: u64| i < 64 implies ((0u64 >> i) & 1) == 0 by {
                        assert(((0u64 >> i) & 1) == 0) by (bit_vector);
                    }
                    0
                } else {
                    assert forall|i: u64| i < 64 implies ((u64::MAX >> i) & 1) == 1 by {
                        assert(i < 64 ==> ((0xFFFF_FFFF_FFFF_FFFFu64 >> i) & 1) == 1) by (bit_vector);
                    }
                    u64::MAX
                }
            },
            BrickData::Parted(brick) => Self::calculate_brick_occupied_bits(
                brick,
                brick_dimension,
                color_palette,
                data_palette,
            ),
        }
    }
}

impl BrickData<u32> {
    /// Provides occupancy information for the part of the brick corresponding
    /// to the given octant based on the contents of the brick
    pub fn is_empty_throughout<V: VoxelData>(
        &self,
        octant: usize,
        brick_dim: usize,
        color_palette: &[Albedo],
        data_palette: &[V],
    ) -> (result: bool)
        requires
            octant < 8,
            brick_dim >= 1,
            self matches BrickData::Parted(voxels) ==> voxels@.len() == brick_dim * brick_dim
                * brick_dim,
            brick_in_palettes(*self, color_palette@.len() as int, data_palette@.len() as int),
        ensures
            result == match *self {
                BrickData::Empty => true,
                BrickData::Solid(voxel) => points_to_empty(voxel, color_palette@, data_palette@),
                BrickData::Parted(voxels) => if brick_dim == 1 {
                    points_to_empty(voxels@[0], color_palette@, data_palette@)
                } else {
                    let extent = brick_dim / 2;
                    region_empty(
                        voxels@,
                        octant_x(octant as int) * extent,
                        octant_y(octant as int) * extent,
                        octant_z(octant as int) * extent,
                        extent as int,
                        brick_dim as int,
                        color_palette@,
                        data_palette@,
                    )
                },
            },
    {
        match self {
            BrickData::Empty => true,
            BrickData::Solid(voxel) => NodeContent::pix_points_to_empty(voxel, color_palette, data_palette),
            BrickData::Parted(brick) => {
                if brick_dim == 1 {
                    return NodeContent::pix_points_to_empty(&brick[0], color_palette, data_palette);
                }
                let extent = brick_dim / 2;
                let offset = offset_region(octant);
                let x0: usize = if offset.x == 1 { extent } else { 0 };
                let y0: usize = if offset.y == 1 { extent } else { 0 };
                let z0: usize = if offset.z == 1 { extent } else { 0 };
                proof {
                    lemma_scaled_bit(octant_x(octant as int), extent as int);
                    lemma_scaled_bit(octant_y(octant as int), extent as int);
                    lemma_scaled_bit(octant_z(octant as int), extent as int);
                }
                region_is_empty(
                    brick,
                    x0,
                    y0,
                    z0,
                    extent,
                    brick_dim,
                    color_palette,
                    data_palette,
                )
            },
        }
    }

    /// Provides occupancy information for the part of the brick corresponding to
    /// part_octant and target octant. The Brick is subdivided on 2 levels,
    /// the larger target octant is set by @part_octant, the part inside that octant
    /// is set by @target_octant
    pub fn is_part_empty_throughout<V: VoxelData>(
        &self,
        part_octant: usize,
        target_octant: usize,
        brick_dim: usize,
        color_palette: &[Albedo],
        data_palette: &[V],
    ) -> (result: bool)
        requires
            part_octant < 8,
            target_octant < 8,
            brick_dim == 1 || brick_dim == 2 || (brick_dim >= 4 && brick_dim % 4 == 0),
            self matches BrickData::Parted(voxels) ==> voxels@.len() == brick_dim * brick_dim
                * brick_dim,
            brick_in_palettes(*self, color_palette@.len() as int, data_palette@.len() as int),
        ensures
            result == match *self {
                BrickData::Empty => true,
                BrickData::Solid(voxel) => points_to_empty(voxel, color_palette@, data_palette@),
                BrickData::Parted(voxels) => if brick_dim == 1 {
                    points_to_empty(voxels@[0], color_palette@, data_palette@)
                } else if brick_dim == 2 {
                    points_to_empty(
                        voxels@[spec_flat_projection(
                            octant_x(part_octant as int),
                            octant_y(part_octant as int),
                            octant_z(part_octant as int),
                            2,
                        )],
                        color_palette@,
                        data_palette@,
                    )
                } else {
                    let outer = brick_dim / 2;
                    let inner = brick_dim / 4;
                    region_empty(
                        voxels@,
                        octant_x(part_octant as int) * outer + octant_x(target_octant as int) * inner,
                        octant_y(part_octant as int) * outer + octant_y(target_octant as int) * inner,
                        octant_z(part_octant as int) * outer + octant_z(target_octant as int) * inner,
                        inner as int,
                        brick_dim as int,
                        color_palette@,
                        data_palette@,
                    )
                },
            },
    {
        match self {
            BrickData::Empty => true,
            BrickData::Solid(voxel) => NodeContent::pix_points_to_empty(voxel, color_palette, data_palette),
            BrickData::Parted(brick) => {
                proof {
                    if brick_dim >= 4 {
                        assert(brick_dim * brick_dim * brick_dim >= 64) by (nonlinear_arith)
                            requires
                                brick_dim >= 4,
                        ;
                    }
                }
                if 1 == brick.len() {
                    assert(brick_dim == 1);
                    NodeContent::pix_points_to_empty(&brick[0], color_palette, data_palette)
                } else if 8 == brick.len() {
                    assert(brick_dim == 2);
                    let offset = offset_region(part_octant);
                    let flat_index = flat_projection(
                        offset.x as usize,
                        offset.y as usize,
                        offset.z as usize,
                        2,
                    );
                    NodeContent::pix_points_to_empty(&brick[flat_index], color_palette, data_palette)
                } else {
                    let outer = brick_dim / 2;
                    let inner = brick_dim / 4;
                    let part = offset_region(part_octant);
                    let target = offset_region(target_octant);
                    let x0: usize = if part.x == 1 { outer } else { 0 } + if target.x == 1 {
                        inner
                    } else {
                        0
                    };
                    let y0: usize = if part.y == 1 { outer } else { 0 } + if target.y == 1 {
                        inner
                    } else {
                        0
                    };
                    let z0: usize = if part.z == 1 { outer } else { 0 } + if target.z == 1 {
                        inner
                    } else {
                        0
                    };
                    proof {
                        lemma_scaled_bit(octant_x(part_octant as int), outer as int);
                        lemma_scaled_bit(octant_y(part_octant as int), outer as int);
                        lemma_scaled_bit(octant_z(part_octant as int), outer as int);
                        lemma_scaled_bit(octant_x(target_octant as int), inner as int);
                        lemma_scaled_bit(octant_y(target_octant as int), inner as int);
                        lemma_scaled_bit(octant_z(target_octant as int), inner as int);
                    }
                    region_is_empty(
                        brick,
                        x0,
                        y0,
                        z0,
                        inner,
                        brick_dim,
                        color_palette,
                        data_palette,
                    )
                }
            },
        }
    }
}

/// Whether every voxel of a brick refers to nothing that rays would hit
pub open spec fn brick_all_empty<V: VoxelData>(
    brick: BrickData<u32>,
    colors: Seq<Albedo>,
    data: Seq<V>,
) -> bool {
    match brick {
        BrickData::Empty => true,
        BrickData::Solid(voxel) => points_to_empty(voxel, colors, data),
        BrickData::Parted(voxels) => forall|i: int|
            0 <= i < voxels@.len() ==> #[trigger] points_to_empty(voxels@[i], colors, data),
    }
}

/// Whether every palette entry the voxels of a node refer to exists
pub open spec fn content_in_palettes(content: NodeContent<u32>, color_len: int, data_len: int) -> bool {
    match content {
        NodeContent::Leaf(bricks) => forall|i: int|
            0 <= i < 8 ==> #[trigger] brick_in_palettes(bricks[i], color_len, data_len),
        NodeContent::UniformLeaf(brick) => brick_in_palettes(brick, color_len, data_len),
        _ => true,
    }
}

/// Whether every brick of a node that is parted holds at least one voxel
pub open spec fn content_parts_nonempty(content: NodeContent<u32>) -> bool {
    match content {
        NodeContent::Leaf(bricks) => forall|i: int| 0 <= i < 8 ==> #[trigger] bricks[i].parts_nonempty(),
        NodeContent::UniformLeaf(brick) => brick.parts_nonempty(),
        _ => true,
    }
}

/// Whether every voxel of a brick holds the given value
pub open spec fn brick_is_all(brick: BrickData<u32>, data: u32) -> bool {
    match brick {
        BrickData::Empty => false,
        BrickData::Solid(voxel) => voxel == data,
        BrickData::Parted(_) => brick.homogeneous() == Some(data),
    }
}

/// Whether two bricks hold the same voxels in the same form
pub open spec fn brick_same<T>(a: BrickData<T>, b: BrickData<T>) -> bool {
    match (a, b) {
        (BrickData::Empty, BrickData::Empty) => true,
        (BrickData::Solid(x), BrickData::Solid(y)) => x == y,
        (BrickData::Parted(x), BrickData::Parted(y)) => x@ == y@,
        _ => false,
    }
}

/// Tells if every voxel of the brick refers to nothing that rays would hit
fn brick_is_empty<V: VoxelData>(
    brick: &BrickData<u32>,
    color_palette: &[Albedo],
    data_palette: &[V],
) -> (result: bool)
    requires
        brick_in_palettes(*brick, color_palette@.len() as int, data_palette@.len() as int),
    ensures
        result == brick_all_empty(*brick, color_palette@, data_palette@),
{
    match brick {
        BrickData::Empty => true,
        BrickData::Solid(voxel) => NodeContent::pix_points_to_empty(voxel, color_palette, data_palette),
        BrickData::Parted(voxels) => {
            let mut i: usize = 0;
            while i < voxels.len()
                invariant
                    i <= voxels@.len(),
                    *brick == BrickData::<u32>::Parted(*voxels),
                    forall|j: int|
                        0 <= j < voxels@.len() ==> #[trigger] index_in_palettes(
                            voxels@[j],
                            color_palette@.len() as int,
                            data_palette@.len() as int,
                        ),
                    forall|j: int|
                        0 <= j < i ==> #[trigger] points_to_empty(
                            voxels@[j],
                            color_palette@,
                            data_palette@,
                        ),
                decreases voxels@.len() - i,
            {
                if !NodeContent::pix_points_to_empty(&voxels[i], color_palette, data_palette) {
                    assert(!points_to_empty(voxels@[i as int], color_palette@, data_palette@));
                    assert(*brick is Parted);
                    assert(brick->Parted_0@ == voxels@);
                    assert(0 <= i < voxels@.len());
                    assert(!brick_all_empty(*brick, color_palette@, data_palette@));
                    return false;
                }
                i = i + 1;
            }
            true
        },
    }
}

/// Tells if two bricks hold the same voxels in the same form
fn bricks_equal(a: &BrickData<u32>, b: &BrickData<u32>) -> (result: bool)
    ensures
        result == brick_same(*a, *b),
{
    match (a, b) {
        (BrickData::Empty, BrickData::Empty) => true,
        (BrickData::Solid(x), BrickData::Solid(y)) => *x == *y,
        (BrickData::Parted(x), BrickData::Parted(y)) => {
            if x.len() != y.len() {
                return false;
            }
            let mut i: usize = 0;
            while i < x.len()
                invariant
                    *a == BrickData::<u32>::Parted(*x),
                    *b == BrickData::<u32>::Parted(*y),
                    x@.len() == y@.len(),
                    i <= x@.len(),
                    forall|j: int| 0 <= j < i ==> x@[j] == y@[j],
                decreases x@.len() - i,
            {
                if x[i] != y[i] {
                    assert(x@[i as int] != y@[i as int]);
                    return false;
                }
                i = i + 1;
            }
            assert(x@ == y@);
            true
        },
        _ => false,
    }
}

impl NodeContent<u32> {
    /// Returns with true if content doesn't have any data
    pub fn is_empty<V: VoxelData>(&self, color_palette: &[Albedo], data_palette: &[V]) -> (result: bool)
        requires
            content_in_palettes(*self, color_palette@.len() as int, data_palette@.len() as int),
        ensures
            result == match *self {
                NodeContent::UniformLeaf(brick) => brick_all_empty(brick, color_palette@, data_palette@),
                NodeContent::Leaf(bricks) => forall|i: int|
                    0 <= i < 8 ==> #[trigger] brick_all_empty(bricks[i], color_palette@, data_palette@),
                NodeContent::Internal(_) => false,
                NodeContent::Nothing => true,
            },
    {
        match self {
            NodeContent::UniformLeaf(brick) => brick_is_empty(brick, color_palette, data_palette),
            NodeContent::Leaf(bricks) => {
                let mut i: usize = 0;
                while i < 8
                    invariant
                        i <= 8,
                        *self == NodeContent::<u32>::Leaf(*bricks),
                        forall|j: int|
                            0 <= j < 8 ==> #[trigger] brick_in_palettes(
                                bricks[j],
                                color_palette@.len() as int,
                                data_palette@.len() as int,
                            ),
                        forall|j: int|
                            0 <= j < i ==> #[trigger] brick_all_empty(
                                bricks[j],
                                color_palette@,
                                data_palette@,
                            ),
                    decreases 8 - i,
                {
                    if !brick_is_empty(&bricks[i], color_palette, data_palette) {
                        assert(!brick_all_empty(self->Leaf_0[i as int], color_palette@, data_palette@));
                        return false;
                    }
                    i = i + 1;
                }
                true
            },
            NodeContent::Internal(_) => false,
            NodeContent::Nothing => true,
        }
    }

    /// Returns with true if all contained elements equal the given data
    pub fn is_all(&self, data: &u32) -> (result: bool)
        requires
            content_parts_nonempty(*self),
        ensures
            result == match *self {
                NodeContent::UniformLeaf(brick) => brick_is_all(brick, *data),
                NodeContent::Leaf(bricks) => forall|i: int|
                    0 <= i < 8 ==> #[trigger] brick_is_all(bricks[i], *data),
                _ => false,
            },
    {
        match self {
            NodeContent::UniformLeaf(brick) => Self::brick_holds_only(brick, data),
            NodeContent::Leaf(bricks) => {
                let mut i: usize = 0;
                while i < 8
                    invariant
                        i <= 8,
                        *self == NodeContent::<u32>::Leaf(*bricks),
                        forall|j: int| 0 <= j < 8 ==> #[trigger] bricks[j].parts_nonempty(),
                        forall|j: int| 0 <= j < i ==> #[trigger] brick_is_all(bricks[j], *data),
                    decreases 8 - i,
                {
                    if !Self::brick_holds_only(&bricks[i], data) {
                        assert(!brick_is_all(self->Leaf_0[i as int], *data));
                        return false;
                    }
                    i = i + 1;
                }
                true
            },
            NodeContent::Internal(_) | NodeContent::Nothing => false,
        }
    }

    /// Tells if every voxel of the brick holds the given value
    fn brick_holds_only(brick: &BrickData<u32>, data: &u32) -> (result: bool)
        requires
            brick.parts_nonempty(),
        ensures
            result == brick_is_all(*brick, *data),
    {
        match brick {
            BrickData::Empty => false,
            BrickData::Solid(voxel) => *voxel == *data,
            BrickData::Parted(_) => {
                if let Some(homogeneous) = brick.get_homogeneous_data() {
                    *homogeneous == *data
                } else {
                    false
                }
            },
        }
    }

    /// Tells if the two nodes hold the same bricks; internal nodes never compare equal
    pub fn compare(&self, other: &NodeContent<u32>) -> (result: bool)
        ensures
            result == match *self {
                NodeContent::Nothing => other is Nothing,
                NodeContent::Internal(_) => false,
                NodeContent::UniformLeaf(brick) => *other matches NodeContent::UniformLeaf(
                    other_brick,
                ) && brick_same(brick, other_brick),
                NodeContent::Leaf(bricks) => *other matches NodeContent::Leaf(other_bricks)
                    && forall|i: int|
                    0 <= i < 8 ==> #[trigger] brick_same(bricks[i], other_bricks[i]),
            },
    {
        match self {
            NodeContent::Nothing => matches!(other, NodeContent::Nothing),
            NodeContent::Internal(_) => false,
            NodeContent::UniformLeaf(brick) => {
                if let NodeContent::UniformLeaf(other_brick) = other {
                    bricks_equal(brick, other_brick)
                } else {
                    false
                }
            },
            NodeContent::Leaf(bricks) => {
                if let NodeContent::Leaf(other_bricks) = other {
                    let mut i: usize = 0;
                    while i < 8
                        invariant
                            i <= 8,
                            *self == NodeContent::<u32>::Leaf(*bricks),
                            *other == NodeContent::<u32>::Leaf(*other_bricks),
                            forall|j: int|
                                0 <= j < i ==> #[trigger] brick_same(bricks[j], other_bricks[j]),
                        decreases 8 - i,
                    {
                        if !bricks_equal(&bricks[i], &other_bricks[i]) {
                            assert(!brick_same(self->Leaf_0[i as int], other->Leaf_0[i as int]));
                            return false;
                        }
                        i = i + 1;
                    }
                    true
                } else {
                    false
                }
            },
        }
    }
}

} // verus!