use crate::octree::Octree;
use vstd::prelude::*;

verus! {

/// Node metadata as the GPU reads it: the lowest byte holds the occupancy of the children,
/// the lowest bit of the highest byte tells if the node is a leaf
impl<T> Octree<T> {
    /// Sets the leaf flag of the node metadata, clearing the rest of its highest byte
    pub fn meta_set_is_leaf(sized_node_meta: &mut u32, is_leaf: bool)
        ensures
            *final(sized_node_meta) == *old(sized_node_meta) % 0x100_0000 + if is_leaf {
                0x100_0000int
            } else {
                0
            },
    {
        let m = *sized_node_meta;
        assert((m & 0x00FF_FFFF) | 0x0100_0000u32 == m % 0x100_0000 + 0x100_0000)
            by (bit_vector);
        assert((m & 0x00FF_FFFF) | 0x0000_0000u32 == m % 0x100_0000) by (bit_vector);
        *sized_node_meta = (*sized_node_meta & 0x00FF_FFFF) | if is_leaf {
            0x0100_0000
        } else {
            0x0000_0000
        };
    }

    /// Sets the lowest byte of the node metadata to the occupancy of the node's children
    pub fn meta_set_node_occupancy_bitmap(sized_node_meta: &mut u32, bitmap: u8)
        ensures
            *final(sized_node_meta) == *old(sized_node_meta) - *old(sized_node_meta) % 0x100
                + bitmap,
    {
        let m = *sized_node_meta;
        let b = bitmap;
        assert((m & 0xFFFF_FF00) | (b as u32) == m - m % 0x100 + b) by (bit_vector);
        *sized_node_meta = (*sized_node_meta & 0xFFFF_FF00) | bitmap as u32;
    }

    /// Stores the 64 bit occupancy bitmap of a leaf in the first two words of its children
    /// slots, the lower half first
    pub fn meta_set_leaf_occupancy_bitmap(bitmap_target: &mut [u32; 8], source: u64)
        ensures
            final(bitmap_target)[0] == source % 0x1_0000_0000,
            final(bitmap_target)[1] == source / 0x1_0000_0000,
            forall|i: int| 2 <= i < 8 ==> #[trigger] final(bitmap_target)[i] == old(bitmap_target)[i],
    {
        let s = source;
        assert((s & 0x0000_0000_FFFF_FFFF) as u32 == s % 0x1_0000_0000) by (bit_vector);
        assert(((s & 0xFFFF_FFFF_0000_0000) >> 32u64) as u32 == s / 0x1_0000_0000)
            by (bit_vector);
        bitmap_target[0] = (source & 0x0000_0000_FFFF_FFFF) as u32;
        bitmap_target[1] = ((source & 0xFFFF_FFFF_0000_0000) >> 32) as u32;
    }

    /// Stores the 64 bit occupancy bitmask of the first level of a leaf, split the same way
    /// as [`Octree::meta_set_leaf_occupancy_bitmap`]
    pub fn meta_set_lvvl1_occupancy_bitmask(bitmap_target: &mut [u32; 8], source: u64)
        ensures
            final(bitmap_target)[0] == source % 0x1_0000_0000,
            final(bitmap_target)[1] == source / 0x1_0000_0000,
            forall|i: int| 2 <= i < 8 ==> #[trigger] final(bitmap_target)[i] == old(bitmap_target)[i],
    {
        Self::meta_set_leaf_occupancy_bitmap(bitmap_target, source);
    }
}

/// The two words written for an occupancy bitmap give the bitmap back: the lower word plus the
/// upper word shifted up by 32 bits
pub proof fn lemma_occupancy_split_recombines(source: u64)
    ensures
        (source % 0x1_0000_0000) + (source / 0x1_0000_0000) * 0x1_0000_0000 == source,
{
}

} // verus!
