use crate::object_pool::empty_marker;
use crate::types::{BrickData, BrickModel, ContentModel, NodeContent};
use vstd::arithmetic::power2::{lemma2_to64, lemma_pow2_adds, lemma_pow2_unfold, pow2};
use vstd::bits::{lemma_u32_pow2_no_overflow, lemma_u32_shl_is_mul};
use vstd::prelude::*;

verus! {

/// Points at the node and child of the GPU cache to overwrite next, walking the cache
/// backwards, child by child, and wrapping around at its start
#[derive(Debug, Clone, Copy, PartialEq, Eq, Structural)]
pub struct VictimPointer {
    pub max_meta_len: usize,
    pub loop_count: usize,
    pub stored_items: usize,
    pub meta_index: usize,
    pub child: usize,
}

impl VictimPointer {
    /// The pointer stays inside the buffer it covers
    pub open spec fn wf(&self) -> bool {
        &&& self.max_meta_len >= 1
        &&& self.meta_index < self.max_meta_len
        &&& self.child < 8
    }

    /// Returns the size of the buffer this pointer covers
    pub fn len(&self) -> (len: usize)
        ensures
            len == self.max_meta_len,
    {
        self.max_meta_len
    }

    /// Returns true if no new nodes can be added without overwriting another
    pub fn is_full(&self) -> (full: bool)
        ensures
            full == (self.max_meta_len <= self.stored_items),
    {
        self.max_meta_len <= self.stored_items
    }

    /// Creates object, based on the given cache length it should cover
    pub fn new(max_meta_len: usize) -> (pointer: Self)
        requires
            max_meta_len >= 1,
        ensures
            pointer.wf(),
            pointer == (VictimPointer {
                max_meta_len,
                loop_count: 0,
                stored_items: 0,
                meta_index: (max_meta_len - 1) as usize,
                child: 0,
            }),
    {
        VictimPointer {
            max_meta_len,
            loop_count: 0,
            stored_items: 0,
            meta_index: max_meta_len - 1,
            child: 0,
        }
    }

    /// Steps the iterator forward to the next children, if available, or the next node.
    /// Wraps around
    pub fn step(&mut self)
        requires
            old(self).wf(),
            old(self).child >= 7 && old(self).meta_index == 0 ==> old(self).loop_count
                < usize::MAX,
        ensures
            final(self).wf(),
            *final(self) == old(self).after_step(),
    {
        if self.child >= 7 {
            self.skip_node();
        } else {
            self.child = self.child + 1;
        }
    }

    /// The pointer at the next child of the same node, or at the next node after the last child
    pub open spec fn after_step(self) -> Self {
        if self.child >= 7 {
            self.next_node()
        } else {
            VictimPointer { child: (self.child + 1) as usize, ..self }
        }
    }

    /// The pointer at the first child of the node before the current one, the last node
    /// after the first one
    pub open spec fn next_node(self) -> Self {
        if self.meta_index == 0 {
            VictimPointer {
                loop_count: (self.loop_count + 1) as usize,
                meta_index: (self.max_meta_len - 1) as usize,
                child: 0,
                ..self
            }
        } else {
            VictimPointer { meta_index: (self.meta_index - 1) as usize, child: 0, ..self }
        }
    }

    /// Steps the iterator forward one node
    pub fn skip_node(&mut self)
        requires
            old(self).wf(),
            old(self).meta_index == 0 ==> old(self).loop_count < usize::MAX,
        ensures
            final(self).wf(),
            *final(self) == old(self).next_node(),
    {
        if self.meta_index == 0 {
            self.loop_count = self.loop_count + 1;
            self.meta_index = self.max_meta_len - 1;
        } else {
            self.meta_index = self.meta_index - 1;
        }
        self.child = 0;
    }

    /// Provides the number of times the victim node pointer has started from the first element in the cache
    pub fn get_loop_count(&self) -> (count: usize)
        ensures
            count == self.loop_count,
    {
        self.loop_count
    }
}

/// The pointer after the given number of steps
pub open spec fn steps(pointer: VictimPointer, count: nat) -> VictimPointer
    decreases count,
{
    if count == 0 {
        pointer
    } else {
        steps(pointer, (count - 1) as nat).after_step()
    }
}

/// Stepping from the first child of a node visits its eight children one by one, and the
/// eighth step moves the pointer to the first child of the next node
pub proof fn lemma_steps_cover_node(pointer: VictimPointer)
    requires
        pointer.wf(),
        pointer.child == 0,
    ensures
        forall|k: nat|
            k < 8 ==> #[trigger] steps(pointer, k) == (VictimPointer { child: k as usize, ..pointer }),
        steps(pointer, 8) == pointer.next_node(),
{
    reveal_with_fuel(steps, 9);
    assert forall|k: nat| k < 8 implies #[trigger] steps(pointer, k) == (VictimPointer {
        child: k as usize,
        ..pointer
    }) by {
        if k > 0 {
            assert(steps(pointer, (k - 1) as nat) == (VictimPointer {
                child: (k - 1) as usize,
                ..pointer
            }));
        }
    }
}

/// Bit of a node's metadata telling that the node is used by the renderer
pub const NODE_USED_MASK: u32 = 0x0000_0001;

/// Bit of a node's metadata telling that the node is a leaf
pub const NODE_LEAF_MASK: u32 = 0x0000_0004;

/// Bit of a node's metadata telling that the leaf is uniform; nodes that are no leaves are
/// never uniform
pub const NODE_UNIFORM_MASK: u32 = 0x0000_0008;

/// The flag of a brick in byte 1 of its node's metadata: set when the brick holds voxels
pub open spec fn occupied_bit(octant: int) -> u32 {
    (0x100 * pow2(octant as nat)) as u32
}

/// The flag of a brick in byte 2 of its node's metadata: set when the brick is parted
pub open spec fn parted_bit(octant: int) -> u32 {
    (0x1_0000 * pow2(octant as nat)) as u32
}

/// The bits a brick sets in the metadata of its leaf at the given octant
pub open spec fn brick_structure_bits<V>(brick: BrickModel<V>, octant: int) -> u32 {
    match brick {
        BrickModel::Empty => 0,
        BrickModel::Solid(_) => occupied_bit(octant),
        BrickModel::Parted(_) => occupied_bit(octant) | parted_bit(octant),
    }
}

/// The occupancy byte of a leaf's metadata over its first `n` bricks: bit `o` is set when
/// brick `o` holds voxels
pub open spec fn occupied_flags<V>(bricks: Seq<BrickModel<V>>, n: nat) -> nat
    decreases n,
{
    if n == 0 {
        0
    } else {
        occupied_flags(bricks, (n - 1) as nat) + if bricks[n - 1] is Empty {
            0
        } else {
            pow2((n - 1) as nat)
        }
    }
}

/// The structure byte of a leaf's metadata over its first `n` bricks: bit `o` is set when
/// brick `o` is parted
pub open spec fn parted_flags<V>(bricks: Seq<BrickModel<V>>, n: nat) -> nat
    decreases n,
{
    if n == 0 {
        0
    } else {
        parted_flags(bricks, (n - 1) as nat) + if bricks[n - 1] is Parted {
            pow2((n - 1) as nat)
        } else {
            0
        }
    }
}

/// The metadata describing a node to the renderer: byte 0 holds the leaf bit (value 4) and
/// the uniform bit (value 8), byte 1 the occupancy of the bricks, byte 2 which bricks are
/// parted
pub open spec fn node_properties<V>(content: ContentModel<V>) -> nat {
    match content {
        ContentModel::Nothing => 0,
        ContentModel::Internal(_) => 0,
        ContentModel::Leaf(bricks) => 4 + occupied_flags(bricks, 8) * 0x100 + parted_flags(
            bricks,
            8,
        ) * 0x1_0000,
        ContentModel::UniformLeaf(brick) => 4 + 8 + occupied_flags(seq![brick], 1) * 0x100
            + parted_flags(seq![brick], 1) * 0x1_0000,
    }
}

/// A one bit shifted left is the power of two of the shift
proof fn lemma_bit_is_pow2(shift: u32)
    requires
        shift < 32,
    ensures
        (1u32 << shift) as nat == pow2(shift as nat),
        pow2(shift as nat) <= u32::MAX,
{
    lemma_u32_pow2_no_overflow(shift as nat);
    lemma_u32_shl_is_mul(1, shift);
}

/// The flags of the first `n` bricks fit below the `n`th power of two
proof fn lemma_flags_bound<V>(bricks: Seq<BrickModel<V>>, n: nat)
    ensures
        occupied_flags(bricks, n) < pow2(n),
        parted_flags(bricks, n) < pow2(n),
        parted_flags(bricks, n) <= occupied_flags(bricks, n),
    decreases n,
{
    if n == 0 {
        lemma2_to64();
    } else {
        lemma_flags_bound(bricks, (n - 1) as nat);
        lemma_pow2_unfold(n);
    }
}

impl OctreeGPUDataHandler {
    /// The bit of a metadata element marking one of its 8 bricks as used: brick `i` is covered
    /// by element `i / 8`, at bit `24 + i % 8`
    pub fn brick_used_mask(brick_index: usize) -> (mask: u32)
        ensures
            mask as nat == 0x100_0000 * pow2((brick_index % 8) as nat),
            mask == used_mask_spec(brick_index as int),
    {
        let shift: u32 = (24 + (brick_index % 8)) as u32;
        proof {
            lemma_bit_is_pow2(shift);
            lemma_pow2_adds(24, (brick_index % 8) as nat);
            lemma2_to64();
        }
        0x01u32 << shift
    }

    /// Adds the bits describing a brick of a leaf to its metadata: the brick's occupancy bit
    /// in byte 1 when it holds voxels, and its structure bit in byte 2 when it is parted
    pub fn meta_add_leaf_brick_structure<V>(
        sized_node_meta: &mut u32,
        brick: &BrickData<V>,
        brick_octant: usize,
    )
        requires
            brick_octant < 16,
        ensures
            *final(sized_node_meta) == *old(sized_node_meta) | brick_structure_bits(
                brick@,
                brick_octant as int,
            ),
    {
        let occupied_shift: u32 = (8 + brick_octant) as u32;
        let parted_shift: u32 = (16 + brick_octant) as u32;
        proof {
            lemma_bit_is_pow2(occupied_shift);
            lemma_bit_is_pow2(parted_shift);
            lemma_pow2_adds(8, brick_octant as nat);
            lemma_pow2_adds(16, brick_octant as nat);
            lemma2_to64();
        }
        match brick {
            BrickData::Empty => {
                let m = *sized_node_meta;
                assert(m | 0u32 == m) by (bit_vector);
            },
            BrickData::Solid(_) => {
                *sized_node_meta = *sized_node_meta | (0x01u32 << occupied_shift);
            },
            BrickData::Parted(_) => {
                let m = *sized_node_meta;
                let a = 0x01u32 << occupied_shift;
                let b = 0x01u32 << parted_shift;
                assert((m | a) | b == m | (a | b)) by (bit_vector);
                *sized_node_meta = *sized_node_meta | (0x01u32 << occupied_shift);
                *sized_node_meta = *sized_node_meta | (0x01u32 << parted_shift);
            },
        }
    }
}

/// Setting the flags of octant `o` in metadata whose flag bytes only hold lower octants adds
/// the flags' values
proof fn lemma_or_flags(meta: u32, a: u32, b: u32, o: u32)
    by (bit_vector)
    requires
        o < 8,
        a < (1u32 << o),
        b < (1u32 << o),
        meta == 4 + a * 256 + b * 65536,
    ensures
        meta | (1u32 << (8 + o)) == 4 + (a + (1u32 << o)) * 256 + b * 65536,
        meta | ((1u32 << (8 + o)) | (1u32 << (16 + o))) == 4 + (a + (1u32 << o)) * 256 + (b + (
        1u32 << o)) * 65536,
{
}

/// Adding the bits of brick `o` to the metadata of a leaf that describes its first `o` bricks
/// gives the metadata describing its first `o + 1` bricks
proof fn lemma_leaf_step<V>(meta: u32, bricks: Seq<BrickModel<V>>, o: int)
    requires
        0 <= o < 8,
        o < bricks.len(),
        meta as nat == 4 + occupied_flags(bricks, o as nat) * 0x100 + parted_flags(bricks, o as nat)
            * 0x1_0000,
    ensures
        (meta | brick_structure_bits(bricks[o], o)) as nat == 4 + occupied_flags(
            bricks,
            (o + 1) as nat,
        ) * 0x100 + parted_flags(bricks, (o + 1) as nat) * 0x1_0000,
{
    let ou = o as u32;
    lemma_flags_bound(bricks, o as nat);
    lemma_bit_is_pow2(ou);
    lemma_bit_is_pow2((8 + ou) as u32);
    lemma_bit_is_pow2((16 + ou) as u32);
    lemma_pow2_adds(8, o as nat);
    lemma_pow2_adds(16, o as nat);
    lemma2_to64();
    let a = occupied_flags(bricks, o as nat) as u32;
    let b = parted_flags(bricks, o as nat) as u32;
    assert(meta == 4 + a * 256 + b * 65536);
    lemma_or_flags(meta, a, b, ou);
    assert(occupied_bit(o) == 1u32 << (8 + ou));
    assert(parted_bit(o) == 1u32 << (16 + ou));
    match bricks[o] {
        BrickModel::Empty => {
            assert(meta | 0u32 == meta) by (bit_vector);
        },
        BrickModel::Solid(_) => {},
        BrickModel::Parted(_) => {},
    }
}

impl OctreeGPUDataHandler {
    /// Creates the metadata describing the given node to the renderer
    pub fn create_node_properties<V>(node: &NodeContent<V>) -> (meta: u32)
        ensures
            meta as nat == node_properties(node@),
    {
        let mut meta: u32 = 0;
        match node {
            NodeContent::Internal(_) | NodeContent::Nothing => {
                assert(0u32 & !NODE_LEAF_MASK == 0u32) by (bit_vector);
                assert(0u32 & !NODE_UNIFORM_MASK == 0u32) by (bit_vector);
                meta = meta & !NODE_LEAF_MASK;
                meta = meta & !NODE_UNIFORM_MASK;
            },
            NodeContent::Leaf(bricks) => {
                assert((0u32 | NODE_LEAF_MASK) & !NODE_UNIFORM_MASK == 4u32) by (bit_vector);
                meta = meta | NODE_LEAF_MASK;
                meta = meta & !NODE_UNIFORM_MASK;
                let ghost models = node@->Leaf_0;
                let mut octant: usize = 0;
                while octant < 8
                    invariant
                        octant <= 8,
                        models == Seq::new(8, |i: int| bricks[i]@),
                        meta as nat == 4 + occupied_flags(models, octant as nat) * 0x100
                            + parted_flags(models, octant as nat) * 0x1_0000,
                    decreases 8 - octant,
                {
                    proof {
                        lemma_leaf_step(meta, models, octant as int);
                    }
                    Self::meta_add_leaf_brick_structure(&mut meta, &bricks[octant], octant);
                    octant = octant + 1;
                }
            },
            NodeContent::UniformLeaf(brick) => {
                assert((0u32 | NODE_LEAF_MASK) | NODE_UNIFORM_MASK == 12u32) by (bit_vector);
                meta = meta | NODE_LEAF_MASK;
                meta = meta | NODE_UNIFORM_MASK;
                let ghost models = seq![brick@];
                proof {
                    lemma_leaf_step(4u32, models, 0);
                    lemma_bit_is_pow2(8);
                    lemma_bit_is_pow2(16);
                    lemma2_to64();
                    assert(occupied_bit(0) == 0x100u32);
                    assert(parted_bit(0) == 0x1_0000u32);
                    assert((12u32 | 0u32) == 12u32 + (4u32 | 0u32) - 4u32) by (bit_vector);
                    assert((12u32 | 0x100u32) == 8u32 + (4u32 | 0x100u32)) by (bit_vector);
                    assert((12u32 | (0x100u32 | 0x1_0000u32)) == 8u32 + (4u32 | (0x100u32
                        | 0x1_0000u32))) by (bit_vector);
                }
                Self::meta_add_leaf_brick_structure(&mut meta, brick, 0);
            },
        }
        meta
    }
}

/// The used bit of a brick inside its metadata element
pub open spec fn used_mask_spec(brick_index: int) -> u32 {
    (0x100_0000 * pow2((brick_index % 8) as nat)) as u32
}

/// Who holds a brick of the GPU cache
#[derive(Debug, Clone, Copy, PartialEq, Eq, Structural)]
pub enum BrickOwnedBy {
    NotOwned,
    /// The key of the node and the octant of the brick inside it
    Node(u32, u8),
}

/// The node data the renderer reads, as words: the metadata of each node, its eight child
/// references and its 64 bit occupancy split into two words. The ambient light and the color
/// palette, which are floating point values, are kept by the renderer itself.
pub struct OctreeRenderData {
    pub metadata: Vec<u32>,
    pub node_children: Vec<u32>,
    pub node_ocbits: Vec<u32>,
}

/// Keeps the GPU cache of the tree: the node data uploaded so far, where new nodes and bricks
/// go, and which node owns each brick. The maps between node keys and cache indices are kept
/// by the renderer.
pub struct OctreeGPUDataHandler {
    pub render_data: OctreeRenderData,
    pub victim_node: VictimPointer,
    pub victim_brick: usize,
    pub brick_ownership: Vec<BrickOwnedBy>,
    pub uploaded_color_palette_size: usize,
}

/// The brick at `k` steps from `start`, going forward and wrapping at `count`
pub open spec fn ring_pos(start: int, k: int, count: int) -> int {
    if start + k < count {
        start + k
    } else {
        start + k - count
    }
}

/// The number of steps from `start` forward to `brick`, wrapping at `count`
pub open spec fn ring_distance(start: int, brick: int, count: int) -> int {
    if brick >= start {
        brick - start
    } else {
        brick + count - start
    }
}

/// The brick is used: its used bit is set in its metadata element
pub open spec fn brick_used(metadata: Seq<u32>, brick: int) -> bool {
    metadata[brick / 8] & used_mask_spec(brick) != 0
}

/// The brick can be overwritten: no node owns it, or it was not used since it was last passed
pub open spec fn brick_free(ownership: Seq<BrickOwnedBy>, metadata: Seq<u32>, brick: int) -> bool {
    ownership[brick] == BrickOwnedBy::NotOwned || !brick_used(metadata, brick)
}

/// Clearing or setting the used bit of one brick leaves the used bits of the other bricks of
/// the element and its lower three bytes as they are
proof fn lemma_used_bits(w: u32, i: u32, j: u32)
    by (bit_vector)
    requires
        i < 8,
        j < 8,
    ensures
        (w & !(1u32 << (24 + i))) & (1u32 << (24 + i)) == 0,
        i != j ==> (w & !(1u32 << (24 + i))) & (1u32 << (24 + j)) == w & (1u32 << (24 + j)),
        (w & !(1u32 << (24 + i))) % 0x100_0000 == w % 0x100_0000,
        (w | (1u32 << (24 + i))) & (1u32 << (24 + i)) != 0,
        i != j ==> (w | (1u32 << (24 + i))) & (1u32 << (24 + j)) == w & (1u32 << (24 + j)),
        (w | (1u32 << (24 + i))) % 0x100_0000 == w % 0x100_0000,
{
}

/// The used bit of a brick, as a shift
proof fn lemma_used_mask(brick: int)
    requires
        brick >= 0,
    ensures
        used_mask_spec(brick) == 1u32 << (24 + brick % 8) as u32,
{
    lemma_bit_is_pow2((24 + brick % 8) as u32);
    lemma_pow2_adds(24, (brick % 8) as nat);
    lemma2_to64();
}

/// Clearing (or setting) the used bit of brick `b` changes no other brick's used bit and no
/// lower byte of any element
proof fn lemma_brick_bit_changed(old_meta: Seq<u32>, new_meta: Seq<u32>, b: int, set: bool)
    requires
        0 <= b,
        b / 8 < old_meta.len(),
        new_meta == old_meta.update(
            b / 8,
            if set {
                old_meta[b / 8] | used_mask_spec(b)
            } else {
                old_meta[b / 8] & !used_mask_spec(b)
            },
        ),
    ensures
        brick_used(new_meta, b) == set,
        forall|c: int|
            0 <= c < old_meta.len() * 8 && c != b ==> #[trigger] brick_used(new_meta, c) == brick_used(
                old_meta,
                c,
            ),
        forall|w: int|
            0 <= w < old_meta.len() ==> #[trigger] new_meta[w] % 0x100_0000 == old_meta[w]
                % 0x100_0000,
{
    let wb = old_meta[b / 8];
    lemma_used_mask(b);
    lemma_used_bits(wb, (b % 8) as u32, 0);
    assert forall|c: int| 0 <= c < old_meta.len() * 8 && c != b implies #[trigger] brick_used(
        new_meta,
        c,
    ) == brick_used(old_meta, c) by {
        lemma_used_mask(c);
        if c / 8 == b / 8 {
            assert(c % 8 != b % 8);
            lemma_used_bits(wb, (b % 8) as u32, (c % 8) as u32);
        }
    }
}

impl OctreeGPUDataHandler {
    /// Provides the index of the first brick available to be overwritten, through the second
    /// chance algorithm: going forward from the victim brick, a brick owned by a node and used
    /// since it was last passed gets its used bit cleared and is passed; the first brick that
    /// is not owned, or not used, is taken, marked used, and becomes the victim brick. When
    /// every brick is owned and used, the walk comes round to the victim brick, now unused.
    pub fn first_available_brick(&mut self) -> (brick_index: usize)
        requires
            old(self).render_data.metadata.len() > 0,
            old(self).render_data.metadata.len() * 8 <= usize::MAX,
            old(self).victim_brick < old(self).render_data.metadata.len() * 8,
            old(self).brick_ownership.len() >= old(self).render_data.metadata.len() * 8,
        ensures
            ({
                let n = old(self).render_data.metadata.len() * 8;
                let start = old(self).victim_brick as int;
                let own = old(self).brick_ownership@;
                let meta = old(self).render_data.metadata@;
                let found = brick_free(own, meta, brick_index as int);
                let passed = if found {
                    ring_distance(start, brick_index as int, n)
                } else {
                    n
                };
                &&& brick_index < n
                &&& forall|j: int| 0 <= j < passed ==> !brick_free(own, meta, #[trigger] ring_pos(start, j, n))
                &&& !found ==> brick_index == start
                &&& final(self).render_data.metadata@.len() == meta.len()
                &&& forall|w: int|
                    0 <= w < meta.len() ==> #[trigger] final(self).render_data.metadata@[w] % 0x100_0000
                        == meta[w] % 0x100_0000
                &&& forall|b: int|
                    0 <= b < n ==> #[trigger] brick_used(final(self).render_data.metadata@, b) == if b
                        == brick_index {
                        true
                    } else if ring_distance(start, b, n) < passed {
                        false
                    } else {
                        brick_used(meta, b)
                    }
            }),
            final(self).victim_brick == brick_index,
            final(self).brick_ownership@ == old(self).brick_ownership@,
            final(self).render_data.node_children@ == old(self).render_data.node_children@,
            final(self).render_data.node_ocbits@ == old(self).render_data.node_ocbits@,
            final(self).victim_node == old(self).victim_node,
            final(self).uploaded_color_palette_size == old(self).uploaded_color_palette_size,
    {
        let n = self.render_data.metadata.len() * 8;
        let ghost start = self.victim_brick as int;
        let ghost ni: int = n as int;
        let ghost meta = self.render_data.metadata@;
        let ghost own = self.brick_ownership@;
        let ghost mut k: int = 0;
        let mut brick_index = self.victim_brick;
        while !(self.brick_ownership[brick_index] == BrickOwnedBy::NotOwned || 0 == (
        self.render_data.metadata[brick_index / 8] & Self::brick_used_mask(brick_index)))
            invariant
                n == meta.len() * 8,
                ni == n,
                n == self.render_data.metadata@.len() * 8,
                self.brick_ownership@ == own,
                own.len() >= n,
                0 <= start < n,
                0 <= k <= n,
                brick_index == self.victim_brick,
                brick_index == ring_pos(start, k, ni),
                brick_index < n,
                brick_index / 8 < self.render_data.metadata@.len(),
                self.render_data.node_children@ == old(self).render_data.node_children@,
                self.render_data.node_ocbits@ == old(self).render_data.node_ocbits@,
                self.victim_node == old(self).victim_node,
                self.uploaded_color_palette_size == old(self).uploaded_color_palette_size,
                forall|j: int| 0 <= j < k ==> !brick_free(own, meta, #[trigger] ring_pos(start, j, ni)),
                forall|w: int|
                    0 <= w < meta.len() ==> #[trigger] self.render_data.metadata@[w] % 0x100_0000
                        == meta[w] % 0x100_0000,
                forall|b: int|
                    0 <= b < n ==> #[trigger] brick_used(self.render_data.metadata@, b) == if ring_distance(start, b, ni) < k {
                        false
                    } else {
                        brick_used(meta, b)
                    },
            decreases n - k,
        {
            let mask = Self::brick_used_mask(brick_index);
            proof {
                if k == n {
                    assert(ring_distance(start, brick_index as int, ni) == 0);
                    assert(brick_used(self.render_data.metadata@, brick_index as int) == false);
                }
                assert(k < n);
                assert(brick_used(meta, brick_index as int) == brick_used(
                    self.render_data.metadata@,
                    brick_index as int,
                ));
            }
            let ghost before = self.render_data.metadata@;
            let cleared = self.render_data.metadata[brick_index / 8] & !mask;
            self.render_data.metadata.set(brick_index / 8, cleared);
            proof {
                lemma_brick_bit_changed(before, self.render_data.metadata@, brick_index as int, false);
            }
            self.victim_brick = (brick_index + 1) % n;
            proof {
                if brick_index + 1 < n {
                    vstd::arithmetic::div_mod::lemma_small_mod((brick_index + 1) as nat, n as nat);
                } else {
                    vstd::arithmetic::div_mod::lemma_mod_self_0(n as int);
                }
                k = k + 1;
                assert forall|b: int| 0 <= b < n implies #[trigger] brick_used(
                    self.render_data.metadata@,
                    b,
                ) == if ring_distance(start, b, ni) < k {
                    false
                } else {
                    brick_used(meta, b)
                } by {
                    if b != brick_index {
                        assert(brick_used(self.render_data.metadata@, b) == brick_used(before, b));
                    }
                }
            }
            brick_index = self.victim_brick;
        }
        let mask = Self::brick_used_mask(brick_index);
        let ghost before = self.render_data.metadata@;
        let marked = self.render_data.metadata[brick_index / 8] | mask;
        self.render_data.metadata.set(brick_index / 8, marked);
        proof {
            lemma_brick_bit_changed(before, self.render_data.metadata@, brick_index as int, true);
            lemma_used_mask(brick_index as int);
            if k < n {
                assert(ring_distance(start, brick_index as int, ni) == k);
                assert(brick_used(before, brick_index as int) == brick_used(meta, brick_index as int));
                assert(brick_free(own, meta, brick_index as int));
            } else {
                assert(brick_index == start);
                assert(ring_pos(start, 0, ni) == start);
                assert(!brick_free(own, meta, brick_index as int));
            }
            let found = brick_free(own, meta, brick_index as int);
            let passed = if found {
                ring_distance(start, brick_index as int, ni)
            } else {
                ni
            };
            assert(passed == k);
            assert forall|b: int| 0 <= b < n implies #[trigger] brick_used(
                self.render_data.metadata@,
                b,
            ) == if b == brick_index {
                true
            } else if ring_distance(start, b, ni) < passed {
                false
            } else {
                brick_used(meta, b)
            } by {
                if b != brick_index {
                    assert(brick_used(self.render_data.metadata@, b) == brick_used(before, b));
                }
            }
        }
        brick_index
    }
}

/// The child reference of a slot of the node children buffer: eight slots per node
pub open spec fn child_ref(children: Seq<u32>, node: int, octant: int) -> u32 {
    children[node * 8 + octant]
}

/// The node is no leaf and refers to a child at the octant
pub open spec fn slot_has_child(metadata: Seq<u32>, children: Seq<u32>, node: int, octant: int) -> bool {
    metadata[node] & NODE_LEAF_MASK == 0 && child_ref(children, node, octant) != u32::MAX
}

/// The node is marked as used by the renderer
pub open spec fn node_in_use(metadata: Seq<u32>, node: int) -> bool {
    metadata[node] & NODE_USED_MASK != 0
}

/// Where the search for a node to overwrite stops, within the given number of steps: at the
/// first slot of a node that is no leaf, whose child is not in use; the child is then marked
/// in use. The child of every other such slot passed on the way is marked unused.
pub open spec fn node_search(
    pointer: VictimPointer,
    metadata: Seq<u32>,
    children: Seq<u32>,
    fuel: nat,
) -> Option<(VictimPointer, Seq<u32>)>
    decreases fuel,
{
    if fuel == 0 {
        None
    } else if slot_has_child(metadata, children, pointer.meta_index as int, pointer.child as int) {
        let c = child_ref(children, pointer.meta_index as int, pointer.child as int) as int;
        if !node_in_use(metadata, c) {
            Some((pointer, metadata.update(c, metadata[c] | NODE_USED_MASK)))
        } else {
            node_search(
                pointer.after_step(),
                metadata.update(c, metadata[c] & !NODE_USED_MASK),
                children,
                (fuel - 1) as nat,
            )
        }
    } else {
        node_search(pointer.after_step(), metadata, children, (fuel - 1) as nat)
    }
}

/// The place of the pointer along its walk: it advances by one each step, and wraps to 0
pub open spec fn walk_pos(pointer: VictimPointer) -> int {
    (pointer.max_meta_len - 1 - pointer.meta_index) * 8 + pointer.child
}

/// The steps from one place of the walk to another
pub open spec fn walk_distance(from: int, to: int, len: int) -> int {
    if to >= from {
        to - from
    } else {
        to + len - from
    }
}

/// How many wraps of the walk lie within the given number of steps from a place
pub open spec fn wraps_within(pos: int, steps: int, len: int) -> int {
    if pos + steps >= 2 * len {
        2
    } else if pos + steps >= len {
        1
    } else {
        0
    }
}

/// Marking a node used or unused changes no other bit of its metadata
proof fn lemma_used_bit_only(w: u32)
    by (bit_vector)
    ensures
        (w | 1u32) & !1u32 == w & !1u32,
        (w & !1u32) & !1u32 == w & !1u32,
        (w | 1u32) & 1u32 != 0,
        (w & !1u32) & 1u32 == 0,
{
}

/// Metadata that agrees on all but the used bit agrees on the leaf bit
proof fn lemma_leaf_bit_kept(a: u32, b: u32)
    by (bit_vector)
    requires
        a & !1u32 == b & !1u32,
    ensures
        a & 4u32 == b & 4u32,
{
}

impl VictimPointer {
    /// Provides the first index in the metadata buffer which can be overwritten with a node,
    /// and, when a node had to give up one of its children for it, the slot of that child.
    /// While the buffer has room, the next free index is taken. Otherwise the pointer walks
    /// the slots of the nodes that are no leaves, from where it stands, clearing the used bit
    /// of each child it passes, and takes the first child it finds unused.
    pub fn first_available_node(&mut self, render_data: &mut OctreeRenderData) -> (found: (
        usize,
        Option<(usize, u8)>,
    ))
        requires
            old(self).wf(),
            old(self).max_meta_len <= old(render_data).metadata@.len(),
            old(self).max_meta_len * 8 <= old(render_data).node_children@.len(),
            old(self).max_meta_len <= old(self).stored_items ==> {
                &&& old(self).loop_count + 2 <= usize::MAX
                &&& forall|m: int, c: int|
                    0 <= m < old(self).max_meta_len && 0 <= c < 8 && #[trigger] slot_has_child(
                        old(render_data).metadata@,
                        old(render_data).node_children@,
                        m,
                        c,
                    ) ==> child_ref(old(render_data).node_children@, m, c)
                        < old(render_data).metadata@.len()
                &&& exists|m: int, c: int|
                    0 <= m < old(self).max_meta_len && 0 <= c < 8 && #[trigger] slot_has_child(
                        old(render_data).metadata@,
                        old(render_data).node_children@,
                        m,
                        c,
                    )
            },
        ensures
            final(render_data).node_children@ == old(render_data).node_children@,
            final(render_data).node_ocbits@ == old(render_data).node_ocbits@,
            final(render_data).metadata@.len() == old(render_data).metadata@.len(),
            final(self).wf(),
            old(self).stored_items < old(self).max_meta_len ==> {
                &&& found == (old(self).stored_items, None::<(usize, u8)>)
                &&& *final(self) == (VictimPointer {
                    meta_index: old(self).stored_items,
                    stored_items: (old(self).stored_items + 1) as usize,
                    ..*old(self)
                })
                &&& final(render_data).metadata@ == old(render_data).metadata@.update(
                    old(self).stored_items as int,
                    old(render_data).metadata@[old(self).stored_items as int] | NODE_USED_MASK,
                )
            },
            old(self).max_meta_len <= old(self).stored_items ==> {
                &&& node_search(
                    *old(self),
                    old(render_data).metadata@,
                    old(render_data).node_children@,
                    (old(self).max_meta_len * 16) as nat,
                ) == Some((*final(self), final(render_data).metadata@))
                &&& found == (
                    child_ref(
                        old(render_data).node_children@,
                        final(self).meta_index as int,
                        final(self).child as int,
                    ) as usize,
                    Some((final(self).meta_index, final(self).child as u8)),
                )
                &&& slot_has_child(
                    final(render_data).metadata@,
                    final(render_data).node_children@,
                    final(self).meta_index as int,
                    final(self).child as int,
                )
                &&& node_in_use(final(render_data).metadata@, found.0 as int)
                &&& forall|i: int|
                    0 <= i < old(render_data).metadata@.len() ==> #[trigger] final(render_data).metadata@[i] & !NODE_USED_MASK == old(render_data).metadata@[i]
                        & !NODE_USED_MASK
            },
    {
        // If there is space left in the cache, use it all up
        if !self.is_full() {
            let used = render_data.metadata[self.stored_items] | NODE_USED_MASK;
            render_data.metadata.set(self.stored_items, used);
            self.meta_index = self.stored_items;
            self.stored_items = self.stored_items + 1;
            return (self.meta_index, None);
        }
        let ghost start = *self;
        let ghost meta0 = render_data.metadata@;
        let ghost children = render_data.node_children@;
        let ghost len: int = self.max_meta_len * 8;
        let ghost (wm, wc) = choose|m: int, c: int|
            0 <= m < start.max_meta_len && 0 <= c < 8 && #[trigger] slot_has_child(
                meta0,
                children,
                m,
                c,
            );
        let ghost target: int = (start.max_meta_len - 1 - wm) * 8 + wc;
        let ghost wchild: int = child_ref(children, wm, wc) as int;
        let ghost mut fuel: nat = (start.max_meta_len * 16) as nat;
        //look for the next internal node ( with node children )
        loop
            invariant
                self.wf(),
                start == *old(self),
                start.max_meta_len <= start.stored_items,
                self.max_meta_len == start.max_meta_len,
                self.stored_items == start.stored_items,
                len == self.max_meta_len * 8,
                len >= 8,
                render_data.node_children@ == children,
                render_data.node_children.len() >= len,
                render_data.node_ocbits@ == old(render_data).node_ocbits@,
                render_data.metadata@.len() == meta0.len(),
                meta0 == old(render_data).metadata@,
                children == old(render_data).node_children@,
                self.max_meta_len <= meta0.len(),
                forall|i: int|
                    0 <= i < meta0.len() ==> #[trigger] render_data.metadata@[i] & !NODE_USED_MASK
                        == meta0[i] & !NODE_USED_MASK,
                forall|m: int, c: int|
                    0 <= m < start.max_meta_len && 0 <= c < 8 && #[trigger] slot_has_child(
                        meta0,
                        children,
                        m,
                        c,
                    ) ==> child_ref(children, m, c) < meta0.len(),
                0 <= wm < start.max_meta_len,
                0 <= wc < 8,
                slot_has_child(meta0, children, wm, wc),
                target == (start.max_meta_len - 1 - wm) * 8 + wc,
                wchild == child_ref(children, wm, wc) as int,
                0 <= wchild < meta0.len(),
                walk_distance(walk_pos(*self), target, len) + if node_in_use(
                    render_data.metadata@,
                    wchild,
                ) {
                    len
                } else {
                    0
                } < fuel,
                fuel <= 2 * len,
                self.loop_count + wraps_within(
                    walk_pos(*self),
                    walk_distance(walk_pos(*self), target, len) + if node_in_use(
                        render_data.metadata@,
                        wchild,
                    ) {
                        len
                    } else {
                        0
                    },
                    len,
                ) <= start.loop_count + 2,
                start.loop_count + 2 <= usize::MAX,
                node_search(*self, render_data.metadata@, children, fuel) == node_search(
                    start,
                    meta0,
                    children,
                    (start.max_meta_len * 16) as nat,
                ),
            decreases walk_distance(walk_pos(*self), target, len) + if node_in_use(
                render_data.metadata@,
                wchild,
            ) {
                len
            } else {
                0
            },
        {
            let ghost before = *self;
            let ghost cur = render_data.metadata@;
            let ghost pos = walk_pos(before);
            let ghost measure = walk_distance(pos, target, len) + if node_in_use(cur, wchild) {
                len
            } else {
                0
            };
            proof {
                lemma_leaf_bit_kept(cur[before.meta_index as int], meta0[before.meta_index as int]);
                lemma_leaf_bit_kept(cur[wm], meta0[wm]);
                assert(slot_has_child(cur, children, before.meta_index as int, before.child as int)
                    == slot_has_child(meta0, children, before.meta_index as int, before.child as int));
                assert(slot_has_child(cur, children, wm, wc));
                if pos == target {
                    assert(before.meta_index == wm && before.child == wc);
                }
            }
            let slot = self.meta_index * 8 + self.child;
            // child at target is not empty in a non-leaf node, which means
            // the target child might point to an internal node if it's valid
            if 0 == (render_data.metadata[self.meta_index] & NODE_LEAF_MASK)
                && render_data.node_children[slot] != empty_marker() {
                let child_meta_index = render_data.node_children[slot] as usize;
                proof {
                    assert(slot_has_child(meta0, children, before.meta_index as int, before.child as int));
                }
                if 0 == (render_data.metadata[child_meta_index] & NODE_USED_MASK) {
                    let used = render_data.metadata[child_meta_index] | NODE_USED_MASK;
                    render_data.metadata.set(child_meta_index, used);
                    proof {
                        lemma_used_bit_only(cur[child_meta_index as int]);
                        lemma_leaf_bit_kept(
                            render_data.metadata@[before.meta_index as int],
                            meta0[before.meta_index as int],
                        );
                        assert forall|i: int| 0 <= i < meta0.len() implies #[trigger] render_data.metadata@[i]
                            & !NODE_USED_MASK == meta0[i] & !NODE_USED_MASK by {
                            if i != child_meta_index {
                                assert(render_data.metadata@[i] == cur[i]);
                            }
                        }
                    }
                    return (child_meta_index, Some((self.meta_index, self.child as u8)));
                } else {
                    // mark child as unused
                    let unused = render_data.metadata[child_meta_index] & !NODE_USED_MASK;
                    render_data.metadata.set(child_meta_index, unused);
                    proof {
                        lemma_used_bit_only(cur[child_meta_index as int]);
                        assert forall|i: int| 0 <= i < meta0.len() implies #[trigger] render_data.metadata@[i]
                            & !NODE_USED_MASK == meta0[i] & !NODE_USED_MASK by {
                            if i != child_meta_index {
                                assert(render_data.metadata@[i] == cur[i]);
                            }
                        }
                        if child_meta_index as int != wchild {
                            assert(render_data.metadata@[wchild] == cur[wchild]);
                        }
                    }
                }
            }
            self.step();
            proof {
                fuel = (fuel - 1) as nat;
                if !node_in_use(cur, wchild) {
                    if render_data.metadata@[wchild] != cur[wchild] {
                        lemma_used_bit_only(cur[wchild]);
                    }
                }
            }
        }
    }
}

} // verus!
