use crate::octree::{filled_cell, in_tree, lod_size, Error, Octree};
use crate::spatial::{
    flat_projection, is_power_of_two, lemma_flat_projection_bound, lemma_pow2_divides,
    power_of_two, same_cell, spec_flat_projection, V3c,
};
use crate::types::{BrickData, OctreeError};
use vstd::laws_eq::obeys_concrete_eq;
use vstd::prelude::*;

verus! {

/// The position of the brick that holds a voxel
pub open spec fn brick_pos(p: V3c<u32>, dim: u32) -> V3c<u32> {
    V3c { x: p.x / dim, y: p.y / dim, z: p.z / dim }
}

/// The index of a voxel inside the voxels of its brick
pub open spec fn in_brick_index(p: V3c<u32>, dim: u32) -> int {
    spec_flat_projection((p.x % dim) as int, (p.y % dim) as int, (p.z % dim) as int, dim as int)
}

/// The packed palette value a brick holds at the given index, unless it holds nothing there
pub open spec fn brick_voxel(brick: BrickData<u32>, index: int) -> Option<u32> {
    match brick {
        BrickData::Empty => None,
        BrickData::Solid(voxel) => if voxel == u32::MAX {
            None
        } else {
            Some(voxel)
        },
        BrickData::Parted(voxels) => if voxels@[index] == u32::MAX {
            None
        } else {
            Some(voxels@[index])
        },
    }
}

/// The voxel map after setting every position of the grid cell of size `size` containing `p`
/// to the packed value `data`; the empty marker erases them
pub open spec fn set_cell(m: Map<V3c<u32>, u32>, p: V3c<u32>, size: nat, data: u32) -> Map<
    V3c<u32>,
    u32,
> {
    if data == u32::MAX {
        m.remove_keys(Set::new(|q: V3c<u32>| same_cell(p, q, size)))
    } else {
        m.union_prefer_right(Map::new(|q: V3c<u32>| same_cell(p, q, size), |q: V3c<u32>| data))
    }
}

/// A sparse octree of voxel bricks: each leaf of the tree stands for a cube of bricks, all
/// holding one brick of voxels, which is either empty, one packed palette value throughout, or
/// one packed value for each voxel. A large cube set to one value takes one leaf and one solid
/// brick; a detailed region takes parted bricks.
pub struct BrickTree {
    size: u32,
    brick_dim: u32,
    tree: Octree<usize>,
    bricks: Vec<BrickData<u32>>,
}

impl BrickTree {
    /// The edge length of a brick
    pub closed spec fn spec_brick_dim(&self) -> u32 {
        self.brick_dim
    }

    /// The edge length of the cube the tree covers
    pub closed spec fn spec_size(&self) -> nat {
        (self.tree.spec_size() * self.brick_dim) as nat
    }

    /// The structural invariant of the brick tree
    pub closed spec fn wf(&self) -> bool {
        &&& self.tree.wf()
        &&& is_power_of_two(self.brick_dim as nat)
        &&& self.brick_dim <= 1024
        &&& self.tree.spec_size() * self.brick_dim == self.size
        &&& is_power_of_two(self.size as nat)
        &&& is_power_of_two(self.tree.spec_size() as nat)
        &&& forall|q: V3c<u32>| #[trigger] self.tree@.contains_key(q) ==> self.tree@[q] < self.bricks@.len()
        &&& forall|i: int|
            0 <= i < self.bricks@.len() ==> (#[trigger] self.bricks@[i] matches BrickData::Parted(
                voxels,
            ) ==> voxels@.len() == self.brick_dim * self.brick_dim * self.brick_dim)
    }

    /// The packed palette value stored for the position, if any
    pub closed spec fn voxel(&self, p: V3c<u32>) -> Option<u32> {
        let bp = brick_pos(p, self.brick_dim);
        if self.tree@.contains_key(bp) {
            brick_voxel(self.bricks@[self.tree@[bp] as int], in_brick_index(p, self.brick_dim))
        } else {
            None
        }
    }
}

impl View for BrickTree {
    /// The packed palette value stored at each position of the tree
    type V = Map<V3c<u32>, u32>;

    closed spec fn view(&self) -> Map<V3c<u32>, u32> {
        Map::new(
            |p: V3c<u32>| in_tree(p, self.spec_size() as u32) && self.voxel(p) is Some,
            |p: V3c<u32>| self.voxel(p)->0,
        )
    }
}

/// The product of two powers of two is a power of two
pub proof fn lemma_pow2_product(a: nat, b: nat)
    requires
        is_power_of_two(a),
        is_power_of_two(b),
    ensures
        is_power_of_two(a * b),
    decreases a,
{
    if a == 1 {
        assert(a * b == b);
    } else {
        lemma_pow2_product(a / 2, b);
        lemma_pow2_divides(1, b);
        let h = (a / 2) * b;
        assert(a * b == 2 * h) by (nonlinear_arith)
            requires
                a == 2 * (a / 2),
                h == (a / 2) * b,
        ;
        assert(h >= 1) by (nonlinear_arith)
            requires
                a / 2 >= 1,
                b >= 1,
                h == (a / 2) * b,
        ;
        assert((2 * h) / 2 == h);
    }
}

/// The quotient of two powers of two, the larger by the smaller, is a power of two
pub proof fn lemma_pow2_quotient(small: nat, big: nat)
    requires
        is_power_of_two(small),
        is_power_of_two(big),
        small <= big,
    ensures
        is_power_of_two(big / small),
        (big / small) * small == big,
    decreases big,
{
    lemma_pow2_divides(small, big);
    vstd::arithmetic::div_mod::lemma_fundamental_div_mod(big as int, small as int);
    if small == big {
        vstd::arithmetic::div_mod::lemma_div_by_self(big as int);
    } else if small == 1 {
        assert(big / 1 == big);
    } else {
        lemma_pow2_quotient(small / 2, big / 2);
        let k = (big / 2) / (small / 2);
        assert(big == 2 * (big / 2) && small == 2 * (small / 2));
        assert(big == k * small) by (nonlinear_arith)
            requires
                big == 2 * (big / 2),
                small == 2 * (small / 2),
                k * (small / 2) == big / 2,
        ;
        vstd::arithmetic::div_mod::lemma_div_multiples_vanish(k as int, small as int);
        assert(k * small == small * k) by (nonlinear_arith);
    }
}

impl BrickTree {
    /// Creates an empty brick tree covering a cube of the given size, made of bricks of the given
    /// dimension. The brick dimension must be a power of two of at most 1024, and the size a
    /// multiple of it by a power of two.
    pub fn new(size: u32, brick_dimension: u32) -> (result: Result<Self, OctreeError>)
        ensures
            match result {
                Ok(tree) => {
                    &&& tree.wf()
                    &&& tree@ == Map::<V3c<u32>, u32>::empty()
                    &&& tree.spec_size() == size
                    &&& tree.spec_brick_dim() == brick_dimension
                },
                Err(OctreeError::InvalidBrickDimension(d)) => d == brick_dimension && (
                !is_power_of_two(brick_dimension as nat) || brick_dimension > 1024),
                Err(OctreeError::InvalidSize(s)) => s == size && is_power_of_two(
                    brick_dimension as nat,
                ) && brick_dimension <= 1024 && !(size % brick_dimension == 0
                    && is_power_of_two((size / brick_dimension) as nat)),
                Err(_) => false,
            },
            result is Ok <==> (is_power_of_two(brick_dimension as nat) && brick_dimension <= 1024
                && size % brick_dimension == 0 && is_power_of_two((size / brick_dimension) as nat)),
    {
        if !power_of_two(brick_dimension) || brick_dimension > 1024 {
            return Err(OctreeError::InvalidBrickDimension(brick_dimension));
        }
        proof {
            lemma_pow2_divides(1, brick_dimension as nat);
        }
        if size % brick_dimension != 0 || !power_of_two(size / brick_dimension) {
            return Err(OctreeError::InvalidSize(size));
        }
        let tree = match Octree::<usize>::new(size / brick_dimension) {
            Ok(t) => t,
            Err(_) => {
                return Err(OctreeError::InvalidSize(size));
            },
        };
        proof {
            vstd::arithmetic::div_mod::lemma_fundamental_div_mod(size as int, brick_dimension as int);
        }
        let result = BrickTree { size, brick_dim: brick_dimension, tree, bricks: Vec::new() };
        proof {
            lemma_pow2_product((size / brick_dimension) as nat, brick_dimension as nat);
            assert(result.tree.spec_size() * brick_dimension == size) by (nonlinear_arith)
                requires
                    result.tree.spec_size() == size / brick_dimension,
                    size == brick_dimension * (size / brick_dimension) + size % brick_dimension,
                    size % brick_dimension == 0,
            ;
            assert(result@ =~= Map::<V3c<u32>, u32>::empty());
        }
        Ok(result)
    }
}

/// The dimension of a brick cubed fits the index type
proof fn lemma_dim_cubed(dim: int)
    requires
        1 <= dim <= 1024,
    ensures
        dim * dim <= 0x10_0000,
        dim * dim * dim <= 0x4000_0000,
{
    assert(dim * dim <= 1024 * 1024) by (nonlinear_arith)
        requires
            1 <= dim <= 1024,
    ;
    assert(dim * dim * dim <= 1024 * 1024 * 1024) by (nonlinear_arith)
        requires
            1 <= dim <= 1024,
            dim * dim <= 1024 * 1024,
    ;
}

impl BrickTree {
    /// The packed palette value stored at the given position, if any
    pub fn get(&self, position: &V3c<u32>) -> (result: Option<u32>)
        requires
            self.wf(),
        ensures
            result == if self@.contains_key(*position) {
                Some(self@[*position])
            } else {
                None::<u32>
            },
    {
        if position.x >= self.size || position.y >= self.size || position.z >= self.size {
            return None;
        }
        let dim = self.brick_dim;
        proof {
            lemma_pow2_divides(1, dim as nat);
            lemma_dim_cubed(dim as int);
        }
        let bp = V3c::new(position.x / dim, position.y / dim, position.z / dim);
        assert(bp == brick_pos(*position, dim));
        match self.tree.get(&bp) {
            None => None,
            Some(key) => {
                let key = *key;
                match &self.bricks[key] {
                    BrickData::Empty => None,
                    BrickData::Solid(voxel) => if *voxel == u32::MAX {
                        None
                    } else {
                        Some(*voxel)
                    },
                    BrickData::Parted(voxels) => {
                        let index = flat_projection(
                            (position.x % dim) as usize,
                            (position.y % dim) as usize,
                            (position.z % dim) as usize,
                            dim as usize,
                        );
                        assert(voxels@.len() == dim * dim * dim);
                        let voxel = voxels[index];
                        if voxel == u32::MAX {
                            None
                        } else {
                            Some(voxel)
                        }
                    },
                }
            },
        }
    }
}

/// The value a voxel holds, seen as an entry: the empty marker holds nothing
pub open spec fn voxel_entry(voxel: u32) -> Option<u32> {
    if voxel == u32::MAX {
        None
    } else {
        Some(voxel)
    }
}

/// The position lies in the cube with the given corner and extent
pub open spec fn in_box(a: int, b: int, c: int, ox: int, oy: int, oz: int, extent: int) -> bool {
    &&& ox <= a < ox + extent
    &&& oy <= b < oy + extent
    &&& oz <= c < oz + extent
}

/// The voxels of the given brick, one by one; a missing brick holds nothing
fn brick_voxels(brick: Option<&BrickData<u32>>, dim: usize) -> (voxels: Vec<u32>)
    requires
        1 <= dim <= 1024,
        brick matches Some(b) ==> (*b matches BrickData::Parted(vs) ==> vs@.len() == dim * dim
            * dim),
    ensures
        voxels@.len() == dim * dim * dim,
        forall|i: int|
            0 <= i < dim * dim * dim ==> #[trigger] voxel_entry(voxels@[i]) == match brick {
                None => None,
                Some(b) => brick_voxel(*b, i),
            },
{
    proof {
        lemma_dim_cubed(dim as int);
    }
    let len = dim * dim * dim;
    let fill: u32 = match brick {
        Some(BrickData::Solid(v)) => *v,
        _ => u32::MAX,
    };
    let mut voxels: Vec<u32> = Vec::new();
    let mut i: usize = 0;
    while i < len
        invariant
            len == dim * dim * dim,
            i <= len,
            voxels@.len() == i,
            brick matches Some(b) ==> (*b matches BrickData::Parted(vs) ==> vs@.len() == len),
            fill == match brick {
                Some(BrickData::Solid(v)) => *v,
                _ => u32::MAX,
            },
            forall|j: int|
                0 <= j < i ==> #[trigger] voxel_entry(voxels@[j]) == match brick {
                    None => None,
                    Some(b) => brick_voxel(*b, j),
                },
        decreases len - i,
    {
        let v = match brick {
            Some(BrickData::Parted(vs)) => vs[i],
            _ => fill,
        };
        voxels.push(v);
        i = i + 1;
    }
    voxels
}

/// Sets every voxel of the brick in the cube with the given corner and extent to the value
fn fill_region(
    voxels: &mut Vec<u32>,
    dim: usize,
    ox: usize,
    oy: usize,
    oz: usize,
    extent: usize,
    data: u32,
)
    requires
        1 <= dim <= 1024,
        old(voxels)@.len() == dim * dim * dim,
        ox + extent <= dim,
        oy + extent <= dim,
        oz + extent <= dim,
    ensures
        final(voxels)@.len() == dim * dim * dim,
        forall|a: int, b: int, c: int|
            0 <= a < dim && 0 <= b < dim && 0 <= c < dim ==> #[trigger] final(voxels)@[spec_flat_projection(
                a,
                b,
                c,
                dim as int,
            )] == if in_box(a, b, c, ox as int, oy as int, oz as int, extent as int) {
                data
            } else {
                old(voxels)@[spec_flat_projection(a, b, c, dim as int)]
            },
{
    proof {
        lemma_dim_cubed(dim as int);
    }
    let ghost base = voxels@;
    let mut x = ox;
    while x < ox + extent
        invariant
            1 <= dim <= 1024,
            dim * dim * dim <= 0x4000_0000,
            ox <= x <= ox + extent,
            ox + extent <= dim,
            oy + extent <= dim,
            oz + extent <= dim,
            base.len() == dim * dim * dim,
            voxels@.len() == dim * dim * dim,
            forall|a: int, b: int, c: int|
                0 <= a < dim && 0 <= b < dim && 0 <= c < dim ==> #[trigger] voxels@[spec_flat_projection(
                    a,
                    b,
                    c,
                    dim as int,
                )] == if in_box(a, b, c, ox as int, oy as int, oz as int, extent as int) && a < x {
                    data
                } else {
                    base[spec_flat_projection(a, b, c, dim as int)]
                },
        decreases ox + extent - x,
    {
        let mut y = oy;
        while y < oy + extent
            invariant
                1 <= dim <= 1024,
                dim * dim * dim <= 0x4000_0000,
                ox <= x < ox + extent,
                oy <= y <= oy + extent,
                ox + extent <= dim,
                oy + extent <= dim,
                oz + extent <= dim,
                base.len() == dim * dim * dim,
                voxels@.len() == dim * dim * dim,
                forall|a: int, b: int, c: int|
                    0 <= a < dim && 0 <= b < dim && 0 <= c < dim ==> #[trigger] voxels@[spec_flat_projection(
                        a,
                        b,
                        c,
                        dim as int,
                    )] == if in_box(a, b, c, ox as int, oy as int, oz as int, extent as int) && (a
                        < x || (a == x && b < y)) {
                        data
                    } else {
                        base[spec_flat_projection(a, b, c, dim as int)]
                    },
            decreases oy + extent - y,
        {
            let mut z = oz;
            while z < oz + extent
                invariant
                    1 <= dim <= 1024,
                    dim * dim * dim <= 0x4000_0000,
                    ox <= x < ox + extent,
                    oy <= y < oy + extent,
                    oz <= z <= oz + extent,
                    ox + extent <= dim,
                    oy + extent <= dim,
                    oz + extent <= dim,
                    base.len() == dim * dim * dim,
                    voxels@.len() == dim * dim * dim,
                    forall|a: int, b: int, c: int|
                        0 <= a < dim && 0 <= b < dim && 0 <= c < dim ==> #[trigger] voxels@[spec_flat_projection(
                            a,
                            b,
                            c,
                            dim as int,
                        )] == if in_box(a, b, c, ox as int, oy as int, oz as int, extent as int)
                            && (a < x || (a == x && (b < y || (b == y && c < z)))) {
                            data
                        } else {
                            base[spec_flat_projection(a, b, c, dim as int)]
                        },
                decreases oz + extent - z,
            {
                let index = flat_projection(x, y, z, dim);
                let ghost before = voxels@;
                voxels.set(index, data);
                proof {
                    assert forall|a: int, b: int, c: int|
                        0 <= a < dim && 0 <= b < dim && 0 <= c < dim implies #[trigger] voxels@[spec_flat_projection(
                            a,
                            b,
                            c,
                            dim as int,
                        )] == if in_box(a, b, c, ox as int, oy as int, oz as int, extent as int)
                            && (a < x || (a == x && (b < y || (b == y && c < z + 1)))) {
                            data
                        } else {
                            base[spec_flat_projection(a, b, c, dim as int)]
                        } by {
                        lemma_flat_projection_bound(a, b, c, dim as int);
                        if a != x || b != y || c != z {
                            if spec_flat_projection(a, b, c, dim as int) == index {
                                crate::spatial::lemma_flat_projection_injective(
                                    a,
                                    b,
                                    c,
                                    x as int,
                                    y as int,
                                    z as int,
                                    dim as int,
                                );
                            }
                            assert(voxels@[spec_flat_projection(a, b, c, dim as int)]
                                == before[spec_flat_projection(a, b, c, dim as int)]);
                        }
                    }
                }
                z = z + 1;
            }
            y = y + 1;
        }
        x = x + 1;
    }
}

/// A number below a product has a quotient by one factor below the other
proof fn lemma_quotient_below(a: int, d: int, t: int)
    requires
        0 <= a < t * d,
        0 < d,
    ensures
        a / d < t,
{
    vstd::arithmetic::div_mod::lemma_fundamental_div_mod(a, d);
    vstd::arithmetic::div_mod::lemma_mod_bound(a, d);
    assert(a / d < t) by (nonlinear_arith)
        requires
            a == d * (a / d) + a % d,
            0 <= a % d,
            a < t * d,
            0 < d,
    ;
}

/// Dividing by one factor and then by another is dividing by their product
proof fn lemma_coarse_axis(a: nat, b: nat, dim: nat, k: nat)
    requires
        dim > 0,
        k > 0,
    ensures
        ((a / dim) / k == (b / dim) / k) == (a / (dim * k) == b / (dim * k)),
{
    vstd::arithmetic::div_mod::lemma_div_denominator(a as int, dim as int, k as int);
    vstd::arithmetic::div_mod::lemma_div_denominator(b as int, dim as int, k as int);
}

/// The quotient by a divisor `s` of the brick size splits into the brick and the part of the
/// brick: `a / s == m * (a / dim) + (a % dim) / s` where `dim == m * s`
proof fn lemma_split_quotient(a: int, dim: int, s: int, m: int)
    requires
        0 <= a,
        0 < s,
        0 < m,
        dim == m * s,
    ensures
        a / s == m * (a / dim) + (a % dim) / s,
        0 <= a % dim < dim,
{
    assert(dim > 0) by (nonlinear_arith)
        requires
            0 < m,
            0 < s,
            dim == m * s,
    ;
    vstd::arithmetic::div_mod::lemma_fundamental_div_mod(a, dim);
    vstd::arithmetic::div_mod::lemma_fundamental_div_mod(a % dim, s);
    vstd::arithmetic::div_mod::lemma_mod_bound(a, dim);
    vstd::arithmetic::div_mod::lemma_mod_bound(a % dim, s);
    let q = m * (a / dim) + (a % dim) / s;
    let r = (a % dim) % s;
    assert(a == q * s + r) by (nonlinear_arith)
        requires
            a == dim * (a / dim) + a % dim,
            a % dim == s * ((a % dim) / s) + (a % dim) % s,
            dim == m * s,
            q == m * (a / dim) + (a % dim) / s,
            r == (a % dim) % s,
    ;
    vstd::arithmetic::div_mod::lemma_fundamental_div_mod_converse(a, s, q, r);
}

/// Inside one brick, the cells of a finer grid are the aligned cubes of the brick: a position
/// of the brick lies in the cell of another exactly when it lies in that cell's aligned range
proof fn lemma_fine_axis(a: int, b: int, dim: int, s: int, m: int)
    requires
        0 <= a,
        0 <= b,
        0 < s,
        0 < m,
        dim == m * s,
        a / dim == b / dim,
    ensures
        0 <= (a % dim) / s * s,
        (a % dim) / s * s + s <= dim,
        ((a % dim) / s * s <= b % dim < (a % dim) / s * s + s) == (a / s == b / s),
{
    lemma_split_quotient(a, dim, s, m);
    lemma_split_quotient(b, dim, s, m);
    let c = (a % dim) / s;
    let r = b % dim;
    vstd::arithmetic::div_mod::lemma_fundamental_div_mod(r, s);
    vstd::arithmetic::div_mod::lemma_mod_bound(r, s);
    vstd::arithmetic::div_mod::lemma_fundamental_div_mod(a % dim, s);
    vstd::arithmetic::div_mod::lemma_mod_bound(a % dim, s);
    assert(0 <= c) by {
        vstd::arithmetic::div_mod::lemma_div_pos_is_pos(a % dim, s);
    }
    assert(0 <= c * s) by (nonlinear_arith)
        requires
            0 <= c,
            0 < s,
    ;
    assert(c < m) by (nonlinear_arith)
        requires
            a % dim == s * c + (a % dim) % s,
            0 <= (a % dim) % s,
            a % dim < dim,
            dim == m * s,
            0 < s,
    ;
    assert(c * s + s <= dim) by (nonlinear_arith)
        requires
            c < m,
            0 < s,
            dim == m * s,
    ;
    if c * s <= r < c * s + s {
        vstd::arithmetic::div_mod::lemma_fundamental_div_mod_converse(r, s, c, r - c * s);
    }
    if r / s == c {
        assert(c * s <= r < c * s + s) by (nonlinear_arith)
            requires
                r == s * (r / s) + r % s,
                0 <= r % s < s,
                r / s == c,
        ;
    }
}

/// Positions in the same cell of a grid whose cells are at most a brick lie in the same brick
proof fn lemma_cell_in_brick(a: int, b: int, dim: int, s: int, m: int)
    requires
        0 <= a,
        0 <= b,
        0 < s,
        0 < m,
        dim == m * s,
        a / s == b / s,
    ensures
        a / dim == b / dim,
{
    vstd::arithmetic::div_mod::lemma_div_denominator(a, s, m);
    vstd::arithmetic::div_mod::lemma_div_denominator(b, s, m);
    assert(s * m == m * s) by (nonlinear_arith);
}

/// A position in the same cell as a position of the tree is in the tree, when the cells divide
/// the tree
proof fn lemma_cell_in_range(a: int, b: int, s: int, size: int, t: int)
    requires
        0 <= a < size,
        0 <= b,
        0 < s,
        0 < t,
        size == t * s,
        a / s == b / s,
    ensures
        b < size,
{
    vstd::arithmetic::div_mod::lemma_fundamental_div_mod(a, s);
    vstd::arithmetic::div_mod::lemma_fundamental_div_mod(b, s);
    vstd::arithmetic::div_mod::lemma_mod_bound(a, s);
    vstd::arithmetic::div_mod::lemma_mod_bound(b, s);
    assert(a / s < t) by (nonlinear_arith)
        requires
            a == s * (a / s) + a % s,
            0 <= a % s,
            a < size,
            size == t * s,
            0 < s,
    ;
    assert(b < size) by (nonlinear_arith)
        requires
            b == s * (b / s) + b % s,
            b % s < s,
            a / s == b / s,
            a / s < t,
            size == t * s,
            0 < s,
    ;
}

impl BrickTree {
    /// The old voxel at an index of the brick a tree holds at a brick position, if it holds one
    spec fn old_brick_voxel(&self, bp: V3c<u32>, index: int) -> Option<u32> {
        if self.tree@.contains_key(bp) {
            brick_voxel(self.bricks@[self.tree@[bp] as int], index)
        } else {
            None
        }
    }

    /// Setting a cell of bricks to a solid brick sets its voxels
    proof fn lemma_solid_update(old_t: Self, new_t: Self, p: V3c<u32>, s: nat, data: u32)
        requires
            old_t.wf(),
            new_t.size == old_t.size,
            new_t.brick_dim == old_t.brick_dim,
            new_t.tree.wf(),
            new_t.tree.spec_size() == old_t.tree.spec_size(),
            new_t.bricks@ == old_t.bricks@.push(BrickData::Solid(data)),
            new_t.bricks@.len() <= usize::MAX,
            is_power_of_two(s),
            old_t.brick_dim <= s <= old_t.size,
            in_tree(p, old_t.size),
            new_t.tree@ == filled_cell(
                old_t.tree@,
                brick_pos(p, old_t.brick_dim),
                s / (old_t.brick_dim as nat),
                old_t.bricks@.len() as usize,
            ),
        ensures
            new_t.wf(),
            new_t@ == set_cell(old_t@, p, s, data),
    {
        let dim = old_t.brick_dim as nat;
        let size = old_t.size as nat;
        let k = s / dim;
        let key = old_t.bricks@.len() as usize;
        lemma_pow2_quotient(dim, s);
        lemma_pow2_divides(1, dim);
        lemma_pow2_quotient(s, size);
        let t = size / s;
        assert(k > 0 && t > 0) by (nonlinear_arith)
            requires
                k * dim == s,
                t * s == size,
                s >= 1,
                size >= 1,
        ;
        assert(s == dim * k) by (nonlinear_arith)
            requires
                k * dim == s,
        ;
        assert forall|q: V3c<u32>| #[trigger] new_t.tree@.contains_key(q) implies new_t.tree@[q]
            < new_t.bricks@.len() by {
            if !same_cell(brick_pos(p, old_t.brick_dim), q, k) {
                assert(old_t.tree@.contains_key(q));
            }
        }
        assert forall|i: int|
            0 <= i < new_t.bricks@.len() implies (#[trigger] new_t.bricks@[i] matches BrickData::Parted(
            voxels,
        ) ==> voxels@.len() == dim * dim * dim) by {
            if i < old_t.bricks@.len() {
                assert(new_t.bricks@[i] == old_t.bricks@[i]);
            }
        }
        assert(new_t.wf());
        let target = set_cell(old_t@, p, s, data);
        assert forall|q: V3c<u32>| #[trigger] new_t@.contains_key(q) == target.contains_key(q)
            && (new_t@.contains_key(q) ==> new_t@[q] == target[q]) by {
            let bp = brick_pos(p, old_t.brick_dim);
            let bq = brick_pos(q, old_t.brick_dim);
            lemma_coarse_axis(p.x as nat, q.x as nat, dim, k);
            lemma_coarse_axis(p.y as nat, q.y as nat, dim, k);
            lemma_coarse_axis(p.z as nat, q.z as nat, dim, k);
            assert(same_cell(bp, bq, k) == same_cell(p, q, s));
            if same_cell(p, q, s) {
                lemma_cell_in_range(p.x as int, q.x as int, s as int, size as int, t as int);
                lemma_cell_in_range(p.y as int, q.y as int, s as int, size as int, t as int);
                lemma_cell_in_range(p.z as int, q.z as int, s as int, size as int, t as int);
                assert(new_t.tree@.contains_key(bq) && new_t.tree@[bq] == key);
                assert(new_t.bricks@[key as int] == BrickData::Solid(data));
                assert(new_t.voxel(q) == voxel_entry(data));
            } else {
                assert(new_t.tree@.contains_key(bq) == old_t.tree@.contains_key(bq));
                if old_t.tree@.contains_key(bq) {
                    assert(new_t.tree@[bq] == old_t.tree@[bq]);
                    assert(new_t.bricks@[old_t.tree@[bq] as int] == old_t.bricks@[old_t.tree@[bq] as int]);
                }
                assert(new_t.voxel(q) == old_t.voxel(q));
            }
        }
        assert(new_t@ =~= target);
    }
}

/// The corner, along one axis, of the cell of the given size holding the coordinate, inside
/// its brick
pub open spec fn cell_corner(a: u32, dim: u32, s: u32) -> int {
    ((a % dim) / s * s) as int
}

impl BrickTree {
    /// Replacing the brick at a brick position by a copy whose voxels in one cell of a finer
    /// grid are set sets the voxels of that cell
    proof fn lemma_parted_update(
        old_t: Self,
        new_t: Self,
        p: V3c<u32>,
        s: u32,
        data: u32,
        voxels: Seq<u32>,
    )
        requires
            old_t.wf(),
            new_t.size == old_t.size,
            new_t.brick_dim == old_t.brick_dim,
            new_t.tree.wf(),
            new_t.tree.spec_size() == old_t.tree.spec_size(),
            new_t.bricks@.len() == old_t.bricks@.len() + 1,
            new_t.bricks@.len() <= usize::MAX,
            forall|i: int| 0 <= i < old_t.bricks@.len() ==> #[trigger] new_t.bricks@[i] == old_t.bricks@[i],
            new_t.bricks@[old_t.bricks@.len() as int] matches BrickData::Parted(v) && v@ == voxels,
            voxels.len() == old_t.brick_dim * old_t.brick_dim * old_t.brick_dim,
            is_power_of_two(s as nat),
            s < old_t.brick_dim,
            in_tree(p, old_t.size),
            new_t.tree@ == old_t.tree@.insert(
                brick_pos(p, old_t.brick_dim),
                old_t.bricks@.len() as usize,
            ),
            forall|a: int, b: int, c: int|
                0 <= a < old_t.brick_dim && 0 <= b < old_t.brick_dim && 0 <= c < old_t.brick_dim
                    ==> #[trigger] voxel_entry(
                    voxels[spec_flat_projection(a, b, c, old_t.brick_dim as int)],
                ) == if in_box(
                    a,
                    b,
                    c,
                    cell_corner(p.x, old_t.brick_dim, s),
                    cell_corner(p.y, old_t.brick_dim, s),
                    cell_corner(p.z, old_t.brick_dim, s),
                    s as int,
                ) {
                    voxel_entry(data)
                } else {
                    old_t.old_brick_voxel(
                        brick_pos(p, old_t.brick_dim),
                        spec_flat_projection(a, b, c, old_t.brick_dim as int),
                    )
                },
        ensures
            new_t.wf(),
            new_t@ == set_cell(old_t@, p, s as nat, data),
    {
        let dim = old_t.brick_dim as int;
        let size = old_t.size as int;
        let bp = brick_pos(p, old_t.brick_dim);
        let key = old_t.bricks@.len() as usize;
        lemma_pow2_quotient(s as nat, dim as nat);
        let m = dim / (s as int);
        lemma_pow2_divides(1, s as nat);
        assert(m > 0 && dim == m * s) by (nonlinear_arith)
            requires
                m * s == dim,
                s >= 1,
                dim >= 1,
        ;
        let t = old_t.tree.spec_size() as int;
        lemma_pow2_divides(1, t as nat);
        assert(size == t * dim);
        assert forall|q: V3c<u32>| #[trigger] new_t.tree@.contains_key(q) implies new_t.tree@[q]
            < new_t.bricks@.len() by {
            if q != bp {
                assert(old_t.tree@.contains_key(q));
            }
        }
        assert forall|i: int|
            0 <= i < new_t.bricks@.len() implies (#[trigger] new_t.bricks@[i] matches BrickData::Parted(
            vs,
        ) ==> vs@.len() == dim * dim * dim) by {
            if i < old_t.bricks@.len() {
                assert(new_t.bricks@[i] == old_t.bricks@[i]);
            }
        }
        assert(new_t.wf());
        let target = set_cell(old_t@, p, s as nat, data);
        assert forall|q: V3c<u32>| #[trigger] new_t@.contains_key(q) == target.contains_key(q)
            && (new_t@.contains_key(q) ==> new_t@[q] == target[q]) by {
            let bq = brick_pos(q, old_t.brick_dim);
            if bq == bp {
                lemma_fine_axis(p.x as int, q.x as int, dim, s as int, m);
                lemma_fine_axis(p.y as int, q.y as int, dim, s as int, m);
                lemma_fine_axis(p.z as int, q.z as int, dim, s as int, m);
                lemma_cell_in_range(p.x as int, q.x as int, dim, size, t);
                lemma_cell_in_range(p.y as int, q.y as int, dim, size, t);
                lemma_cell_in_range(p.z as int, q.z as int, dim, size, t);
                let a = (q.x % old_t.brick_dim) as int;
                let b = (q.y % old_t.brick_dim) as int;
                let c = (q.z % old_t.brick_dim) as int;
                assert(in_brick_index(q, old_t.brick_dim) == spec_flat_projection(a, b, c, dim));
                assert(new_t.tree@[bq] == key);
                assert(new_t.voxel(q) == voxel_entry(voxels[spec_flat_projection(a, b, c, dim)]));
                assert(in_box(
                    a,
                    b,
                    c,
                    cell_corner(p.x, old_t.brick_dim, s),
                    cell_corner(p.y, old_t.brick_dim, s),
                    cell_corner(p.z, old_t.brick_dim, s),
                    s as int,
                ) == same_cell(p, q, s as nat));
                assert(old_t.voxel(q) == old_t.old_brick_voxel(bp, spec_flat_projection(a, b, c, dim)));
            } else {
                if same_cell(p, q, s as nat) {
                    lemma_cell_in_brick(p.x as int, q.x as int, dim, s as int, m);
                    lemma_cell_in_brick(p.y as int, q.y as int, dim, s as int, m);
                    lemma_cell_in_brick(p.z as int, q.z as int, dim, s as int, m);
                }
                assert(new_t.tree@.contains_key(bq) == old_t.tree@.contains_key(bq));
                if old_t.tree@.contains_key(bq) {
                    assert(new_t.tree@[bq] == old_t.tree@[bq]);
                }
                assert(new_t.voxel(q) == old_t.voxel(q));
            }
        }
        assert(new_t@ =~= target);
    }
}

impl BrickTree {
    /// Sets every voxel of the grid cell of the given size holding the position to the packed
    /// palette value; the empty marker erases them. A cell of at least a brick takes one solid
    /// brick for all of its bricks; a smaller cell is written into a copy of the brick holding it.
    pub fn insert_at_lod_internal(
        &mut self,
        position: &V3c<u32>,
        insert_size: u32,
        target_content: u32,
    ) -> (result: Result<(), OctreeError>)
        requires
            old(self).wf(),
        ensures
            final(self).wf(),
            final(self).spec_size() == old(self).spec_size(),
            final(self).spec_brick_dim() == old(self).spec_brick_dim(),
            !is_power_of_two(insert_size as nat) ==> result == Err::<(), OctreeError>(
                OctreeError::InvalidSize(insert_size),
            ) && final(self)@ == old(self)@,
            is_power_of_two(insert_size as nat) && !in_tree(*position, old(self).spec_size() as u32)
                ==> result == Err::<(), OctreeError>(
                OctreeError::InvalidPosition { x: position.x, y: position.y, z: position.z },
            ) && final(self)@ == old(self)@,
            is_power_of_two(insert_size as nat) && in_tree(*position, old(self).spec_size() as u32)
                ==> result == Ok::<(), OctreeError>(()) && final(self)@ == set_cell(
                old(self)@,
                *position,
                lod_size(insert_size, old(self).spec_size() as u32),
                target_content,
            ),
    {
        if !power_of_two(insert_size) {
            return Err(OctreeError::InvalidSize(insert_size));
        }
        if position.x >= self.size || position.y >= self.size || position.z >= self.size {
            return Err(
                OctreeError::InvalidPosition { x: position.x, y: position.y, z: position.z },
            );
        }
        let ghost old_t = *self;
        let size = if insert_size < self.size {
            insert_size
        } else {
            self.size
        };
        let dim = self.brick_dim;
        proof {
            lemma_pow2_divides(1, dim as nat);
            lemma_dim_cubed(dim as int);
            reveal(obeys_concrete_eq);
        }
        let bp = V3c::new(position.x / dim, position.y / dim, position.z / dim);
        assert(bp == brick_pos(*position, dim));
        assert(in_tree(bp, self.tree.spec_size())) by {
            let t = self.tree.spec_size() as int;
            lemma_quotient_below(position.x as int, dim as int, t);
            lemma_quotient_below(position.y as int, dim as int, t);
            lemma_quotient_below(position.z as int, dim as int, t);
        }
        if size >= dim {
            let key = self.bricks.len();
            self.bricks.push(BrickData::Solid(target_content));
            let count = self.bricks.len();
            proof {
                lemma_pow2_quotient(dim as nat, size as nat);
                lemma_pow2_quotient(size as nat, self.size as nat);
                let c = (size / dim) as int;
                let t = self.tree.spec_size() as int;
                assert(c <= t) by (nonlinear_arith)
                    requires
                        c * dim == size,
                        t * dim == self.size,
                        size <= self.size,
                        dim >= 1,
                ;
            }
            let cells = size / dim;
            let inserted = self.tree.insert_at_lod(&bp, cells, key);
            proof {
                assert(lod_size(cells, self.tree.spec_size()) == cells as nat);
                assert(count == self.bricks@.len());
                BrickTree::lemma_solid_update(old_t, *self, *position, size as nat, target_content);
            }
        } else {
            self.leaf_update(position, &bp, size, target_content);
        }
        Ok(())
    }
}


impl BrickTree {
    /// The brick that holds the position, if the tree holds one there
    pub closed spec fn brick_at(&self, p: V3c<u32>) -> Option<BrickData<u32>> {
        let bp = brick_pos(p, self.brick_dim);
        if in_tree(p, self.size) && self.tree@.contains_key(bp) {
            Some(self.bricks@[self.tree@[bp] as int])
        } else {
            None
        }
    }

    /// Replaces the brick holding the position by a solid brick when all of its voxels hold one
    /// value, or by an empty brick when that value is the empty marker; the voxels of the tree
    /// stay as they were. Returns whether the brick was replaced.
    pub fn simplify(&mut self, position: &V3c<u32>) -> (simplified: bool)
        requires
            old(self).wf(),
        ensures
            final(self).wf(),
            final(self)@ == old(self)@,
            final(self).spec_size() == old(self).spec_size(),
            final(self).spec_brick_dim() == old(self).spec_brick_dim(),
            simplified == (old(self).brick_at(*position) matches Some(brick) && brick is Parted
                && brick.homogeneous() is Some),
            simplified ==> final(self).brick_at(*position) == Some(
                if old(self).brick_at(*position)->0.homogeneous()->0 == u32::MAX {
                    BrickData::<u32>::Empty
                } else {
                    BrickData::Solid(old(self).brick_at(*position)->0.homogeneous()->0)
                },
            ),
            !simplified ==> final(self).brick_at(*position) == old(self).brick_at(*position),
    {
        if position.x >= self.size || position.y >= self.size || position.z >= self.size {
            return false;
        }
        let dim = self.brick_dim;
        proof {
            lemma_pow2_divides(1, dim as nat);
            lemma_dim_cubed(dim as int);
            reveal(obeys_concrete_eq);
        }
        let bp = V3c::new(position.x / dim, position.y / dim, position.z / dim);
        assert(bp == brick_pos(*position, dim));
        let key = match self.tree.get(&bp) {
            None => {
                return false;
            },
            Some(key) => *key,
        };
        let is_parted = match &self.bricks[key] {
            BrickData::Parted(_) => true,
            _ => false,
        };
        if !is_parted {
            return false;
        }
        assert(self.bricks@[key as int].parts_nonempty()) by {
            assert(dim * dim * dim >= 1) by (nonlinear_arith)
                requires
                    dim >= 1,
            ;
        }
        let uniform = match self.bricks[key].get_homogeneous_data() {
            Some(voxel) => Some(*voxel),
            None => None,
        };
        match uniform {
            None => false,
            Some(voxel) => {
                let ghost old_t = *self;
                let replacement = if voxel == u32::MAX {
                    BrickData::Empty
                } else {
                    BrickData::Solid(voxel)
                };
                self.bricks.set(key, replacement);
                proof {
                    assert forall|i: int|
                        0 <= i < self.bricks@.len() implies (#[trigger] self.bricks@[i] matches BrickData::Parted(
                        vs,
                    ) ==> vs@.len() == dim * dim * dim) by {
                        if i != key {
                            assert(self.bricks@[i] == old_t.bricks@[i]);
                        }
                    }
                    assert forall|q: V3c<u32>| #[trigger] self.voxel(q) == old_t.voxel(q) by {
                        let bq = brick_pos(q, dim);
                        if old_t.tree@.contains_key(bq) && old_t.tree@[bq] == key {
                            let vs = old_t.bricks@[key as int]->Parted_0;
                            let idx = in_brick_index(q, dim);
                            lemma_flat_projection_bound(
                                (q.x % dim) as int,
                                (q.y % dim) as int,
                                (q.z % dim) as int,
                                dim as int,
                            );
                            assert(vs@[idx] == vs@[0]);
                        }
                    }
                    assert(self@ =~= old_t@);
                }
                true
            },
        }
    }
}


impl BrickTree {
    /// The edge length of the cube the tree covers
    pub fn size(&self) -> (size: u32)
        requires
            self.wf(),
        ensures
            size == self.spec_size(),
    {
        self.size
    }
}


impl BrickTree {
    /// Writes the packed value into every voxel of the cell of a grid finer than the bricks
    /// that holds the position: the brick holding the position is copied, or a brick of empty
    /// markers is made where the tree holds none, the cell is filled in the copy, and the tree
    /// refers to the copy at that brick position
    fn leaf_update(&mut self, position: &V3c<u32>, bp: &V3c<u32>, size: u32, target_content: u32)
        requires
            old(self).wf(),
            in_tree(*position, old(self).size),
            is_power_of_two(size as nat),
            size < old(self).brick_dim,
            *bp == brick_pos(*position, old(self).brick_dim),
            in_tree(*bp, old(self).tree.spec_size()),
        ensures
            final(self).wf(),
            final(self).size == old(self).size,
            final(self).brick_dim == old(self).brick_dim,
            final(self).tree.spec_size() == old(self).tree.spec_size(),
            final(self)@ == set_cell(old(self)@, *position, size as nat, target_content),
    {
        let ghost old_t = *self;
        let bp = *bp;
        let dim = self.brick_dim;
        proof {
            lemma_pow2_divides(1, dim as nat);
            lemma_dim_cubed(dim as int);
            reveal(obeys_concrete_eq);
        }
        let current: Option<&BrickData<u32>> = match self.tree.get(&bp) {
            Some(key) => Some(&self.bricks[*key]),
            None => None,
        };
        let mut voxels = brick_voxels(current, dim as usize);
        proof {
            lemma_pow2_quotient(size as nat, dim as nat);
            let m = (dim / size) as int;
            lemma_pow2_divides(1, size as nat);
            assert(m > 0 && dim == m * size) by (nonlinear_arith)
                requires
                    m * size == dim,
                    size >= 1,
                    dim >= 1,
            ;
            lemma_fine_axis(position.x as int, position.x as int, dim as int, size as int, m);
            lemma_fine_axis(position.y as int, position.y as int, dim as int, size as int, m);
            lemma_fine_axis(position.z as int, position.z as int, dim as int, size as int, m);
        }
        let ox = (position.x % dim) / size * size;
        let oy = (position.y % dim) / size * size;
        let oz = (position.z % dim) / size * size;
        let ghost base = voxels@;
        fill_region(
            &mut voxels,
            dim as usize,
            ox as usize,
            oy as usize,
            oz as usize,
            size as usize,
            target_content,
        );
        let ghost filled = voxels@;
        let key = self.bricks.len();
        self.bricks.push(BrickData::Parted(voxels));
        let count = self.bricks.len();
        let inserted = self.tree.insert(&bp, key);
        proof {
            assert forall|a: int, b: int, c: int|
                0 <= a < dim && 0 <= b < dim && 0 <= c < dim implies #[trigger] voxel_entry(
                filled[spec_flat_projection(a, b, c, dim as int)],
            ) == if in_box(
                a,
                b,
                c,
                cell_corner(position.x, dim, size),
                cell_corner(position.y, dim, size),
                cell_corner(position.z, dim, size),
                size as int,
            ) {
                voxel_entry(target_content)
            } else {
                old_t.old_brick_voxel(bp, spec_flat_projection(a, b, c, dim as int))
            } by {
                lemma_flat_projection_bound(a, b, c, dim as int);
                assert(voxel_entry(base[spec_flat_projection(a, b, c, dim as int)])
                    == old_t.old_brick_voxel(bp, spec_flat_projection(a, b, c, dim as int)));
            }
            assert forall|i: int| 0 <= i < old_t.bricks@.len() implies #[trigger] self.bricks@[i]
                == old_t.bricks@[i] by {}
            assert(count == self.bricks@.len());
            BrickTree::lemma_parted_update(old_t, *self, *position, size, target_content, filled);
        }
    }
}

} // verus!
