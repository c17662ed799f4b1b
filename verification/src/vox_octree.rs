use crate::brick_octree::{stored_parts, BrickOctree};
use crate::bricktree::lemma_pow2_product;
use crate::magicavoxel::{matrix_model, unit_rows, ModelPlacement, RotationMatrix};
use crate::spatial::{is_power_of_two, power_of_two, V3c};
use crate::types::{Albedo, BoxTreeEntry, OctreeError, VoxelData};
use vstd::laws_eq::obeys_concrete_eq;
use vstd::prelude::*;

verus! {

/// A voxel of a model: its position inside the model and the index of its color in the palette
#[derive(Debug, Clone, Copy, PartialEq, Eq)]
pub struct VoxVoxel {
    pub x: u8,
    pub y: u8,
    pub z: u8,
    pub i: u8,
}

/// A model of a MagicaVoxel file: the size of its box and its voxels
#[derive(Debug, Clone, PartialEq)]
pub struct VoxModel {
    pub size: V3c<u32>,
    pub voxels: Vec<VoxVoxel>,
}

/// The product of a matrix, given row by row, and a column vector
pub open spec fn rotated(m: Seq<Seq<int>>, v: (int, int, int)) -> (int, int, int) {
    (
        m[0][0] * v.0 + m[0][1] * v.1 + m[0][2] * v.2,
        m[1][0] * v.0 + m[1][1] * v.1 + m[1][2] * v.2,
        m[2][0] * v.0 + m[2][1] * v.1 + m[2][2] * v.2,
    )
}

/// Half of a number, rounded towards zero
pub open spec fn half(a: int) -> int {
    if a >= 0 {
        a / 2
    } else {
        -((-a) / 2)
    }
}

/// The component of the vector along the given axis
pub open spec fn axis(v: (int, int, int), a: int) -> int {
    if a == 0 {
        v.0
    } else if a == 1 {
        v.1
    } else {
        v.2
    }
}

/// The smaller of two numbers
pub open spec fn lesser(a: int, b: int) -> int {
    if a <= b {
        a
    } else {
        b
    }
}

/// The larger of two numbers
pub open spec fn greater(a: int, b: int) -> int {
    if a >= b {
        a
    } else {
        b
    }
}

/// The translation of a placement
pub open spec fn translation_of(p: ModelPlacement) -> (int, int, int) {
    (p.translation.x as int, p.translation.y as int, p.translation.z as int)
}

/// Half the box of the placed model, rotated as the placement rotates it
pub open spec fn placement_half(models: Seq<VoxModel>, p: ModelPlacement) -> (int, int, int) {
    let size = models[p.model_id as int].size;
    let r = rotated(matrix_model(p.rotation), (size.x as int, size.y as int, size.z as int));
    (half(r.0), half(r.1), half(r.2))
}

/// The least coordinate along the axis that the boxes of the placed models reach, measured
/// from their centres by half their rotated size; the largest `i32` for no placement
pub open spec fn lowest(models: Seq<VoxModel>, placements: Seq<ModelPlacement>, a: int) -> int
    decreases placements.len(),
{
    if placements.len() == 0 {
        i32::MAX as int
    } else {
        let p = placements.last();
        let c = axis(translation_of(p), a);
        let h = axis(placement_half(models, p), a);
        lesser(lowest(models, placements.drop_last(), a), lesser(c - h, c + h))
    }
}

/// The greatest coordinate along the axis that the boxes of the placed models reach; the least
/// `i32` for no placement
pub open spec fn highest(models: Seq<VoxModel>, placements: Seq<ModelPlacement>, a: int) -> int
    decreases placements.len(),
{
    if placements.len() == 0 {
        i32::MIN as int
    } else {
        let p = placements.last();
        let c = axis(translation_of(p), a);
        let h = axis(placement_half(models, p), a);
        greater(highest(models, placements.drop_last(), a), greater(c + h, c - h))
    }
}

/// The corner of the scene with the least coordinates
pub open spec fn scene_low(models: Seq<VoxModel>, placements: Seq<ModelPlacement>) -> (int, int, int) {
    (lowest(models, placements, 0), lowest(models, placements, 1), lowest(models, placements, 2))
}

/// The longest edge of the box the scene fills
pub open spec fn scene_extent(models: Seq<VoxModel>, placements: Seq<ModelPlacement>) -> int {
    greater(
        highest(models, placements, 0) - lowest(models, placements, 0),
        greater(
            highest(models, placements, 1) - lowest(models, placements, 1),
            highest(models, placements, 2) - lowest(models, placements, 2),
        ),
    )
}

/// The size of the tree for a scene of the given extent: the brick dimension multiplied by
/// four as often as needed to reach the extent
pub open spec fn fitting_size(extent: int, size: nat) -> nat
    decreases (if size < extent && size > 0 {
        extent - size
    } else {
        0
    }),
{
    if size < extent && size > 0 {
        fitting_size(extent, size * 4)
    } else {
        size
    }
}

/// Whether the placements can be measured: there is one at least, each refers to a model
/// that exists with a rotation that is one and moves it by at most 2^24 along each axis, and
/// every model is at most 256 voxels wide
pub open spec fn placeable(models: Seq<VoxModel>, placements: Seq<ModelPlacement>) -> bool {
    &&& placements.len() > 0
    &&& forall|j: int|
        0 <= j < placements.len() ==> {
            let p = #[trigger] placements[j];
            &&& p.model_id < models.len()
            &&& unit_rows(matrix_model(p.rotation))
            &&& -0x100_0000 <= p.translation.x <= 0x100_0000
            &&& -0x100_0000 <= p.translation.y <= 0x100_0000
            &&& -0x100_0000 <= p.translation.z <= 0x100_0000
        }
    &&& forall|m: int|
        0 <= m < models.len() ==> {
            let model = #[trigger] models[m];
            &&& model.size.x <= 256
            &&& model.size.y <= 256
            &&& model.size.z <= 256
        }
}

/// Whether the placements can be loaded: they can be measured, the palette holds at most 256
/// colors, and the voxels of every model refer to colors of the palette
pub open spec fn loadable(models: Seq<VoxModel>, palette: Seq<Albedo>, placements: Seq<ModelPlacement>) -> bool {
    &&& placeable(models, placements)
    &&& palette.len() <= 256
    &&& forall|m: int, k: int|
        0 <= m < models.len() && 0 <= k < models[m].voxels@.len() ==> (
        #[trigger] models[m].voxels@[k]).i < palette.len()
}

/// Rotates a vector by the matrix
fn rotate(m: &RotationMatrix, v: (i32, i32, i32)) -> (r: (i32, i32, i32))
    requires
        unit_rows(matrix_model(*m)),
        -0x1000_0000 <= v.0 <= 0x1000_0000,
        -0x1000_0000 <= v.1 <= 0x1000_0000,
        -0x1000_0000 <= v.2 <= 0x1000_0000,
    ensures
        (r.0 as int, r.1 as int, r.2 as int) == rotated(
            matrix_model(*m),
            (v.0 as int, v.1 as int, v.2 as int),
        ),
{
    let ghost mm = matrix_model(*m);
    assert(forall|r: int, c: int| 0 <= r < 3 && 0 <= c < 3 ==> mm[r][c] == m.rows[r][c] as int);
    assert(-1 <= mm[0][0] <= 1 && -1 <= mm[0][1] <= 1 && -1 <= mm[0][2] <= 1);
    assert(-1 <= mm[1][0] <= 1 && -1 <= mm[1][1] <= 1 && -1 <= mm[1][2] <= 1);
    assert(-1 <= mm[2][0] <= 1 && -1 <= mm[2][1] <= 1 && -1 <= mm[2][2] <= 1);
    let a = m.rows[0];
    let b = m.rows[1];
    let c = m.rows[2];
    proof {
        lemma_unit_times(a[0] as int, v.0 as int);
        lemma_unit_times(a[1] as int, v.1 as int);
        lemma_unit_times(a[2] as int, v.2 as int);
        lemma_unit_times(b[0] as int, v.0 as int);
        lemma_unit_times(b[1] as int, v.1 as int);
        lemma_unit_times(b[2] as int, v.2 as int);
        lemma_unit_times(c[0] as int, v.0 as int);
        lemma_unit_times(c[1] as int, v.1 as int);
        lemma_unit_times(c[2] as int, v.2 as int);
    }
    (
        (a[0] as i32) * v.0 + (a[1] as i32) * v.1 + (a[2] as i32) * v.2,
        (b[0] as i32) * v.0 + (b[1] as i32) * v.1 + (b[2] as i32) * v.2,
        (c[0] as i32) * v.0 + (c[1] as i32) * v.1 + (c[2] as i32) * v.2,
    )
}

/// A product with -1, 0 or 1 is at most as large as the other factor
proof fn lemma_unit_times(u: int, v: int)
    by (nonlinear_arith)
    requires
        -1 <= u <= 1,
    ensures
        u * v == v || u * v == -v || u * v == 0,
{
}

/// Half of a number, rounded towards zero
fn halved(a: i32) -> (h: i32)
    ensures
        h == half(a as int),
{
    a / 2
}


/// The correction of a voxel index along an axis the rotation turns around: one less where
/// half the rotated box is negative
pub open spec fn below_zero(h: int) -> int {
    if h < 0 {
        -1
    } else {
        0
    }
}

/// Where a voxel of a placed model lands in the tree: its position in the scene, measured from
/// the scene's lowest corner, with the y and z axes swapped, which turns the right-handed z-up
/// coordinates of the file into the left-handed y-up coordinates of the tree
pub open spec fn voxel_position(
    models: Seq<VoxModel>,
    p: ModelPlacement,
    v: VoxVoxel,
    low: (int, int, int),
) -> (int, int, int) {
    let h = placement_half(models, p);
    let r = rotated(matrix_model(p.rotation), (v.x as int, v.y as int, v.z as int));
    let t = translation_of(p);
    let x = t.0 - h.0 - low.0 + below_zero(h.0) + r.0;
    let y = t.1 - h.1 - low.1 + below_zero(h.1) + r.1;
    let z = t.2 - h.2 - low.2 + below_zero(h.2) + r.2;
    (x, z, y)
}

/// The voxels a placement puts into the tree, each with its position and its color
pub open spec fn model_voxels(
    models: Seq<VoxModel>,
    palette: Seq<Albedo>,
    p: ModelPlacement,
    low: (int, int, int),
) -> Seq<((int, int, int), Albedo)> {
    let vs = models[p.model_id as int].voxels@;
    Seq::new(vs.len(), |k: int| (voxel_position(models, p, vs[k], low), palette[vs[k].i as int]))
}

/// The voxels all placements put into the tree, in order
pub open spec fn scene_voxels(
    models: Seq<VoxModel>,
    palette: Seq<Albedo>,
    placements: Seq<ModelPlacement>,
    low: (int, int, int),
) -> Seq<((int, int, int), Albedo)>
    decreases placements.len(),
{
    if placements.len() == 0 {
        Seq::empty()
    } else {
        scene_voxels(models, palette, placements.drop_last(), low) + model_voxels(
            models,
            palette,
            placements.last(),
            low,
        )
    }
}

/// The position lies in the cube of the given size at the origin
pub open spec fn in_cube(p: (int, int, int), size: int) -> bool {
    0 <= p.0 < size && 0 <= p.1 < size && 0 <= p.2 < size
}

/// Every voxel lies in the cube of the given size at the origin
pub open spec fn all_in_cube(list: Seq<((int, int, int), Albedo)>, size: int) -> bool {
    forall|i: int| 0 <= i < list.len() ==> in_cube(#[trigger] list[i].0, size)
}

/// The tree after inserting the voxels in order: a later voxel replaces an earlier one at the
/// same position, and a transparent color is not stored
pub open spec fn scene_map<T>(list: Seq<((int, int, int), Albedo)>) -> Map<
    V3c<u32>,
    (Option<Albedo>, Option<T>),
>
    decreases list.len(),
{
    if list.len() == 0 {
        Map::empty()
    } else {
        let e = list.last();
        let rest = scene_map::<T>(list.drop_last());
        if e.1.a == 0 {
            rest
        } else {
            rest.insert(
                V3c { x: e.0.0 as u32, y: e.0.1 as u32, z: e.0.2 as u32 },
                (Some(e.1), None::<T>),
            )
        }
    }
}

/// The voxels of the first placements come first among those of all placements
proof fn lemma_scene_prefix(
    models: Seq<VoxModel>,
    palette: Seq<Albedo>,
    placements: Seq<ModelPlacement>,
    low: (int, int, int),
    j: int,
)
    requires
        0 <= j <= placements.len(),
    ensures
        scene_voxels(models, palette, placements.take(j), low).len() <= scene_voxels(
            models,
            palette,
            placements,
            low,
        ).len(),
        scene_voxels(models, palette, placements, low).subrange(
            0,
            scene_voxels(models, palette, placements.take(j), low).len() as int,
        ) == scene_voxels(models, palette, placements.take(j), low),
    decreases placements.len(),
{
    if j == placements.len() {
        assert(placements.take(j) =~= placements);
        assert(scene_voxels(models, palette, placements, low).subrange(
            0,
            scene_voxels(models, palette, placements, low).len() as int,
        ) =~= scene_voxels(models, palette, placements, low));
    } else {
        let rest = placements.drop_last();
        lemma_scene_prefix(models, palette, rest, low, j);
        assert(rest.take(j) =~= placements.take(j));
        let a = scene_voxels(models, palette, rest, low);
        let b = model_voxels(models, palette, placements.last(), low);
        let pre = scene_voxels(models, palette, placements.take(j), low);
        assert((a + b).subrange(0, pre.len() as int) =~= a.subrange(0, pre.len() as int));
    }
}

/// The voxels of one more placement follow those of the placements before it
proof fn lemma_scene_step(
    models: Seq<VoxModel>,
    palette: Seq<Albedo>,
    placements: Seq<ModelPlacement>,
    low: (int, int, int),
    j: int,
)
    requires
        0 <= j < placements.len(),
    ensures
        scene_voxels(models, palette, placements.take(j + 1), low) == scene_voxels(
            models,
            palette,
            placements.take(j),
            low,
        ) + model_voxels(models, palette, placements[j], low),
{
    assert(placements.take(j + 1).drop_last() =~= placements.take(j));
    assert(placements.take(j + 1).last() == placements[j]);
}

/// Inserting one more voxel puts it into the tree unless its color is transparent
proof fn lemma_scene_map_push<T>(list: Seq<((int, int, int), Albedo)>, e: ((int, int, int), Albedo))
    ensures
        scene_map::<T>(list.push(e)) == if e.1.a == 0 {
            scene_map::<T>(list)
        } else {
            scene_map::<T>(list).insert(
                V3c { x: e.0.0 as u32, y: e.0.1 as u32, z: e.0.2 as u32 },
                (Some(e.1), None::<T>),
            )
        },
{
    assert(list.push(e).drop_last() =~= list);
    assert(list.push(e).last() == e);
}


/// Half the box of the placed model, rotated as the placement rotates it
fn half_of_placement(models: &Vec<VoxModel>, p: &ModelPlacement) -> (h: (i32, i32, i32))
    requires
        p.model_id < models@.len(),
        unit_rows(matrix_model(p.rotation)),
        models@[p.model_id as int].size.x <= 256,
        models@[p.model_id as int].size.y <= 256,
        models@[p.model_id as int].size.z <= 256,
    ensures
        (h.0 as int, h.1 as int, h.2 as int) == placement_half(models@, *p),
        -384 <= h.0 <= 384,
        -384 <= h.1 <= 384,
        -384 <= h.2 <= 384,
{
    let size = models[p.model_id as usize].size;
    let r = rotate(&p.rotation, (size.x as i32, size.y as i32, size.z as i32));
    proof {
        let mm = matrix_model(p.rotation);
        assert(-1 <= mm[0][0] <= 1 && -1 <= mm[0][1] <= 1 && -1 <= mm[0][2] <= 1);
        assert(-1 <= mm[1][0] <= 1 && -1 <= mm[1][1] <= 1 && -1 <= mm[1][2] <= 1);
        assert(-1 <= mm[2][0] <= 1 && -1 <= mm[2][1] <= 1 && -1 <= mm[2][2] <= 1);
        lemma_unit_times(mm[0][0], size.x as int);
        lemma_unit_times(mm[0][1], size.y as int);
        lemma_unit_times(mm[0][2], size.z as int);
        lemma_unit_times(mm[1][0], size.x as int);
        lemma_unit_times(mm[1][1], size.y as int);
        lemma_unit_times(mm[1][2], size.z as int);
        lemma_unit_times(mm[2][0], size.x as int);
        lemma_unit_times(mm[2][1], size.y as int);
        lemma_unit_times(mm[2][2], size.z as int);
    }
    (halved(r.0), halved(r.1), halved(r.2))
}

/// The lowest and the highest corner of the box the placed models fill
fn scene_bounds(models: &Vec<VoxModel>, placements: &Vec<ModelPlacement>) -> (bounds: (
    (i32, i32, i32),
    (i32, i32, i32),
))
    requires
        placeable(models@, placements@),
    ensures
        bounds.0.0 == lowest(models@, placements@, 0),
        bounds.0.1 == lowest(models@, placements@, 1),
        bounds.0.2 == lowest(models@, placements@, 2),
        bounds.1.0 == highest(models@, placements@, 0),
        bounds.1.1 == highest(models@, placements@, 1),
        bounds.1.2 == highest(models@, placements@, 2),
        -0x100_0200 <= bounds.0.0 <= 0x100_0200,
        -0x100_0200 <= bounds.0.1 <= 0x100_0200,
        -0x100_0200 <= bounds.0.2 <= 0x100_0200,
        -0x100_0200 <= bounds.1.0 <= 0x100_0200,
        -0x100_0200 <= bounds.1.1 <= 0x100_0200,
        -0x100_0200 <= bounds.1.2 <= 0x100_0200,
{
    let mut lo: (i32, i32, i32) = (i32::MAX, i32::MAX, i32::MAX);
    let mut hi: (i32, i32, i32) = (i32::MIN, i32::MIN, i32::MIN);
    let mut j: usize = 0;
    while j < placements.len()
        invariant
            j <= placements@.len(),
            placeable(models@, placements@),
            lo.0 == lowest(models@, placements@.take(j as int), 0),
            lo.1 == lowest(models@, placements@.take(j as int), 1),
            lo.2 == lowest(models@, placements@.take(j as int), 2),
            hi.0 == highest(models@, placements@.take(j as int), 0),
            hi.1 == highest(models@, placements@.take(j as int), 1),
            hi.2 == highest(models@, placements@.take(j as int), 2),
            j > 0 ==> -0x100_0200 <= lo.0 <= 0x100_0200 && -0x100_0200 <= lo.1 <= 0x100_0200
                && -0x100_0200 <= lo.2 <= 0x100_0200,
            j > 0 ==> -0x100_0200 <= hi.0 <= 0x100_0200 && -0x100_0200 <= hi.1 <= 0x100_0200
                && -0x100_0200 <= hi.2 <= 0x100_0200,
        decreases placements@.len() - j,
    {
        let p = &placements[j];
        proof {
            let _ = placements@[j as int];
            let _ = models@[p.model_id as int];
        }
        let h = half_of_placement(models, p);
        let c = p.translation;
        let (a0, b0) = (c.x - h.0, c.x + h.0);
        let (a1, b1) = (c.y - h.1, c.y + h.1);
        let (a2, b2) = (c.z - h.2, c.z + h.2);
        let low0 = if a0 <= b0 { a0 } else { b0 };
        let low1 = if a1 <= b1 { a1 } else { b1 };
        let low2 = if a2 <= b2 { a2 } else { b2 };
        let high0 = if b0 >= a0 { b0 } else { a0 };
        let high1 = if b1 >= a1 { b1 } else { a1 };
        let high2 = if b2 >= a2 { b2 } else { a2 };
        lo = (
            if lo.0 <= low0 { lo.0 } else { low0 },
            if lo.1 <= low1 { lo.1 } else { low1 },
            if lo.2 <= low2 { lo.2 } else { low2 },
        );
        hi = (
            if hi.0 >= high0 { hi.0 } else { high0 },
            if hi.1 >= high1 { hi.1 } else { high1 },
            if hi.2 >= high2 { hi.2 } else { high2 },
        );
        proof {
            assert(placements@.take(j + 1).drop_last() =~= placements@.take(j as int));
            assert(placements@.take(j + 1).last() == placements@[j as int]);
        }
        j = j + 1;
    }
    proof {
        assert(placements@.take(j as int) =~= placements@);
    }
    (lo, hi)
}


/// The size of the tree for a scene of the given extent: the brick dimension multiplied by four
/// as often as needed to reach the extent
fn tree_size_for(extent: i32, brick_dimension: u32) -> (size: u32)
    requires
        is_power_of_two(brick_dimension as nat),
        brick_dimension <= 1024,
        extent <= 0x400_0000,
    ensures
        size == fitting_size(extent as int, brick_dimension as nat),
        size % brick_dimension == 0,
        is_power_of_two((size / brick_dimension) as nat),
{
    proof {
        crate::spatial::lemma_pow2_divides(1, brick_dimension as nat);
        reveal_with_fuel(is_power_of_two, 3);
    }
    let mut size = brick_dimension;
    let ghost mut q: nat = 1;
    while (size as i64) < (extent as i64)
        invariant
            brick_dimension >= 1,
            extent <= 0x400_0000,
            size as int == brick_dimension * q,
            q >= 1,
            size >= 1,
            is_power_of_two(q),
            is_power_of_two(4),
            size <= 0x1000_0000,
            fitting_size(extent as int, size as nat) == fitting_size(
                extent as int,
                brick_dimension as nat,
            ),
        decreases 0x1000_0000 - size,
    {
        proof {
            lemma_pow2_product(q, 4);
            assert(brick_dimension * (q * 4) == (brick_dimension * q) * 4) by (nonlinear_arith);
        }
        size = size * 4;
        proof {
            q = q * 4;
        }
    }
    proof {
        assert(size as int == q * brick_dimension) by (nonlinear_arith)
            requires
                size as int == brick_dimension * q,
        ;
        vstd::arithmetic::div_mod::lemma_fundamental_div_mod_converse(
            size as int,
            brick_dimension as int,
            q as int,
            0,
        );
    }
    size
}


/// The colors of a tree that all come from a palette of at most 256 colors are fewer than the
/// palette limit
proof fn lemma_colors_bounded<T: Copy + PartialEq + VoxelData>(tree: BrickOctree<T>, palette: Seq<Albedo>)
    requires
        tree.wf(),
        palette.len() <= 256,
        forall|i: int| 0 <= i < tree.colors().len() ==> palette.contains(#[trigger] tree.colors()[i]),
    ensures
        tree.colors().len() <= 256,
{
    tree.lemma_colors_distinct();
    let colors = tree.colors();
    colors.unique_seq_to_set();
    palette.lemma_cardinality_of_set();
    assert(colors.to_set().subset_of(palette.to_set())) by {
        assert forall|c: Albedo| colors.to_set().contains(c) implies palette.to_set().contains(c) by {
            let i = choose|i: int| 0 <= i < colors.len() && colors[i] == c;
            assert(palette.contains(colors[i]));
        }
    }
    vstd::seq_lib::seq_to_set_is_finite(palette);
    vstd::set_lib::lemma_len_subset(colors.to_set(), palette.to_set());
}

/// Builds a tree of the given brick dimension from the models a MagicaVoxel scene places: the
/// tree is the smallest that holds the box the placed models fill, with the brick dimension
/// multiplied by a power of four as its size, and each voxel of each placed model is inserted,
/// in order, with its color from the palette, at its position in the scene measured from the
/// scene's lowest corner, with the y and z axes swapped. Fails when the brick dimension is
/// not one, or when a voxel would land outside the tree.
pub fn octree_from_placements<T: Copy + PartialEq + VoxelData>(
    models: &Vec<VoxModel>,
    palette: &Vec<Albedo>,
    placements: &Vec<ModelPlacement>,
    brick_dimension: u32,
) -> (result: Result<BrickOctree<T>, OctreeError>)
    requires
        loadable(models@, palette@, placements@),
        obeys_concrete_eq::<T>(),
    ensures
        !is_power_of_two(brick_dimension as nat) || brick_dimension > 1024 ==> result == Err::<
            BrickOctree<T>,
            OctreeError,
        >(OctreeError::InvalidBrickDimension(brick_dimension)),
        is_power_of_two(brick_dimension as nat) && brick_dimension <= 1024 ==> (result is Ok
            <==> all_in_cube(
            scene_voxels(models@, palette@, placements@, scene_low(models@, placements@)),
            fitting_size(scene_extent(models@, placements@), brick_dimension as nat) as int,
        )),
        result matches Err(e) ==> e is InvalidBrickDimension || e is InvalidPosition,
        result matches Ok(tree) ==> {
            &&& tree.wf()
            &&& tree.spec_size() == fitting_size(
                scene_extent(models@, placements@),
                brick_dimension as nat,
            )
            &&& tree.spec_brick_dim() == brick_dimension
            &&& tree@ == scene_map::<T>(
                scene_voxels(models@, palette@, placements@, scene_low(models@, placements@)),
            )
        },
{
    if !power_of_two(brick_dimension) || brick_dimension > 1024 {
        return Err(OctreeError::InvalidBrickDimension(brick_dimension));
    }
    let (lo, hi) = scene_bounds(models, placements);
    let e0 = hi.0 - lo.0;
    let e1 = hi.1 - lo.1;
    let e2 = hi.2 - lo.2;
    let e12 = if e1 >= e2 { e1 } else { e2 };
    let extent = if e0 >= e12 { e0 } else { e12 };
    let size = tree_size_for(extent, brick_dimension);
    assert(extent == scene_extent(models@, placements@));
    let ghost low = (lo.0 as int, lo.1 as int, lo.2 as int);
    let ghost all = scene_voxels(models@, palette@, placements@, low);
    let mut tree = match BrickOctree::<T>::new(size, brick_dimension) {
        Ok(t) => t,
        Err(e) => {
            return Err(e);
        },
    };
    proof {
        assert(scene_voxels(models@, palette@, placements@.take(0), low) =~= Seq::empty());
    }
    let mut j: usize = 0;
    while j < placements.len()
        invariant
            j <= placements@.len(),
            loadable(models@, palette@, placements@),
            obeys_concrete_eq::<T>(),
            tree.wf(),
            tree.spec_size() == size,
            tree.spec_brick_dim() == brick_dimension,
            low == (lo.0 as int, lo.1 as int, lo.2 as int),
            low == scene_low(models@, placements@),
            is_power_of_two(brick_dimension as nat),
            brick_dimension <= 1024,
            size == fitting_size(scene_extent(models@, placements@), brick_dimension as nat),
            all == scene_voxels(models@, palette@, placements@, low),
            -0x100_0200 <= lo.0 <= 0x100_0200,
            -0x100_0200 <= lo.1 <= 0x100_0200,
            -0x100_0200 <= lo.2 <= 0x100_0200,
            tree@ == scene_map::<T>(scene_voxels(models@, palette@, placements@.take(j as int), low)),
            all_in_cube(scene_voxels(models@, palette@, placements@.take(j as int), low), size as int),
            forall|i: int| 0 <= i < tree.colors().len() ==> palette@.contains(#[trigger] tree.colors()[i]),
            tree.data().len() == 0,
        decreases placements@.len() - j,
    {
        let p = &placements[j];
        proof {
            let _ = placements@[j as int];
            let _ = models@[p.model_id as int];
        }
        let model = &models[p.model_id as usize];
        let h = half_of_placement(models, p);
        let c = p.translation;
        let b0 = c.x - h.0 - lo.0 + if h.0 < 0 { -1i32 } else { 0i32 };
        let b1 = c.y - h.1 - lo.1 + if h.1 < 0 { -1i32 } else { 0i32 };
        let b2 = c.z - h.2 - lo.2 + if h.2 < 0 { -1i32 } else { 0i32 };
        let ghost before = scene_voxels(models@, palette@, placements@.take(j as int), low);
        let ghost placed = model_voxels(models@, palette@, *p, low);
        let mut k: usize = 0;
        while k < model.voxels.len()
            invariant
                j < placements@.len(),
                *p == placements@[j as int],
                *model == models@[p.model_id as int],
                k <= model.voxels@.len(),
                loadable(models@, palette@, placements@),
                obeys_concrete_eq::<T>(),
                p.model_id < models@.len(),
                unit_rows(matrix_model(p.rotation)),
                tree.wf(),
                tree.spec_size() == size,
                tree.spec_brick_dim() == brick_dimension,
                low == (lo.0 as int, lo.1 as int, lo.2 as int),
                low == scene_low(models@, placements@),
                is_power_of_two(brick_dimension as nat),
                brick_dimension <= 1024,
                size == fitting_size(scene_extent(models@, placements@), brick_dimension as nat),
                all == scene_voxels(models@, palette@, placements@, low),
                before == scene_voxels(models@, palette@, placements@.take(j as int), low),
                placed == model_voxels(models@, palette@, *p, low),
                (h.0 as int, h.1 as int, h.2 as int) == placement_half(models@, *p),
                b0 == p.translation.x - h.0 - lo.0 + below_zero(h.0 as int),
                b1 == p.translation.y - h.1 - lo.1 + below_zero(h.1 as int),
                b2 == p.translation.z - h.2 - lo.2 + below_zero(h.2 as int),
                -0x300_0000 <= b0 <= 0x300_0000,
                -0x300_0000 <= b1 <= 0x300_0000,
                -0x300_0000 <= b2 <= 0x300_0000,
                tree@ == scene_map::<T>(before + placed.take(k as int)),
                all_in_cube(before + placed.take(k as int), size as int),
                forall|i: int| 0 <= i < tree.colors().len() ==> palette@.contains(#[trigger] tree.colors()[i]),
                tree.data().len() == 0,
            decreases model.voxels@.len() - k,
        {
            let v = model.voxels[k];
            let r = rotate(&p.rotation, (v.x as i32, v.y as i32, v.z as i32));
            proof {
                let mm = matrix_model(p.rotation);
                assert(-1 <= mm[0][0] <= 1 && -1 <= mm[0][1] <= 1 && -1 <= mm[0][2] <= 1);
                assert(-1 <= mm[1][0] <= 1 && -1 <= mm[1][1] <= 1 && -1 <= mm[1][2] <= 1);
                assert(-1 <= mm[2][0] <= 1 && -1 <= mm[2][1] <= 1 && -1 <= mm[2][2] <= 1);
                lemma_unit_times(mm[0][0], v.x as int);
                lemma_unit_times(mm[0][1], v.y as int);
                lemma_unit_times(mm[0][2], v.z as int);
                lemma_unit_times(mm[1][0], v.x as int);
                lemma_unit_times(mm[1][1], v.y as int);
                lemma_unit_times(mm[1][2], v.z as int);
                lemma_unit_times(mm[2][0], v.x as int);
                lemma_unit_times(mm[2][1], v.y as int);
                lemma_unit_times(mm[2][2], v.z as int);
            }
            let x = b0 + r.0;
            let y = b2 + r.2;
            let z = b1 + r.1;
            let ghost entry = placed[k as int];
            proof {
                assert(model.voxels@[k as int] == v);
                assert(entry.0 == (x as int, y as int, z as int));
                assert((before + placed.take(k as int)).push(entry) =~= before + placed.take(
                    k + 1,
                ));
            }
            if x < 0 || y < 0 || z < 0 || x as u32 >= size || y as u32 >= size || z as u32 >= size {
                proof {
                    lemma_scene_step(models@, palette@, placements@, low, j as int);
                    lemma_scene_prefix(models@, palette@, placements@, low, j + 1);
                    let n = before.len() + k;
                    let next = scene_voxels(models@, palette@, placements@.take(j + 1), low);
                    assert(next[n] == entry);
                    assert(all[n] == next[n]);
                    assert(!in_cube(all[n].0, size as int));
                }
                return Err(OctreeError::InvalidPosition { x: x as u32, y: y as u32, z: z as u32 });
            }
            let color = palette[v.i as usize];
            proof {
                assert(color == entry.1);
                lemma_colors_bounded(tree, palette@);
            }
            let ghost old_tree = tree;
            let position = V3c::new(x as u32, y as u32, z as u32);
            let inserted = tree.insert(&position, &BoxTreeEntry::Visual(&color));
            proof {
                lemma_scene_map_push::<T>(before + placed.take(k as int), entry);
                if color.a != 0 {
                    assert(stored_parts(BoxTreeEntry::<T>::Visual(&color)) == (
                        Some(color),
                        None::<T>,
                    ));
                }
                assert forall|i: int| 0 <= i < tree.colors().len() implies palette@.contains(
                    #[trigger] tree.colors()[i],
                ) by {
                    if i < old_tree.colors().len() {
                        assert(tree.colors()[i] == old_tree.colors()[i]);
                    } else {
                        assert(palette@[v.i as int] == color);
                    }
                }
                assert forall|i: int| 0 <= i < (before + placed.take(k + 1)).len() implies in_cube(
                    #[trigger] (before + placed.take(k + 1))[i].0,
                    size as int,
                ) by {
                    if i < (before + placed.take(k as int)).len() {
                        assert((before + placed.take(k + 1))[i] == (before + placed.take(
                            k as int,
                        ))[i]);
                    }
                }
            }
            k = k + 1;
        }
        proof {
            assert(placed.take(k as int) =~= placed);
            lemma_scene_step(models@, palette@, placements@, low, j as int);
        }
        j = j + 1;
    }
    proof {
        assert(placements@.take(j as int) =~= placements@);
    }
    Ok(tree)
}

} // verus!
