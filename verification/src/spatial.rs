use vstd::prelude::*;

verus! {

/// A 3 dimensional vector
#[derive(Debug, Clone, Copy, PartialEq, Eq, Structural)]
pub struct V3c<T> {
    pub x: T,
    pub y: T,
    pub z: T,
}

impl<T> V3c<T> {
    /// The vector of the given coordinates
    pub fn new(x: T, y: T, z: T) -> (v: Self)
        ensures
            v.x == x,
            v.y == y,
            v.z == z,
    {
        V3c { x, y, z }
    }
}

/// An axis aligned cube, given by its corner with the lowest coordinates and its edge length
#[derive(Debug, Clone, Copy, PartialEq, Eq, Structural)]
pub struct Cube {
    pub min_position: V3c<u32>,
    pub size: u32,
}

/// Tells if the given number is a power of two
pub open spec fn is_power_of_two(n: nat) -> bool
    decreases n,
{
    if n == 1 {
        true
    } else if n >= 2 && n % 2 == 0 {
        is_power_of_two(n / 2)
    } else {
        false
    }
}

/// Tells if the given number is a power of two
pub fn power_of_two(n: u32) -> (is_pow2: bool)
    ensures
        is_pow2 == is_power_of_two(n as nat),
{
    let mut s = n;
    while s > 1 && s % 2 == 0
        invariant
            is_power_of_two(s as nat) == is_power_of_two(n as nat),
        decreases s,
    {
        s = s / 2;
    }
    s == 1
}

/// Tells if the position is inside the cube; the cube contains its lower faces, but not its upper ones
pub open spec fn cube_contains(c: Cube, p: V3c<u32>) -> bool {
    &&& c.min_position.x <= p.x < c.min_position.x + c.size
    &&& c.min_position.y <= p.y < c.min_position.y + c.size
    &&& c.min_position.z <= p.z < c.min_position.z + c.size
}

/// Tells if the cube `inner` lies inside the cube `outer`
pub open spec fn cube_within(inner: Cube, outer: Cube) -> bool {
    &&& outer.min_position.x <= inner.min_position.x
    &&& inner.min_position.x + inner.size <= outer.min_position.x + outer.size
    &&& outer.min_position.y <= inner.min_position.y
    &&& inner.min_position.y + inner.size <= outer.min_position.y + outer.size
    &&& outer.min_position.z <= inner.min_position.z
    &&& inner.min_position.z + inner.size <= outer.min_position.z + outer.size
}

/// Offset of the octant along the x axis (0 or 1); octants are numbered as `x + 2 * z + 4 * y`
pub open spec fn octant_x(octant: int) -> int {
    octant % 2
}

/// Offset of the octant along the z axis (0 or 1)
pub open spec fn octant_z(octant: int) -> int {
    (octant / 2) % 2
}

/// Offset of the octant along the y axis (0 or 1)
pub open spec fn octant_y(octant: int) -> int {
    (octant / 4) % 2
}

/// The cube covering the given octant of the given cube
pub open spec fn spec_child_bounds(c: Cube, octant: int) -> Cube {
    let half = c.size / 2;
    Cube {
        min_position: V3c {
            x: (c.min_position.x + if octant_x(octant) == 1 { half } else { 0 }) as u32,
            y: (c.min_position.y + if octant_y(octant) == 1 { half } else { 0 }) as u32,
            z: (c.min_position.z + if octant_z(octant) == 1 { half } else { 0 }) as u32,
        },
        size: half as u32,
    }
}

/// The octant of the cube which contains the given position
pub open spec fn spec_octant_for(c: Cube, p: V3c<u32>) -> int {
    let half = c.size / 2;
    (if p.x >= c.min_position.x + half { 1int } else { 0int }) + (if p.z >= c.min_position.z
        + half {
        2int
    } else {
        0int
    }) + (if p.y >= c.min_position.y + half {
        4int
    } else {
        0int
    })
}

/// A cube which can be divided into octants: its size is even and at least two
pub open spec fn cube_divisible(c: Cube) -> bool {
    &&& c.size >= 2
    &&& c.size % 2 == 0
}

/// A cube that stays within the range of the coordinates
pub open spec fn cube_in_range(c: Cube) -> bool {
    &&& c.min_position.x + c.size <= u32::MAX + 1
    &&& c.min_position.y + c.size <= u32::MAX + 1
    &&& c.min_position.z + c.size <= u32::MAX + 1
}

/// The bounds of a tree of the given size
pub fn root_bounds(size: u32) -> (c: Cube)
    ensures
        c.min_position.x == 0,
        c.min_position.y == 0,
        c.min_position.z == 0,
        c.size == size,
        cube_in_range(c),
{
    Cube { min_position: V3c { x: 0, y: 0, z: 0 }, size }
}

/// Returns whether the given bound contains the given position.
pub fn bound_contains(bounds: &Cube, position: &V3c<u32>) -> (contains: bool)
    ensures
        contains == cube_contains(*bounds, *position),
{
    position.x >= bounds.min_position.x && position.x - bounds.min_position.x < bounds.size
        && position.y >= bounds.min_position.y && position.y - bounds.min_position.y
        < bounds.size && position.z >= bounds.min_position.z && position.z
        - bounds.min_position.z < bounds.size
}

/// The relative position of the given octant inside its parent, every coordinate being 0 or 1
pub fn offset_region(octant: usize) -> (offset: V3c<u32>)
    requires
        octant < 8,
    ensures
        offset.x == octant_x(octant as int),
        offset.y == octant_y(octant as int),
        offset.z == octant_z(octant as int),
{
    V3c { x: (octant % 2) as u32, y: ((octant / 4) % 2) as u32, z: ((octant / 2) % 2) as u32 }
}

/// Returns with the octant value(i.e. index) of the child for the given position
pub fn child_octant_for(bounds: &Cube, position: &V3c<u32>) -> (octant: usize)
    requires
        cube_contains(*bounds, *position),
    ensures
        octant < 8,
        octant == spec_octant_for(*bounds, *position),
{
    let half = bounds.size / 2;
    let x: usize = if position.x - bounds.min_position.x >= half { 1 } else { 0 };
    let z: usize = if position.z - bounds.min_position.z >= half { 2 } else { 0 };
    let y: usize = if position.y - bounds.min_position.y >= half { 4 } else { 0 };
    x + z + y
}

/// The bounds of the child of the given cube at the given octant
pub fn child_bounds_for(bounds: &Cube, octant: usize) -> (child: Cube)
    requires
        octant < 8,
        cube_in_range(*bounds),
    ensures
        child == spec_child_bounds(*bounds, octant as int),
        cube_in_range(child),
{
    let half = bounds.size / 2;
    let offset = offset_region(octant);
    Cube {
        min_position: V3c {
            x: bounds.min_position.x + if offset.x == 1 { half } else { 0 },
            y: bounds.min_position.y + if offset.y == 1 { half } else { 0 },
            z: bounds.min_position.z + if offset.z == 1 { half } else { 0 },
        },
        size: half,
    }
}

/// The child cube selected by the octant of a position contains that position
pub proof fn lemma_octant_contains(c: Cube, p: V3c<u32>)
    requires
        cube_contains(c, p),
        cube_divisible(c),
    ensures
        0 <= spec_octant_for(c, p) < 8,
        cube_contains(spec_child_bounds(c, spec_octant_for(c, p)), p),
        cube_within(spec_child_bounds(c, spec_octant_for(c, p)), c),
{
}

/// A position is contained in exactly one of the children cubes
pub proof fn lemma_octant_unique(c: Cube, p: V3c<u32>, o: int)
    requires
        cube_contains(c, p),
        cube_divisible(c),
        cube_in_range(c),
        0 <= o < 8,
        cube_contains(spec_child_bounds(c, o), p),
    ensures
        o == spec_octant_for(c, p),
{
}

/// Every child cube lies within its parent
pub proof fn lemma_child_within(c: Cube, o: int)
    requires
        cube_divisible(c),
        cube_in_range(c),
        0 <= o < 8,
    ensures
        cube_within(spec_child_bounds(c, o), c),
        spec_child_bounds(c, o).size * 2 == c.size,
        cube_in_range(spec_child_bounds(c, o)),
{
}

/// Flattens a 3 dimensional index into a matrix of the given size
pub open spec fn spec_flat_projection(x: int, y: int, z: int, size: int) -> int {
    x + (y * size) + (z * size * size)
}

/// Flattens a 3 dimensional index into a matrix of the given size
pub fn flat_projection(x: usize, y: usize, z: usize, size: usize) -> (index: usize)
    requires
        x < size,
        y < size,
        z < size,
        size * size * size <= usize::MAX,
    ensures
        index == spec_flat_projection(x as int, y as int, z as int, size as int),
        index < size * size * size,
{
    proof {
        lemma_flat_projection_bound(x as int, y as int, z as int, size as int);
        assert(z * size <= z * size * size) by (nonlinear_arith)
            requires
                0 <= z,
                1 <= size,
        ;
    }
    x + (y * size) + (z * size * size)
}

/// Different positions inside a matrix have different flat indices: the index gives back the
/// position, `x` as its remainder by the size, `y` and `z` as the digits above it
pub proof fn lemma_flat_projection_injective(
    x: int,
    y: int,
    z: int,
    x2: int,
    y2: int,
    z2: int,
    size: int,
)
    requires
        0 <= x < size,
        0 <= y < size,
        0 <= z < size,
        0 <= x2 < size,
        0 <= y2 < size,
        0 <= z2 < size,
        spec_flat_projection(x, y, z, size) == spec_flat_projection(x2, y2, z2, size),
    ensures
        x == x2,
        y == y2,
        z == z2,
{
    let index = spec_flat_projection(x, y, z, size);
    assert(index == (y + z * size) * size + x) by (nonlinear_arith)
        requires
            index == x + (y * size) + (z * size * size),
    ;
    assert(index == (y2 + z2 * size) * size + x2) by (nonlinear_arith)
        requires
            index == x2 + (y2 * size) + (z2 * size * size),
    ;
    vstd::arithmetic::div_mod::lemma_fundamental_div_mod_converse(index, size, y + z * size, x);
    vstd::arithmetic::div_mod::lemma_fundamental_div_mod_converse(index, size, y2 + z2 * size, x2);
    let high = y + z * size;
    vstd::arithmetic::div_mod::lemma_fundamental_div_mod_converse(high, size, z, y);
    vstd::arithmetic::div_mod::lemma_fundamental_div_mod_converse(high, size, z2, y2);
}

/// The flat index of a position inside a matrix of the given size is below the number of its
/// elements
pub proof fn lemma_flat_projection_bound(x: int, y: int, z: int, size: int)
    requires
        0 <= x < size,
        0 <= y < size,
        0 <= z < size,
    ensures
        0 <= spec_flat_projection(x, y, z, size) < size * size * size,
        y * size <= (size - 1) * size,
        z * size * size <= (size - 1) * size * size,
{
    assert(y * size <= (size - 1) * size) by (nonlinear_arith)
        requires
            0 <= y < size,
    ;
    assert(z * size * size <= (size - 1) * size * size) by (nonlinear_arith)
        requires
            0 <= z < size,
    ;
    assert(0 <= y * size && 0 <= z * size * size) by (nonlinear_arith)
        requires
            0 <= y,
            0 <= z,
            0 <= size,
    ;
    assert((size - 1) + (size - 1) * size + (size - 1) * size * size == size * size * size - 1)
        by (nonlinear_arith);
}

/// The corner of the cube lies on the grid given by the size of the cube
pub open spec fn cube_aligned(c: Cube) -> bool {
    &&& c.size > 0
    &&& c.min_position.x % c.size == 0
    &&& c.min_position.y % c.size == 0
    &&& c.min_position.z % c.size == 0
}

/// Tells if the two positions are in the same cell of a grid with the given cell size
pub open spec fn same_cell(p: V3c<u32>, q: V3c<u32>, size: nat) -> bool {
    &&& p.x as nat / size == q.x as nat / size
    &&& p.y as nat / size == q.y as nat / size
    &&& p.z as nat / size == q.z as nat / size
}

/// An interval starting on a multiple of `s`, of length `s`, holds exactly the numbers
/// which give the same quotient as its start when divided by `s`
pub proof fn lemma_aligned_interval(m: nat, s: nat, q: nat)
    requires
        s > 0,
        m % s == 0,
    ensures
        (m <= q < m + s) <==> (q / s == m / s),
{
    vstd::arithmetic::div_mod::lemma_fundamental_div_mod(m as int, s as int);
    vstd::arithmetic::div_mod::lemma_fundamental_div_mod(q as int, s as int);
    vstd::arithmetic::div_mod::lemma_mod_pos_bound(q as int, s as int);
    let k = m / s;
    assert(m == s * k);
    assert(k * s == s * k) by (nonlinear_arith);
    if m <= q < m + s {
        vstd::arithmetic::div_mod::lemma_fundamental_div_mod_converse(
            q as int,
            s as int,
            k as int,
            q - m,
        );
    }
    if q / s == m / s {
        assert(q == s * k + q % s);
        assert(m == s * k);
    }
}

/// An aligned cube holds exactly the positions of one grid cell
pub proof fn lemma_aligned_cube_cell(c: Cube, q: V3c<u32>)
    requires
        cube_aligned(c),
    ensures
        cube_contains(c, q) <==> same_cell(c.min_position, q, c.size as nat),
{
    lemma_aligned_interval(c.min_position.x as nat, c.size as nat, q.x as nat);
    lemma_aligned_interval(c.min_position.y as nat, c.size as nat, q.y as nat);
    lemma_aligned_interval(c.min_position.z as nat, c.size as nat, q.z as nat);
}

/// Offsetting a multiple of `2 * h` by zero or `h` gives a multiple of `h`
pub proof fn lemma_half_aligned(m: nat, h: nat, b: nat)
    requires
        h > 0,
        m % (2 * h) == 0,
        b <= 1,
    ensures
        (m + b * h) % h == 0,
{
    vstd::arithmetic::div_mod::lemma_fundamental_div_mod(m as int, 2 * h as int);
    let k = m / (2 * h);
    assert(m == (2 * h) * k);
    assert(m + b * h == (2 * k + b) * h) by (nonlinear_arith)
        requires
            m == (2 * h) * k,
    ;
    vstd::arithmetic::div_mod::lemma_mod_multiples_basic((2 * k + b) as int, h as int);
}

/// The children of an aligned cube are aligned
pub proof fn lemma_child_aligned(c: Cube, o: int)
    requires
        cube_aligned(c),
        cube_divisible(c),
        cube_in_range(c),
        0 <= o < 8,
    ensures
        cube_aligned(spec_child_bounds(c, o)),
{
    let h = (c.size / 2) as nat;
    assert(c.size == 2 * h);
    let ch = spec_child_bounds(c, o);
    assert(ch.size == h);
    assert(ch.min_position.x == c.min_position.x + octant_x(o) * h);
    assert(ch.min_position.y == c.min_position.y + octant_y(o) * h);
    assert(ch.min_position.z == c.min_position.z + octant_z(o) * h);
    lemma_half_aligned(c.min_position.x as nat, h, octant_x(o) as nat);
    lemma_half_aligned(c.min_position.y as nat, h, octant_y(o) as nat);
    lemma_half_aligned(c.min_position.z as nat, h, octant_z(o) as nat);
}

/// Half of a power of two which is at least 2 is a power of two
pub proof fn lemma_pow2_half(n: nat)
    requires
        is_power_of_two(n),
        n >= 2,
    ensures
        is_power_of_two(n / 2),
        n % 2 == 0,
{
}

/// A smaller power of two divides a larger one
pub proof fn lemma_pow2_divides(small: nat, big: nat)
    requires
        is_power_of_two(small),
        is_power_of_two(big),
        small <= big,
    ensures
        big % small == 0,
        small > 0,
    decreases big,
{
    if small == big {
        vstd::arithmetic::div_mod::lemma_mod_self_0(big as int);
    } else if small == 1 {
        assert(big % 1 == 0);
    } else {
        lemma_pow2_divides(small / 2, big / 2);
        let k = (big / 2) / (small / 2);
        vstd::arithmetic::div_mod::lemma_fundamental_div_mod((big / 2) as int, (small / 2) as int);
        assert(big == small * k) by (nonlinear_arith)
            requires
                big == 2 * (big / 2),
                small == 2 * (small / 2),
                (big / 2) as int == (small / 2) as int * k + 0,
        ;
        vstd::arithmetic::div_mod::lemma_mod_multiples_basic(k as int, small as int);
        assert(small * k == k * small) by (nonlinear_arith);
    }
}

/// Positions in the same cell of a fine grid are in the same cell of any coarser grid
pub proof fn lemma_cell_coarser(p: V3c<u32>, q: V3c<u32>, small: nat, big: nat)
    requires
        is_power_of_two(small),
        is_power_of_two(big),
        small <= big,
        same_cell(p, q, small),
    ensures
        same_cell(p, q, big),
{
    lemma_pow2_divides(small, big);
    let k = big / small;
    vstd::arithmetic::div_mod::lemma_fundamental_div_mod(big as int, small as int);
    assert(big == small * k);
    assert(k > 0) by (nonlinear_arith)
        requires
            big == small * k,
            big > 0,
            small > 0,
    ;
    vstd::arithmetic::div_mod::lemma_div_denominator(p.x as int, small as int, k as int);
    vstd::arithmetic::div_mod::lemma_div_denominator(q.x as int, small as int, k as int);
    vstd::arithmetic::div_mod::lemma_div_denominator(p.y as int, small as int, k as int);
    vstd::arithmetic::div_mod::lemma_div_denominator(q.y as int, small as int, k as int);
    vstd::arithmetic::div_mod::lemma_div_denominator(p.z as int, small as int, k as int);
    vstd::arithmetic::div_mod::lemma_div_denominator(q.z as int, small as int, k as int);
}

/// Cells of size 1 hold exactly one position
pub proof fn lemma_unit_cell(p: V3c<u32>, q: V3c<u32>)
    ensures
        same_cell(p, q, 1) <==> p == q,
{
}

/// Being within a cube is transitive
pub proof fn lemma_within_transitive(a: Cube, b: Cube, c: Cube)
    requires
        cube_within(a, b),
        cube_within(b, c),
    ensures
        cube_within(a, c),
{
}

} // verus!
