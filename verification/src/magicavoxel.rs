use crate::spatial::V3c;
use vstd::prelude::*;

verus! {

/// A rotation by multiples of 90 degrees: a 3x3 matrix, given row by row, whose rows each hold
/// a single 1 or -1
#[derive(Debug, Clone, Copy, PartialEq, Eq)]
pub struct RotationMatrix {
    pub rows: [[i8; 3]; 3],
}

/// The column of the non-zero entry of the given row, as the packed rotation byte stores it:
/// the lowest two bits for the first row, the next two for the second, and the column left by
/// those two for the third
pub open spec fn row_index(b: u8, row: int) -> int {
    if row == 0 {
        (b % 4) as int
    } else if row == 1 {
        ((b / 4) % 4) as int
    } else {
        3 - (b % 4) - ((b / 4) % 4)
    }
}

/// The sign of the non-zero entry of the given row: bit 4, 5 or 6 of the packed byte is set
/// for a negative entry
pub open spec fn row_sign(b: u8, row: int) -> int {
    let bit = if row == 0 {
        (b / 16) % 2
    } else if row == 1 {
        (b / 32) % 2
    } else {
        (b / 64) % 2
    };
    if bit == 0 {
        1
    } else {
        -1
    }
}

/// Whether the byte describes a rotation: the first two rows have their entries in different
/// columns, both below 3
pub open spec fn is_rotation_byte(b: u8) -> bool {
    row_index(b, 0) < 3 && row_index(b, 1) < 3 && row_index(b, 0) != row_index(b, 1)
}

/// The entry of the rotation matrix the packed byte describes
pub open spec fn rotation_entry(b: u8, row: int, column: int) -> int {
    if column == row_index(b, row) {
        row_sign(b, row)
    } else {
        0
    }
}

/// Converts the given byte value to a rotation matrix
/// Rotation matrix in voxel context enables 90 degr rotations only, so the contents of the matrix
/// is restricted to 0,1,-1
pub fn parse_rotation_matrix(b: u8) -> (matrix: RotationMatrix)
    requires
        is_rotation_byte(b),
    ensures
        forall|row: int, column: int|
            0 <= row < 3 && 0 <= column < 3 ==> #[trigger] matrix.rows[row][column]
                == rotation_entry(b, row, column),
        matrix_model(matrix) == rotation_model(b),
{
    let index_in_first_row = b & 0x3;
    let index_in_second_row = ((b & (0x3 << 2)) >> 2) & 0x3;
    let index_in_third_row = !(index_in_first_row ^ index_in_second_row) & 0x3;
    assert(index_in_first_row == b % 4) by (bit_vector)
        requires
            index_in_first_row == b & 0x3,
    ;
    assert(index_in_second_row == (b / 4) % 4) by (bit_vector)
        requires
            index_in_second_row == ((b & (0x3u8 << 2u8)) >> 2u8) & 0x3u8,
    ;
    assert(index_in_third_row == 3 - index_in_first_row - index_in_second_row) by (bit_vector)
        requires
            index_in_first_row < 3,
            index_in_second_row < 3,
            index_in_first_row != index_in_second_row,
            index_in_third_row == !(index_in_first_row ^ index_in_second_row) & 0x3,
    ;
    assert((b & 0x10 == 0) == ((b / 16) % 2 == 0)) by (bit_vector);
    assert((b & 0x20 == 0) == ((b / 32) % 2 == 0)) by (bit_vector);
    assert((b & 0x40 == 0) == ((b / 64) % 2 == 0)) by (bit_vector);
    let sign_first_row: i8 = if 0 == (b & 0x10) { 1 } else { -1 };
    let sign_second_row: i8 = if 0 == (b & 0x20) { 1 } else { -1 };
    let sign_third_row: i8 = if 0 == (b & 0x40) { 1 } else { -1 };

    let mut rows = [[0i8;3];3];
    rows[0][index_in_first_row as usize] = sign_first_row;
    rows[1][index_in_second_row as usize] = sign_second_row;
    rows[2][index_in_third_row as usize] = sign_third_row;
    let matrix = RotationMatrix { rows };
    assert forall|row: int, column: int| 0 <= row < 3 && 0 <= column < 3 implies #[trigger] matrix.rows[row][column]
        == rotation_entry(b, row, column) by {
        assert(matrix.rows[row] == rows@[row]);
    }
    assert(matrix_model(matrix) =~= rotation_model(b)) by {
        assert forall|r: int| 0 <= r < 3 implies #[trigger] matrix_model(matrix)[r] =~= rotation_model(
            b,
        )[r] by {}
    }
    matrix
}

impl RotationMatrix {
    /// The identity rotation
    pub fn identity() -> (matrix: Self)
        ensures
            forall|row: int, column: int|
                0 <= row < 3 && 0 <= column < 3 ==> #[trigger] matrix.rows[row][column] == if row
                    == column {
                    1int
                } else {
                    0
                },
            matrix_model(matrix) == identity_model(),
    {
        let matrix = RotationMatrix { rows: [[1, 0, 0], [0, 1, 0], [0, 0, 1]] };
        assert forall|row: int, column: int| 0 <= row < 3 && 0 <= column < 3 implies #[trigger] matrix.rows[row][column]
            == if row == column {
            1int
        } else {
            0
        } by {}
        assert(matrix_model(matrix) =~= identity_model()) by {
            assert forall|r: int| 0 <= r < 3 implies #[trigger] matrix_model(matrix)[r] =~= identity_model()[r] by {}
        }
        matrix
    }
}

/// The entries of a rotation matrix, row by row
pub open spec fn matrix_model(m: RotationMatrix) -> Seq<Seq<int>> {
    Seq::new(3, |row: int| Seq::new(3, |column: int| m.rows[row][column] as int))
}

/// The identity matrix, row by row
pub open spec fn identity_model() -> Seq<Seq<int>> {
    Seq::new(3, |row: int| Seq::new(3, |column: int| if row == column { 1int } else { 0int }))
}

/// The matrix the packed rotation byte describes, row by row
pub open spec fn rotation_model(b: u8) -> Seq<Seq<int>> {
    Seq::new(3, |row: int| Seq::new(3, |column: int| rotation_entry(b, row, column)))
}

/// The product of two 3x3 matrices
pub open spec fn mat_mul(a: Seq<Seq<int>>, b: Seq<Seq<int>>) -> Seq<Seq<int>> {
    Seq::new(
        3,
        |row: int|
            Seq::new(
                3,
                |column: int|
                    a[row][0] * b[0][column] + a[row][1] * b[1][column] + a[row][2] * b[2][column],
            ),
    )
}

/// Every entry is -1, 0 or 1, and every row holds at most one entry that is not 0
pub open spec fn unit_rows(m: Seq<Seq<int>>) -> bool {
    &&& forall|row: int, column: int|
        0 <= row < 3 && 0 <= column < 3 ==> -1 <= #[trigger] m[row][column] <= 1
    &&& forall|row: int, c1: int, c2: int|
        0 <= row < 3 && 0 <= c1 < 3 && 0 <= c2 < 3 && c1 != c2 ==> #[trigger] m[row][c1] == 0
            || #[trigger] m[row][c2] == 0
}

/// Products of entries that are -1, 0 or 1 are -1, 0 or 1
proof fn lemma_unit_product(a: int, b: int)
    requires
        -1 <= a <= 1,
        -1 <= b <= 1,
    ensures
        -1 <= a * b <= 1,
        a == 0 || b == 0 ==> a * b == 0,
{
    assert(-1 <= a * b <= 1) by (nonlinear_arith)
        requires
            -1 <= a <= 1,
            -1 <= b <= 1,
    ;
}

/// The product of matrices whose rows hold at most one unit entry has rows of the same kind
proof fn lemma_mul_unit_rows(a: Seq<Seq<int>>, b: Seq<Seq<int>>)
    requires
        unit_rows(a),
        unit_rows(b),
    ensures
        unit_rows(mat_mul(a, b)),
{
    let p = mat_mul(a, b);
    assert forall|row: int, column: int| 0 <= row < 3 && 0 <= column < 3 implies -1 <= #[trigger] p[row][column]
        <= 1 && (forall|j: int| 0 <= j < 3 && a[row][j] != 0 ==> p[row][column] == a[row][j] * b[j][column])
        && ((forall|j: int| 0 <= j < 3 ==> a[row][j] == 0) ==> p[row][column] == 0) by {
        let _ = a[row][0];
        let _ = a[row][1];
        let _ = a[row][2];
        let _ = b[0][column];
        let _ = b[1][column];
        let _ = b[2][column];
        lemma_unit_product(a[row][0], b[0][column]);
        lemma_unit_product(a[row][1], b[1][column]);
        lemma_unit_product(a[row][2], b[2][column]);
    }
    assert forall|row: int, c1: int, c2: int|
        0 <= row < 3 && 0 <= c1 < 3 && 0 <= c2 < 3 && c1 != c2 implies #[trigger] p[row][c1] == 0
        || #[trigger] p[row][c2] == 0 by {
        if a[row][0] != 0 {
            let _ = b[0][c1];
            let _ = b[0][c2];
            lemma_unit_product(a[row][0], b[0][c1]);
            lemma_unit_product(a[row][0], b[0][c2]);
        } else if a[row][1] != 0 {
            let _ = b[1][c1];
            let _ = b[1][c2];
            lemma_unit_product(a[row][1], b[1][c1]);
            lemma_unit_product(a[row][1], b[1][c2]);
        } else if a[row][2] != 0 {
            let _ = b[2][c1];
            let _ = b[2][c2];
            lemma_unit_product(a[row][2], b[2][c1]);
            lemma_unit_product(a[row][2], b[2][c2]);
        }
    }
}

impl RotationMatrix {
    /// The product of the two matrices
    pub fn multiplied(&self, other: &RotationMatrix) -> (product: RotationMatrix)
        requires
            unit_rows(matrix_model(*self)),
            unit_rows(matrix_model(*other)),
        ensures
            matrix_model(product) == mat_mul(matrix_model(*self), matrix_model(*other)),
            unit_rows(matrix_model(product)),
    {
        let ghost a = matrix_model(*self);
        let ghost b = matrix_model(*other);
        proof {
            lemma_mul_unit_rows(a, b);
        }
        let ghost p = mat_mul(a, b);
        let mut rows = [[0i8;3];3];
        let mut row: usize = 0;
        while row < 3
            invariant
                row <= 3,
                a == matrix_model(*self),
                b == matrix_model(*other),
                p == mat_mul(a, b),
                unit_rows(a),
                unit_rows(b),
                unit_rows(p),
                forall|r: int, c: int| 0 <= r < row && 0 <= c < 3 ==> #[trigger] rows[r][c] == p[r][c],
            decreases 3 - row,
        {
            let mut column: usize = 0;
            while column < 3
                invariant
                    row < 3,
                    column <= 3,
                    a == matrix_model(*self),
                    b == matrix_model(*other),
                    p == mat_mul(a, b),
                    unit_rows(a),
                    unit_rows(b),
                    unit_rows(p),
                    forall|r: int, c: int| 0 <= r < row && 0 <= c < 3 ==> #[trigger] rows[r][c] == p[r][c],
                    forall|c: int| 0 <= c < column ==> #[trigger] rows[row as int][c] == p[row as int][c],
                decreases 3 - column,
            {
                let a0 = self.rows[row][0];
                let a1 = self.rows[row][1];
                let a2 = self.rows[row][2];
                let b0 = other.rows[0][column];
                let b1 = other.rows[1][column];
                let b2 = other.rows[2][column];
                proof {
                    assert(a0 == a[row as int][0] && a1 == a[row as int][1] && a2 == a[row as int][2]);
                    assert(b0 == b[0][column as int] && b1 == b[1][column as int] && b2 == b[2][column as int]);
                    lemma_unit_product(a0 as int, b0 as int);
                    lemma_unit_product(a1 as int, b1 as int);
                    lemma_unit_product(a2 as int, b2 as int);
                    assert(-1 <= p[row as int][column as int] <= 1);
                }
                let entry = a0 * b0 + a1 * b1 + a2 * b2;
                let ghost before = rows;
                rows[row][column] = entry;
                assert forall|r: int, c: int| 0 <= r < row && 0 <= c < 3 implies #[trigger] rows[r][c] == p[r][c] by {
                    assert(rows[r] == before[r]);
                }
                column = column + 1;
            }
            row = row + 1;
        }
        let product = RotationMatrix { rows };
        assert(matrix_model(product) =~= p) by {
            assert forall|r: int| 0 <= r < 3 implies #[trigger] matrix_model(product)[r] =~= p[r] by {}
        }
        product
    }
}

/// The rotation matrix parsed from a byte has rows with a single unit entry each
pub proof fn lemma_parsed_rotation_unit_rows(b: u8)
    requires
        is_rotation_byte(b),
    ensures
        unit_rows(rotation_model(b)),
{
}

/// The identity matrix has rows with a single unit entry each
pub proof fn lemma_identity_unit_rows()
    ensures
        unit_rows(identity_model()),
{
}

/// One frame of a transform node: the translation and the packed rotation it applies, where it
/// has them
#[derive(Debug, Clone, Copy, PartialEq, Eq)]
pub struct VoxFrame {
    pub translation: Option<V3c<i32>>,
    pub rotation: Option<u8>,
}

/// A model placed by a shape node, in the given animation frame
#[derive(Debug, Clone, Copy, PartialEq, Eq, Structural)]
pub struct VoxShapeModel {
    pub model_id: u32,
    pub frame: usize,
}

/// A node of a MagicaVoxel scene graph; the first node of a scene is its root
#[derive(Debug, Clone, PartialEq)]
pub enum VoxSceneNode {
    /// Moves and rotates its child, by the values of the frame in use
    Transform { child: u32, frames: Vec<VoxFrame> },
    /// Holds its children
    Group { children: Vec<u32> },
    /// Places models
    Shape { models: Vec<VoxShapeModel> },
}

/// A model of the scene, with the translation and the rotation it is placed with
#[derive(Debug, Clone, Copy, PartialEq, Eq)]
pub struct ModelPlacement {
    pub model_id: u32,
    pub translation: V3c<i32>,
    pub rotation: RotationMatrix,
}

/// The mathematical form of a model placement
pub struct PlacementModel {
    pub model_id: u32,
    pub translation: V3c<i32>,
    pub rotation: Seq<Seq<int>>,
}

/// Reasons a scene graph cannot be walked
#[derive(Debug, Clone, Copy, PartialEq, Eq, Structural)]
pub enum VoxError {
    /// The scene is empty, or its root is no transform node
    NoRootTransform,
    /// A node refers to a node the scene does not have
    MissingNode,
    /// A transform node has no frames
    MissingFrame,
    /// A frame holds a byte that describes no rotation
    InvalidRotation,
    /// A translation leaves the range of 32 bit integers
    TranslationOverflow,
    /// Nodes nest deeper than the scene has nodes, so the scene refers to itself
    TooDeep,
}

/// The mathematical form of a model placement
pub open spec fn placement_view(p: ModelPlacement) -> PlacementModel {
    PlacementModel {
        model_id: p.model_id,
        translation: p.translation,
        rotation: matrix_model(p.rotation),
    }
}

/// The mathematical forms of model placements
pub open spec fn placements_view(placements: Seq<ModelPlacement>) -> Seq<PlacementModel> {
    placements.map_values(|p: ModelPlacement| placement_view(p))
}

/// The translation moved by the delta, if the frame has one, while it stays in the range of 32 bit
/// integers
pub open spec fn translated(translation: V3c<i32>, delta: Option<V3c<i32>>) -> Option<V3c<i32>> {
    match delta {
        None => Some(translation),
        Some(d) => {
            let x = translation.x + d.x;
            let y = translation.y + d.y;
            let z = translation.z + d.z;
            if i32::MIN <= x <= i32::MAX && i32::MIN <= y <= i32::MAX && i32::MIN <= z <= i32::MAX {
                Some(V3c { x: x as i32, y: y as i32, z: z as i32 })
            } else {
                None
            }
        },
    }
}

/// The frame a transform node uses for the given animation frame: that one if it has it, else
/// its first
pub open spec fn frame_in_use(frames: Seq<VoxFrame>, frame: usize) -> VoxFrame {
    if frame < frames.len() {
        frames[frame as int]
    } else {
        frames[0]
    }
}

/// The placements of the models of a shape node that belong to the given animation frame
pub open spec fn shape_placements(
    models: Seq<VoxShapeModel>,
    translation: V3c<i32>,
    rotation: Seq<Seq<int>>,
    frame: usize,
) -> Seq<PlacementModel>
    decreases models.len(),
{
    if models.len() == 0 {
        Seq::empty()
    } else {
        let before = shape_placements(models.drop_last(), translation, rotation, frame);
        if models.last().frame == frame {
            before.push(
                PlacementModel { model_id: models.last().model_id, translation, rotation },
            )
        } else {
            before
        }
    }
}

/// The placements of the models under a node of the scene, reached with the given translation
/// and rotation, visiting at most the given number of nested nodes
pub open spec fn node_placements(
    scenes: Seq<VoxSceneNode>,
    node: int,
    translation: V3c<i32>,
    rotation: Seq<Seq<int>>,
    frame: usize,
    fuel: nat,
) -> Result<Seq<PlacementModel>, VoxError>
    decreases fuel, 0nat,
{
    if fuel == 0 {
        Err(VoxError::TooDeep)
    } else if !(0 <= node < scenes.len()) {
        Err(VoxError::MissingNode)
    } else {
        match scenes[node] {
            VoxSceneNode::Transform { child, frames } => {
                if frames@.len() == 0 {
                    Err(VoxError::MissingFrame)
                } else {
                    let used = frame_in_use(frames@, frame);
                    match translated(translation, used.translation) {
                        None => Err(VoxError::TranslationOverflow),
                        Some(moved) => match used.rotation {
                            Some(b) => if is_rotation_byte(b) {
                                node_placements(
                                    scenes,
                                    child as int,
                                    moved,
                                    mat_mul(rotation, rotation_model(b)),
                                    frame,
                                    (fuel - 1) as nat,
                                )
                            } else {
                                Err(VoxError::InvalidRotation)
                            },
                            None => node_placements(
                                scenes,
                                child as int,
                                moved,
                                identity_model(),
                                frame,
                                (fuel - 1) as nat,
                            ),
                        },
                    }
                }
            },
            VoxSceneNode::Group { children } => children_placements(
                scenes,
                children@,
                0,
                translation,
                rotation,
                frame,
                (fuel - 1) as nat,
            ),
            VoxSceneNode::Shape { models } => Ok(
                shape_placements(models@, translation, rotation, frame),
            ),
        }
    }
}

/// The placements of the models under the children of a group node from the given index on, in
/// the order of the children
pub open spec fn children_placements(
    scenes: Seq<VoxSceneNode>,
    children: Seq<u32>,
    index: int,
    translation: V3c<i32>,
    rotation: Seq<Seq<int>>,
    frame: usize,
    fuel: nat,
) -> Result<Seq<PlacementModel>, VoxError>
    decreases fuel, children.len() - index + 1,
{
    if index < 0 || index >= children.len() {
        Ok(Seq::empty())
    } else {
        match node_placements(scenes, children[index] as int, translation, rotation, frame, fuel) {
            Err(e) => Err(e),
            Ok(first) => {
                match children_placements(
                    scenes,
                    children,
                    index + 1,
                    translation,
                    rotation,
                    frame,
                    fuel,
                ) {
                    Err(e) => Err(e),
                    Ok(rest) => Ok(first + rest),
                }
            },
        }
    }
}

/// The placements of the models of a scene in the given animation frame: the walk starts at the
/// child of the root transform node, at the origin and without rotation
pub open spec fn vox_placements(scenes: Seq<VoxSceneNode>, frame: usize) -> Result<
    Seq<PlacementModel>,
    VoxError,
> {
    if scenes.len() == 0 {
        Err(VoxError::NoRootTransform)
    } else {
        match scenes[0] {
            VoxSceneNode::Transform { child, .. } => node_placements(
                scenes,
                child as int,
                V3c { x: 0, y: 0, z: 0 },
                identity_model(),
                frame,
                scenes.len(),
            ),
            _ => Err(VoxError::NoRootTransform),
        }
    }
}

/// Appends the placements of the models of a shape node that belong to the given animation frame
fn place_shape_models(
    models: &Vec<VoxShapeModel>,
    translation: V3c<i32>,
    rotation: RotationMatrix,
    frame: usize,
    out: &mut Vec<ModelPlacement>,
)
    ensures
        placements_view(final(out)@) == placements_view(old(out)@) + shape_placements(
            models@,
            translation,
            matrix_model(rotation),
            frame,
        ),
{
    let ghost start = placements_view(out@);
    let mut i: usize = 0;
    while i < models.len()
        invariant
            i <= models@.len(),
            placements_view(out@) == start + shape_placements(
                models@.subrange(0, i as int),
                translation,
                matrix_model(rotation),
                frame,
            ),
        decreases models@.len() - i,
    {
        let ghost prefix = models@.subrange(0, i + 1);
        assert(prefix.drop_last() =~= models@.subrange(0, i as int));
        if models[i].frame == frame {
            let placement = ModelPlacement { model_id: models[i].model_id, translation, rotation };
            let ghost before = out@;
            out.push(placement);
            assert(placements_view(out@) =~= placements_view(before).push(placement_view(placement)));
        }
        i = i + 1;
    }
    assert(models@.subrange(0, i as int) =~= models@);
}

/// Appends the placements of the models under a node, reached with the given translation and
/// rotation, visiting at most the given number of nested nodes
fn place_node(
    scenes: &Vec<VoxSceneNode>,
    node: u32,
    translation: V3c<i32>,
    rotation: RotationMatrix,
    frame: usize,
    fuel: usize,
    out: &mut Vec<ModelPlacement>,
) -> (result: Result<(), VoxError>)
    requires
        unit_rows(matrix_model(rotation)),
    ensures
        match node_placements(
            scenes@,
            node as int,
            translation,
            matrix_model(rotation),
            frame,
            fuel as nat,
        ) {
            Ok(placements) => result is Ok && placements_view(final(out)@) == placements_view(
                old(out)@,
            ) + placements,
            Err(e) => result == Err::<(), VoxError>(e),
        },
    decreases fuel, 0nat,
{
    if fuel == 0 {
        return Err(VoxError::TooDeep);
    }
    if node as usize >= scenes.len() {
        return Err(VoxError::MissingNode);
    }
    match &scenes[node as usize] {
        VoxSceneNode::Transform { child, frames } => {
            if frames.len() == 0 {
                return Err(VoxError::MissingFrame);
            }
            let used = if frame < frames.len() {
                frames[frame]
            } else {
                frames[0]
            };
            let moved = match used.translation {
                None => translation,
                Some(delta) => {
                    let x = translation.x.checked_add(delta.x);
                    let y = translation.y.checked_add(delta.y);
                    let z = translation.z.checked_add(delta.z);
                    match (x, y, z) {
                        (Some(x), Some(y), Some(z)) => V3c { x, y, z },
                        _ => {
                            return Err(VoxError::TranslationOverflow);
                        },
                    }
                },
            };
            assert(translated(translation, used.translation) == Some(moved));
            match used.rotation {
                Some(b) => {
                    if (b & 0x3) >= 3 || ((b >> 2) & 0x3) >= 3 || (b & 0x3) == ((b >> 2) & 0x3) {
                        proof {
                            lemma_rotation_byte_fields(b);
                        }
                        return Err(VoxError::InvalidRotation);
                    }
                    proof {
                        lemma_rotation_byte_fields(b);
                        lemma_parsed_rotation_unit_rows(b);
                    }
                    let parsed = parse_rotation_matrix(b);
                    let orientation = rotation.multiplied(&parsed);
                    place_node(scenes, *child, moved, orientation, frame, fuel - 1, out)
                },
                None => {
                    proof {
                        lemma_identity_unit_rows();
                    }
                    place_node(scenes, *child, moved, RotationMatrix::identity(), frame, fuel - 1, out)
                },
            }
        },
        VoxSceneNode::Group { children } => place_children(
            scenes,
            children,
            0,
            translation,
            rotation,
            frame,
            fuel - 1,
            out,
        ),
        VoxSceneNode::Shape { models } => {
            place_shape_models(models, translation, rotation, frame, out);
            Ok(())
        },
    }
}

/// Appends the placements of the models under the children of a group node from the given
/// index on
fn place_children(
    scenes: &Vec<VoxSceneNode>,
    children: &Vec<u32>,
    index: usize,
    translation: V3c<i32>,
    rotation: RotationMatrix,
    frame: usize,
    fuel: usize,
    out: &mut Vec<ModelPlacement>,
) -> (result: Result<(), VoxError>)
    requires
        unit_rows(matrix_model(rotation)),
        index <= children@.len() + 1,
    ensures
        match children_placements(
            scenes@,
            children@,
            index as int,
            translation,
            matrix_model(rotation),
            frame,
            fuel as nat,
        ) {
            Ok(placements) => result is Ok && placements_view(final(out)@) == placements_view(
                old(out)@,
            ) + placements,
            Err(e) => result == Err::<(), VoxError>(e),
        },
    decreases fuel, children@.len() - index + 1,
{
    if index >= children.len() {
        assert(placements_view(out@) =~= placements_view(out@) + Seq::<PlacementModel>::empty());
        return Ok(());
    }
    let child = children[index];
    let ghost before = placements_view(out@);
    match place_node(scenes, child, translation, rotation, frame, fuel, out) {
        Err(e) => Err(e),
        Ok(()) => {
            let next = index + 1;
            let rest = place_children(
                scenes,
                children,
                next,
                translation,
                rotation,
                frame,
                fuel,
                out,
            );
            proof {
                if rest is Ok {
                    let first = node_placements(
                        scenes@,
                        child as int,
                        translation,
                        matrix_model(rotation),
                        frame,
                        fuel as nat,
                    )->Ok_0;
                    let others = children_placements(
                        scenes@,
                        children@,
                        index + 1,
                        translation,
                        matrix_model(rotation),
                        frame,
                        fuel as nat,
                    )->Ok_0;
                    assert(placements_view(out@) =~= before + (first + others));
                }
            }
            rest
        },
    }
}

/// The fields of a packed rotation byte, read with bit masks
proof fn lemma_rotation_byte_fields(b: u8)
    ensures
        (b & 0x3) == b % 4,
        ((b >> 2) & 0x3) == (b / 4) % 4,
{
    assert((b & 0x3) == b % 4) by (bit_vector);
    assert(((b >> 2) & 0x3) == (b / 4) % 4) by (bit_vector);
}

/// Walks the scene graph of a MagicaVoxel file from the child of its root transform node, and
/// gives every model that belongs to the given animation frame, with the translation and the
/// rotation the transform nodes above it place it with
pub fn iterate_vox_tree(scenes: &Vec<VoxSceneNode>, frame: usize) -> (result: Result<
    Vec<ModelPlacement>,
    VoxError,
>)
    ensures
        match vox_placements(scenes@, frame) {
            Ok(placements) => result matches Ok(found) && placements_view(found@) == placements,
            Err(e) => result == Err::<Vec<ModelPlacement>, VoxError>(e),
        },
{
    if scenes.len() == 0 {
        return Err(VoxError::NoRootTransform);
    }
    match &scenes[0] {
        VoxSceneNode::Transform { child, .. } => {
            let mut placements: Vec<ModelPlacement> = Vec::new();
            proof {
                lemma_identity_unit_rows();
                assert(placements_view(placements@) =~= Seq::<PlacementModel>::empty());
            }
            let identity = RotationMatrix::identity();
            let origin = V3c { x: 0i32, y: 0i32, z: 0i32 };
            match place_node(scenes, *child, origin, identity, frame, scenes.len(), &mut placements) {
                Ok(()) => {
                    assert(placements_view(placements@) =~= Seq::<PlacementModel>::empty() + vox_placements(scenes@, frame)->Ok_0);
                    Ok(placements)
                },
                Err(e) => Err(e),
            }
        },
        _ => Err(VoxError::NoRootTransform),
    }
}

/// The identity matrix multiplied by a matrix from the left leaves it as it is
proof fn lemma_identity_times(b: u8)
    ensures
        mat_mul(identity_model(), rotation_model(b)) == rotation_model(b),
{
    let p = mat_mul(identity_model(), rotation_model(b));
    assert forall|r: int| 0 <= r < 3 implies #[trigger] p[r] =~= rotation_model(b)[r] by {}
    assert(p =~= rotation_model(b));
}

/// A transform frame moving by `t` and rotating by `r`
pub open spec fn frame_of(t: V3c<i32>, r: Option<u8>) -> VoxFrame {
    VoxFrame { translation: Some(t), rotation: r }
}

/// Under two nested transform nodes, the first moving by `t1` and rotating by `a`, the second
/// moving by `t2` and rotating by `b`, a model is placed at `t1 + t2`, rotated by the product of
/// the two rotations taken from the root down, `a` on the left of `b`
pub proof fn lemma_nested_transforms(
    scenes: Seq<VoxSceneNode>,
    frame: usize,
    t1: V3c<i32>,
    t2: V3c<i32>,
    a: u8,
    b: u8,
    model: VoxShapeModel,
)
    requires
        scenes.len() == 4,
        scenes[0] matches VoxSceneNode::Transform { child, .. } && child == 1,
        scenes[1] matches VoxSceneNode::Transform { child, frames } && child == 2 && frames@
            == seq![frame_of(t1, Some(a))],
        scenes[2] matches VoxSceneNode::Transform { child, frames } && child == 3 && frames@
            == seq![frame_of(t2, Some(b))],
        scenes[3] matches VoxSceneNode::Shape { models } && models@ == seq![model],
        model.frame == frame,
        is_rotation_byte(a),
        is_rotation_byte(b),
        -0x1000_0000 <= t1.x <= 0x1000_0000,
        -0x1000_0000 <= t1.y <= 0x1000_0000,
        -0x1000_0000 <= t1.z <= 0x1000_0000,
        -0x1000_0000 <= t2.x <= 0x1000_0000,
        -0x1000_0000 <= t2.y <= 0x1000_0000,
        -0x1000_0000 <= t2.z <= 0x1000_0000,
    ensures
        vox_placements(scenes, frame) == Ok::<Seq<PlacementModel>, VoxError>(
            seq![
                PlacementModel {
                    model_id: model.model_id,
                    translation: V3c {
                        x: (t1.x + t2.x) as i32,
                        y: (t1.y + t2.y) as i32,
                        z: (t1.z + t2.z) as i32,
                    },
                    rotation: mat_mul(rotation_model(a), rotation_model(b)),
                },
            ],
        ),
{
    lemma_identity_times(a);
    let origin = V3c { x: 0i32, y: 0i32, z: 0i32 };
    let first = V3c { x: t1.x, y: t1.y, z: t1.z };
    let second = V3c { x: (t1.x + t2.x) as i32, y: (t1.y + t2.y) as i32, z: (t1.z + t2.z) as i32 };
    assert(translated(origin, Some(t1)) == Some(first));
    assert(translated(first, Some(t2)) == Some(second));
    if let VoxSceneNode::Shape { models } = scenes[3] {
        assert(models@.drop_last() =~= Seq::<VoxShapeModel>::empty());
        reveal_with_fuel(shape_placements, 2);
        assert(shape_placements(models@, second, mat_mul(rotation_model(a), rotation_model(b)), frame)
            =~= seq![
            PlacementModel {
                model_id: model.model_id,
                translation: second,
                rotation: mat_mul(rotation_model(a), rotation_model(b)),
            },
        ]);
    }
    reveal_with_fuel(node_placements, 4);
}

/// A transform node without a rotation places the models under it unrotated, whatever the
/// nodes above it rotate by
pub proof fn lemma_unrotated_transform(
    scenes: Seq<VoxSceneNode>,
    frame: usize,
    a: u8,
    model: VoxShapeModel,
)
    requires
        scenes.len() == 4,
        scenes[0] matches VoxSceneNode::Transform { child, .. } && child == 1,
        scenes[1] matches VoxSceneNode::Transform { child, frames } && child == 2 && frames@
            == seq![VoxFrame { translation: None, rotation: Some(a) }],
        scenes[2] matches VoxSceneNode::Transform { child, frames } && child == 3 && frames@
            == seq![VoxFrame { translation: None, rotation: None }],
        scenes[3] matches VoxSceneNode::Shape { models } && models@ == seq![model],
        model.frame == frame,
        is_rotation_byte(a),
    ensures
        vox_placements(scenes, frame) == Ok::<Seq<PlacementModel>, VoxError>(
            seq![
                PlacementModel {
                    model_id: model.model_id,
                    translation: V3c { x: 0, y: 0, z: 0 },
                    rotation: identity_model(),
                },
            ],
        ),
{
    if let VoxSceneNode::Shape { models } = scenes[3] {
        assert(models@.drop_last() =~= Seq::<VoxShapeModel>::empty());
        reveal_with_fuel(shape_placements, 2);
        assert(shape_placements(models@, V3c { x: 0, y: 0, z: 0 }, identity_model(), frame) =~= seq![
            PlacementModel {
                model_id: model.model_id,
                translation: V3c { x: 0, y: 0, z: 0 },
                rotation: identity_model(),
            },
        ]);
    }
    reveal_with_fuel(node_placements, 4);
}

/// The models under the children of a group node are placed child by child, in the order of
/// the children
pub proof fn lemma_group_order(
    scenes: Seq<VoxSceneNode>,
    frame: usize,
    first: VoxShapeModel,
    second: VoxShapeModel,
)
    requires
        scenes.len() == 4,
        scenes[0] matches VoxSceneNode::Transform { child, .. } && child == 1,
        scenes[1] matches VoxSceneNode::Group { children } && children@ == seq![2u32, 3u32],
        scenes[2] matches VoxSceneNode::Shape { models } && models@ == seq![first],
        scenes[3] matches VoxSceneNode::Shape { models } && models@ == seq![second],
        first.frame == frame,
        second.frame == frame,
    ensures
        vox_placements(scenes, frame) == Ok::<Seq<PlacementModel>, VoxError>(
            seq![
                PlacementModel {
                    model_id: first.model_id,
                    translation: V3c { x: 0, y: 0, z: 0 },
                    rotation: identity_model(),
                },
                PlacementModel {
                    model_id: second.model_id,
                    translation: V3c { x: 0, y: 0, z: 0 },
                    rotation: identity_model(),
                },
            ],
        ),
{
    let origin = V3c { x: 0i32, y: 0i32, z: 0i32 };
    let pa = PlacementModel { model_id: first.model_id, translation: origin, rotation: identity_model() };
    let pb = PlacementModel { model_id: second.model_id, translation: origin, rotation: identity_model() };
    if let VoxSceneNode::Shape { models } = scenes[2] {
        assert(models@.drop_last() =~= Seq::<VoxShapeModel>::empty());
        reveal_with_fuel(shape_placements, 2);
        assert(shape_placements(models@, origin, identity_model(), frame) =~= seq![pa]);
    }
    if let VoxSceneNode::Shape { models } = scenes[3] {
        assert(models@.drop_last() =~= Seq::<VoxShapeModel>::empty());
        reveal_with_fuel(shape_placements, 2);
        assert(shape_placements(models@, origin, identity_model(), frame) =~= seq![pb]);
    }
    if let VoxSceneNode::Group { children } = scenes[1] {
        reveal_with_fuel(children_placements, 2);
        reveal_with_fuel(node_placements, 2);
        let ok = |x: Seq<PlacementModel>| Ok::<Seq<PlacementModel>, VoxError>(x);
        assert(node_placements(scenes, 2, origin, identity_model(), frame, 3) == ok(seq![pa]));
        assert(node_placements(scenes, 3, origin, identity_model(), frame, 3) == ok(seq![pb]));
        assert(children_placements(scenes, children@, 2, origin, identity_model(), frame, 3) == ok(
            Seq::empty(),
        ));
        assert(seq![pb] + Seq::<PlacementModel>::empty() =~= seq![pb]);
        assert(children_placements(scenes, children@, 1, origin, identity_model(), frame, 3) == ok(
            seq![pb],
        ));
        assert(seq![pa] + seq![pb] =~= seq![pa, pb]);
        assert(children_placements(scenes, children@, 0, origin, identity_model(), frame, 3) == ok(
            seq![pa, pb],
        ));
        assert(node_placements(scenes, 1, origin, identity_model(), frame, 4) == ok(seq![pa, pb]));
    }
}


/// A transform node with several frames moves the models under it by the translation of the
/// frame of the requested animation frame, or by that of its first frame when it has fewer;
/// models of a shape that belong to another animation frame are not placed
pub proof fn lemma_frame_selection(
    scenes: Seq<VoxSceneNode>,
    frame: usize,
    translations: Seq<V3c<i32>>,
    model: VoxShapeModel,
    other: VoxShapeModel,
)
    requires
        scenes.len() == 3,
        scenes[0] matches VoxSceneNode::Transform { child, .. } && child == 1,
        translations.len() > 0,
        scenes[1] matches VoxSceneNode::Transform { child, frames } && child == 2 && frames@
            == translations.map_values(|t: V3c<i32>| VoxFrame { translation: Some(t), rotation: None }),
        scenes[2] matches VoxSceneNode::Shape { models } && models@ == seq![model, other],
        model.frame == frame,
        other.frame != frame,
    ensures
        vox_placements(scenes, frame) == Ok::<Seq<PlacementModel>, VoxError>(
            seq![
                PlacementModel {
                    model_id: model.model_id,
                    translation: if frame < translations.len() {
                        translations[frame as int]
                    } else {
                        translations[0]
                    },
                    rotation: identity_model(),
                },
            ],
        ),
{
    let origin = V3c { x: 0i32, y: 0i32, z: 0i32 };
    let t = if frame < translations.len() {
        translations[frame as int]
    } else {
        translations[0]
    };
    assert(translated(origin, Some(t)) == Some(t));
    if let VoxSceneNode::Shape { models } = scenes[2] {
        reveal_with_fuel(shape_placements, 3);
        assert(models@.drop_last() =~= seq![model]);
        assert(models@.drop_last().drop_last() =~= Seq::<VoxShapeModel>::empty());
        assert(shape_placements(models@, t, identity_model(), frame) =~= seq![
            PlacementModel { model_id: model.model_id, translation: t, rotation: identity_model() },
        ]);
    }
    reveal_with_fuel(node_placements, 3);
}

} // verus!
