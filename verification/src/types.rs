use vstd::prelude::*;
use vstd::std_specs::convert::FromSpecImpl;

verus! {

/// Error types during usage or creation of the octree
#[derive(Debug, Clone, Copy, PartialEq, Eq, Structural)]
pub enum OctreeError {
    /// Octree creation was attempted with an invalid octree size
    InvalidSize(u32),
    /// Octree creation was attempted with an invalid brick dimension
    InvalidBrickDimension(u32),
    /// Octree query was attempted with an invalid position
    InvalidPosition { x: u32, y: u32, z: u32 },
}

/// Color properties of a voxel
#[derive(Debug, Default, Clone, Copy, PartialEq, Eq, Hash, Structural)]
pub struct Albedo {
    pub r: u8,
    pub g: u8,
    pub b: u8,
    pub a: u8,
}

/// Trait for User Defined Voxel Data
pub trait VoxelData {
    /// Whether the voxel is to be passed through by rays
    spec fn empty(&self) -> bool;

    /// Determines if the voxel is to be hit by rays in the raytracing algorithms
    fn is_empty(&self) -> (result: bool)
        ensures
            result == self.empty(),
    ;
}

impl Albedo {
    /// The same color with the red component replaced
    pub fn with_red(self, r: u8) -> (result: Self)
        ensures
            result == (Albedo { r, g: self.g, b: self.b, a: self.a }),
    {
        Albedo { r, g: self.g, b: self.b, a: self.a }
    }

    /// The same color with the green component replaced
    pub fn with_green(self, g: u8) -> (result: Self)
        ensures
            result == (Albedo { r: self.r, g, b: self.b, a: self.a }),
    {
        Albedo { r: self.r, g, b: self.b, a: self.a }
    }

    /// The same color with the blue component replaced
    pub fn with_blue(self, b: u8) -> (result: Self)
        ensures
            result == (Albedo { r: self.r, g: self.g, b, a: self.a }),
    {
        Albedo { r: self.r, g: self.g, b, a: self.a }
    }

    /// The same color with the alpha component replaced
    pub fn with_alpha(self, a: u8) -> (result: Self)
        ensures
            result == (Albedo { r: self.r, g: self.g, b: self.b, a }),
    {
        Albedo { r: self.r, g: self.g, b: self.b, a }
    }

    /// A color is transparent when its alpha component is zero
    pub fn is_transparent(&self) -> (result: bool)
        ensures
            result == (self.a == 0),
    {
        self.a == 0
    }
}

impl VoxelData for Albedo {
    /// A color is passed through by rays when it is transparent
    open spec fn empty(&self) -> bool {
        self.a == 0
    }

    fn is_empty(&self) -> (result: bool) {
        self.is_transparent()
    }
}

/// The color packed into a 32 bit value as 0xRRGGBBAA
pub open spec fn albedo_of_u32(value: u32) -> Albedo {
    Albedo {
        r: (value / 0x100_0000) as u8,
        g: ((value / 0x1_0000) % 0x100) as u8,
        b: ((value / 0x100) % 0x100) as u8,
        a: (value % 0x100) as u8,
    }
}

impl From<u32> for Albedo {
    fn from(value: u32) -> (result: Self) {
        let a = (value & 0x0000_00FF) as u8;
        let b = ((value & 0x0000_FF00) >> 8) as u8;
        let g = ((value & 0x00FF_0000) >> 16) as u8;
        let r = ((value & 0xFF00_0000) >> 24) as u8;
        proof {
            assert(value & 0x0000_00FF == value % 0x100) by (bit_vector);
            assert((value & 0x0000_FF00) >> 8 == (value / 0x100) % 0x100) by (bit_vector);
            assert((value & 0x00FF_0000) >> 16 == (value / 0x1_0000) % 0x100) by (bit_vector);
            assert((value & 0xFF00_0000) >> 24 == value / 0x100_0000) by (bit_vector);
        }
        Albedo::default_color().with_red(r).with_green(g).with_blue(b).with_alpha(a)
    }
}

impl FromSpecImpl<u32> for Albedo {
    open spec fn obeys_from_spec() -> bool {
        true
    }

    open spec fn from_spec(v: u32) -> Self {
        albedo_of_u32(v)
    }
}

impl Albedo {
    /// The fully transparent black color, every component zero
    pub fn default_color() -> (result: Self)
        ensures
            result == (Albedo { r: 0, g: 0, b: 0, a: 0 }),
    {
        Albedo { r: 0, g: 0, b: 0, a: 0 }
    }
}

/// An entry of the tree: the color and the user data stored at a position, where available
#[derive(Debug, Clone, Copy, PartialEq)]
pub enum BoxTreeEntry<'a, T: VoxelData> {
    /// No information available in octree query
    Empty,
    /// Albedo data is available in octree query
    Visual(&'a Albedo),
    /// User data is avaliable in octree query
    Informative(&'a T),
    /// Both user data and color information is available in octree query
    Complex(&'a Albedo, &'a T),
}

impl<'a, T: VoxelData> BoxTreeEntry<'a, T> {
    /// Whether the entry holds nothing that rays would hit
    pub open spec fn holds_nothing(&self) -> bool {
        match *self {
            BoxTreeEntry::Empty => true,
            BoxTreeEntry::Visual(albedo) => albedo.a == 0,
            BoxTreeEntry::Informative(data) => data.empty(),
            BoxTreeEntry::Complex(albedo, data) => albedo.a == 0 && data.empty(),
        }
    }

    /// The color of the entry, if it has one
    pub fn albedo(&self) -> (result: Option<&'a Albedo>)
        ensures
            result == (match *self {
                BoxTreeEntry::Visual(albedo) => Some(albedo),
                BoxTreeEntry::Complex(albedo, _) => Some(albedo),
                _ => None,
            }),
    {
        match self {
            BoxTreeEntry::Empty => None,
            BoxTreeEntry::Visual(albedo) => Some(albedo),
            BoxTreeEntry::Informative(_) => None,
            BoxTreeEntry::Complex(albedo, _) => Some(albedo),
        }
    }

    /// The user data of the entry, if it has one
    pub fn data(&self) -> (result: Option<&'a T>)
        ensures
            result == (match *self {
                BoxTreeEntry::Informative(data) => Some(data),
                BoxTreeEntry::Complex(_, data) => Some(data),
                _ => None,
            }),
    {
        match self {
            BoxTreeEntry::Empty => None,
            BoxTreeEntry::Visual(_) => None,
            BoxTreeEntry::Informative(data) => Some(data),
            BoxTreeEntry::Complex(_, data) => Some(data),
        }
    }

    /// True if the entry holds nothing that rays would hit
    pub fn is_none(&self) -> (result: bool)
        ensures
            result == self.holds_nothing(),
    {
        match self {
            BoxTreeEntry::Empty => true,
            BoxTreeEntry::Visual(albedo) => albedo.is_transparent(),
            BoxTreeEntry::Informative(data) => data.is_empty(),
            BoxTreeEntry::Complex(albedo, data) => albedo.is_transparent() && data.is_empty(),
        }
    }

    /// True if the entry holds something that rays would hit
    pub fn is_some(&self) -> (result: bool)
        ensures
            result == !self.holds_nothing(),
    {
        !self.is_none()
    }
}

/// The voxels of a brick
#[derive(Debug, Clone, PartialEq)]
pub enum BrickData<T> {
    /// Brick is empty
    Empty,
    /// Brick is an NxNxN matrix, size is determined by the parent entity
    Parted(Vec<T>),
    /// Brick is a single item T, which takes up the entirety of the brick
    Solid(T),
}

/// The mathematical form of a brick
pub enum BrickModel<T> {
    Empty,
    Parted(Seq<T>),
    Solid(T),
}

impl<T> View for BrickData<T> {
    type V = BrickModel<T>;

    open spec fn view(&self) -> BrickModel<T> {
        match *self {
            BrickData::Empty => BrickModel::Empty,
            BrickData::Parted(voxels) => BrickModel::Parted(voxels@),
            BrickData::Solid(voxel) => BrickModel::Solid(voxel),
        }
    }
}

/// The content of a node of the tree
#[derive(Debug, Default, Clone, PartialEq)]
pub enum NodeContent<T> {
    /// Node is empty
    #[default]
    Nothing,
    /// Internal node + cache data to store the occupancy of the enclosed nodes
    Internal(u64),
    /// Node contains 8 children, each with their own brickdata
    Leaf([BrickData<T>; 8]),
    /// Node has one child, which takes up the entirety of the node with its brick data
    UniformLeaf(BrickData<T>),
}

/// The mathematical form of the content of a node
pub enum ContentModel<T> {
    Nothing,
    Internal(u64),
    Leaf(Seq<BrickModel<T>>),
    UniformLeaf(BrickModel<T>),
}

impl<T> View for NodeContent<T> {
    type V = ContentModel<T>;

    open spec fn view(&self) -> ContentModel<T> {
        match *self {
            NodeContent::Nothing => ContentModel::Nothing,
            NodeContent::Internal(bits) => ContentModel::Internal(bits),
            NodeContent::Leaf(bricks) => ContentModel::Leaf(Seq::new(8, |i: int| bricks[i]@)),
            NodeContent::UniformLeaf(brick) => ContentModel::UniformLeaf(brick@),
        }
    }
}

/// The connections of a node to its children, or the occupancy of a leaf
#[derive(Debug, Default, Clone, Copy, PartialEq, Eq)]
pub enum NodeChildrenArray<T> {
    #[default]
    NoChildren,
    Children([T; 8]),
    OccupancyBitmap(u64),
    OccupancyBitmaps([u64; 8]),
}

/// The children of a node, with the value marking a missing child
#[derive(Debug, Clone, Copy, PartialEq, Eq)]
pub struct NodeChildren<T> {
    pub empty_marker: T,
    pub content: NodeChildrenArray<T>,
}

} // verus!
