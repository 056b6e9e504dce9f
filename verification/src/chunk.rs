use vstd::prelude::*;

verus! {

/// Base-two logarithm of a chunk's side length.
pub const CHUNK_LENGTH_BITS: usize = 4;

/// Side length of a cubic chunk.
pub const CHUNK_LENGTH: usize = 16;

/// Number of voxels in a chunk (`CHUNK_LENGTH` cubed).
pub const CHUNK_SIZE: usize = 4096;

/// One of the six axis-aligned directions a voxel face can point towards.
#[derive(Copy, Clone, PartialEq, Eq, Structural, Debug)]
pub enum Facing {
    /// Towards `+X`.
    East,
    /// Towards `-X`.
    West,
    /// Towards `+Y`.
    Up,
    /// Towards `-Y`.
    Down,
    /// Towards `+Z`.
    South,
    /// Towards `-Z`.
    North,
}

impl Facing {
    /// The unit vector this direction points towards.
    pub open spec fn spec_offset(self) -> (int, int, int) {
        match self {
            Facing::East => (1, 0, 0),
            Facing::West => (-1, 0, 0),
            Facing::Up => (0, 1, 0),
            Facing::Down => (0, -1, 0),
            Facing::South => (0, 0, 1),
            Facing::North => (0, 0, -1),
        }
    }

    pub open spec fn spec_opposite(self) -> Facing {
        match self {
            Facing::East => Facing::West,
            Facing::West => Facing::East,
            Facing::Up => Facing::Down,
            Facing::Down => Facing::Up,
            Facing::South => Facing::North,
            Facing::North => Facing::South,
        }
    }

    pub fn opposite(self) -> (r: Facing)
        ensures
            r == self.spec_opposite(),
    {
        match self {
            Facing::East => Facing::West,
            Facing::West => Facing::East,
            Facing::Up => Facing::Down,
            Facing::Down => Facing::Up,
            Facing::South => Facing::North,
            Facing::North => Facing::South,
        }
    }

    /// The unit vector this direction points towards.
    pub fn offset(self) -> (r: (i32, i32, i32))
        ensures
            (r.0 as int, r.1 as int, r.2 as int) == self.spec_offset(),
    {
        match self {
            Facing::East => (1, 0, 0),
            Facing::West => (-1, 0, 0),
            Facing::Up => (0, 1, 0),
            Facing::Down => (0, -1, 0),
            Facing::South => (0, 0, 1),
            Facing::North => (0, 0, -1),
        }
    }

    /// All six directions.
    pub fn iter_all() -> (r: Vec<Facing>)
        ensures
            r@ == seq![
                Facing::East,
                Facing::West,
                Facing::Up,
                Facing::Down,
                Facing::South,
                Facing::North,
            ],
    {
        let mut v: Vec<Facing> = Vec::new();
        v.push(Facing::East);
        v.push(Facing::West);
        v.push(Facing::Up);
        v.push(Facing::Down);
        v.push(Facing::South);
        v.push(Facing::North);
        proof {
            assert(v@ =~= seq![
                Facing::East,
                Facing::West,
                Facing::Up,
                Facing::Down,
                Facing::South,
                Facing::North,
            ]);
        }
        v
    }

    /// The four directions parallel to the ground plane.
    pub fn iter_horizontal() -> (r: Vec<Facing>)
        ensures
            r@ == seq![Facing::East, Facing::West, Facing::South, Facing::North],
    {
        let mut v: Vec<Facing> = Vec::new();
        v.push(Facing::East);
        v.push(Facing::West);
        v.push(Facing::South);
        v.push(Facing::North);
        proof {
            assert(v@ =~= seq![Facing::East, Facing::West, Facing::South, Facing::North]);
        }
        v
    }

    /// The two vertical directions.
    pub fn iter_vertical() -> (r: Vec<Facing>)
        ensures
            r@ == seq![Facing::Up, Facing::Down],
    {
        let mut v: Vec<Facing> = Vec::new();
        v.push(Facing::Up);
        v.push(Facing::Down);
        proof {
            assert(v@ =~= seq![Facing::Up, Facing::Down]);
        }
        v
    }
}

/// A position in block (voxel) coordinates.
#[derive(Copy, Clone, PartialEq, Eq, Structural, Debug)]
pub struct BlockPos {
    pub x: i32,
    pub y: i32,
    pub z: i32,
}

impl BlockPos {
    pub fn new(x: i32, y: i32, z: i32) -> (r: BlockPos)
        ensures
            r.x == x && r.y == y && r.z == z,
    {
        BlockPos { x, y, z }
    }

    pub fn x(self) -> (r: i32)
        ensures
            r == self.x,
    {
        self.x
    }

    pub fn y(self) -> (r: i32)
        ensures
            r == self.y,
    {
        self.y
    }

    pub fn z(self) -> (r: i32)
        ensures
            r == self.z,
    {
        self.z
    }

    /// Component-wise translation.
    pub fn offset(self, dx: i32, dy: i32, dz: i32) -> (r: BlockPos)
        requires
            i32::MIN <= self.x + dx <= i32::MAX,
            i32::MIN <= self.y + dy <= i32::MAX,
            i32::MIN <= self.z + dz <= i32::MAX,
        ensures
            r.x == self.x + dx && r.y == self.y + dy && r.z == self.z + dz,
    {
        BlockPos { x: self.x + dx, y: self.y + dy, z: self.z + dz }
    }

    /// The neighboring position one step in the given direction.
    pub fn neighbor(self, face: Facing) -> (r: BlockPos)
        requires
            i32::MIN <= self.x + face.spec_offset().0 <= i32::MAX,
            i32::MIN <= self.y + face.spec_offset().1 <= i32::MAX,
            i32::MIN <= self.z + face.spec_offset().2 <= i32::MAX,
        ensures
            r.x == self.x + face.spec_offset().0,
            r.y == self.y + face.spec_offset().1,
            r.z == self.z + face.spec_offset().2,
    {
        let (dx, dy, dz) = face.offset();
        BlockPos { x: self.x + dx, y: self.y + dy, z: self.z + dz }
    }
}

/// A position in chunk coordinates (block coordinates divided by the chunk side length).
#[derive(Copy, Clone, PartialEq, Eq, Structural, Debug)]
pub struct ChunkPos {
    pub x: i32,
    pub y: i32,
    pub z: i32,
}

impl ChunkPos {
    pub fn new(x: i32, y: i32, z: i32) -> (r: ChunkPos)
        ensures
            r.x == x && r.y == y && r.z == z,
    {
        ChunkPos { x, y, z }
    }

    pub fn x(self) -> (r: i32)
        ensures
            r == self.x,
    {
        self.x
    }

    pub fn y(self) -> (r: i32)
        ensures
            r == self.y,
    {
        self.y
    }

    pub fn z(self) -> (r: i32)
        ensures
            r == self.z,
    {
        self.z
    }

    /// Component-wise translation.
    pub fn offset(self, dx: i32, dy: i32, dz: i32) -> (r: ChunkPos)
        requires
            i32::MIN <= self.x + dx <= i32::MAX,
            i32::MIN <= self.y + dy <= i32::MAX,
            i32::MIN <= self.z + dz <= i32::MAX,
        ensures
            r.x == self.x + dx && r.y == self.y + dy && r.z == self.z + dz,
    {
        ChunkPos { x: self.x + dx, y: self.y + dy, z: self.z + dz }
    }

    /// The neighboring position one step in the given direction.
    pub fn neighbor(self, face: Facing) -> (r: ChunkPos)
        requires
            i32::MIN <= self.x + face.spec_offset().0 <= i32::MAX,
            i32::MIN <= self.y + face.spec_offset().1 <= i32::MAX,
            i32::MIN <= self.z + face.spec_offset().2 <= i32::MAX,
        ensures
            r.x == self.x + face.spec_offset().0,
            r.y == self.y + face.spec_offset().1,
            r.z == self.z + face.spec_offset().2,
    {
        let (dx, dy, dz) = face.offset();
        ChunkPos { x: self.x + dx, y: self.y + dy, z: self.z + dz }
    }
}

/// A chunk entity: its position in chunk coordinates.
pub struct Chunk {
    pub pos: ChunkPos,
}

/// The coordinates that were rejected by `Index::new`.
#[derive(Copy, Clone, Debug)]
pub struct BoundsError(pub i32, pub i32, pub i32);

/// A local voxel index inside a chunk, packing coordinates in `[0, CHUNK_LENGTH)`
/// as `x + CHUNK_LENGTH * y + CHUNK_LENGTH^2 * z`.
#[derive(Copy, Clone, PartialEq, Eq, Structural, Debug)]
pub struct Index(u16);

impl Index {
    #[verifier::type_invariant]
    pub closed spec fn inv(self) -> bool {
        self.0 < 4096
    }

    /// The packed linear offset.
    pub closed spec fn spec_raw(self) -> int {
        self.0 as int
    }

    pub open spec fn spec_x(self) -> int {
        self.spec_raw() % 16
    }

    pub open spec fn spec_y(self) -> int {
        (self.spec_raw() / 16) % 16
    }

    pub open spec fn spec_z(self) -> int {
        self.spec_raw() / 256
    }

    /// Whether a coordinate triple lies inside a chunk.
    pub open spec fn in_bounds(x: int, y: int, z: int) -> bool {
        0 <= x < 16 && 0 <= y < 16 && 0 <= z < 16
    }

    /// Packs in-bounds coordinates; rejects out-of-bounds ones.
    pub fn new(x: i32, y: i32, z: i32) -> (r: Result<Index, BoundsError>)
        ensures
            match r {
                Ok(idx) => Index::in_bounds(x as int, y as int, z as int) && idx.spec_x() == x
                    && idx.spec_y() == y && idx.spec_z() == z && idx.spec_raw() == x + 16 * y
                    + 256 * z,
                Err(e) => !Index::in_bounds(x as int, y as int, z as int) && e.0 == x && e.1 == y
                    && e.2 == z,
            },
    {
        if 0 <= x && x < 16 && 0 <= y && y < 16 && 0 <= z && z < 16 {
            Ok(Self::new_unchecked(x, y, z))
        } else {
            Err(BoundsError(x, y, z))
        }
    }

    /// Packs coordinates that the caller has already checked to be in bounds.
    pub fn new_unchecked(x: i32, y: i32, z: i32) -> (r: Index)
        requires
            Index::in_bounds(x as int, y as int, z as int),
        ensures
            r.spec_x() == x && r.spec_y() == y && r.spec_z() == z,
            r.spec_raw() == x + 16 * y + 256 * z,
    {
        let raw = (x + y * 16 + z * 256) as u16;
        let r = Index(raw);
        proof {
            assert(r.spec_x() == x && r.spec_y() == y && r.spec_z() == z) by (nonlinear_arith)
                requires
                    0 <= x < 16 && 0 <= y < 16 && 0 <= z < 16,
                    r.spec_raw() == x + y * 16 + z * 256,
            ;
        }
        r
    }

    pub fn x(&self) -> (r: i32)
        ensures
            r == self.spec_x(),
    {
        proof {
            use_type_invariant(self);
        }
        (self.0 % 16) as i32
    }

    pub fn y(&self) -> (r: i32)
        ensures
            r == self.spec_y(),
    {
        proof {
            use_type_invariant(self);
        }
        ((self.0 / 16) % 16) as i32
    }

    pub fn z(&self) -> (r: i32)
        ensures
            r == self.spec_z(),
    {
        proof {
            use_type_invariant(self);
        }
        (self.0 / 256) as i32
    }

    /// The packed linear offset, always below `CHUNK_SIZE`.
    pub fn raw_index(&self) -> (r: u16)
        ensures
            r == self.spec_raw(),
            r < 4096,
    {
        proof {
            use_type_invariant(self);
        }
        self.0
    }
}

} // verus!
