use vstd::prelude::*;

use crate::block_data::BlockData;
use crate::chunk::{Facing, Index, CHUNK_SIZE};
use crate::palette_store::PaletteStore;

verus! {

/// A narrow capability for a chunk's voxel storage: reading and writing one
/// voxel by its local index. The canonical implementation is the
/// palette-backed one; further backends can implement this trait.
pub trait StorageImpl<T: BlockData>: Sized {
    /// The voxel held at each of the `CHUNK_SIZE` local offsets.
    spec fn view_of(&self) -> Seq<T>;

    /// The backend's internal consistency.
    spec fn valid(&self) -> bool;

    /// A valid backend stores exactly one voxel per local offset.
    proof fn lemma_valid_len(&self)
        requires
            self.valid(),
        ensures
            self.view_of().len() == 4096,
    ;

    /// Reads the voxel at the given local index.
    fn get(&self, index: Index) -> (r: T)
        requires
            self.valid(),
        ensures
            r == self.view_of()[index.spec_raw()],
    ;

    /// Writes the voxel at the given local index.
    fn set(&mut self, index: Index, value: T)
        requires
            old(self).valid(),
        ensures
            final(self).valid(),
            final(self).view_of() == old(self).view_of().update(index.spec_raw(), value),
    ;
}

/// Palette-compressed voxel storage for one chunk.
pub struct PaletteStorageImpl<T: BlockData> {
    pub data: PaletteStore<T>,
}

impl<T: BlockData> PaletteStorageImpl<T> {
    /// A chunk's worth of voxels, all holding the default value.
    pub fn new() -> (r: PaletteStorageImpl<T>)
        ensures
            r.valid(),
            r.data.used == 0,
            r.view_of() =~= Seq::new(4096, |i: int| T::default_spec()),
    {
        PaletteStorageImpl { data: PaletteStore::new(CHUNK_SIZE) }
    }

    /// Like `new`, with room reserved for `capacity` distinct values.
    pub fn new_with_capacity(capacity: usize) -> (r: PaletteStorageImpl<T>)
        requires
            capacity <= 0x8000_0000,
        ensures
            r.valid(),
            r.view_of() =~= Seq::new(4096, |i: int| T::default_spec()),
    {
        let mut storage = Self::new();
        storage.data.reserve(capacity);
        storage
    }
}

impl<T: BlockData> StorageImpl<T> for PaletteStorageImpl<T> {
    open spec fn view_of(&self) -> Seq<T> {
        self.data.contents()
    }

    open spec fn valid(&self) -> bool {
        self.data.wf() && self.data.size == 4096
    }

    proof fn lemma_valid_len(&self) {
    }

    fn get(&self, index: Index) -> (r: T) {
        self.data.get_unchecked(index.raw_index() as usize)
    }

    fn set(&mut self, index: Index, value: T) {
        self.data.set_unchecked(index.raw_index() as usize, value);
    }
}

/// The voxel storage of one chunk, backed by a palette store.
pub struct ChunkStorage<T: BlockData> {
    pub storage: PaletteStorageImpl<T>,
}

impl<T: BlockData> ChunkStorage<T> {
    /// The voxel held at each of the `CHUNK_SIZE` local offsets.
    pub open spec fn view_of(&self) -> Seq<T> {
        self.storage.view_of()
    }

    pub open spec fn valid(&self) -> bool {
        self.storage.valid()
    }

    /// Wraps a storage backend.
    pub fn new(storage: PaletteStorageImpl<T>) -> (r: ChunkStorage<T>)
        requires
            storage.valid(),
        ensures
            r.valid(),
            r.view_of() == storage.view_of(),
    {
        ChunkStorage { storage }
    }

    /// Reads the voxel at the given local index.
    pub fn get(&self, index: Index) -> (r: T)
        requires
            self.valid(),
        ensures
            r == self.view_of()[index.spec_raw()],
    {
        self.storage.get(index)
    }

    /// Writes the voxel at the given local index.
    pub fn set(&mut self, index: Index, value: T)
        requires
            old(self).valid(),
        ensures
            final(self).valid(),
            final(self).view_of() == old(self).view_of().update(index.spec_raw(), value),
    {
        self.storage.set(index, value);
    }
}

/// Whether the coordinates' face towards `face` is exposed: the neighboring
/// voxel either lies outside the chunk or holds no block (the zero value),
/// so a mesh builder must emit that face.
pub fn face_visible(storage: &ChunkStorage<u8>, x: i32, y: i32, z: i32, face: Facing) -> (r: bool)
    requires
        storage.valid(),
        Index::in_bounds(x as int, y as int, z as int),
    ensures
        r == ({
            let nx = x + face.spec_offset().0;
            let ny = y + face.spec_offset().1;
            let nz = z + face.spec_offset().2;
            !Index::in_bounds(nx, ny, nz) || storage.view_of()[nx + 16 * ny + 256 * nz] == 0u8
        }),
{
    let (dx, dy, dz) = face.offset();
    let nx = x + dx;
    let ny = y + dy;
    let nz = z + dz;
    match Index::new(nx, ny, nz) {
        Ok(idx) => {
            proof {
                storage.storage.lemma_valid_len();
            }
            storage.get(idx) == 0u8
        },
        Err(_) => true,
    }
}

} // verus!
