use bloxel::chunk::{Facing, Index, CHUNK_LENGTH, CHUNK_SIZE};
use bloxel::chunk_storage::{face_visible, ChunkStorage, PaletteStorageImpl};
use bloxel::integer_log2;

#[test]
fn index_packing() {
    let idx = Index::new(3, 5, 7).unwrap();
    assert_eq!(idx.x(), 3);
    assert_eq!(idx.y(), 5);
    assert_eq!(idx.z(), 7);
    assert_eq!(idx.raw_index(), 3 + 5 * 16 + 7 * 256);
    assert!(Index::new(16, 0, 0).is_err());
    assert!(Index::new(0, -1, 0).is_err());
    assert!(Index::new(0, 0, 16).is_err());
}

#[test]
fn facing_basics() {
    assert_eq!(Facing::East.opposite(), Facing::West);
    assert_eq!(Facing::Up.opposite(), Facing::Down);
    assert_eq!(Facing::North.opposite(), Facing::South);
    assert_eq!(Facing::iter_all().len(), 6);
    assert_eq!(Facing::iter_horizontal().len(), 4);
    assert_eq!(Facing::iter_vertical().len(), 2);
    assert_eq!(Facing::West.offset(), (-1, 0, 0));
}

#[test]
fn chunk_constants() {
    assert_eq!(CHUNK_LENGTH, 1 << 4);
    assert_eq!(CHUNK_SIZE, 16 * 16 * 16);
    assert_eq!(integer_log2(CHUNK_LENGTH), 4);
    assert_eq!(integer_log2(1), 0);
    assert_eq!(integer_log2(5), 2);
    assert_eq!(integer_log2(4096), 12);
}

#[test]
fn chunk_face_culling() {
    // Fill the interior with blocks and leave the surface empty: interior
    // voxels show no face, surface-adjacent interior faces do.
    let mut storage = ChunkStorage::<u8>::new(PaletteStorageImpl::new());
    let n = CHUNK_LENGTH as i32;
    for x in 1..n - 1 {
        for y in 1..n - 1 {
            for z in 1..n - 1 {
                storage.set(Index::new(x, y, z).unwrap(), 1u8);
            }
        }
    }
    for x in 1..n - 1 {
        for y in 1..n - 1 {
            for z in 1..n - 1 {
                let interior = x > 1 && x < n - 2 && y > 1 && y < n - 2 && z > 1 && z < n - 2;
                for face in Facing::iter_all() {
                    let visible = face_visible(&storage, x, y, z, face);
                    if interior {
                        assert!(!visible);
                    }
                }
                if !interior {
                    // at least one neighbor lies on the empty surface
                    let mut any = false;
                    for face in Facing::iter_all() {
                        any = any || face_visible(&storage, x, y, z, face);
                    }
                    assert!(any);
                }
            }
        }
    }
    // on the chunk border, faces towards the outside count as visible
    assert!(face_visible(&storage, 0, 0, 0, Facing::West));
    assert!(face_visible(&storage, 15, 15, 15, Facing::East));
}

#[test]
fn chunk_get_set() {
    let mut storage = ChunkStorage::<u8>::new(PaletteStorageImpl::new_with_capacity(8));
    let idx = Index::new(4, 8, 10).unwrap();
    assert_eq!(storage.get(idx), 0);
    storage.set(idx, 100u8);
    assert_eq!(storage.get(idx), 100u8);
    let idx2 = Index::new(8, 14, 12).unwrap();
    storage.set(idx2, 50u8);
    assert_eq!(storage.get(idx2), 50u8);
    storage.set(idx, 0u8);
    assert_eq!(storage.get(idx), 0u8);
}
