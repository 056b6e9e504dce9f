use bloxel::palette_store::{PaletteStore, DEFAULT_CAPACITY};

#[test]
fn palette_entry_checks() {
    let mut storage = PaletteStore::<u8>::new(16);

    // When initializing with `new`, no additional data is allocated.
    assert!(storage.entries.is_empty());
    assert_eq!(storage.free_entries(), 0);
    assert_eq!(storage.used_entries(), 0);

    // Setting an element to the default value does not allocate data, either.
    storage.set(0, 0u8).unwrap();
    assert_eq!(storage.get(0).unwrap(), 0u8);
    assert!(storage.entries.is_empty());

    storage.set(0, 1u8).unwrap();
    assert_eq!(storage.get(0).unwrap(), 1u8);
    assert_eq!(storage.get(1).unwrap(), 0u8); // Sanity check: Element 1 should still be value 0u8.
    assert_eq!(storage.entries.len(), DEFAULT_CAPACITY);
    assert_eq!(storage.entries[0].value, 0u8);
    assert_eq!(storage.entries[0].ref_count, 15);
    assert_eq!(storage.entries[1].value, 1u8);
    assert_eq!(storage.entries[1].ref_count, 1);

    // Fill storage so its element layout will be:
    // 1 2 3 4  5 6 7 8  9 10 11 12  13 14 15 16
    for i in 1..16 {
        storage.set(i, i as u8 + 1).unwrap();
    }

    // The default entry will not be re-used even if its `ref_count` goes to zero.
    assert_eq!(storage.entries[0].value, 0u8);
    assert_eq!(storage.entries[0].ref_count, 0);

    for i in 0..16 {
        assert_eq!(storage.get(i).unwrap(), i as u8 + 1);
        assert_eq!(storage.entries[i + 1].value, i as u8 + 1);
        assert_eq!(storage.entries[i + 1].ref_count, 1);
    }

    // Fill storage so its element layout will be:
    // 1 1 1 1  1 1 1 1  1 1 1 1  1 1 1 1
    for i in 0..16 {
        storage.set(i, 1u8).unwrap();
    }

    // Default entry should stay untouched.
    assert_eq!(storage.entries[0].value, 0u8);
    assert_eq!(storage.entries[0].ref_count, 0);

    // Second entry should now take up the entire storage.
    assert_eq!(storage.entries[1].value, 1u8);
    assert_eq!(storage.entries[1].ref_count, 16);

    // Third entry's value should have been set back to the default.
    assert_eq!(storage.entries[2].value, 0u8);
    assert_eq!(storage.entries[2].ref_count, 0);

    // Reset storage so its element layout will be:
    // 0 0 0 0  0 0 0 0  0 0 0 0  0 0 0 0
    for i in 0..16 {
        storage.set(i, 0u8).unwrap();
    }

    // Default entry should once again take up the entire storage.
    assert_eq!(storage.entries[0].value, 0u8);
    assert_eq!(storage.entries[0].ref_count, 16);

    // Second entry's value should have been set back to the default.
    assert_eq!(storage.entries[1].value, 0u8);
    assert_eq!(storage.entries[1].ref_count, 0);
}

#[test]
fn bits_layout_in_memory() {
    let mut storage = PaletteStore::<i32>::with_capacity(8, 8);
    // Element:                              7   6   5   4   3   2   1   0
    // Bit buffer at three bits per slot: 0b000_000_000_000_000_000_000_000
    assert_eq!(storage.bits_per_entry(), 3);
    for i in 0..8 {
        assert_eq!(storage.get_palette_index(i), 0);
    }

    // Fill out all palette entries.
    for i in 0..8 {
        storage.set(i, i as i32 * 32).unwrap();
    }
    // Element:                              7   6   5   4   3   2   1   0
    // Bit buffer at three bits per slot: 0b111_110_101_100_011_010_001_000
    assert_eq!(storage.bits_per_entry(), 3);
    for i in 0..8 {
        assert_eq!(storage.get_palette_index(i), i);
    }

    // Add yet another, new palette entry, causing palettes to resize.
    storage.set(0, i32::MAX).unwrap();
    // Element:                              7    6    5    4    3    2    1    0
    // Bit buffer at four bits per slot: 0b0111_0110_0101_0100_0011_0010_0001_1000
    assert_eq!(storage.bits_per_entry(), 4);
    assert_eq!(storage.get_palette_index(0), 0b1000);
    for i in 1..8 {
        assert_eq!(storage.get_palette_index(i), i);
    }

    // Unuse all palette entries but 3 (including the default).
    for i in &[0usize, 1, 3, 4, 6, 7] {
        storage.set(*i, 0).unwrap();
    }
    // Element:                              7    6    5    4    3    2    1    0
    // Bit buffer at four bits per slot: 0b0000_0000_0101_0000_0000_0010_0000_0000
    let expected: [usize; 8] = [0, 0, 0b0010, 0, 0, 0b0101, 0, 0];
    for i in 0..8 {
        assert_eq!(storage.get_palette_index(i), expected[i]);
    }

    // Shrink palette to fit 4 entries (2 bits each).
    storage.set_bits_per_entry(2);
    // Previous palette entry 2 (0010) should now be 1 (01),
    //                    and 5 (0101) should now be 2 (10).
    // Element:                            7  6  5  4  3  2  1  0
    // Bit buffer at two bits per slot: 0b00_00_10_00_00_01_00_00
    assert_eq!(storage.bits_per_entry(), 2);
    let expected2: [usize; 8] = [0, 0, 0b01, 0, 0, 0b10, 0, 0];
    for i in 0..8 {
        assert_eq!(storage.get_palette_index(i), expected2[i]);
    }
}

#[test]
fn palette_roundtrip() {
    let mut store = PaletteStore::<u8>::new(16);
    assert_eq!(store.get(8).unwrap(), 0u8);

    store.set(8, 100u8).unwrap();
    store.set(12, 50u8).unwrap();
    assert_eq!(store.get(8).unwrap(), 100u8);
    assert_eq!(store.get(12).unwrap(), 50u8);

    store.set(12, 0u8).unwrap();
    assert_eq!(store.get(12).unwrap(), 0u8);

    assert!(store.get(16).is_err());
    assert!(store.set(20, 0u8).is_err());
}

#[test]
fn palette_matches_plain_vector() {
    // The store behaves like a plain vector of its size, whatever is written.
    let mut store = PaletteStore::<u16>::new(40);
    let mut mirror = vec![0u16; 40];
    let writes: [(usize, u16); 12] = [
        (0, 7),
        (39, 7),
        (1, 9),
        (0, 0),
        (2, 9),
        (1, 1000),
        (3, 9),
        (39, 9),
        (0, 7),
        (2, 0),
        (1, 1000),
        (38, 65535),
    ];
    for (i, v) in writes {
        store.set(i, v).unwrap();
        mirror[i] = v;
        for k in 0..40 {
            assert_eq!(store.get(k).unwrap(), mirror[k]);
        }
    }
}

#[test]
fn palette_growth_only_in_set() {
    // The index width never shrinks during writes, and grows once the
    // distinct values outgrow the palette.
    let mut store = PaletteStore::<u32>::new(64);
    assert_eq!(store.bits_per_entry(), 0);
    store.set(0, 5).unwrap();
    assert_eq!(store.bits_per_entry(), 5);
    assert_eq!(store.capacity(), 32);
    let mut last = store.bits_per_entry();
    for i in 0..64 {
        store.set(i, 1000 + i as u32).unwrap();
        assert!(store.bits_per_entry() >= last);
        last = store.bits_per_entry();
    }
    // 64 distinct values plus the default need more than 32 entries.
    assert_eq!(store.bits_per_entry(), 7);
    for i in 0..64 {
        assert_eq!(store.get(i).unwrap(), 1000 + i as u32);
    }
}

#[test]
fn palette_capacity_invariants_sample() {
    let mut store = PaletteStore::<u8>::new(16);
    for i in 0..16 {
        store.set(i, (i % 5) as u8).unwrap();
        // used entries never outnumber allocated ones
        assert!(store.used_entries() <= store.capacity());
        // reference counts sum to the store's size once a palette exists
        if !store.entries.is_empty() {
            let total: usize = store.entries.iter().map(|e| e.ref_count).sum();
            assert_eq!(total, 16);
        }
        // the palette is empty or a power of two
        assert!(store.capacity() == 0 || store.capacity().is_power_of_two());
    }
}
