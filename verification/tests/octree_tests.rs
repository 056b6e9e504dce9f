use bloxel::chunked_octree::ChunkedOctree;
use bloxel::z_order::ZOrder;

const EXISTS: u8 = 0b001;

fn set_exists(state: u8) -> u8 {
    state | EXISTS
}

fn bubble_or(_level: u8, children: [u8; 8], parent: u8) -> (u8, bool) {
    let mut mask = 0u8;
    for c in children {
        mask |= c;
    }
    if parent & mask == mask {
        (parent, false)
    } else {
        (parent | mask, true)
    }
}

/// Squared distance from the origin to the nearest corner of the node's
/// cube, in leaf units; a lower bound for all its leaves' distances.
fn weight(level: u8, pos: ZOrder<i64>) -> Option<u64> {
    let scaled = pos.shl(level as usize);
    let (mut x, mut y, mut z) = scaled.into();
    if x < 0 {
        x += 1 << level;
    }
    if y < 0 {
        y += 1 << level;
    }
    if z < 0 {
        z += 1 << level;
    }
    let (x, y, z) = (x as i64, y as i64, z as i64);
    Some((x * x + y * y + z * z) as u64)
}

#[test]
fn octree_nearest_first() {
    let mut octree = ChunkedOctree::<u8>::new(5);
    for (x, y, z) in [(0, 0, 0), (3, 0, 0), (0, 2, 0), (0, 0, 5)] {
        let pos = ZOrder::<i64>::new(x, y, z).unwrap();
        octree.update(pos, set_exists, bubble_or);
    }

    // Nothing exists that lacks the EXISTS bit.
    let mut it = octree
        .find(weight, |state: &u8| *state & EXISTS == 0)
        .search(ZOrder::<i64>::new(0, 0, 0).unwrap());
    assert_eq!(it.next(), None);

    // With the filter flipped, the four updated chunks come out
    // nearest-first.
    let mut it = octree
        .find(weight, |state: &u8| *state & EXISTS != 0)
        .search(ZOrder::<i64>::new(0, 0, 0).unwrap());
    let mut found = Vec::new();
    while let Some((pos, w)) = it.next() {
        found.push((pos.into(), w));
    }
    assert_eq!(
        found,
        vec![
            ((0, 0, 0), 0),
            ((0, 2, 0), 4),
            ((3, 0, 0), 9),
            ((0, 0, 5), 25),
        ]
    );
}

#[test]
fn octree_get_and_bubble() {
    let mut octree = ChunkedOctree::<u8>::new(3);
    let pos = ZOrder::<i64>::new(5, 2, 7).unwrap();
    assert_eq!(octree.get(0, pos), 0);
    octree.update(pos, set_exists, bubble_or);
    assert_eq!(octree.get(0, pos), EXISTS);
    // the update bubbled to every ancestor, up to the region root
    assert_eq!(octree.get(1, ZOrder::<i64>::new(2, 1, 3).unwrap()), EXISTS);
    assert_eq!(octree.get(2, ZOrder::<i64>::new(1, 0, 1).unwrap()), EXISTS);
    assert_eq!(octree.get(3, ZOrder::<i64>::new(0, 0, 0).unwrap()), EXISTS);
    // untouched nodes still read the default
    assert_eq!(octree.get(0, ZOrder::<i64>::new(5, 2, 6).unwrap()), 0);
    assert_eq!(octree.get(1, ZOrder::<i64>::new(3, 1, 3).unwrap()), 0);
}

#[test]
fn octree_idempotent_or_bubble() {
    // Applying an OR-style update twice leaves the octree as after once.
    let mut once = ChunkedOctree::<u8>::new(4);
    let mut twice = ChunkedOctree::<u8>::new(4);
    let pos = ZOrder::<i64>::new(-3, 9, 14).unwrap();
    once.update(pos, set_exists, bubble_or);
    twice.update(pos, set_exists, bubble_or);
    twice.update(pos, set_exists, bubble_or);
    for level in 0..=4u8 {
        let p = pos.shr(level as usize);
        assert_eq!(once.get(level, p), twice.get(level, p));
        assert_eq!(once.get(level, p.inc_x()), twice.get(level, p.inc_x()));
    }
}

#[test]
fn octree_negative_coordinates() {
    let mut octree = ChunkedOctree::<u8>::new(5);
    let pos = ZOrder::<i64>::new(-1, -2, -3).unwrap();
    octree.update(pos, set_exists, bubble_or);
    assert_eq!(octree.get(0, pos), EXISTS);
    assert_eq!(octree.get(0, ZOrder::<i64>::new(-1, -2, -4).unwrap()), 0);
    let mut it = octree
        .find(weight, |state: &u8| *state & EXISTS != 0)
        .search(ZOrder::<i64>::new(0, 0, 0).unwrap());
    let (p, w) = it.next().unwrap();
    assert_eq!(p.into(), (-1, -2, -3));
    // the nearest corner of the cell spanning [-1,0) x [-2,-1) x [-3,-2)
    assert_eq!(w, 0 + 1 + 4);
    assert_eq!(it.next(), None);
}

#[test]
fn octree_prune_skips_filtered_subtrees() {
    // A node whose aggregate fails the filter hides its whole subtree.
    const SEEN: u8 = 0b010;
    let mut octree = ChunkedOctree::<u8>::new(4);
    let a = ZOrder::<i64>::new(0, 0, 0).unwrap();
    let b = ZOrder::<i64>::new(9, 0, 0).unwrap();
    octree.update(a, |s| s | EXISTS, bubble_or);
    octree.update(b, |s| s | SEEN, bubble_or);
    // Ask for leaves under the EXISTS aggregate: `b`'s branch carries only
    // SEEN, so it is pruned at the first ancestor off `a`'s path.
    let mut it = octree
        .find(weight, |state: &u8| *state & EXISTS != 0)
        .search(ZOrder::<i64>::new(0, 0, 0).unwrap());
    let mut found = Vec::new();
    while let Some((pos, _)) = it.next() {
        found.push(pos.into());
    }
    assert_eq!(found, vec![(0, 0, 0)]);
}
