use yata_reader::layout::memory::{Cached, Image, Memory, Overlap, RegionKind, BLOCK};

fn image() -> Image {
    let mut m = Image::new();
    m.add(0x2_0000, RegionKind::Private, true, (0..=255).collect())
        .expect("disjoint");
    m.add(0x1_0000, RegionKind::Image, false, vec![7; 16])
        .expect("disjoint");
    m
}

#[test]
fn regions_are_kept_in_address_order() {
    let m = image();
    let bases: Vec<u64> = m.regions().iter().map(|r| r.base).collect();
    assert_eq!(bases, vec![0x1_0000, 0x2_0000]);
}

#[test]
fn a_read_is_whole_or_unreadable() {
    let m = image();
    assert_eq!(m.read_vec(0x2_0002, 3), Ok(vec![2, 3, 4]));
    assert_eq!(m.read_u32(0x2_0000), Ok(0x0302_0100));
    assert!(m.read_vec(0x2_00fe, 4).is_err());
    assert!(m.read_vec(0x9_0000, 1).is_err());
}

#[test]
fn a_cached_read_matches_the_memory_it_caches() {
    let mut m = Image::new();
    let bytes: Vec<u8> = (0..(BLOCK as usize * 2 + 100)).map(|i| i as u8).collect();
    m.add(0x10_0000, RegionKind::Private, true, bytes.clone())
        .expect("disjoint");
    let c = Cached::new(m);
    let across = 0x10_0000 + BLOCK - 3;
    assert_eq!(
        c.read_vec(across, 8),
        Ok(bytes[BLOCK as usize - 3..BLOCK as usize + 5].to_vec())
    );
    let tail = 0x10_0000 + 2 * BLOCK + 90;
    assert_eq!(c.read_vec(tail, 10), Ok(bytes[bytes.len() - 10..].to_vec()));
    assert!(c.read_vec(tail, 11).is_err());
}

#[test]
fn a_region_that_is_only_page_aligned_is_cached_from_its_own_start() {
    // A region starting 4 KiB past a block boundary, right after an unreadable gap: a block
    // counted from the boundary would begin in the gap and fail.
    let mut m = Image::new();
    let base = 0x7fff_0000_1000;
    let bytes: Vec<u8> = (0..3 * BLOCK as usize).map(|i| (i / 7) as u8).collect();
    m.add(base, RegionKind::Image, true, bytes.clone())
        .expect("disjoint");
    let c = Cached::new(m);
    for at in [0, 8, BLOCK - 4, BLOCK, 2 * BLOCK + 100] {
        let i = at as usize;
        assert_eq!(
            c.read_vec(base + at, 16),
            Ok(bytes[i..i + 16].to_vec()),
            "{at}"
        );
    }
    assert!(c.read_vec(base - 8, 8).is_err());
}

#[test]
fn an_overlapping_region_is_refused_and_nothing_changes() {
    let mut m = image();
    assert_eq!(
        m.add(0x2_0080, RegionKind::Private, true, vec![1; 4]),
        Err(Overlap { base: 0x2_0080, size: 4 })
    );
    assert_eq!(m.regions().len(), 2);
    assert_eq!(
        m.add(u64::MAX - 2, RegionKind::Private, true, vec![1; 4]),
        Err(Overlap { base: u64::MAX - 2, size: 4 })
    );
}

#[test]
fn a_cached_read_runs_on_into_a_region_that_touches_it() {
    // Two regions that touch: the image refuses a read across the edge, and the cache reads
    // block by block, so it reads on from the first into the second.
    let mut m = Image::new();
    m.add(0x10_0000, RegionKind::Private, true, vec![1; 16])
        .expect("disjoint");
    m.add(0x10_0010, RegionKind::Private, true, vec![2; 16])
        .expect("disjoint");
    assert!(m.read_vec(0x10_000c, 8).is_err());
    let c = Cached::new(m);
    assert_eq!(c.read_vec(0x10_000c, 8), Ok(vec![1, 1, 1, 1, 2, 2, 2, 2]));
    assert_eq!(c.inner().regions().len(), 2);
}

#[test]
fn a_region_ends_where_its_size_says() {
    let m = image();
    let r = m.regions()[1];
    assert_eq!(r.end(), 0x2_0100);
    assert!(r.contains(0x2_00ff));
    assert!(!r.contains(0x2_0100));
    assert!(!r.contains(0x1_ffff));
}

#[test]
fn an_empty_region_shares_no_byte_with_one_at_its_base() {
    let mut m = Image::new();
    m.add(0x1_0000, RegionKind::Private, true, Vec::new())
        .expect("an empty region");
    m.add(0x1_0000, RegionKind::Private, true, vec![1; 16])
        .expect("no byte in common");
    m.add(0x2_0000, RegionKind::Private, true, vec![2; 16])
        .expect("disjoint");
    m.add(0x2_0000, RegionKind::Private, true, Vec::new())
        .expect("an empty region before one at its base");
    let regions: Vec<(u64, u64)> = m.regions().iter().map(|r| (r.base, r.size)).collect();
    assert_eq!(
        regions,
        vec![(0x1_0000, 0), (0x1_0000, 16), (0x2_0000, 0), (0x2_0000, 16)]
    );
    assert_eq!(m.read_vec(0x1_0004, 4), Ok(vec![1; 4]));
    assert_eq!(
        m.add(0x1_000f, RegionKind::Private, true, vec![3; 2]),
        Err(Overlap { base: 0x1_000f, size: 2 })
    );
}

#[test]
fn a_failed_read_leaves_the_buffer_as_it_was() {
    let mut m = Image::new();
    let bytes: Vec<u8> = (0..(BLOCK as usize * 2 + 100)).map(|i| i as u8).collect();
    m.add(0x10_0000, RegionKind::Private, true, bytes)
        .expect("disjoint");
    let tail = 0x10_0000 + 2 * BLOCK + 90;
    let mut buf = vec![0u8; 11];
    assert!(m.read_into(tail, &mut buf).is_err());
    assert_eq!(buf, vec![0u8; 11]);
    let c = Cached::new(m);
    assert!(c.read_into(tail, &mut buf).is_err());
    assert_eq!(buf, vec![0u8; 11]);
}
