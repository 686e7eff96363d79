use yata_reader::layout::memory::{Region, RegionKind};
use yata_reader::platform::{
    bitness_of, region_of, unix_ms, Bitness, FILETIME_UNIX_EPOCH, READ_ACCESS,
};

#[test]
fn the_game_is_opened_with_query_and_read_rights_only() {
    assert_eq!(READ_ACCESS, 0x1010);
}

#[test]
fn only_committed_readable_unguarded_regions_are_read() {
    assert_eq!(
        region_of(0x1_0000, 0x2000, 0x1000, 0x04, 0x2_0000),
        Some(Region {
            base: 0x1_0000,
            size: 0x2000,
            kind: RegionKind::Private,
            writable: true
        })
    );
    assert_eq!(
        region_of(0x1_0000, 0x2000, 0x1000, 0x20, 0x100_0000).map(|r| (r.kind, r.writable)),
        Some((RegionKind::Image, false))
    );
    assert_eq!(
        region_of(0x1_0000, 0x2000, 0x1000, 0x02, 0x4_0000).map(|r| r.kind),
        Some(RegionKind::Mapped)
    );
    // Reserved, not readable, or a guard page.
    assert_eq!(region_of(0x1_0000, 0x2000, 0x2000, 0x04, 0x2_0000), None);
    assert_eq!(region_of(0x1_0000, 0x2000, 0x1000, 0x01, 0x2_0000), None);
    assert_eq!(region_of(0x1_0000, 0x2000, 0x1000, 0x104, 0x2_0000), None);
}

#[test]
fn a_process_under_wow64_is_32_bit() {
    assert_eq!(bitness_of(0), Bitness::Bits64);
    assert_eq!(bitness_of(0x14c), Bitness::Bits32);
}

#[test]
fn creation_times_count_from_the_unix_epoch() {
    let epoch = FILETIME_UNIX_EPOCH;
    assert_eq!(unix_ms((epoch >> 32) as u32, epoch as u32), Some(0));
    let later = epoch + 12_345 * 10_000;
    assert_eq!(unix_ms((later >> 32) as u32, later as u32), Some(12_345));
    assert_eq!(unix_ms(0, 0), None);
}
