use yata_reader::layout::cpython::{discover, Cancelled, DictKeys};
use yata_reader::layout::fixture::{inventory, IDS};
use yata_reader::layout::memory::{Cached, Image};
use yata_reader::layout::souls::{read_souls, scale, Checked, PROGRESS_TOTAL};
use yata_reader::probe::{
    Coverage, Evidence, RawValue, Reading, Records, SoulMappings, SoulRecords,
};

fn never() -> bool {
    false
}

fn read(keys: DictKeys) -> (Reading, Vec<(u64, u64)>) {
    let image = inventory(keys).expect("disjoint");
    let rt = discover(&image).expect("discovered");
    let mut seen: Vec<(u64, u64)> = Vec::new();
    let result = read_souls(&image, &rt, &mut seen, &never).expect("read");
    (result, seen)
}

fn souls(r: &Reading) -> &SoulRecords {
    let Records::Souls(s) = &r.records;
    s
}

fn text(v: &Option<RawValue>) -> Option<&str> {
    match v {
        Some(RawValue::Text(t)) => Some(t),
        _ => None,
    }
}

#[test]
fn the_souls_are_found_container_first_with_their_keys() {
    for keys in [DictKeys::Sized, DictKeys::Logged] {
        let (result, _) = read(keys);
        let s = souls(&result);
        assert_eq!(s.souls.len(), 4, "three in the container, one outside");
        let keys: Vec<Option<&str>> = s
            .souls
            .iter()
            .map(|r| text(&r.observed.as_ref().expect("observed").container_key))
            .collect();
        assert_eq!(keys, vec![Some(IDS[0]), Some(IDS[1]), Some(IDS[2]), None]);
    }
}

#[test]
fn every_entry_is_kept_and_no_typed_field_is_filled() {
    let (result, _) = read(DictKeys::Logged);
    let s = souls(&result);
    let first = &s.souls[0];
    assert_eq!(first.soul_id, None);
    assert_eq!(first.suit_code, None);
    assert_eq!(first.star, None);
    assert_eq!(first.main, None);
    assert_eq!(first.subs, None);
    assert_eq!(first.innate, None);
    let observed = first.observed.as_ref().expect("observed");
    assert_eq!(observed.type_label, "dict");
    let names: Vec<&str> = observed
        .entries
        .iter()
        .filter_map(|e| match &e.key {
            RawValue::Text(t) => Some(t.as_str()),
            _ => None,
        })
        .collect();
    assert_eq!(
        names,
        vec![
            "base_rindex",
            "rattr",
            "single_attr",
            "others",
            "sattr",
            "base_r"
        ]
    );
    // The first soul's third entry holds None, the second soul's an integer.
    assert_eq!(observed.entries[2].value, RawValue::Null);
    let second = s.souls[1].observed.as_ref().expect("observed");
    assert_eq!(second.entries[2].value, RawValue::Integer(7));
}

#[test]
fn the_reading_states_the_recognition_rule_as_inherited_and_maps_no_field() {
    let (result, _) = read(DictKeys::Logged);
    let s = souls(&result);
    assert_eq!(s.recognition, Evidence::Inherited);
    assert_eq!(s.mappings, SoulMappings::default());
    assert_eq!(result.coverage, Coverage::Partial);
    assert_eq!(result.observed_account_id, None);
    let stats = result.stats;
    assert_eq!(stats.regions_scanned, 1);
    assert_eq!(stats.regions_unreadable, 0);
    // The dict of texts under marker keys.
    assert_eq!(stats.candidates_rejected, 1);
    assert!(stats.bytes_scanned > 0);
}

#[test]
fn progress_only_grows_and_ends_at_the_total() {
    let (_, seen) = read(DictKeys::Logged);
    assert!(seen.windows(2).all(|w| w[0].0 < w[1].0));
    assert_eq!(seen.last(), Some(&(PROGRESS_TOTAL, PROGRESS_TOTAL)));
    assert!(seen.iter().all(|&(_, t)| t == PROGRESS_TOTAL));
}

#[test]
fn a_cancelled_read_stops_at_a_checkpoint() {
    let image = inventory(DictKeys::Logged).expect("disjoint");
    let rt = discover(&image).expect("discovered");
    let mut seen: Vec<(u64, u64)> = Vec::new();
    assert_eq!(
        read_souls(&image, &rt, &mut seen, &|| true),
        Err(Cancelled)
    );
    assert!(seen.iter().all(|&(d, t)| d < PROGRESS_TOTAL && t == PROGRESS_TOTAL));
}

#[test]
fn a_cached_memory_reads_the_same_souls() {
    let image = inventory(DictKeys::Sized).expect("disjoint");
    let rt = discover(&image).expect("discovered");
    let mut seen: Vec<(u64, u64)> = Vec::new();
    let plain = read_souls(&image, &rt, &mut seen, &never).expect("read");
    let cached: Cached<Image> = Cached::new(inventory(DictKeys::Sized).expect("disjoint"));
    let mut again: Vec<(u64, u64)> = Vec::new();
    let through = read_souls(&cached, &rt, &mut again, &never).expect("read");
    assert_eq!(plain, through);
    assert_eq!(seen, again);
}

#[test]
fn progress_is_scaled_and_rounded_down() {
    assert_eq!(scale(0, 10, 400, 700), 400);
    assert_eq!(scale(5, 10, 400, 700), 550);
    assert_eq!(scale(1, 3, 0, 400), 133);
    assert_eq!(scale(20, 10, 400, 700), 700);
    assert_eq!(scale(3, 0, 700, 1000), 1000);
}

#[test]
fn the_checked_keys_are_named_exactly() {
    assert_eq!(Checked::of("base_rindex"), Some(Checked::BaseRindex));
    assert_eq!(Checked::of("base_r"), Some(Checked::BaseR));
    assert_eq!(Checked::of("Base_r"), None);
    assert_eq!(Checked::of("others "), None);
    assert!(Checked::of("sattr").expect("checked").is_marker());
    assert!(!Checked::BaseR.is_marker());
}
