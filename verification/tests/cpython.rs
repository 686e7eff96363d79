use yata_reader::layout::cpython::{
    c_string, discover, index_log2, plausible_pointer, Bad, Builtin, Cancelled, Decoder, DictKeys,
    LayoutError, Runtime,
};
use yata_reader::layout::limits::MAX_ITEMS;
use yata_reader::layout::memory::{Image, RegionKind};
use yata_reader::layout::scan::{scan, Chunk, Needle, Pick, Watch};
use yata_reader::layout::synthetic::{Builder, HEAP_BASE};
use yata_reader::probe::{RawEntry, RawValue, SequenceKind, UnreadReason};

fn runtime(b: Builder) -> (Image, Runtime) {
    let image = b.finish().expect("disjoint");
    let rt = discover(&image).expect("a synthetic runtime is discovered");
    (image, rt)
}

fn reason(v: &RawValue) -> UnreadReason {
    match v {
        RawValue::Unread { reason, .. } => *reason,
        other => panic!("expected unread, got {other:?}"),
    }
}

#[test]
fn discovery_finds_every_builtin_and_the_key_shape() {
    for keys in [DictKeys::Sized, DictKeys::Logged] {
        let b = Builder::new(keys);
        let expected = (
            b.type_type(),
            b.ty(Builtin::Dict),
            b.ty(Builtin::Str),
            b.ty(Builtin::NoneType),
        );
        let (_, rt) = runtime(b);
        assert_eq!((rt.type_type, rt.dict, rt.str_, rt.none_type), expected);
        assert_eq!(rt.keys, keys);
    }
}

/// A watcher that stops every scan at its first checkpoint.
struct Refuse;

impl Watch<()> for Refuse {
    type Origin = ();

    fn proceed(&mut self, _sink: &mut ()) -> bool {
        false
    }

    fn chunk(&mut self, _c: Chunk, _sink: &mut ()) {}
}

/// A watcher that lets a scan run and keeps what it hears of each chunk.
struct Regions(Vec<(usize, bool)>);

impl Watch<()> for Regions {
    type Origin = ();

    fn proceed(&mut self, _sink: &mut ()) -> bool {
        true
    }

    fn chunk(&mut self, c: Chunk, _sink: &mut ()) {
        self.0.push((c.region, c.readable));
    }
}

#[test]
fn a_scan_stops_at_the_checkpoints_error_and_counts_regions() {
    let image = Builder::new(DictKeys::Logged).finish().expect("disjoint");
    assert_eq!(
        scan(&image, Pick::Any, Needle::Every, &mut Refuse, &mut ()),
        Err(Cancelled)
    );
    let mut regions = Regions(Vec::new());
    let hits = scan(&image, Pick::Any, Needle::Nothing, &mut regions, &mut ());
    assert_eq!(hits, Ok(vec![]));
    assert_eq!(regions.0, vec![(0, true), (1, true)]);
}

#[test]
fn the_engine_names_the_key_shape() {
    let (_, rt) = runtime(Builder::new(DictKeys::Logged));
    assert_eq!(rt.engine(), "cpython-3.11");
    let (_, rt) = runtime(Builder::new(DictKeys::Sized));
    assert_eq!(rt.engine(), "cpython-3.6-3.10");
}

#[test]
fn memory_with_no_runtime_is_a_layout_mismatch() {
    let mut m = Image::new();
    m.add(0x1_4000_0000, RegionKind::Image, false, vec![0x5a; 4096])
        .expect("disjoint");
    assert_eq!(discover(&m), Err(LayoutError::TypeObject { found: 0 }));
}

#[test]
fn a_str_of_another_size_is_a_layout_mismatch() {
    let mut b = Builder::new(DictKeys::Logged);
    // 3.12 removed the wide-character field and shrank str to 64 bytes.
    let str_type = b.ty(Builtin::Str);
    b.put_u64(str_type + 32, 64);
    let image = b.finish().expect("disjoint");
    assert_eq!(
        discover(&image),
        Err(LayoutError::Size {
            builtin: Builtin::Str,
            basic: 64,
            item: 0
        })
    );
}

#[test]
fn scalars_decode_to_their_kinds() {
    let mut b = Builder::new(DictKeys::Logged);
    let values = [
        b.integer(0),
        b.integer(-7),
        b.integer(i64::MAX),
        b.integer(i64::MIN + 1),
        b.float_bits(2.5f64.to_bits()),
        b.boolean(true),
        b.boolean(false),
        b.none(),
    ];
    let (m, rt) = runtime(b);
    let mut d = Decoder::new(&m, &rt);
    let got: Vec<RawValue> = values.iter().map(|&v| d.value(v, 1)).collect();
    assert_eq!(
        got,
        vec![
            RawValue::Integer(0),
            RawValue::Integer(-7),
            RawValue::Integer(i64::MAX),
            RawValue::Integer(i64::MIN + 1),
            RawValue::Float(2.5f64.to_bits()),
            RawValue::Boolean(true),
            RawValue::Boolean(false),
            RawValue::Null,
        ]
    );
}

#[test]
fn text_decodes_in_each_width() {
    let mut b = Builder::new(DictKeys::Sized);
    let samples = ["base", "café", "御魂", "𝄞 clef", ""];
    let at: Vec<u64> = samples.iter().map(|s| b.str(s)).collect();
    let (m, rt) = runtime(b);
    let d = Decoder::new(&m, &rt);
    for (s, a) in samples.iter().zip(at) {
        assert_eq!(d.text(a).as_deref(), Ok(*s));
    }
}

#[test]
fn an_integer_beyond_64_bits_is_out_of_range() {
    let mut b = Builder::new(DictKeys::Logged);
    let big = b.int_digits(&[0, 0, 1 << 20], false);
    let four = b.int_digits(&[1, 1, 1, 1], true);
    let bad_digit = b.int_digits(&[1 << 30], false);
    let (m, rt) = runtime(b);
    let mut d = Decoder::new(&m, &rt);
    assert_eq!(reason(&d.value(big, 1)), UnreadReason::OutOfRange);
    assert_eq!(reason(&d.value(four, 1)), UnreadReason::OutOfRange);
    assert_eq!(reason(&d.value(bad_digit, 1)), UnreadReason::Malformed);
}

#[test]
fn containers_decode_to_the_depth_limit() {
    for keys in [DictKeys::Sized, DictKeys::Logged] {
        let mut b = Builder::new(keys);
        let one = b.integer(1);
        let inner = b.tuple(&[one]);
        let list = b.list(&[inner, one]);
        let k = b.str("k");
        let map = b.dict(&[(k, list)]);
        let (m, rt) = runtime(b);
        let mut d = Decoder::new(&m, &rt);
        let RawValue::Mapping {
            entries,
            full_length,
        } = d.value(map, 3)
        else {
            panic!("mapping")
        };
        assert_eq!(full_length, None);
        let entry = &entries[0];
        assert_eq!(entry.key, RawValue::Text("k".into()));
        let RawValue::Sequence {
            kind,
            items,
            full_length,
        } = &entry.value
        else {
            panic!("sequence")
        };
        assert_eq!(*kind, SequenceKind::List);
        assert_eq!(items.len(), 2);
        assert_eq!(*full_length, None);
        let RawValue::Sequence { kind, items: t, .. } = &items[0] else {
            panic!("tuple")
        };
        assert_eq!(*kind, SequenceKind::Tuple);
        assert_eq!(t.len(), 1);
        // One level less and the tuple is past the limit.
        let RawValue::Mapping { entries, .. } = d.value(map, 2) else {
            panic!("mapping")
        };
        let RawValue::Sequence { items, .. } = &entries[0].value else {
            panic!("sequence")
        };
        assert_eq!(reason(&items[0]), UnreadReason::DepthLimit);
    }
}

#[test]
fn a_long_sequence_is_cut_and_keeps_its_length() {
    let mut b = Builder::new(DictKeys::Logged);
    let items: Vec<u64> = (0..100).map(|i| b.integer(i)).collect();
    let list = b.list(&items);
    let (m, rt) = runtime(b);
    let mut d = Decoder::new(&m, &rt);
    let RawValue::Sequence {
        items, full_length, ..
    } = d.value(list, 1)
    else {
        panic!("sequence")
    };
    assert_eq!(items.len(), MAX_ITEMS);
    assert_eq!(full_length, Some(100));
}

#[test]
fn deleted_dict_entries_are_skipped() {
    for keys in [DictKeys::Sized, DictKeys::Logged] {
        let mut b = Builder::new(keys);
        let (a, c, one, two) = (b.str("a"), b.str("c"), b.integer(1), b.integer(2));
        let map = b.dict(&[(a, one), (0, 0), (c, two)]);
        let (m, rt) = runtime(b);
        let d = Decoder::new(&m, &rt);
        let (items, used) = d.dict_items(map).expect("a dict");
        assert_eq!(items, vec![(a, one), (c, two)]);
        assert_eq!(used, 2);
    }
}

#[test]
fn an_unknown_kind_is_unread_with_its_type_name() {
    let mut b = Builder::new(DictKeys::Logged);
    let obj = b.foreign("SoulView");
    let again = b.foreign("SoulView");
    let (m, rt) = runtime(b);
    let mut d = Decoder::new(&m, &rt);
    let v = d.value(obj, 1);
    assert_eq!(
        v,
        RawValue::Unread {
            type_label: Some("SoulView".to_owned()),
            reason: UnreadReason::UnknownKind
        }
    );
    // A second instance shares the first one's type.
    assert_eq!(d.type_of(obj), d.type_of(again));
}

#[test]
fn garbage_is_malformed_and_missing_memory_unreadable() {
    let mut b = Builder::new(DictKeys::Logged);
    let bad = b.integer(5);
    // A reference count of zero: a freed object.
    b.put_u64(bad, 0);
    let (m, rt) = runtime(b);
    let mut d = Decoder::new(&m, &rt);
    assert_eq!(reason(&d.value(bad, 1)), UnreadReason::Malformed);
    // Nothing is known of the type of an object whose header is not one.
    assert_eq!(
        d.value(3, 1),
        RawValue::Unread {
            type_label: None,
            reason: UnreadReason::Malformed
        }
    );
    assert_eq!(
        reason(&d.value(HEAP_BASE + (1 << 30), 1)),
        UnreadReason::Unreadable
    );
}

#[test]
fn a_mapping_keeps_its_entries_in_order() {
    let mut b = Builder::new(DictKeys::Sized);
    let (x, y, one, no) = (b.str("x"), b.str("y"), b.integer(1), b.boolean(false));
    let map = b.dict(&[(x, one), (y, no)]);
    let (m, rt) = runtime(b);
    let mut d = Decoder::new(&m, &rt);
    assert_eq!(
        d.value(map, 1),
        RawValue::Mapping {
            entries: vec![
                RawEntry {
                    key: RawValue::Text("x".into()),
                    value: RawValue::Integer(1)
                },
                RawEntry {
                    key: RawValue::Text("y".into()),
                    value: RawValue::Boolean(false)
                },
            ],
            full_length: None
        }
    );
    assert_eq!(d.integer(one), Ok(1));
    assert_eq!(d.text(one), Err(Bad::Malformed));
}

#[test]
fn the_builtin_names_and_sizes_are_the_layouts() {
    assert_eq!(Builtin::Dict.name(), "dict");
    assert_eq!(Builtin::NoneType.name(), "NoneType");
    assert_eq!(Builtin::Str.size(), Some((80, 0)));
    assert_eq!(Builtin::Bool.size(), None);
    assert_eq!(Builtin::all().len(), 8);
    let (_, rt) = runtime(Builder::new(DictKeys::Logged));
    assert_eq!(rt.builtin(rt.address(Builtin::Tuple)), Some(Builtin::Tuple));
    assert_eq!(rt.builtin(1), None);
}

#[test]
fn pointers_and_index_widths() {
    assert!(plausible_pointer(0x1_0000));
    assert!(!plausible_pointer(0x1_0001));
    assert!(!plausible_pointer(0));
    assert!(!plausible_pointer(0x8000_0000_0000));
    assert_eq!(index_log2(3), 3);
    assert_eq!(index_log2(8), 9);
    assert_eq!(index_log2(16), 18);
    assert_eq!(index_log2(32), 35);
}

#[test]
fn a_type_name_holds_at_most_its_bound() {
    let mut m = Image::new();
    let mut bytes = b"abcdefghijklmno".to_vec();
    bytes.push(0);
    bytes.extend_from_slice(&[0; 16]);
    m.add(0x10_0000, RegionKind::Image, false, bytes)
        .expect("disjoint");
    assert_eq!(c_string(&m, 0x10_0000, 5), None);
    assert_eq!(c_string(&m, 0x10_0000, 14), None);
    assert_eq!(c_string(&m, 0x10_0000, 15).as_deref(), Some("abcdefghijklmno"));
    assert_eq!(c_string(&m, 0x10_0000, 64).as_deref(), Some("abcdefghijklmno"));
}

#[test]
fn a_layout_error_is_written_with_its_fields() {
    assert_eq!(LayoutError::TypeObject { found: 2 }.text(), "TypeObject { found: 2 }");
    assert_eq!(
        LayoutError::Builtin { builtin: Builtin::NoneType, found: 0 }.text(),
        "Builtin { builtin: NoneType, found: 0 }"
    );
    assert_eq!(
        LayoutError::Size { builtin: Builtin::Str, basic: 64, item: 0 }.text(),
        "Size { builtin: Str, basic: 64, item: 0 }"
    );
    assert_eq!(
        LayoutError::SizeUnreadable { builtin: Builtin::Dict }.text(),
        "SizeUnreadable { builtin: Dict }"
    );
    assert_eq!(LayoutError::DictKeys.text(), "DictKeys");
    let e = LayoutError::Size { builtin: Builtin::Tuple, basic: 24, item: 8 };
    assert_eq!(e.text(), format!("{e:?}"));
}
