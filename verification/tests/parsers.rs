//! The binary header parsers, the metadata text parser, and the name map.

use lamlvm::header::{
    DataAreaDescriptor, HeaderError, LocationDescriptor, MetadataAreaHeader, PhysicalVolumeHeader,
    PhysicalVolumeLabelHeader,
};
use lamlvm::metadata::PVDesc;
use lamlvm::namemap::{str_eq, str_lt, NameMap};
use lamlvm::text::{MetadataElements, MetadataScalar, MetadataValue};

fn label_bytes() -> Vec<u8> {
    let mut b = vec![0u8; 32];
    b[0..8].copy_from_slice(b"LABELONE");
    b[8..16].copy_from_slice(&7u64.to_le_bytes());
    b[16..20].copy_from_slice(&0xdead_beefu32.to_le_bytes());
    b[20..24].copy_from_slice(&32u32.to_le_bytes());
    b[24..32].copy_from_slice(b"LVM2 001");
    b
}

#[test]
fn label_header_fields_are_little_endian() {
    let b = label_bytes();
    assert_eq!(
        PhysicalVolumeLabelHeader::parse(&b),
        Ok(PhysicalVolumeLabelHeader { sector_number: 7, checksum: 0xdead_beef, data_offset: 32 })
    );
}

#[test]
fn label_header_errors() {
    let b = label_bytes();
    assert_eq!(PhysicalVolumeLabelHeader::parse(&b[..31]), Err(HeaderError::Truncated));
    let mut bad = b.clone();
    bad[7] = b'F';
    assert_eq!(PhysicalVolumeLabelHeader::parse(&bad), Err(HeaderError::WrongMagic));
    let mut bad = b.clone();
    bad[24] = b'l';
    assert_eq!(PhysicalVolumeLabelHeader::parse(&bad), Err(HeaderError::BadTypeIndicator));
}

fn pv_header_bytes() -> Vec<u8> {
    let mut b = vec![0u8; 40 + 16 * 5];
    b[0..32].copy_from_slice(b"0123456789abcdefghijABCDEFGHIJxy");
    b[32..40].copy_from_slice(&(1u64 << 30).to_le_bytes());
    // Two data areas, then the terminator.
    b[40..48].copy_from_slice(&1048576u64.to_le_bytes());
    b[48..56].copy_from_slice(&0u64.to_le_bytes());
    b[56..64].copy_from_slice(&9u64.to_le_bytes());
    b[64..72].copy_from_slice(&3u64.to_le_bytes());
    // One metadata area, then the terminator.
    b[88..96].copy_from_slice(&4096u64.to_le_bytes());
    b[96..104].copy_from_slice(&1044480u64.to_le_bytes());
    b
}

#[test]
fn pv_header_lists_its_areas() {
    let b = pv_header_bytes();
    let h = PhysicalVolumeHeader::parse(&b).expect("valid header");
    assert_eq!(h.pv_ident, "0123456789abcdefghijABCDEFGHIJxy");
    assert_eq!(h.pv_size, 1 << 30);
    assert_eq!(
        h.data_descriptors,
        vec![DataAreaDescriptor { offset: 1048576, size: 0 }, DataAreaDescriptor { offset: 9, size: 3 }]
    );
    assert_eq!(h.metadata_descriptors, vec![DataAreaDescriptor { offset: 4096, size: 1044480 }]);
}

#[test]
fn pv_header_errors() {
    let b = pv_header_bytes();
    assert_eq!(PhysicalVolumeHeader::parse(&b[..39]).err(), Some(HeaderError::Truncated));
    let mut bad = b.clone();
    bad[5] = 0xc0;
    assert_eq!(PhysicalVolumeHeader::parse(&bad).err(), Some(HeaderError::BadIdentifier));
    // The metadata list loses its terminator.
    assert_eq!(PhysicalVolumeHeader::parse(&b[..110]).err(), Some(HeaderError::UnterminatedList));
    // The data list runs off the end.
    assert_eq!(PhysicalVolumeHeader::parse(&b[..80]).err(), Some(HeaderError::UnterminatedList));
}

fn area_header_bytes() -> Vec<u8> {
    let mut b = vec![0u8; 512];
    b[0..4].copy_from_slice(&0x0102_0304u32.to_le_bytes());
    b[4..20].copy_from_slice(b" LVM2 x[5A%r0N*>");
    b[20..24].copy_from_slice(&1u32.to_le_bytes());
    b[24..32].copy_from_slice(&4096u64.to_le_bytes());
    b[32..40].copy_from_slice(&1044480u64.to_le_bytes());
    b[40..48].copy_from_slice(&512u64.to_le_bytes());
    b[48..56].copy_from_slice(&1234u64.to_le_bytes());
    b[56..60].copy_from_slice(&0xcafe_f00du32.to_le_bytes());
    b[60..64].copy_from_slice(&2u32.to_le_bytes());
    b
}

#[test]
fn metadata_area_header_fields() {
    let b = area_header_bytes();
    let h = MetadataAreaHeader::parse(&b).expect("valid header");
    assert_eq!(h.checksum, 0x0102_0304);
    assert_eq!(h.version, 1);
    assert_eq!(h.offset, 4096);
    assert_eq!(h.size, 1044480);
    assert_eq!(
        h.location_descriptors,
        vec![LocationDescriptor { data_area_offset: 512, data_area_size: 1234, checksum: 0xcafe_f00d, flags: 2 }]
    );
}

#[test]
fn metadata_area_header_errors() {
    let b = area_header_bytes();
    assert_eq!(MetadataAreaHeader::parse(&b[..39]).err(), Some(HeaderError::Truncated));
    let mut bad = b.clone();
    bad[19] = b'<';
    assert_eq!(MetadataAreaHeader::parse(&bad).err(), Some(HeaderError::BadSignature));
    assert_eq!(MetadataAreaHeader::parse(&b[..80]).err(), Some(HeaderError::UnterminatedList));
}

#[test]
fn metadata_text_flattens_sections() {
    let text = b"# comment\nvg {\n  id = \"a\\\"b\"  # trailing\n  seqno = 42\n  st = [\"X\", 7]\n  empty = []\n  inner {\n    k = 1\n  }\n}\ntop = 5\n";
    let (end, parsed) = MetadataElements::parse(text);
    assert_eq!(end, text.len());
    let e = &parsed.entries;
    assert_eq!(e.len(), 8);
    assert!(e[0].path.is_empty());
    assert_eq!(e[0].key, "vg");
    assert!(e[0].value.is_none());
    assert_eq!(e[1].path, vec!["vg".to_string()]);
    assert_eq!(e[1].key, "id");
    assert!(matches!(&e[1].value, Some(MetadataValue::Scalar(MetadataScalar::Str(s))) if s == "a\"b"));
    assert!(matches!(&e[2].value, Some(MetadataValue::Scalar(MetadataScalar::Num(42)))));
    match &e[3].value {
        Some(MetadataValue::List(items)) => {
            assert_eq!(items.len(), 2);
            assert!(matches!(&items[0], MetadataScalar::Str(s) if s == "X"));
            assert!(matches!(&items[1], MetadataScalar::Num(7)));
        }
        _ => panic!("expected a list"),
    }
    assert!(matches!(&e[4].value, Some(MetadataValue::List(items)) if items.is_empty()));
    assert_eq!(e[5].key, "inner");
    assert!(e[5].value.is_none());
    assert_eq!(e[6].path, vec!["vg".to_string(), "inner".to_string()]);
    assert_eq!(e[6].key, "k");
    assert!(e[7].path.is_empty());
    assert_eq!(e[7].key, "top");
    assert!(matches!(&e[7].value, Some(MetadataValue::Scalar(MetadataScalar::Num(5)))));
}

#[test]
fn metadata_text_stops_at_garbage() {
    let text = b"a = 1\nb = 2\n\0\0\0";
    let (end, parsed) = MetadataElements::parse(text);
    assert_eq!(end, 12);
    assert_eq!(parsed.entries.len(), 2);
    let text = b"a = 1\nsec {\n b = \n}\n";
    let (end, parsed) = MetadataElements::parse(text);
    assert_eq!(end, 6);
    assert_eq!(parsed.entries.len(), 1);
    let text = b"n = 18446744073709551616\n";
    let (end, parsed) = MetadataElements::parse(text);
    assert_eq!(end, 0);
    assert!(parsed.entries.is_empty());
    let text = b"n = 18446744073709551615\n";
    let (_, parsed) = MetadataElements::parse(text);
    assert!(matches!(&parsed.entries[0].value, Some(MetadataValue::Scalar(MetadataScalar::Num(u64::MAX)))));
}

#[test]
fn name_map_keeps_names_sorted() {
    let mut m: NameMap<PVDesc> = NameMap::new();
    let pv = |id: &str| PVDesc {
        id: id.to_string(),
        device: None,
        status: vec![],
        dev_size: None,
        pe_start: 0,
        pe_count: 0,
    };
    m.insert("pv2".to_string(), pv("two"));
    m.insert("pv10".to_string(), pv("ten"));
    m.insert("pv1".to_string(), pv("one"));
    m.insert("pv2".to_string(), pv("TWO"));
    let names: Vec<&str> = m.entries.iter().map(|(n, _)| n.as_str()).collect();
    assert_eq!(names, vec!["pv1", "pv10", "pv2"]);
    assert_eq!(m.len(), 3);
    assert_eq!(m.get("pv2").map(|p| p.id.as_str()), Some("TWO"));
    assert!(m.get("pv3").is_none());
    let (k, v) = m.get_key_value("pv10").expect("pv10");
    assert_eq!((k.as_str(), v.id.as_str()), ("pv10", "ten"));
}

#[test]
fn names_compare_by_bytes() {
    assert!(str_lt("a", "b"));
    assert!(str_lt("a", "ab"));
    assert!(!str_lt("b", "ab"));
    assert!(!str_lt("x", "x"));
    assert!(str_lt("Z", "a"));
    assert!(str_eq("vg0", "vg0"));
    assert!(!str_eq("vg0", "vg1"));
}
