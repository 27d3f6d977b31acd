//! Mappings of virtual datasets.

use clawhdf5::vds::{parse_vds_mappings, serialize_vds_mappings, VdsMapping};

fn all_sel() -> Vec<u8> {
    let mut v = Vec::new();
    v.extend_from_slice(&3u32.to_le_bytes());
    v.extend_from_slice(&1u32.to_le_bytes());
    v.extend_from_slice(&[0u8; 4]);
    v.extend_from_slice(&[0u8; 4]);
    v
}

#[test]
fn roundtrip_same_file_two_mappings() {
    let sel = all_sel();
    let mappings = vec![
        VdsMapping {
            source_file: ".".into(),
            source_dataset: "/src_a".into(),
            source_selection: sel.clone(),
            virtual_selection: sel.clone(),
        },
        VdsMapping {
            source_file: ".".into(),
            source_dataset: "/src_b".into(),
            source_selection: sel.clone(),
            virtual_selection: sel.clone(),
        },
    ];
    let bytes = serialize_vds_mappings(&mappings, 8);

    assert_eq!(bytes[0], 1u8);
    let parsed = parse_vds_mappings(&bytes, 8).unwrap();
    assert_eq!(parsed.len(), 2);
    assert_eq!(parsed[0].source_file, ".");
    assert_eq!(parsed[0].source_dataset, "/src_a");
    assert_eq!(parsed[1].source_file, ".");
    assert_eq!(parsed[1].source_dataset, "/src_b");
}

#[test]
fn roundtrip_external_file_mapping() {
    let sel = all_sel();
    let mappings = vec![VdsMapping {
        source_file: "source.h5".into(),
        source_dataset: "/data".into(),
        source_selection: sel.clone(),
        virtual_selection: sel.clone(),
    }];
    let bytes = serialize_vds_mappings(&mappings, 8);

    assert_eq!(bytes[0], 0u8);
    let parsed = parse_vds_mappings(&bytes, 8).unwrap();
    assert_eq!(parsed.len(), 1);
    assert_eq!(parsed[0].source_file, "source.h5");
    assert_eq!(parsed[0].source_dataset, "/data");
    assert_eq!(
        parsed[0].source_selection, sel,
        "source selection bytes must survive round-trip"
    );
    assert_eq!(
        parsed[0].virtual_selection, sel,
        "virtual selection bytes must survive round-trip"
    );
}

#[test]
fn empty_mappings_roundtrip() {
    let bytes = serialize_vds_mappings(&[], 8);
    let parsed = parse_vds_mappings(&bytes, 8).unwrap();
    assert!(parsed.is_empty());
}

#[test]
fn roundtrip_empty_source_file_treated_as_same_file() {
    let sel = all_sel();
    let mappings = vec![VdsMapping {
        source_file: String::new(),
        source_dataset: "/ds".into(),
        source_selection: sel.clone(),
        virtual_selection: sel.clone(),
    }];
    let bytes = serialize_vds_mappings(&mappings, 8);
    assert_eq!(bytes[0], 1u8);
    let parsed = parse_vds_mappings(&bytes, 8).unwrap();
    assert_eq!(parsed.len(), 1);

    assert_eq!(parsed[0].source_file, ".");
}

#[test]
fn roundtrip_length_size_4() {
    let sel = all_sel();
    let mappings = vec![VdsMapping {
        source_file: ".".into(),
        source_dataset: "/x".into(),
        source_selection: sel.clone(),
        virtual_selection: sel.clone(),
    }];
    let bytes = serialize_vds_mappings(&mappings, 4);
    let parsed = parse_vds_mappings(&bytes, 4).unwrap();
    assert_eq!(parsed.len(), 1);
    assert_eq!(parsed[0].source_dataset, "/x");
}
