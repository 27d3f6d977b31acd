//! Written files, read back.

use clawhdf5::builders::FormatError;
use clawhdf5::chunk_reader::{parse_chunked, ChunkIndex};
use clawhdf5::chunked::ChunkOptions;
use clawhdf5::file_writer::FileWriter;
use clawhdf5::fractal_heap::{decode_managed_id, encode_managed_id};
use clawhdf5::link_reader::{parse_external, read_links};
use clawhdf5::messages::{
    make_external_link, make_f64_type, make_link, parse_layout, AttrValue, DataLayout, LinkMessage,
    LinkTarget, MessageType,
};
use clawhdf5::object_header::{write_superblock, ObjectHeader, ObjectHeaderWriter, Superblock};
use clawhdf5::parallel::{
    build_dataset_metadata, finalize_parallel, parallel_writer, IndependentDatasetBuilder,
    MetadataBlock,
};
use clawhdf5::reader::{
    parse_attr, read_dataset, read_int_attr, read_type, resolve_path, AttrData, ReadFault,
};
use clawhdf5::vds::{parse_vds_mappings, read_collection, VdsMapping};

fn bits(values: &[f64]) -> Vec<u64> {
    values.iter().map(|v| v.to_bits()).collect()
}

fn floats(raw: &[u8]) -> Vec<f64> {
    raw.chunks_exact(8)
        .map(|c| f64::from_le_bytes(c.try_into().unwrap()))
        .collect()
}

fn number(bytes: &[u8], at: usize, width: usize) -> u64 {
    bytes[at..at + width].iter().rev().fold(0, |v, &b| v * 256 + u64::from(b))
}

fn parse_file(bytes: &[u8]) -> (Superblock, ObjectHeader) {
    let sb = Superblock::parse(bytes).unwrap();
    let oh = ObjectHeader::parse(bytes, sb.root_group_address as usize).unwrap();
    (sb, oh)
}

fn header_of(bytes: &[u8], path: &str) -> ObjectHeader {
    let sb = Superblock::parse(bytes).unwrap();
    let addr = resolve_path(bytes, sb.root_group_address, path.as_bytes()).unwrap();
    ObjectHeader::parse(bytes, addr as usize).unwrap()
}

fn read_dataset_f64(bytes: &[u8], path: &str) -> Vec<f64> {
    floats(&read_dataset(bytes, path).unwrap())
}

fn layout_message(hdr: &ObjectHeader) -> Vec<u8> {
    hdr.messages
        .iter()
        .find(|m| m.msg_type == MessageType::DataLayout)
        .unwrap()
        .data
        .clone()
}

/// The attributes that stand in the header itself.
fn inline_attributes(hdr: &ObjectHeader) -> Vec<AttrData> {
    hdr.messages
        .iter()
        .filter(|m| m.msg_type == MessageType::Attribute)
        .map(|m| parse_attr(&m.data).unwrap())
        .collect()
}

/// The attributes of a header, also those in a heap of one block.
fn all_attributes(bytes: &[u8], hdr: &ObjectHeader) -> Vec<AttrData> {
    let Some(info) = hdr.messages.iter().find(|m| m.msg_type == MessageType::AttributeInfo) else {
        return inline_attributes(hdr);
    };
    let heap = number(&info.data, 2, 8) as usize;
    let btree = number(&info.data, 10, 8) as usize;
    assert_eq!(&bytes[heap..heap + 4], b"FRHP");
    assert_eq!(&bytes[btree..btree + 4], b"BTHD");
    let root_block = number(bytes, heap + 132, 8) as usize;
    assert_eq!(number(bytes, heap + 140, 2), 0, "the root block is a direct one");
    assert_eq!(&bytes[root_block..root_block + 4], b"FHDB");
    let record_size = number(bytes, btree + 10, 2) as usize;
    let leaf = number(bytes, btree + 16, 8) as usize;
    let count = number(bytes, btree + 26, 8) as usize;
    assert_eq!(&bytes[leaf..leaf + 4], b"BTLF");
    (0..count)
        .map(|k| {
            let at = leaf + 6 + k * record_size;
            let (offset, length) = decode_managed_id(&bytes[at..at + 8], 40).unwrap();
            let start = root_block + offset as usize;
            parse_attr(&bytes[start..start + length as usize]).unwrap()
        })
        .collect()
}

/// The mappings of the virtual dataset at a path.
fn mappings_of(bytes: &[u8], path: &str) -> Vec<VdsMapping> {
    let layout = parse_layout(&layout_message(&header_of(bytes, path)), 8, 8).unwrap();
    match layout {
        DataLayout::Virtual { heap_address, heap_index } => {
            assert_eq!(heap_index, 1);
            let object = read_collection(bytes, heap_address).unwrap();
            parse_vds_mappings(&object, 8).unwrap()
        }
        other => panic!("expected Virtual layout, got {other:?}"),
    }
}

/// The elements that a stored selection of rank one takes of `extent`.
fn selected(selection: &[u8], extent: u64) -> Vec<u64> {
    match number(selection, 0, 4) {
        3 => (0..extent).collect(),
        2 => {
            let width = selection[9] as usize;
            assert_eq!(number(selection, 10, 4), 1);
            let field = |k: usize| number(selection, 14 + k * width, width);
            let (start, stride, count, block) = (field(0), field(1), field(2), field(3));
            (0..count)
                .flat_map(|c| (0..block).map(move |b| start + c * stride + b))
                .collect()
        }
        other => panic!("unknown selection {other}"),
    }
}

#[test]
fn empty_file_root_group_only() {
    let fw = FileWriter::new();
    let bytes = fw.finish().unwrap();
    let (sb, oh) = parse_file(&bytes);
    assert_eq!(sb.version, 3);
    assert_eq!(oh.version, 2);
}

#[test]
fn file_with_f64_dataset() {
    let mut fw = FileWriter::new();
    fw.create_dataset("data").with_f64_bits(&bits(&[1.0, 2.0, 3.0]));
    let bytes = fw.finish().unwrap();
    assert_eq!(read_dataset_f64(&bytes, "data"), vec![1.0, 2.0, 3.0]);
}

#[test]
fn file_with_dataset_attrs() {
    let mut fw = FileWriter::new();
    fw.create_dataset("data")
        .with_f64_bits(&bits(&[1.0, 2.0]))
        .set_attr("scale", AttrValue::F64(0.5f64.to_bits()));
    let bytes = fw.finish().unwrap();
    assert_eq!(read_dataset_f64(&bytes, "data"), vec![1.0, 2.0]);
    let attrs = inline_attributes(&header_of(&bytes, "data"));
    assert_eq!(attrs.len(), 1);
    assert_eq!(attrs[0].name, b"scale");
    assert_eq!(floats(&attrs[0].raw), vec![0.5]);
}

#[test]
fn file_with_group_and_dataset() {
    let mut fw = FileWriter::new();
    let mut gb = fw.create_group("grp");
    gb.create_dataset("vals").with_f64_bits(&bits(&[10.0, 20.0]));
    fw.add_group(gb.finish());
    let bytes = fw.finish().unwrap();
    assert_eq!(read_dataset_f64(&bytes, "grp/vals"), vec![10.0, 20.0]);
}

#[test]
fn file_with_root_attr() {
    let mut fw = FileWriter::new();
    fw.set_root_attr("version", AttrValue::I64(42));
    let bytes = fw.finish().unwrap();
    let (_, oh) = parse_file(&bytes);
    let attrs = inline_attributes(&oh);
    assert_eq!(attrs[0].name, b"version");
    assert_eq!(read_int_attr(&bytes, "", "version"), Some(42));
    assert_eq!(read_int_attr(&bytes, "", "other"), None);
}

#[test]
fn dense_attrs_self_roundtrip() {
    let mut fw = FileWriter::new();
    let ds = fw.create_dataset("data");
    ds.with_f64_bits(&bits(&[1.0, 2.0, 3.0]));
    for i in 0..20 {
        ds.set_attr(&format!("attr_{i:03}"), AttrValue::F64((i as f64 * 1.5).to_bits()));
    }
    let bytes = fw.finish().unwrap();
    let attrs = all_attributes(&bytes, &header_of(&bytes, "data"));
    assert_eq!(attrs.len(), 20);
    for i in 0..20 {
        let name = format!("attr_{i:03}").into_bytes();
        let attr = attrs.iter().find(|a| a.name == name).unwrap();
        let v = floats(&attr.raw);
        assert!((v[0] - i as f64 * 1.5).abs() < 1e-10);
    }
    assert_eq!(read_dataset_f64(&bytes, "data"), vec![1.0, 2.0, 3.0]);
}

#[test]
fn dense_attrs_root_group_self_roundtrip() {
    let mut fw = FileWriter::new();
    fw.create_dataset("dummy").with_f64_bits(&bits(&[0.0]));
    for i in 0..15 {
        fw.set_root_attr(&format!("root_{i:02}"), AttrValue::F64((i as f64 * 2.0).to_bits()));
    }
    let bytes = fw.finish().unwrap();
    let (_, oh) = parse_file(&bytes);
    let attrs = all_attributes(&bytes, &oh);
    assert_eq!(attrs.len(), 15);
}

#[test]
fn inline_attrs_below_threshold() {
    let mut fw = FileWriter::new();
    let ds = fw.create_dataset("data");
    ds.with_f64_bits(&bits(&[1.0]));
    for i in 0..5 {
        ds.set_attr(&format!("a{i}"), AttrValue::F64((i as f64).to_bits()));
    }
    let bytes = fw.finish().unwrap();
    let hdr = header_of(&bytes, "data");
    assert!(!hdr.messages.iter().any(|m| m.msg_type == MessageType::AttributeInfo));
    let attrs = inline_attributes(&hdr);
    assert_eq!(attrs.len(), 5);
}

#[test]
fn encode_decode_managed_id_roundtrip() {
    let id = encode_managed_id(100, 42, 40, 8);
    let (off, len) = decode_managed_id(&id, 40).unwrap();
    assert_eq!(off, 100);
    assert_eq!(len, 42);
    assert_eq!(id, vec![0, 100, 0, 0, 0, 0, 42, 0]);
}

#[test]
fn finalize_parallel_basic() {
    let mut b0 = MetadataBlock::new(0);
    let data_a: Vec<u8> = [1.0f64, 2.0, 3.0].iter().flat_map(|v| v.to_le_bytes()).collect();
    b0.add_dataset(build_dataset_metadata(
        "alpha",
        make_f64_type(),
        vec![3],
        data_a,
        ChunkOptions::default(),
        None,
        vec![],
    ));

    let mut b1 = MetadataBlock::new(1);
    let data_b: Vec<u8> = [10.0f64, 20.0].iter().flat_map(|v| v.to_le_bytes()).collect();
    b1.add_dataset(build_dataset_metadata(
        "beta",
        make_f64_type(),
        vec![2],
        data_b,
        ChunkOptions::default(),
        None,
        vec![],
    ));

    let bytes = finalize_parallel(vec![b0, b1]).unwrap();
    assert_eq!(read_dataset_f64(&bytes, "alpha"), vec![1.0, 2.0, 3.0]);
    assert_eq!(read_dataset_f64(&bytes, "beta"), vec![10.0, 20.0]);
}

#[test]
fn finalize_parallel_duplicate_error() {
    let mut b0 = MetadataBlock::new(0);
    b0.add_dataset(build_dataset_metadata(
        "dup",
        make_f64_type(),
        vec![1],
        vec![0u8; 8],
        ChunkOptions::default(),
        None,
        vec![],
    ));
    let mut b1 = MetadataBlock::new(1);
    b1.add_dataset(build_dataset_metadata(
        "dup",
        make_f64_type(),
        vec![1],
        vec![0u8; 8],
        ChunkOptions::default(),
        None,
        vec![],
    ));
    let err = finalize_parallel(vec![b0, b1]).unwrap_err();
    assert!(matches!(err, FormatError::DuplicateDatasetName(_)));
}

fn sel_all() -> Vec<u8> {
    vec![3, 0, 0, 0, 1, 0, 0, 0, 0, 0, 0, 0, 0, 0, 0, 0]
}

fn sel_hyper_1d(start: u16, block: u16) -> Vec<u8> {
    let mut v = vec![2, 0, 0, 0, 3, 0, 0, 0, 0x01, 0x02, 1, 0, 0, 0];
    v.extend_from_slice(&start.to_le_bytes());
    v.extend_from_slice(&1u16.to_le_bytes());
    v.extend_from_slice(&1u16.to_le_bytes());
    v.extend_from_slice(&block.to_le_bytes());
    v
}

#[test]
fn vds_write_read_virtual_layout() {
    let mapping_a = VdsMapping {
        source_file: ".".into(),
        source_dataset: "src_a".into(),
        source_selection: sel_all(),
        virtual_selection: sel_hyper_1d(0, 4),
    };
    let mapping_b = VdsMapping {
        source_file: ".".into(),
        source_dataset: "src_b".into(),
        source_selection: sel_all(),
        virtual_selection: sel_hyper_1d(4, 4),
    };

    let mut fw = FileWriter::new();
    fw.create_dataset("src_a").with_f64_bits(&bits(&[1.0, 2.0, 3.0, 4.0]));
    fw.create_dataset("src_b").with_f64_bits(&bits(&[5.0, 6.0, 7.0, 8.0]));
    fw.create_dataset("vds")
        .with_shape(&[8])
        .with_f64_bits(&[])
        .with_virtual_sources(vec![mapping_a, mapping_b]);

    let bytes = fw.finish().unwrap();

    let mappings = mappings_of(&bytes, "vds");
    assert_eq!(mappings.len(), 2, "expected 2 VDS mappings");
    assert_eq!(mappings[0].source_file, ".");
    assert_eq!(mappings[0].source_dataset, "src_a");
    assert_eq!(mappings[1].source_file, ".");
    assert_eq!(mappings[1].source_dataset, "src_b");
    assert_eq!(selected(&mappings[0].virtual_selection, 8), vec![0, 1, 2, 3]);
    assert_eq!(selected(&mappings[1].virtual_selection, 8), vec![4, 5, 6, 7]);

    assert_eq!(read_dataset_f64(&bytes, "src_a"), vec![1.0, 2.0, 3.0, 4.0]);
    assert_eq!(read_dataset_f64(&bytes, "src_b"), vec![5.0, 6.0, 7.0, 8.0]);
}

#[test]
fn vds_external_source_file() {
    let mapping_ext = VdsMapping {
        source_file: "other.h5".into(),
        source_dataset: "data".into(),
        source_selection: sel_all(),
        virtual_selection: sel_all(),
    };

    let mut fw = FileWriter::new();
    fw.create_dataset("ext_vds")
        .with_shape(&[10])
        .with_f64_bits(&[])
        .with_virtual_sources(vec![mapping_ext]);

    let bytes = fw.finish().unwrap();
    let mappings = mappings_of(&bytes, "ext_vds");
    assert_eq!(mappings.len(), 1);
    assert_eq!(mappings[0].source_file, "other.h5");
    assert_eq!(mappings[0].source_dataset, "data");
}

#[test]
fn vds_empty_mapping_list() {
    let mut fw = FileWriter::new();
    fw.create_dataset("empty_vds")
        .with_shape(&[0])
        .with_f64_bits(&[])
        .with_virtual_sources(vec![]);

    let bytes = fw.finish().unwrap();
    let layout = parse_layout(&layout_message(&header_of(&bytes, "empty_vds")), 8, 8).unwrap();
    assert!(
        !matches!(layout, DataLayout::Virtual { .. }),
        "empty with_virtual_sources should NOT produce a VDS layout, got {layout:?}"
    );
}

#[test]
fn external_link_write_roundtrip() {
    let mut fw = FileWriter::new();
    let mut grp = fw.create_group("sensors");
    grp.create_dataset("local_ds").with_f64_bits(&bits(&[1.0, 2.0]));
    grp.add_external_link("remote_temp", "other_file.h5", "/temperature");
    fw.add_group(grp.finish());

    let bytes = fw.finish().unwrap();
    let hdr = header_of(&bytes, "sensors");
    let ext_link = hdr
        .messages
        .iter()
        .filter(|m| m.msg_type == MessageType::Link)
        .filter_map(|m| LinkMessage::parse(&m.data))
        .find(|l| l.name == "remote_temp")
        .expect("external link 'remote_temp' not found in group OH");
    match &ext_link.link_target {
        LinkTarget::External { filename, object_path } => {
            assert_eq!(filename, "other_file.h5");
            assert_eq!(object_path, "/temperature");
        }
        other => panic!("expected External link, got {other:?}"),
    }

    assert_eq!(read_dataset_f64(&bytes, "sensors/local_ds"), vec![1.0, 2.0]);
    assert_eq!(read_dataset(&bytes, "sensors/remote_temp"), Err(ReadFault::NotFound));
}

#[test]
fn links_of_a_group_are_listed() {
    for count in [1usize, 20] {
        let mut fw = FileWriter::new();
        let mut grp = fw.create_group("g");
        grp.create_dataset("own").with_u8_data(&[1]);
        for k in 0..count {
            grp.add_external_link(&format!("link{k}"), &format!("file{k}.h5"), &format!("/p/{k}"));
        }
        fw.add_group(grp.finish());
        let bytes = fw.finish().unwrap();
        let root = Superblock::parse(&bytes).unwrap().root_group_address;
        let at = resolve_path(&bytes, root, b"g").unwrap();
        let own = resolve_path(&bytes, root, b"g/own").unwrap();
        let links = read_links(&bytes, at).unwrap();
        assert_eq!(links.len(), count + 1);
        assert!(links.contains(&LinkMessage {
            name: "own".into(),
            link_target: LinkTarget::Hard { object_header_address: own },
        }));
        for k in 0..count {
            assert!(links.contains(&LinkMessage {
                name: format!("link{k}"),
                link_target: LinkTarget::External {
                    filename: format!("file{k}.h5"),
                    object_path: format!("/p/{k}"),
                },
            }));
        }
        assert_eq!(
            read_links(&bytes, root),
            Some(vec![LinkMessage {
                name: "g".into(),
                link_target: LinkTarget::Hard { object_header_address: at },
            }])
        );
        assert_eq!(read_links(&bytes, root + 1), None);
    }
    let message = make_external_link("n", "f", "p").serialize();
    assert_eq!(parse_external(&message), Some((b"n".to_vec(), b"f".to_vec(), b"p".to_vec())));
    assert_eq!(parse_external(&message[..message.len() - 1]), None);
    assert_eq!(LinkMessage::parse(&[]), None);
}

#[test]
fn filtered_chunks_are_refused() {
    let data = [1u8, 2, 3];
    // Whether a pipeline message with these contents leaves the data as it is.
    for (pipeline, plain) in [
        (vec![2u8, 1, 1, 0, 0, 0, 1, 0, 6, 0, 0, 0], false),
        (vec![2, 0], true),
        (vec![9, 1], true),
        (vec![], true),
    ] {
        let mut fw = FileWriter::new();
        fw.create_dataset("d").with_u8_data(&data).with_chunks(&[3]);
        let mut bytes = fw.finish().unwrap();
        let old = header_of(&bytes, "d");
        let mut w = ObjectHeaderWriter::new();
        for m in &old.messages {
            w.add_message_with_flags(m.msg_type, &m.data, m.flags);
        }
        w.add_message(MessageType::FilterPipeline, &pipeline);
        let at = bytes.len() as u64;
        bytes.extend_from_slice(&w.serialize());
        let mut root = ObjectHeaderWriter::new();
        root.add_message(MessageType::Link, &make_link("d", at).serialize());
        let root_at = bytes.len() as u64;
        bytes.extend_from_slice(&root.serialize());
        let sb = write_superblock(bytes.len() as u64, root_at);
        bytes[..sb.len()].copy_from_slice(&sb);
        let expected = if plain { Ok(data.to_vec()) } else { Err(ReadFault::UnsupportedFilter) };
        assert_eq!(read_dataset(&bytes, "d"), expected);
    }
}

#[test]
fn compact_data_stands_in_the_header() {
    let mut fw = FileWriter::new();
    fw.create_dataset("small").with_u8_data(&[7, 8, 9]).with_compact();
    let bytes = fw.finish().unwrap();
    let layout = parse_layout(&layout_message(&header_of(&bytes, "small")), 8, 8).unwrap();
    assert_eq!(layout, DataLayout::Compact { size: 3 });
    assert_eq!(read_dataset(&bytes, "small"), Ok(vec![7, 8, 9]));
}

#[test]
fn data_is_aligned() {
    let mut fw = FileWriter::new();
    fw.alignment(16, 512);
    fw.create_dataset("big").with_u8_data(&[1; 100]);
    fw.create_dataset("small").with_u8_data(&[2; 3]);
    fw.create_dataset("own").with_u8_data(&[3; 5]).with_alignment(64);
    let bytes = fw.finish().unwrap();
    for (path, align, len) in [("big", 512, 100), ("small", 1, 3), ("own", 64, 5)] {
        match parse_layout(&layout_message(&header_of(&bytes, path)), 8, 8) {
            Some(DataLayout::Contiguous { address: Some(address), size }) => {
                assert_eq!(address % align, 0);
                assert_eq!(size, len);
            }
            other => panic!("unexpected layout {other:?}"),
        }
    }
    assert_eq!(read_dataset(&bytes, "big"), Ok(vec![1; 100]));
    assert_eq!(read_dataset(&bytes, "own"), Ok(vec![3; 5]));
}

#[test]
fn chunked_data_is_put_together_again() {
    let mut fw = FileWriter::new();
    fw.create_dataset("grid")
        .with_u8_data(&[1, 2, 3, 4, 5, 6])
        .with_shape(&[2, 3])
        .with_chunks(&[2, 2]);
    fw.create_dataset("open").with_u8_data(&[1, 2, 3]).with_maxshape(&[u64::MAX]);
    fw.create_dataset("whole").with_f32_bits(&[1, 2, 0x4000_0000]).with_chunks(&[3]);
    fw.create_dataset("empty").with_u8_data(&[]).with_shape(&[0]).with_chunks(&[4]);
    let cube: Vec<u64> = (0..60).map(|v| v * 0x0102_0304_0506).collect();
    fw.create_dataset("cube").with_f64_bits(&cube).with_shape(&[3, 4, 5]).with_chunks(&[2, 3, 2]);
    let bytes = fw.finish().unwrap();
    let raw: Vec<u8> = cube.iter().flat_map(|v| v.to_le_bytes()).collect();
    let whole: Vec<u8> = [1u32, 2, 0x4000_0000].iter().flat_map(|v| v.to_le_bytes()).collect();
    for (path, expected) in [
        ("grid", vec![1, 2, 3, 4, 5, 6]),
        ("open", vec![1, 2, 3]),
        ("whole", whole),
        ("empty", vec![]),
        ("cube", raw),
    ] {
        let layout = parse_layout(&layout_message(&header_of(&bytes, path)), 8, 8).unwrap();
        assert_eq!(layout, DataLayout::Chunked);
        assert_eq!(read_dataset(&bytes, path), Ok(expected), "{path}");
    }
}

#[test]
fn chunk_layouts_are_read() {
    let mut fw = FileWriter::new();
    fw.create_dataset("grid")
        .with_u8_data(&[1, 2, 3, 4, 5, 6])
        .with_shape(&[2, 3])
        .with_chunks(&[2, 2]);
    fw.create_dataset("whole").with_u8_data(&[1, 2, 3]).with_chunks(&[3]);
    let bytes = fw.finish().unwrap();
    let grid = parse_chunked(&layout_message(&header_of(&bytes, "grid"))).unwrap();
    assert_eq!(grid.cdims, [2, 2]);
    assert_eq!(grid.elem_size, 1);
    assert!(matches!(grid.index, ChunkIndex::Tree(_)));
    match parse_chunked(&layout_message(&header_of(&bytes, "whole"))).unwrap().index {
        ChunkIndex::Single(at) => assert_eq!(bytes[at as usize..at as usize + 3], [1, 2, 3]),
        other => panic!("unexpected index {other:?}"),
    }
    assert!(parse_chunked(&[4, 1, 0, 2, 8]).is_none());
    assert!(parse_chunked(&[]).is_none());
}

#[test]
fn damaged_chunks_are_not_read() {
    let mut fw = FileWriter::new();
    fw.create_dataset("grid")
        .with_u8_data(&[1, 2, 3, 4, 5, 6])
        .with_shape(&[2, 3])
        .with_chunks(&[2, 2]);
    let bytes = fw.finish().unwrap();
    let at = match parse_chunked(&layout_message(&header_of(&bytes, "grid"))).unwrap().index {
        ChunkIndex::Tree(at) => at as usize,
        other => panic!("unexpected index {other:?}"),
    };
    // A byte of the index does not fit its checksum.
    let mut damaged = bytes.clone();
    damaged[at + 20] ^= 1;
    assert_eq!(read_dataset(&damaged, "grid"), Err(ReadFault::NoChunkIndex));
    // The chunks stand before the index.
    let mut changed = bytes.clone();
    changed[at - 8] = 9;
    assert_eq!(read_dataset(&changed, "grid"), Ok(vec![9, 2, 3, 4, 5, 6]));
}

#[test]
fn incomplete_datasets_are_refused() {
    let mut fw = FileWriter::new();
    fw.create_dataset("nothing");
    assert_eq!(fw.finish(), Err(FormatError::DatasetMissingData));

    let mut fw = FileWriter::new();
    fw.create_dataset("untyped").datatype = Some(make_f64_type());
    assert_eq!(fw.finish(), Err(FormatError::DatasetMissingShape));

    let mut fw = FileWriter::new();
    let d = fw.create_dataset("no_data");
    d.datatype = Some(make_f64_type());
    d.shape = Some(vec![4]);
    assert_eq!(fw.finish(), Err(FormatError::DatasetMissingData));

    let mut fw = FileWriter::new();
    fw.create_dataset("bad_chunks").with_u8_data(&[1, 2, 3]).with_chunks(&[0]);
    assert_eq!(fw.finish(), Err(FormatError::InvalidChunking));
}

#[test]
fn names_lead_to_their_objects() {
    let mut fw = FileWriter::new();
    fw.create_dataset("a").with_u8_data(&[1]);
    fw.create_dataset("ab").with_u8_data(&[2]);
    let mut gb = fw.create_group("g");
    gb.create_dataset("a").with_u8_data(&[3]);
    fw.add_group(gb.finish());
    let bytes = fw.finish().unwrap();
    assert_eq!(read_dataset(&bytes, "a"), Ok(vec![1]));
    assert_eq!(read_dataset(&bytes, "/ab"), Ok(vec![2]));
    assert_eq!(read_dataset(&bytes, "g/a"), Ok(vec![3]));
    assert_eq!(read_dataset(&bytes, "//g//a/"), Ok(vec![3]));
    assert_eq!(read_dataset(&bytes, "g/ab"), Err(ReadFault::NotFound));
    assert_eq!(read_dataset(&bytes, "g"), Err(ReadFault::NoDatatype));
    assert_eq!(read_type(&bytes, "a").map(|t| (t.class, t.size)), Some((0, 1)));
    assert_eq!(read_type(&bytes, "g"), None);
}

#[test]
fn damaged_files_are_noticed() {
    let mut fw = FileWriter::new();
    fw.create_dataset("a").with_u8_data(&[1, 2, 3]);
    let bytes = fw.finish().unwrap();

    let mut no_signature = bytes.clone();
    no_signature[0] ^= 1;
    assert_eq!(read_dataset(&no_signature, "a"), Err(ReadFault::NoSuperblock));

    let mut bad_root = bytes.clone();
    bad_root[60] ^= 1;
    assert_eq!(read_dataset(&bad_root, "a"), Err(ReadFault::NotFound));

    let sb = Superblock::parse(&bytes).unwrap();
    let addr = resolve_path(&bytes, sb.root_group_address, b"a").unwrap() as usize;
    let mut bad_header = bytes.clone();
    bad_header[addr + 10] ^= 1;
    assert_eq!(read_dataset(&bad_header, "a"), Err(ReadFault::NoHeader));

    let short = &bytes[..bytes.len() - 1];
    assert_eq!(read_dataset(short, "a"), Err(ReadFault::Truncated));
}

#[test]
fn blocks_of_several_writers_become_one_file() {
    let mut b = IndependentDatasetBuilder::new(7);
    b.add_dataset(build_dataset_metadata(
        "x",
        make_f64_type(),
        vec![1],
        1.25f64.to_le_bytes().to_vec(),
        ChunkOptions::default(),
        None,
        vec![("unit".to_string(), AttrValue::String("m".to_string()))],
    ));
    let block = b.finish();
    assert_eq!(block.creator_id, 7);
    let bytes = finalize_parallel(vec![block]).unwrap();
    assert_eq!(read_dataset_f64(&bytes, "x"), vec![1.25]);
    let attrs = inline_attributes(&header_of(&bytes, "x"));
    assert_eq!(attrs[0].name, b"unit");
    assert_eq!(attrs[0].raw, b"m");
}

fn one_dataset(alignment: usize) -> FileWriter {
    let mut fw = FileWriter::new();
    fw.create_dataset("x").with_f64_bits(&bits(&[1.0])).with_alignment(alignment);
    fw
}

#[test]
fn a_file_past_the_limit_of_memory_does_not_fit() {
    assert!(FileWriter::new().fits());
    assert!(one_dataset(4096).fits());
    assert_eq!(one_dataset(4096).finish().unwrap().len(), 4104);
    assert!(!one_dataset(usize::MAX).fits());
    assert!(!one_dataset(isize::MAX as usize).fits());
    // Eight bytes of data end exactly at the limit, or one byte behind it.
    assert!(one_dataset(isize::MAX as usize - 8).fits());
    assert!(!one_dataset(isize::MAX as usize - 7).fits());
}

#[test]
fn a_file_with_a_fault_is_never_too_long() {
    let mut fw = one_dataset(usize::MAX);
    fw.create_dataset("y");
    assert!(fw.fits());
    assert!(matches!(fw.finish(), Err(FormatError::DatasetMissingData)));
}

#[test]
fn dense_chunked_and_virtual_files_fit() {
    let mut fw = FileWriter::new();
    for i in 0..200 {
        let d = fw.create_dataset(&format!("dataset number {i} {}", "x".repeat(400)));
        d.with_f64_bits(&bits(&[1.0, 2.0, 3.0, 4.0]))
            .with_shape(&[4])
            .with_chunks(&[2])
            .with_maxshape(&[u64::MAX]);
        for k in 0..12 {
            d.set_attr(&format!("a{k}"), AttrValue::I64(k));
        }
    }
    assert!(fw.fits());
    assert!(fw.finish().is_ok());
}

#[test]
fn parallel_blocks_make_one_file() {
    let block = |id: u32, name: &str| {
        let mut b = MetadataBlock::new(id);
        b.add_dataset(build_dataset_metadata(
            name,
            make_f64_type(),
            vec![1],
            7.5f64.to_le_bytes().to_vec(),
            ChunkOptions::default(),
            None,
            vec![],
        ));
        b
    };
    let fw = parallel_writer(vec![block(0, "a"), block(1, "b")]).unwrap();
    assert!(fw.fits());
    let bytes = fw.finish().unwrap();
    assert_eq!(bytes, finalize_parallel(vec![block(0, "a"), block(1, "b")]).unwrap());
    assert_eq!(read_dataset_f64(&bytes, "b"), vec![7.5]);
    assert!(matches!(
        parallel_writer(vec![block(0, "a"), block(1, "a")]),
        Err(FormatError::DuplicateDatasetName(name)) if name == "a"
    ));
}
