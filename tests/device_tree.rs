use fdt_builder::blob::DeviceTreeBlob;
use fdt_builder::dtb::{memory_map_blob, parse, read};
use fdt_builder::encode::DtbError;
use fdt_builder::property::DeviceTreeProperty;
use fdt_builder::tree::{DeviceTree, Node, StructItem};

fn path(names: &[&str]) -> Vec<String> {
    names.iter().map(|s| s.to_string()).collect()
}

fn word(b: &[u8], i: usize) -> u32 {
    u32::from_be_bytes([b[i], b[i + 1], b[i + 2], b[i + 3]])
}

fn node_at<'a>(n: &'a Node, p: &[&str]) -> &'a Node {
    let mut cur = n;
    for s in p {
        cur = cur.children.iter().find(|c| c.name == *s).unwrap();
    }
    cur
}

fn sample_tree() -> DeviceTree {
    let mut dt = DeviceTree::new();
    dt.edit_property(&path(&[]), &"model".to_string(), DeviceTreeProperty::Text("vm".to_string()));
    dt.edit_property(&path(&["cpus", "cpu0"]), &"reg".to_string(), DeviceTreeProperty::UnsignedInt32(0));
    dt.edit_property(&path(&["memory"]), &"reg".to_string(), DeviceTreeProperty::MultipleUnsignedInt32_32(vec![(0, 0x1000_0000)]));
    dt.add_reserved(0x1000, 0x2000);
    dt
}

#[test]
fn edit_twice_keeps_one_property_in_place() {
    let mut dt = DeviceTree::new();
    let p = path(&["soc", "uart"]);
    dt.edit_property(&p, &"a".to_string(), DeviceTreeProperty::Empty);
    dt.edit_property(&p, &"b".to_string(), DeviceTreeProperty::UnsignedInt32(1));
    dt.edit_property(&p, &"c".to_string(), DeviceTreeProperty::UnsignedInt32(2));
    dt.edit_property(&p, &"b".to_string(), DeviceTreeProperty::UnsignedInt32(7));
    let n = node_at(&dt.root, &["soc", "uart"]);
    let names: Vec<&str> = n.properties.iter().map(|p| p.name.as_str()).collect();
    assert_eq!(names, vec!["a", "b", "c"]);
    match &n.properties[1].value {
        DeviceTreeProperty::UnsignedInt32(v) => assert_eq!(*v, 7),
        _ => panic!("wrong value"),
    }
    assert_eq!(dt.root.children.len(), 1);
    assert_eq!(dt.root.children[0].children.len(), 1);
}

#[test]
fn edit_creates_missing_ancestors() {
    let mut dt = DeviceTree::new();
    dt.edit_property(&path(&["a", "b", "c"]), &"x".to_string(), DeviceTreeProperty::Empty);
    assert!(node_at(&dt.root, &["a"]).properties.is_empty());
    assert!(node_at(&dt.root, &["a", "b"]).properties.is_empty());
    assert_eq!(node_at(&dt.root, &["a", "b", "c"]).properties.len(), 1);
}

#[test]
fn encoded_tree_passes_check_with_exact_size() {
    let blob = sample_tree().to_blob().unwrap();
    assert_eq!(word(&blob, 4) as usize, blob.len());
    let b = DeviceTreeBlob::from_slice(&blob).unwrap();
    assert_eq!(b.compatibility_check(), Ok(()));
    assert_eq!(b.totalsize() as usize, blob.len());
    assert_eq!(b.magic(), 0xd00dfeed);
    assert_eq!(b.version(), 17);
    assert!(parse(&blob).is_ok());
}

#[test]
fn reservation_block_ends_with_terminator() {
    let mut dt = DeviceTree::new();
    dt.edit_property(&path(&[]), &"x".to_string(), DeviceTreeProperty::Empty);
    let blob = dt.to_blob().unwrap();
    let off_struct = word(&blob, 8) as usize;
    assert_eq!(word(&blob, 16), 40);
    assert_eq!(off_struct, 56);
    assert_eq!(&blob[off_struct - 16..off_struct], &[0u8; 16]);

    let blob = sample_tree().to_blob().unwrap();
    let off_struct = word(&blob, 8) as usize;
    assert_eq!(off_struct, 72);
    assert_eq!(&blob[40..56], &[0, 0, 0, 0, 0, 0, 0x10, 0, 0, 0, 0, 0, 0, 0, 0x20, 0]);
    assert_eq!(&blob[off_struct - 16..off_struct], &[0u8; 16]);
}

#[test]
fn structure_block_is_word_aligned() {
    let blob = sample_tree().to_blob().unwrap();
    let size_struct = word(&blob, 36);
    assert_eq!(size_struct % 4, 0);
    assert_eq!(word(&blob, 12) - word(&blob, 8), size_struct);
    assert_eq!(word(&blob, 8) % 4, 0);
    assert_eq!(word(&blob, 12) % 4, 0);
}

#[test]
fn memory_reg_pair_encoding() {
    let mut dt = DeviceTree::new();
    dt.edit_property(&path(&["memory"]), &"reg".to_string(), DeviceTreeProperty::MultipleUnsignedInt32_32(vec![(0, 0x1000_0000)]));
    let blob = dt.to_blob().unwrap();
    let s = word(&blob, 8) as usize;
    let expected: Vec<u8> = vec![
        0, 0, 0, 1, 0, 0, 0, 0, // root
        0, 0, 0, 1, b'm', b'e', b'm', b'o', b'r', b'y', 0, 0, // memory
        0, 0, 0, 3, 0, 0, 0, 8, 0, 0, 0, 0, // reg: length 8, name at 0
        0, 0, 0, 0, 0x10, 0, 0, 0, // (0, 0x10000000)
        0, 0, 0, 2, 0, 0, 0, 2, 0, 0, 0, 9,
    ];
    assert_eq!(&blob[s..s + expected.len()], expected.as_slice());
    let strings = word(&blob, 12) as usize;
    assert_eq!(&blob[strings..], b"reg\0");
    assert_eq!(memory_map_blob(&vec![(0, 0x1000_0000)]), Ok(blob));
}

#[test]
fn foreign_data_is_rejected() {
    let mut blob = sample_tree().to_blob().unwrap();
    blob[0] = 0x7f;
    let b = DeviceTreeBlob::from_slice(&blob).unwrap();
    assert_eq!(b.compatibility_check(), Err(DtbError::NotCompatible));
    assert_eq!(parse(&blob).err(), Some(DtbError::NotCompatible));
    assert_eq!(parse(&[0u8; 64]).err(), Some(DtbError::NotCompatible));
    assert_eq!(DtbError::NotCompatible.message(), "not compatible");
}

#[test]
fn short_buffer_is_rejected() {
    assert_eq!(parse(&[0xd0, 0x0d, 0xfe, 0xed]).err(), Some(DtbError::TooShort));
    assert!(DeviceTreeBlob::from_slice(&[0u8; 39]).is_err());
}

#[test]
fn empty_tree_blob() {
    let blob = DeviceTree::new().to_blob().unwrap();
    let expected: Vec<u8> = vec![
        0xd0, 0x0d, 0xfe, 0xed, 0, 0, 0, 72, 0, 0, 0, 56, 0, 0, 0, 72, 0, 0, 0, 40, 0, 0, 0, 17,
        0, 0, 0, 16, 0, 0, 0, 0, 0, 0, 0, 0, 0, 0, 0, 16, // header
        0, 0, 0, 0, 0, 0, 0, 0, 0, 0, 0, 0, 0, 0, 0, 0, // terminator
        0, 0, 0, 1, 0, 0, 0, 0, 0, 0, 0, 2, 0, 0, 0, 9, // structure block
    ];
    assert_eq!(blob, expected);
    // The strings block is empty, so its offset equals the total size and the header check,
    // which wants every offset below the total size, refuses the blob.
    assert_eq!(parse(&blob).err(), Some(DtbError::NotCompatible));
}

#[test]
fn value_encodings() {
    let mut dt = DeviceTree::new();
    dt.edit_property(&path(&[]), &"a".to_string(), DeviceTreeProperty::UnsignedInt64(0x0102_0304_0506_0708));
    dt.edit_property(&path(&[]), &"bb".to_string(), DeviceTreeProperty::Text("hi".to_string()));
    dt.edit_property(&path(&[]), &"a".to_string(), DeviceTreeProperty::Bytes(vec![9, 8, 7, 6, 5]));
    let items = dt.struct_items();
    assert_eq!(items.len(), 4);
    match &items[1] {
        StructItem::Property { name, value } => {
            assert_eq!(name, "a");
            assert_eq!(value, &vec![9, 8, 7, 6, 5]);
        }
        _ => panic!("expected a property"),
    }
    match &items[2] {
        StructItem::Property { name, value } => {
            assert_eq!(name, "bb");
            assert_eq!(value, &vec![b'h', b'i', 0]);
        }
        _ => panic!("expected a property"),
    }
    let blob = dt.to_blob().unwrap();
    let s = word(&blob, 8) as usize;
    assert_eq!(
        &blob[s..],
        &[
            0, 0, 0, 1, 0, 0, 0, 0, // root
            0, 0, 0, 3, 0, 0, 0, 5, 0, 0, 0, 0, 9, 8, 7, 6, 5, 0, 0, 0, // a
            0, 0, 0, 3, 0, 0, 0, 3, 0, 0, 0, 2, b'h', b'i', 0, 0, // bb at offset 2
            0, 0, 0, 2, 0, 0, 0, 9, // end
            b'a', 0, b'b', b'b', 0, 0, 0, 0, // strings, padded
        ]
    );
    let mut d2 = DeviceTree::new();
    d2.edit_property(&path(&[]), &"q".to_string(), DeviceTreeProperty::UnsignedInt64(0x0102_0304_0506_0708));
    let b2 = d2.to_blob().unwrap();
    let s2 = word(&b2, 8) as usize;
    assert_eq!(&b2[s2 + 20..s2 + 28], &[1, 2, 3, 4, 5, 6, 7, 8]);
}

#[test]
fn shared_names_are_stored_once() {
    let blob = sample_tree().to_blob().unwrap();
    let strings = word(&blob, 12) as usize;
    let size = word(&blob, 32) as usize;
    assert_eq!(&blob[strings..strings + size], b"model\0reg\0\0\0");
}

#[test]
fn read_indents_nested_items() {
    let items = sample_tree().struct_items();
    let indents = read(&items);
    // "" { model; cpus { cpu0 { reg } } memory { reg } }
    assert_eq!(indents, vec![0, 2, 2, 4, 6, 4, 2, 2, 4, 2, 0]);
}

#[test]
fn memory_map_refuses_wide_regions() {
    assert_eq!(memory_map_blob(&vec![(0, 1), (0x1_0000_0000, 4)]), Err(DtbError::RegionTooWide));
    assert_eq!(memory_map_blob(&vec![(0, 0x1_0000_0000)]), Err(DtbError::RegionTooWide));
    let blob = memory_map_blob(&vec![(0, 0x9fc00), (0x10_0000, 0x7ee_0000)]).unwrap();
    assert!(parse(&blob).is_ok());
    let s = word(&blob, 8) as usize;
    assert_eq!(word(&blob, s + 24), 16);
    assert_eq!(&blob[s + 32..s + 48], &[0, 0, 0, 0, 0, 0x09, 0xfc, 0, 0, 0x10, 0, 0, 0x07, 0xee, 0, 0]);
}
