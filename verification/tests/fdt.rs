use os::dev::fdt::{read_token, FDTMemRange, FDT};
use os::fdt::{be_32, mem_layout, FdtError, Header, Prop, RawFDT, Token, FDT as HeaderFDT};
use os::util::bits::Be;

fn word(out: &mut Vec<u8>, v: u32) {
    out.extend_from_slice(&v.to_be_bytes());
}

fn name(out: &mut Vec<u8>, s: &str) {
    out.extend_from_slice(s.as_bytes());
    out.push(0);
    while out.len() % 4 != 0 {
        out.push(0);
    }
}

fn prop(out: &mut Vec<u8>, nameoff: u32, data: &[u8]) {
    word(out, 3);
    word(out, data.len() as u32);
    word(out, nameoff);
    out.extend_from_slice(data);
    while out.len() % 4 != 0 {
        out.push(0);
    }
}

const STRINGS: &[u8] = b"#address-cells\0reg\0device_type\0";
const ADDRESS_CELLS: u32 = 0;
const REG: u32 = 15;
const DEVICE_TYPE: u32 = 19;

/// The structure block: a root node with one property, holding a memory node with a
/// `reg` and a `device_type` property.
fn structure() -> Vec<u8> {
    let mut s = Vec::new();
    word(&mut s, 1);
    name(&mut s, "");
    prop(&mut s, ADDRESS_CELLS, &[0, 0, 0, 2]);
    word(&mut s, 1);
    name(&mut s, "memory@80000000");
    prop(&mut s, REG, &[0, 0, 0, 0, 0x80, 0, 0, 0, 0, 0, 0, 0, 0x08, 0, 0, 0]);
    prop(&mut s, DEVICE_TYPE, b"memory\0");
    word(&mut s, 2);
    word(&mut s, 2);
    word(&mut s, 9);
    s
}

/// A whole tree: the header, the structure block, the strings.
fn blob_with_magic(magic: u32) -> Vec<u8> {
    let st = structure();
    let off_struct = 40u32;
    let off_strings = off_struct + st.len() as u32;
    let total = off_strings + STRINGS.len() as u32;
    let mut b = Vec::new();
    for v in [magic, total, off_struct, off_strings, 40, 17, 16, 0, STRINGS.len() as u32, st.len() as u32] {
        word(&mut b, v);
    }
    b.extend_from_slice(&st);
    b.extend_from_slice(STRINGS);
    b
}

fn blob() -> Vec<u8> {
    blob_with_magic(0xd00dfeed)
}

#[test]
fn token_from_bytes() {
    assert_eq!(Token::from_bytes(&[0, 0, 0, 1]), Some(Token::BeginNode));
    assert_eq!(Token::from_bytes(&[0, 0, 0, 2]), Some(Token::EndNode));
    assert_eq!(Token::from_bytes(&[0, 0, 0, 3]), Some(Token::Prop));
    assert_eq!(Token::from_bytes(&[0, 0, 0, 4]), Some(Token::Nop));
    assert_eq!(Token::from_bytes(&[0, 0, 0, 9, 7]), Some(Token::End));
    assert_eq!(Token::from_bytes(&[0, 0, 0, 5]), None);
    assert_eq!(Token::from_bytes(&[1, 0, 0, 0]), None);
    assert_eq!(Token::from_value(3), Some(Token::Prop));
}

#[test]
fn header_from_bytes_reads_big_endian_words() {
    let b = blob();
    let h = Header::from_bytes(&b);
    assert_eq!(h.magic, 0xd00dfeed);
    assert_eq!(h.totalsize as usize, b.len());
    assert_eq!(h.off_dt_struct, 40);
    assert_eq!(h.version, 17);
    assert_eq!(h.last_comp_version, 16);
    assert_eq!(h.size_dt_strings as usize, STRINGS.len());
    let f = HeaderFDT::new(&b);
    assert_eq!(f.header, h);
}

#[test]
fn prop_from_bytes() {
    let p = Prop::from_bytes(&[0, 0, 0, 16, 0, 0, 0, 15]);
    assert_eq!(p.len, 16);
    assert_eq!(p.nameoff, 15);
}

#[test]
fn raw_fdt_blocks() {
    let b = blob();
    let f = RawFDT::new(&b).ok().unwrap();
    assert_eq!(f.nodes.len(), b.len() - 40);
    assert_eq!(f.strings, STRINGS);
    assert_eq!(&f.nodes[..4], &[0, 0, 0, 1]);
}

#[test]
fn raw_fdt_refuses_short_or_inconsistent_data() {
    let b = blob();
    assert!(matches!(RawFDT::new(&b[..39]), Err(FdtError::Malformed)));
    assert!(matches!(RawFDT::new(&b[..b.len() - 1]), Err(FdtError::Malformed)));
}

#[test]
fn raw_find_node_by_name_prefix() {
    let b = blob();
    let f = RawFDT::new(&b).ok().unwrap();
    let node = f.find_node("memory").unwrap().unwrap();
    // The node's data starts at its first property.
    assert_eq!(&node.data[..4], &[0, 0, 0, 3]);
    let reg = node.get_prop("reg").unwrap().unwrap();
    assert_eq!(reg, &[0, 0, 0, 0, 0x80, 0, 0, 0, 0, 0, 0, 0, 0x08, 0, 0, 0]);
    let dt = node.get_prop("device").unwrap().unwrap();
    assert_eq!(dt, b"memory\0");
    assert!(node.get_prop("status").unwrap().is_none());
    // Past the two properties lies the first `EndNode`.
    let rest = node.pass_props().unwrap();
    assert_eq!(&rest[..4], &[0, 0, 0, 2]);
}

#[test]
fn raw_find_node_matches_root_and_misses() {
    let b = blob();
    let f = RawFDT::new(&b).ok().unwrap();
    // Every name starts with the empty text: the root comes first.
    let root = f.find_node("").unwrap().unwrap();
    let cells = root.get_prop("#address").unwrap().unwrap();
    assert_eq!(cells, &[0, 0, 0, 2]);
    assert!(f.find_node("cpus").unwrap().is_none());
    assert!(f.find_node("memory@80000000 and more").unwrap().is_none());
}

#[test]
fn raw_find_node_on_truncated_tree_is_malformed() {
    let b = blob();
    let mut cut = b.clone();
    // Drop the `End` token and what follows; the header still claims the old size, so
    // shrink the strings block to nothing and point it at the end.
    let st_len = structure().len();
    cut.truncate(40 + st_len - 4);
    let total = cut.len() as u32;
    cut[4..8].copy_from_slice(&total.to_be_bytes());
    cut[12..16].copy_from_slice(&total.to_be_bytes());
    let f = RawFDT::new(&cut).ok().unwrap();
    assert!(matches!(f.find_node("cpus"), Err(FdtError::Malformed)));
}

#[test]
fn dev_fdt_from_bytes() {
    let b = blob();
    let f = FDT::from_bytes(&b);
    assert_eq!(f.header.magic.get(), 0xd00dfeed);
    assert_eq!(f.header.totalsize.get() as usize, b.len());
    assert_eq!(f.strings, STRINGS);
    let g = FDT::try_from_bytes(&b).ok().unwrap();
    assert_eq!(g.nodes, f.nodes);
    assert_eq!(g.strings, f.strings);
    assert!(matches!(FDT::try_from_bytes(&blob_with_magic(0xfeedd00d)), Err(FdtError::BadMagic)));
    assert!(matches!(FDT::try_from_bytes(&b[..20]), Err(FdtError::Malformed)));
    assert!(matches!(FDT::try_from_bytes(&b[..b.len() - 1]), Err(FdtError::Malformed)));
}

#[test]
fn dev_node_iter_walks_every_node() {
    let b = blob();
    let f = FDT::from_bytes(&b);
    let mut it = f.iter();
    let root = it.next().unwrap().unwrap();
    // The root's name is the word that holds its zero.
    assert_eq!(root.name, &[0, 0, 0, 0]);
    assert_eq!(root.props.len(), 16);
    let mem = it.next().unwrap().unwrap();
    assert_eq!(mem.name, b"memory@80000000\0");
    assert_eq!(mem.props.len(), 28 + 20);
    // Both `EndNode` tokens were passed: the walk stands at `End`, which the strings
    // block follows.
    assert_eq!(&it.pos[..4], &[0, 0, 0, 9]);
    assert!(it.next().unwrap().is_none());
    assert_eq!(it.pos, STRINGS);
    // At bytes that are no token the walk yields nothing and stays.
    assert!(it.next().unwrap().is_none());
    assert_eq!(it.pos, STRINGS);
}

#[test]
fn dev_prop_iter_and_find_prop() {
    let b = blob();
    let f = FDT::from_bytes(&b);
    let mut it = f.iter();
    it.next().unwrap();
    let mem = it.next().unwrap().unwrap();
    let mut props = mem.iter();
    let reg = props.next().unwrap().unwrap();
    assert_eq!(reg.name, b"reg");
    assert_eq!(reg.data.len(), 16);
    assert_eq!(reg.full_len(), 24);
    let dt = props.next().unwrap().unwrap();
    assert_eq!(dt.name, b"device_type");
    // The data keeps its padding.
    assert_eq!(dt.data, b"memory\0\0");
    assert!(props.next().unwrap().is_none());
    let found = mem.find_prop("device_type").unwrap().unwrap();
    assert_eq!(found.data, b"memory\0\0");
    // Names match whole, not by prefix.
    assert!(mem.find_prop("device").unwrap().is_none());
}

#[test]
fn dev_mem_range() {
    let b = blob();
    let f = FDT::from_bytes(&b);
    let r: FDTMemRange = f.mem_range();
    let t = f.try_mem_range().unwrap().unwrap();
    assert_eq!((t.start(), t.len()), (r.start(), r.len()));
    assert_eq!(r.start(), 0x8000_0000);
    assert_eq!(r.len(), 0x0800_0000);
    assert_eq!(r.end(), 0x8800_0000);
}

#[test]
fn dev_mem_range_missing_node() {
    let mut b = blob();
    // Rename the memory node.
    let at = 40 + 4 + 4 + 16 + 4;
    b[at] = b'M';
    let f = FDT::from_bytes(&b);
    assert!(f.try_mem_range().unwrap().is_none());
}

#[test]
fn dev_prop_with_bad_name_offset_is_malformed() {
    let mut b = blob();
    // Point the root's property name past the strings block.
    let at = 40 + 4 + 4 + 8;
    b[at..at + 4].copy_from_slice(&1000u32.to_be_bytes());
    let f = FDT::from_bytes(&b);
    let mut it = f.iter();
    assert!(matches!(it.next(), Err(FdtError::Malformed)));
}

#[test]
fn be_get_swaps_bytes() {
    let raw = u32::from_le_bytes([0xd0, 0x0d, 0xfe, 0xed]);
    assert_eq!(Be(raw).get(), 0xd00dfeed);
}

#[test]
fn raw_node_lines_list_every_node() {
    let b = blob();
    let f = RawFDT::new(&b).ok().unwrap();
    let lines = f.node_lines().unwrap();
    assert_eq!(lines.len(), 2);
    assert_eq!(lines[0].name, b"");
    assert_eq!(lines[0].props.len(), 1);
    assert_eq!(lines[0].props[0].name, b"#address-cells");
    assert_eq!(lines[0].props[0].prop, Prop { len: 4, nameoff: ADDRESS_CELLS });
    assert_eq!(lines[1].name, b"memory@80000000");
    assert_eq!(lines[1].props.len(), 2);
    assert_eq!(lines[1].props[0].name, b"reg");
    assert_eq!(lines[1].props[0].prop, Prop { len: 16, nameoff: REG });
    assert_eq!(lines[1].props[1].name, b"device_type");
    assert_eq!(lines[1].props[1].prop, Prop { len: 7, nameoff: DEVICE_TYPE });
}

#[test]
fn raw_prop_lines_and_rest() {
    let b = blob();
    let f = RawFDT::new(&b).ok().unwrap();
    let node = f.find_node("memory").unwrap().unwrap();
    let (props, rest) = node.prop_lines().unwrap();
    assert_eq!(props.len(), 2);
    assert_eq!(&rest[..8], &[0, 0, 0, 2, 0, 0, 0, 2]);
}

#[test]
fn raw_prop_lines_with_bad_name_offset() {
    let mut b = blob();
    let at = 40 + 4 + 4 + 8;
    b[at..at + 4].copy_from_slice(&1000u32.to_be_bytes());
    let f = RawFDT::new(&b).ok().unwrap();
    assert!(matches!(f.node_lines(), Err(FdtError::Malformed)));
}

#[test]
fn mem_layout_words() {
    let b = blob();
    let f = RawFDT::new(&b).ok().unwrap();
    assert_eq!(mem_layout(&f).unwrap().unwrap(), vec![0x8000_0000, 0x0800_0000]);
}

#[test]
fn mem_layout_without_memory_node() {
    let mut b = blob();
    let at = 40 + 4 + 4 + 16 + 4;
    b[at] = b'M';
    let f = RawFDT::new(&b).ok().unwrap();
    assert!(mem_layout(&f).unwrap().is_none());
}

#[test]
fn be_32_reverses_groups() {
    assert_eq!(be_32(&[1, 2, 3, 4, 5, 6, 7, 8, 9], 8), vec![4, 3, 2, 1, 8, 7, 6, 5]);
    assert_eq!(be_32(&[1, 2, 3, 4, 5, 6], 6), vec![4, 3, 2, 1, 6, 5]);
    assert_eq!(be_32(&[1, 2, 3], 0), Vec::<u8>::new());
}

#[test]
fn dev_read_token() {
    assert_eq!(read_token(&[0, 0, 0, 1]), Some(Token::BeginNode));
    assert_eq!(read_token(&[0, 0, 0, 9, 1, 2]), Some(Token::End));
    assert_eq!(read_token(&[0, 0, 0]), None);
    assert_eq!(read_token(&[0, 0, 0, 7]), None);
}
