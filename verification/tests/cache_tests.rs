use diskcache::address::encode_word;
use diskcache::entry::Key;
use diskcache::error::Error;
use diskcache::index::{INDEX_HEADER_PADDING, INDEX_HEADER_SIZE};
use diskcache::parse;
use diskcache::store::BlockFiles;

fn push_u32(v: &mut Vec<u8>, x: u32) {
    v.extend_from_slice(&x.to_le_bytes());
}

fn record(hash: u32, next: u32, key_addr: u32, key_length: u32, sizes: [u32; 4], addrs: [u32; 4], key: &[u8]) -> Vec<u8> {
    let mut v = Vec::new();
    push_u32(&mut v, hash);
    push_u32(&mut v, next);
    push_u32(&mut v, 0);
    push_u32(&mut v, 0);
    push_u32(&mut v, 0);
    push_u32(&mut v, 0);
    v.extend_from_slice(&0i64.to_le_bytes());
    push_u32(&mut v, key_length);
    push_u32(&mut v, key_addr);
    for s in sizes {
        push_u32(&mut v, s);
    }
    for a in addrs {
        push_u32(&mut v, a);
    }
    push_u32(&mut v, 0);
    v.extend_from_slice(&[0u8; 20]);
    v.extend_from_slice(key);
    v
}

fn index_bytes(table: &[u32]) -> Vec<u8> {
    let mut v = Vec::new();
    push_u32(&mut v, 0xC103CAC3);
    push_u32(&mut v, 0x00020001); // version 2.1
    push_u32(&mut v, table.len() as u32); // entry_count
    push_u32(&mut v, 100); // total_bytes
    push_u32(&mut v, 0x2a); // last_file_created
    v.extend_from_slice(&[0u8; 8]); // reserved
    push_u32(&mut v, table.len() as u32); // table_length
    assert_eq!(v.len(), INDEX_HEADER_SIZE);
    v.extend_from_slice(&vec![0u8; INDEX_HEADER_PADDING]);
    for w in table {
        push_u32(&mut v, *w);
    }
    v
}

#[test]
fn end_to_end_single_entry() {
    let rec = record(
        1,
        0,
        0,
        15,
        [5, 0, 0, 0],
        [encode_word(0, 0x2a, 0, 0), 0, 0, 0],
        b"a/b/cache_entry",
    );
    let mut file0 = vec![0u8; 8192 + 256];
    file0[8192..8192 + rec.len()].copy_from_slice(&rec);
    let mut files = BlockFiles::new();
    files.add(0, file0);
    let index = index_bytes(&[encode_word(2, 0, 0, 0)]);
    let cache = parse(index, &files, "base".to_string()).unwrap();
    assert_eq!(cache.header.version, "2.1");
    assert_eq!(cache.header.num_entry, 1);
    assert_eq!(cache.header.num_byte, 100);
    assert_eq!(cache.header.last_file_created, "f_00002a");
    assert_eq!(cache.header.table_len, 1);
    assert_eq!(cache.base_path, "base");
    assert_eq!(cache.entries.len(), 1);
    let e = &cache.entries[0];
    match &e.key {
        Key::LocalKey(s) => assert_eq!(s, "a/b/cache_entry"),
        _ => panic!("wrong key kind"),
    }
    assert_eq!(e.data.len(), 1);
    assert!(e.header.is_none());

    let plan = cache.copy_plan(e).expect("a local-key entry has a copy plan");
    assert_eq!(plan.dest_name, "cache_entry");
    assert!(plan.whole_file);
    assert_eq!(plan.source, "f_00002a");
    assert_eq!(plan.length, 5);
}

#[test]
fn copy_plan_for_block_payload() {
    let rec = record(1, 0, 0, 3, [40, 0, 0, 0], [encode_word(2, 0, 0, 1), 0, 0, 0], b"key");
    let mut file0 = vec![0u8; 8192 + 512];
    file0[8192..8192 + rec.len()].copy_from_slice(&rec);
    let mut files = BlockFiles::new();
    files.add(0, file0);
    let index = index_bytes(&[encode_word(2, 0, 0, 0)]);
    let cache = parse(index, &files, "base".to_string()).unwrap();
    let plan = cache.copy_plan(&cache.entries[0]).unwrap();
    assert!(!plan.whole_file);
    assert_eq!(plan.source, "data_0");
    assert_eq!(plan.offset, 8192 + 256);
    assert_eq!(plan.length, 40);
    assert_eq!(plan.dest_name, "key");
}

#[test]
fn copy_plan_absent_for_datakey_entry() {
    let rec = record(1, 0, encode_word(0, 1, 0, 0), 9, [0; 4], [0; 4], b"");
    let mut file0 = vec![0u8; 8192 + 256];
    file0[8192..8192 + rec.len()].copy_from_slice(&rec);
    let mut files = BlockFiles::new();
    files.add(0, file0);
    let index = index_bytes(&[encode_word(2, 0, 0, 0)]);
    let cache = parse(index, &files, "base".to_string()).unwrap();
    assert!(cache.copy_plan(&cache.entries[0]).is_none());
}

#[test]
fn bad_magic_fails_the_load() {
    let mut index = index_bytes(&[]);
    index[0] = 0;
    let files = BlockFiles::new();
    assert!(matches!(parse(index, &files, String::new()), Err(Error::MagicError)));
}

#[test]
fn short_index_names_the_header() {
    let files = BlockFiles::new();
    match parse(vec![1, 2, 3], &files, String::new()) {
        Err(Error::UnexpectedEOF(loc)) => assert_eq!(loc, "IndexHeader"),
        _ => panic!("expected a short read"),
    }
}

#[test]
fn short_table_names_the_table() {
    let mut index = index_bytes(&[encode_word(2, 0, 0, 0)]);
    index.truncate(INDEX_HEADER_SIZE + 10);
    let files = BlockFiles::new();
    match parse(index, &files, String::new()) {
        Err(Error::UnexpectedEOF(loc)) => assert_eq!(loc, "Index AddressTable"),
        _ => panic!("expected a short read"),
    }
}

#[test]
fn empty_table_loads_no_entries() {
    let index = index_bytes(&[]);
    let files = BlockFiles::new();
    let cache = parse(index, &files, String::new()).unwrap();
    assert!(cache.entries.is_empty());
}

#[test]
fn null_table_slots_are_skipped() {
    let rec = record(9, 0, 0, 1, [0; 4], [0; 4], b"k");
    let mut file0 = vec![0u8; 8192 + 256];
    file0[8192..8192 + rec.len()].copy_from_slice(&rec);
    let mut files = BlockFiles::new();
    files.add(0, file0);
    let index = index_bytes(&[0, encode_word(2, 0, 0, 0), 0]);
    let cache = parse(index, &files, String::new()).unwrap();
    assert_eq!(cache.entries.len(), 1);
    assert_eq!(cache.entries[0].hash, 9);
}
