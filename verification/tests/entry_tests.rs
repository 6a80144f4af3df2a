use diskcache::address::{Address, encode_word};
use diskcache::entry::{Entry, Key};
use diskcache::error::Error;
use diskcache::reader::Reader;
use diskcache::store::BlockFiles;

fn push_u32(v: &mut Vec<u8>, x: u32) {
    v.extend_from_slice(&x.to_le_bytes());
}

fn record(hash: u32, next: u32, key_addr: u32, key_length: u32, sizes: [u32; 4], addrs: [u32; 4], key: &[u8]) -> Vec<u8> {
    let mut v = Vec::new();
    push_u32(&mut v, hash);
    push_u32(&mut v, next);
    push_u32(&mut v, 0x11); // ranking_node
    push_u32(&mut v, 1); // usage_count
    push_u32(&mut v, 2); // reuse_count
    push_u32(&mut v, 3); // state
    v.extend_from_slice(&123456789i64.to_le_bytes()); // creation_time
    push_u32(&mut v, key_length);
    push_u32(&mut v, key_addr);
    for s in sizes {
        push_u32(&mut v, s);
    }
    for a in addrs {
        push_u32(&mut v, a);
    }
    push_u32(&mut v, 0x20); // flags
    v.extend_from_slice(&[0u8; 20]);
    v.extend_from_slice(key);
    v
}

fn block_file(records: Vec<(usize, Vec<u8>)>) -> Vec<u8> {
    // a block file: fixed 8192-byte header, then 256-byte blocks
    let mut f = vec![0u8; 8192 + 256 * 8];
    for (block, bytes) in records {
        let off = 8192 + 256 * block;
        f[off..off + bytes.len()].copy_from_slice(&bytes);
    }
    f
}

fn block_addr(n: u32) -> u32 {
    encode_word(2, 0, 0, n)
}

#[test]
fn parse_inline_key_record() {
    let buf = record(0xdead, 0, 0, 5, [0; 4], [0; 4], b"ab/cd");
    let mut rd = Reader::new(buf);
    let (e, next) = Entry::parse(&mut rd).unwrap();
    assert!(next.is_none());
    assert_eq!(e.hash, 0xdead);
    assert_eq!(e.ranking_node, 0x11);
    assert_eq!(e.usage_count, 1);
    assert_eq!(e.reuse_count, 2);
    assert_eq!(e.state, 3);
    assert_eq!(e.creation_time, 123456789);
    assert_eq!(e.flags, 0x20);
    assert!(e.key.is_local_key());
    assert!(!e.key.is_datakey());
    match &e.key {
        Key::LocalKey(s) => assert_eq!(s, "ab/cd"),
        _ => panic!("wrong key kind"),
    }
    assert!(e.data.is_empty());
    assert!(e.header.is_none());
}

#[test]
fn parse_datakey_record_and_data_slots() {
    let ka = encode_word(0, 1, 0, 0);
    let buf = record(5, 0, ka, 64, [10, 20, 0, 0], [block_addr(4), 0, block_addr(6), 0], b"");
    let mut rd = Reader::new(buf);
    let (e, _) = Entry::parse(&mut rd).unwrap();
    match &e.key {
        Key::DataKey(a, n) => {
            assert_eq!(a.addr, ka);
            assert_eq!(*n, 64);
        },
        _ => panic!("wrong key kind"),
    }
    // null slots are dropped, the rest keep their declared sizes in order
    assert_eq!(e.data.len(), 2);
    assert_eq!(e.data[0].0.addr, block_addr(4));
    assert_eq!(e.data[0].1, 10);
    assert_eq!(e.data[1].0.addr, block_addr(6));
    assert_eq!(e.data[1].1, 0);
}

#[test]
fn parse_short_record_is_eof() {
    let mut rd = Reader::new(vec![0u8; 40]);
    assert!(matches!(Entry::parse(&mut rd), Err(Error::UnexpectedEOF(_))));
}

#[test]
fn parse_truncated_inline_key_degrades_to_empty() {
    let mut buf = record(1, 0, 0, 50, [0; 4], [0; 4], b"");
    buf.truncate(80); // fewer than 20 + key_length bytes remain
    let mut rd = Reader::new(buf);
    let (e, _) = Entry::parse(&mut rd).unwrap();
    match &e.key {
        Key::LocalKey(s) => assert_eq!(s, ""),
        _ => panic!("wrong key kind"),
    }
}

#[test]
fn chain_of_three_records_in_order() {
    let r0 = record(100, block_addr(1), 0, 2, [0; 4], [0; 4], b"k0");
    let r1 = record(101, block_addr(2), 0, 2, [0; 4], [0; 4], b"k1");
    let r2 = record(102, 0, 0, 2, [0; 4], [0; 4], b"k2");
    let mut files = BlockFiles::new();
    files.add(0, block_file(vec![(0, r0), (1, r1), (2, r2)]));
    let start = Address::from_word(block_addr(0)).unwrap().unwrap();
    let es = Entry::get_all(start, &files).unwrap();
    assert_eq!(es.len(), 3);
    assert_eq!(es[0].hash, 100);
    assert_eq!(es[1].hash, 101);
    assert_eq!(es[2].hash, 102);
}

#[test]
fn chain_cycle_is_rejected() {
    let r0 = record(100, block_addr(1), 0, 2, [0; 4], [0; 4], b"k0");
    let r1 = record(101, block_addr(0), 0, 2, [0; 4], [0; 4], b"k1");
    let mut files = BlockFiles::new();
    files.add(0, block_file(vec![(0, r0), (1, r1)]));
    let start = Address::from_word(block_addr(0)).unwrap().unwrap();
    assert!(matches!(Entry::get_all(start, &files), Err(Error::CyclicChain)));
}

#[test]
fn chain_self_cycle_is_rejected() {
    let r0 = record(100, block_addr(0), 0, 2, [0; 4], [0; 4], b"k0");
    let mut files = BlockFiles::new();
    files.add(0, block_file(vec![(0, r0)]));
    let start = Address::from_word(block_addr(0)).unwrap().unwrap();
    assert!(matches!(Entry::get_all(start, &files), Err(Error::CyclicChain)));
}

#[test]
fn inline_key_with_invalid_text_fails() {
    let buf = record(1, 0, 0, 2, [0; 4], [0; 4], &[0xff, 0xfe]);
    let mut rd = Reader::new(buf);
    assert!(matches!(Entry::parse(&mut rd), Err(Error::StringParseError)));
}

#[test]
fn overlong_chain_is_rejected() {
    // 10001 linked records outrun the traversal's depth bound
    let last: usize = 10000;
    let mut f = vec![0u8; 8192 + 256 * (last + 1)];
    for i in 0..=last {
        let next = if i < last { block_addr(i as u32 + 1) } else { block_addr(0) };
        let r = record(i as u32, next, 0, 1, [0; 4], [0; 4], b"k");
        let off = 8192 + 256 * i;
        f[off..off + r.len()].copy_from_slice(&r);
    }
    let mut files = BlockFiles::new();
    files.add(0, f);
    let start = Address::from_word(block_addr(1)).unwrap().unwrap();
    assert!(matches!(Entry::get_all(start, &files), Err(Error::ChainTooDeep)));
}

#[test]
fn chain_into_missing_file_is_io_error() {
    let files = BlockFiles::new();
    let start = Address::from_word(block_addr(0)).unwrap().unwrap();
    assert!(matches!(Entry::get_all(start, &files), Err(Error::IOError(_))));
}

#[test]
fn chain_past_end_of_file_is_eof() {
    let mut files = BlockFiles::new();
    files.add(0, vec![0u8; 8192]); // no blocks at all
    let start = Address::from_word(block_addr(0)).unwrap().unwrap();
    assert!(matches!(Entry::get_all(start, &files), Err(Error::UnexpectedEOF(_))));
}

#[test]
fn datakey_header_classification_keeps_data() {
    // the key block holds an embedded HTTP header; the two data blocks
    // stay untouched
    let mut header_block = Vec::new();
    header_block.extend_from_slice(b"HTTP/1.1 200 OK\0Server: nginx");
    header_block.extend_from_slice(&[0, 0]);
    let r0 = record(7, 0, block_addr(1), 30, [10, 20, 0, 0], [block_addr(2), block_addr(3), 0, 0], b"");
    let mut files = BlockFiles::new();
    files.add(0, block_file(vec![(0, r0), (1, header_block)]));
    let start = Address::from_word(block_addr(0)).unwrap().unwrap();
    let es = Entry::new(start, &files).unwrap();
    assert_eq!(es.len(), 1);
    let h = es[0].header.as_ref().expect("header should be attached");
    assert_eq!(h.server_responce, "HTTP/1.1 200 OK");
    assert_eq!(h.server_name, "nginx");
    assert_eq!(es[0].data.len(), 2);
}

#[test]
fn localkey_first_header_block_moves_out_of_data() {
    let mut header_block = Vec::new();
    header_block.extend_from_slice(b"HTTP/1.1 200 OK");
    header_block.extend_from_slice(&[0, 0]);
    let r0 = record(7, 0, 0, 2, [10, 20, 30, 0], [block_addr(2), block_addr(3), block_addr(4), 0], b"k0");
    let mut files = BlockFiles::new();
    files.add(0, block_file(vec![(0, r0), (3, header_block)]));
    let start = Address::from_word(block_addr(0)).unwrap().unwrap();
    let es = Entry::new(start, &files).unwrap();
    assert_eq!(es.len(), 1);
    assert!(es[0].header.is_some());
    // the header block left the data list; the blocks around it stayed
    assert_eq!(es[0].data.len(), 2);
    assert_eq!(es[0].data[0].0.addr, block_addr(2));
    assert_eq!(es[0].data[1].0.addr, block_addr(4));
}
