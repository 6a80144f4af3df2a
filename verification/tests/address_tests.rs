use diskcache::address::{Address, BlockType, encode_word};
use diskcache::error::{AddressErrorKind, Error};
use diskcache::reader::Reader;

#[test]
fn decode_zero_is_no_address() {
    let r = Address::from_word(0);
    assert!(matches!(r, Ok(None)));
}

#[test]
fn decode_below_threshold_is_uninitialized() {
    let r = Address::from_word(0x7fffffff);
    assert!(matches!(r, Err(Error::AddressError(AddressErrorKind::UnInitialized))));
    let r = Address::from_word(1);
    assert!(matches!(r, Err(Error::AddressError(AddressErrorKind::UnInitialized))));
    let r = Address::from_word(2);
    assert!(matches!(r, Err(Error::AddressError(AddressErrorKind::UnInitialized))));
}

#[test]
fn decode_unknown_tag_is_invalid_block_type() {
    for tag in 5u32..=7 {
        let w = 0x80000000u32 | (tag << 28);
        let r = Address::from_word(w);
        assert!(matches!(r, Err(Error::AddressError(AddressErrorKind::InvalidBlockType))));
    }
}

#[test]
fn decode_separate_file() {
    let w = encode_word(0, 0x2a, 0, 0);
    assert_eq!(w, 0x8000002a);
    let a = Address::from_word(w).unwrap().unwrap();
    assert_eq!(a.addr, w);
    assert_eq!(a.blocktype, BlockType::SeparateFile);
    assert_eq!(a.file_name, "f_00002a");
    assert_eq!(a.contiguous_block, 0);
    assert_eq!(a.block_number, 0);
}

#[test]
fn decode_separate_file_wide_index() {
    // an index that needs all seven hex digits keeps them all
    let a = Address::from_word(encode_word(0, 0x0abcdef1, 0, 0)).unwrap().unwrap();
    assert_eq!(a.file_name, "f_abcdef1");
}

#[test]
fn decode_ranking_block() {
    let w = encode_word(1, 7, 0, 0);
    let a = Address::from_word(w).unwrap().unwrap();
    assert_eq!(a.blocktype, BlockType::RankingBlock);
    assert_eq!(a.file_name, "data_7");
    assert_eq!(a.contiguous_block, 0);
    assert_eq!(a.block_number, 0);
}

#[test]
fn decode_block_kinds_round_trip() {
    // decoding a packed word recovers the fields, and re-encoding the
    // fields reproduces the word
    let cases = [
        (2u32, BlockType::Block256),
        (3u32, BlockType::Block1024),
        (4u32, BlockType::Block4096),
    ];
    for (tag, bt) in cases {
        let w = encode_word(tag, 3, 2, 0x1234);
        let a = Address::from_word(w).unwrap().unwrap();
        assert_eq!(a.blocktype, bt);
        assert_eq!(a.file_name, "data_3");
        assert_eq!(a.contiguous_block, 2);
        assert_eq!(a.block_number, 0x1234);
        assert_eq!(encode_word(tag, 3, a.contiguous_block, a.block_number), w);
    }
}

#[test]
fn block_sizes() {
    assert_eq!(BlockType::SeparateFile.get_size(), 0);
    assert_eq!(BlockType::RankingBlock.get_size(), 36);
    assert_eq!(BlockType::Block256.get_size(), 256);
    assert_eq!(BlockType::Block1024.get_size(), 1024);
    assert_eq!(BlockType::Block4096.get_size(), 4096);
}

#[test]
fn parse_null_to_error_reports_null() {
    let mut rd = Reader::new(vec![0, 0, 0, 0]);
    let r = Address::parse_null_to_error(&mut rd);
    assert!(matches!(r, Err(Error::AddressError(AddressErrorKind::NullAddress))));
}

#[test]
fn parse_reads_little_endian() {
    let mut rd = Reader::new(vec![0x34, 0x12, 0x00, 0xa0]);
    let a = Address::parse(&mut rd).unwrap().unwrap();
    assert_eq!(a.addr, 0xa0001234);
    assert_eq!(a.blocktype, BlockType::Block256);
    assert_eq!(a.block_number, 0x1234);
}

#[test]
fn parse_short_input_is_eof() {
    let mut rd = Reader::new(vec![1, 2, 3]);
    let r = Address::parse(&mut rd);
    assert!(matches!(r, Err(Error::UnexpectedEOF(_))));
}

#[test]
fn reader_reads_values_in_order() {
    let mut rd = Reader::new(vec![1, 0, 0, 0, 0xff, 0xff, 0xff, 0xff, 0xff, 0xff, 0xff, 0xff]);
    assert_eq!(rd.read_u32().unwrap(), 1);
    assert_eq!(rd.read_i64().unwrap(), -1i64);
    assert!(matches!(rd.read_u32(), Err(Error::UnexpectedEOF(_))));
}

#[test]
fn add_eof_location_names_the_region() {
    let e = Error::UnexpectedEOF(String::new()).add_eof_location("IndexHeader");
    match e {
        Error::UnexpectedEOF(loc) => assert_eq!(loc, "IndexHeader"),
        _ => panic!("wrong variant"),
    }
    let e = Error::MagicError.add_eof_location("IndexHeader");
    assert!(matches!(e, Error::MagicError));
}
