use vstd::prelude::*;

pub mod address;
pub mod data;
pub mod entry;
pub mod error;
pub mod index;
pub mod names;
pub mod reader;
pub mod store;

use vstd::utf8::{valid_utf8, decode_utf8, encode_utf8};
use crate::entry::{Entry, EntryView, Key, KeyView, entry_views};
use crate::address::BlockType;
use crate::error::{Error, ErrorView};
use crate::index::{IndexHeader, IndexHeaderView, IndexTable, INDEX_HEADER_SIZE, INDEX_HEADER_PADDING, spec_parse_index_header, spec_parse_table, address_views};
use crate::names::utf8_string;
use crate::reader::Reader;
use crate::store::BlockFiles;

verus! {

/// The decoded catalog of one cache: its index header, every entry
/// reachable from the address table, and the directory the cache was read
/// from.
pub struct Cache {
    pub header: IndexHeader,
    pub entries: Vec<Entry>,
    /// The directory holding the index and block files, kept so payload
    /// copies can name their source files.
    pub base_path: String,
}

/// What decoding a whole cache from the bytes of its index file yields:
/// the header, then the address table after the reserved padding, then the
/// flattened, classified entries of every chain the table points at.
/// An index too short for its own table is a short read, except that a
/// table of zero slots needs no bytes at all.
pub open spec fn spec_parse_cache(b: Seq<u8>, files: BlockFiles) -> Result<(IndexHeaderView, Seq<EntryView>), ErrorView> {
    if b.len() < INDEX_HEADER_SIZE {
        Err(ErrorView::Eof)
    } else {
        match spec_parse_index_header(b) {
            Err(e) => Err(e),
            Ok(h) => {
                if h.table_len > 0 && b.len() < INDEX_HEADER_SIZE + INDEX_HEADER_PADDING + 4 * h.table_len {
                    Err(ErrorView::Eof)
                } else {
                    match spec_parse_table(b.skip(INDEX_HEADER_SIZE + INDEX_HEADER_PADDING), h.table_len as nat) {
                        Err(e) => Err(e),
                        Ok(t) => match IndexTable::spec_analyze(t, files) {
                            Err(e) => Err(e),
                            Ok(es) => Ok((h, es)),
                        },
                    }
                }
            },
        }
    }
}

/// Decodes a whole cache out of the bytes of its index file and the loaded
/// block files. `base_path` names the directory the files came from and is
/// carried through unchanged.
pub fn parse(index: Vec<u8>, files: &BlockFiles, base_path: String) -> (r: Result<Cache, Error>)
    ensures
        match r {
            Ok(c) => {
                &&& spec_parse_cache(index@, *files) == Ok::<(IndexHeaderView, Seq<EntryView>), ErrorView>((c.header@, entry_views(c.entries@)))
                &&& c.base_path@ == base_path@
            },
            Err(e) => (spec_parse_cache(index@, *files) matches Err(ev) && ev == e@),
        },
{
    let ghost b = index@;
    let mut rd = Reader::new(index);
    if rd.remaining() < INDEX_HEADER_SIZE {
        return Err(Error::UnexpectedEOF("IndexHeader".to_owned()));
    }
    let header = match IndexHeader::parse(&mut rd) {
        Ok(h) => h,
        Err(e) => {
            return Err(e.add_eof_location("IndexHeader"));
        },
    };
    proof {
        assert(rd.remaining_bytes() =~= b.skip(32));
    }
    let table = if header.table_len == 0 {
        IndexTable { table: Vec::new() }
    } else {
        match rd.skip(INDEX_HEADER_PADDING) {
            Ok(_) => (),
            Err(_) => {
                return Err(Error::UnexpectedEOF("Index AddressTable".to_owned()));
            },
        }
        proof {
            assert(rd.remaining_bytes() =~= b.skip(INDEX_HEADER_SIZE + INDEX_HEADER_PADDING));
        }
        if (rd.remaining() as u64) < (header.table_len as u64) * 4 {
            return Err(Error::UnexpectedEOF("Index AddressTable".to_owned()));
        }
        match IndexTable::parse(&mut rd, header.table_len) {
            Ok(t) => t,
            Err(e) => {
                return Err(e);
            },
        }
    };
    proof {
        if header@.table_len == 0 {
            assert(address_views(table.table@) =~= Seq::<crate::address::AddressView>::empty());
            assert(spec_parse_table(b.skip(INDEX_HEADER_SIZE + INDEX_HEADER_PADDING), 0) == Ok::<Seq<crate::address::AddressView>, ErrorView>(Seq::empty()));
        }
    }
    let entries = match table.analyze(files) {
        Ok(es) => es,
        Err(e) => {
            return Err(e);
        },
    };
    Ok(Cache { header, entries, base_path })
}

/// The position of the last occurrence of `v` in `b`.
pub open spec fn spec_rfind(b: Seq<u8>, v: u8) -> Option<int>
    decreases b.len(),
{
    if b.len() == 0 {
        None
    } else if b.last() == v {
        Some(b.len() - 1)
    } else {
        spec_rfind(b.drop_last(), v)
    }
}

/// The bytes after the last slash of `b`, or all of `b` when it has none.
pub open spec fn spec_after_last_slash(b: Seq<u8>) -> Seq<u8> {
    match spec_rfind(b, 0x2f) {
        None => b,
        Some(i) => b.skip(i + 1),
    }
}

fn find_last_byte(b: &[u8], v: u8) -> (r: Option<usize>)
    ensures
        match r {
            Some(i) => spec_rfind(b@, v) == Some(i as int) && i < b@.len(),
            None => spec_rfind(b@, v) is None,
        },
{
    let mut i: usize = b.len();
    proof {
        assert(b@.take(b@.len() as int) =~= b@);
    }
    while i > 0
        invariant
            i <= b@.len(),
            spec_rfind(b@, v) == spec_rfind(b@.take(i as int), v),
        decreases i,
    {
        i = i - 1;
        if b[i] == v {
            proof {
                assert(b@.take(i + 1).last() == b@[i as int]);
            }
            return Some(i);
        }
        proof {
            assert(b@.take(i + 1).last() == b@[i as int]);
            assert(b@.take(i + 1).drop_last() =~= b@.take(i as int));
        }
    }
    proof {
        assert(b@.take(0) =~= Seq::<u8>::empty());
    }
    None
}

/// The text of an inline key, and nothing for an out-of-line key.
pub open spec fn spec_local_key_text(k: KeyView) -> Seq<char> {
    match k {
        KeyView::LocalKey(s) => s,
        KeyView::DataKey(_, _) => Seq::empty(),
    }
}

/// How one entry's payload is to be copied out of the cache: the whole
/// source file verbatim for an external-file reference, and otherwise the
/// declared byte range of the referenced block, written to a new file named
/// by the last segment of the entry's key.
pub struct CopyPlan {
    /// The name of the cache file the payload is read from.
    pub source: String,
    /// Copy the whole source file rather than a byte range out of it.
    pub whole_file: bool,
    /// Where the payload starts in the source file, for a block reference.
    pub offset: u64,
    /// The declared byte length of the payload, for a block reference.
    pub length: u32,
    /// The name of the file to write: the last path segment of the key.
    pub dest_name: String,
}

impl Cache {
    /// Lays out the copy of one entry's payload. Only an entry with an
    /// inline key and at least one data block has a payload to copy.
    pub fn copy_plan(&self, target: &Entry) -> (r: Option<CopyPlan>)
        ensures
            match r {
                Some(p) => {
                    &&& target@.key is LocalKey
                    &&& target@.data.len() > 0
                    &&& p.source@ == target@.data[0].0.file_name
                    &&& p.whole_file == (target@.data[0].0.blocktype is SeparateFile)
                    &&& (!p.whole_file ==> p.offset == 8192 + target@.data[0].0.block_number * target@.data[0].0.blocktype.spec_size())
                    &&& p.length == target@.data[0].1
                    &&& ({
                        let tail = spec_after_last_slash(encode_utf8(spec_local_key_text(target@.key)));
                        &&& valid_utf8(tail)
                        &&& p.dest_name@ == decode_utf8(tail)
                    })
                },
                None => {
                    ||| !(target@.key is LocalKey)
                    ||| target@.data.len() == 0
                    ||| !valid_utf8(spec_after_last_slash(encode_utf8(spec_local_key_text(target@.key))))
                },
            },
    {
        let key = match &target.key {
            Key::LocalKey(s) => s,
            Key::DataKey(_, _) => {
                return None;
            },
        };
        if target.data.len() == 0 {
            return None;
        }
        let kb = key.as_str().as_bytes();
        let kn = kb.len();
        let tail_start = match find_last_byte(kb, 0x2f) {
            Some(i) => i + 1,
            None => 0,
        };
        let tail = vstd::slice::slice_subrange(kb, tail_start, kn);
        proof {
            assert(tail@ =~= spec_after_last_slash(kb@));
        }
        let dest_name = match utf8_string(vstd::slice::slice_to_vec(tail)) {
            Some(s) => s,
            None => {
                return None;
            },
        };
        let a = &target.data[0].0;
        let whole_file = match a.blocktype {
            BlockType::SeparateFile => true,
            _ => false,
        };
        let size = a.blocktype.get_size();
        proof {
            assert((a.block_number as u64) * (size as u64) <= 0xffffffffu64 * 4096) by (nonlinear_arith)
                requires
                    a.block_number as u64 <= 0xffffffffu64,
                    size as u64 <= 4096,
            ;
        }
        let offset: u64 = if whole_file {
            0
        } else {
            8192u64 + (a.block_number as u64) * (size as u64)
        };
        Some(CopyPlan {
            source: a.file_name.clone(),
            whole_file,
            offset,
            length: target.data[0].1,
            dest_name,
        })
    }
}

} // verus!
