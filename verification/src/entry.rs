use vstd::prelude::*;
use vstd::utf8::{valid_utf8, decode_utf8};
use crate::address::{Address, AddressView, spec_decode, spec_file_number};
use crate::data::{HttpHeader, HttpHeaderView, parse_http_header, spec_parse_http_header};
use crate::error::{Error, ErrorView};
use crate::names::utf8_string;
use crate::reader::{Reader, word_at, long_at};
use crate::store::BlockFiles;

verus! {

/// The longest chain of records this decoder follows before giving up on
/// the entry as malformed.
pub const MAX_CHAIN_LENGTH: usize = 10000;

/// Where the key of an entry lives: spelled inline in the record, or in a
/// separate block named by an address, with its declared length.
pub enum Key {
    LocalKey(String),
    DataKey(Address, u32),
}

/// The mathematical shape of a [`Key`].
pub ghost enum KeyView {
    LocalKey(Seq<char>),
    DataKey(AddressView, u32),
}

impl View for Key {
    type V = KeyView;

    open spec fn view(&self) -> KeyView {
        match self {
            Key::LocalKey(s) => KeyView::LocalKey(s@),
            Key::DataKey(a, n) => KeyView::DataKey(a@, *n),
        }
    }
}

impl Key {
    pub fn is_local_key(&self) -> (r: bool)
        ensures
            r == (self@ is LocalKey),
    {
        match self {
            Key::LocalKey(_) => true,
            _ => false,
        }
    }

    pub fn is_datakey(&self) -> (r: bool)
        ensures
            r == (self@ is DataKey),
    {
        !self.is_local_key()
    }
}

/// One logical cache record, assembled from one or more physical records
/// chained by their "next" addresses. The creation time is kept as it is
/// stored on disk: microseconds since 1601-01-01T00:00:00Z.
pub struct Entry {
    pub hash: u32,
    pub ranking_node: u32,
    pub usage_count: u32,
    pub reuse_count: u32,
    pub state: u32,
    pub creation_time: i64,
    pub flags: u32,
    pub key: Key,
    /// Data blocks still classified as payload, each with its declared size.
    pub data: Vec<(Address, u32)>,
    /// The embedded HTTP header, populated by header classification.
    pub header: Option<HttpHeader>,
}

/// The mathematical shape of an [`Entry`].
pub ghost struct EntryView {
    pub hash: u32,
    pub ranking_node: u32,
    pub usage_count: u32,
    pub reuse_count: u32,
    pub state: u32,
    pub creation_time: i64,
    pub flags: u32,
    pub key: KeyView,
    pub data: Seq<(AddressView, u32)>,
    pub header: Option<HttpHeaderView>,
}

/// The views of a list of data blocks.
pub open spec fn data_views(s: Seq<(Address, u32)>) -> Seq<(AddressView, u32)> {
    s.map_values(|p: (Address, u32)| (p.0@, p.1))
}

impl View for Entry {
    type V = EntryView;

    open spec fn view(&self) -> EntryView {
        EntryView {
            hash: self.hash,
            ranking_node: self.ranking_node,
            usage_count: self.usage_count,
            reuse_count: self.reuse_count,
            state: self.state,
            creation_time: self.creation_time,
            flags: self.flags,
            key: self.key@,
            data: data_views(self.data@),
            header: match &self.header {
                Some(h) => Some(h@),
                None => None,
            },
        }
    }
}

/// The view of an optional address.
pub open spec fn spec_opt_addr(o: Option<Address>) -> Option<AddressView> {
    match o {
        Some(a) => Some(a@),
        None => None,
    }
}

/// The views of a list of entries.
pub open spec fn entry_views(s: Seq<Entry>) -> Seq<EntryView> {
    s.map_values(|e: Entry| e@)
}

/// The data list assembled from the four address slots and their declared
/// sizes: slots whose address is absent are dropped, not kept as holes.
pub open spec fn spec_data_pairs(a0: Option<AddressView>, a1: Option<AddressView>, a2: Option<AddressView>, a3: Option<AddressView>, b: Seq<u8>) -> Seq<(AddressView, u32)> {
    (match a0 {
        Some(a) => seq![(a, word_at(b, 40))],
        None => Seq::empty(),
    }) + (match a1 {
        Some(a) => seq![(a, word_at(b, 44))],
        None => Seq::empty(),
    }) + (match a2 {
        Some(a) => seq![(a, word_at(b, 48))],
        None => Seq::empty(),
    }) + (match a3 {
        Some(a) => seq![(a, word_at(b, 52))],
        None => Seq::empty(),
    })
}

/// What decoding one fixed-layout record from the bytes `b` yields: the
/// entry together with the chain's next address, or the first failure in
/// field order. A record whose inline key is cut short degrades to an
/// empty key instead of failing; the record is still usable for traversal.
pub open spec fn spec_parse_entry(b: Seq<u8>) -> Result<(EntryView, Option<AddressView>), ErrorView> {
    if b.len() < 8 {
        Err(ErrorView::Eof)
    } else {
        match spec_decode(word_at(b, 4)) {
            Err(k) => Err(ErrorView::Address(k)),
            Ok(next) => {
                if b.len() < 40 {
                    Err(ErrorView::Eof)
                } else {
                    match spec_decode(word_at(b, 36)) {
                        Err(k) => Err(ErrorView::Address(k)),
                        Ok(key_addr) => spec_parse_entry_data(b, next, key_addr),
                    }
                }
            },
        }
    }
}

/// The tail of record decoding: the four data slots, the flags, and the key.
pub open spec fn spec_parse_entry_data(b: Seq<u8>, next: Option<AddressView>, key_addr: Option<AddressView>) -> Result<(EntryView, Option<AddressView>), ErrorView> {
    if b.len() < 60 {
        Err(ErrorView::Eof)
    } else {
        match spec_decode(word_at(b, 56)) {
            Err(k) => Err(ErrorView::Address(k)),
            Ok(a0) => {
                if b.len() < 64 {
                    Err(ErrorView::Eof)
                } else {
                    match spec_decode(word_at(b, 60)) {
                        Err(k) => Err(ErrorView::Address(k)),
                        Ok(a1) => {
                            if b.len() < 68 {
                                Err(ErrorView::Eof)
                            } else {
                                match spec_decode(word_at(b, 64)) {
                                    Err(k) => Err(ErrorView::Address(k)),
                                    Ok(a2) => {
                                        if b.len() < 72 {
                                            Err(ErrorView::Eof)
                                        } else {
                                            match spec_decode(word_at(b, 68)) {
                                                Err(k) => Err(ErrorView::Address(k)),
                                                Ok(a3) => {
                                                    if b.len() < 76 {
                                                        Err(ErrorView::Eof)
                                                    } else {
                                                        match spec_parse_key(b, key_addr) {
                                                            Err(e) => Err(e),
                                                            Ok(key) => Ok((
                                                                EntryView {
                                                                    hash: word_at(b, 0),
                                                                    ranking_node: word_at(b, 8),
                                                                    usage_count: word_at(b, 12),
                                                                    reuse_count: word_at(b, 16),
                                                                    state: word_at(b, 20),
                                                                    creation_time: long_at(b, 24),
                                                                    flags: word_at(b, 72),
                                                                    key,
                                                                    data: spec_data_pairs(a0, a1, a2, a3, b),
                                                                    header: None,
                                                                },
                                                                next,
                                                            )),
                                                        }
                                                    }
                                                },
                                            }
                                        }
                                    },
                                }
                            }
                        },
                    }
                }
            },
        }
    }
}

/// The key of a record: out-of-line when the key address is present, and
/// otherwise spelled inline after a fixed gap of 20 bytes. An inline key
/// for which too few bytes remain degrades to an empty key.
pub open spec fn spec_parse_key(b: Seq<u8>, key_addr: Option<AddressView>) -> Result<KeyView, ErrorView> {
    let key_length = word_at(b, 32);
    match key_addr {
        Some(a) => Ok(KeyView::DataKey(a, key_length)),
        None => {
            if b.len() - 76 < 20 + key_length {
                Ok(KeyView::LocalKey(Seq::empty()))
            } else {
                let kb = b.subrange(96, 96 + key_length);
                if valid_utf8(kb) {
                    Ok(KeyView::LocalKey(decode_utf8(kb)))
                } else {
                    Err(ErrorView::BadString)
                }
            }
        },
    }
}

impl Entry {
    /// Decodes exactly one fixed-layout record from the cursor, returning
    /// the entry plus the chain's next address, if any.
    #[verifier::loop_isolation(false)]
    #[verifier::rlimit(100)]
    pub fn parse(input: &mut Reader) -> (r: Result<(Entry, Option<Address>), Error>)
        requires
            old(input).wf(),
        ensures
            final(input).wf(),
            ({
                let b = old(input).remaining_bytes();
                match r {
                    Ok(p) => spec_parse_entry(b) == Ok::<(EntryView, Option<AddressView>), ErrorView>((p.0@, spec_opt_addr(p.1))),
                    Err(e) => (spec_parse_entry(b) matches Err(ev) && ev == e@),
                }
            }),
    {
        let ghost b = old(input).remaining_bytes();
        let hash = match input.read_u32() {
            Ok(v) => v,
            Err(e) => {
                return Err(e);
            },
        };
        proof {
            assert(input.remaining_bytes() =~= b.skip(4));
            if b.len() >= 8 {
                assert(b.skip(4).subrange(0, 4) =~= b.subrange(4, 8));
            }
        }
        let next = match Address::parse(input) {
            Ok(v) => v,
            Err(e) => {
                return Err(e);
            },
        };
        proof {
            assert(input.remaining_bytes() =~= b.skip(8));
            if b.len() >= 12 {
                assert(b.skip(8).subrange(0, 4) =~= b.subrange(8, 12));
            }
        }
        let ranking_node = match input.read_u32() {
            Ok(v) => v,
            Err(e) => {
                return Err(e);
            },
        };
        proof {
            assert(input.remaining_bytes() =~= b.skip(12));
            if b.len() >= 16 {
                assert(b.skip(12).subrange(0, 4) =~= b.subrange(12, 16));
            }
        }
        let usage_count = match input.read_u32() {
            Ok(v) => v,
            Err(e) => {
                return Err(e);
            },
        };
        proof {
            assert(input.remaining_bytes() =~= b.skip(16));
            if b.len() >= 20 {
                assert(b.skip(16).subrange(0, 4) =~= b.subrange(16, 20));
            }
        }
        let reuse_count = match input.read_u32() {
            Ok(v) => v,
            Err(e) => {
                return Err(e);
            },
        };
        proof {
            assert(input.remaining_bytes() =~= b.skip(20));
            if b.len() >= 24 {
                assert(b.skip(20).subrange(0, 4) =~= b.subrange(20, 24));
            }
        }
        let state = match input.read_u32() {
            Ok(v) => v,
            Err(e) => {
                return Err(e);
            },
        };
        proof {
            assert(input.remaining_bytes() =~= b.skip(24));
            if b.len() >= 32 {
                assert(b.skip(24).subrange(0, 8) =~= b.subrange(24, 32));
            }
        }
        let creation_time = match input.read_i64() {
            Ok(v) => v,
            Err(e) => {
                return Err(e);
            },
        };
        proof {
            assert(input.remaining_bytes() =~= b.skip(32));
            if b.len() >= 36 {
                assert(b.skip(32).subrange(0, 4) =~= b.subrange(32, 36));
            }
        }
        let key_length = match input.read_u32() {
            Ok(v) => v,
            Err(e) => {
                return Err(e);
            },
        };
        proof {
            assert(input.remaining_bytes() =~= b.skip(36));
            if b.len() >= 40 {
                assert(b.skip(36).subrange(0, 4) =~= b.subrange(36, 40));
            }
        }
        let key_addr = match Address::parse(input) {
            Ok(v) => v,
            Err(e) => {
                return Err(e);
            },
        };
        proof {
            assert(input.remaining_bytes() =~= b.skip(40));
        }
        let mut sizes: Vec<u32> = Vec::new();
        let mut i: usize = 0;
        while i < 4
            invariant
                input.wf(),
                i <= 4,
                sizes@.len() == i,
                b.len() >= 40 + 4 * i,
                input.remaining_bytes() == b.skip(40 + 4 * i),
                forall|j: int| 0 <= j < i ==> sizes@[j] == word_at(b, 40 + 4 * j),
            decreases 4 - i,
        {
            proof {
                if b.len() >= 40 + 4 * i + 4 {
                    assert(b.skip(40 + 4 * i).subrange(0, 4) =~= b.subrange(40 + 4 * i, 40 + 4 * i + 4));
                }
            }
            let s = match input.read_u32() {
                Ok(v) => v,
                Err(e) => {
                    proof {
                        assert(b.len() < 40 + 4 * i + 4 <= 60);
                    }
                    return Err(e);
                },
            };
            sizes.push(s);
            i = i + 1;
            proof {
                assert(input.remaining_bytes() =~= b.skip(40 + 4 * i));
            }
        }
        proof {
            assert(input.remaining_bytes() == b.skip(56));
            if b.len() >= 60 {
                assert(b.skip(56).subrange(0, 4) =~= b.subrange(56, 60));
            }
        }
        let a0 = match Address::parse(input) {
            Ok(v) => v,
            Err(e) => {
                return Err(e);
            },
        };
        proof {
            assert(input.remaining_bytes() =~= b.skip(60));
            if b.len() >= 64 {
                assert(b.skip(60).subrange(0, 4) =~= b.subrange(60, 64));
            }
        }
        let a1 = match Address::parse(input) {
            Ok(v) => v,
            Err(e) => {
                return Err(e);
            },
        };
        proof {
            assert(input.remaining_bytes() =~= b.skip(64));
            if b.len() >= 68 {
                assert(b.skip(64).subrange(0, 4) =~= b.subrange(64, 68));
            }
        }
        let a2 = match Address::parse(input) {
            Ok(v) => v,
            Err(e) => {
                return Err(e);
            },
        };
        proof {
            assert(input.remaining_bytes() =~= b.skip(68));
            if b.len() >= 72 {
                assert(b.skip(68).subrange(0, 4) =~= b.subrange(68, 72));
            }
        }
        let a3 = match Address::parse(input) {
            Ok(v) => v,
            Err(e) => {
                return Err(e);
            },
        };
        proof {
            assert(input.remaining_bytes() =~= b.skip(72));
            if b.len() >= 76 {
                assert(b.skip(72).subrange(0, 4) =~= b.subrange(72, 76));
            }
        }
        let flags = match input.read_u32() {
            Ok(v) => v,
            Err(e) => {
                return Err(e);
            },
        };
        proof {
            assert(input.remaining_bytes() =~= b.skip(76));
        }
        let mut data: Vec<(Address, u32)> = Vec::new();
        let s0 = sizes[0];
        let s1 = sizes[1];
        let s2 = sizes[2];
        let s3 = sizes[3];
        let ghost ga0 = spec_opt_addr(a0);
        let ghost ga1 = spec_opt_addr(a1);
        let ghost ga2 = spec_opt_addr(a2);
        let ghost ga3 = spec_opt_addr(a3);
        match a0 {
            Some(a) => data.push((a, s0)),
            None => (),
        }
        match a1 {
            Some(a) => data.push((a, s1)),
            None => (),
        }
        match a2 {
            Some(a) => data.push((a, s2)),
            None => (),
        }
        match a3 {
            Some(a) => data.push((a, s3)),
            None => (),
        }
        proof {
            assert(data_views(data@) =~= spec_data_pairs(ga0, ga1, ga2, ga3, b));
        }
        let key = match key_addr {
            Some(a) => Key::DataKey(a, key_length),
            None => {
                let rem = input.remaining();
                if (rem as u64) < 20u64 + (key_length as u64) {
                    Key::LocalKey(String::new())
                } else {
                    match input.skip(20) {
                        Ok(_) => (),
                        Err(e) => {
                            return Err(e);
                        },
                    }
                    proof {
                        assert(input.remaining_bytes() =~= b.skip(96));
                    }
                    let kb = match input.read_vec(key_length as usize) {
                        Ok(v) => v,
                        Err(e) => {
                            return Err(e);
                        },
                    };
                    proof {
                        assert(kb@ =~= b.subrange(96, 96 + key_length));
                    }
                    match utf8_string(kb) {
                        None => {
                            return Err(Error::StringParseError);
                        },
                        Some(s) => Key::LocalKey(s),
                    }
                }
            },
        };
        Ok((
            Entry {
                hash,
                ranking_node,
                usage_count,
                reuse_count,
                state,
                creation_time,
                flags,
                key,
                data,
                header: None,
            },
            next,
        ))
    }
}

/// The raw bytes of the physical record an address points at: the record
/// spans `contiguous_block + 1` blocks starting at `block_number`, after
/// the fixed 8192-byte file header. An address whose block kind has no
/// width reads no bytes at all; a missing block file, or a record past the
/// end of its file, is a failure.
pub open spec fn spec_record_bytes(files: BlockFiles, a: AddressView) -> Result<Seq<u8>, ErrorView> {
    let size = a.blocktype.spec_size();
    if size == 0 {
        Ok(Seq::empty())
    } else {
        match files.spec_file(spec_file_number(a.addr)) {
            None => Err(ErrorView::Io),
            Some(f) => {
                let off = 8192 + a.block_number * size;
                let len = size * (a.contiguous_block + 1);
                if off + len <= f.len() {
                    Ok(f.subrange(off, off + len))
                } else {
                    Err(ErrorView::Eof)
                }
            },
        }
    }
}

fn record_bytes(addr: &Address, files: &BlockFiles) -> (r: Result<Vec<u8>, Error>)
    ensures
        match r {
            Ok(v) => spec_record_bytes(*files, addr@) == Ok::<Seq<u8>, ErrorView>(v@),
            Err(e) => spec_record_bytes(*files, addr@) == Err::<Seq<u8>, ErrorView>(e@),
        },
{
    let size = addr.blocktype.get_size();
    if size == 0 {
        let v: Vec<u8> = Vec::new();
        proof {
            assert(v@ =~= Seq::<u8>::empty());
        }
        return Ok(v);
    }
    let f = match files.get(addr.file_number()) {
        None => {
            return Err(Error::IOError(addr.file_name.clone()));
        },
        Some(f) => f,
    };
    let off64: u64 = 8192u64 + (addr.block_number as u64) * (size as u64);
    let len64: u64 = (size as u64) * ((addr.contiguous_block as u64) + 1);
    if off64 + len64 > f.len() as u64 {
        return Err(Error::UnexpectedEOF(String::new()));
    }
    let off = off64 as usize;
    let len = len64 as usize;
    let s = vstd::slice::slice_subrange(f.as_slice(), off, off + len);
    let v = vstd::slice::slice_to_vec(s);
    proof {
        let fv = files.spec_file(spec_file_number(addr.addr))->0;
        let size_s = addr@.blocktype.spec_size();
        let off_s = 8192 + addr@.block_number * size_s;
        let len_s = size_s * (addr@.contiguous_block + 1);
        assert(v@ =~= fv.subrange(off_s, off_s + len_s));
    }
    Ok(v)
}

/// What following a chain of records from an address yields: the records
/// in traversal order, a cycle error on an address already followed in
/// this chain, and a depth error when the chain outruns its fuel.
pub open spec fn spec_chain(files: BlockFiles, a: AddressView, visited: Seq<u32>, fuel: nat) -> Result<Seq<EntryView>, ErrorView>
    decreases fuel,
{
    if visited.contains(a.addr) {
        Err(ErrorView::Cycle)
    } else if fuel == 0 {
        Err(ErrorView::TooDeep)
    } else {
        match spec_record_bytes(files, a) {
            Err(e) => Err(e),
            Ok(b) => match spec_parse_entry(b) {
                Err(e) => Err(e),
                Ok(p) => match p.1 {
                    None => Ok(seq![p.0]),
                    Some(na) => match spec_chain(files, na, visited.push(a.addr), (fuel - 1) as nat) {
                        Err(x) => Err(x),
                        Ok(rest) => Ok(seq![p.0] + rest),
                    },
                },
            },
        }
    }
}

/// A chain that returns to an address already followed in the same chain
/// is rejected as a cycle, never followed again.
pub proof fn lemma_chain_revisit(files: BlockFiles, a: AddressView, visited: Seq<u32>, fuel: nat)
    requires
        visited.contains(a.addr),
    ensures
        spec_chain(files, a, visited, fuel) == Err::<Seq<EntryView>, ErrorView>(ErrorView::Cycle),
{
}

/// A chain that is followed to its end holds at least one record and at
/// most as many as the fuel it was given.
pub proof fn lemma_chain_ok_len(files: BlockFiles, a: AddressView, visited: Seq<u32>, fuel: nat, es: Seq<EntryView>)
    requires
        spec_chain(files, a, visited, fuel) == Ok::<Seq<EntryView>, ErrorView>(es),
    ensures
        1 <= es.len() <= fuel,
    decreases fuel,
{
    if !visited.contains(a.addr) && fuel != 0 {
        match spec_record_bytes(files, a) {
            Err(_) => {},
            Ok(b) => {
                match spec_parse_entry(b) {
                    Err(_) => {},
                    Ok(p) => {
                        match p.1 {
                            None => {},
                            Some(na) => {
                                match spec_chain(files, na, visited.push(a.addr), (fuel - 1) as nat) {
                                    Err(_) => {},
                                    Ok(rest) => {
                                        lemma_chain_ok_len(files, na, visited.push(a.addr), (fuel - 1) as nat, rest);
                                    },
                                }
                            },
                        }
                    },
                }
            },
        }
    }
}

/// A table of records linked one to the next through distinct addresses
/// decodes to exactly those records, in link order: following the chain
/// from the first address yields every entry, first to last.
pub proof fn lemma_chain_linear(files: BlockFiles, addrs: Seq<AddressView>, entries: Seq<EntryView>, visited: Seq<u32>, fuel: nat)
    requires
        addrs.len() == entries.len(),
        1 <= addrs.len() <= fuel,
        forall|i: int, j: int| 0 <= i < j < addrs.len() ==> addrs[i].addr != addrs[j].addr,
        forall|i: int| 0 <= i < addrs.len() ==> !visited.contains(#[trigger] addrs[i].addr),
        forall|i: int| 0 <= i < addrs.len() ==> (#[trigger] spec_record_bytes(files, addrs[i]) matches Ok(b)
            && spec_parse_entry(b) == Ok::<(EntryView, Option<AddressView>), ErrorView>(
            (entries[i], if i + 1 < addrs.len() { Some(addrs[i + 1]) } else { None }),
        )),
    ensures
        spec_chain(files, addrs[0], visited, fuel) == Ok::<Seq<EntryView>, ErrorView>(entries),
    decreases addrs.len(),
{
    assert(spec_record_bytes(files, addrs[0]) is Ok);
    let b = spec_record_bytes(files, addrs[0])->Ok_0;
    if addrs.len() == 1 {
        assert(spec_parse_entry(b) == Ok::<(EntryView, Option<AddressView>), ErrorView>((entries[0], None)));
        assert(seq![entries[0]] =~= entries);
    } else {
        assert(spec_parse_entry(b) == Ok::<(EntryView, Option<AddressView>), ErrorView>((entries[0], Some(addrs[1]))));
        let addrs2 = addrs.drop_first();
        let entries2 = entries.drop_first();
        let visited2 = visited.push(addrs[0].addr);
        assert forall|i: int| 0 <= i < addrs2.len() implies !visited2.contains(#[trigger] addrs2[i].addr) by {
            assert(addrs2[i] == addrs[i + 1]);
            assert(addrs[i + 1].addr != addrs[0].addr);
            assert(!visited.contains(addrs[i + 1].addr));
        }
        assert forall|i: int| 0 <= i < addrs2.len() implies (#[trigger] spec_record_bytes(files, addrs2[i]) matches Ok(b2)
            && spec_parse_entry(b2) == Ok::<(EntryView, Option<AddressView>), ErrorView>(
            (entries2[i], if i + 1 < addrs2.len() { Some(addrs2[i + 1]) } else { None }),
        )) by {
            assert(addrs2[i] == addrs[i + 1]);
            assert(entries2[i] == entries[i + 1]);
            if i + 1 < addrs2.len() {
                assert(addrs2[i + 1] == addrs[i + 2]);
            }
            assert(spec_record_bytes(files, addrs[i + 1]) is Ok);
        }
        lemma_chain_linear(files, addrs2, entries2, visited2, (fuel - 1) as nat);
        assert(spec_chain(files, addrs[1], visited2, (fuel - 1) as nat) == Ok::<Seq<EntryView>, ErrorView>(entries2));
        assert(seq![entries[0]] + entries2 =~= entries);
    }
}

/// Prepending already-collected records to a chain step's outcome.
pub open spec fn chain_combine(pre: Seq<EntryView>, r: Result<Seq<EntryView>, ErrorView>) -> Result<Seq<EntryView>, ErrorView> {
    match r {
        Ok(s) => Ok(pre + s),
        Err(e) => Err(e),
    }
}

pub proof fn lemma_combine_nil(r: Result<Seq<EntryView>, ErrorView>)
    ensures
        chain_combine(Seq::empty(), r) == r,
{
    match r {
        Ok(s) => {
            assert(Seq::<EntryView>::empty() + s =~= s);
        },
        Err(_) => {},
    }
}

proof fn lemma_chain_step(pre: Seq<EntryView>, e: EntryView, r2: Result<Seq<EntryView>, ErrorView>)
    ensures
        chain_combine(pre, match r2 {
            Ok(rest) => Ok::<Seq<EntryView>, ErrorView>(seq![e] + rest),
            Err(x) => Err::<Seq<EntryView>, ErrorView>(x),
        }) == chain_combine(pre.push(e), r2),
{
    match r2 {
        Ok(rest) => {
            assert(pre + (seq![e] + rest) =~= pre.push(e) + rest);
        },
        Err(_) => {},
    }
}

fn contains_addr(v: &Vec<u32>, x: u32) -> (r: bool)
    ensures
        r == v@.contains(x),
{
    let mut i: usize = 0;
    while i < v.len()
        invariant
            i <= v@.len(),
            forall|j: int| 0 <= j < i ==> v@[j] != x,
        decreases v@.len() - i,
    {
        if v[i] == x {
            return true;
        }
        i = i + 1;
    }
    proof {
        assert(!v@.contains(x));
    }
    false
}

impl Entry {
    /// Follows the chain of physical records that starts at `addr`,
    /// decoding each record out of the loaded block files, and returns the
    /// entries in traversal order. A revisited address is rejected as a
    /// cycle and an overlong chain as too deep, instead of looping.
    #[verifier::loop_isolation(false)]
    pub fn get_all(start: Address, files: &BlockFiles) -> (r: Result<Vec<Entry>, Error>)
        ensures
            match r {
                Ok(es) => spec_chain(*files, start@, Seq::empty(), MAX_CHAIN_LENGTH as nat) == Ok::<Seq<EntryView>, ErrorView>(entry_views(es@)),
                Err(e) => spec_chain(*files, start@, Seq::empty(), MAX_CHAIN_LENGTH as nat) == Err::<Seq<EntryView>, ErrorView>(e@),
            },
    {
        let ghost target = spec_chain(*files, start@, Seq::empty(), MAX_CHAIN_LENGTH as nat);
        let mut acc: Vec<Entry> = Vec::new();
        let mut visited: Vec<u32> = Vec::new();
        let mut cur = start;
        proof {
            lemma_combine_nil(target);
            assert(entry_views(acc@) =~= Seq::<EntryView>::empty());
        }
        loop
            invariant
                visited@.len() == acc@.len(),
                visited@.len() <= MAX_CHAIN_LENGTH,
                target == chain_combine(entry_views(acc@), spec_chain(*files, cur@, visited@, (MAX_CHAIN_LENGTH - visited@.len()) as nat)),
            decreases MAX_CHAIN_LENGTH - visited@.len(),
        {
            let ghost fuel = (MAX_CHAIN_LENGTH - visited@.len()) as nat;
            let ghost inner = spec_chain(*files, cur@, visited@, fuel);
            if contains_addr(&visited, cur.addr) {
                proof {
                    assert(inner == Err::<Seq<EntryView>, ErrorView>(ErrorView::Cycle));
                }
                return Err(Error::CyclicChain);
            }
            if visited.len() >= MAX_CHAIN_LENGTH {
                proof {
                    assert(inner == Err::<Seq<EntryView>, ErrorView>(ErrorView::TooDeep));
                }
                return Err(Error::ChainTooDeep);
            }
            let rb = match record_bytes(&cur, files) {
                Ok(v) => v,
                Err(e) => {
                    return Err(e);
                },
            };
            let mut rd = Reader::new(rb);
            let (e, next) = match Entry::parse(&mut rd) {
                Ok(p) => p,
                Err(e) => {
                    return Err(e);
                },
            };
            let ghost prev_acc = acc@;
            let ghost prev_vis = visited@;
            let ghost curv = cur@;
            let ghost ev = e@;
            visited.push(cur.addr);
            acc.push(e);
            proof {
                assert(entry_views(acc@) =~= entry_views(prev_acc).push(ev));
                assert(visited@ =~= prev_vis.push(curv.addr));
            }
            match next {
                None => {
                    proof {
                        assert(inner == Ok::<Seq<EntryView>, ErrorView>(seq![ev]));
                        assert(entry_views(prev_acc) + seq![ev] =~= entry_views(acc@));
                    }
                    return Ok(acc);
                },
                Some(na) => {
                    proof {
                        let r2 = spec_chain(*files, na@, visited@, (fuel - 1) as nat);
                        assert(inner == (match r2 {
                            Ok(rest) => Ok::<Seq<EntryView>, ErrorView>(seq![ev] + rest),
                            Err(x) => Err::<Seq<EntryView>, ErrorView>(x),
                        }));
                        lemma_chain_step(entry_views(prev_acc), ev, r2);
                    }
                    cur = na;
                },
            }
        }
    }
}

/// What classifying the data blocks of an inline-key entry yields: the
/// blocks are scanned in order, the first one holding an embedded HTTP
/// header moves out of the data list into the header slot, and every other
/// block is retained unchanged.
pub open spec fn spec_classify(data: Seq<(AddressView, u32)>, files: BlockFiles) -> Result<(Option<HttpHeaderView>, Seq<(AddressView, u32)>), ErrorView>
    decreases data.len(),
{
    if data.len() == 0 {
        Ok((None, Seq::empty()))
    } else {
        match spec_parse_http_header(files, data[0].0) {
            Err(e) => Err(e),
            Ok(Some(h)) => Ok((Some(h), data.drop_first())),
            Ok(None) => match spec_classify(data.drop_first(), files) {
                Err(e) => Err(e),
                Ok(p) => Ok((p.0, seq![data[0]] + p.1)),
            },
        }
    }
}

/// What header classification does to one entry. For an out-of-line key
/// the key block itself is scanned and the data list stays as it is; for
/// an inline key the data blocks are classified as [`spec_classify`] says.
pub open spec fn spec_analyze(e: EntryView, files: BlockFiles) -> Result<EntryView, ErrorView> {
    match e.key {
        KeyView::DataKey(a, _) => match spec_parse_http_header(files, a) {
            Err(x) => Err(x),
            Ok(h) => Ok(EntryView { header: h, ..e }),
        },
        KeyView::LocalKey(_) => match spec_classify(e.data, files) {
            Err(x) => Err(x),
            Ok(p) => Ok(EntryView { header: p.0, data: p.1, ..e }),
        },
    }
}

/// An entry whose key lives out-of-line, when its key block scans to an
/// embedded HTTP header, comes out of classification with that header
/// attached and its data list unchanged.
pub proof fn lemma_datakey_header_keeps_data(e: EntryView, files: BlockFiles, a: AddressView, n: u32, h: HttpHeaderView)
    requires
        e.key == KeyView::DataKey(a, n),
        spec_parse_http_header(files, a) == Ok::<Option<HttpHeaderView>, ErrorView>(Some(h)),
    ensures
        (spec_analyze(e, files) matches Ok(e2) && e2.header == Some(h) && e2.data == e.data && e2.key == e.key),
{
}

proof fn lemma_classify_step(pre: Seq<(AddressView, u32)>, x: (AddressView, u32), r2: Result<(Option<HttpHeaderView>, Seq<(AddressView, u32)>), ErrorView>)
    ensures
        (match (match r2 {
            Ok(p) => Ok::<(Option<HttpHeaderView>, Seq<(AddressView, u32)>), ErrorView>((p.0, seq![x] + p.1)),
            Err(e) => Err(e),
        }) {
            Ok(p) => Ok::<(Option<HttpHeaderView>, Seq<(AddressView, u32)>), ErrorView>((p.0, pre + p.1)),
            Err(e) => Err(e),
        }) == (match r2 {
            Ok(p) => Ok::<(Option<HttpHeaderView>, Seq<(AddressView, u32)>), ErrorView>((p.0, pre.push(x) + p.1)),
            Err(e) => Err(e),
        }),
{
    match r2 {
        Ok(p) => {
            assert(pre + (seq![x] + p.1) =~= pre.push(x) + p.1);
        },
        Err(_) => {},
    }
}

impl Entry {
    /// Attaches header classification to this entry: scans the key block
    /// for an out-of-line key, and otherwise moves the first data block
    /// holding an embedded HTTP header into the header slot.
    #[verifier::loop_isolation(false)]
    pub fn analyze_header(self, files: &BlockFiles) -> (r: Result<Entry, Error>)
        ensures
            match r {
                Ok(e2) => spec_analyze(self@, *files) == Ok::<EntryView, ErrorView>(e2@),
                Err(e) => spec_analyze(self@, *files) == Err::<EntryView, ErrorView>(e@),
            },
    {
        let ghost sv = self@;
        let Entry { hash, ranking_node, usage_count, reuse_count, state, creation_time, flags, key, data, header: _ } = self;
        match key {
            Key::DataKey(a, n) => {
                let h = match parse_http_header(&a, files) {
                    Ok(h) => h,
                    Err(e) => {
                        return Err(e);
                    },
                };
                Ok(Entry {
                    hash,
                    ranking_node,
                    usage_count,
                    reuse_count,
                    state,
                    creation_time,
                    flags,
                    key: Key::DataKey(a, n),
                    data,
                    header: h,
                })
            },
            Key::LocalKey(s) => {
                let ghost full = data_views(data@);
                let ghost target = spec_classify(full, *files);
                let mut remaining = data;
                let mut rest: Vec<(Address, u32)> = Vec::new();
                let mut header: Option<HttpHeader> = None;
                proof {
                    assert(data_views(rest@) =~= Seq::<(AddressView, u32)>::empty());
                    if target is Ok {
                        assert((match target {
                            Ok(p) => Ok::<(Option<HttpHeaderView>, Seq<(AddressView, u32)>), ErrorView>((p.0, data_views(rest@) + p.1)),
                            Err(e) => Err(e),
                        }) == target) by {
                            match target {
                                Ok(p) => {
                                    assert(data_views(rest@) + p.1 =~= p.1);
                                },
                                Err(_) => {},
                            }
                        }
                    }
                }
                while remaining.len() > 0
                    invariant
                        match header {
                            None => target == (match spec_classify(data_views(remaining@), *files) {
                                Ok(p) => Ok::<(Option<HttpHeaderView>, Seq<(AddressView, u32)>), ErrorView>((p.0, data_views(rest@) + p.1)),
                                Err(x) => Err::<(Option<HttpHeaderView>, Seq<(AddressView, u32)>), ErrorView>(x),
                            }),
                            Some(h) => target == Ok::<(Option<HttpHeaderView>, Seq<(AddressView, u32)>), ErrorView>((Some(h@), data_views(rest@) + data_views(remaining@))),
                        },
                    decreases remaining@.len(),
                {
                    let ghost prev_rem = remaining@;
                    let ghost prev_rest = rest@;
                    let (a, sz) = remaining.remove(0);
                    proof {
                        assert(data_views(prev_rem).drop_first() =~= data_views(remaining@));
                        assert(data_views(prev_rem)[0] == (a@, sz));
                        assert(data_views(prev_rem) =~= seq![(a@, sz)] + data_views(remaining@));
                    }
                    if header.is_some() {
                        rest.push((a, sz));
                        proof {
                            assert(data_views(rest@) =~= data_views(prev_rest).push((a@, sz)));
                            assert(data_views(prev_rest) + (seq![(a@, sz)] + data_views(remaining@)) =~= data_views(rest@) + data_views(remaining@));
                        }
                    } else {
                        match parse_http_header(&a, files) {
                            Err(e) => {
                                return Err(e);
                            },
                            Ok(Some(h)) => {
                                header = Some(h);
                            },
                            Ok(None) => {
                                rest.push((a, sz));
                                proof {
                                    assert(data_views(rest@) =~= data_views(prev_rest).push((a@, sz)));
                                    lemma_classify_step(data_views(prev_rest), (a@, sz), spec_classify(data_views(remaining@), *files));
                                }
                            },
                        }
                    }
                }
                proof {
                    if header is None {
                        assert(spec_classify(data_views(remaining@), *files) == Ok::<(Option<HttpHeaderView>, Seq<(AddressView, u32)>), ErrorView>((None, Seq::empty())));
                        assert(data_views(rest@) + Seq::<(AddressView, u32)>::empty() =~= data_views(rest@));
                    } else {
                        assert(data_views(remaining@) =~= Seq::<(AddressView, u32)>::empty());
                        assert(data_views(rest@) + data_views(remaining@) =~= data_views(rest@));
                    }
                }
                Ok(Entry {
                    hash,
                    ranking_node,
                    usage_count,
                    reuse_count,
                    state,
                    creation_time,
                    flags,
                    key: Key::LocalKey(s),
                    data: rest,
                    header,
                })
            },
        }
    }

    /// What assembling one logical entry from a start address yields: the
    /// chain of records in traversal order, each with its header
    /// classification attached.
    pub open spec fn spec_new(files: BlockFiles, a: AddressView) -> Result<Seq<EntryView>, ErrorView> {
        match spec_chain(files, a, Seq::empty(), MAX_CHAIN_LENGTH as nat) {
            Err(e) => Err(e),
            Ok(es) => spec_analyze_all(es, files),
        }
    }

    /// Follows the chain from `addr` and attaches header classification to
    /// every record of it.
    #[verifier::loop_isolation(false)]
    pub fn new(addr: Address, files: &BlockFiles) -> (r: Result<Vec<Entry>, Error>)
        ensures
            match r {
                Ok(es) => Entry::spec_new(*files, addr@) == Ok::<Seq<EntryView>, ErrorView>(entry_views(es@)),
                Err(e) => Entry::spec_new(*files, addr@) == Err::<Seq<EntryView>, ErrorView>(e@),
            },
    {
        let ghost av = addr@;
        let mut es = match Entry::get_all(addr, files) {
            Ok(es) => es,
            Err(e) => {
                return Err(e);
            },
        };
        let ghost chained = entry_views(es@);
        let ghost target = spec_analyze_all(chained, *files);
        let mut out: Vec<Entry> = Vec::new();
        proof {
            lemma_combine_nil(target);
            assert(entry_views(out@) =~= Seq::<EntryView>::empty());
        }
        while es.len() > 0
            invariant
                target == chain_combine(entry_views(out@), spec_analyze_all(entry_views(es@), *files)),
            decreases es@.len(),
        {
            let ghost prev_es = es@;
            let ghost prev_out = out@;
            let e = es.remove(0);
            proof {
                assert(entry_views(prev_es).drop_first() =~= entry_views(es@));
                assert(entry_views(prev_es)[0] == e@);
            }
            let e2 = match e.analyze_header(files) {
                Ok(e2) => e2,
                Err(e) => {
                    return Err(e);
                },
            };
            out.push(e2);
            proof {
                assert(entry_views(out@) =~= entry_views(prev_out).push(e2@));
                lemma_chain_step(entry_views(prev_out), e2@, spec_analyze_all(entry_views(es@), *files));
            }
        }
        proof {
            assert(entry_views(es@).len() == 0);
            assert(spec_analyze_all(entry_views(es@), *files) == Ok::<Seq<EntryView>, ErrorView>(Seq::empty()));
            assert(entry_views(out@) + Seq::<EntryView>::empty() =~= entry_views(out@));
        }
        Ok(out)
    }
}

/// What classifying every entry of a chain in order yields: the first
/// failure, or all of them classified.
pub open spec fn spec_analyze_all(es: Seq<EntryView>, files: BlockFiles) -> Result<Seq<EntryView>, ErrorView>
    decreases es.len(),
{
    if es.len() == 0 {
        Ok(Seq::empty())
    } else {
        match spec_analyze(es[0], files) {
            Err(e) => Err(e),
            Ok(e2) => match spec_analyze_all(es.drop_first(), files) {
                Err(e) => Err(e),
                Ok(rest) => Ok(seq![e2] + rest),
            },
        }
    }
}

} // verus!
