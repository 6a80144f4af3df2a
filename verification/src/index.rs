use vstd::prelude::*;
use crate::address::{Address, AddressView, spec_decode};
use crate::entry::{Entry, EntryView, entry_views};
use crate::error::{Error, ErrorView};
use crate::names::{ascii_chars, spec_separate_file_name, spec_version_name, separate_file_name, version_name};
use crate::reader::{Reader, word_at};
use crate::store::BlockFiles;

verus! {

/// The number of bytes of the index file that hold the decoded header
/// fields.
pub const INDEX_HEADER_SIZE: usize = 32;

/// The number of reserved bytes between the decoded header fields and the
/// address table, skipped without interpretation.
pub const INDEX_HEADER_PADDING: usize = 4 + 4 + 8 + (4 * 52) + ((4 * 2) + 4 + (4 * 5) * 3 + 4 + 4 + 4 + (4 * 7));

/// The magic constant every index file starts with.
pub const INDEX_MAGIC: u32 = 0xC103CAC3;

/// The decoded fixed header of the index file.
pub struct IndexHeader {
    /// The format version, spelled `major.minor`.
    pub version: String,
    pub num_entry: u32,
    pub num_byte: u32,
    /// The name of the most recently created external cache file.
    pub last_file_created: String,
    /// The number of slots in the address table.
    pub table_len: u32,
}

/// The mathematical shape of an [`IndexHeader`].
pub ghost struct IndexHeaderView {
    pub version: Seq<char>,
    pub num_entry: u32,
    pub num_byte: u32,
    pub last_file_created: Seq<char>,
    pub table_len: u32,
}

impl View for IndexHeader {
    type V = IndexHeaderView;

    open spec fn view(&self) -> IndexHeaderView {
        IndexHeaderView {
            version: self.version@,
            num_entry: self.num_entry,
            num_byte: self.num_byte,
            last_file_created: self.last_file_created@,
            table_len: self.table_len,
        }
    }
}

/// What decoding the fixed index header from `b` yields: a magic mismatch
/// fails the whole load, a short header is a short read, and otherwise the
/// fields stand at their fixed offsets, with the version word split into
/// its high and low halves.
pub open spec fn spec_parse_index_header(b: Seq<u8>) -> Result<IndexHeaderView, ErrorView> {
    if b.len() < 4 {
        Err(ErrorView::Eof)
    } else if word_at(b, 0) != INDEX_MAGIC {
        Err(ErrorView::Magic)
    } else if b.len() < 32 {
        Err(ErrorView::Eof)
    } else {
        let version_raw = word_at(b, 4);
        Ok(
            IndexHeaderView {
                version: ascii_chars(spec_version_name(version_raw >> 16, version_raw & 0xffff)),
                num_entry: word_at(b, 8),
                num_byte: word_at(b, 12),
                last_file_created: ascii_chars(spec_separate_file_name(word_at(b, 16))),
                table_len: word_at(b, 28),
            },
        )
    }
}

impl IndexHeader {
    /// Decodes the fixed index header: the magic constant, the version
    /// word, the counters, the last created file, and the table length,
    /// skipping the reserved fields between them.
    pub fn parse(input: &mut Reader) -> (r: Result<IndexHeader, Error>)
        requires
            old(input).wf(),
        ensures
            final(input).wf(),
            r is Ok ==> final(input).remaining_bytes() == old(input).remaining_bytes().skip(32),
            ({
                let b = old(input).remaining_bytes();
                match r {
                    Ok(h) => spec_parse_index_header(b) == Ok::<IndexHeaderView, ErrorView>(h@),
                    Err(e) => (spec_parse_index_header(b) matches Err(ev) && ev == e@),
                }
            }),
    {
        let ghost b = old(input).remaining_bytes();
        let magic = match input.read_u32() {
            Ok(v) => v,
            Err(e) => {
                return Err(e);
            },
        };
        if magic != INDEX_MAGIC {
            return Err(Error::MagicError);
        }
        proof {
            assert(input.remaining_bytes() =~= b.skip(4));
            if b.len() >= 8 {
                assert(b.skip(4).subrange(0, 4) =~= b.subrange(4, 8));
            }
        }
        let version_raw = match input.read_u32() {
            Ok(v) => v,
            Err(e) => {
                return Err(e);
            },
        };
        proof {
            assert(input.remaining_bytes() =~= b.skip(8));
            if b.len() >= 12 {
                assert(b.skip(8).subrange(0, 4) =~= b.subrange(8, 12));
            }
        }
        let num_entry = match input.read_u32() {
            Ok(v) => v,
            Err(e) => {
                return Err(e);
            },
        };
        proof {
            assert(input.remaining_bytes() =~= b.skip(12));
            if b.len() >= 16 {
                assert(b.skip(12).subrange(0, 4) =~= b.subrange(12, 16));
            }
        }
        let num_byte = match input.read_u32() {
            Ok(v) => v,
            Err(e) => {
                return Err(e);
            },
        };
        proof {
            assert(input.remaining_bytes() =~= b.skip(16));
            if b.len() >= 20 {
                assert(b.skip(16).subrange(0, 4) =~= b.subrange(16, 20));
            }
        }
        let last_file_raw = match input.read_u32() {
            Ok(v) => v,
            Err(e) => {
                return Err(e);
            },
        };
        proof {
            assert(input.remaining_bytes() =~= b.skip(20));
        }
        match input.skip(8) {
            Ok(_) => (),
            Err(e) => {
                return Err(e);
            },
        }
        proof {
            assert(input.remaining_bytes() =~= b.skip(28));
            if b.len() >= 32 {
                assert(b.skip(28).subrange(0, 4) =~= b.subrange(28, 32));
            }
        }
        let table_len = match input.read_u32() {
            Ok(v) => v,
            Err(e) => {
                return Err(e);
            },
        };
        let version = version_name(version_raw >> 16, version_raw & 0xffff);
        let last_file_created = separate_file_name(last_file_raw);
        Ok(IndexHeader { version, num_entry, num_byte, last_file_created, table_len })
    }
}

/// The address table of the index: the non-null addresses of its slots, in
/// slot order.
pub struct IndexTable {
    pub table: Vec<Address>,
}

/// The views of a list of addresses.
pub open spec fn address_views(s: Seq<Address>) -> Seq<AddressView> {
    s.map_values(|a: Address| a@)
}

/// What decoding `n` consecutive address-table slots from `b` yields: the
/// decoded addresses in slot order, with null slots skipped, not kept as
/// empty markers.
pub open spec fn spec_parse_table(b: Seq<u8>, n: nat) -> Result<Seq<AddressView>, ErrorView>
    decreases n,
{
    if n == 0 {
        Ok(Seq::empty())
    } else if b.len() < 4 {
        Err(ErrorView::Eof)
    } else {
        match spec_decode(word_at(b, 0)) {
            Err(k) => Err(ErrorView::Address(k)),
            Ok(None) => spec_parse_table(b.skip(4), (n - 1) as nat),
            Ok(Some(a)) => match spec_parse_table(b.skip(4), (n - 1) as nat) {
                Err(e) => Err(e),
                Ok(rest) => Ok(seq![a] + rest),
            },
        }
    }
}

/// Prepending already-decoded addresses to a table decode's outcome.
pub open spec fn table_combine(pre: Seq<AddressView>, r: Result<Seq<AddressView>, ErrorView>) -> Result<Seq<AddressView>, ErrorView> {
    match r {
        Ok(s) => Ok(pre + s),
        Err(e) => Err(e),
    }
}

proof fn lemma_table_combine_nil(r: Result<Seq<AddressView>, ErrorView>)
    ensures
        table_combine(Seq::empty(), r) == r,
{
    match r {
        Ok(s) => {
            assert(Seq::<AddressView>::empty() + s =~= s);
        },
        Err(_) => {},
    }
}

proof fn lemma_table_step(pre: Seq<AddressView>, a: AddressView, r2: Result<Seq<AddressView>, ErrorView>)
    ensures
        table_combine(pre, match r2 {
            Ok(rest) => Ok::<Seq<AddressView>, ErrorView>(seq![a] + rest),
            Err(x) => Err::<Seq<AddressView>, ErrorView>(x),
        }) == table_combine(pre.push(a), r2),
{
    match r2 {
        Ok(rest) => {
            assert(pre + (seq![a] + rest) =~= pre.push(a) + rest);
        },
        Err(_) => {},
    }
}

impl IndexTable {
    /// Decodes `table_len` consecutive address words, discarding the null
    /// slots.
    #[verifier::loop_isolation(false)]
    pub fn parse(input: &mut Reader, table_len: u32) -> (r: Result<IndexTable, Error>)
        requires
            old(input).wf(),
        ensures
            final(input).wf(),
            ({
                let b = old(input).remaining_bytes();
                match r {
                    Ok(t) => spec_parse_table(b, table_len as nat) == Ok::<Seq<AddressView>, ErrorView>(address_views(t.table@)),
                    Err(e) => (spec_parse_table(b, table_len as nat) matches Err(ev) && ev == e@),
                }
            }),
    {
        let ghost b0 = old(input).remaining_bytes();
        let ghost target = spec_parse_table(b0, table_len as nat);
        let mut table: Vec<Address> = Vec::new();
        let mut i: u32 = 0;
        proof {
            lemma_table_combine_nil(target);
            assert(address_views(table@) =~= Seq::<AddressView>::empty());
        }
        while i < table_len
            invariant
                i <= table_len,
                input.wf(),
                target == table_combine(address_views(table@), spec_parse_table(input.remaining_bytes(), (table_len - i) as nat)),
            decreases table_len - i,
        {
            let ghost rem = input.remaining_bytes();
            let ghost inner = spec_parse_table(rem, (table_len - i) as nat);
            let ghost prev_table = table@;
            let a = match Address::parse(input) {
                Ok(a) => a,
                Err(e) => {
                    proof {
                        if rem.len() >= 4 {
                            assert(inner is Err);
                        }
                    }
                    return Err(e);
                },
            };
            proof {
                assert(input.remaining_bytes() =~= rem.skip(4));
            }
            match a {
                None => {
                    proof {
                        assert(inner == spec_parse_table(rem.skip(4), (table_len - i - 1) as nat));
                    }
                },
                Some(a) => {
                    let ghost av = a@;
                    table.push(a);
                    proof {
                        assert(address_views(table@) =~= address_views(prev_table).push(av));
                        lemma_table_step(address_views(prev_table), av, spec_parse_table(rem.skip(4), (table_len - i - 1) as nat));
                    }
                },
            }
            i = i + 1;
        }
        proof {
            assert(spec_parse_table(input.remaining_bytes(), 0) == Ok::<Seq<AddressView>, ErrorView>(Seq::empty()));
            assert(address_views(table@) + Seq::<AddressView>::empty() =~= address_views(table@));
        }
        Ok(IndexTable { table })
    }

    /// What decoding every chain the table points at yields: the entries
    /// of all chains, flattened in table order.
    pub open spec fn spec_analyze(table: Seq<AddressView>, files: BlockFiles) -> Result<Seq<EntryView>, ErrorView>
        decreases table.len(),
    {
        if table.len() == 0 {
            Ok(Seq::empty())
        } else {
            match Entry::spec_new(files, table[0]) {
                Err(e) => Err(e),
                Ok(es) => match IndexTable::spec_analyze(table.drop_first(), files) {
                    Err(e) => Err(e),
                    Ok(rest) => Ok(es + rest),
                },
            }
        }
    }

    /// Follows every chain the table points at and flattens the resulting
    /// entries, classified, into one list in table order.
    #[verifier::loop_isolation(false)]
    pub fn analyze(self, files: &BlockFiles) -> (r: Result<Vec<Entry>, Error>)
        ensures
            match r {
                Ok(es) => IndexTable::spec_analyze(address_views(self.table@), *files) == Ok::<Seq<EntryView>, ErrorView>(entry_views(es@)),
                Err(e) => IndexTable::spec_analyze(address_views(self.table@), *files) == Err::<Seq<EntryView>, ErrorView>(e@),
            },
    {
        let ghost target = IndexTable::spec_analyze(address_views(self.table@), *files);
        let mut table = self.table;
        let mut out: Vec<Entry> = Vec::new();
        proof {
            crate::entry::lemma_combine_nil(target);
            assert(entry_views(out@) =~= Seq::<EntryView>::empty());
        }
        while table.len() > 0
            invariant
                target == crate::entry::chain_combine(entry_views(out@), IndexTable::spec_analyze(address_views(table@), *files)),
            decreases table@.len(),
        {
            let ghost prev_table = table@;
            let ghost prev_out = out@;
            let a = table.remove(0);
            proof {
                assert(address_views(prev_table).drop_first() =~= address_views(table@));
                assert(address_views(prev_table)[0] == a@);
            }
            let mut es = match Entry::new(a, files) {
                Ok(es) => es,
                Err(e) => {
                    return Err(e);
                },
            };
            let ghost esv = entry_views(es@);
            out.append(&mut es);
            proof {
                assert(entry_views(out@) =~= entry_views(prev_out) + esv);
                let r2 = IndexTable::spec_analyze(address_views(table@), *files);
                match r2 {
                    Ok(rest) => {
                        assert(entry_views(prev_out) + (esv + rest) =~= (entry_views(prev_out) + esv) + rest);
                    },
                    Err(_) => {},
                }
            }
        }
        proof {
            assert(entry_views(out@) + Seq::<EntryView>::empty() =~= entry_views(out@));
        }
        Ok(out)
    }
}

} // verus!
