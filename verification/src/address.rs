use vstd::prelude::*;
use crate::error::{AddressErrorKind, Error};
use crate::names::{ascii_chars, spec_separate_file_name, spec_data_file_name, separate_file_name, data_file_name};
use crate::reader::Reader;

verus! {

/// How the remaining bits of an address word are to be read: a reference to
/// a whole external file, a ranking-metadata block, or a block of one of the
/// three fixed sizes.
#[derive(Debug, Clone, Copy, PartialEq, Eq, Structural)]
pub enum BlockType {
    SeparateFile,
    RankingBlock,
    Block256,
    Block1024,
    Block4096,
}

impl BlockType {
    /// The number of bytes one block of this kind occupies.
    pub open spec fn spec_size(self) -> int {
        match self {
            BlockType::SeparateFile => 0,
            BlockType::RankingBlock => 36,
            BlockType::Block256 => 256,
            BlockType::Block1024 => 1024,
            BlockType::Block4096 => 4096,
        }
    }

    /// The number of bytes one block of this kind occupies.
    pub fn get_size(&self) -> (r: usize)
        ensures
            r == self.spec_size(),
    {
        match *self {
            BlockType::SeparateFile => 0,
            BlockType::RankingBlock => 36,
            BlockType::Block256 => 256,
            BlockType::Block1024 => 1024,
            BlockType::Block4096 => 4096,
        }
    }
}

/// One decoded cache location.
pub struct Address {
    /// The packed word the fields were decoded from.
    pub addr: u32,
    pub blocktype: BlockType,
    /// The name of the file holding the referenced data.
    pub file_name: String,
    /// How many blocks beyond the first the record occupies.
    pub contiguous_block: u32,
    /// The index of the first block within the file.
    pub block_number: u32,
}

/// The mathematical shape of an [`Address`].
pub ghost struct AddressView {
    pub addr: u32,
    pub blocktype: BlockType,
    pub file_name: Seq<char>,
    pub contiguous_block: u32,
    pub block_number: u32,
}

impl View for Address {
    type V = AddressView;

    open spec fn view(&self) -> AddressView {
        AddressView {
            addr: self.addr,
            blocktype: self.blocktype,
            file_name: self.file_name@,
            contiguous_block: self.contiguous_block,
            block_number: self.block_number,
        }
    }
}

/// A word with this bit set has been written; one without it was never
/// initialized.
pub open spec fn spec_initialized(w: u32) -> bool {
    w & 0x80000000 != 0
}

/// The 3-bit block-kind tag of an address word.
pub open spec fn spec_tag(w: u32) -> u32 {
    (w & 0x70000000) >> 28
}

/// The block-file number carried in bits 16 to 23 of an address word.
pub open spec fn spec_file_number(w: u32) -> u32 {
    (w & 0x00ff0000) >> 16
}

/// The external-file index carried in the low 28 bits of an address word.
pub open spec fn spec_separate_index(w: u32) -> u32 {
    w & 0x0fffffff
}

/// The count of extra contiguous blocks carried in bits 24 and 25.
pub open spec fn spec_contiguous(w: u32) -> u32 {
    (w & 0x03000000) >> 24
}

/// The block index carried in the low 16 bits of an address word.
pub open spec fn spec_block_number(w: u32) -> u32 {
    w & 0x0000ffff
}

/// The block kind named by the word's tag, if the tag is known.
pub open spec fn spec_block_type(w: u32) -> Option<BlockType> {
    let t = spec_tag(w);
    if t == 0 {
        Some(BlockType::SeparateFile)
    } else if t == 1 {
        Some(BlockType::RankingBlock)
    } else if t == 2 {
        Some(BlockType::Block256)
    } else if t == 3 {
        Some(BlockType::Block1024)
    } else if t == 4 {
        Some(BlockType::Block4096)
    } else {
        None
    }
}

/// The file name an address of the given word refers to, as characters.
pub open spec fn spec_address_file_name(w: u32) -> Seq<char> {
    if spec_tag(w) == 0 {
        ascii_chars(spec_separate_file_name(spec_separate_index(w)))
    } else {
        ascii_chars(spec_data_file_name(spec_file_number(w)))
    }
}

/// What decoding an address word yields: no address for the null sentinel,
/// an error for an uninitialized word or an unknown tag, and otherwise the
/// fields cut out of the word by the fixed masks of the format.
pub open spec fn spec_decode(w: u32) -> Result<Option<AddressView>, AddressErrorKind> {
    if w == 0 {
        Ok(None)
    } else if !spec_initialized(w) {
        Err(AddressErrorKind::UnInitialized)
    } else {
        match spec_block_type(w) {
            None => Err(AddressErrorKind::InvalidBlockType),
            Some(bt) => Ok(
                Some(
                    AddressView {
                        addr: w,
                        blocktype: bt,
                        file_name: spec_address_file_name(w),
                        contiguous_block: if bt is Block256 || bt is Block1024 || bt is Block4096 {
                            spec_contiguous(w)
                        } else {
                            0
                        },
                        block_number: if bt is Block256 || bt is Block1024 || bt is Block4096 {
                            spec_block_number(w)
                        } else {
                            0
                        },
                    },
                ),
            ),
        }
    }
}

impl Address {
    pub fn new(addr: u32, blocktype: BlockType, file_name: String, contiguous_block: u32, block_number: u32) -> (r: Self)
        ensures
            r@ == (AddressView { addr, blocktype, file_name: file_name@, contiguous_block, block_number }),
    {
        Address { addr, blocktype, file_name, contiguous_block, block_number }
    }

    /// Decodes one packed address word.
    pub fn from_word(w: u32) -> (r: Result<Option<Address>, Error>)
        ensures
            match r {
                Ok(None) => spec_decode(w) == Ok::<Option<AddressView>, AddressErrorKind>(None),
                Ok(Some(a)) => spec_decode(w) == Ok::<Option<AddressView>, AddressErrorKind>(Some(a@)),
                Err(e) => {
                    &&& e matches Error::AddressError(k)
                    &&& spec_decode(w) == Err::<Option<AddressView>, AddressErrorKind>(k)
                },
            },
    {
        if w == 0 {
            Ok(None)
        } else if w & 0x80000000 == 0 {
            Err(Error::AddressError(AddressErrorKind::UnInitialized))
        } else {
            let tag = (w & 0x70000000) >> 28;
            if tag == 0 {
                let file_name = separate_file_name(w & 0x0fffffff);
                Ok(Some(Address { addr: w, blocktype: BlockType::SeparateFile, file_name, contiguous_block: 0, block_number: 0 }))
            } else if tag == 1 {
                let file_name = data_file_name((w & 0x00ff0000) >> 16);
                Ok(Some(Address { addr: w, blocktype: BlockType::RankingBlock, file_name, contiguous_block: 0, block_number: 0 }))
            } else if tag <= 4 {
                let blocktype = if tag == 2 {
                    BlockType::Block256
                } else if tag == 3 {
                    BlockType::Block1024
                } else {
                    BlockType::Block4096
                };
                let file_name = data_file_name((w & 0x00ff0000) >> 16);
                let contiguous_block = (w & 0x03000000) >> 24;
                let block_number = w & 0x0000ffff;
                Ok(Some(Address { addr: w, blocktype, file_name, contiguous_block, block_number }))
            } else {
                Err(Error::AddressError(AddressErrorKind::InvalidBlockType))
            }
        }
    }

    /// Reads one address word from the cursor and decodes it.
    pub fn parse(input: &mut Reader) -> (r: Result<Option<Address>, Error>)
        requires
            old(input).wf(),
        ensures
            final(input).wf(),
            old(input).remaining_bytes().len() < 4 ==> {
                &&& r matches Err(e) && e@ is Eof
                &&& *final(input) == *old(input)
            },
            old(input).remaining_bytes().len() >= 4 ==> {
                &&& final(input).remaining_bytes() == old(input).remaining_bytes().skip(4)
                &&& match r {
                    Ok(None) => spec_decode(crate::reader::word_at(old(input).remaining_bytes(), 0)) == Ok::<Option<AddressView>, AddressErrorKind>(None),
                    Ok(Some(a)) => spec_decode(crate::reader::word_at(old(input).remaining_bytes(), 0)) == Ok::<Option<AddressView>, AddressErrorKind>(Some(a@)),
                    Err(e) => {
                        &&& e matches Error::AddressError(k)
                        &&& spec_decode(crate::reader::word_at(old(input).remaining_bytes(), 0)) == Err::<Option<AddressView>, AddressErrorKind>(k)
                    },
                }
            },
    {
        match input.read_u32() {
            Ok(w) => Address::from_word(w),
            Err(e) => Err(e),
        }
    }

    /// Reads one address word that must be present: the null sentinel
    /// becomes an error instead of an absent value.
    pub fn parse_null_to_error(input: &mut Reader) -> (r: Result<Address, Error>)
        requires
            old(input).wf(),
        ensures
            final(input).wf(),
            old(input).remaining_bytes().len() < 4 ==> {
                &&& r matches Err(e) && e@ is Eof
                &&& *final(input) == *old(input)
            },
            old(input).remaining_bytes().len() >= 4 ==> {
                &&& final(input).remaining_bytes() == old(input).remaining_bytes().skip(4)
                &&& match r {
                    Ok(a) => spec_decode(crate::reader::word_at(old(input).remaining_bytes(), 0)) == Ok::<Option<AddressView>, AddressErrorKind>(Some(a@)),
                    Err(e) => {
                        &&& e matches Error::AddressError(k)
                        &&& match spec_decode(crate::reader::word_at(old(input).remaining_bytes(), 0)) {
                            Ok(o) => o is None && k == AddressErrorKind::NullAddress,
                            Err(k2) => k == k2,
                        }
                    },
                }
            },
    {
        match Address::parse(input) {
            Ok(Some(a)) => Ok(a),
            Ok(None) => Err(Error::AddressError(AddressErrorKind::NullAddress)),
            Err(e) => Err(e),
        }
    }

    /// The number of the block file this address points into, as used in
    /// `data_N` file names.
    pub fn file_number(&self) -> (r: u32)
        ensures
            r == spec_file_number(self.addr),
    {
        (self.addr & 0x00ff0000) >> 16
    }
}

/// Packs an initialized address word for an in-cache block kind out of its
/// fields: the tag in bits 28 to 30, the contiguous count in bits 24 and 25,
/// the file number in bits 16 to 23 and the block index in the low bits.
/// A tag of 0 instead packs an external-file reference whose low 28 bits are
/// `file_number`, and a tag of 1 packs a ranking block.
pub open spec fn spec_encode(tag: u32, file_number: u32, contiguous: u32, block_number: u32) -> u32
    recommends
        tag <= 4,
{
    if tag == 0 {
        0x80000000u32 | (file_number & 0x0fffffff)
    } else if tag == 1 {
        (0x80000000u32 | 0x10000000u32) | ((file_number & 0xff) << 16)
    } else {
        (0x80000000u32 | (tag << 28)) | ((contiguous & 0x3) << 24) | ((file_number & 0xff) << 16) | (block_number & 0xffff)
    }
}

/// Packs an address word out of its fields, the inverse of decoding.
pub fn encode_word(tag: u32, file_number: u32, contiguous: u32, block_number: u32) -> (r: u32)
    requires
        tag <= 4,
    ensures
        r == spec_encode(tag, file_number, contiguous, block_number),
{
    if tag == 0 {
        0x80000000u32 | (file_number & 0x0fffffff)
    } else if tag == 1 {
        (0x80000000u32 | 0x10000000u32) | ((file_number & 0xff) << 16)
    } else {
        (0x80000000u32 | (tag << 28)) | ((contiguous & 0x3) << 24) | ((file_number & 0xff) << 16) | (block_number & 0xffff)
    }
}

/// Decoding the null word always yields "no address".
pub proof fn lemma_decode_null()
    ensures
        spec_decode(0) == Ok::<Option<AddressView>, AddressErrorKind>(None),
{
}

/// Any nonzero word without the initialized bit fails as uninitialized; in
/// particular every word strictly below the initialized threshold does.
pub proof fn lemma_decode_uninitialized(w: u32)
    requires
        w != 0,
        w < 0x80000000,
    ensures
        spec_decode(w) == Err::<Option<AddressView>, AddressErrorKind>(AddressErrorKind::UnInitialized),
{
    assert(w & 0x80000000 == 0) by (bit_vector)
        requires
            w < 0x80000000,
    ;
}

/// An initialized word whose 3-bit tag is not a known block kind always
/// fails with an invalid-block-type error.
pub proof fn lemma_decode_unknown_tag(w: u32)
    requires
        spec_initialized(w),
        spec_tag(w) > 4,
    ensures
        spec_decode(w) == Err::<Option<AddressView>, AddressErrorKind>(AddressErrorKind::InvalidBlockType),
{
    assert(w != 0) by (bit_vector)
        requires
            w & 0x80000000 != 0,
    ;
}

/// Round trip on the bit layout: decoding a word packed from in-range
/// fields recovers exactly those fields, and re-encoding the decoded fields
/// reproduces the original word.
pub proof fn lemma_address_round_trip(tag: u32, file_number: u32, contiguous: u32, block_number: u32)
    requires
        tag <= 4,
        tag == 0 ==> file_number < 0x10000000,
        tag >= 1 ==> file_number < 0x100,
        contiguous < 4 || tag < 2,
        block_number < 0x10000 || tag < 2,
    ensures
        ({
            let w = spec_encode(tag, file_number, contiguous, block_number);
            let decoded = spec_decode(w);
            &&& decoded matches Ok(o)
            &&& o matches Some(a)
            &&& a.addr == w
            &&& spec_block_type(w) == Some(a.blocktype)
            &&& spec_tag(w) == tag
            &&& tag == 0 ==> spec_separate_index(w) == file_number
            &&& tag >= 1 ==> spec_file_number(w) == file_number
            &&& tag >= 2 ==> a.contiguous_block == contiguous && a.block_number == block_number
            &&& tag < 2 ==> a.contiguous_block == 0 && a.block_number == 0
            &&& spec_encode(tag, if tag == 0 { spec_separate_index(w) } else { spec_file_number(w) }, a.contiguous_block, a.block_number) == w
        }),
{
    let w = spec_encode(tag, file_number, contiguous, block_number);
    if tag == 0 {
        assert({
            let w2 = 0x80000000u32 | (file_number & 0x0fffffff);
            &&& w2 & 0x80000000 != 0
            &&& w2 != 0
            &&& (w2 & 0x70000000) >> 28 == 0
            &&& w2 & 0x0fffffff == file_number
            &&& 0x80000000u32 | ((w2 & 0x0fffffff) & 0x0fffffff) == w2
        }) by (bit_vector)
            requires
                file_number < 0x10000000,
        ;
    } else if tag == 1 {
        assert({
            let w2 = (0x80000000u32 | 0x10000000u32) | ((file_number & 0xff) << 16);
            &&& w2 & 0x80000000 != 0
            &&& w2 != 0
            &&& (w2 & 0x70000000) >> 28 == 1
            &&& (w2 & 0x00ff0000) >> 16 == file_number
            &&& (0x80000000u32 | 0x10000000u32) | ((((w2 & 0x00ff0000) >> 16) & 0xff) << 16) == w2
        }) by (bit_vector)
            requires
                file_number < 0x100,
        ;
    } else {
        assert({
            let w2 = (0x80000000u32 | (tag << 28)) | ((contiguous & 0x3) << 24) | ((file_number & 0xff) << 16) | (block_number & 0xffff);
            &&& w2 & 0x80000000 != 0
            &&& w2 != 0
            &&& (w2 & 0x70000000) >> 28 == tag
            &&& (w2 & 0x00ff0000) >> 16 == file_number
            &&& (w2 & 0x03000000) >> 24 == contiguous
            &&& w2 & 0x0000ffff == block_number
            &&& (0x80000000u32 | (((w2 & 0x70000000) >> 28) << 28)) | ((((w2 & 0x03000000) >> 24) & 0x3) << 24) | ((((w2 & 0x00ff0000) >> 16) & 0xff) << 16) | ((w2 & 0x0000ffff) & 0xffff) == w2
        }) by (bit_vector)
            requires
                2 <= tag <= 4,
                file_number < 0x100,
                contiguous < 4,
                block_number < 0x10000,
        ;
    }
}

} // verus!

