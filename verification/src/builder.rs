//! The table builder: takes entries one by one, seals a block whenever the
//! next entry finds it full, and lays out the finished table.

use crate::block::{block_encoding, first_key_of, lemma_block_len, BlockBuilder, Entry, MAX_BLOCK_LEN};
use crate::meta::{index_encoding, metas_view, BlockMeta};
use crate::table::{
    block_metas, blocks_encoding, data_fits, image_fits, lemma_blocks_push, lemma_index_encodable,
    lemma_table_layout, table_encoding, TableView,
};
use crate::wire::put_u32;
use vstd::prelude::*;
use vstd::slice::slice_to_vec;

verus! {

/// A finished table: its bytes, its index, and where in the bytes the index
/// begins.
#[derive(Debug, PartialEq, Eq)]
pub struct TableImage {
    pub bytes: Vec<u8>,
    pub block_metas: Vec<BlockMeta>,
    pub block_meta_offset: usize,
}

/// Why a table could not be laid out.
#[derive(Debug, Clone, Copy, PartialEq, Eq)]
pub enum BuildError {
    /// The data region is longer than the four bytes of the trailer can say.
    DataTooLarge,
    /// The table is longer than a vector of bytes can be.
    ImageTooLarge,
}

/// Says whether a table can be laid out whose data region has `data_len`
/// bytes and whose index has `index_len` bytes, where `None` stands for an
/// index of more bytes than a `usize` counts.
pub fn check_lengths(data_len: usize, index_len: Option<usize>) -> (fits: Result<(), BuildError>)
    ensures
        fits is Ok <==> data_len <= u32::MAX && index_len is Some && data_len + index_len.unwrap()
            + 4 <= isize::MAX,
        fits matches Err(e) ==> (e == BuildError::DataTooLarge <==> data_len > u32::MAX),
{
    if data_len > u32::MAX as usize {
        return Err(BuildError::DataTooLarge);
    }
    match index_len {
        Some(n) => {
            if n > isize::MAX as usize - 4 || data_len > isize::MAX as usize - 4 - n {
                Err(BuildError::ImageTooLarge)
            } else {
                Ok(())
            }
        },
        None => Err(BuildError::ImageTooLarge),
    }
}

/// Builds a table from key-value pairs that come in the order of their keys.
pub struct SsTableBuilder {
    pub(crate) meta: Vec<BlockMeta>,
    ongoing_block_builder: BlockBuilder,
    first_key: Vec<u8>,
    data: Vec<u8>,
    block_size: usize,
    sealed: Ghost<Seq<Seq<Entry>>>,
}

impl View for SsTableBuilder {
    type V = TableView;

    closed spec fn view(&self) -> TableView {
        TableView {
            block_size: self.block_size as nat,
            sealed: self.sealed@,
            open: self.ongoing_block_builder@.entries,
        }
    }
}

impl SsTableBuilder {
    /// The fields hold what the model says: the index and the bytes of the
    /// sealed blocks, and the first key of the open one.
    pub closed spec fn wf(&self) -> bool {
        &&& self.ongoing_block_builder.wf()
        &&& self.ongoing_block_builder@.capacity == self.block_size
        &&& metas_view(self.meta@) == block_metas(self.sealed@)
        &&& self.data@ == blocks_encoding(self.sealed@)
        &&& self.first_key@ == first_key_of(self.ongoing_block_builder@.entries)
        &&& forall|i: int|
            0 <= i < self.sealed@.len() ==> block_encoding(#[trigger] self.sealed@[i]).len()
                <= MAX_BLOCK_LEN
    }

    /// Create a builder based on target block size.
    pub fn new(block_size: usize) -> (builder: Self)
        ensures
            builder.wf(),
            builder@ == TableView::empty(block_size as nat),
    {
        let builder = SsTableBuilder {
            meta: Vec::new(),
            ongoing_block_builder: BlockBuilder::new(block_size),
            data: Vec::new(),
            block_size,
            first_key: Vec::new(),
            sealed: Ghost(Seq::empty()),
        };
        proof {
            assert(metas_view(builder.meta@) =~= block_metas(builder.sealed@));
        }
        builder
    }

    /// Whether the pair fits a block of its own, as `add` asks of it.
    pub fn admits(&self, key: &[u8], value: &[u8]) -> (fits: bool)
        requires
            self.wf(),
        ensures
            fits == self@.admits(Entry { key: key@, value: value@ }),
    {
        proof {
            lemma_block_len(Seq::empty(), Entry { key: key@, value: value@ });
        }
        if key.len() > MAX_BLOCK_LEN || value.len() > MAX_BLOCK_LEN {
            return false;
        }
        let needed: usize = key.len() + value.len() + 8;
        needed <= self.block_size && needed <= MAX_BLOCK_LEN
    }

    /// Adds a key-value pair to the table.
    pub fn add(&mut self, key: &[u8], value: &[u8])
        requires
            old(self).wf(),
            old(self)@.admits(Entry { key: key@, value: value@ }),
        ensures
            final(self).wf(),
            final(self)@ == old(self)@.with_entry(Entry { key: key@, value: value@ }),
    {
        let ghost e = Entry { key: key@, value: value@ };
        proof {
            lemma_block_len(Seq::empty(), e);
        }
        if self.ongoing_block_builder.is_empty() {
            assert(self@.open.push(e) =~= seq![e]);
            self.first_key = slice_to_vec(key);
        }
        if self.ongoing_block_builder.add(key, value) {
            return;
        }
        self.finish_block();
        let accepted = self.ongoing_block_builder.add(key, value);
        assert(accepted);
        self.first_key = slice_to_vec(key);
    }

    /// Get the estimated size of the table: the bytes of the sealed blocks.
    pub fn estimated_size(&self) -> (size: usize)
        requires
            self.wf(),
        ensures
            size == self@.data().len(),
    {
        self.data.len()
    }

    /// Seals the open block and lays out the table: the data region, the
    /// index and the trailer.
    pub fn build(self) -> (table: Result<TableImage, BuildError>)
        requires
            self.wf(),
        ensures
            table is Ok <==> data_fits(self@.blocks()) && image_fits(self@.blocks()),
            table matches Ok(t) ==> {
                &&& t.bytes@ == table_encoding(self@.blocks())
                &&& metas_view(t.block_metas@) == block_metas(self@.blocks())
                &&& t.block_meta_offset == blocks_encoding(self@.blocks()).len()
                &&& t.block_meta_offset == t.bytes@.len() - index_encoding(
                    metas_view(t.block_metas@),
                ).len() - 4
            },
            table matches Err(e) ==> (e == BuildError::DataTooLarge <==> !data_fits(
                self@.blocks(),
            )),
    {
        let ghost blocks = self@.blocks();
        proof {
            lemma_table_layout(blocks);
        }
        let mut builder = self;
        builder.finish_block();
        let block_meta_offset: usize = builder.data.len();
        let index_len = BlockMeta::encoded_len(builder.meta.as_slice());
        match check_lengths(block_meta_offset, index_len) {
            Ok(()) => {},
            Err(e) => {
                return Err(e);
            },
        }
        proof {
            lemma_index_encodable(blocks);
        }
        let mut buffer: Vec<u8> = Vec::new();
        core::mem::swap(&mut buffer, &mut builder.data);
        BlockMeta::encode_block_meta(builder.meta.as_slice(), &mut buffer);
        put_u32(&mut buffer, block_meta_offset as u32);
        Ok(TableImage { bytes: buffer, block_metas: builder.meta, block_meta_offset })
    }

    /// Seals the open block: records where it starts and its first key,
    /// appends its bytes to the data region, and opens an empty block.
    fn finish_block(&mut self)
        requires
            old(self).wf(),
        ensures
            final(self).wf(),
            final(self)@ == old(self)@.seal(),
    {
        let ghost sealed = self.sealed@;
        let ghost open = self.ongoing_block_builder@.entries;
        proof {
            lemma_blocks_push(sealed, open);
            self.ongoing_block_builder.lemma_wf_fits();
        }
        let mut first_key: Vec<u8> = Vec::new();
        core::mem::swap(&mut first_key, &mut self.first_key);
        let meta = BlockMeta { offset: self.data.len(), first_key };
        proof {
            assert(metas_view(self.meta@.push(meta)) =~= metas_view(self.meta@).push(meta@));
        }
        self.meta.push(meta);
        let mut ready_builder = BlockBuilder::new(self.block_size);
        core::mem::swap(&mut ready_builder, &mut self.ongoing_block_builder);
        let encoded_data = ready_builder.build().encode();
        self.data.extend_from_slice(encoded_data.as_slice());
        self.sealed = Ghost(sealed.push(open));
        proof {
            assert(self.data@ =~= blocks_encoding(sealed) + block_encoding(open));
        }
    }
}

} // verus!
