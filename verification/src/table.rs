//! The table in the model: how a stream of entries is cut into blocks, and
//! where everything lies in the finished file.

use crate::block::{
    block_encoding, block_fits, first_key_of, lemma_block_len, lemma_first_key_len, Entry,
    MAX_BLOCK_LEN,
};
use crate::meta::{index_encodable, index_encoding, metas_encoding, BlockMetaView};
use crate::wire::u32_be;
use vstd::prelude::*;

verus! {

/// The data region of a table: its blocks on the wire, one after the other.
pub open spec fn blocks_encoding(blocks: Seq<Seq<Entry>>) -> Seq<u8>
    decreases blocks.len(),
{
    if blocks.len() == 0 {
        Seq::empty()
    } else {
        blocks_encoding(blocks.drop_last()) + block_encoding(blocks.last())
    }
}

/// The index of a table: for each block, the length of the data region
/// before it and its first key.
pub open spec fn block_metas(blocks: Seq<Seq<Entry>>) -> Seq<BlockMetaView> {
    Seq::new(
        blocks.len(),
        |i: int|
            BlockMetaView {
                offset: blocks_encoding(blocks.take(i)).len(),
                first_key: first_key_of(blocks[i]),
            },
    )
}

/// A table on the wire: the data region, the index, and in the last four
/// bytes the length of the data region.
pub open spec fn table_encoding(blocks: Seq<Seq<Entry>>) -> Seq<u8> {
    blocks_encoding(blocks) + index_encoding(block_metas(blocks)) + u32_be(
        blocks_encoding(blocks).len() as u32,
    )
}

/// Whether the data region is short enough for its length to stand in the
/// trailer.
pub open spec fn data_fits(blocks: Seq<Seq<Entry>>) -> bool {
    blocks_encoding(blocks).len() <= u32::MAX
}

/// Whether the whole table is short enough for a vector of bytes.
pub open spec fn image_fits(blocks: Seq<Seq<Entry>>) -> bool {
    table_encoding(blocks).len() <= isize::MAX
}

/// What a table builder holds: the blocks it has sealed, and the entries of
/// the block that is still open.
pub struct TableView {
    pub block_size: nat,
    pub sealed: Seq<Seq<Entry>>,
    pub open: Seq<Entry>,
}

impl TableView {
    /// The builder before any entry.
    pub open spec fn empty(block_size: nat) -> TableView {
        TableView { block_size, sealed: Seq::empty(), open: Seq::empty() }
    }

    /// Whether the entry fits a block of its own. A builder takes no other.
    pub open spec fn admits(self, e: Entry) -> bool {
        block_fits(seq![e], self.block_size)
    }

    /// Whether each of the entries fits a block of its own.
    pub open spec fn admits_all(self, entries: Seq<Entry>) -> bool {
        forall|k: int| 0 <= k < entries.len() ==> self.admits(#[trigger] entries[k])
    }

    /// Whether the open block has room for the entry.
    pub open spec fn accepts(self, e: Entry) -> bool {
        block_fits(self.open.push(e), self.block_size)
    }

    /// The builder with the open block sealed and an empty one in its place.
    pub open spec fn seal(self) -> TableView {
        TableView {
            block_size: self.block_size,
            sealed: self.sealed.push(self.open),
            open: Seq::empty(),
        }
    }

    /// The builder after one more entry: in the open block where that has
    /// room, else first in a new block behind the sealed one.
    pub open spec fn with_entry(self, e: Entry) -> TableView {
        if self.accepts(e) {
            TableView { block_size: self.block_size, sealed: self.sealed, open: self.open.push(e) }
        } else {
            TableView {
                block_size: self.block_size,
                sealed: self.sealed.push(self.open),
                open: seq![e],
            }
        }
    }

    /// The builder after the entries, added in order.
    pub open spec fn with_entries(self, entries: Seq<Entry>) -> TableView
        decreases entries.len(),
    {
        if entries.len() == 0 {
            self
        } else {
            self.with_entries(entries.drop_last()).with_entry(entries.last())
        }
    }

    /// How many of the entries, added in order, found the open block full.
    pub open spec fn full_reports(self, entries: Seq<Entry>) -> nat
        decreases entries.len(),
    {
        if entries.len() == 0 {
            0
        } else {
            let before = self.with_entries(entries.drop_last());
            self.full_reports(entries.drop_last()) + if before.accepts(entries.last()) {
                0nat
            } else {
                1nat
            }
        }
    }

    /// The bytes of the sealed blocks.
    pub open spec fn data(self) -> Seq<u8> {
        blocks_encoding(self.sealed)
    }

    /// The blocks of the table that the builder would finish now.
    pub open spec fn blocks(self) -> Seq<Seq<Entry>> {
        self.sealed.push(self.open)
    }
}

/// The data region grows by each block, and so does the index.
pub proof fn lemma_blocks_push(blocks: Seq<Seq<Entry>>, b: Seq<Entry>)
    ensures
        blocks_encoding(blocks.push(b)) == blocks_encoding(blocks) + block_encoding(b),
        block_metas(blocks.push(b)) == block_metas(blocks).push(
            BlockMetaView { offset: blocks_encoding(blocks).len(), first_key: first_key_of(b) },
        ),
{
    assert(blocks.push(b).drop_last() =~= blocks);
    let left = block_metas(blocks.push(b));
    let right = block_metas(blocks).push(
        BlockMetaView { offset: blocks_encoding(blocks).len(), first_key: first_key_of(b) },
    );
    assert forall|i: int| 0 <= i < left.len() implies left[i] == right[i] by {
        if i < blocks.len() {
            assert(blocks.push(b).take(i) =~= blocks.take(i));
        }
    }
}

/// Each block takes at least its two-byte count in the data region.
pub proof fn lemma_blocks_encoding_len(blocks: Seq<Seq<Entry>>)
    ensures
        2 * blocks.len() <= blocks_encoding(blocks).len(),
    decreases blocks.len(),
{
    if blocks.len() > 0 {
        lemma_blocks_encoding_len(blocks.drop_last());
        lemma_block_len(blocks.last(), Entry { key: Seq::empty(), value: Seq::empty() });
    }
}

/// The data region before a block is no longer than the whole of it.
pub proof fn lemma_blocks_encoding_take(blocks: Seq<Seq<Entry>>, i: int)
    requires
        0 <= i <= blocks.len(),
    ensures
        blocks_encoding(blocks.take(i)).len() <= blocks_encoding(blocks).len(),
        i < blocks.len() ==> blocks_encoding(blocks.take(i + 1)) == blocks_encoding(
            blocks.take(i),
        ) + block_encoding(blocks[i]),
    decreases blocks.len() - i,
{
    if i < blocks.len() {
        assert(blocks.take(i + 1).drop_last() =~= blocks.take(i));
        lemma_blocks_encoding_take(blocks, i + 1);
    } else {
        assert(blocks.take(i) =~= blocks);
    }
}

/// The data region begins with the bytes of its first blocks.
pub proof fn lemma_blocks_encoding_prefix(blocks: Seq<Seq<Entry>>, i: int)
    requires
        0 <= i <= blocks.len(),
    ensures
        blocks_encoding(blocks.take(i)).len() <= blocks_encoding(blocks).len(),
        blocks_encoding(blocks).subrange(0, blocks_encoding(blocks.take(i)).len() as int)
            == blocks_encoding(blocks.take(i)),
    decreases blocks.len() - i,
{
    lemma_blocks_encoding_take(blocks, i);
    if i < blocks.len() {
        lemma_blocks_encoding_prefix(blocks, i + 1);
    } else {
        assert(blocks.take(i) =~= blocks);
    }
}

/// The index of a table whose data region fits the trailer, and whose
/// blocks are no longer than a block can be, fits its fields on the wire.
pub proof fn lemma_index_encodable(blocks: Seq<Seq<Entry>>)
    requires
        data_fits(blocks),
        forall|i: int|
            0 <= i < blocks.len() ==> block_encoding(#[trigger] blocks[i]).len() <= MAX_BLOCK_LEN,
    ensures
        index_encodable(block_metas(blocks)),
{
    lemma_blocks_encoding_len(blocks);
    let ms = block_metas(blocks);
    assert forall|i: int| 0 <= i < ms.len() implies (#[trigger] ms[i]).offset <= u64::MAX
        && ms[i].first_key.len() <= u16::MAX by {
        lemma_blocks_encoding_take(blocks, i);
        lemma_first_key_len(blocks[i]);
    }
}

/// Entries leave the block size as it is, and the sealed blocks as they
/// are: new ones come behind them.
pub proof fn lemma_with_entries_keeps(start: TableView, entries: Seq<Entry>)
    ensures
        start.with_entries(entries).block_size == start.block_size,
        start.sealed.len() <= start.with_entries(entries).sealed.len(),
        start.with_entries(entries).sealed.take(start.sealed.len() as int) == start.sealed,
    decreases entries.len(),
{
    if entries.len() > 0 {
        lemma_with_entries_keeps(start, entries.drop_last());
    }
}

/// Where everything lies in a table: the data region from the start, the
/// index right behind it, and the trailer in the last four bytes. So the
/// data region is as long as the table without its index and its trailer.
pub proof fn lemma_table_layout(blocks: Seq<Seq<Entry>>)
    ensures
        ({
            let table = table_encoding(blocks);
            let data = blocks_encoding(blocks);
            let index = index_encoding(block_metas(blocks));
            &&& data.len() == table.len() - index.len() - 4
            &&& table.subrange(0, data.len() as int) == data
            &&& table.subrange(data.len() as int, (data.len() + index.len()) as int) == index
            &&& table.subrange(table.len() - 4, table.len() as int) == u32_be(data.len() as u32)
        }),
{
}

/// A builder that was given no entry lays out a table of one empty block:
/// one record with offset zero and no key, and a data region of two bytes.
pub proof fn lemma_empty_table(block_size: nat)
    ensures
        ({
            let blocks = TableView::empty(block_size).blocks();
            &&& blocks == seq![Seq::<Entry>::empty()]
            &&& block_metas(blocks) == seq![BlockMetaView { offset: 0, first_key: Seq::empty() }]
            &&& blocks_encoding(blocks) == seq![0u8, 0u8]
            &&& table_encoding(blocks) == seq![
                0u8, 0u8, 0u8, 0u8, 0u8, 1u8, 0u8, 0u8, 0u8, 0u8, 0u8, 0u8, 0u8, 0u8, 0u8, 0u8,
                0u8, 0u8, 0u8, 2u8,
            ]
            &&& data_fits(blocks)
            &&& image_fits(blocks)
        }),
{
    reveal_with_fuel(blocks_encoding, 2);
    reveal_with_fuel(metas_encoding, 2);
}

/// A table has one block for each entry that found the open block full,
/// and one more, which the end of the stream seals: on top of those that
/// were sealed before the first of the entries.
pub proof fn lemma_block_count(start: TableView, entries: Seq<Entry>)
    ensures
        start.with_entries(entries).sealed.len() == start.sealed.len() + start.full_reports(
            entries,
        ),
        block_metas(start.with_entries(entries).blocks()).len() == start.sealed.len()
            + start.full_reports(entries) + 1,
    decreases entries.len(),
{
    if entries.len() > 0 {
        lemma_block_count(start, entries.drop_last());
    }
}

/// The blocks of a table hold the entries that were added, in their order
/// and nothing else. Only the first block can be empty, and only where no
/// entry was added. Every block that holds an entry fits the block size.
pub proof fn lemma_blocks_hold_entries(block_size: nat, entries: Seq<Entry>)
    requires
        TableView::empty(block_size).admits_all(entries),
    ensures
        ({
            let blocks = TableView::empty(block_size).with_entries(entries).blocks();
            &&& blocks.flatten() == entries
            &&& forall|i: int| 0 < i < blocks.len() ==> (#[trigger] blocks[i]).len() > 0
            &&& entries.len() > 0 ==> blocks[0].len() > 0
            &&& forall|i: int|
                0 <= i < blocks.len() && (#[trigger] blocks[i]).len() > 0 ==> block_fits(
                    blocks[i],
                    block_size,
                )
        }),
    decreases entries.len(),
{
    let start = TableView::empty(block_size);
    let blocks = start.with_entries(entries).blocks();
    if entries.len() == 0 {
        Seq::<Seq<Entry>>::empty().lemma_flatten_push(Seq::empty());
    } else {
        let e = entries.last();
        let before = start.with_entries(entries.drop_last());
        assert(start.admits_all(entries.drop_last())) by {
            assert forall|k: int| 0 <= k < entries.drop_last().len() implies start.admits(
                #[trigger] entries.drop_last()[k],
            ) by {}
        }
        lemma_blocks_hold_entries(block_size, entries.drop_last());
        lemma_with_entries_keeps(start, entries.drop_last());
        before.sealed.lemma_flatten_push(before.open);
        if before.accepts(e) {
            before.sealed.lemma_flatten_push(before.open.push(e));
        } else {
            before.blocks().lemma_flatten_push(seq![e]);
        }
        assert(blocks.flatten() =~= before.blocks().flatten().push(e));
        assert forall|i: int| 0 <= i < blocks.len() implies (i > 0 ==> (
        #[trigger] blocks[i]).len() > 0) && (blocks[i].len() > 0 ==> block_fits(
            blocks[i],
            block_size,
        )) by {
            if i < before.sealed.len() || (i == before.sealed.len() && !before.accepts(e)) {
                assert(blocks[i] == before.blocks()[i]);
            }
        }
    }
}

/// The first key in the record of a block is the key of the entry that
/// opened the block: the entry that stands, among those added, behind all
/// the entries of the blocks before. For the first block that is the first
/// entry of all. For a later block it is the entry that found the block
/// before full: the one whose adding sealed that block.
pub proof fn lemma_first_key(block_size: nat, entries: Seq<Entry>, i: int)
    requires
        TableView::empty(block_size).admits_all(entries),
        0 <= i < TableView::empty(block_size).with_entries(entries).blocks().len(),
        i > 0 || entries.len() > 0,
    ensures
        ({
            let start = TableView::empty(block_size);
            let blocks = start.with_entries(entries).blocks();
            let at = blocks.take(i).flatten().len() as int;
            &&& i == 0 ==> at == 0
            &&& at < entries.len()
            &&& block_metas(blocks)[i].first_key == entries[at].key
            &&& i > 0 ==> {
                &&& start.with_entries(entries.take(at)).sealed.len() == i - 1
                &&& !start.with_entries(entries.take(at)).accepts(entries[at])
                &&& start.with_entries(entries.take(at + 1)).sealed.len() == i
            }
        }),
    decreases entries.len(),
{
    let start = TableView::empty(block_size);
    let blocks = start.with_entries(entries).blocks();
    let at = blocks.take(i).flatten().len() as int;
    let e = entries.last();
    let rest = entries.drop_last();
    let before = start.with_entries(rest);
    assert(start.admits_all(rest)) by {
        assert forall|k: int| 0 <= k < rest.len() implies start.admits(#[trigger] rest[k]) by {}
    }
    lemma_blocks_hold_entries(block_size, rest);
    lemma_blocks_hold_entries(block_size, entries);
    before.sealed.lemma_flatten_push(before.open);
    if i < before.sealed.len() || (i == before.sealed.len() && (!before.accepts(e)
        || before.open.len() > 0)) {
        // The block was opened by an earlier entry.
        assert(blocks.take(i) =~= before.blocks().take(i));
        lemma_first_key(block_size, rest, i);
        assert(entries.take(at) =~= rest.take(at));
        assert(entries.take(at + 1) =~= rest.take(at + 1));
    } else {
        // The block was opened by the last entry.
        if !before.accepts(e) {
            assert(blocks.take(i) =~= before.blocks());
        }
        assert(entries.take(at + 1) =~= entries);
    }
}

/// The entries before a block are among the entries before a later block.
pub proof fn lemma_starts_increase(blocks: Seq<Seq<Entry>>, i: int, j: int)
    requires
        0 <= i <= j <= blocks.len(),
    ensures
        blocks.take(i).flatten().len() <= blocks.take(j).flatten().len(),
    decreases j - i,
{
    if i < j {
        lemma_starts_increase(blocks, i, j - 1);
        assert(blocks.take(j) =~= blocks.take(j - 1).push(blocks[j - 1]));
        blocks.take(j - 1).lemma_flatten_push(blocks[j - 1]);
    }
}

/// Where the keys come in an order, the first keys of the index stand in
/// that order: a relation that holds from the key of each entry to the key
/// of each later one holds from the first key of each block to that of each
/// later one.
pub proof fn lemma_first_keys_ordered(
    block_size: nat,
    entries: Seq<Entry>,
    le: spec_fn(Seq<u8>, Seq<u8>) -> bool,
    i: int,
    j: int,
)
    requires
        TableView::empty(block_size).admits_all(entries),
        forall|a: int, b: int|
            #![trigger entries[a], entries[b]]
            0 <= a <= b < entries.len() ==> le(entries[a].key, entries[b].key),
        0 <= i <= j < TableView::empty(block_size).with_entries(entries).blocks().len(),
        entries.len() > 0,
    ensures
        ({
            let metas = block_metas(TableView::empty(block_size).with_entries(entries).blocks());
            le(metas[i].first_key, metas[j].first_key)
        }),
{
    let blocks = TableView::empty(block_size).with_entries(entries).blocks();
    lemma_first_key(block_size, entries, i);
    lemma_first_key(block_size, entries, j);
    lemma_starts_increase(blocks, i, j);
}

/// The offset of a block is the length of the blocks before it on the wire:
/// nothing for the first block, and for each later block the offset of the
/// block before and that block's length.
pub proof fn lemma_offsets_add_up(blocks: Seq<Seq<Entry>>, i: int)
    requires
        0 <= i < blocks.len(),
    ensures
        block_metas(blocks)[i].offset == blocks_encoding(blocks.take(i)).len(),
        i == 0 ==> block_metas(blocks)[i].offset == 0,
        i + 1 < blocks.len() ==> block_metas(blocks)[i + 1].offset == block_metas(
            blocks,
        )[i].offset + block_encoding(blocks[i]).len(),
        i + 1 == blocks.len() ==> blocks_encoding(blocks).len() == block_metas(blocks)[i].offset
            + block_encoding(blocks[i]).len(),
{
    lemma_blocks_encoding_take(blocks, i);
}

/// A later block has a larger offset.
pub proof fn lemma_offsets_increase(blocks: Seq<Seq<Entry>>, i: int, j: int)
    requires
        0 <= i < j < blocks.len(),
    ensures
        block_metas(blocks)[i].offset < block_metas(blocks)[j].offset,
    decreases j - i,
{
    lemma_offsets_add_up(blocks, j - 1);
    lemma_block_len(blocks[j - 1], Entry { key: Seq::empty(), value: Seq::empty() });
    if i < j - 1 {
        lemma_offsets_increase(blocks, i, j - 1);
    }
}

/// An entry that the open block accepts leaves the sealed bytes as they
/// are. Another one adds the bytes of the block that it seals. Either way
/// the sealed bytes do not get fewer.
pub proof fn lemma_data_grows(table: TableView, e: Entry)
    ensures
        table.accepts(e) ==> table.with_entry(e).data() == table.data(),
        !table.accepts(e) ==> table.with_entry(e).data() == table.data() + block_encoding(
            table.open,
        ),
        table.data().len() <= table.with_entry(e).data().len(),
{
    lemma_blocks_push(table.sealed, table.open);
}

/// Whatever is added later, the sealed bytes stay where they are: they
/// begin the data region of the finished table, which is longer than they
/// are.
pub proof fn lemma_data_stays(table: TableView, entries: Seq<Entry>)
    ensures
        ({
            let data = blocks_encoding(table.with_entries(entries).blocks());
            &&& table.data().len() < data.len()
            &&& data.subrange(0, table.data().len() as int) == table.data()
        }),
{
    let blocks = table.with_entries(entries).blocks();
    let n = table.sealed.len() as int;
    lemma_with_entries_keeps(table, entries);
    assert(blocks.take(n) =~= table.sealed);
    lemma_blocks_encoding_prefix(blocks, n);
    lemma_blocks_encoding_take(blocks, n);
    lemma_block_len(blocks[n], Entry { key: Seq::empty(), value: Seq::empty() });
    lemma_blocks_encoding_take(blocks, n + 1);
}

} // verus!
