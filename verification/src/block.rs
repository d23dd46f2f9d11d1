//! Blocks: size-bounded runs of key-value entries, and their encoding.

use crate::wire::{put_u16, u16_be};
use vstd::prelude::*;

verus! {

/// The largest encoded length of a block. Positions inside a block are
/// written as 16-bit integers.
pub const MAX_BLOCK_LEN: usize = 0xffff;

/// A key-value pair.
pub struct Entry {
    pub key: Seq<u8>,
    pub value: Seq<u8>,
}

/// One entry on the wire: each of key and value behind its 16-bit length.
pub open spec fn entry_encoding(e: Entry) -> Seq<u8> {
    u16_be(e.key.len() as u16) + e.key + u16_be(e.value.len() as u16) + e.value
}

/// The entries on the wire, one after the other.
pub open spec fn entries_encoding(es: Seq<Entry>) -> Seq<u8>
    decreases es.len(),
{
    if es.len() == 0 {
        Seq::empty()
    } else {
        entries_encoding(es.drop_last()) + entry_encoding(es.last())
    }
}

/// Where each entry starts among the encoded entries.
pub open spec fn entry_offsets(es: Seq<Entry>) -> Seq<u16> {
    Seq::new(es.len(), |i: int| entries_encoding(es.take(i)).len() as u16)
}

/// The offsets on the wire, two bytes each.
pub open spec fn offsets_encoding(offsets: Seq<u16>) -> Seq<u8>
    decreases offsets.len(),
{
    if offsets.len() == 0 {
        Seq::empty()
    } else {
        offsets_encoding(offsets.drop_last()) + u16_be(offsets.last())
    }
}

/// A block on the wire: the entries, the offset of each, and their number.
pub open spec fn block_encoding(es: Seq<Entry>) -> Seq<u8> {
    entries_encoding(es) + offsets_encoding(entry_offsets(es)) + u16_be(es.len() as u16)
}

/// Whether a block of these entries stays within `capacity` bytes and within
/// what 16-bit offsets can address.
pub open spec fn block_fits(es: Seq<Entry>, capacity: nat) -> bool {
    block_encoding(es).len() <= capacity && block_encoding(es).len() <= MAX_BLOCK_LEN
}

/// The key of the first entry, or no bytes where there is no entry.
pub open spec fn first_key_of(es: Seq<Entry>) -> Seq<u8> {
    if es.len() > 0 {
        es[0].key
    } else {
        Seq::empty()
    }
}

/// One more entry adds its encoding behind the others: its key, its value
/// and four bytes for their lengths.
pub proof fn lemma_entries_encoding_len(es: Seq<Entry>, e: Entry)
    ensures
        entries_encoding(es.push(e)) == entries_encoding(es) + entry_encoding(e),
        entries_encoding(es.push(e)).len() == entries_encoding(es).len() + e.key.len()
            + e.value.len() + 4,
{
    assert(es.push(e).drop_last() =~= es);
}

/// Each offset takes two bytes.
pub proof fn lemma_offsets_encoding_len(offsets: Seq<u16>)
    ensures
        offsets_encoding(offsets).len() == 2 * offsets.len(),
    decreases offsets.len(),
{
    if offsets.len() > 0 {
        lemma_offsets_encoding_len(offsets.drop_last());
    }
}

/// The offsets of a longer run are those of the shorter one, and the length
/// of the shorter one's encoding.
pub proof fn lemma_entry_offsets_push(es: Seq<Entry>, e: Entry)
    ensures
        entry_offsets(es.push(e)) == entry_offsets(es).push(entries_encoding(es).len() as u16),
{
    let left = entry_offsets(es.push(e));
    let right = entry_offsets(es).push(entries_encoding(es).len() as u16);
    assert forall|i: int| 0 <= i < left.len() implies left[i] == right[i] by {
        if i < es.len() {
            assert(es.push(e).take(i) =~= es.take(i));
        } else {
            assert(es.push(e).take(i) =~= es);
        }
    }
}

/// An empty block is two bytes long, and each entry adds its own bytes, four
/// for its two lengths and two for its offset.
pub proof fn lemma_block_len(es: Seq<Entry>, e: Entry)
    ensures
        block_encoding(Seq::<Entry>::empty()).len() == 2,
        block_encoding(es.push(e)).len() == block_encoding(es).len() + e.key.len()
            + e.value.len() + 6,
        block_encoding(es).len() == entries_encoding(es).len() + 2 * es.len() + 2,
{
    lemma_entries_encoding_len(es, e);
    lemma_offsets_encoding_len(entry_offsets(es));
    lemma_offsets_encoding_len(entry_offsets(es.push(e)));
    lemma_offsets_encoding_len(entry_offsets(Seq::<Entry>::empty()));
}

/// Every entry lies within the encoded entries.
pub proof fn lemma_entries_encoding_holds(es: Seq<Entry>, i: int)
    requires
        0 <= i < es.len(),
    ensures
        es[i].key.len() + es[i].value.len() + 4 <= entries_encoding(es).len(),
    decreases es.len(),
{
    if i < es.len() - 1 {
        lemma_entries_encoding_holds(es.drop_last(), i);
    }
}

/// A block is longer than its first key.
pub proof fn lemma_first_key_len(es: Seq<Entry>)
    ensures
        first_key_of(es).len() + 2 <= block_encoding(es).len(),
{
    if es.len() > 0 {
        lemma_entries_encoding_holds(es, 0);
    }
}

/// What a block builder holds: its capacity in bytes and its entries in the
/// order in which they came.
pub struct BlockView {
    pub capacity: nat,
    pub entries: Seq<Entry>,
}

impl BlockView {
    /// Whether the block has room for one more entry.
    pub open spec fn accepts(self, e: Entry) -> bool {
        block_fits(self.entries.push(e), self.capacity)
    }

    /// The block with one more entry at its end.
    pub open spec fn with_entry(self, e: Entry) -> BlockView {
        BlockView { capacity: self.capacity, entries: self.entries.push(e) }
    }
}

/// Collects entries for one block and refuses those that would make it
/// longer than its capacity.
pub struct BlockBuilder {
    offsets: Vec<u16>,
    data: Vec<u8>,
    block_size: usize,
    entries: Ghost<Seq<Entry>>,
}

impl View for BlockBuilder {
    type V = BlockView;

    closed spec fn view(&self) -> BlockView {
        BlockView { capacity: self.block_size as nat, entries: self.entries@ }
    }
}

impl BlockBuilder {
    /// The fields hold the encoding of the entries, and a block that is not
    /// empty fits its capacity.
    pub closed spec fn wf(&self) -> bool {
        &&& self.data@ == entries_encoding(self.entries@)
        &&& self.offsets@ == entry_offsets(self.entries@)
        &&& block_encoding(self.entries@).len() <= MAX_BLOCK_LEN
        &&& self.entries@.len() > 0 ==> block_encoding(self.entries@).len() <= self.block_size
    }

    /// A block that is not empty fits its capacity.
    pub proof fn lemma_wf_fits(&self)
        requires
            self.wf(),
        ensures
            block_encoding(self@.entries).len() <= MAX_BLOCK_LEN,
            self@.entries.len() > 0 ==> block_fits(self@.entries, self@.capacity),
    {
    }

    /// An empty builder for a block of at most `block_size` bytes.
    pub fn new(block_size: usize) -> (builder: Self)
        ensures
            builder.wf(),
            builder@ == (BlockView { capacity: block_size as nat, entries: Seq::empty() }),
    {
        let builder = BlockBuilder {
            offsets: Vec::new(),
            data: Vec::new(),
            block_size,
            entries: Ghost(Seq::empty()),
        };
        proof {
            lemma_block_len(Seq::empty(), Entry { key: Seq::empty(), value: Seq::empty() });
            assert(builder.offsets@ =~= entry_offsets(builder.entries@));
        }
        builder
    }

    /// Adds the pair if the block has room for it, and says whether it did.
    pub fn add(&mut self, key: &[u8], value: &[u8]) -> (accepted: bool)
        requires
            old(self).wf(),
        ensures
            final(self).wf(),
            accepted == old(self)@.accepts(Entry { key: key@, value: value@ }),
            accepted ==> final(self)@ == old(self)@.with_entry(Entry { key: key@, value: value@ }),
            !accepted ==> final(self)@ == old(self)@,
    {
        let ghost e = Entry { key: key@, value: value@ };
        let ghost es = self.entries@;
        proof {
            lemma_block_len(es, e);
        }
        if key.len() > MAX_BLOCK_LEN || value.len() > MAX_BLOCK_LEN {
            return false;
        }
        let used: usize = self.data.len() + 2 * self.offsets.len() + 2;
        let needed: usize = used + key.len() + value.len() + 6;
        if needed > self.block_size || needed > MAX_BLOCK_LEN {
            return false;
        }
        self.offsets.push(self.data.len() as u16);
        put_u16(&mut self.data, key.len() as u16);
        self.data.extend_from_slice(key);
        put_u16(&mut self.data, value.len() as u16);
        self.data.extend_from_slice(value);
        self.entries = Ghost(es.push(e));
        proof {
            lemma_entries_encoding_len(es, e);
            lemma_entry_offsets_push(es, e);
            assert(self.data@ =~= entries_encoding(es) + entry_encoding(e));
        }
        true
    }

    /// Closes the builder and hands over the block it collected.
    pub fn build(self) -> (block: Block)
        requires
            self.wf(),
        ensures
            block.wf(),
            block@ == self@.entries,
    {
        Block { data: self.data, offsets: self.offsets, entries: self.entries }
    }

    /// Whether no entry was added yet.
    pub fn is_empty(&self) -> (empty: bool)
        requires
            self.wf(),
        ensures
            empty == (self@.entries.len() == 0),
    {
        self.offsets.is_empty()
    }
}

/// A finished block.
pub struct Block {
    data: Vec<u8>,
    offsets: Vec<u16>,
    entries: Ghost<Seq<Entry>>,
}

impl View for Block {
    type V = Seq<Entry>;

    closed spec fn view(&self) -> Seq<Entry> {
        self.entries@
    }
}

impl Block {
    /// The fields hold the encoding of the entries, which is short enough
    /// for 16-bit offsets.
    pub closed spec fn wf(&self) -> bool {
        &&& self.data@ == entries_encoding(self.entries@)
        &&& self.offsets@ == entry_offsets(self.entries@)
        &&& block_encoding(self.entries@).len() <= MAX_BLOCK_LEN
    }

    /// The block on the wire.
    pub fn encode(&self) -> (bytes: Vec<u8>)
        requires
            self.wf(),
        ensures
            bytes@ == block_encoding(self@),
    {
        proof {
            lemma_offsets_encoding_len(self.offsets@);
        }
        let mut buf = self.data.clone();
        let mut i: usize = 0;
        while i < self.offsets.len()
            invariant
                i <= self.offsets.len(),
                self.data.len() + 2 * self.offsets.len() + 2 <= MAX_BLOCK_LEN,
                buf@ == self.data@ + offsets_encoding(self.offsets@.take(i as int)),
            decreases self.offsets.len() - i,
        {
            proof {
                lemma_offsets_encoding_len(self.offsets@.take(i as int));
                assert(self.offsets@.take(i + 1).drop_last() =~= self.offsets@.take(i as int));
            }
            put_u16(&mut buf, self.offsets[i]);
            i += 1;
        }
        proof {
            assert(self.offsets@.take(i as int) =~= self.offsets@);
        }
        put_u16(&mut buf, self.offsets.len() as u16);
        buf
    }
}

} // verus!
