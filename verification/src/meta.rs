//! The index of a table: one record for each block, and its encoding.

use crate::wire::{
    get_u16, get_u32, get_u64, lemma_u16_be, lemma_u32_be, lemma_u64_be, put_u16, put_u32,
    put_u64, u16_be, u16_of_be, u32_be, u32_of_be, u64_be, u64_of_be,
};
use vstd::prelude::*;
use vstd::slice::{slice_subrange, slice_to_vec};

verus! {

/// Where a block starts in the data region, and the first key in it.
#[derive(Debug, PartialEq, Eq)]
pub struct BlockMeta {
    pub offset: usize,
    pub first_key: Vec<u8>,
}

/// A block's record in the model.
pub struct BlockMetaView {
    pub offset: nat,
    pub first_key: Seq<u8>,
}

impl View for BlockMeta {
    type V = BlockMetaView;

    open spec fn view(&self) -> BlockMetaView {
        BlockMetaView { offset: self.offset as nat, first_key: self.first_key@ }
    }
}

/// The records of an index in the model.
pub open spec fn metas_view(metas: Seq<BlockMeta>) -> Seq<BlockMetaView> {
    metas.map_values(|m: BlockMeta| m@)
}

/// One record on the wire: the offset in eight bytes, then the first key
/// behind its 16-bit length.
pub open spec fn meta_encoding(m: BlockMetaView) -> Seq<u8> {
    u64_be(m.offset as u64) + u16_be(m.first_key.len() as u16) + m.first_key
}

/// The records on the wire, one after the other.
pub open spec fn metas_encoding(ms: Seq<BlockMetaView>) -> Seq<u8>
    decreases ms.len(),
{
    if ms.len() == 0 {
        Seq::empty()
    } else {
        metas_encoding(ms.drop_last()) + meta_encoding(ms.last())
    }
}

/// An index on the wire: the number of records in four bytes, then the
/// records.
pub open spec fn index_encoding(ms: Seq<BlockMetaView>) -> Seq<u8> {
    u32_be(ms.len() as u32) + metas_encoding(ms)
}

/// Whether every number of the index fits the field that holds it on the
/// wire.
pub open spec fn index_encodable(ms: Seq<BlockMetaView>) -> bool {
    &&& ms.len() <= u32::MAX
    &&& forall|i: int|
        0 <= i < ms.len() ==> (#[trigger] ms[i]).offset <= u64::MAX && ms[i].first_key.len()
            <= u16::MAX
}

/// The first records of an index, on the wire, are no longer than all of
/// them, and each record adds ten bytes and its key.
pub proof fn lemma_metas_encoding_take(ms: Seq<BlockMetaView>, i: int)
    requires
        0 <= i <= ms.len(),
    ensures
        metas_encoding(ms.take(i)).len() <= metas_encoding(ms).len(),
        i < ms.len() ==> metas_encoding(ms.take(i + 1)) == metas_encoding(ms.take(i))
            + meta_encoding(ms[i]),
        i < ms.len() ==> metas_encoding(ms.take(i)).len() + 10 + ms[i].first_key.len()
            <= metas_encoding(ms).len(),
    decreases ms.len() - i,
{
    if i < ms.len() {
        assert(ms.take(i + 1).drop_last() =~= ms.take(i));
        lemma_metas_encoding_take(ms, i + 1);
    } else {
        assert(ms.take(i) =~= ms);
    }
}

/// The records that the bytes hold, where the bytes are `count` records
/// and nothing more.
spec fn parse_metas(bytes: Seq<u8>, count: nat) -> Option<Seq<BlockMetaView>>
    decreases count,
{
    if count == 0 {
        if bytes.len() == 0 {
            Some(Seq::empty())
        } else {
            None
        }
    } else if bytes.len() < 10 {
        None
    } else {
        let key_len = u16_of_be(bytes.subrange(8, 10)) as int;
        if bytes.len() < 10 + key_len {
            None
        } else {
            let first = BlockMetaView {
                offset: u64_of_be(bytes.subrange(0, 8)) as nat,
                first_key: bytes.subrange(10, 10 + key_len),
            };
            match parse_metas(
                bytes.subrange(10 + key_len, bytes.len() as int),
                (count - 1) as nat,
            ) {
                Some(rest) => Some(seq![first] + rest),
                None => None,
            }
        }
    }
}

/// The index that the bytes hold, where they are an index and nothing
/// more: a number in four bytes, and that many records.
spec fn parse_index(bytes: Seq<u8>) -> Option<Seq<BlockMetaView>> {
    if bytes.len() < 4 {
        None
    } else {
        parse_metas(bytes.subrange(4, bytes.len() as int), u32_of_be(bytes.subrange(0, 4)) as nat)
    }
}

/// Whether every offset of the index is one that this machine can hold.
pub open spec fn offsets_fit(ms: Seq<BlockMetaView>) -> bool {
    forall|i: int| 0 <= i < ms.len() ==> (#[trigger] ms[i]).offset <= usize::MAX
}

/// The records on the wire begin with the first of them.
proof fn lemma_metas_encoding_first(ms: Seq<BlockMetaView>)
    requires
        ms.len() > 0,
    ensures
        metas_encoding(ms) == meta_encoding(ms[0]) + metas_encoding(ms.drop_first()),
    decreases ms.len(),
{
    if ms.len() == 1 {
        assert(ms.drop_last() =~= Seq::<BlockMetaView>::empty());
        assert(ms.drop_first() =~= Seq::<BlockMetaView>::empty());
    } else {
        lemma_metas_encoding_first(ms.drop_last());
        assert(ms.drop_last().drop_first() =~= ms.drop_first().drop_last());
    }
}

/// Where a record stands in front of other bytes, its parts are found at
/// their places.
proof fn lemma_meta_encoding_parts(m: BlockMetaView, rest: Seq<u8>)
    requires
        m.offset <= u64::MAX,
        m.first_key.len() <= u16::MAX,
    ensures
        ({
            let bytes = meta_encoding(m) + rest;
            let key_len = m.first_key.len() as int;
            &&& bytes.len() == 10 + m.first_key.len() + rest.len()
            &&& u64_of_be(bytes.subrange(0, 8)) == m.offset
            &&& u16_of_be(bytes.subrange(8, 10)) == m.first_key.len()
            &&& bytes.subrange(10, 10 + key_len) == m.first_key
            &&& bytes.subrange(10 + key_len, bytes.len() as int) == rest
        }),
{
    lemma_u64_be(m.offset as u64, Seq::empty());
    lemma_u16_be(m.first_key.len() as u16, Seq::empty());
}

/// The records that were written are the records that are read.
proof fn lemma_parse_metas_encoding(ms: Seq<BlockMetaView>)
    requires
        forall|i: int|
            0 <= i < ms.len() ==> (#[trigger] ms[i]).offset <= u64::MAX && ms[i].first_key.len()
                <= u16::MAX,
    ensures
        parse_metas(metas_encoding(ms), ms.len()) == Some(ms),
    decreases ms.len(),
{
    if ms.len() > 0 {
        let rest = ms.drop_first();
        lemma_metas_encoding_first(ms);
        lemma_meta_encoding_parts(ms[0], metas_encoding(rest));
        assert forall|i: int| 0 <= i < rest.len() implies (#[trigger] rest[i]).offset <= u64::MAX
            && rest[i].first_key.len() <= u16::MAX by {}
        lemma_parse_metas_encoding(rest);
    }
}

/// Bytes that hold records are those records on the wire.
proof fn lemma_metas_encoding_parse(bytes: Seq<u8>, count: nat)
    requires
        parse_metas(bytes, count) is Some,
    ensures
        ({
            let ms = parse_metas(bytes, count).unwrap();
            &&& ms.len() == count
            &&& metas_encoding(ms) == bytes
            &&& forall|i: int|
                0 <= i < ms.len() ==> (#[trigger] ms[i]).offset <= u64::MAX
                    && ms[i].first_key.len() <= u16::MAX
        }),
    decreases count,
{
    let ms = parse_metas(bytes, count).unwrap();
    if count > 0 {
        let key_len = u16_of_be(bytes.subrange(8, 10)) as int;
        let tail = bytes.subrange(10 + key_len, bytes.len() as int);
        lemma_metas_encoding_parse(tail, (count - 1) as nat);
        let rest = parse_metas(tail, (count - 1) as nat).unwrap();
        assert(ms.drop_first() =~= rest);
        lemma_metas_encoding_first(ms);
        lemma_u64_be(0, bytes.subrange(0, 8));
        lemma_u16_be(0, bytes.subrange(8, 10));
        assert forall|i: int| 0 <= i < ms.len() implies (#[trigger] ms[i]).offset <= u64::MAX
            && ms[i].first_key.len() <= u16::MAX by {}
    }
}

/// The index that was written is the index that is read.
proof fn lemma_parse_index_encoding(ms: Seq<BlockMetaView>)
    requires
        index_encodable(ms),
    ensures
        parse_index(index_encoding(ms)) == Some(ms),
{
    let bytes = index_encoding(ms);
    lemma_u32_be(ms.len() as u32, Seq::empty());
    assert(bytes.subrange(4, bytes.len() as int) =~= metas_encoding(ms));
    lemma_parse_metas_encoding(ms);
}

/// Bytes that hold an index are that index on the wire.
proof fn lemma_index_encoding_parse(bytes: Seq<u8>)
    requires
        parse_index(bytes) is Some,
    ensures
        index_encodable(parse_index(bytes).unwrap()),
        index_encoding(parse_index(bytes).unwrap()) == bytes,
{
    let count = u32_of_be(bytes.subrange(0, 4)) as nat;
    lemma_metas_encoding_parse(bytes.subrange(4, bytes.len() as int), count);
    lemma_u32_be(0, bytes.subrange(0, 4));
}

/// No two indexes are written to the same bytes.
pub proof fn lemma_index_encoding_injective(a: Seq<BlockMetaView>, b: Seq<BlockMetaView>)
    requires
        index_encodable(a),
        index_encodable(b),
        index_encoding(a) == index_encoding(b),
    ensures
        a == b,
{
    lemma_parse_index_encoding(a);
    lemma_parse_index_encoding(b);
}

/// Reads the records one by one, as far as the bytes hold records.
fn read_index(buf: &[u8]) -> (metas: Option<Vec<BlockMeta>>)
    ensures
        metas is Some <==> parse_index(buf@) is Some && offsets_fit(parse_index(buf@).unwrap()),
        metas matches Some(v) ==> parse_index(buf@) == Some(metas_view(v@)),
{
    if buf.len() < 4 {
        return None;
    }
    let count: u32 = get_u32(buf, 0);
    let ghost body = buf@.subrange(4, buf@.len() as int);
    let mut metas: Vec<BlockMeta> = Vec::new();
    let mut at: usize = 4;
    let mut i: u32 = 0;
    while i < count
        invariant
            4 <= at <= buf.len(),
            i <= count,
            body == buf@.subrange(4, buf@.len() as int),
            parse_index(buf@) == parse_metas(body, count as nat),
            metas@.len() == i,
            parse_metas(body, count as nat) == match parse_metas(
                buf@.subrange(at as int, buf@.len() as int),
                (count - i) as nat,
            ) {
                Some(rest) => Some(metas_view(metas@) + rest),
                None => None,
            },
        decreases count - i,
    {
        let ghost bytes = buf@.subrange(at as int, buf@.len() as int);
        if buf.len() - at < 10 {
            return None;
        }
        let offset: u64 = get_u64(buf, at);
        let key_len: usize = get_u16(buf, at + 8) as usize;
        if buf.len() - at - 10 < key_len {
            return None;
        }
        let ghost first = BlockMetaView {
            offset: offset as nat,
            first_key: bytes.subrange(10, 10 + key_len),
        };
        let ghost tail = bytes.subrange(10 + key_len, bytes.len() as int);
        if offset > usize::MAX as u64 {
            proof {
                if parse_metas(tail, (count - i - 1) as nat) is Some {
                    let all = parse_metas(body, count as nat).unwrap();
                    assert(all[i as int] == first);
                }
            }
            return None;
        }
        let first_key = slice_to_vec(slice_subrange(buf, at + 10, at + 10 + key_len));
        let meta = BlockMeta { offset: offset as usize, first_key };
        proof {
            assert(bytes.subrange(10, 10 + key_len) =~= buf@.subrange(
                at + 10,
                at + 10 + key_len,
            ));
            assert(tail =~= buf@.subrange(at + 10 + key_len, buf@.len() as int));
        }
        metas.push(meta);
        at = at + 10 + key_len;
        i += 1;
    }
    if at != buf.len() {
        return None;
    }
    Some(metas)
}

impl BlockMeta {
    /// Reads an index from bytes that hold an index and nothing more.
    ///
    /// What comes back is the index that was written to these bytes. It is
    /// `None` where no index is written to them, or one with an offset
    /// that this machine cannot hold.
    pub fn decode_block_meta(buf: &[u8]) -> (metas: Option<Vec<BlockMeta>>)
        ensures
            metas matches Some(v) ==> index_encodable(metas_view(v@)) && buf@ == index_encoding(
                metas_view(v@),
            ),
            forall|ms: Seq<BlockMetaView>|
                index_encodable(ms) && offsets_fit(ms) && buf@ == #[trigger] index_encoding(ms)
                    ==> metas is Some && metas_view(metas.unwrap()@) == ms,
    {
        let metas = read_index(buf);
        proof {
            if metas is Some {
                lemma_index_encoding_parse(buf@);
            }
            assert forall|ms: Seq<BlockMetaView>|
                index_encodable(ms) && offsets_fit(ms) && buf@ == #[trigger] index_encoding(
                    ms,
                ) implies metas is Some && metas_view(metas.unwrap()@) == ms by {
                lemma_parse_index_encoding(ms);
            }
        }
        metas
    }

    /// The length of the index on the wire, unless it is more than a
    /// `usize` holds.
    pub fn encoded_len(block_meta: &[BlockMeta]) -> (len: Option<usize>)
        ensures
            match len {
                Some(n) => n == index_encoding(metas_view(block_meta@)).len(),
                None => index_encoding(metas_view(block_meta@)).len() > usize::MAX,
            },
    {
        let ghost ms = metas_view(block_meta@);
        let mut total: usize = 4;
        let mut i: usize = 0;
        while i < block_meta.len()
            invariant
                i <= block_meta.len(),
                ms == metas_view(block_meta@),
                total == 4 + metas_encoding(ms.take(i as int)).len(),
            decreases block_meta.len() - i,
        {
            proof {
                lemma_metas_encoding_take(ms, i as int);
            }
            let key_len: usize = block_meta[i].first_key.len();
            if key_len > usize::MAX - 10 || total > usize::MAX - 10 - key_len {
                return None;
            }
            total = total + 10 + key_len;
            i += 1;
        }
        proof {
            assert(ms.take(i as int) =~= ms);
        }
        Some(total)
    }

    /// Appends the index to `buf`.
    pub fn encode_block_meta(block_meta: &[BlockMeta], buf: &mut Vec<u8>)
        requires
            index_encodable(metas_view(block_meta@)),
            old(buf)@.len() + index_encoding(metas_view(block_meta@)).len() <= isize::MAX,
        ensures
            final(buf)@ == old(buf)@ + index_encoding(metas_view(block_meta@)),
    {
        let ghost ms = metas_view(block_meta@);
        put_u32(buf, block_meta.len() as u32);
        let mut i: usize = 0;
        while i < block_meta.len()
            invariant
                i <= block_meta.len(),
                ms == metas_view(block_meta@),
                index_encodable(ms),
                old(buf)@.len() + 4 + metas_encoding(ms).len() <= isize::MAX,
                buf@ == old(buf)@ + u32_be(ms.len() as u32) + metas_encoding(ms.take(i as int)),
            decreases block_meta.len() - i,
        {
            proof {
                lemma_metas_encoding_take(ms, i as int);
            }
            let meta = &block_meta[i];
            put_u64(buf, meta.offset as u64);
            put_u16(buf, meta.first_key.len() as u16);
            buf.extend_from_slice(meta.first_key.as_slice());
            i += 1;
        }
        proof {
            assert(ms.take(i as int) =~= ms);
        }
    }
}

} // verus!
