use crate::block::{decoding, well_formed, Block};
use crate::codec::{
    copy_range, crc32, crc32_of, lemma_u16_be_at_append, lemma_u32_be_at_append, put_slice,
    put_u16, put_u32, read_u16, read_u32, u16_be_at, u16_be_bytes, u32_be_at, u32_be_bytes,
};
use crate::error::Error;
use crate::key::{
    compare_keys, key_le, key_lt, lemma_key_le_lt_transitive, lemma_key_lt_transitive, KeyOrder,
};
use crate::table::bloom::{bloom_decoding, Bloom};
use std::sync::Arc;
use vstd::prelude::*;
use vstd::slice::slice_subrange;

pub mod bloom;
pub mod iterator;

pub use iterator::SsTableIterator;

verus! {

/// Where a data block lies in the file, and the keys it spans.
#[derive(Clone, Debug, PartialEq, Eq)]
pub struct BlockMeta {
    /// Offset of the data block in the file.
    pub offset: u32,
    /// The first key of the data block.
    pub first_key: Vec<u8>,
    /// The last key of the data block.
    pub last_key: Vec<u8>,
}

/// A block metadata entry as plain values.
pub struct BlockMetaView {
    pub offset: u32,
    pub first_key: Seq<u8>,
    pub last_key: Seq<u8>,
}

impl View for BlockMeta {
    type V = BlockMetaView;

    open spec fn view(&self) -> BlockMetaView {
        BlockMetaView { offset: self.offset, first_key: self.first_key@, last_key: self.last_key@ }
    }
}

/// The entries of a metadata index as plain values.
pub open spec fn metas_view(metas: Seq<BlockMeta>) -> Seq<BlockMetaView> {
    Seq::new(metas.len(), |i: int| metas[i]@)
}

/// The bytes of one metadata entry: the offset in four bytes, then each key
/// behind its length in two bytes.
pub open spec fn meta_entry_bytes(meta: BlockMetaView) -> Seq<u8> {
    u32_be_bytes(meta.offset) + u16_be_bytes(meta.first_key.len() as u16) + meta.first_key
        + u16_be_bytes(meta.last_key.len() as u16) + meta.last_key
}

/// The bytes of the metadata entries, one behind the other.
pub open spec fn meta_entries_bytes(metas: Seq<BlockMetaView>) -> Seq<u8>
    decreases metas.len(),
{
    if metas.len() == 0 {
        Seq::empty()
    } else {
        meta_entries_bytes(metas.drop_last()) + meta_entry_bytes(metas.last())
    }
}

/// The encoded metadata index: the number of entries in four bytes, the
/// entries, and the checksum of the entries in four bytes.
pub open spec fn meta_encoding(metas: Seq<BlockMetaView>) -> Seq<u8> {
    u32_be_bytes(metas.len() as u32) + meta_entries_bytes(metas) + u32_be_bytes(
        crc32(meta_entries_bytes(metas)),
    )
}

/// The index can be encoded: the number of entries fits four bytes and the
/// length of each key fits two.
pub open spec fn meta_encodable(metas: Seq<BlockMetaView>) -> bool {
    &&& metas.len() <= u32::MAX
    &&& forall|i: int|
        0 <= i < metas.len() ==> (#[trigger] metas[i]).first_key.len() <= u16::MAX
            && metas[i].last_key.len() <= u16::MAX
}

/// The metadata entry that begins at `at`, and where it ends; `None` where
/// the entry does not lie within `buf`.
#[verifier::opaque]
pub open spec fn parse_meta_entry(buf: Seq<u8>, at: int) -> Option<(BlockMetaView, int)> {
    if at < 0 || at + 6 > buf.len() {
        None
    } else {
        let first_len = u16_be_at(buf, at + 4) as int;
        let last_at = at + 6 + first_len;
        if last_at + 2 > buf.len() {
            None
        } else {
            let last_len = u16_be_at(buf, last_at) as int;
            let end = last_at + 2 + last_len;
            if end > buf.len() {
                None
            } else {
                Some(
                    (
                        BlockMetaView {
                            offset: u32_be_at(buf, at),
                            first_key: buf.subrange(at + 6, last_at),
                            last_key: buf.subrange(last_at + 2, end),
                        },
                        end,
                    ),
                )
            }
        }
    }
}

/// The `count` metadata entries that begin at `at`, and where the last
/// ends; `None` where one of them does not lie within `buf`.
pub open spec fn parse_meta_entries(buf: Seq<u8>, at: int, count: nat) -> Option<
    (Seq<BlockMetaView>, int),
>
    decreases count,
{
    if count == 0 {
        Some((Seq::empty(), at))
    } else {
        match parse_meta_entry(buf, at) {
            None => None,
            Some((meta, next)) => match parse_meta_entries(buf, next, (count - 1) as nat) {
                None => None,
                Some((rest, end)) => Some((seq![meta] + rest, end)),
            },
        }
    }
}

/// What an encoded metadata index decodes to, or why it is refused: a
/// buffer too short for the count and the checksum, a checksum over the
/// entries that differs from the stored one, or entries that do not fill
/// the room between the count and the checksum exactly.
#[verifier::opaque]
pub open spec fn meta_decoding(buf: Seq<u8>) -> Result<Seq<BlockMetaView>, Error> {
    if buf.len() < 8 {
        Err(Error::Malformed)
    } else if u32_be_at(buf, buf.len() - 4) != crc32(buf.subrange(4, buf.len() - 4)) {
        Err(Error::MetaChecksumMismatch)
    } else {
        match parse_meta_entries(
            buf.subrange(0, buf.len() - 4),
            4,
            u32_be_at(buf, 0) as nat,
        ) {
            Some((metas, end)) => if end == buf.len() - 4 {
                Ok(metas)
            } else {
                Err(Error::Malformed)
            },
            None => Err(Error::Malformed),
        }
    }
}

/// A metadata entry written at the end of `front` parses as it was written,
/// whatever follows it.
pub proof fn lemma_parse_meta_entry(front: Seq<u8>, meta: BlockMetaView, back: Seq<u8>)
    requires
        meta.first_key.len() <= u16::MAX,
        meta.last_key.len() <= u16::MAX,
    ensures
        parse_meta_entry(front + meta_entry_bytes(meta) + back, front.len() as int) == Some(
            (meta, (front.len() + meta_entry_bytes(meta).len()) as int),
        ),
{
    reveal(parse_meta_entry);
    let buf = front + meta_entry_bytes(meta) + back;
    let at = front.len() as int;
    let first_len = meta.first_key.len() as u16;
    let last_len = meta.last_key.len() as u16;
    let tail1 = u16_be_bytes(first_len) + meta.first_key + u16_be_bytes(last_len) + meta.last_key
        + back;
    assert(buf =~= front + u32_be_bytes(meta.offset) + tail1);
    lemma_u32_be_at_append(front, meta.offset, tail1);
    let front2 = front + u32_be_bytes(meta.offset);
    let tail2 = meta.first_key + u16_be_bytes(last_len) + meta.last_key + back;
    assert(buf =~= front2 + u16_be_bytes(first_len) + tail2);
    lemma_u16_be_at_append(front2, first_len, tail2);
    let front3 = front2 + u16_be_bytes(first_len) + meta.first_key;
    let tail3 = meta.last_key + back;
    assert(buf =~= front3 + u16_be_bytes(last_len) + tail3);
    lemma_u16_be_at_append(front3, last_len, tail3);
    let last_at = at + 6 + first_len;
    assert(last_at == front3.len());
    assert(buf.subrange(at + 6, last_at) =~= meta.first_key);
    assert(buf.subrange(last_at + 2, last_at + 2 + last_len) =~= meta.last_key);
}

/// The bytes of the entries begin with the bytes of the first entry.
pub proof fn lemma_meta_entries_bytes_first(metas: Seq<BlockMetaView>)
    requires
        metas.len() > 0,
    ensures
        meta_entries_bytes(metas) == meta_entry_bytes(metas[0]) + meta_entries_bytes(
            metas.drop_first(),
        ),
    decreases metas.len(),
{
    if metas.len() == 1 {
        assert(metas.drop_last() =~= Seq::<BlockMetaView>::empty());
        assert(metas.drop_first() =~= Seq::<BlockMetaView>::empty());
        assert(meta_entries_bytes(metas) =~= meta_entry_bytes(metas[0]) + meta_entries_bytes(
            metas.drop_first(),
        ));
    } else {
        lemma_meta_entries_bytes_first(metas.drop_last());
        assert(metas.drop_last().drop_first() =~= metas.drop_first().drop_last());
        assert(metas.drop_last()[0] == metas[0]);
        assert(metas.drop_first().last() == metas.last());
        assert(meta_entries_bytes(metas) =~= meta_entry_bytes(metas[0]) + meta_entries_bytes(
            metas.drop_first(),
        ));
    }
}

/// Entries written at the end of `front` parse as they were written,
/// whatever follows them.
pub proof fn lemma_parse_meta_entries(front: Seq<u8>, metas: Seq<BlockMetaView>, back: Seq<u8>)
    requires
        meta_encodable(metas),
    ensures
        parse_meta_entries(
            front + meta_entries_bytes(metas) + back,
            front.len() as int,
            metas.len(),
        ) == Some((metas, (front.len() + meta_entries_bytes(metas).len()) as int)),
    decreases metas.len(),
{
    let buf = front + meta_entries_bytes(metas) + back;
    if metas.len() == 0 {
    } else {
        let first = metas[0];
        let rest = metas.drop_first();
        lemma_meta_entries_bytes_first(metas);
        let back1 = meta_entries_bytes(rest) + back;
        assert(buf =~= front + meta_entry_bytes(first) + back1);
        lemma_parse_meta_entry(front, first, back1);
        let front1 = front + meta_entry_bytes(first);
        assert(buf =~= front1 + meta_entries_bytes(rest) + back);
        assert(meta_encodable(rest)) by {
            assert forall|i: int| 0 <= i < rest.len() implies (#[trigger] rest[i]).first_key.len()
                <= u16::MAX && rest[i].last_key.len() <= u16::MAX by {
                assert(rest[i] == metas[i + 1]);
            }
        }
        lemma_parse_meta_entries(front1, rest, back);
        assert(seq![first] + rest =~= metas);
    }
}

/// Decoding an encoded metadata index gives back its entries.
pub proof fn lemma_meta_decode_encode(metas: Seq<BlockMetaView>)
    requires
        meta_encodable(metas),
    ensures
        meta_decoding(meta_encoding(metas)) == Ok::<Seq<BlockMetaView>, Error>(metas),
{
    reveal(meta_decoding);
    let count = metas.len() as u32;
    let body = meta_entries_bytes(metas);
    let sum = crc32(body);
    let buf = meta_encoding(metas);
    let head = u32_be_bytes(count);
    assert(buf =~= Seq::<u8>::empty() + head + (body + u32_be_bytes(sum)));
    lemma_u32_be_at_append(Seq::<u8>::empty(), count, body + u32_be_bytes(sum));
    assert(buf =~= (head + body) + u32_be_bytes(sum) + Seq::<u8>::empty());
    lemma_u32_be_at_append(head + body, sum, Seq::<u8>::empty());
    assert(buf.subrange(4, buf.len() - 4) =~= body);
    assert(buf.subrange(0, buf.len() - 4) =~= head + body + Seq::<u8>::empty());
    lemma_parse_meta_entries(head, metas, Seq::<u8>::empty());
}

/// An encoded metadata index whose stored checksum is not that of the
/// bytes between the count and the checksum is refused for its checksum,
/// whatever else it holds.
pub proof fn lemma_meta_checksum_decides(buf: Seq<u8>)
    requires
        buf.len() >= 8,
        u32_be_at(buf, buf.len() - 4) != crc32(buf.subrange(4, buf.len() - 4)),
    ensures
        meta_decoding(buf) == Err::<Seq<BlockMetaView>, Error>(Error::MetaChecksumMismatch),
{
    reveal(meta_decoding);
}

/// The entries parsed so far, followed by what the rest parses to.
spec fn parsed_then(done: Seq<BlockMetaView>, rest: Option<(Seq<BlockMetaView>, int)>) -> Option<
    (Seq<BlockMetaView>, int),
> {
    match rest {
        None => None,
        Some((more, end)) => Some((done + more, end)),
    }
}

proof fn lemma_parse_step(buf: Seq<u8>, done: Seq<BlockMetaView>, at: int, count: nat)
    requires
        count > 0,
    ensures
        parsed_then(done, parse_meta_entries(buf, at, count)) == match parse_meta_entry(buf, at) {
            None => None,
            Some((meta, next)) => parsed_then(
                done.push(meta),
                parse_meta_entries(buf, next, (count - 1) as nat),
            ),
        },
{
    match parse_meta_entry(buf, at) {
        None => {},
        Some((meta, next)) => {
            match parse_meta_entries(buf, next, (count - 1) as nat) {
                None => {},
                Some((more, end)) => {
                    assert(done + (seq![meta] + more) =~= done.push(meta) + more);
                },
            }
        },
    }
}

impl BlockMeta {
    /// Appends the encoded metadata index to `buf`: the number of entries,
    /// then for each entry the offset and both keys, each key behind its
    /// length, then the checksum of the entries.
    pub fn encode_block_meta(block_meta: &[BlockMeta], buf: &mut Vec<u8>)
        requires
            meta_encodable(metas_view(block_meta@)),
        ensures
            final(buf)@ == old(buf)@ + meta_encoding(metas_view(block_meta@)),
    {
        let ghost metas = metas_view(block_meta@);
        put_u32(buf, block_meta.len() as u32);
        let ghost head = buf@;
        let entries_start = buf.len();
        let mut i: usize = 0;
        assert(metas.take(0) =~= Seq::<BlockMetaView>::empty());
        while i < block_meta.len()
            invariant
                metas == metas_view(block_meta@),
                meta_encodable(metas),
                i <= block_meta@.len(),
                buf@ == head + meta_entries_bytes(metas.take(i as int)),
            decreases block_meta@.len() - i,
        {
            let meta = &block_meta[i];
            assert(metas[i as int] == meta@);
            put_u32(buf, meta.offset);
            put_u16(buf, meta.first_key.len() as u16);
            put_slice(buf, meta.first_key.as_slice());
            put_u16(buf, meta.last_key.len() as u16);
            put_slice(buf, meta.last_key.as_slice());
            proof {
                assert(metas.take(i + 1).drop_last() =~= metas.take(i as int));
                assert(metas.take(i + 1).last() == meta@);
                assert(buf@ =~= head + meta_entries_bytes(metas.take(i + 1)));
            }
            i += 1;
        }
        assert(metas.take(block_meta@.len() as int) =~= metas);
        assert(buf@.subrange(entries_start as int, buf@.len() as int) =~= meta_entries_bytes(metas));
        let checksum = crc32_of(slice_subrange(buf.as_slice(), entries_start, buf.len()));
        put_u32(buf, checksum);
        assert(buf@ =~= old(buf)@ + meta_encoding(metas));
    }

    /// Decodes a metadata index: verifies the checksum over the entries,
    /// then reads as many entries as the count says. The entries must fill
    /// the room between the count and the checksum exactly.
    pub fn decode_block_meta(buf: &[u8]) -> (decoded: Result<Vec<BlockMeta>, Error>)
        ensures
            match meta_decoding(buf@) {
                Ok(metas) => decoded is Ok && metas_view(decoded->Ok_0@) == metas,
                Err(e) => decoded == Err::<Vec<BlockMeta>, Error>(e),
            },
    {
        reveal(meta_decoding);
        let len = buf.len();
        if len < 8 {
            return Err(Error::Malformed);
        }
        let num = read_u32(buf, 0);
        let checksum = crc32_of(slice_subrange(buf, 4, len - 4));
        if read_u32(buf, len - 4) != checksum {
            return Err(Error::MetaChecksumMismatch);
        }
        let body = slice_subrange(buf, 0, len - 4);
        let body_end = len - 4;
        let mut block_meta: Vec<BlockMeta> = Vec::new();
        let mut at: usize = 4;
        let mut i: u32 = 0;
        assert(metas_view(block_meta@) =~= Seq::<BlockMetaView>::empty());
        assert(parsed_then(
            Seq::<BlockMetaView>::empty(),
            parse_meta_entries(body@, 4, num as nat),
        ) == parse_meta_entries(body@, 4, num as nat)) by {
            match parse_meta_entries(body@, 4, num as nat) {
                None => {},
                Some((more, end)) => {
                    assert(Seq::<BlockMetaView>::empty() + more =~= more);
                },
            }
        }
        while i < num
            invariant
                len == buf@.len(),
                len >= 8,
                num == u32_be_at(buf@, 0),
                u32_be_at(buf@, len - 4) == crc32(buf@.subrange(4, len - 4)),
                body@ == buf@.subrange(0, len - 4),
                body_end == body@.len(),
                i <= num,
                4 <= at <= body_end,
                parse_meta_entries(body@, 4, num as nat) == parsed_then(
                    metas_view(block_meta@),
                    parse_meta_entries(body@, at as int, (num - i) as nat),
                ),
            decreases num - i,
        {
            proof {
                reveal(parse_meta_entry);
                reveal(meta_decoding);
                lemma_parse_step(body@, metas_view(block_meta@), at as int, (num - i) as nat);
            }
            if body_end - at < 6 {
                return Err(Error::Malformed);
            }
            let offset = read_u32(body, at);
            let first_len = read_u16(body, at + 4) as usize;
            let room = body_end - at - 6;
            if room < first_len || room - first_len < 2 {
                return Err(Error::Malformed);
            }
            let last_at = at + 6 + first_len;
            let first_key = copy_range(body, at + 6, last_at);
            let last_len = read_u16(body, last_at) as usize;
            if body_end - last_at - 2 < last_len {
                return Err(Error::Malformed);
            }
            let end = last_at + 2 + last_len;
            let last_key = copy_range(body, last_at + 2, end);
            let ghost before = metas_view(block_meta@);
            let meta = BlockMeta { offset, first_key, last_key };
            block_meta.push(meta);
            assert(metas_view(block_meta@) =~= before.push(meta@));
            at = end;
            i += 1;
        }
        if at != body_end {
            return Err(Error::Malformed);
        }
        Ok(block_meta)
    }
}

/// The entries of a metadata index are in order: each block begins behind
/// the one before it, the keys of a block do not run backwards, and the
/// keys of each block lie before those of the next.
pub open spec fn metas_ordered(metas: Seq<BlockMetaView>) -> bool {
    &&& forall|i: int|
        0 <= i < metas.len() ==> key_le((#[trigger] metas[i]).first_key, metas[i].last_key)
    &&& forall|i: int|
        0 <= i < metas.len() - 1 ==> (#[trigger] metas[i]).offset < metas[i + 1].offset && key_lt(
            metas[i].last_key,
            metas[i + 1].first_key,
        )
}

/// The first key of each entry of a metadata index.
pub open spec fn first_keys(metas: Seq<BlockMetaView>) -> Seq<Seq<u8>> {
    Seq::new(metas.len(), |i: int| metas[i].first_key)
}

/// `idx` is the block in which a search for `key` begins: block 0 where
/// the key lies before every block, else the last block whose first key is
/// not behind the key.
pub open spec fn block_for_key(first_keys: Seq<Seq<u8>>, key: Seq<u8>, idx: int) -> bool {
    if first_keys.len() == 0 || key_lt(key, first_keys[0]) {
        idx == 0
    } else {
        &&& 0 <= idx < first_keys.len()
        &&& key_le(first_keys[idx], key)
        &&& idx < first_keys.len() - 1 ==> key_lt(key, first_keys[idx + 1])
    }
}

/// In an ordered metadata index the first keys increase strictly.
pub proof fn lemma_first_keys_increasing(metas: Seq<BlockMetaView>, i: int, j: int)
    requires
        metas_ordered(metas),
        0 <= i < j < metas.len(),
    ensures
        key_lt(metas[i].first_key, metas[j].first_key),
    decreases j - i,
{
    lemma_key_le_lt_transitive(metas[j - 1].first_key, metas[j - 1].last_key, metas[j].first_key);
    if i < j - 1 {
        lemma_first_keys_increasing(metas, i, j - 1);
        lemma_key_lt_transitive(metas[i].first_key, metas[j - 1].first_key, metas[j].first_key);
    }
}

/// For a key that does not lie before every block, the block in which a
/// search begins has a first key that is at most the key, and it is the
/// last block or the next block begins behind the key. In an ordered index
/// there is one such block only.
pub proof fn lemma_block_for_key(metas: Seq<BlockMetaView>, key: Seq<u8>, idx: int, other: int)
    requires
        metas_ordered(metas),
        metas.len() > 0,
        key_le(metas[0].first_key, key),
        block_for_key(first_keys(metas), key, idx),
        block_for_key(first_keys(metas), key, other),
    ensures
        0 <= idx < metas.len(),
        key_le(metas[idx].first_key, key),
        idx == metas.len() - 1 || key_lt(key, metas[idx + 1].first_key),
        other == idx,
{
    let firsts = first_keys(metas);
    assert(firsts[0] == metas[0].first_key);
    assert(firsts[idx] == metas[idx].first_key);
    assert(firsts[other] == metas[other].first_key);
    if idx < other {
        assert(firsts[idx + 1] == metas[idx + 1].first_key);
        if idx + 1 < other {
            lemma_first_keys_increasing(metas, idx + 1, other);
            lemma_key_lt_transitive(key, metas[idx + 1].first_key, metas[other].first_key);
        }
    } else if other < idx {
        assert(firsts[other + 1] == metas[other + 1].first_key);
        if other + 1 < idx {
            lemma_first_keys_increasing(metas, other + 1, idx);
            lemma_key_lt_transitive(key, metas[other + 1].first_key, metas[idx].first_key);
        }
    }
    if idx < metas.len() - 1 {
        assert(firsts[idx + 1] == metas[idx + 1].first_key);
    }
}

/// What a search for the last key that is at most `target` has found out
/// between `low` and `high`: no key before `low` is behind `target`, and
/// every key from `high` on is.
spec fn floor_bounds(keys: Seq<Seq<u8>>, target: Seq<u8>, low: int, high: int) -> bool {
    &&& 0 <= low <= high <= keys.len()
    &&& forall|j: int| 0 <= j < low ==> key_le(#[trigger] keys[j], target)
    &&& forall|j: int| high <= j < keys.len() ==> key_lt(target, #[trigger] keys[j])
}

proof fn lemma_floor_raise_low(keys: Seq<Seq<u8>>, target: Seq<u8>, low: int, high: int, mid: int)
    requires
        crate::key::keys_increasing(keys),
        floor_bounds(keys, target, low, high),
        low <= mid < high,
        key_le(keys[mid], target),
    ensures
        floor_bounds(keys, target, mid + 1, high),
{
    assert forall|j: int| 0 <= j < mid + 1 implies key_le(#[trigger] keys[j], target) by {
        if j < mid && key_lt(target, keys[j]) {
            lemma_key_lt_transitive(target, keys[j], keys[mid]);
        }
    }
}

proof fn lemma_floor_lower_high(keys: Seq<Seq<u8>>, target: Seq<u8>, low: int, high: int, mid: int)
    requires
        crate::key::keys_increasing(keys),
        floor_bounds(keys, target, low, high),
        low <= mid < high,
        key_lt(target, keys[mid]),
    ensures
        floor_bounds(keys, target, low, mid),
{
    assert forall|j: int| mid <= j < keys.len() implies key_lt(target, #[trigger] keys[j]) by {
        if mid < j {
            lemma_key_lt_transitive(target, keys[mid], keys[j]);
        }
    }
}

proof fn lemma_first_keys_all_increasing(metas: Seq<BlockMetaView>)
    requires
        metas_ordered(metas),
    ensures
        crate::key::keys_increasing(first_keys(metas)),
{
    let firsts = first_keys(metas);
    assert forall|i: int, j: int| 0 <= i < j < firsts.len() implies key_lt(
        #[trigger] firsts[i],
        #[trigger] firsts[j],
    ) by {
        lemma_first_keys_increasing(metas, i, j);
    }
}

/// What a positional read gives: the bytes of the range, or an error where
/// the range is not within the file or the file has no contents.
pub open spec fn reading(contents: Option<Seq<u8>>, offset: int, len: int) -> Result<
    Seq<u8>,
    Error,
> {
    match contents {
        Some(bytes) => if 0 <= offset && 0 <= len && offset + len <= bytes.len() {
            Ok(bytes.subrange(offset, offset + len))
        } else {
            Err(Error::Io)
        },
        None => Err(Error::Io),
    }
}

/// An immutable file, held as its bytes; a file of which only the size is
/// known has no contents.
pub struct FileObject(Option<Vec<u8>>, u64);

impl FileObject {
    /// The bytes of the file, where they are held.
    pub closed spec fn contents(&self) -> Option<Seq<u8>> {
        match self.0 {
            Some(bytes) => Some(bytes@),
            None => None,
        }
    }

    /// The size of the file in bytes.
    pub closed spec fn size_spec(&self) -> u64 {
        self.1
    }

    /// The size is the number of bytes held.
    #[verifier::type_invariant]
    pub closed spec fn sized(&self) -> bool {
        self.0 matches Some(bytes) ==> bytes@.len() == self.1
    }

    /// A file with the bytes `data`.
    pub fn from_bytes(data: Vec<u8>) -> (file: Self)
        ensures
            file.contents() == Some(data@),
            file.size_spec() == data@.len(),
    {
        let size = data.len() as u64;
        FileObject(Some(data), size)
    }

    /// Reads `len` bytes at `offset`. Fails where the range is not within
    /// the file, or the file has no contents.
    pub fn read(&self, offset: u64, len: u64) -> (data: Result<Vec<u8>, Error>)
        ensures
            match reading(self.contents(), offset as int, len as int) {
                Ok(bytes) => data is Ok && data->Ok_0@ == bytes,
                Err(e) => data == Err::<Vec<u8>, Error>(e),
            },
            self.contents() is Some && offset + len <= self.size_spec() ==> data is Ok,
    {
        proof {
            use_type_invariant(self);
        }
        match &self.0 {
            Some(bytes) => {
                let size = bytes.len();
                if offset > size as u64 || len > size as u64 - offset {
                    return Err(Error::Io);
                }
                Ok(copy_range(bytes.as_slice(), offset as usize, (offset + len) as usize))
            },
            None => Err(Error::Io),
        }
    }

    /// The size of the file in bytes.
    pub fn size(&self) -> (size: u64)
        ensures
            size == self.size_spec(),
            self.contents() matches Some(bytes) ==> bytes.len() == size,
    {
        proof {
            use_type_invariant(self);
        }
        self.1
    }
}

/// What the trailer of a table file leads to.
pub struct TableView {
    /// The metadata index.
    pub metas: Seq<BlockMetaView>,
    /// Where the metadata index begins in the file.
    pub block_meta_offset: int,
    /// The bits of the Bloom filter.
    pub bloom_filter: Seq<u8>,
    /// The number of hash functions of the Bloom filter.
    pub bloom_k: u8,
}

/// Where the Bloom filter begins, as the last four bytes of the file say.
/// Malformed where the file is shorter than four bytes, or the offset
/// points behind its own place.
pub open spec fn bloom_offset_of(bytes: Seq<u8>) -> Result<int, Error> {
    if bytes.len() < 4 {
        Err(Error::Malformed)
    } else if u32_be_at(bytes, bytes.len() - 4) > bytes.len() - 4 {
        Err(Error::Malformed)
    } else {
        Ok(u32_be_at(bytes, bytes.len() - 4) as int)
    }
}

/// Where the metadata index begins, as the four bytes before the Bloom
/// filter say. Malformed where there are no four bytes before the filter,
/// or the offset points behind its own place.
pub open spec fn meta_offset_of(bytes: Seq<u8>, bloom_offset: int) -> Result<int, Error> {
    if bloom_offset < 4 {
        Err(Error::Malformed)
    } else if u32_be_at(bytes, bloom_offset - 4) > bloom_offset - 4 {
        Err(Error::Malformed)
    } else {
        Ok(u32_be_at(bytes, bloom_offset - 4) as int)
    }
}

/// The metadata index of a table: decoded, with at least one entry, and in
/// order.
pub open spec fn index_decoding(raw: Seq<u8>) -> Result<Seq<BlockMetaView>, Error> {
    match meta_decoding(raw) {
        Err(e) => Err(e),
        Ok(metas) => if metas.len() == 0 || !metas_ordered(metas) {
            Err(Error::Malformed)
        } else {
            Ok(metas)
        },
    }
}

/// The Bloom filter of a table file and where it begins, or why the file
/// is refused.
pub open spec fn bloom_section(bytes: Seq<u8>) -> Result<(int, (Seq<u8>, u8)), Error> {
    match bloom_offset_of(bytes) {
        Err(e) => Err(e),
        Ok(bloom_offset) => match bloom_decoding(
            bytes.subrange(bloom_offset, bytes.len() - 4),
        ) {
            Err(e) => Err(e),
            Ok(bloom) => Ok((bloom_offset, bloom)),
        },
    }
}

/// The metadata index of a table file and where it begins, or why the
/// file is refused.
pub open spec fn meta_section(bytes: Seq<u8>, bloom_offset: int) -> Result<
    (int, Seq<BlockMetaView>),
    Error,
> {
    match meta_offset_of(bytes, bloom_offset) {
        Err(e) => Err(e),
        Ok(meta_offset) => match index_decoding(bytes.subrange(meta_offset, bloom_offset - 4)) {
            Err(e) => Err(e),
            Ok(metas) => Ok((meta_offset, metas)),
        },
    }
}

/// What opening a table file with the bytes `bytes` gives, or why the file
/// is refused. The last four bytes say where the Bloom filter begins; the
/// four bytes before the filter say where the metadata index begins; the
/// index ends where those four bytes begin. The first failure decides: of
/// the offset of the filter, the filter, the offset of the index, the index.
pub open spec fn opening(bytes: Seq<u8>) -> Result<TableView, Error> {
    match bloom_section(bytes) {
        Err(e) => Err(e),
        Ok(bloom) => match meta_section(bytes, bloom.0) {
            Err(e) => Err(e),
            Ok(index) => Ok(
                TableView {
                    metas: index.1,
                    block_meta_offset: index.0,
                    bloom_filter: bloom.1.0,
                    bloom_k: bloom.1.1,
                },
            ),
        },
    }
}

/// What opening a file of `size` bytes gives: a file of less than four
/// bytes is malformed, a longer one without contents cannot be read, and
/// one with contents is opened as `opening` says.
pub open spec fn opening_file(size: u64, contents: Option<Seq<u8>>) -> Result<TableView, Error> {
    if size < 4 {
        Err(Error::Malformed)
    } else {
        match contents {
            None => Err(Error::Io),
            Some(bytes) => opening(bytes),
        }
    }
}

/// What reading block `idx` gives: its raw entries and its offsets, or why
/// it is refused. The block lies between its offset and the offset of the
/// next block, or the metadata index behind the last block; its last four
/// bytes hold the checksum of the bytes before them.
#[verifier::opaque]
pub open spec fn block_reading(
    contents: Option<Seq<u8>>,
    metas: Seq<BlockMetaView>,
    block_meta_offset: int,
    idx: int,
) -> Result<(Seq<u8>, Seq<u16>), Error> {
    let offset = metas[idx].offset as int;
    let end = if idx + 1 < metas.len() {
        metas[idx + 1].offset as int
    } else {
        block_meta_offset
    };
    if end < offset + 4 {
        Err(Error::Malformed)
    } else {
        match reading(contents, offset, end - offset) {
            Err(e) => Err(e),
            Ok(raw) => if u32_be_at(raw, raw.len() - 4) != crc32(raw.subrange(0, raw.len() - 4)) {
                Err(Error::BlockChecksumMismatch)
            } else {
                match decoding(raw.subrange(0, raw.len() - 4)) {
                    None => Err(Error::Malformed),
                    Some(parts) => if well_formed(parts.0, parts.1) {
                        Ok(parts)
                    } else {
                        Err(Error::Malformed)
                    },
                }
            },
        }
    }
}

/// Reads the four-byte offset that the file keeps at `at`.
fn read_offset(file: &FileObject, at: u64) -> (offset: Result<u32, Error>)
    requires
        at + 4 <= file.size_spec(),
    ensures
        match file.contents() {
            Some(bytes) => offset == Ok::<u32, Error>(u32_be_at(bytes, at as int)),
            None => offset == Err::<u32, Error>(Error::Io),
        },
{
    let raw = file.read(at, 4)?;
    proof {
        let bytes = file.contents()->Some_0;
        assert(raw@[0] == bytes[at as int]);
        assert(raw@[1] == bytes[at + 1]);
        assert(raw@[2] == bytes[at + 2]);
        assert(raw@[3] == bytes[at + 3]);
    }
    Ok(read_u32(raw.as_slice(), 0))
}

/// Decodes the metadata index of a table, and refuses one without entries
/// or out of order.
fn decode_index(raw: &[u8]) -> (index: Result<Vec<BlockMeta>, Error>)
    ensures
        match index_decoding(raw@) {
            Ok(metas) => index is Ok && metas_view(index->Ok_0@) == metas,
            Err(e) => index == Err::<Vec<BlockMeta>, Error>(e),
        },
{
    let block_meta = BlockMeta::decode_block_meta(raw)?;
    if block_meta.len() == 0 || !check_ordered(&block_meta) {
        return Err(Error::Malformed);
    }
    Ok(block_meta)
}

/// Reads where the Bloom filter begins, and the filter.
fn read_bloom_section(file: &FileObject) -> (section: Result<(u64, Bloom), Error>)
    requires
        file.size_spec() >= 4,
    ensures
        match file.contents() {
            None => section == Err::<(u64, Bloom), Error>(Error::Io),
            Some(bytes) => match bloom_section(bytes) {
                Err(e) => section == Err::<(u64, Bloom), Error>(e),
                Ok(found) => section is Ok && section->Ok_0.0 == found.0
                    && section->Ok_0.1.filter_view() == found.1.0 && section->Ok_0.1.k_view()
                    == found.1.1,
            },
        },
        section is Ok ==> section->Ok_0.0 <= file.size_spec() - 4,
{
    let len = file.size();
    let bloom_offset = read_offset(file, len - 4)? as u64;
    if bloom_offset > len - 4 {
        return Err(Error::Malformed);
    }
    let raw_bloom = file.read(bloom_offset, len - 4 - bloom_offset)?;
    let bloom = Bloom::decode(raw_bloom.as_slice())?;
    Ok((bloom_offset, bloom))
}

/// Reads where the metadata index begins, and the index.
fn read_meta_section(file: &FileObject, bloom_offset: u64) -> (section: Result<
    (u64, Vec<BlockMeta>),
    Error,
>)
    requires
        bloom_offset <= file.size_spec(),
    ensures
        match file.contents() {
            None => section == Err::<(u64, Vec<BlockMeta>), Error>(
                if bloom_offset < 4 {
                    Error::Malformed
                } else {
                    Error::Io
                },
            ),
            Some(bytes) => match meta_section(bytes, bloom_offset as int) {
                Err(e) => section == Err::<(u64, Vec<BlockMeta>), Error>(e),
                Ok(found) => section is Ok && section->Ok_0.0 == found.0 && metas_view(
                    section->Ok_0.1@,
                ) == found.1 && found.1.len() > 0 && metas_ordered(found.1),
            },
        },
        section is Ok ==> section->Ok_0.0 <= u32::MAX,
{
    if bloom_offset < 4 {
        return Err(Error::Malformed);
    }
    let block_meta_offset = read_offset(file, bloom_offset - 4)? as u64;
    if block_meta_offset > bloom_offset - 4 {
        return Err(Error::Malformed);
    }
    let raw_meta = file.read(block_meta_offset, bloom_offset - 4 - block_meta_offset)?;
    let block_meta = decode_index(raw_meta.as_slice())?;
    Ok((block_meta_offset, block_meta))
}

/// Whether the metadata entries are in order.
fn check_ordered(metas: &Vec<BlockMeta>) -> (ordered: bool)
    ensures
        ordered == metas_ordered(metas_view(metas@)),
{
    let ghost view = metas_view(metas@);
    let mut i: usize = 0;
    while i < metas.len()
        invariant
            view == metas_view(metas@),
            i <= metas@.len(),
            forall|j: int| 0 <= j < i ==> key_le((#[trigger] view[j]).first_key, view[j].last_key),
            forall|j: int|
                0 <= j < i && j < view.len() - 1 ==> (#[trigger] view[j]).offset < view[j
                    + 1].offset && key_lt(view[j].last_key, view[j + 1].first_key),
        decreases metas@.len() - i,
    {
        let meta = &metas[i];
        assert(view[i as int] == meta@);
        match compare_keys(meta.first_key.as_slice(), meta.last_key.as_slice()) {
            KeyOrder::Greater => {
                return false;
            },
            _ => {},
        }
        if i + 1 < metas.len() {
            let next = &metas[i + 1];
            assert(view[i + 1] == next@);
            if meta.offset >= next.offset {
                return false;
            }
            match compare_keys(meta.last_key.as_slice(), next.first_key.as_slice()) {
                KeyOrder::Less => {},
                _ => {
                    return false;
                },
            }
        }
        i += 1;
    }
    true
}

/// A sorted string table: an immutable file of data blocks with their
/// metadata index and a Bloom filter.
pub struct SsTable {
    /// The file that holds the table.
    pub(crate) file: FileObject,
    /// Where each data block lies, and the keys it spans.
    pub(crate) block_meta: Vec<BlockMeta>,
    /// Where the metadata index begins in the file.
    pub(crate) block_meta_offset: usize,
    id: usize,
    first_key: Vec<u8>,
    last_key: Vec<u8>,
    pub(crate) bloom: Option<Bloom>,
    /// The largest timestamp stored in the table.
    max_ts: u64,
}

impl SsTable {
    /// The bytes of the file, where they are held.
    pub closed spec fn contents(&self) -> Option<Seq<u8>> {
        self.file.contents()
    }

    /// The metadata index.
    pub closed spec fn metas(&self) -> Seq<BlockMetaView> {
        metas_view(self.block_meta@)
    }

    /// Where the metadata index begins in the file.
    pub closed spec fn meta_offset(&self) -> int {
        self.block_meta_offset as int
    }

    /// The bits and the number of hash functions of the Bloom filter, where
    /// the table has one.
    pub closed spec fn bloom_view(&self) -> Option<(Seq<u8>, u8)> {
        match self.bloom {
            Some(bloom) => Some((bloom.filter_view(), bloom.k_view())),
            None => None,
        }
    }

    /// The first key of the table.
    pub closed spec fn first_key_view(&self) -> Seq<u8> {
        self.first_key@
    }

    /// The last key of the table.
    pub closed spec fn last_key_view(&self) -> Seq<u8> {
        self.last_key@
    }

    /// The identifier of the table.
    pub closed spec fn id_view(&self) -> usize {
        self.id
    }

    /// The size of the file in bytes.
    pub closed spec fn size_view(&self) -> u64 {
        self.file.size_spec()
    }

    /// The largest timestamp stored in the table.
    pub closed spec fn max_ts_view(&self) -> u64 {
        self.max_ts
    }

    /// The metadata index is in order, and the first and the last key of a
    /// table with blocks are those of its first and its last block.
    #[verifier::type_invariant]
    pub closed spec fn inv(&self) -> bool {
        &&& metas_ordered(metas_view(self.block_meta@))
        &&& self.block_meta@.len() > 0 ==> {
            &&& self.first_key@ == self.block_meta@[0].first_key@
            &&& self.last_key@ == self.block_meta@[self.block_meta@.len() - 1].last_key@
        }
    }

    /// What reading block `idx` of this table gives.
    pub open spec fn block_at(&self, idx: int) -> Result<(Seq<u8>, Seq<u16>), Error> {
        block_reading(self.contents(), self.metas(), self.meta_offset(), idx)
    }

    /// The table is what opening a file with the bytes `bytes` gives, where
    /// the trailer of the file leads to `view`.
    pub open spec fn opened_from(&self, id: usize, bytes: Seq<u8>, view: TableView) -> bool {
        &&& self.contents() == Some(bytes)
        &&& self.metas() == view.metas
        &&& self.meta_offset() == view.block_meta_offset
        &&& self.bloom_view() == Some((view.bloom_filter, view.bloom_k))
        &&& self.first_key_view() == view.metas[0].first_key
        &&& self.last_key_view() == view.metas[view.metas.len() - 1].last_key
        &&& self.id_view() == id
        &&& self.size_view() == bytes.len()
        &&& self.max_ts_view() == 0
    }

    /// Opens a table from a file: reads where the Bloom filter begins, the
    /// filter, where the metadata index begins, and the index. A file of
    /// less than four bytes is malformed; a longer one without contents
    /// cannot be read.
    pub fn open(id: usize, file: FileObject) -> (opened: Result<SsTable, Error>)
        ensures
            match opening_file(file.size_spec(), file.contents()) {
                Err(e) => opened == Err::<SsTable, Error>(e),
                Ok(view) => opened is Ok && opened->Ok_0.opened_from(
                    id,
                    file.contents()->Some_0,
                    view,
                ),
            },
    {
        let len = file.size();
        if len < 4 {
            return Err(Error::Malformed);
        }
        let ghost contents = file.contents();
        let (bloom_offset, bloom_filter) = match read_bloom_section(&file) {
            Ok(found) => found,
            Err(e) => {
                return Err(e);
            },
        };
        let ghost bytes = contents->Some_0;
        assert(contents is Some);
        assert(bloom_section(bytes) is Ok);
        let ghost bloom = bloom_section(bytes)->Ok_0;
        assert(bloom.0 == bloom_offset);
        let (block_meta_offset, block_meta) = match read_meta_section(&file, bloom_offset) {
            Ok(found) => found,
            Err(e) => {
                return Err(e);
            },
        };
        assert(meta_section(bytes, bloom.0) is Ok);
        let ghost index = meta_section(bytes, bloom.0)->Ok_0;
        let ghost view = TableView {
            metas: index.1,
            block_meta_offset: index.0,
            bloom_filter: bloom.1.0,
            bloom_k: bloom.1.1,
        };
        assert(opening_file(file.size_spec(), contents) == Ok::<TableView, Error>(view));
        let first = &block_meta[0].first_key;
        let first_key = copy_range(first.as_slice(), 0, first.len());
        let last = &block_meta[block_meta.len() - 1].last_key;
        let last_key = copy_range(last.as_slice(), 0, last.len());
        assert(first_key@ =~= metas_view(block_meta@)[0].first_key);
        assert(last_key@ =~= metas_view(block_meta@)[block_meta@.len() - 1].last_key);
        let table = Self {
            file,
            first_key,
            last_key,
            block_meta,
            block_meta_offset: block_meta_offset as usize,
            id,
            bloom: Some(bloom_filter),
            max_ts: 0,
        };
        assert(table.opened_from(id, bytes, view));
        Ok(table)
    }

    /// A table that stands for a file of `file_size` bytes of which only the
    /// first and the last key are known: it has no blocks and no filter.
    pub fn create_meta_only(id: usize, file_size: u64, first_key: Vec<u8>, last_key: Vec<u8>) -> (table:
        Self)
        ensures
            table.contents() is None,
            table.metas() == Seq::<BlockMetaView>::empty(),
            table.meta_offset() == 0,
            table.bloom_view() is None,
            table.first_key_view() == first_key@,
            table.last_key_view() == last_key@,
            table.id_view() == id,
            table.size_view() == file_size,
            table.max_ts_view() == 0,
    {
        let table = Self {
            file: FileObject(None, file_size),
            block_meta: Vec::new(),
            block_meta_offset: 0,
            id,
            first_key,
            last_key,
            bloom: None,
            max_ts: 0,
        };
        assert(table.metas() =~= Seq::<BlockMetaView>::empty());
        table
    }

    /// Reads block `block_idx` from the file: verifies the checksum in its
    /// last four bytes, decodes it, and checks that it is well formed.
    pub fn read_block(&self, block_idx: usize) -> (block: Result<Arc<Block>, Error>)
        requires
            block_idx < self.metas().len(),
        ensures
            match self.block_at(block_idx as int) {
                Ok(parts) => block is Ok && block->Ok_0.data_view() == parts.0
                    && block->Ok_0.offsets_view() == parts.1 && block->Ok_0.wf(),
                Err(e) => block == Err::<Arc<Block>, Error>(e),
            },
    {
        reveal(block_reading);
        let count = self.block_meta.len();
        let offset = self.block_meta[block_idx].offset as usize;
        let offset_end = if block_idx + 1 < count {
            self.block_meta[block_idx + 1].offset as usize
        } else {
            self.block_meta_offset
        };
        assert(self.metas()[block_idx as int] == self.block_meta@[block_idx as int]@);
        if block_idx + 1 < count {
            assert(self.metas()[block_idx + 1] == self.block_meta@[block_idx + 1]@);
        }
        if offset_end < 4 || offset_end - 4 < offset {
            return Err(Error::Malformed);
        }
        let block_len = offset_end - offset - 4;
        let block_data_with_chksum = self.file.read(offset as u64, (offset_end - offset) as u64)?;
        let block_data = slice_subrange(block_data_with_chksum.as_slice(), 0, block_len);
        let checksum = read_u32(block_data_with_chksum.as_slice(), block_len);
        if checksum != crc32_of(block_data) {
            return Err(Error::BlockChecksumMismatch);
        }
        let block = Block::decode(block_data)?;
        if !block.is_well_formed() {
            return Err(Error::Malformed);
        }
        Ok(Arc::new(block))
    }

    /// Reads block `block_idx`. No cache is attached to a table, so the
    /// block is read from the file; who keeps a cache beside the table holds
    /// the block under `cache_key`.
    pub fn read_block_cached(&self, block_idx: usize) -> (block: Result<Arc<Block>, Error>)
        requires
            block_idx < self.metas().len(),
        ensures
            match self.block_at(block_idx as int) {
                Ok(parts) => block is Ok && block->Ok_0.data_view() == parts.0
                    && block->Ok_0.offsets_view() == parts.1 && block->Ok_0.wf(),
                Err(e) => block == Err::<Arc<Block>, Error>(e),
            },
    {
        self.read_block(block_idx)
    }

    /// The key under which a cache holds block `block_idx` of this table:
    /// the identifier of the table and the index of the block.
    pub fn cache_key(&self, block_idx: usize) -> (key: (usize, usize))
        ensures
            key == (self.id_view(), block_idx),
    {
        (self.id, block_idx)
    }

    /// Finds the block that may hold `key`: the last block whose first key
    /// is at most `key`, or block 0 where `key` lies before every block.
    pub fn find_block_idx(&self, key: &[u8]) -> (idx: usize)
        ensures
            block_for_key(first_keys(self.metas()), key@, idx as int),
            metas_ordered(self.metas()),
    {
        proof {
            use_type_invariant(self);
        }
        let ghost firsts = first_keys(self.metas());
        proof {
            lemma_first_keys_all_increasing(self.metas());
        }
        let count = self.block_meta.len();
        let mut low: usize = 0;
        let mut high: usize = count;
        while low < high
            invariant
                firsts == first_keys(metas_view(self.block_meta@)),
                crate::key::keys_increasing(firsts),
                count == self.block_meta@.len(),
                floor_bounds(firsts, key@, low as int, high as int),
            decreases high - low,
        {
            let mid = low + (high - low) / 2;
            assert(firsts[mid as int] == self.block_meta@[mid as int]@.first_key);
            match compare_keys(self.block_meta[mid].first_key.as_slice(), key) {
                KeyOrder::Greater => {
                    proof {
                        lemma_floor_lower_high(firsts, key@, low as int, high as int, mid as int);
                    }
                    high = mid;
                },
                _ => {
                    proof {
                        lemma_floor_raise_low(firsts, key@, low as int, high as int, mid as int);
                    }
                    low = mid + 1;
                },
            }
        }
        if low == 0 {
            0
        } else {
            low - 1
        }
    }

    /// The Bloom filter of the table, where it has one.
    pub fn bloom(&self) -> (bloom: Option<&Bloom>)
        ensures
            match self.bloom_view() {
                Some(view) => bloom is Some && bloom->Some_0.filter_view() == view.0
                    && bloom->Some_0.k_view() == view.1,
                None => bloom is None,
            },
    {
        self.bloom.as_ref()
    }

    /// The number of data blocks.
    pub fn num_of_blocks(&self) -> (count: usize)
        ensures
            count == self.metas().len(),
    {
        self.block_meta.len()
    }

    /// The first key of the table.
    pub fn first_key(&self) -> (key: &Vec<u8>)
        ensures
            key@ == self.first_key_view(),
            self.metas().len() > 0 ==> key@ == self.metas()[0].first_key,
    {
        proof {
            use_type_invariant(self);
            if self.block_meta@.len() > 0 {
                assert(self.metas()[0] == self.block_meta@[0]@);
            }
        }
        &self.first_key
    }

    /// The last key of the table.
    pub fn last_key(&self) -> (key: &Vec<u8>)
        ensures
            key@ == self.last_key_view(),
            self.metas().len() > 0 ==> key@ == self.metas()[self.metas().len() - 1].last_key,
    {
        proof {
            use_type_invariant(self);
            if self.block_meta@.len() > 0 {
                assert(self.metas()[self.metas().len() - 1] == self.block_meta@[self.block_meta@.len()
                    - 1]@);
            }
        }
        &self.last_key
    }

    /// The size of the file in bytes.
    pub fn table_size(&self) -> (size: u64)
        ensures
            size == self.size_view(),
    {
        self.file.1
    }

    /// The identifier of the table.
    pub fn sst_id(&self) -> (id: usize)
        ensures
            id == self.id_view(),
    {
        self.id
    }

    /// The largest timestamp stored in the table.
    pub fn max_ts(&self) -> (ts: u64)
        ensures
            ts == self.max_ts_view(),
    {
        self.max_ts
    }
}

} // verus!
