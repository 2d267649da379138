use crate::codec::{
    bytes_from_vec, bytes_view, copy_range, put_u16, read_u16, u16_be_at, u16_be_bytes,
};
use crate::error::Error;
use bytes::Bytes;
use vstd::prelude::*;

pub mod builder;
pub mod iterator;

pub use builder::BlockBuilder;
pub use iterator::BlockIterator;

verus! {

/// Width in bytes of a length field, an offset and the entry count.
pub const SIZEOF_U16: usize = 2;

/// Position at which the entry at `at` keeps the length of its value.
pub open spec fn entry_value_at(data: Seq<u8>, at: int) -> int {
    at + 4 + entry_rest_len(data, at)
}

/// Number of leading bytes that the key of the entry at `at` shares with
/// the first key of the block.
pub open spec fn entry_overlap(data: Seq<u8>, at: int) -> int {
    u16_be_at(data, at) as int
}

/// Number of bytes of the key of the entry at `at` beyond the shared ones.
pub open spec fn entry_rest_len(data: Seq<u8>, at: int) -> int {
    u16_be_at(data, at + 2) as int
}

/// The bytes of the key of the entry at `at` beyond the shared ones.
pub open spec fn entry_rest(data: Seq<u8>, at: int) -> Seq<u8> {
    data.subrange(at + 4, at + 4 + entry_rest_len(data, at))
}

/// Length of the value of the entry at `at`.
pub open spec fn entry_value_len(data: Seq<u8>, at: int) -> int {
    u16_be_at(data, entry_value_at(data, at)) as int
}

/// The value of the entry at `at`.
pub open spec fn entry_value(data: Seq<u8>, at: int) -> Seq<u8> {
    data.subrange(entry_value_at(data, at) + 2, entry_end(data, at))
}

/// Position just behind the entry at `at`.
pub open spec fn entry_end(data: Seq<u8>, at: int) -> int {
    entry_value_at(data, at) + 2 + entry_value_len(data, at)
}

/// The entry at `at` lies within `data` with all its fields.
pub open spec fn entry_fits(data: Seq<u8>, at: int) -> bool {
    &&& 0 <= at
    &&& at + 4 <= data.len()
    &&& entry_value_at(data, at) + 2 <= data.len()
    &&& entry_end(data, at) <= data.len()
}

/// The first key of a block: the key bytes of the entry at position 0,
/// which shares nothing with an earlier key.
pub open spec fn first_key_of(data: Seq<u8>) -> Seq<u8> {
    entry_rest(data, 0)
}

/// The full key of the entry at `at`: what it shares with the first key,
/// followed by its own bytes.
pub open spec fn entry_key(data: Seq<u8>, at: int) -> Seq<u8> {
    first_key_of(data).subrange(0, entry_overlap(data, at)) + entry_rest(data, at)
}

/// `data` is a sequence of entries laid end to end, and `offsets` holds the
/// position of each of them in order. There is at least one entry, the first
/// has overlap 0, and no entry shares more than the first key has.
pub open spec fn well_formed(data: Seq<u8>, offsets: Seq<u16>) -> bool {
    &&& offsets.len() >= 1
    &&& offsets[0] == 0
    &&& entry_overlap(data, 0) == 0
    &&& forall|i: int|
        0 <= i < offsets.len() ==> {
            &&& entry_fits(data, #[trigger] offsets[i] as int)
            &&& entry_overlap(data, offsets[i] as int) <= first_key_of(data).len()
        }
    &&& forall|i: int|
        0 <= i < offsets.len() - 1 ==> entry_end(data, #[trigger] offsets[i] as int) == offsets[i
            + 1]
    &&& entry_end(data, offsets[offsets.len() - 1] as int) == data.len()
}

/// In a well-formed block each entry begins behind the one before it: the
/// offsets increase strictly.
pub proof fn lemma_offsets_increasing(data: Seq<u8>, offsets: Seq<u16>, i: int, j: int)
    requires
        well_formed(data, offsets),
        0 <= i < j < offsets.len(),
    ensures
        offsets[i] < offsets[j],
    decreases j - i,
{
    assert(entry_fits(data, offsets[j - 1] as int));
    assert(entry_end(data, offsets[j - 1] as int) == offsets[j]);
    if i < j - 1 {
        lemma_offsets_increasing(data, offsets, i, j - 1);
    }
}

/// The key and value of each entry, in the order of `offsets`.
pub open spec fn entries_of(data: Seq<u8>, offsets: Seq<u16>) -> Seq<(Seq<u8>, Seq<u8>)> {
    Seq::new(
        offsets.len(),
        |i: int| (entry_key(data, offsets[i] as int), entry_value(data, offsets[i] as int)),
    )
}

/// The keys of a sequence of entries.
pub open spec fn keys_of(entries: Seq<(Seq<u8>, Seq<u8>)>) -> Seq<Seq<u8>> {
    Seq::new(entries.len(), |i: int| entries[i].0)
}

/// The offsets as bytes: two for each, most significant first.
pub open spec fn offsets_bytes(offsets: Seq<u16>) -> Seq<u8> {
    Seq::new(2 * offsets.len(), |j: int| u16_be_bytes(offsets[j / 2])[j % 2])
}

/// The encoded block: the entries, the offsets, and the number of entries
/// in two bytes.
pub open spec fn encoding(data: Seq<u8>, offsets: Seq<u16>) -> Seq<u8> {
    data + offsets_bytes(offsets) + u16_be_bytes(offsets.len() as u16)
}

/// What an encoded block decodes to: `None` where the buffer has no room
/// for the count, or for as many offsets as the count says.
pub open spec fn decoding(bytes: Seq<u8>) -> Option<(Seq<u8>, Seq<u16>)> {
    if bytes.len() < 2 {
        None
    } else {
        let count = u16_be_at(bytes, bytes.len() - 2) as int;
        let data_end = bytes.len() - 2 - 2 * count;
        if data_end < 0 {
            None
        } else {
            Some(
                (
                    bytes.subrange(0, data_end),
                    Seq::new(count as nat, |i: int| u16_be_at(bytes, data_end + 2 * i)),
                ),
            )
        }
    }
}

/// Appending one offset appends its two bytes.
pub proof fn lemma_offsets_bytes_push(offsets: Seq<u16>, last: u16)
    ensures
        offsets_bytes(offsets.push(last)) == offsets_bytes(offsets) + u16_be_bytes(last),
{
    let lhs = offsets_bytes(offsets.push(last));
    let rhs = offsets_bytes(offsets) + u16_be_bytes(last);
    assert(lhs.len() == rhs.len());
    assert forall|j: int| 0 <= j < lhs.len() implies lhs[j] == rhs[j] by {
        if j < 2 * offsets.len() {
            assert(offsets.push(last)[j / 2] == offsets[j / 2]);
        } else {
            assert(j / 2 == offsets.len());
            assert(j % 2 == j - 2 * offsets.len());
        }
    }
    assert(lhs =~= rhs);
}

/// Decoding an encoded block gives back its entries and its offsets.
pub proof fn lemma_decode_encode(data: Seq<u8>, offsets: Seq<u16>)
    requires
        offsets.len() <= u16::MAX,
    ensures
        decoding(encoding(data, offsets)) == Some((data, offsets)),
{
    let count = offsets.len() as u16;
    let bytes = encoding(data, offsets);
    let front = data + offsets_bytes(offsets);
    assert(bytes == front + u16_be_bytes(count) + Seq::<u8>::empty());
    crate::codec::lemma_u16_be_at_append(front, count, Seq::<u8>::empty());
    assert(u16_be_at(bytes, bytes.len() - 2) == count);
    let data_end = bytes.len() - 2 - 2 * count;
    assert(data_end == data.len());
    assert(bytes.subrange(0, data_end) =~= data);
    let decoded = Seq::new(count as nat, |i: int| u16_be_at(bytes, data_end + 2 * i));
    assert forall|i: int| 0 <= i < offsets.len() implies decoded[i] == offsets[i] by {
        let j = 2 * i;
        assert(bytes[data_end + j] == offsets_bytes(offsets)[j]);
        assert(bytes[data_end + j + 1] == offsets_bytes(offsets)[j + 1]);
        assert(j / 2 == i && (j + 1) / 2 == i);
        assert(j % 2 == 0 && (j + 1) % 2 == 1);
    }
    assert(decoded =~= offsets);
}

/// An entry that lies within `data` reads the same after bytes are appended.
pub proof fn lemma_entry_unchanged_by_append(data: Seq<u8>, more: Seq<u8>, at: int)
    requires
        entry_fits(data, at),
    ensures
        entry_fits(data + more, at),
        entry_overlap(data + more, at) == entry_overlap(data, at),
        entry_rest_len(data + more, at) == entry_rest_len(data, at),
        entry_rest(data + more, at) == entry_rest(data, at),
        entry_value_len(data + more, at) == entry_value_len(data, at),
        entry_value(data + more, at) == entry_value(data, at),
        entry_end(data + more, at) == entry_end(data, at),
{
    let all = data + more;
    assert(u16_be_at(all, at) == u16_be_at(data, at));
    assert(u16_be_at(all, at + 2) == u16_be_at(data, at + 2));
    let value_at = entry_value_at(data, at);
    assert(u16_be_at(all, value_at) == u16_be_at(data, value_at));
    assert(entry_rest(all, at) =~= entry_rest(data, at));
    assert(entry_value(all, at) =~= entry_value(data, at));
}

/// The bytes of one entry: the overlap, the length of the rest of the key,
/// that rest, the length of the value, and the value.
pub open spec fn entry_bytes(overlap: u16, rest: Seq<u8>, value: Seq<u8>) -> Seq<u8> {
    u16_be_bytes(overlap) + u16_be_bytes(rest.len() as u16) + rest + u16_be_bytes(
        value.len() as u16,
    ) + value
}

/// An entry appended to `front` reads back as it was written.
pub proof fn lemma_entry_appended(front: Seq<u8>, overlap: u16, rest: Seq<u8>, value: Seq<u8>)
    requires
        rest.len() <= u16::MAX,
        value.len() <= u16::MAX,
    ensures
        entry_fits(front + entry_bytes(overlap, rest, value), front.len() as int),
        entry_overlap(front + entry_bytes(overlap, rest, value), front.len() as int) == overlap,
        entry_rest(front + entry_bytes(overlap, rest, value), front.len() as int) == rest,
        entry_value(front + entry_bytes(overlap, rest, value), front.len() as int) == value,
        entry_end(front + entry_bytes(overlap, rest, value), front.len() as int) == front.len()
            + 6 + rest.len() + value.len(),
        entry_bytes(overlap, rest, value).len() == 6 + rest.len() + value.len(),
{
    let at = front.len() as int;
    let rest_len = rest.len() as u16;
    let value_len = value.len() as u16;
    let all = front + entry_bytes(overlap, rest, value);
    assert(all =~= front + u16_be_bytes(overlap) + (u16_be_bytes(rest_len) + rest + u16_be_bytes(
        value_len,
    ) + value));
    crate::codec::lemma_u16_be_at_append(
        front,
        overlap,
        u16_be_bytes(rest_len) + rest + u16_be_bytes(value_len) + value,
    );
    let front2 = front + u16_be_bytes(overlap);
    assert(all =~= front2 + u16_be_bytes(rest_len) + (rest + u16_be_bytes(value_len) + value));
    crate::codec::lemma_u16_be_at_append(
        front2,
        rest_len,
        rest + u16_be_bytes(value_len) + value,
    );
    assert(entry_rest_len(all, at) == rest.len());
    let front3 = front2 + u16_be_bytes(rest_len) + rest;
    assert(all =~= front3 + u16_be_bytes(value_len) + value);
    crate::codec::lemma_u16_be_at_append(front3, value_len, value);
    assert(entry_value_at(all, at) == front3.len());
    assert(entry_value_len(all, at) == value.len());
    assert(entry_rest(all, at) =~= rest);
    assert(entry_value(all, at) =~= value);
}

/// Positions of the parts of one entry within the raw entries.
pub(crate) struct EntryLayout {
    /// Number of bytes that the key shares with the first key.
    pub overlap: usize,
    /// Where the key's own bytes begin.
    pub rest_start: usize,
    /// Where the key's own bytes end.
    pub rest_end: usize,
    /// Where the value begins.
    pub value_start: usize,
    /// Where the value ends.
    pub value_end: usize,
}

/// A block: the smallest unit of read and caching. It holds sorted
/// key-value pairs, each key compressed against the first key of the block.
pub struct Block {
    pub(crate) data: Vec<u8>,
    pub(crate) offsets: Vec<u16>,
}

impl Block {
    /// The raw concatenated entries.
    pub closed spec fn data_view(&self) -> Seq<u8> {
        self.data@
    }

    /// The position of each entry within the raw entries.
    pub closed spec fn offsets_view(&self) -> Seq<u16> {
        self.offsets@
    }

    /// The number of entries fits the two bytes that the encoding has for it.
    #[verifier::type_invariant]
    pub closed spec fn count_fits(&self) -> bool {
        self.offsets@.len() <= u16::MAX
    }

    /// The block is laid out as the format asks; see `well_formed`.
    pub open spec fn wf(&self) -> bool {
        well_formed(self.data_view(), self.offsets_view())
    }

    /// The key and value of each entry of the block.
    pub open spec fn entries(&self) -> Seq<(Seq<u8>, Seq<u8>)> {
        entries_of(self.data_view(), self.offsets_view())
    }

    /// The keys of the block increase strictly.
    pub open spec fn sorted(&self) -> bool {
        crate::key::keys_increasing(keys_of(self.entries()))
    }

    /// The two-byte number at `at` of the raw entries.
    pub(crate) fn u16_at(&self, at: usize) -> (v: u16)
        requires
            at + 2 <= self.data_view().len(),
        ensures
            v == u16_be_at(self.data_view(), at as int),
    {
        read_u16(self.data.as_slice(), at)
    }

    /// Where the entry `idx` keeps the bytes of its key and its value.
    pub(crate) fn layout(&self, idx: usize) -> (at: EntryLayout)
        requires
            self.wf(),
            idx < self.offsets_view().len(),
        ensures
            at.overlap == entry_overlap(self.data_view(), self.offsets_view()[idx as int] as int),
            at.overlap <= first_key_of(self.data_view()).len(),
            at.rest_start == self.offsets_view()[idx as int] + 4,
            at.rest_end == entry_value_at(self.data_view(), self.offsets_view()[idx as int] as int),
            at.value_start == at.rest_end + 2,
            at.value_end == entry_end(self.data_view(), self.offsets_view()[idx as int] as int),
            at.rest_start <= at.rest_end,
            at.value_start <= at.value_end <= self.data_view().len(),
    {
        let start = self.offsets[idx] as usize;
        let overlap = self.u16_at(start) as usize;
        let rest_len = self.u16_at(start + 2) as usize;
        let rest_end = start + 4 + rest_len;
        let value_len = self.u16_at(rest_end) as usize;
        EntryLayout {
            overlap,
            rest_start: start + 4,
            rest_end,
            value_start: rest_end + 2,
            value_end: rest_end + 2 + value_len,
        }
    }

    /// Number of entries.
    pub fn len(&self) -> (n: usize)
        ensures
            n == self.entries().len(),
    {
        self.offsets.len()
    }

    /// Checks that the block is laid out as the format asks: that every
    /// offset points at an entry that lies within the raw entries, that one
    /// entry ends where the next begins and the last where the raw entries
    /// end, and that no key shares more with the first key than it has.
    pub fn is_well_formed(&self) -> (ok: bool)
        ensures
            ok == self.wf(),
    {
        let n = self.offsets.len();
        let len = self.data.len();
        if n == 0 {
            return false;
        }
        if self.offsets[0] != 0 {
            return false;
        }
        let mut first_key_len: usize = 0;
        let mut i: usize = 0;
        while i < n
            invariant
                n == self.offsets@.len(),
                len == self.data@.len(),
                n >= 1,
                self.offsets@[0] == 0,
                i <= n,
                i > 0 ==> first_key_len == first_key_of(self.data@).len() && entry_overlap(
                    self.data@,
                    0,
                ) == 0,
                forall|j: int|
                    0 <= j < i ==> {
                        &&& entry_fits(self.data@, #[trigger] self.offsets@[j] as int)
                        &&& entry_overlap(self.data@, self.offsets@[j] as int) <= first_key_len
                    },
                forall|j: int|
                    0 <= j < i && j < n - 1 ==> entry_end(
                        self.data@,
                        #[trigger] self.offsets@[j] as int,
                    ) == self.offsets@[j + 1],
                i == n ==> entry_end(self.data@, self.offsets@[n - 1] as int) == len,
            decreases n - i,
        {
            let at = self.offsets[i] as usize;
            if at + 4 > len {
                return false;
            }
            let overlap = self.u16_at(at) as usize;
            let rest_len = self.u16_at(at + 2) as usize;
            let value_at = at + 4 + rest_len;
            if value_at + 2 > len {
                return false;
            }
            let value_len = self.u16_at(value_at) as usize;
            let end = value_at + 2 + value_len;
            if end > len {
                return false;
            }
            if i == 0 {
                if overlap != 0 {
                    return false;
                }
                first_key_len = rest_len;
            } else if overlap > first_key_len {
                return false;
            }
            if i + 1 < n {
                if self.offsets[i + 1] as usize != end {
                    return false;
                }
            } else if end != len {
                return false;
            }
            i += 1;
        }
        true
    }

    /// Encodes the block: the entries, then each offset in two bytes, then
    /// the number of entries in two bytes, all big-endian.
    pub fn encode(&self) -> (encoded: Bytes)
        ensures
            bytes_view(encoded) == encoding(self.data_view(), self.offsets_view()),
    {
        proof {
            use_type_invariant(self);
        }
        let mut buf = self.data.clone();
        let offsets_len = self.offsets.len();
        let mut i: usize = 0;
        assert(offsets_bytes(self.offsets@.subrange(0, 0)) =~= Seq::<u8>::empty());
        while i < offsets_len
            invariant
                offsets_len == self.offsets@.len(),
                i <= offsets_len,
                buf@ == self.data@ + offsets_bytes(self.offsets@.subrange(0, i as int)),
            decreases offsets_len - i,
        {
            put_u16(&mut buf, self.offsets[i]);
            proof {
                lemma_offsets_bytes_push(self.offsets@.subrange(0, i as int), self.offsets@[i as int]);
                assert(self.offsets@.subrange(0, i as int).push(self.offsets@[i as int])
                    =~= self.offsets@.subrange(0, i + 1));
            }
            i += 1;
        }
        assert(self.offsets@.subrange(0, offsets_len as int) =~= self.offsets@);
        put_u16(&mut buf, offsets_len as u16);
        bytes_from_vec(buf)
    }

    /// Decodes a block: reads the count in the last two bytes, takes that
    /// many offsets before it, and keeps the rest as the entries. Fails on
    /// a buffer too short for the count or for the offsets.
    pub fn decode(data: &[u8]) -> (decoded: Result<Block, Error>)
        ensures
            match decoding(data@) {
                Some(parts) => decoded is Ok && decoded->Ok_0.data_view() == parts.0
                    && decoded->Ok_0.offsets_view() == parts.1,
                None => decoded == Err::<Block, Error>(Error::Malformed),
            },
    {
        let len = data.len();
        if len < SIZEOF_U16 {
            return Err(Error::Malformed);
        }
        let count = read_u16(data, len - SIZEOF_U16) as usize;
        if count > (len - SIZEOF_U16) / SIZEOF_U16 {
            return Err(Error::Malformed);
        }
        let data_end = len - SIZEOF_U16 - count * SIZEOF_U16;
        let mut offsets: Vec<u16> = Vec::new();
        let mut i: usize = 0;
        while i < count
            invariant
                len == data@.len(),
                count <= u16::MAX,
                data_end + 2 * count + 2 == len,
                i <= count,
                offsets@ == Seq::new(i as nat, |k: int| u16_be_at(data@, data_end + 2 * k)),
            decreases count - i,
        {
            let offset = read_u16(data, data_end + i * SIZEOF_U16);
            offsets.push(offset);
            assert(offsets@ =~= Seq::new((i + 1) as nat, |k: int| u16_be_at(data@, data_end + 2 * k)));
            i += 1;
        }
        Ok(Block { data: copy_range(data, 0, data_end), offsets })
    }
}

} // verus!
