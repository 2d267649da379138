use crate::block::{
    entries_of, entry_bytes, entry_end, entry_fits, entry_key, entry_overlap, entry_rest,
    entry_value, first_key_of, lemma_entry_appended, lemma_entry_unchanged_by_append, well_formed,
    Block, SIZEOF_U16,
};
use crate::block::keys_of;
use crate::codec::{put_slice, put_u16};
use crate::key::{key_lt, keys_increasing, lemma_key_lt_transitive};
use vstd::prelude::*;
use vstd::slice::{slice_subrange, slice_to_vec};

verus! {

/// Number of leading positions from `i` on at which `a` and `b` hold the
/// same byte, counted from the start of the keys.
pub open spec fn overlap_from(a: Seq<u8>, b: Seq<u8>, i: int) -> int
    decreases a.len() - i,
{
    if 0 <= i < a.len() && i < b.len() && a[i] == b[i] {
        overlap_from(a, b, i + 1)
    } else {
        i
    }
}

/// Length of the longest common prefix of `a` and `b`.
pub open spec fn overlap_len(a: Seq<u8>, b: Seq<u8>) -> int {
    overlap_from(a, b, 0)
}

proof fn lemma_overlap_from(a: Seq<u8>, b: Seq<u8>, i: int)
    requires
        0 <= i <= a.len(),
        i <= b.len(),
    ensures
        i <= overlap_from(a, b, i) <= a.len(),
        overlap_from(a, b, i) <= b.len(),
        forall|k: int| #![trigger a[k]] i <= k < overlap_from(a, b, i) ==> a[k] == b[k],
        overlap_from(a, b, i) < a.len() && overlap_from(a, b, i) < b.len() ==> a[overlap_from(
            a,
            b,
            i,
        )] != b[overlap_from(a, b, i)],
    decreases a.len() - i,
{
    if i < a.len() && i < b.len() && a[i] == b[i] {
        lemma_overlap_from(a, b, i + 1);
    }
}

/// The common prefix is a prefix of both keys, both keys agree on it, and
/// they differ just behind it where both go on.
pub proof fn lemma_overlap_len(a: Seq<u8>, b: Seq<u8>)
    ensures
        0 <= overlap_len(a, b) <= a.len(),
        overlap_len(a, b) <= b.len(),
        a.subrange(0, overlap_len(a, b)) == b.subrange(0, overlap_len(a, b)),
        overlap_len(a, b) < a.len() && overlap_len(a, b) < b.len() ==> a[overlap_len(a, b)]
            != b[overlap_len(a, b)],
{
    lemma_overlap_from(a, b, 0);
    assert(a.subrange(0, overlap_len(a, b)) =~= b.subrange(0, overlap_len(a, b)));
}

/// Counts the leading bytes that `key` shares with `first_key`.
pub fn compute_overlap(first_key: &[u8], key: &[u8]) -> (overlap: usize)
    ensures
        overlap == overlap_len(first_key@, key@),
{
    let mut i: usize = 0;
    loop
        invariant
            i <= first_key@.len(),
            i <= key@.len(),
            overlap_len(first_key@, key@) == overlap_from(first_key@, key@, i as int),
        ensures
            i == overlap_len(first_key@, key@),
        decreases first_key@.len() - i,
    {
        if i >= first_key.len() || i >= key.len() {
            break ;
        }
        if first_key[i] != key[i] {
            break ;
        }
        i += 1;
    }
    i
}

/// What a builder keeps between calls, over the entries, the offsets and
/// the first key.
spec fn builder_state(data: Seq<u8>, offsets: Seq<u16>, first_key: Seq<u8>) -> bool {
    if offsets.len() == 0 {
        data.len() == 0 && first_key.len() == 0
    } else {
        &&& well_formed(data, offsets)
        &&& first_key == first_key_of(data)
        &&& first_key.len() > 0
    }
}

/// The entries after one more was appended for `key` and `value`.
spec fn pushed_data(data: Seq<u8>, first_key: Seq<u8>, key: Seq<u8>, value: Seq<u8>) -> Seq<
    u8,
> {
    let overlap = overlap_len(first_key, key);
    data + entry_bytes(overlap as u16, key.subrange(overlap, key.len() as int), value)
}

proof fn lemma_push_keeps_old(
    data: Seq<u8>,
    offsets: Seq<u16>,
    first_key: Seq<u8>,
    key: Seq<u8>,
    value: Seq<u8>,
    i: int,
)
    requires
        builder_state(data, offsets, first_key),
        0 <= i < offsets.len(),
    ensures
        entry_fits(pushed_data(data, first_key, key, value), offsets[i] as int),
        entry_overlap(pushed_data(data, first_key, key, value), offsets[i] as int)
            == entry_overlap(data, offsets[i] as int),
        entry_rest(pushed_data(data, first_key, key, value), offsets[i] as int) == entry_rest(
            data,
            offsets[i] as int,
        ),
        entry_value(pushed_data(data, first_key, key, value), offsets[i] as int) == entry_value(
            data,
            offsets[i] as int,
        ),
        entry_end(pushed_data(data, first_key, key, value), offsets[i] as int) == entry_end(
            data,
            offsets[i] as int,
        ),
        first_key_of(pushed_data(data, first_key, key, value)) == first_key,
{
    let overlap = overlap_len(first_key, key);
    let more = entry_bytes(overlap as u16, key.subrange(overlap, key.len() as int), value);
    lemma_entry_unchanged_by_append(data, more, offsets[i] as int);
    assert(entry_fits(data, offsets[0] as int));
    lemma_entry_unchanged_by_append(data, more, 0);
}

proof fn lemma_push_new(
    data: Seq<u8>,
    offsets: Seq<u16>,
    first_key: Seq<u8>,
    key: Seq<u8>,
    value: Seq<u8>,
)
    requires
        builder_state(data, offsets, first_key),
        0 < key.len() <= u16::MAX,
        value.len() <= u16::MAX,
    ensures
        entry_fits(pushed_data(data, first_key, key, value), data.len() as int),
        entry_overlap(pushed_data(data, first_key, key, value), data.len() as int) == overlap_len(
            first_key,
            key,
        ),
        entry_key(pushed_data(data, first_key, key, value), data.len() as int) == key,
        entry_value(pushed_data(data, first_key, key, value), data.len() as int) == value,
        entry_end(pushed_data(data, first_key, key, value), data.len() as int) == pushed_data(
            data,
            first_key,
            key,
            value,
        ).len(),
        pushed_data(data, first_key, key, value).len() == data.len() + 6 + key.len() - overlap_len(
            first_key,
            key,
        ) + value.len(),
        first_key_of(pushed_data(data, first_key, key, value)) == if offsets.len() == 0 {
            key
        } else {
            first_key
        },
{
    let overlap = overlap_len(first_key, key);
    lemma_overlap_len(first_key, key);
    let rest = key.subrange(overlap, key.len() as int);
    let new_data = pushed_data(data, first_key, key, value);
    lemma_entry_appended(data, overlap as u16, rest, value);
    if offsets.len() == 0 {
        assert(rest =~= key);
        assert(first_key_of(new_data) == key);
        assert(first_key_of(new_data).subrange(0, overlap) + rest =~= key);
    } else {
        lemma_push_keeps_old(data, offsets, first_key, key, value, 0);
        assert(first_key.subrange(0, overlap) + rest =~= key) by {
            assert(first_key.subrange(0, overlap) == key.subrange(0, overlap));
        }
    }
}

/// Appending an entry to the entries of a builder keeps them laid out as a
/// block's are, and adds the pair to the pairs they hold.
proof fn lemma_push_entry(
    data: Seq<u8>,
    offsets: Seq<u16>,
    first_key: Seq<u8>,
    key: Seq<u8>,
    value: Seq<u8>,
)
    requires
        builder_state(data, offsets, first_key),
        data.len() <= u16::MAX,
        0 < key.len() <= u16::MAX,
        value.len() <= u16::MAX,
    ensures
        well_formed(pushed_data(data, first_key, key, value), offsets.push(data.len() as u16)),
        first_key_of(pushed_data(data, first_key, key, value)) == if offsets.len() == 0 {
            key
        } else {
            first_key
        },
        entries_of(pushed_data(data, first_key, key, value), offsets.push(data.len() as u16))
            == entries_of(data, offsets).push((key, value)),
        pushed_data(data, first_key, key, value).len() == data.len() + 6 + key.len() - overlap_len(
            first_key,
            key,
        ) + value.len(),
{
    let new_data = pushed_data(data, first_key, key, value);
    let new_offsets = offsets.push(data.len() as u16);
    let at = data.len() as int;
    lemma_push_new(data, offsets, first_key, key, value);
    lemma_overlap_len(first_key, key);
    assert forall|i: int| 0 <= i < new_offsets.len() implies {
        &&& entry_fits(new_data, #[trigger] new_offsets[i] as int)
        &&& entry_overlap(new_data, new_offsets[i] as int) <= first_key_of(new_data).len()
    } by {
        if i < offsets.len() {
            assert(new_offsets[i] == offsets[i]);
            lemma_push_keeps_old(data, offsets, first_key, key, value, i);
        } else {
            assert(new_offsets[i] as int == at);
        }
    }
    assert forall|i: int| 0 <= i < new_offsets.len() - 1 implies entry_end(
        new_data,
        #[trigger] new_offsets[i] as int,
    ) == new_offsets[i + 1] by {
        assert(new_offsets[i] == offsets[i]);
        lemma_push_keeps_old(data, offsets, first_key, key, value, i);
        if i < offsets.len() - 1 {
            assert(new_offsets[i + 1] == offsets[i + 1]);
        } else {
            assert(new_offsets[i + 1] as int == at);
        }
    }
    assert(new_offsets[new_offsets.len() - 1] as int == at);
    if offsets.len() > 0 {
        assert(new_offsets[0] == offsets[0]);
        lemma_push_keeps_old(data, offsets, first_key, key, value, 0);
    }
    assert(well_formed(new_data, new_offsets));
    let new_entries = entries_of(new_data, new_offsets);
    let old_entries = entries_of(data, offsets);
    assert forall|i: int| 0 <= i < new_entries.len() implies new_entries[i] == old_entries.push(
        (key, value),
    )[i] by {
        if i < offsets.len() {
            assert(new_offsets[i] == offsets[i]);
            lemma_push_keeps_old(data, offsets, first_key, key, value, i);
        } else {
            assert(new_offsets[i] as int == at);
        }
    }
    assert(new_entries =~= old_entries.push((key, value)));
}

/// A builder that is given keys in increasing order builds a block whose
/// keys increase: adding a pair whose key lies behind the last key keeps
/// the keys of the pairs increasing.
pub proof fn lemma_push_keeps_increasing(
    entries: Seq<(Seq<u8>, Seq<u8>)>,
    key: Seq<u8>,
    value: Seq<u8>,
)
    requires
        keys_increasing(keys_of(entries)),
        entries.len() > 0 ==> key_lt(entries.last().0, key),
    ensures
        keys_increasing(keys_of(entries.push((key, value)))),
{
    let keys = keys_of(entries);
    let more = keys_of(entries.push((key, value)));
    assert forall|i: int, j: int| 0 <= i < j < more.len() implies key_lt(
        #[trigger] more[i],
        #[trigger] more[j],
    ) by {
        if j < entries.len() {
            assert(more[i] == keys[i]);
            assert(more[j] == keys[j]);
        } else {
            assert(more[j] == key);
            assert(more[i] == keys[i]);
            let last = entries.len() - 1;
            assert(keys[last] == entries.last().0);
            if i < last {
                lemma_key_lt_transitive(keys[i], keys[last], key);
            }
        }
    }
}

/// Largest size that the entries of a block under construction can reach:
/// an entry is taken only while its offset fits two bytes.
pub const MAX_BUILT_DATA: usize = 0xFFFF + 6 + 2 * 0xFFFF;

/// Builds a block from key-value pairs.
pub struct BlockBuilder {
    /// Offset of each entry.
    offsets: Vec<u16>,
    /// The serialized entries.
    data: Vec<u8>,
    /// The size the block should not exceed.
    block_size: usize,
    /// The first key of the block.
    first_key: Vec<u8>,
}

impl BlockBuilder {
    /// What holds of every builder: the entries so far are laid out as a
    /// block's are, and the first key is that of the first entry.
    pub closed spec fn inv(&self) -> bool {
        &&& self.data@.len() <= MAX_BUILT_DATA
        &&& 6 * self.offsets@.len() <= self.data@.len()
        &&& builder_state(self.data@, self.offsets@, self.first_key@)
    }

    /// The key-value pairs added so far.
    pub closed spec fn entries(&self) -> Seq<(Seq<u8>, Seq<u8>)> {
        entries_of(self.data@, self.offsets@)
    }

    /// The first key added, or the empty key before any was.
    pub closed spec fn first_key_view(&self) -> Seq<u8> {
        self.first_key@
    }

    /// The size the block should not exceed.
    pub closed spec fn block_size_spec(&self) -> nat {
        self.block_size as nat
    }

    /// Number of bytes that the entries take so far.
    pub closed spec fn data_len(&self) -> nat {
        self.data@.len()
    }

    /// Size of the encoded block so far: the entries, two bytes for each
    /// offset, and two for the count.
    pub open spec fn estimated_size_spec(&self) -> nat {
        2 + 2 * self.entries().len() + self.data_len()
    }

    /// Number of bytes that an entry for `key` and `value` adds to the
    /// entries: three length fields, the key without what it shares with the
    /// first key, and the value.
    pub open spec fn entry_size(&self, key: Seq<u8>, value: Seq<u8>) -> nat {
        (6 + key.len() - overlap_len(self.first_key_view(), key) + value.len()) as nat
    }

    /// An entry for `key` and `value` is taken: always by an empty builder,
    /// else while the block stays within its size and the offset of the new
    /// entry fits two bytes.
    pub open spec fn has_room(&self, key: Seq<u8>, value: Seq<u8>) -> bool {
        self.entries().len() == 0 || (self.estimated_size_spec() + key.len() + value.len() + 6
            <= self.block_size_spec() && self.data_len() <= u16::MAX)
    }

    /// Creates a builder for a block of about `block_size` bytes.
    pub fn new(block_size: usize) -> (builder: Self)
        ensures
            builder.inv(),
            builder.entries() == Seq::<(Seq<u8>, Seq<u8>)>::empty(),
            builder.first_key_view() == Seq::<u8>::empty(),
            builder.block_size_spec() == block_size,
            builder.data_len() == 0,
    {
        let builder = Self {
            offsets: Vec::new(),
            data: Vec::new(),
            block_size,
            first_key: Vec::new(),
        };
        assert(builder.entries() =~= Seq::<(Seq<u8>, Seq<u8>)>::empty());
        builder
    }

    /// Size of the encoded block so far.
    pub fn estimated_size(&self) -> (size: usize)
        requires
            self.inv(),
        ensures
            size == self.estimated_size_spec(),
    {
        SIZEOF_U16 + self.offsets.len() * SIZEOF_U16 + self.data.len()
    }

    /// Adds a key-value pair to the block. Returns false, and leaves the
    /// builder as it was, when the block is full.
    #[must_use]
    pub fn add(&mut self, key: &[u8], value: &[u8]) -> (added: bool)
        requires
            old(self).inv(),
            0 < key@.len() <= u16::MAX,
            value@.len() <= u16::MAX,
        ensures
            final(self).inv(),
            final(self).block_size_spec() == old(self).block_size_spec(),
            added == old(self).has_room(key@, value@),
            added ==> final(self).entries() == old(self).entries().push((key@, value@)),
            added ==> final(self).data_len() == old(self).data_len() + old(self).entry_size(
                key@,
                value@,
            ),
            added ==> final(self).first_key_view() == if old(self).entries().len() == 0 {
                key@
            } else {
                old(self).first_key_view()
            },
            !added ==> *final(self) == *old(self),
    {
        if !self.is_empty() && (self.estimated_size() + key.len() + value.len() + SIZEOF_U16 * 3
            > self.block_size || self.data.len() > 0xFFFF) {
            return false;
        }
        let ghost old_data = self.data@;
        let ghost old_offsets = self.offsets@;
        let ghost old_first = self.first_key@;
        proof {
            lemma_overlap_len(old_first, key@);
        }
        // The offset of the new entry.
        self.offsets.push(self.data.len() as u16);
        let overlap = compute_overlap(self.first_key.as_slice(), key);
        // The key: what it shares with the first key, then its own bytes.
        put_u16(&mut self.data, overlap as u16);
        put_u16(&mut self.data, (key.len() - overlap) as u16);
        put_slice(&mut self.data, slice_subrange(key, overlap, key.len()));
        // The value.
        put_u16(&mut self.data, value.len() as u16);
        put_slice(&mut self.data, value);

        if self.first_key.is_empty() {
            self.first_key = slice_to_vec(key);
        }
        proof {
            let rest = key@.subrange(overlap as int, key@.len() as int);
            assert(self.data@ =~= old_data + entry_bytes(overlap as u16, rest, value@));
            lemma_push_entry(old_data, old_offsets, old_first, key@, value@);
        }
        true
    }

    /// Whether no key-value pair was added yet.
    pub fn is_empty(&self) -> (empty: bool)
        ensures
            empty == (self.entries().len() == 0),
    {
        self.offsets.is_empty()
    }

    /// Finishes the block. It holds the pairs that were added, in order.
    pub fn build(self) -> (block: Block)
        requires
            self.inv(),
            self.entries().len() > 0,
        ensures
            block.wf(),
            block.entries() == self.entries(),
    {
        Block { data: self.data, offsets: self.offsets }
    }
}

} // verus!
