use crate::codec::{
    bytes_as_slice, bytes_from_vec, bytes_mut_as_mut_slice, bytes_mut_as_slice, bytes_mut_freeze,
    bytes_mut_resize, bytes_mut_view, bytes_mut_with_capacity, bytes_view, copy_range, crc32,
    crc32_of, put_slice, put_u32, put_u8, read_u32, u32_be_at, u32_be_bytes,
};
use crate::error::Error;
use bytes::{Bytes, BytesMut};
use vstd::prelude::*;
use vstd::slice::slice_subrange;

verus! {

/// Bit `offset` of `byte`, counted from the least significant one.
pub open spec fn bit_of(byte: u8, offset: int) -> bool {
    byte & (1u8 << (offset as u8)) != 0
}

/// `byte` with bit `offset` set to `val`.
pub open spec fn with_bit(byte: u8, offset: int, val: bool) -> u8 {
    if val {
        byte | (1u8 << (offset as u8))
    } else {
        byte & !(1u8 << (offset as u8))
    }
}

/// Bit `idx` of a byte sequence: bit `idx % 8` of byte `idx / 8`.
pub open spec fn bit_at(bytes: Seq<u8>, idx: int) -> bool {
    bit_of(bytes[idx / 8], idx % 8)
}

/// The byte sequence with bit `idx` set to `val`.
pub open spec fn bytes_with_bit(bytes: Seq<u8>, idx: int, val: bool) -> Seq<u8> {
    bytes.update(idx / 8, with_bit(bytes[idx / 8], idx % 8, val))
}

proof fn lemma_with_bit(byte: u8, offset: u8, other: u8)
    by (bit_vector)
    requires
        offset < 8,
        other < 8,
    ensures
        ((byte | (1u8 << offset)) & (1u8 << other) != 0) == (other == offset || (byte & (1u8
            << other) != 0)),
        ((byte & !(1u8 << offset)) & (1u8 << other) != 0) == (other != offset && (byte & (1u8
            << other) != 0)),
{
}

proof fn lemma_zero_has_no_bit(other: u8)
    by (bit_vector)
    requires
        other < 8,
    ensures
        0u8 & (1u8 << other) == 0,
{
}

/// Setting one bit of a byte sequence changes that bit and no other.
pub proof fn lemma_bytes_with_bit(bytes: Seq<u8>, idx: int, val: bool, other: int)
    requires
        0 <= idx < 8 * bytes.len(),
        0 <= other < 8 * bytes.len(),
    ensures
        bytes_with_bit(bytes, idx, val).len() == bytes.len(),
        bit_at(bytes_with_bit(bytes, idx, val), other) == if other == idx {
            val
        } else {
            bit_at(bytes, other)
        },
{
    if other / 8 == idx / 8 {
        lemma_with_bit(bytes[idx / 8], (idx % 8) as u8, (other % 8) as u8);
    }
}

/// A sequence of bits, held eight to a byte.
pub trait BitSlice {
    /// The bytes that hold the bits.
    spec fn bytes_spec(&self) -> Seq<u8>;

    /// The bit at `idx`.
    fn get_bit(&self, idx: usize) -> (bit: bool)
        requires
            idx < 8 * self.bytes_spec().len(),
        ensures
            bit == bit_at(self.bytes_spec(), idx as int),
    ;

    /// The number of bits.
    fn bit_len(&self) -> (len: usize)
        requires
            8 * self.bytes_spec().len() <= usize::MAX,
        ensures
            len == 8 * self.bytes_spec().len(),
    ;
}

/// A sequence of bits that can be written.
pub trait BitSliceMut {
    /// The bytes that hold the bits.
    spec fn bytes_mut_spec(&self) -> Seq<u8>;

    /// Sets the bit at `idx` to `val`.
    fn set_bit(&mut self, idx: usize, val: bool)
        requires
            idx < 8 * old(self).bytes_mut_spec().len(),
        ensures
            final(self).bytes_mut_spec() == bytes_with_bit(
                old(self).bytes_mut_spec(),
                idx as int,
                val,
            ),
    ;
}

fn slice_get_bit(bytes: &[u8], idx: usize) -> (bit: bool)
    requires
        idx < 8 * bytes@.len(),
    ensures
        bit == bit_at(bytes@, idx as int),
{
    let pos = idx / 8;
    let offset = idx % 8;
    assert(1u8 << offset == 1u8 << (offset as u8)) by (bit_vector)
        requires
            offset < 8,
    ;
    (bytes[pos] & (1 << offset)) != 0
}

fn slice_set_bit(bytes: &mut [u8], idx: usize, val: bool)
    requires
        idx < 8 * old(bytes)@.len(),
    ensures
        final(bytes)@ == bytes_with_bit(old(bytes)@, idx as int, val),
{
    let pos = idx / 8;
    let offset = idx % 8;
    assert(1u8 << offset == 1u8 << (offset as u8)) by (bit_vector)
        requires
            offset < 8,
    ;
    if val {
        bytes[pos] = bytes[pos] | (1 << offset);
    } else {
        bytes[pos] = bytes[pos] & !(1 << offset);
    }
}

impl BitSlice for Vec<u8> {
    open spec fn bytes_spec(&self) -> Seq<u8> {
        self@
    }

    fn get_bit(&self, idx: usize) -> (bit: bool) {
        slice_get_bit(self.as_slice(), idx)
    }

    fn bit_len(&self) -> (len: usize) {
        self.len() * 8
    }
}

impl BitSliceMut for Vec<u8> {
    open spec fn bytes_mut_spec(&self) -> Seq<u8> {
        self@
    }

    fn set_bit(&mut self, idx: usize, val: bool) {
        slice_set_bit(self.as_mut_slice(), idx, val)
    }
}

impl BitSlice for Bytes {
    open spec fn bytes_spec(&self) -> Seq<u8> {
        bytes_view(*self)
    }

    fn get_bit(&self, idx: usize) -> (bit: bool) {
        slice_get_bit(bytes_as_slice(self), idx)
    }

    fn bit_len(&self) -> (len: usize) {
        bytes_as_slice(self).len() * 8
    }
}

impl BitSlice for BytesMut {
    open spec fn bytes_spec(&self) -> Seq<u8> {
        bytes_mut_view(*self)
    }

    fn get_bit(&self, idx: usize) -> (bit: bool) {
        slice_get_bit(bytes_mut_as_slice(self), idx)
    }

    fn bit_len(&self) -> (len: usize) {
        bytes_mut_as_slice(self).len() * 8
    }
}

impl BitSliceMut for BytesMut {
    open spec fn bytes_mut_spec(&self) -> Seq<u8> {
        bytes_mut_view(*self)
    }

    fn set_bit(&mut self, idx: usize, val: bool) {
        slice_set_bit(bytes_mut_as_mut_slice(self), idx, val)
    }
}

/// Largest number of hash functions that a filter is built or read with.
pub const MAX_PROBES: u8 = 30;

/// Number of hash functions for a filter with `bits_per_key` bits for each
/// key: `bits_per_key * 0.69`, rounded, and held within 1 and 30.
pub open spec fn bloom_k(bits_per_key: nat) -> nat {
    let rounded = (bits_per_key * 69 + 50) / 100;
    if rounded < 1 {
        1
    } else if rounded > 30 {
        30
    } else {
        rounded
    }
}

/// Number of bytes of a filter for `num_keys` keys with `bits_per_key` bits
/// for each: at least 64 bits, rounded up to whole bytes.
pub open spec fn filter_len(num_keys: nat, bits_per_key: nat) -> nat {
    let nbits = if num_keys * bits_per_key < 64 {
        64
    } else {
        num_keys * bits_per_key
    };
    (nbits + 7) / 8
}

/// `h` rotated right by 17 bits.
pub open spec fn rotate_right_17(h: u32) -> u32 {
    (h >> 17) | (h << 15)
}

/// The `i`-th position that the hash `h` is held at in a filter of `nbits`
/// bits: `h` plus `i` times its rotation, in 32 bit wrapping arithmetic,
/// modulo the number of bits.
pub open spec fn probe(h: u32, i: int, nbits: int) -> int {
    (h + i * rotate_right_17(h)) % 0x1_0000_0000 % nbits
}

/// `p` is one of the first `k` positions of the hash `h`.
pub open spec fn probed(h: u32, k: int, nbits: int, p: int) -> bool {
    exists|i: int| 0 <= i < k && #[trigger] probe(h, i, nbits) == p
}

/// `p` is one of the first `k` positions of one of the hashes.
pub open spec fn any_probed(keys: Seq<u32>, k: int, nbits: int, p: int) -> bool {
    exists|j: int| 0 <= j < keys.len() && #[trigger] probed(keys[j], k, nbits, p)
}

/// `filter` is the filter of `keys` with `k` hash functions: a bit is set
/// if and only if it is one of the first `k` positions of one of the hashes.
pub open spec fn is_filter_of(filter: Seq<u8>, keys: Seq<u32>, k: int) -> bool {
    forall|p: int|
        0 <= p < 8 * filter.len() ==> (#[trigger] bit_at(filter, p) <==> any_probed(
            keys,
            k,
            8 * filter.len() as int,
            p,
        ))
}

/// What a filter answers for the hash `h`: yes where it was read with
/// more than 30 hash functions, else whether every one of the `k`
/// positions of `h` is set.
pub open spec fn may_contain_spec(filter: Seq<u8>, k: int, h: u32) -> bool {
    k > 30 || forall|i: int| 0 <= i < k ==> bit_at(
        filter,
        #[trigger] probe(h, i, 8 * filter.len() as int),
    )
}

/// The encoded filter: the bits, the number of hash functions, and the
/// checksum of both in four bytes, most significant first.
pub open spec fn bloom_encoding(filter: Seq<u8>, k: u8) -> Seq<u8> {
    filter.push(k) + u32_be_bytes(crc32(filter.push(k)))
}

/// What an encoded filter decodes to: the bits and the number of hash
/// functions, or why it is refused. A buffer of less than five bytes is
/// malformed; then the checksum in the last four bytes must be that of all
/// before them; then the filter must have at least 64 bits.
#[verifier::opaque]
pub open spec fn bloom_decoding(buf: Seq<u8>) -> Result<(Seq<u8>, u8), Error> {
    if buf.len() < 5 {
        Err(Error::Malformed)
    } else if u32_be_at(buf, buf.len() - 4) != crc32(buf.subrange(0, buf.len() - 4)) {
        Err(Error::BloomChecksumMismatch)
    } else if buf.len() - 5 < 8 || 8 * (buf.len() - 5) > usize::MAX {
        Err(Error::Malformed)
    } else {
        Ok((buf.subrange(0, buf.len() - 5), buf[buf.len() - 5]))
    }
}

/// A filter answers yes for every hash that it was built from.
pub proof fn lemma_no_false_negative(filter: Seq<u8>, keys: Seq<u32>, k: int, j: int)
    requires
        filter.len() > 0,
        is_filter_of(filter, keys, k),
        0 <= j < keys.len(),
    ensures
        may_contain_spec(filter, k, keys[j]),
{
    let nbits = 8 * filter.len() as int;
    assert forall|i: int| 0 <= i < k implies bit_at(filter, #[trigger] probe(keys[j], i, nbits)) by {
        let p = probe(keys[j], i, nbits);
        assert(probed(keys[j], k, nbits, p));
        assert(any_probed(keys, k, nbits, p));
    }
}

/// Decoding an encoded filter of at least 64 bits gives back its bits and
/// its number of hash functions.
pub proof fn lemma_bloom_decode_encode(filter: Seq<u8>, k: u8)
    requires
        filter.len() >= 8,
        8 * filter.len() <= usize::MAX,
    ensures
        bloom_decoding(bloom_encoding(filter, k)) == Ok::<(Seq<u8>, u8), Error>((filter, k)),
{
    reveal(bloom_decoding);
    let body = filter.push(k);
    let buf = bloom_encoding(filter, k);
    assert(buf == body + u32_be_bytes(crc32(body)) + Seq::<u8>::empty());
    crate::codec::lemma_u32_be_at_append(body, crc32(body), Seq::<u8>::empty());
    assert(buf.subrange(0, buf.len() - 4) =~= body);
    assert(buf.subrange(0, buf.len() - 5) =~= filter);
    assert(buf[buf.len() - 5] == k);
}

proof fn lemma_probed_step(h: u32, i: int, nbits: int, p: int)
    requires
        0 <= i,
    ensures
        probed(h, i + 1, nbits, p) <==> probed(h, i, nbits, p) || probe(h, i, nbits) == p,
{
    if probed(h, i + 1, nbits, p) {
        let w = choose|w: int| 0 <= w < i + 1 && #[trigger] probe(h, w, nbits) == p;
        if w < i {
            assert(probed(h, i, nbits, p));
        }
    }
    if probed(h, i, nbits, p) {
        let w = choose|w: int| 0 <= w < i && #[trigger] probe(h, w, nbits) == p;
        assert(0 <= w < i + 1 && probe(h, w, nbits) == p);
    }
}

proof fn lemma_any_probed_step(keys: Seq<u32>, j: int, k: int, nbits: int, p: int)
    requires
        0 <= j < keys.len(),
    ensures
        any_probed(keys.take(j + 1), k, nbits, p) <==> any_probed(keys.take(j), k, nbits, p)
            || probed(keys[j], k, nbits, p),
{
    let shorter = keys.take(j);
    let longer = keys.take(j + 1);
    if any_probed(longer, k, nbits, p) {
        let w = choose|w: int| 0 <= w < longer.len() && #[trigger] probed(longer[w], k, nbits, p);
        if w < j {
            assert(shorter[w] == longer[w]);
            assert(any_probed(shorter, k, nbits, p));
        }
    }
    if any_probed(shorter, k, nbits, p) {
        let w = choose|w: int| 0 <= w < shorter.len() && #[trigger] probed(shorter[w], k, nbits, p);
        assert(longer[w] == shorter[w]);
    }
    if probed(keys[j], k, nbits, p) {
        assert(longer[j] == keys[j]);
    }
}

proof fn lemma_probe_next(h: u32, i: int, current: u32)
    requires
        0 <= i,
        current == (h + i * rotate_right_17(h)) % 0x1_0000_0000,
    ensures
        (current + rotate_right_17(h)) % 0x1_0000_0000 == (h + (i + 1) * rotate_right_17(h))
            % 0x1_0000_0000,
{
    let d = rotate_right_17(h) as int;
    assert((i + 1) * d == i * d + d) by (nonlinear_arith);
    let x = h + i * d;
    assert(((x % 0x1_0000_0000) + d) % 0x1_0000_0000 == (x + d) % 0x1_0000_0000);
}

/// A Bloom filter: a set of 32 bit hashes that may answer yes for a hash
/// that is not in it, and never answers no for one that is.
pub struct Bloom {
    /// The bits of the filter.
    pub(crate) filter: Bytes,
    /// The number of hash functions.
    pub(crate) k: u8,
}

impl Bloom {
    /// The bytes that hold the bits of the filter.
    pub closed spec fn filter_view(&self) -> Seq<u8> {
        bytes_view(self.filter)
    }

    /// The number of hash functions.
    pub closed spec fn k_view(&self) -> u8 {
        self.k
    }

    /// Every filter has at least 64 bits, and their number fits a `usize`.
    #[verifier::type_invariant]
    pub closed spec fn sized(&self) -> bool {
        8 <= bytes_view(self.filter).len() && 8 * bytes_view(self.filter).len() <= usize::MAX
    }

    /// The number of bits of the filter: at least 64.
    pub fn num_bits(&self) -> (nbits: usize)
        ensures
            nbits == 8 * self.filter_view().len(),
            nbits >= 64,
    {
        proof {
            use_type_invariant(self);
        }
        self.filter.bit_len()
    }

    /// The number of hash functions.
    pub fn num_hashes(&self) -> (k: u8)
        ensures
            k == self.k_view(),
    {
        self.k
    }

    /// Decodes a filter: verifies the checksum in the last four bytes over
    /// all before them, and takes the byte before the checksum as the number
    /// of hash functions and the rest as the bits.
    pub fn decode(buf: &[u8]) -> (decoded: Result<Bloom, Error>)
        ensures
            match bloom_decoding(buf@) {
                Ok(parts) => decoded is Ok && decoded->Ok_0.filter_view() == parts.0
                    && decoded->Ok_0.k_view() == parts.1,
                Err(e) => decoded == Err::<Bloom, Error>(e),
            },
    {
        reveal(bloom_decoding);
        let len = buf.len();
        if len < 5 {
            return Err(Error::Malformed);
        }
        let checksum = read_u32(buf, len - 4);
        if checksum != crc32_of(slice_subrange(buf, 0, len - 4)) {
            return Err(Error::BloomChecksumMismatch);
        }
        if len - 5 < 8 || len - 5 > usize::MAX / 8 {
            return Err(Error::Malformed);
        }
        let filter = copy_range(buf, 0, len - 5);
        let k = buf[len - 5];
        Ok(Self { filter: bytes_from_vec(filter), k })
    }

    /// Appends the encoded filter to `buf`: the bits, the number of hash
    /// functions, and the checksum of both.
    pub fn encode(&self, buf: &mut Vec<u8>)
        ensures
            final(buf)@ == old(buf)@ + bloom_encoding(self.filter_view(), self.k_view()),
    {
        let offset = buf.len();
        put_slice(buf, bytes_as_slice(&self.filter));
        put_u8(buf, self.k);
        assert(buf@.subrange(offset as int, buf@.len() as int) =~= self.filter_view().push(self.k));
        let checksum = crc32_of(slice_subrange(buf.as_slice(), offset, buf.len()));
        put_u32(buf, checksum);
        assert(buf@ =~= old(buf)@ + bloom_encoding(self.filter_view(), self.k_view()));
    }

    /// Builds a filter from the hashes of the keys, with `bits_per_key` bits
    /// for each key.
    pub fn build_from_key_hashes(keys: &[u32], bits_per_key: usize) -> (bloom: Bloom)
        requires
            keys@.len() * bits_per_key + 7 <= usize::MAX,
        ensures
            bloom.k_view() == bloom_k(bits_per_key as nat),
            bloom.filter_view().len() == filter_len(keys@.len(), bits_per_key as nat),
            is_filter_of(bloom.filter_view(), keys@, bloom.k_view() as int),
    {
        let k: u32 = if bits_per_key >= 44 {
            30
        } else {
            let rounded = (bits_per_key * 69 + 50) / 100;
            if rounded < 1 {
                1
            } else {
                rounded as u32
            }
        };
        assert(keys@.len() * bits_per_key >= 0) by (nonlinear_arith);
        let wanted = keys.len() * bits_per_key;
        let nbits = if wanted < 64 {
            64
        } else {
            wanted
        };
        let nbytes = (nbits + 7) / 8;
        let nbits = nbytes * 8;
        let mut filter = bytes_mut_with_capacity(nbytes);
        bytes_mut_resize(&mut filter, nbytes, 0);
        assert forall|p: int| 0 <= p < nbits implies !bit_at(bytes_mut_view(filter), p) by {
            lemma_zero_has_no_bit((p % 8) as u8);
        }
        let mut j: usize = 0;
        while j < keys.len()
            invariant
                j <= keys@.len(),
                1 <= k <= 30,
                nbits == 8 * nbytes,
                nbytes >= 8,
                bytes_mut_view(filter).len() == nbytes,
                forall|p: int|
                    0 <= p < nbits ==> (#[trigger] bit_at(bytes_mut_view(filter), p) <==> any_probed(
                        keys@.take(j as int),
                        k as int,
                        nbits as int,
                        p,
                    )),
            decreases keys@.len() - j,
        {
            let first = keys[j];
            let mut h = first;
            let delta = (h >> 17) | (h << 15);
            let mut i: u32 = 0;
            while i < k
                invariant
                    j < keys@.len(),
                    first == keys@[j as int],
                    delta == rotate_right_17(first),
                    i <= k <= 30,
                    h == (first + i * delta) % 0x1_0000_0000,
                    nbits == 8 * nbytes,
                    nbytes >= 8,
                    bytes_mut_view(filter).len() == nbytes,
                    forall|p: int|
                        0 <= p < nbits ==> (#[trigger] bit_at(bytes_mut_view(filter), p) <==> (
                        any_probed(keys@.take(j as int), k as int, nbits as int, p) || probed(
                            first,
                            i as int,
                            nbits as int,
                            p,
                        ))),
                decreases k - i,
            {
                let bit_pos = (h as usize) % nbits;
                let ghost before = bytes_mut_view(filter);
                filter.set_bit(bit_pos, true);
                proof {
                    assert(bit_pos == probe(first, i as int, nbits as int));
                    lemma_probe_next(first, i as int, h);
                    assert forall|p: int| 0 <= p < nbits implies (#[trigger] bit_at(
                        bytes_mut_view(filter),
                        p,
                    ) <==> (any_probed(keys@.take(j as int), k as int, nbits as int, p) || probed(
                        first,
                        i + 1,
                        nbits as int,
                        p,
                    ))) by {
                        lemma_bytes_with_bit(before, bit_pos as int, true, p);
                        lemma_probed_step(first, i as int, nbits as int, p);
                        assert(bit_at(before, p) <==> (any_probed(
                            keys@.take(j as int),
                            k as int,
                            nbits as int,
                            p,
                        ) || probed(first, i as int, nbits as int, p)));
                    }
                }
                h = h.wrapping_add(delta);
                i += 1;
            }
            proof {
                assert forall|p: int| 0 <= p < nbits implies (#[trigger] bit_at(
                    bytes_mut_view(filter),
                    p,
                ) <==> any_probed(keys@.take(j + 1), k as int, nbits as int, p)) by {
                    lemma_any_probed_step(keys@, j as int, k as int, nbits as int, p);
                }
            }
            j += 1;
        }
        assert(keys@.take(keys@.len() as int) =~= keys@);
        Self { filter: bytes_mut_freeze(filter), k: k as u8 }
    }

    /// Whether the filter may hold the hash `h`: never no for a hash that
    /// the filter was built from.
    pub fn may_contain(&self, h: u32) -> (answer: bool)
        ensures
            answer == may_contain_spec(self.filter_view(), self.k_view() as int, h),
    {
        proof {
            use_type_invariant(self);
        }
        if self.k > MAX_PROBES {
            // A later encoding may use the values above 30.
            true
        } else {
            let nbits = self.filter.bit_len();
            let delta = (h >> 17) | (h << 15);
            let mut current = h;
            let mut i: u8 = 0;
            while i < self.k
                invariant
                    i <= self.k <= 30,
                    delta == rotate_right_17(h),
                    nbits == 8 * self.filter_view().len(),
                    nbits >= 64,
                    current == (h + i * delta) % 0x1_0000_0000,
                    forall|w: int|
                        0 <= w < i ==> bit_at(
                            self.filter_view(),
                            #[trigger] probe(h, w, nbits as int),
                        ),
                decreases self.k - i,
            {
                let bit_pos = (current as usize) % nbits;
                assert(bit_pos == probe(h, i as int, nbits as int));
                if !self.filter.get_bit(bit_pos) {
                    return false;
                }
                proof {
                    lemma_probe_next(h, i as int, current);
                }
                current = current.wrapping_add(delta);
                i += 1;
            }
            true
        }
    }
}

} // verus!
