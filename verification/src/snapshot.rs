//! Remembered chunks of memory, kept compressed, with the offsets that have survived the filters
//! applied to them so far.

use vstd::prelude::*;

use crate::block::{lz4_compress, lz4_decompress, lz4_decompressed};
use crate::bytes::{
    law_le_round_trip, le_bytes, le_value, lemma_byte_ranges, lemma_le_bytes_len, push_le, read_le,
};
use crate::chunks::CHUNK_SIZE;
use crate::hexcode::{encode, hex_encoded};
use crate::matched::{views, MatchView, MatchedAddress};
use crate::relation::{byte_relation, window_relation, FilterMethod};

verus! {

/// What a remembered chunk stands for.
#[verifier::ext_equal]
pub struct EntryView {
    pub address: usize,
    pub data: Seq<u8>,
    pub offsets: Seq<usize>,
    pub is_first: bool,
}

/// How many bytes a machine word takes.
pub open spec fn word_size() -> nat {
    if usize::BITS == 64 {
        8
    } else {
        4
    }
}

/// Whether stored offsets can be read again. They are stored as machine words and read in groups
/// of eight bytes, and on a machine with shorter words no group is an offset.
pub open spec fn can_reread(offsets: Seq<usize>) -> bool {
    word_size() == 8 || offsets.len() < 2
}

/// What is read again of stored offsets: all of them where a word takes eight bytes. A single
/// shorter word is no whole group and is passed over.
pub open spec fn reread(offsets: Seq<usize>) -> Seq<usize> {
    if word_size() == 8 {
        offsets
    } else {
        Seq::empty()
    }
}

impl EntryView {
    /// Whether the offsets that the next filter looks at are known.
    pub open spec fn has_candidates(self) -> bool {
        self.is_first || can_reread(self.offsets)
    }

    /// The offsets that the next filter looks at: all of them before the first filter, the
    /// survivors of the last one afterwards, as far as they are read again.
    pub open spec fn candidates(self) -> Seq<usize> {
        if self.is_first {
            Seq::new(self.data.len(), |i: int| i as usize)
        } else {
            reread(self.offsets)
        }
    }

    /// Whether the value at `offset` stays when the chunk now holds `new`.
    pub open spec fn keeps(
        self,
        new: Seq<u8>,
        align: usize,
        size: usize,
        method: FilterMethod,
        offset: usize,
    ) -> bool {
        &&& (self.address + offset) % (align as int) == 0
        &&& offset + size <= self.data.len()
        &&& method.passes(
            byte_relation(
                new.subrange(offset as int, offset + size),
                self.data.subrange(offset as int, offset + size),
            ),
        )
    }

    /// The candidates that stay.
    pub open spec fn survivors(
        self,
        new: Seq<u8>,
        align: usize,
        size: usize,
        method: FilterMethod,
    ) -> Seq<usize> {
        self.candidates().filter(|offset: usize| self.keeps(new, align, size, method, offset))
    }

    /// The chunk after a filter: it holds what was read and the offsets that stayed. A chunk that
    /// could not be read stays as it is.
    pub open spec fn refiltered(
        self,
        new: Option<Seq<u8>>,
        align: usize,
        size: usize,
        method: FilterMethod,
    ) -> EntryView {
        match new {
            None => self,
            Some(bytes) => EntryView {
                address: self.address,
                data: bytes,
                offsets: self.survivors(bytes, align, size, method),
                is_first: false,
            },
        }
    }

    /// How many values a filter found in the chunk.
    pub open spec fn refound(
        self,
        new: Option<Seq<u8>>,
        align: usize,
        size: usize,
        method: FilterMethod,
    ) -> nat {
        match new {
            None => 0,
            Some(bytes) => self.survivors(bytes, align, size, method).len(),
        }
    }

    /// Whether the surviving offsets can be read again and `size` bytes at every one of them lie
    /// inside the chunk.
    pub open spec fn fits(self, size: usize) -> bool {
        &&& can_reread(self.offsets)
        &&& forall|i: int|
            0 <= i < reread(self.offsets).len() ==> #[trigger] reread(self.offsets)[i]
                + size <= self.data.len()
    }

    /// The match at a surviving offset.
    pub open spec fn match_at(self, size: usize, offset: usize) -> MatchView {
        MatchView {
            address: (self.address + offset) as usize,
            value: hex_encoded(self.data.subrange(offset as int, offset + size)),
        }
    }

    /// The matches at all surviving offsets that are read again.
    pub open spec fn matches(self, size: usize) -> Seq<MatchView> {
        reread(self.offsets).map_values(|offset: usize| self.match_at(size, offset))
    }
}

/// Whether offsets ascend and lie below `len`.
pub open spec fn ascending_below(offsets: Seq<usize>, len: int) -> bool {
    &&& forall|i: int, j: int| 0 <= i < j < offsets.len() ==> offsets[i] < offsets[j]
    &&& forall|i: int| 0 <= i < offsets.len() ==> #[trigger] offsets[i] < len
}

/// Offsets as little-endian bytes, `width` for each.
pub open spec fn offset_bytes(offsets: Seq<usize>, width: nat) -> Seq<u8>
    decreases offsets.len(),
{
    if offsets.len() == 0 {
        Seq::empty()
    } else {
        offset_bytes(offsets.drop_last(), width) + le_bytes(offsets.last() as nat, width)
    }
}

/// The number in the `i`th group of eight bytes.
pub open spec fn offset_at(bytes: Seq<u8>, i: int) -> nat {
    le_value(bytes.subrange(8 * i, 8 * i + 8))
}

/// The offsets that groups of eight bytes hold, where a machine word takes `width` bytes. A group
/// that is not a machine word cannot be read; bytes behind the last group are passed over.
pub open spec fn bytes_offsets(bytes: Seq<u8>, width: nat) -> Option<Seq<usize>> {
    if width == 8 || bytes.len() < 8 {
        Some(Seq::new(bytes.len() / 8, |i: int| offset_at(bytes, i) as usize))
    } else {
        None
    }
}

/// Offsets are read back from their bytes where a machine word takes eight of them. Where it takes
/// four, a single offset is lost, and more than one cannot be read.
pub proof fn law_offsets_round_trip(offsets: Seq<usize>)
    ensures
        offset_bytes(offsets, 8).len() == 8 * offsets.len(),
        bytes_offsets(offset_bytes(offsets, 8), 8) == Some(offsets),
        forall|i: int|
            0 <= i < offsets.len() ==> #[trigger] offset_at(offset_bytes(offsets, 8), i)
                == offsets[i],
        offset_bytes(offsets, 4).len() == 4 * offsets.len(),
        bytes_offsets(offset_bytes(offsets, 4), 4) == (if offsets.len() < 2 {
            Some(Seq::<usize>::empty())
        } else {
            None
        }),
    decreases offsets.len(),
{
    let all = offset_bytes(offsets, 8);
    if offsets.len() > 0 {
        let front = offset_bytes(offsets.drop_last(), 8);
        let last = le_bytes(offsets.last() as nat, 8);
        law_offsets_round_trip(offsets.drop_last());
        lemma_byte_ranges();
        law_le_round_trip(offsets.last() as nat, 8);
        lemma_le_bytes_len(offsets.last() as nat, 4);
        let n = offsets.len() as int;
        assert forall|i: int| 0 <= i < n implies #[trigger] offset_at(all, i) == offsets[i] by {
            if i < n - 1 {
                assert(all.subrange(8 * i, 8 * i + 8) =~= front.subrange(8 * i, 8 * i + 8));
                assert(offset_at(front, i) == offsets.drop_last()[i]);
            } else {
                assert(all.subrange(8 * i, 8 * i + 8) =~= last);
            }
        }
    }
    assert(bytes_offsets(all, 8)->0 =~= offsets);
    if offsets.len() < 2 {
        assert(bytes_offsets(offset_bytes(offsets, 4), 4)->0 =~= Seq::<usize>::empty());
    }
}

/// How many bytes a machine word takes.
fn word_len() -> (r: usize)
    ensures
        r == word_size(),
{
    if usize::BITS == 64 {
        8
    } else {
        4
    }
}

/// The bytes of a list of offsets, one machine word for each.
fn pack_offsets(offsets: &Vec<usize>) -> (r: Vec<u8>)
    ensures
        r@ == offset_bytes(offsets@, word_size()),
{
    let width: usize = word_len();
    let mut out: Vec<u8> = Vec::new();
    let mut i: usize = 0;
    while i < offsets.len()
        invariant
            i <= offsets.len(),
            width == word_size(),
            out@ == offset_bytes(offsets@.take(i as int), word_size()),
        decreases offsets.len() - i,
    {
        assert(offsets@.take(i + 1).drop_last() =~= offsets@.take(i as int));
        push_le(&mut out, offsets[i] as u64, width);
        i = i + 1;
    }
    assert(offsets@.take(i as int) =~= offsets@);
    out
}

/// The offsets in groups of eight bytes, where every group is a machine word.
fn unpack_offsets(bytes: &Vec<u8>) -> (r: Option<Vec<usize>>)
    requires
        word_size() == 8 ==> forall|i: int|
            0 <= i < bytes.len() as int / 8 ==> #[trigger] offset_at(bytes@, i) <= usize::MAX,
    ensures
        r is Some <==> bytes_offsets(bytes@, word_size()) is Some,
        r matches Some(offsets) ==> bytes_offsets(bytes@, word_size()) == Some(offsets@),
{
    let count: usize = bytes.len() / 8;
    if word_len() != 8 && count > 0 {
        return None;
    }
    let ghost all = bytes_offsets(bytes@, word_size())->0;
    let mut out: Vec<usize> = Vec::with_capacity(count);
    let mut i: usize = 0;
    while i < count
        invariant
            i <= count == bytes.len() as int / 8,
            word_size() == 8 || count == 0,
            word_size() == 8 ==> forall|k: int|
                0 <= k < bytes.len() as int / 8 ==> #[trigger] offset_at(bytes@, k) <= usize::MAX,
            bytes_offsets(bytes@, word_size()) == Some(all),
            out@ == all.take(i as int),
        decreases count - i,
    {
        let value: u64 = read_le(bytes.as_slice(), 8 * i, 8);
        assert(value == offset_at(bytes@, i as int));
        out.push(value as usize);
        i = i + 1;
        assert(out@ =~= all.take(i as int));
    }
    assert(out@ =~= all);
    Some(out)
}

/// What a filter keeps of ascending offsets ascends.
pub proof fn lemma_filter_ascends(offsets: Seq<usize>, pred: spec_fn(usize) -> bool, len: int)
    requires
        ascending_below(offsets, len),
    ensures
        ascending_below(offsets.filter(pred), len),
        offsets.filter(pred).len() <= offsets.len(),
        offsets.len() > 0 && offsets.filter(pred).len() > 0 ==> offsets.filter(pred).last()
            <= offsets.last(),
    decreases offsets.len(),
{
    reveal(Seq::filter);
    if offsets.len() > 0 {
        let front = offsets.drop_last();
        assert(ascending_below(front, len));
        lemma_filter_ascends(front, pred, len);
        let kept = front.filter(pred);
        let all = offsets.filter(pred);
        if front.len() > 0 {
            assert(front.last() < offsets.last());
        }
        assert forall|i: int, j: int| 0 <= i < j < all.len() implies all[i] < all[j] by {
            if j == kept.len() {
                assert(kept[i] <= kept.last());
            }
        }
    }
}

/// A remembered chunk of memory. The surviving offsets are stored compressed; `survivors` is what
/// they are.
pub struct MemoryEntry {
    address: usize,
    compressed_data: Vec<u8>,
    data_len: usize,
    compressed_offsets: Vec<u8>,
    offsets_len: usize,
    survivors: Ghost<Seq<usize>>,
    is_first: bool,
}

impl View for MemoryEntry {
    type V = EntryView;

    closed spec fn view(&self) -> EntryView {
        EntryView {
            address: self.address,
            data: lz4_decompressed(self.compressed_data@, self.data_len as int)->0,
            offsets: self.survivors@,
            is_first: self.is_first,
        }
    }
}

impl MemoryEntry {
    #[verifier::type_invariant]
    spec fn type_inv(self) -> bool {
        &&& self.data_len <= CHUNK_SIZE
        &&& self.address + self.data_len <= usize::MAX
        &&& lz4_decompressed(self.compressed_data@, self.data_len as int) is Some
        &&& self@.data.len() == self.data_len
        &&& self.survivors@.len() <= self.data_len
        &&& ascending_below(self.survivors@, self.data_len as int)
        &&& self.offsets_len == word_size() * self.survivors@.len()
        &&& self.is_first ==> self.survivors@.len() == 0
        &&& !self.is_first ==> lz4_decompressed(
            self.compressed_offsets@,
            self.offsets_len as int,
        ) == Some(offset_bytes(self.survivors@, word_size()))
    }

    /// How many bytes the chunk holds.
    pub closed spec fn spec_len(&self) -> nat {
        self.data_len as nat
    }

    /// Remembers a chunk that has just been read.
    pub fn capture(address: usize, data: &Vec<u8>) -> (r: MemoryEntry)
        requires
            data.len() <= CHUNK_SIZE,
            address + data.len() <= usize::MAX,
        ensures
            r@ == (EntryView { address, data: data@, offsets: Seq::empty(), is_first: true }),
            r.spec_len() == data.len(),
    {
        let block: Vec<u8> = match lz4_compress(data.as_slice(), false) {
            Some(block) => block,
            None => Vec::new(),
        };
        MemoryEntry {
            address,
            compressed_data: block,
            data_len: data.len(),
            compressed_offsets: Vec::new(),
            offsets_len: 0,
            survivors: Ghost(Seq::empty()),
            is_first: true,
        }
    }

    /// Where the chunk begins.
    pub fn address(&self) -> (r: usize)
        ensures
            r == self@.address,
    {
        self.address
    }

    /// How many bytes the chunk holds.
    pub fn len(&self) -> (r: usize)
        ensures
            r == self.spec_len(),
            r == self@.data.len(),
    {
        proof {
            use_type_invariant(self);
        }
        self.data_len
    }

    /// The bytes that the chunk held when it was last read.
    pub fn data(&self) -> (r: Vec<u8>)
        ensures
            r@ == self@.data,
            r.len() == self.spec_len(),
    {
        proof {
            use_type_invariant(self);
        }
        lz4_decompress(self.compressed_data.as_slice(), self.data_len)
    }

    /// The surviving offsets as they are read again, which ascend and lie inside the chunk, where
    /// they can be read again.
    pub fn offsets(&self) -> (r: Option<Vec<usize>>)
        ensures
            r is Some <==> can_reread(self@.offsets),
            r matches Some(offsets) ==> {
                &&& offsets@ == reread(self@.offsets)
                &&& ascending_below(offsets@, self@.data.len() as int)
                &&& self@.is_first ==> offsets.len() == 0
            },
    {
        proof {
            use_type_invariant(self);
            law_offsets_round_trip(self.survivors@);
        }
        if self.offsets_len == 0 {
            let none: Vec<usize> = Vec::new();
            assert(self.survivors@.len() == 0);
            assert(none@ =~= reread(self@.offsets));
            return Some(none);
        }
        let bytes: Vec<u8> = lz4_decompress(
            self.compressed_offsets.as_slice(),
            self.offsets_len,
        );
        unpack_offsets(&bytes)
    }

    /// A chunk that has been filtered: what it holds now and the offsets that stayed.
    fn refreshed(address: usize, data: &Vec<u8>, offsets: &Vec<usize>) -> (r: MemoryEntry)
        requires
            data.len() <= CHUNK_SIZE,
            address + data.len() <= usize::MAX,
            offsets.len() <= data.len(),
            ascending_below(offsets@, data.len() as int),
        ensures
            r@ == (EntryView { address, data: data@, offsets: offsets@, is_first: false }),
            r.spec_len() == data.len(),
    {
        let block: Vec<u8> = match lz4_compress(data.as_slice(), false) {
            Some(block) => block,
            None => Vec::new(),
        };
        let bytes: Vec<u8> = pack_offsets(offsets);
        proof {
            law_offsets_round_trip(offsets@);
        }
        let packed: Vec<u8> = match lz4_compress(bytes.as_slice(), false) {
            Some(packed) => packed,
            None => Vec::new(),
        };
        MemoryEntry {
            address,
            compressed_data: block,
            data_len: data.len(),
            compressed_offsets: packed,
            offsets_len: bytes.len(),
            survivors: Ghost(offsets@),
            is_first: false,
        }
    }

    /// Filters the chunk against what it holds now, and tells how many values were found. A chunk
    /// that could not be read stays as it is. There is no answer where the offsets of the last
    /// filter cannot be read again, or where there is an offset to look at but no alignment.
    pub fn refilter(
        self,
        buffer: Option<&Vec<u8>>,
        align: usize,
        size: usize,
        method: FilterMethod,
    ) -> (r: Option<(MemoryEntry, usize)>)
        requires
            1 <= size <= 8,
            buffer matches Some(new) ==> new.len() == self.spec_len(),
        ensures
            r is None <==> buffer is Some && (!self@.has_candidates() || (align == 0
                && self@.candidates().len() > 0)),
            r matches Some((entry, found)) ==> {
                let new = match buffer {
                    Some(new) => Some(new@),
                    None => None,
                };
                &&& entry@ == self@.refiltered(new, align, size, method)
                &&& found == self@.refound(new, align, size, method)
            },
    {
        proof {
            use_type_invariant(&self);
        }
        let new: &Vec<u8> = match buffer {
            Some(new) => new,
            None => return Some((self, 0)),
        };
        let old: Vec<u8> = self.data();
        let candidates: Option<Vec<usize>> = if self.is_first {
            None
        } else {
            match self.offsets() {
                Some(list) => Some(list),
                None => return None,
            }
        };
        let count: usize = match &candidates {
            Some(list) => list.len(),
            None => old.len(),
        };
        if align == 0 && count > 0 {
            return None;
        }
        let ghost view = self@;
        let mut kept: Vec<usize> = Vec::new();
        let mut i: usize = 0;
        while i < count
            invariant
                i <= count,
                count == view.candidates().len(),
                candidates is None ==> view.is_first,
                candidates matches Some(list) ==> !view.is_first && list@ == reread(view.offsets),
                align > 0 || count == 0,
                1 <= size <= 8,
                old@ == view.data,
                new@.len() == old@.len(),
                old@.len() <= CHUNK_SIZE,
                self.address == view.address,
                self.address + old@.len() <= usize::MAX,
                forall|k: int|
                    0 <= k < view.candidates().len() ==> #[trigger] view.candidates()[k]
                        < old@.len(),
                kept@ == view.candidates().take(i as int).filter(
                    |offset: usize| view.keeps(new@, align, size, method, offset),
                ),
            decreases count - i,
        {
            let offset: usize = match &candidates {
                Some(list) => list[i],
                None => i,
            };
            let ghost pred = |offset: usize| view.keeps(new@, align, size, method, offset);
            proof {
                assert(view.candidates()[i as int] == offset);
                let longer = view.candidates().take(i + 1);
                assert(longer.drop_last() =~= view.candidates().take(i as int));
                reveal(Seq::filter);
            }
            if (self.address + offset) % align == 0 && offset + size <= old.len()
                && method.accepts(
                window_relation(new.as_slice(), old.as_slice(), offset, size),
            ) {
                kept.push(offset);
            }
            i = i + 1;
        }
        proof {
            assert(view.candidates().take(count as int) =~= view.candidates());
            assert(kept@ == view.survivors(new@, align, size, method));
            lemma_filter_ascends(
                view.candidates(),
                |offset: usize| view.keeps(new@, align, size, method, offset),
                old@.len() as int,
            );
        }
        let found: usize = kept.len();
        let entry: MemoryEntry = MemoryEntry::refreshed(self.address, new, &kept);
        Some((entry, found))
    }

    /// The matches at the surviving offsets that are read again, `size` bytes each, where they can
    /// be read and all of them lie inside the chunk.
    pub fn matches(&self, size: usize) -> (r: Option<Vec<MatchedAddress>>)
        ensures
            r is Some <==> self@.fits(size),
            r matches Some(list) ==> views(list@) == self@.matches(size),
    {
        proof {
            use_type_invariant(self);
        }
        let offsets: Vec<usize> = match self.offsets() {
            Some(offsets) => offsets,
            None => return None,
        };
        if offsets.len() == 0 {
            let none: Vec<MatchedAddress> = Vec::new();
            assert(views(none@) =~= self@.matches(size));
            return Some(none);
        }
        let data: Vec<u8> = self.data();
        let mut out: Vec<MatchedAddress> = Vec::with_capacity(offsets.len());
        let mut i: usize = 0;
        while i < offsets.len()
            invariant
                i <= offsets.len(),
                can_reread(self@.offsets),
                offsets@ == reread(self@.offsets),
                data@ == self@.data,
                self.address == self@.address,
                self.address + data@.len() <= usize::MAX,
                ascending_below(offsets@, data@.len() as int),
                out.len() == i,
                forall|k: int|
                    0 <= k < i ==> #[trigger] reread(self@.offsets)[k] + size
                        <= self@.data.len(),
                forall|k: int|
                    0 <= k < i ==> (#[trigger] out@[k])@ == self@.match_at(size, offsets@[k]),
            decreases offsets.len() - i,
        {
            let offset: usize = offsets[i];
            assert(reread(self@.offsets)[i as int] == offset);
            if size > data.len() - offset {
                return None;
            }
            let value: String = encode(vstd::slice::slice_subrange(&data, offset, offset + size));
            out.push(MatchedAddress { address: self.address + offset, value });
            i = i + 1;
        }
        assert(views(out@) =~= self@.matches(size));
        Some(out)
    }
}

} // verus!
