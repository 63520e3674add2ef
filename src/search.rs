//! A store for the line numbers that a search matched: they are packed in
//! blocks of `BLOCK_LEN` with the bit width that each block needs, and any one
//! of them is read back by unpacking its block alone.
use vstd::prelude::*;
use vstd::layout::size_of;
use bitpacking::{BitPacker, BitPacker8x};
use crate::lineview::lemma_div_between;

verus! {

/// Values per packed block.
pub const BLOCK_LEN: usize = 256;

/// The most bytes that one packed block takes: 32 bits for each value.
pub const MAX_BLOCK_BYTES: usize = 1024;

/// Bytes that the store starts with.
pub const INITIAL_BYTES: usize = 8192;

/// The bit width that `BitPacker8x::num_bits_strictly_sorted` gives a block.
pub uninterp spec fn packed_width(block: Seq<u32>) -> u8;

/// The bytes that `BitPacker8x::compress_strictly_sorted` makes of a block.
pub uninterp spec fn packed_bytes(block: Seq<u32>, num_bits: u8) -> Seq<u8>;

/// Relies on `BitPacker8x::num_bits_strictly_sorted` with no initial value:
/// the width of the widest delta of the block, at most 32 bits.
#[verifier::external_body]
fn block_width(block: &Vec<u32>) -> (r: u8)
    requires
        block@.len() == BLOCK_LEN,
    ensures
        r == packed_width(block@),
        r <= 32,
{
    BitPacker8x::new().num_bits_strictly_sorted(None, block.as_slice())
}

/// Relies on `BitPacker8x::compress_strictly_sorted` with no initial value:
/// it writes `32 * num_bits` bytes from `offset` on and returns that count;
/// the bytes before `offset` stay as they were.
#[verifier::external_body]
fn compress_block(block: &Vec<u32>, num_bits: u8, out: &mut Vec<u8>, offset: usize) -> (r: usize)
    requires
        block@.len() == BLOCK_LEN,
        num_bits <= 32,
        offset + 32 * num_bits <= old(out)@.len(),
    ensures
        r == 32 * num_bits,
        packed_bytes(block@, num_bits).len() == r,
        final(out)@.len() == old(out)@.len(),
        final(out)@.subrange(0, offset as int) == old(out)@.subrange(0, offset as int),
        final(out)@.subrange(offset as int, offset + r) == packed_bytes(block@, num_bits),
{
    BitPacker8x::new().compress_strictly_sorted(None, block.as_slice(), &mut out[offset..], num_bits)
}

/// Relies on `BitPacker8x::decompress_strictly_sorted` with no initial value
/// undoing `compress_strictly_sorted` at the width that
/// `num_bits_strictly_sorted` gave: deltas are taken with wrapping
/// arithmetic, so any block of `BLOCK_LEN` values comes back as it was.
#[verifier::external_body]
fn decompress_block(bytes: &Vec<u8>, start: usize, end: usize, num_bits: u8) -> (r: Vec<u32>)
    requires
        num_bits <= 32,
        start <= end <= bytes@.len(),
        end - start == 32 * num_bits,
    ensures
        r@.len() == BLOCK_LEN,
        forall|b: Seq<u32>|
            b.len() == BLOCK_LEN && num_bits == packed_width(b) && #[trigger] packed_bytes(b, num_bits)
                == bytes@.subrange(start as int, end as int) ==> r@ == b,
{
    let mut out = vec![0u32; BLOCK_LEN];
    BitPacker8x::new().decompress_strictly_sorted(None, &bytes[start..end], &mut out, num_bits);
    out
}

/// Relies on `Vec::capacity`, which is never below the length.
#[verifier::external_body]
fn vec_capacity<T>(v: &Vec<T>) -> (r: usize)
    ensures
        r >= v@.len(),
{
    v.capacity()
}

/// Where one packed block sits in the byte buffer, its bit width, and how
/// many of its values count.
pub struct SearchResultPage {
    compressed_0_offset: usize,
    compressed_len: usize,
    num_bits: u8,
    len: usize,
}

/// Matched line numbers, packed block by block. Values are appended through
/// a buffer that the caller holds; `finish` packs what the buffer has left.
pub struct CompressedSearchResults {
    bytes: Vec<u8>,
    pages: Vec<SearchResultPage>,
    values: Ghost<Seq<u32>>,
    blocks: Ghost<Seq<Seq<u32>>>,
}

impl CompressedSearchResults {
    /// The line numbers packed so far, in the order they came.
    pub closed spec fn values(&self) -> Seq<u32> {
        self.values@
    }

    /// Every page is a whole block, so more values may follow.
    pub closed spec fn open_for_append(&self) -> bool {
        forall|k: int| 0 <= k < self.pages@.len() ==> #[trigger] self.pages@[k].len == BLOCK_LEN
    }

    /// The length of the byte buffer.
    pub closed spec fn byte_len(&self) -> int {
        self.bytes@.len() as int
    }

    /// The number of pages.
    pub closed spec fn page_len(&self) -> int {
        self.pages@.len() as int
    }

    /// How many bytes the packed pages take.
    pub closed spec fn packed_len(&self) -> int {
        if self.pages@.len() == 0 {
            0
        } else {
            self.pages@.last().compressed_0_offset + self.pages@.last().compressed_len
        }
    }

    pub closed spec fn wf(&self) -> bool {
        let p = self.pages@;
        let blocks = self.blocks@;
        let vals = self.values@;
        &&& p.len() == blocks.len()
        &&& vals.len() < usize::MAX / 8
        &&& vals.len() == if p.len() == 0 { 0 } else { (p.len() - 1) * BLOCK_LEN + p.last().len }
        &&& forall|k: int| 0 <= k < p.len() - 1 ==> #[trigger] p[k].len == BLOCK_LEN
        &&& p.len() > 0 ==> p[0].compressed_0_offset == 0
        &&& forall|k: int|
            0 <= k < p.len() - 1 ==> #[trigger] p[k + 1].compressed_0_offset == p[k].compressed_0_offset
                + p[k].compressed_len
        &&& forall|k: int|
            0 <= k < p.len() ==> {
                let pg = #[trigger] p[k];
                &&& 1 <= pg.len <= BLOCK_LEN
                &&& blocks[k].len() == BLOCK_LEN
                &&& pg.num_bits == packed_width(blocks[k])
                &&& pg.num_bits <= 32
                &&& pg.compressed_len == 32 * pg.num_bits
                &&& pg.compressed_0_offset + pg.compressed_len <= self.packed_len()
                &&& self.bytes@.subrange(
                    pg.compressed_0_offset as int,
                    pg.compressed_0_offset + pg.compressed_len,
                ) == packed_bytes(blocks[k], pg.num_bits)
            }
        &&& forall|i: int|
            0 <= i < vals.len() ==> #[trigger] vals[i] == blocks[i / BLOCK_LEN as int][i
                % BLOCK_LEN as int]
        &&& self.packed_len() <= MAX_BLOCK_BYTES * p.len()
        &&& self.packed_len() <= self.bytes@.len() <= self.packed_len() + INITIAL_BYTES
    }

    /// An empty store.
    pub fn new() -> (r: Self)
        ensures
            r.wf(),
            r.open_for_append(),
            r.values() == Seq::<u32>::empty(),
    {
        Self {
            bytes: vec![0; INITIAL_BYTES],
            pages: Vec::new(),
            values: Ghost(Seq::empty()),
            blocks: Ghost(Seq::empty()),
        }
    }

    /// The bound under which the store's byte counts cannot overflow.
    pub open spec fn room_for(&self, more: int) -> bool {
        self.values().len() + more < usize::MAX / 8
    }

    fn compress_and_add_page(&mut self, data: &Vec<u32>, valid_len: usize)
        requires
            old(self).wf(),
            old(self).open_for_append(),
            data@.len() == BLOCK_LEN,
            1 <= valid_len <= BLOCK_LEN,
            old(self).room_for(valid_len as int),
        ensures
            final(self).wf(),
            final(self).values() == old(self).values() + data@.subrange(0, valid_len as int),
            valid_len == BLOCK_LEN ==> final(self).open_for_append(),
    {
        let ghost old_bytes = self.bytes@;
        let ghost np = self.pages@.len() as int;
        let ghost vals0 = self.values@;
        proof {
            if np > 0 {
                assert(self.pages@[np - 1].len == BLOCK_LEN);
            }
            assert(vals0.len() == np * BLOCK_LEN);
        }
        let last_offset_used = if self.pages.len() == 0 {
            0
        } else {
            let last = &self.pages[self.pages.len() - 1];
            last.compressed_0_offset + last.compressed_len
        };
        let num_bits = block_width(data);
        let max_space_used = 4 * BLOCK_LEN;
        let new_len = if self.bytes.len() - last_offset_used >= max_space_used {
            self.bytes.len()
        } else {
            self.bytes.len() + 2 * max_space_used
        };
        self.bytes.resize(new_len, 0);
        let ghost resized = self.bytes@;
        let written = compress_block(data, num_bits, &mut self.bytes, last_offset_used);
        let page = SearchResultPage {
            compressed_0_offset: last_offset_used,
            compressed_len: written,
            num_bits,
            len: valid_len,
        };
        self.pages.push(page);
        self.blocks = Ghost(self.blocks@.push(data@));
        self.values = Ghost(vals0 + data@.subrange(0, valid_len as int));
        proof {
            let p = self.pages@;
            let blocks = self.blocks@;
            let vals = self.values@;
            assert(self.packed_len() == last_offset_used + written);
            assert forall|k: int| 0 <= k < np implies {
                let pg = #[trigger] p[k];
                self.bytes@.subrange(pg.compressed_0_offset as int, pg.compressed_0_offset + pg.compressed_len)
                    == old_bytes.subrange(pg.compressed_0_offset as int, pg.compressed_0_offset + pg.compressed_len)
            } by {
                let pg = p[k];
                let a = pg.compressed_0_offset as int;
                let b = pg.compressed_0_offset + pg.compressed_len;
                assert(b <= last_offset_used);
                assert forall|j: int| a <= j < b implies self.bytes@[j] == old_bytes[j] by {
                    assert(self.bytes@.subrange(0, last_offset_used as int)[j] == resized.subrange(0, last_offset_used as int)[j]);
                }
                assert(self.bytes@.subrange(a, b) =~= old_bytes.subrange(a, b));
            }
            assert forall|i: int| 0 <= i < vals.len() implies #[trigger] vals[i] == blocks[i / BLOCK_LEN as int][i % BLOCK_LEN as int] by {
                if i >= np * BLOCK_LEN {
                    lemma_div_between(i, BLOCK_LEN as int, np);
                    vstd::arithmetic::div_mod::lemma_fundamental_div_mod(i, BLOCK_LEN as int);
                } else {
                    assert(vals[i] == vals0[i]);
                }
            }
            assert(MAX_BLOCK_BYTES * p.len() == MAX_BLOCK_BYTES * np + MAX_BLOCK_BYTES);
        }
    }

    /// Appends the next matched line number. Whole blocks go from `buffer`
    /// into the store; `buffer` holds those not packed yet.
    pub fn append_line_number(&mut self, line_number: u32, buffer: &mut Vec<u32>)
        requires
            old(self).wf(),
            old(self).open_for_append(),
            old(buffer)@.len() <= BLOCK_LEN,
            old(self).room_for(old(buffer)@.len() + 1int),
        ensures
            final(self).wf(),
            final(self).open_for_append(),
            1 <= final(buffer)@.len() <= BLOCK_LEN,
            final(self).values().len() as int % (BLOCK_LEN as int) == 0,
            final(self).room_for(final(buffer)@.len() as int),
            old(buffer)@.len() == BLOCK_LEN ==> final(self).values() == old(self).values() + old(
                buffer,
            )@ && final(buffer)@ == seq![line_number],
            old(buffer)@.len() < BLOCK_LEN ==> final(self).values() == old(self).values()
                && final(buffer)@ == old(buffer)@.push(line_number),
    {
        if buffer.len() == BLOCK_LEN {
            self.compress_and_add_page(buffer, BLOCK_LEN);
            proof {
                assert(buffer@.subrange(0, BLOCK_LEN as int) =~= buffer@);
            }
            buffer.clear();
        }
        buffer.push(line_number);
        proof {
            if old(buffer)@.len() == BLOCK_LEN {
                assert(buffer@ =~= seq![line_number]);
            }
            lemma_open_store(*self);
        }
    }

    /// Packs what `buffer` holds, padded with zeros to a whole block that
    /// still counts only the values given, and releases the unused bytes.
    pub fn finish(&mut self, buffer: &mut Vec<u32>)
        requires
            old(self).wf(),
            old(self).open_for_append(),
            old(buffer)@.len() <= BLOCK_LEN,
            old(self).room_for(old(buffer)@.len() as int),
        ensures
            final(self).wf(),
            final(self).values() == old(self).values() + old(buffer)@,
            final(buffer)@.len() == 0,
    {
        let valid_len = buffer.len();
        let ghost given = buffer@;
        if valid_len == BLOCK_LEN {
            self.compress_and_add_page(buffer, valid_len);
            proof {
                assert(buffer@.subrange(0, valid_len as int) =~= given);
            }
        } else if valid_len > 0 {
            while buffer.len() < BLOCK_LEN
                invariant
                    valid_len <= buffer@.len() <= BLOCK_LEN,
                    buffer@.subrange(0, valid_len as int) == given,
                decreases BLOCK_LEN - buffer@.len(),
            {
                buffer.push(0);
                proof {
                    assert(buffer@.subrange(0, valid_len as int) =~= buffer@.drop_last().subrange(0, valid_len as int));
                }
            }
            self.compress_and_add_page(buffer, valid_len);
        } else {
            proof {
                assert(self.values() + given =~= self.values());
            }
        }
        buffer.clear();
        let used = if self.pages.len() == 0 {
            0
        } else {
            let last = &self.pages[self.pages.len() - 1];
            last.compressed_0_offset + last.compressed_len
        };
        let ghost before = self.bytes@;
        self.bytes.truncate(used);
        proof {
            let p = self.pages@;
            assert forall|k: int| 0 <= k < p.len() implies {
                let pg = #[trigger] p[k];
                self.bytes@.subrange(pg.compressed_0_offset as int, pg.compressed_0_offset + pg.compressed_len)
                    == before.subrange(pg.compressed_0_offset as int, pg.compressed_0_offset + pg.compressed_len)
            } by {
                let pg = p[k];
                assert(self.bytes@.subrange(pg.compressed_0_offset as int, pg.compressed_0_offset + pg.compressed_len)
                    =~= before.subrange(pg.compressed_0_offset as int, pg.compressed_0_offset + pg.compressed_len));
            }
        }
    }

    /// The line number at position `index`, or `None` past the last one.
    pub fn get(&self, index: usize) -> (r: Option<u32>)
        requires
            self.wf(),
        ensures
            r == if index < self.values().len() {
                Some(self.values()[index as int])
            } else {
                None::<u32>
            },
    {
        if index >= self.get_count() {
            return None;
        }
        let page_idx = index / BLOCK_LEN;
        proof {
            crate::lineview::lemma_div_facts(index as int, BLOCK_LEN as int);
            let np = self.pages@.len() as int;
            assert(page_idx < np) by (nonlinear_arith)
                requires page_idx * 256 <= index, index < (np - 1) * 256 + self.pages@.last().len,
                    self.pages@.last().len <= 256;
        }
        let page = &self.pages[page_idx];
        let decompressed = decompress_block(
            &self.bytes,
            page.compressed_0_offset,
            page.compressed_0_offset + page.compressed_len,
            page.num_bits,
        );
        proof {
            let b = self.blocks@[page_idx as int];
            assert(packed_bytes(b, page.num_bits) == self.bytes@.subrange(
                page.compressed_0_offset as int,
                page.compressed_0_offset + page.compressed_len,
            ));
            assert(decompressed@ == b);
            assert(self.values@[index as int] == b[(index as int) % (BLOCK_LEN as int)]);
        }
        Some(decompressed[index % BLOCK_LEN])
    }

    /// How many line numbers the store holds.
    pub fn get_count(&self) -> (r: usize)
        requires
            self.wf(),
        ensures
            r == self.values().len(),
    {
        let mut sum: usize = 0;
        let mut j: usize = 0;
        let ghost np = self.pages@.len() as int;
        while j < self.pages.len()
            invariant
                self.wf(),
                np == self.pages@.len(),
                j <= np,
                j < np ==> sum == j * BLOCK_LEN,
                j == np ==> sum == self.values().len(),
            decreases np - j,
        {
            proof {
                assert(j * BLOCK_LEN <= (np - 1) * BLOCK_LEN) by (nonlinear_arith)
                    requires j <= np - 1;
                assert((j + 1) * BLOCK_LEN == j * BLOCK_LEN + BLOCK_LEN) by (nonlinear_arith);
            }
            sum = sum + self.pages[j].len;
            j = j + 1;
        }
        proof {
            if np == 0 {
                assert(sum == 0);
            }
        }
        sum
    }

    /// A diagnostic figure: the memory that the store's two vectors have
    /// allocated, as far as `usize` can count it. The capacities are the
    /// allocator's, so only their lower bounds are known.
    pub fn get_size(&self) -> (r: usize)
        ensures
            exists|bytes_capacity: int, pages_capacity: int|
                bytes_capacity >= self.byte_len() && pages_capacity >= self.page_len() && r
                    == footprint_of(
                    size_of::<Vec<u8>>() as int,
                    bytes_capacity,
                    size_of::<Vec<SearchResultPage>>() as int,
                    pages_capacity,
                    size_of::<SearchResultPage>() as int,
                ),
    {
        let bytes_capacity = vec_capacity(&self.bytes);
        let pages_capacity = vec_capacity(&self.pages);
        let r = footprint(
            std::mem::size_of::<Vec<u8>>(),
            bytes_capacity,
            std::mem::size_of::<Vec<SearchResultPage>>(),
            pages_capacity,
            std::mem::size_of::<SearchResultPage>(),
        );
        proof {
            assert(bytes_capacity as int >= self.byte_len() && pages_capacity as int >= self.page_len());
        }
        r
    }

    /// A store of `line_numbers`, in order: each goes through
    /// `append_line_number`, then `finish` packs the rest.
    pub fn from_line_numbers(line_numbers: &Vec<u32>) -> (r: Self)
        requires
            line_numbers@.len() < usize::MAX / 8,
        ensures
            r.wf(),
            r.values() == line_numbers@,
    {
        let mut store = Self::new();
        let mut buffer: Vec<u32> = Vec::with_capacity(BLOCK_LEN);
        let mut i: usize = 0;
        while i < line_numbers.len()
            invariant
                store.wf(),
                store.open_for_append(),
                i <= line_numbers@.len() < usize::MAX / 8,
                buffer@.len() <= BLOCK_LEN,
                store.values() + buffer@ == line_numbers@.subrange(0, i as int),
            decreases line_numbers@.len() - i,
        {
            assert((store.values() + buffer@).len() == i);
            store.append_line_number(line_numbers[i], &mut buffer);
            proof {
                assert(line_numbers@.subrange(0, i + 1) =~= line_numbers@.subrange(0, i as int).push(
                    line_numbers@[i as int],
                ));
            }
            i = i + 1;
        }
        assert((store.values() + buffer@).len() == i);
        store.finish(&mut buffer);
        proof {
            assert(line_numbers@.subrange(0, i as int) =~= line_numbers@);
        }
        store
    }

    /// How many packed blocks the store holds.
    pub fn page_count(&self) -> (r: usize)
        requires
            self.wf(),
        ensures
            r == (self.values().len() + BLOCK_LEN - 1) / BLOCK_LEN as int,
    {
        proof {
            let np = self.pages@.len() as int;
            let v = self.values().len() as int;
            if np > 0 {
                lemma_div_between(v + BLOCK_LEN - 1, BLOCK_LEN as int, np);
            }
        }
        self.pages.len()
    }
}

/// What a well-formed store gives its callers: its count stays below the
/// bound that appends need, and while it is open for appends it holds whole
/// blocks only.
pub proof fn lemma_open_store(s: CompressedSearchResults)
    requires
        s.wf(),
    ensures
        s.values().len() < usize::MAX / 8,
        s.open_for_append() ==> s.values().len() as int % (BLOCK_LEN as int) == 0,
{
    let np = s.pages@.len() as int;
    if s.open_for_append() && np > 0 {
        assert(s.pages@[np - 1].len == BLOCK_LEN);
        vstd::arithmetic::div_mod::lemma_fundamental_div_mod_converse(
            s.values().len() as int,
            BLOCK_LEN as int,
            np,
            0,
        );
    }
}

/// `x` capped at `usize::MAX`.
pub open spec fn saturated(x: int) -> int {
    if x > usize::MAX {
        usize::MAX as int
    } else {
        x
    }
}

/// The memory of two vectors: the byte vector's header and capacity, and the
/// page vector's header and capacity times the size of a page.
pub open spec fn footprint_of(
    bytes_header: int,
    bytes_capacity: int,
    pages_header: int,
    pages_capacity: int,
    page_size: int,
) -> int {
    saturated(bytes_header + bytes_capacity + pages_header + pages_capacity * page_size)
}

/// The footprint, as far as `usize` can count it.
pub fn footprint(
    bytes_header: usize,
    bytes_capacity: usize,
    pages_header: usize,
    pages_capacity: usize,
    page_size: usize,
) -> (r: usize)
    ensures
        r == footprint_of(
            bytes_header as int,
            bytes_capacity as int,
            pages_header as int,
            pages_capacity as int,
            page_size as int,
        ),
{
    let page_bytes = match pages_capacity.checked_mul(page_size) {
        Some(v) => v,
        None => {
            proof {
                assert(pages_capacity * page_size >= 0) by (nonlinear_arith)
                    requires pages_capacity >= 0, page_size >= 0;
            }
            return usize::MAX;
        },
    };
    bytes_header.saturating_add(bytes_capacity).saturating_add(pages_header).saturating_add(
        page_bytes,
    )
}

} // verus!
