//! A slotted page: a fixed-size block with a header, a slot directory growing
//! up from the header, and tuples growing down from the end of the block.
use vstd::prelude::*;

use crate::codec::{
    be16, be16_bytes, be_to_u16, lemma_be16_bytes_value, lemma_unpack_packed, pack, packable, packed,
    row_model, u16_to_be, unpack, unpacked,
};

verus! {

/// Size of a page in bytes.
pub const PAGE_SIZE: usize = 8192;

/// Size of the page header (`ptr_lower` and `ptr_upper`).
pub const HEADER_SIZE: usize = 4;

/// The largest packed row that fits an empty page, next to its slot entry and
/// its size prefix.
pub const MAX_TUPLE: usize = 8184;

/// Errors of the heap store.
#[derive(Debug, PartialEq, Eq, Structural)]
pub enum HeapError {
    /// The page has no room left for this row.
    OutOfPageSpace,
    /// The row cannot be stored in any page.
    TupleTooLarge,
    /// A page image breaks the layout; `page` is the page's byte offset in the
    /// file and `byte` the offset inside the page where the fault was found.
    Corrupt { page: u64, byte: usize },
    /// The next page would start beyond the largest file offset.
    FileTooLarge,
}

/// The slot entry `i` of a page image.
pub open spec fn slot(b: Seq<u8>, i: int) -> int {
    be16(b[4 + 2 * i], b[5 + 2 * i]) as int
}

/// The tuple size stored at page offset `s`.
pub open spec fn tuple_len(b: Seq<u8>, s: int) -> int {
    be16(b[s], b[s + 1]) as int
}

/// The packed row stored at page offset `s`, after its size prefix.
pub open spec fn tuple_at(b: Seq<u8>, s: int) -> Seq<u8> {
    b.subrange(s + 2, s + 2 + tuple_len(b, s))
}

/// Number of slot entries for a given `ptr_lower`.
pub open spec fn slot_count(lower: int) -> int {
    (lower - HEADER_SIZE) / 2
}

/// Slot `i` points into the tuple region at a well-formed packed row.
pub open spec fn slot_valid(b: Seq<u8>, upper: int, i: int) -> bool {
    let s = slot(b, i);
    &&& upper <= s
    &&& s + 2 <= PAGE_SIZE
    &&& s + 2 + tuple_len(b, s) <= PAGE_SIZE
    &&& unpacked(tuple_at(b, s)) is Some
}

/// A page image is well formed with the given header pointers.
pub open spec fn page_ok(b: Seq<u8>, lower: int, upper: int) -> bool {
    &&& b.len() == PAGE_SIZE
    &&& be16(b[0], b[1]) == lower
    &&& be16(b[2], b[3]) == upper
    &&& HEADER_SIZE <= lower <= upper <= PAGE_SIZE
    &&& lower % 2 == 0
    &&& forall|i: int| 0 <= i < slot_count(lower) ==> #[trigger] slot_valid(b, upper, i)
}

/// The rows of a page image, in slot order.
pub open spec fn page_rows(b: Seq<u8>, lower: int) -> Seq<Seq<Seq<char>>> {
    Seq::new(slot_count(lower) as nat, |i: int| unpacked(tuple_at(b, slot(b, i)))->Some_0)
}

/// A freshly created page: header `00 04 20 00`, then zeros.
pub open spec fn fresh_page() -> Seq<u8> {
    Seq::new(
        PAGE_SIZE as nat,
        |k: int|
            if k == 1 {
                4u8
            } else if k == 2 {
                0x20u8
            } else {
                0u8
            },
    )
}

/// The page image after storing packed row `t` into page image `b`: new
/// header, a slot entry at `lower`, and the sized tuple just below `upper`.
pub open spec fn inserted_image(b: Seq<u8>, lower: int, upper: int, t: Seq<u8>) -> Seq<u8> {
    let nu = upper - t.len() - 2;
    Seq::new(
        b.len(),
        |k: int|
            if k < 2 {
                be16_bytes((lower + 2) as nat)[k]
            } else if k < 4 {
                be16_bytes(nu as nat)[k - 2]
            } else if lower <= k < lower + 2 {
                be16_bytes(nu as nat)[k - lower]
            } else if nu <= k < nu + 2 {
                be16_bytes(t.len())[k - nu]
            } else if nu + 2 <= k < upper {
                t[k - nu - 2]
            } else {
                b[k]
            },
    )
}

/// A row that can be stored in some page.
pub open spec fn storable(row: Seq<Seq<char>>) -> bool {
    packable(row) && packed(row).len() <= MAX_TUPLE
}

/// Bytes a stored row takes from the free space: slot entry, size prefix, tuple.
pub open spec fn space_needed(row: Seq<Seq<char>>) -> int {
    packed(row).len() + 4int
}

/// Whether a row can be stored in some page.
pub fn is_storable(row: &Vec<String>) -> (r: bool)
    ensures
        r == storable(row_model(row@)),
{
    match pack(row) {
        Some(t) => t.len() <= MAX_TUPLE,
        None => false,
    }
}

proof fn lemma_insert_image(b: Seq<u8>, lower: int, upper: int, t: Seq<u8>, row: Seq<Seq<char>>)
    requires
        page_ok(b, lower, upper),
        unpacked(t) == Some(row),
        t.len() + 4 <= upper - lower,
    ensures
        page_ok(inserted_image(b, lower, upper, t), lower + 2, upper - t.len() - 2),
        page_rows(inserted_image(b, lower, upper, t), lower + 2) == page_rows(b, lower).push(row),
{
    let nu = upper - t.len() - 2;
    let b2 = inserted_image(b, lower, upper, t);
    let cnt = slot_count(lower);
    assert(slot_count(lower + 2) == cnt + 1);
    assert(4 + 2 * cnt == lower);
    lemma_be16_bytes_value((lower + 2) as nat);
    lemma_be16_bytes_value(nu as nat);
    lemma_be16_bytes_value(t.len());
    assert(be16(b2[0], b2[1]) == lower + 2);
    assert(be16(b2[2], b2[3]) == nu);
    assert forall|i: int| 0 <= i < cnt implies slot(b2, i) == slot(b, i) && tuple_at(b2, slot(b, i))
        == tuple_at(b, slot(b, i)) && #[trigger] slot_valid(b2, nu, i) by {
        assert(slot_valid(b, upper, i));
        let s = slot(b, i);
        assert(b2[4 + 2 * i] == b[4 + 2 * i]);
        assert(b2[5 + 2 * i] == b[5 + 2 * i]);
        assert(b2[s] == b[s]);
        assert(b2[s + 1] == b[s + 1]);
        assert(tuple_at(b2, s) =~= tuple_at(b, s));
    }
    assert(b2[lower] == be16_bytes(nu as nat)[0]);
    assert(b2[lower + 1] == be16_bytes(nu as nat)[1]);
    assert(slot(b2, cnt) == nu);
    assert(b2[nu] == be16_bytes(t.len())[0]);
    assert(b2[nu + 1] == be16_bytes(t.len())[1]);
    assert(tuple_len(b2, nu) == t.len());
    assert(tuple_at(b2, nu) =~= t);
    assert(slot_valid(b2, nu, cnt));
    let r2 = page_rows(b2, lower + 2);
    let r1 = page_rows(b, lower);
    assert forall|i: int| 0 <= i < cnt implies #[trigger] r2[i] == r1[i] by {
        assert(slot_valid(b2, nu, i));
    }
    assert(r2[cnt] == row);
    assert(r2 =~= r1.push(row));
}

/// Value of the `ptr_lower` field of a page image's header.
pub open spec fn image_lower(b: Seq<u8>) -> int {
    be16(b[0], b[1]) as int
}

/// Value of the `ptr_upper` field of a page image's header.
pub open spec fn image_upper(b: Seq<u8>) -> int {
    be16(b[2], b[3]) as int
}

/// A byte sequence is a well-formed page image.
pub open spec fn valid_image(b: Seq<u8>) -> bool {
    b.len() == PAGE_SIZE && page_ok(b, image_lower(b), image_upper(b))
}

/// The header of a page image is consistent: `4 <= ptr_lower <= ptr_upper <= 8192`
/// and `ptr_lower` is even.
pub open spec fn header_ok(b: Seq<u8>) -> bool {
    &&& b.len() == PAGE_SIZE
    &&& HEADER_SIZE <= image_lower(b) <= image_upper(b) <= PAGE_SIZE
    &&& image_lower(b) % 2 == 0
}

/// Slot `i` is the first slot of the image that breaks the layout.
pub open spec fn is_first_bad_slot(b: Seq<u8>, i: int) -> bool {
    &&& 0 <= i < slot_count(image_lower(b))
    &&& !slot_valid(b, image_upper(b), i)
    &&& forall|j: int| 0 <= j < i ==> #[trigger] slot_valid(b, image_upper(b), j)
}

/// Where a bad slot is reported: at the slot entry when it points outside the
/// tuple region, else at the tuple it points to.
pub open spec fn slot_fault_byte(b: Seq<u8>, i: int) -> usize {
    let s = slot(b, i);
    if s < image_upper(b) || s + 2 > PAGE_SIZE {
        (HEADER_SIZE + 2 * i) as usize
    } else {
        s as usize
    }
}

/// Decodes the row stored at page offset `s` of `b`.
fn tuple_row(b: &Vec<u8>, s: usize) -> (r: Option<Vec<String>>)
    requires
        b@.len() == PAGE_SIZE,
        s + 2 <= b@.len(),
        s + 2 + tuple_len(b@, s as int) <= b@.len(),
    ensures
        r is Some <==> unpacked(tuple_at(b@, s as int)) is Some,
        r matches Some(row) ==> row_model(row@) == unpacked(tuple_at(b@, s as int))->Some_0,
{
    let len = be_to_u16(b[s], b[s + 1]) as usize;
    let mut t: Vec<u8> = Vec::new();
    let end = s + 2 + len;
    let mut j: usize = s + 2;
    while j < end
        invariant
            end == s + 2 + len,
            s + 2 <= j <= end <= b@.len(),
            len == tuple_len(b@, s as int),
            t@ == b@.subrange(s + 2, j as int),
        decreases end - j,
    {
        t.push(b[j]);
        assert(b@.subrange(s + 2, j + 1) =~= b@.subrange(s + 2, j as int).push(b@[j as int]));
        j += 1;
    }
    unpack(t.as_slice())
}

/// The header of a well-formed page holds its `ptr_lower` and `ptr_upper`, so
/// its image reopens as a page with the same pointers and free space.
pub proof fn lemma_header(p: &HeapBlock)
    requires
        p.wf(),
    ensures
        valid_image(p.image()),
        header_ok(p.image()),
        image_lower(p.image()) == p.lower(),
        image_upper(p.image()) == p.upper(),
        p.free() == p.upper() - p.lower(),
{
}

/// Reopening the image of a newly created page gives the header pointers and
/// the free space that the page had when it was created.
pub proof fn lemma_reopen_created(created: &HeapBlock)
    requires
        created.wf(),
        created.image() == fresh_page(),
    ensures
        valid_image(created.image()),
        image_lower(created.image()) == created.lower(),
        image_upper(created.image()) == created.upper(),
        image_upper(created.image()) - image_lower(created.image()) == created.free(),
{
}

/// One page of a heap file, held in memory as its byte image.
pub struct HeapBlock {
    ptr_lower: u16,
    ptr_upper: u16,
    free_space: u16,
    offset: u64,
    bytes: Vec<u8>,
}

impl HeapBlock {
    /// The page's header and free space agree with its byte image.
    pub closed spec fn wf(&self) -> bool {
        &&& page_ok(self.bytes@, self.ptr_lower as int, self.ptr_upper as int)
        &&& self.free_space == self.ptr_upper - self.ptr_lower
    }

    pub closed spec fn lower(&self) -> int {
        self.ptr_lower as int
    }

    pub closed spec fn upper(&self) -> int {
        self.ptr_upper as int
    }

    pub closed spec fn free(&self) -> int {
        self.free_space as int
    }

    /// Byte offset of the page in its file.
    pub closed spec fn base(&self) -> u64 {
        self.offset
    }

    /// The page's byte image.
    pub closed spec fn image(&self) -> Seq<u8> {
        self.bytes@
    }

    /// The rows stored in the page, in insertion order.
    pub closed spec fn rows(&self) -> Seq<Seq<Seq<char>>> {
        page_rows(self.bytes@, self.ptr_lower as int)
    }

    pub proof fn lemma_wf(&self)
        requires
            self.wf(),
        ensures
            self.free() == self.upper() - self.lower(),
            HEADER_SIZE <= self.lower() <= self.upper() <= PAGE_SIZE,
            self.rows().len() == slot_count(self.lower()),
            self.image().len() == PAGE_SIZE,
    {
    }

    /// A new, empty page at byte offset `offset` of its file.
    pub fn create(offset: u64) -> (p: HeapBlock)
        ensures
            p.wf(),
            p.image() == fresh_page(),
            p.lower() == HEADER_SIZE,
            p.upper() == PAGE_SIZE,
            p.free() == PAGE_SIZE - HEADER_SIZE,
            p.rows() == Seq::<Seq<Seq<char>>>::empty(),
            p.base() == offset,
    {
        let mut bytes: Vec<u8> = Vec::new();
        let mut k: usize = 0;
        while k < PAGE_SIZE
            invariant
                k <= PAGE_SIZE,
                bytes@ == fresh_page().take(k as int),
            decreases PAGE_SIZE - k,
        {
            let v: u8 = if k == 1 {
                4
            } else if k == 2 {
                0x20
            } else {
                0
            };
            bytes.push(v);
            assert(bytes@ =~= fresh_page().take(k + 1));
            k += 1;
        }
        assert(bytes@ =~= fresh_page());
        let p = HeapBlock { ptr_lower: 4, ptr_upper: 8192, free_space: 8188, offset, bytes };
        assert(p.rows() =~= Seq::<Seq<Seq<char>>>::empty());
        p
    }

    /// Takes a page image read from byte offset `offset` of a file; fails with
    /// `Corrupt` unless the image is a well-formed page.
    pub fn open(bytes: Vec<u8>, offset: u64) -> (r: Result<HeapBlock, HeapError>)
        ensures
            r is Ok <==> valid_image(bytes@),
            r matches Ok(p) ==> {
                &&& p.wf()
                &&& p.image() == bytes@
                &&& p.lower() == image_lower(bytes@)
                &&& p.upper() == image_upper(bytes@)
                &&& p.base() == offset
            },
            !header_ok(bytes@) ==> r == Err::<HeapBlock, HeapError>(
                HeapError::Corrupt { page: offset, byte: 0 },
            ),
            header_ok(bytes@) && r is Err ==> exists|i: int|
                is_first_bad_slot(bytes@, i) && r == Err::<HeapBlock, HeapError>(
                    HeapError::Corrupt { page: offset, byte: slot_fault_byte(bytes@, i) },
                ),
    {
        if bytes.len() != PAGE_SIZE {
            return Err(HeapError::Corrupt { page: offset, byte: 0 });
        }
        let lower = be_to_u16(bytes[0], bytes[1]);
        let upper = be_to_u16(bytes[2], bytes[3]);
        if lower < 4 || lower > upper || upper > 8192 || lower % 2 != 0 {
            return Err(HeapError::Corrupt { page: offset, byte: 0 });
        }
        let count: usize = (lower as usize - HEADER_SIZE) / 2;
        let mut i: usize = 0;
        while i < count
            invariant
                i <= count,
                count == slot_count(lower as int),
                bytes@.len() == PAGE_SIZE,
                lower == image_lower(bytes@),
                upper == image_upper(bytes@),
                HEADER_SIZE <= lower <= upper <= PAGE_SIZE,
                header_ok(bytes@),
                forall|j: int| 0 <= j < i ==> #[trigger] slot_valid(bytes@, upper as int, j),
            decreases count - i,
        {
            let at = HEADER_SIZE + 2 * i;
            let s = be_to_u16(bytes[at], bytes[at + 1]) as usize;
            if s < upper as usize || s + 2 > PAGE_SIZE {
                assert(!slot_valid(bytes@, upper as int, i as int));
                assert(is_first_bad_slot(bytes@, i as int));
                return Err(HeapError::Corrupt { page: offset, byte: at });
            }
            let len = be_to_u16(bytes[s], bytes[s + 1]) as usize;
            if s + 2 + len > PAGE_SIZE {
                assert(!slot_valid(bytes@, upper as int, i as int));
                assert(is_first_bad_slot(bytes@, i as int));
                return Err(HeapError::Corrupt { page: offset, byte: s });
            }
            let row = tuple_row(&bytes, s);
            if row.is_none() {
                assert(!slot_valid(bytes@, upper as int, i as int));
                assert(is_first_bad_slot(bytes@, i as int));
                return Err(HeapError::Corrupt { page: offset, byte: s });
            }
            assert(slot_valid(bytes@, upper as int, i as int));
            i += 1;
        }
        Ok(HeapBlock { ptr_lower: lower, ptr_upper: upper, free_space: upper - lower, offset, bytes })
    }

    /// Stores a row: its packed bytes with their size just below `ptr_upper`,
    /// and a slot entry pointing at them at `ptr_lower`.
    pub fn insert(&mut self, row: &Vec<String>) -> (r: Result<(), HeapError>)
        requires
            old(self).wf(),
        ensures
            final(self).wf(),
            final(self).base() == old(self).base(),
            !packable(row_model(row@)) ==> r == Err::<(), HeapError>(HeapError::TupleTooLarge)
                && *final(self) == *old(self),
            packable(row_model(row@)) && old(self).free() < space_needed(row_model(row@)) ==> r
                == Err::<(), HeapError>(HeapError::OutOfPageSpace) && *final(self) == *old(self),
            packable(row_model(row@)) && old(self).free() >= space_needed(row_model(row@)) ==> {
                &&& r is Ok
                &&& final(self).rows() == old(self).rows().push(row_model(row@))
                &&& final(self).image() == inserted_image(
                    old(self).image(),
                    old(self).lower(),
                    old(self).upper(),
                    packed(row_model(row@)),
                )
                &&& final(self).lower() == old(self).lower() + 2
                &&& final(self).upper() == old(self).upper() - packed(row_model(row@)).len() - 2
            },
    {
        let t = match pack(row) {
            Some(t) => t,
            None => {
                return Err(HeapError::TupleTooLarge);
            },
        };
        if !self.can_insert(t.len()) {
            return Err(HeapError::OutOfPageSpace);
        }
        let ghost old_b = self.bytes@;
        let lower = self.ptr_lower as usize;
        let upper = self.ptr_upper as usize;
        let nu = upper - t.len() - 2;
        let mut j: usize = 0;
        while j < t.len()
            invariant
                j <= t.len(),
                nu + 2 + t.len() == upper <= PAGE_SIZE,
                old_b.len() == PAGE_SIZE,
                self.bytes@.len() == old_b.len(),
                self.offset == old(self).offset,
                self.ptr_lower == old(self).ptr_lower,
                self.ptr_upper == old(self).ptr_upper,
                lower == self.ptr_lower,
                upper == self.ptr_upper,
                HEADER_SIZE <= lower,
                lower + 2 <= nu,
                forall|k: int|
                    0 <= k < old_b.len() ==> #[trigger] self.bytes@[k] == if nu + 2 <= k < nu + 2
                        + j {
                        t@[k - nu - 2]
                    } else {
                        old_b[k]
                    },
            decreases t.len() - j,
        {
            self.bytes.set(nu + 2 + j, t[j]);
            j += 1;
        }
        let size = u16_to_be(t.len() as u16);
        self.bytes.set(nu, size[0]);
        self.bytes.set(nu + 1, size[1]);
        self.update_ptrs(nu);
        assert(self.bytes@ =~= inserted_image(old_b, lower as int, upper as int, t@));
        proof {
            lemma_unpack_packed(row_model(row@));
            lemma_insert_image(old_b, lower as int, upper as int, t@, row_model(row@));
        }
        Ok(())
    }

    /// Whether a packed row of `len` bytes fits the free space, next to its
    /// slot entry and its size prefix.
    pub fn can_insert(&self, len: usize) -> (r: bool)
        requires
            self.wf(),
        ensures
            r == (len + 4 <= self.free()),
    {
        len <= self.free_space as usize && self.free_space as usize - len >= 4
    }

    /// Writes the header for one more slot and a new `ptr_upper`, and the new
    /// slot entry pointing at `new_upper`.
    fn update_ptrs(&mut self, new_upper: usize)
        requires
            old(self).bytes@.len() == PAGE_SIZE,
            HEADER_SIZE <= old(self).ptr_lower,
            old(self).ptr_lower + 2 <= new_upper <= old(self).ptr_upper <= PAGE_SIZE,
        ensures
            final(self).ptr_lower == old(self).ptr_lower + 2,
            final(self).ptr_upper == new_upper,
            final(self).free_space == new_upper - (old(self).ptr_lower + 2),
            final(self).offset == old(self).offset,
            final(self).bytes@.len() == PAGE_SIZE,
            forall|k: int|
                0 <= k < PAGE_SIZE ==> #[trigger] final(self).bytes@[k] == if k < 2 {
                    be16_bytes((old(self).ptr_lower + 2) as nat)[k]
                } else if k < 4 {
                    be16_bytes(new_upper as nat)[k - 2]
                } else if old(self).ptr_lower <= k < old(self).ptr_lower + 2 {
                    be16_bytes(new_upper as nat)[k - old(self).ptr_lower]
                } else {
                    old(self).bytes@[k]
                },
    {
        let lower = self.ptr_lower as usize;
        let header = u16_to_be((lower + 2) as u16);
        let slot_entry = u16_to_be(new_upper as u16);
        self.bytes.set(0, header[0]);
        self.bytes.set(1, header[1]);
        self.bytes.set(2, slot_entry[0]);
        self.bytes.set(3, slot_entry[1]);
        self.bytes.set(lower, slot_entry[0]);
        self.bytes.set(lower + 1, slot_entry[1]);
        self.ptr_lower = (lower + 2) as u16;
        self.ptr_upper = new_upper as u16;
        self.free_space = (new_upper - (lower + 2)) as u16;
    }

    /// The row in slot `n` (counting from 0), or `None` past the last slot.
    pub fn get(&self, n: usize) -> (r: Option<Vec<String>>)
        requires
            self.wf(),
        ensures
            r is Some <==> n < self.rows().len(),
            r matches Some(row) ==> row_model(row@) == self.rows()[n as int],
    {
        let count: usize = (self.ptr_lower as usize - HEADER_SIZE) / 2;
        if n >= count {
            return None;
        }
        let at = HEADER_SIZE + 2 * n;
        let s = be_to_u16(self.bytes[at], self.bytes[at + 1]) as usize;
        proof {
            assert(slot_valid(self.bytes@, self.ptr_upper as int, n as int));
        }
        tuple_row(&self.bytes, s)
    }

    /// Number of rows stored in the page.
    pub fn len(&self) -> (r: usize)
        requires
            self.wf(),
        ensures
            r == self.rows().len(),
    {
        (self.ptr_lower as usize - HEADER_SIZE) / 2
    }

    pub fn ptr_lower(&self) -> (r: u16)
        ensures
            r == self.lower(),
    {
        self.ptr_lower
    }

    pub fn ptr_upper(&self) -> (r: u16)
        ensures
            r == self.upper(),
    {
        self.ptr_upper
    }

    pub fn free_space(&self) -> (r: u16)
        ensures
            r == self.free(),
    {
        self.free_space
    }

    pub fn offset(&self) -> (r: u64)
        ensures
            r == self.base(),
    {
        self.offset
    }

    /// The page's byte image, to be written at `offset()` in the file.
    pub fn bytes(&self) -> (r: &Vec<u8>)
        ensures
            r@ == self.image(),
    {
        &self.bytes
    }
}

} // verus!
