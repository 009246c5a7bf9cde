//! A heap file: a sequence of pages of one file, filled in order, growing by
//! one page whenever the current page is full.
use vstd::prelude::*;

use crate::codec::{packed, row_model};
use crate::page::{
    fresh_page, header_ok, inserted_image, is_first_bad_slot, is_storable, slot_fault_byte,
    space_needed, storable, valid_image, HeapBlock, HeapError, HEADER_SIZE, PAGE_SIZE,
};

verus! {

/// The rows of a sequence of pages, page after page.
pub open spec fn all_rows(pages: Seq<HeapBlock>) -> Seq<Seq<Seq<char>>>
    decreases pages.len(),
{
    if pages.len() == 0 {
        seq![]
    } else {
        all_rows(pages.drop_last()) + pages.last().rows()
    }
}

/// The rows of a sequence of pages split at page `q`.
pub proof fn lemma_all_rows_split(pages: Seq<HeapBlock>, q: int)
    requires
        0 <= q <= pages.len(),
    ensures
        all_rows(pages) == all_rows(pages.take(q)) + all_rows(pages.skip(q)),
    decreases pages.len(),
{
    if q == pages.len() {
        assert(pages.take(q) =~= pages);
        assert(pages.skip(q) =~= Seq::<HeapBlock>::empty());
        assert(all_rows(pages.take(q)) + all_rows(pages.skip(q)) =~= all_rows(pages));
    } else {
        let init = pages.drop_last();
        lemma_all_rows_split(init, q);
        assert(init.take(q) =~= pages.take(q));
        assert(pages.skip(q).drop_last() =~= init.skip(q));
        assert(pages.skip(q).last() == pages.last());
        assert(all_rows(pages.take(q)) + all_rows(pages.skip(q)) =~= all_rows(init.take(q)) + all_rows(
            init.skip(q),
        ) + pages.last().rows());
    }
}

proof fn lemma_all_rows_one(pages: Seq<HeapBlock>)
    requires
        pages.len() == 1,
    ensures
        all_rows(pages) == pages[0].rows(),
{
    assert(pages.drop_last() =~= Seq::<HeapBlock>::empty());
    assert(all_rows(pages.drop_last()) == Seq::<Seq<Seq<char>>>::empty());
    assert(all_rows(pages) =~= pages[0].rows());
}

proof fn lemma_all_rows_take_next(pages: Seq<HeapBlock>, q: int)
    requires
        0 <= q < pages.len(),
    ensures
        all_rows(pages.take(q + 1)) == all_rows(pages.take(q)) + pages[q].rows(),
{
    assert(pages.take(q + 1).drop_last() =~= pages.take(q));
}

/// The rows of `pages` followed by one more row.
pub open spec fn old_rows_push(pages: Seq<HeapBlock>, row: Seq<Seq<char>>) -> Seq<Seq<Seq<char>>> {
    all_rows(pages).push(row)
}

/// All pages are well formed and lie one after another in the file.
pub open spec fn pages_wf(pages: Seq<HeapBlock>) -> bool {
    &&& forall|k: int| 0 <= k < pages.len() ==> #[trigger] pages[k].wf()
    &&& forall|k: int|
        0 <= k < pages.len() ==> #[trigger] pages[k].base() == pages[0].base() + PAGE_SIZE * k
}

/// A table stored as a sequence of pages; rows go into the last page.
pub struct HeapFile {
    heap: Vec<HeapBlock>,
    n: usize,
    table: String,
}

impl HeapFile {
    pub closed spec fn wf(&self) -> bool {
        &&& self.heap@.len() >= 1
        &&& self.n == self.heap@.len() - 1
        &&& pages_wf(self.heap@)
    }

    /// The pages, in file order.
    pub closed spec fn pages(&self) -> Seq<HeapBlock> {
        self.heap@
    }

    /// Name of the table stored in the file.
    pub closed spec fn table_name(&self) -> Seq<char> {
        self.table@
    }

    /// The page that receives new rows.
    pub open spec fn current(&self) -> HeapBlock {
        self.pages().last()
    }

    /// Every row of the file, in insertion order.
    pub open spec fn rows(&self) -> Seq<Seq<Seq<char>>> {
        all_rows(self.pages())
    }

    pub proof fn lemma_wf(&self)
        requires
            self.wf(),
        ensures
            self.pages().len() >= 1,
            pages_wf(self.pages()),
            self.current().wf(),
    {
    }

    /// A heap file for `table` whose first page is a new page at byte `offset`.
    pub fn create(table: &str, offset: u64) -> (h: HeapFile)
        ensures
            h.wf(),
            h.pages().len() == 1,
            h.pages()[0].image() == fresh_page(),
            h.pages()[0].base() == offset,
            h.rows() == Seq::<Seq<Seq<char>>>::empty(),
            h.table_name() == table@,
    {
        let page = HeapBlock::create(offset);
        let mut heap: Vec<HeapBlock> = Vec::new();
        heap.push(page);
        let h = HeapFile { heap, n: 0, table: table.to_owned() };
        proof {
            lemma_all_rows_one(h.pages());
        }
        h
    }

    /// A heap file for `table` over one existing page image, read at byte
    /// `offset`; fails with `Corrupt` unless the image is a well-formed page.
    pub fn open(table: &str, offset: u64, bytes: Vec<u8>) -> (r: Result<HeapFile, HeapError>)
        ensures
            r is Ok <==> valid_image(bytes@),
            r matches Ok(h) ==> {
                &&& h.wf()
                &&& h.pages().len() == 1
                &&& h.pages()[0].image() == bytes@
                &&& h.pages()[0].base() == offset
                &&& h.rows() == h.pages()[0].rows()
                &&& h.table_name() == table@
            },
            !header_ok(bytes@) ==> r == Err::<HeapFile, HeapError>(
                HeapError::Corrupt { page: offset, byte: 0 },
            ),
            header_ok(bytes@) && r is Err ==> exists|i: int|
                is_first_bad_slot(bytes@, i) && r == Err::<HeapFile, HeapError>(
                    HeapError::Corrupt { page: offset, byte: slot_fault_byte(bytes@, i) },
                ),
    {
        let page = match HeapBlock::open(bytes, offset) {
            Ok(p) => p,
            Err(e) => {
                return Err(e);
            },
        };
        let mut heap: Vec<HeapBlock> = Vec::new();
        heap.push(page);
        let h = HeapFile { heap, n: 0, table: table.to_owned() };
        proof {
            lemma_all_rows_one(h.pages());
        }
        Ok(h)
    }

    /// Appends a row to the current page, or, when that page is full, to a
    /// new page placed right after it in the file. A row that fits no page is
    /// refused with `TupleTooLarge` before any page is touched.
    pub fn insert(&mut self, row: &Vec<String>) -> (r: Result<(), HeapError>)
        requires
            old(self).wf(),
        ensures
            final(self).wf(),
            final(self).table_name() == old(self).table_name(),
            final(self).pages()[0].base() == old(self).pages()[0].base(),
            r is Ok <==> storable(row_model(row@)) && (old(self).current().free() >= space_needed(
                row_model(row@),
            ) || old(self).current().base() <= u64::MAX - PAGE_SIZE),
            r is Ok ==> final(self).rows() == old(self).rows().push(row_model(row@)),
            r is Err ==> final(self).pages() == old(self).pages(),
            !storable(row_model(row@)) ==> r == Err::<(), HeapError>(HeapError::TupleTooLarge),
            storable(row_model(row@)) && old(self).current().free() < space_needed(row_model(row@))
                && old(self).current().base() > u64::MAX - PAGE_SIZE ==> r == Err::<(), HeapError>(
                HeapError::FileTooLarge,
            ),
            r is Ok && old(self).current().free() >= space_needed(row_model(row@)) ==> {
                &&& final(self).pages().len() == old(self).pages().len()
                &&& final(self).pages().drop_last() == old(self).pages().drop_last()
                &&& final(self).current().base() == old(self).current().base()
                &&& final(self).current().rows() == old(self).current().rows().push(row_model(row@))
                &&& final(self).current().image() == inserted_image(
                    old(self).current().image(),
                    old(self).current().lower(),
                    old(self).current().upper(),
                    packed(row_model(row@)),
                )
                &&& final(self).current().lower() == old(self).current().lower() + 2
                &&& final(self).current().upper() == old(self).current().upper() - packed(
                    row_model(row@),
                ).len() - 2
            },
            r is Ok && old(self).current().free() < space_needed(row_model(row@)) ==> {
                &&& final(self).pages().len() == old(self).pages().len() + 1
                &&& final(self).pages().drop_last() == old(self).pages()
                &&& final(self).current().base() == old(self).current().base() + PAGE_SIZE
                &&& final(self).current().rows() == seq![row_model(row@)]
                &&& final(self).current().image() == inserted_image(
                    fresh_page(),
                    HEADER_SIZE as int,
                    PAGE_SIZE as int,
                    packed(row_model(row@)),
                )
                &&& final(self).current().lower() == HEADER_SIZE + 2
                &&& final(self).current().upper() == PAGE_SIZE - packed(row_model(row@)).len() - 2
            },
    {
        let ghost old_pages = self.heap@;
        let ghost m = row_model(row@);
        if !is_storable(row) {
            return Err(HeapError::TupleTooLarge);
        }
        let mut page = self.heap.pop().unwrap();
        let ghost init = self.heap@;
        assert(init =~= old_pages.drop_last());
        assert(pages_wf(old_pages));
        assert(old_pages[old_pages.len() - 1].wf());
        let res = page.insert(row);
        match res {
            Ok(()) => {
                self.heap.push(page);
                assert(self.heap@ =~= init.push(page));
                assert(self.heap@.drop_last() =~= init);
                assert(old_pages.len() == 1 ==> self.heap@[0] == page);
                assert(pages_wf(self.heap@));
                assert(self.rows() =~= old_rows_push(old_pages, m)) by {
                    assert(all_rows(old_pages) == all_rows(init) + old_pages.last().rows());
                }
                Ok(())
            },
            Err(_) => {
                let base = page.offset();
                if base > u64::MAX - 8192 {
                    self.heap.push(page);
                    assert(self.heap@ =~= old_pages);
                    return Err(HeapError::FileTooLarge);
                }
                self.heap.push(page);
                assert(self.heap@ =~= old_pages);
                let mut fresh = HeapBlock::create(base + 8192);
                let res2 = fresh.insert(row);
                let ghost mid = self.heap@;
                self.heap.push(fresh);
                self.n = self.heap.len() - 1;
                assert(self.heap@.drop_last() =~= mid);
                assert(pages_wf(self.heap@));
                assert(fresh.rows() =~= seq![m]);
                assert(self.rows() =~= old_rows_push(old_pages, m));
                res2
            },
        }
    }

    /// Row `k` of the file, counting from 0 over all pages in order; `None`
    /// past the last row.
    pub fn get(&self, k: usize) -> (r: Option<Vec<String>>)
        requires
            self.wf(),
        ensures
            r is Some <==> k < self.rows().len(),
            r matches Some(row) ==> row_model(row@) == self.rows()[k as int],
    {
        let ghost pages = self.heap@;
        let mut p: usize = 0;
        let mut rem: usize = k;
        assert(pages.take(0) =~= Seq::<HeapBlock>::empty());
        while p < self.heap.len()
            invariant
                p <= pages.len(),
                pages == self.heap@,
                pages_wf(pages),
                k == all_rows(pages.take(p as int)).len() + rem,
            decreases pages.len() - p,
        {
            assert(pages[p as int].wf());
            let c = self.heap[p].len();
            proof {
                lemma_all_rows_take_next(pages, p as int);
            }
            if rem < c {
                proof {
                    lemma_all_rows_split(pages, p + 1);
                }
                return self.heap[p].get(rem);
            }
            rem = rem - c;
            p += 1;
        }
        assert(pages.take(p as int) =~= pages);
        None
    }

    /// Iterates over every row of the file, in insertion order.
    pub fn into_iter(self) -> (it: HeapFileIterator)
        requires
            self.wf(),
        ensures
            it.wf(),
            it.remaining() == self.rows(),
    {
        let it = HeapFileIterator { block: 0, n: 0, heap: self.heap };
        assert(it.heap@.take(0) =~= Seq::<HeapBlock>::empty());
        assert(all_rows(it.heap@).skip(0) =~= all_rows(it.heap@));
        it
    }

    /// A new heap file for `table` at byte `offset`, filled with `rows` in
    /// order; fails with the first error an insert gives.
    pub fn load(table: &str, offset: u64, rows: &Vec<Vec<String>>) -> (r: Result<HeapFile, HeapError>)
        ensures
            r matches Ok(h) ==> h.wf() && h.rows() == rows@.map_values(|row: Vec<String>| row_model(row@))
                && h.pages()[0].base() == offset && h.table_name() == table@,
            (forall|i: int| 0 <= i < rows@.len() ==> #[trigger] storable(row_model(rows@[i]@)))
                && offset <= u64::MAX - PAGE_SIZE * rows@.len() ==> r is Ok,
            r matches Err(e) ==> e is TupleTooLarge || e is FileTooLarge,
    {
        let ghost models = rows@.map_values(|row: Vec<String>| row_model(row@));
        let mut h = HeapFile::create(table, offset);
        let mut i: usize = 0;
        while i < rows.len()
            invariant
                i <= rows@.len(),
                h.wf(),
                h.rows() == models.take(i as int),
                models == rows@.map_values(|row: Vec<String>| row_model(row@)),
                h.pages()[0].base() == offset,
                h.table_name() == table@,
                h.pages().len() <= i + 1,
            decreases rows.len() - i,
        {
            proof {
                h.lemma_wf();
            }
            let ghost before = h;
            let res = h.insert(&rows[i]);
            match res {
                Ok(()) => {},
                Err(e) => {
                    proof {
                        if offset <= u64::MAX - PAGE_SIZE * rows@.len() {
                            assert(before.current().base() == offset + PAGE_SIZE * (before.pages().len() - 1));
                            assert(PAGE_SIZE * (before.pages().len() - 1) + PAGE_SIZE <= PAGE_SIZE * rows@.len())
                                by (nonlinear_arith)
                                requires
                                    before.pages().len() <= i + 1,
                                    i < rows@.len(),
                            ;
                        }
                    }
                    return Err(e);
                },
            }
            assert(models.take(i + 1) =~= models.take(i as int).push(models[i as int]));
            i += 1;
        }
        assert(models.take(i as int) =~= models);
        Ok(h)
    }

    pub fn ptr_lower(&self) -> (r: u16)
        requires
            self.wf(),
        ensures
            r == self.current().lower(),
    {
        self.heap[self.n].ptr_lower()
    }

    pub fn ptr_upper(&self) -> (r: u16)
        requires
            self.wf(),
        ensures
            r == self.current().upper(),
    {
        self.heap[self.n].ptr_upper()
    }

    pub fn free_space(&self) -> (r: u16)
        requires
            self.wf(),
        ensures
            r == self.current().free(),
    {
        self.heap[self.n].free_space()
    }

    pub fn table(&self) -> (r: &str)
        ensures
            r@ == self.table_name(),
    {
        self.table.as_str()
    }

    /// Number of pages.
    pub fn page_count(&self) -> (r: usize)
        ensures
            r == self.pages().len(),
    {
        self.heap.len()
    }

    /// Page `k`, to be written at its offset in the file.
    pub fn page(&self, k: usize) -> (r: &HeapBlock)
        requires
            k < self.pages().len(),
        ensures
            *r == self.pages()[k as int],
    {
        &self.heap[k]
    }
}

/// Iterator over the rows of a heap file, page after page.
pub struct HeapFileIterator {
    block: usize,
    n: usize,
    heap: Vec<HeapBlock>,
}

impl HeapFileIterator {
    pub closed spec fn wf(&self) -> bool {
        &&& self.block <= self.heap@.len()
        &&& forall|k: int| 0 <= k < self.heap@.len() ==> #[trigger] self.heap@[k].wf()
        &&& self.block < self.heap@.len() ==> self.n <= self.heap@[self.block as int].rows().len()
        &&& self.block == self.heap@.len() ==> self.n == 0
    }

    /// The rows not yet returned, in order.
    pub closed spec fn remaining(&self) -> Seq<Seq<Seq<char>>> {
        all_rows(self.heap@).skip(all_rows(self.heap@.take(self.block as int)).len() + self.n)
    }

    /// The next row, or `None` once every row has been returned.
    pub fn next(&mut self) -> (r: Option<Vec<String>>)
        requires
            old(self).wf(),
        ensures
            final(self).wf(),
            r is Some <==> old(self).remaining().len() > 0,
            r matches Some(row) ==> row_model(row@) == old(self).remaining()[0]
                && final(self).remaining() == old(self).remaining().drop_first(),
            r is None ==> final(self).remaining() == old(self).remaining(),
    {
        let ghost pages = self.heap@;
        let ghost start = self.remaining();
        while self.block < self.heap.len()
            invariant
                self.wf(),
                self.heap@ == pages,
                self.remaining() == start,
                start == old(self).remaining(),
            decreases pages.len() - self.block,
        {
            let b = self.block;
            assert(pages[b as int].wf());
            proof {
                pages[b as int].lemma_wf();
                lemma_all_rows_take_next(pages, b as int);
                lemma_all_rows_split(pages, b + 1);
            }
            let r = self.heap[b].get(self.n);
            match r {
                Some(row) => {
                    proof {
                        let a = all_rows(pages.take(b as int));
                        let pr = pages[b as int].rows();
                        assert(all_rows(pages.take(b + 1)) == a + pr);
                        assert(all_rows(pages)[a.len() + self.n] == (a + pr)[a.len() + self.n]);
                        assert(all_rows(pages).len() >= a.len() + pr.len());
                        assert(start.len() > 0);
                        assert(start[0] == all_rows(pages)[a.len() + self.n]);
                        assert(start[0] == pr[self.n as int]);
                    }
                    self.n = self.n + 1;
                    assert(self.remaining() =~= start.drop_first());
                    return Some(row);
                },
                None => {
                    self.block = b + 1;
                    self.n = 0;
                    assert(self.remaining() =~= start);
                },
            }
        }
        assert(pages.take(self.block as int) =~= pages);
        None
    }

    /// Takes every remaining row, in order.
    pub fn collect_rows(&mut self) -> (r: Vec<Vec<String>>)
        requires
            old(self).wf(),
        ensures
            final(self).wf(),
            r@.map_values(|row: Vec<String>| row_model(row@)) == old(self).remaining(),
            final(self).remaining().len() == 0,
    {
        let mut out: Vec<Vec<String>> = Vec::new();
        let ghost start = self.remaining();
        loop
            invariant
                self.wf(),
                start == old(self).remaining(),
                start == out@.map_values(|row: Vec<String>| row_model(row@)) + self.remaining(),
            decreases self.remaining().len(),
        {
            let ghost before = self.remaining();
            let ghost done = out@.map_values(|row: Vec<String>| row_model(row@));
            match self.next() {
                Some(row) => {
                    out.push(row);
                    assert(out@.map_values(|row: Vec<String>| row_model(row@)) =~= done.push(
                        before[0],
                    ));
                    assert(done + before =~= done.push(before[0]) + before.drop_first());
                },
                None => {
                    assert(start =~= out@.map_values(|row: Vec<String>| row_model(row@)));
                    return out;
                },
            }
        }
    }
}

/// Iterator over the rows of one page, in slot order.
pub struct HeapBlockIterator {
    n: usize,
    heap: HeapBlock,
}

impl HeapBlock {
    /// Iterates over the rows of the page, in slot order.
    pub fn into_iter(self) -> (it: HeapBlockIterator)
        requires
            self.wf(),
        ensures
            it.wf(),
            it.remaining() == self.rows(),
    {
        let it = HeapBlockIterator { n: 0, heap: self };
        assert(it.heap.rows().skip(0) =~= it.heap.rows());
        it
    }
}

impl HeapBlockIterator {
    pub closed spec fn wf(&self) -> bool {
        self.heap.wf() && self.n <= self.heap.rows().len()
    }

    /// The rows not yet returned, in order.
    pub closed spec fn remaining(&self) -> Seq<Seq<Seq<char>>> {
        self.heap.rows().skip(self.n as int)
    }

    /// The next row, or `None` once every row of the page has been returned.
    pub fn next(&mut self) -> (r: Option<Vec<String>>)
        requires
            old(self).wf(),
        ensures
            final(self).wf(),
            r is Some <==> old(self).remaining().len() > 0,
            r matches Some(row) ==> row_model(row@) == old(self).remaining()[0]
                && final(self).remaining() == old(self).remaining().drop_first(),
            r is None ==> final(self).remaining() == old(self).remaining(),
    {
        proof {
            self.heap.lemma_wf();
        }
        let r = self.heap.get(self.n);
        if r.is_some() {
            self.n = self.n + 1;
            assert(self.remaining() =~= old(self).remaining().drop_first());
        }
        r
    }
}

} // verus!
