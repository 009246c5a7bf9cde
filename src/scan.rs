//! Scanning a comma-separated table source, line by line.
use vstd::prelude::*;

use crate::codec::row_model;
use crate::query::QueryError;
use crate::text::{all_text, line_fields, parse_fields, split_on, COMMA};

verus! {

/// The state of a scan over a table source: the table's name and the byte
/// offset just past the last line read.
pub struct FileScan {
    offset: usize,
    table: String,
}

impl FileScan {
    pub closed spec fn pos(&self) -> int {
        self.offset as int
    }

    pub closed spec fn table_name(&self) -> Seq<char> {
        self.table@
    }

    /// A scan of `table` whose header line took `header_len` bytes.
    pub fn new(table: &str, header_len: usize) -> (s: FileScan)
        ensures
            s.pos() == header_len,
            s.table_name() == table@,
    {
        FileScan { offset: header_len, table: table.to_owned() }
    }

    /// Byte offset just past the last line read.
    pub fn offset(&self) -> (r: usize)
        ensures
            r == self.pos(),
    {
        self.offset
    }

    pub fn table(&self) -> (r: &str)
        ensures
            r@ == self.table_name(),
    {
        self.table.as_str()
    }

    /// Takes the next raw line of the source, with its line end; an empty
    /// line means the source is exhausted. The row's fields are trimmed.
    pub fn next(&mut self, raw: &[u8]) -> (r: Result<Option<Vec<String>>, QueryError>)
        requires
            old(self).pos() + raw@.len() <= usize::MAX,
        ensures
            final(self).table_name() == old(self).table_name(),
            final(self).pos() == old(self).pos() + raw@.len(),
            raw@.len() == 0 ==> r == Ok::<Option<Vec<String>>, QueryError>(None),
            raw@.len() > 0 && all_text(split_on(raw@, COMMA)) ==> (r matches Ok(Some(row))
                && row_model(row@) == line_fields(raw@, true)),
            raw@.len() > 0 && !all_text(split_on(raw@, COMMA)) ==> r == Err::<
                Option<Vec<String>>,
                QueryError,
            >(QueryError::NotText),
    {
        if raw.len() == 0 {
            return Ok(None);
        }
        self.offset = self.offset + raw.len();
        match parse_fields(raw, true) {
            Some(row) => Ok(Some(row)),
            None => Err(QueryError::NotText),
        }
    }
}

/// Total length of a list of raw lines.
pub open spec fn total_len(lines: Seq<Seq<u8>>) -> int
    decreases lines.len(),
{
    if lines.len() == 0 {
        0
    } else {
        total_len(lines.drop_last()) + lines.last().len()
    }
}

pub open spec fn lines_model(lines: Seq<Vec<u8>>) -> Seq<Seq<u8>> {
    lines.map_values(|l: Vec<u8>| l@)
}

proof fn lemma_total_len_prefix(lines: Seq<Seq<u8>>, i: int)
    requires
        0 <= i <= lines.len(),
    ensures
        0 <= total_len(lines.take(i)) <= total_len(lines),
    decreases lines.len(),
{
    if i < lines.len() {
        lemma_total_len_prefix(lines.drop_last(), i);
        assert(lines.drop_last().take(i) =~= lines.take(i));
    } else {
        assert(lines.take(i) =~= lines);
        if lines.len() > 0 {
            lemma_total_len_prefix(lines.drop_last(), i - 1);
            assert(lines.drop_last().take(i - 1) =~= lines.drop_last());
        }
    }
}

impl FileScan {
    /// Reads the raw lines that follow the last line read, with their line
    /// ends: each row comes with the byte offset where its line starts.
    pub fn rows_with_offsets(&mut self, lines: &Vec<Vec<u8>>) -> (r: Result<
        Vec<(Vec<String>, usize)>,
        QueryError,
    >)
        requires
            old(self).pos() + total_len(lines_model(lines@)) <= usize::MAX,
        ensures
            final(self).table_name() == old(self).table_name(),
            r is Ok <==> forall|i: int|
                0 <= i < lines@.len() ==> #[trigger] all_text(split_on(lines@[i]@, COMMA)),
            r matches Ok(out) ==> {
                &&& out@.len() == lines@.len()
                &&& forall|i: int|
                    0 <= i < lines@.len() ==> row_model(#[trigger] out@[i].0@) == line_fields(
                        lines@[i]@,
                        true,
                    ) && out@[i].1 == old(self).pos() + total_len(lines_model(lines@).take(i))
                &&& final(self).pos() == old(self).pos() + total_len(lines_model(lines@))
            },
            r matches Err(e) ==> e == QueryError::NotText,
    {
        let ghost lm = lines_model(lines@);
        let ghost start = self.offset as int;
        let mut out: Vec<(Vec<String>, usize)> = Vec::new();
        let mut i: usize = 0;
        assert(lm.take(0) =~= Seq::<Seq<u8>>::empty());
        while i < lines.len()
            invariant
                i <= lines@.len(),
                lm == lines_model(lines@),
                start == old(self).pos(),
                start + total_len(lm) <= usize::MAX,
                self.table@ == old(self).table@,
                self.offset == start + total_len(lm.take(i as int)),
                out@.len() == i,
                forall|j: int| 0 <= j < i ==> #[trigger] all_text(split_on(lines@[j]@, COMMA)),
                forall|j: int|
                    0 <= j < i ==> row_model(#[trigger] out@[j].0@) == line_fields(lines@[j]@, true)
                        && out@[j].1 == start + total_len(lm.take(j)),
            decreases lines@.len() - i,
        {
            proof {
                assert(lm.take(i + 1).drop_last() =~= lm.take(i as int));
                lemma_total_len_prefix(lm, i + 1);
            }
            let at = self.offset;
            match parse_row(lines[i].as_slice()) {
                Ok(row) => {
                    out.push((row, at));
                },
                Err(e) => {
                    return Err(e);
                },
            }
            self.offset = self.offset + lines[i].len();
            i += 1;
        }
        assert(lm.take(i as int) =~= lm);
        Ok(out)
    }
}

/// The row of a raw source line, its fields trimmed; `NotText` when a field
/// is not valid UTF-8.
pub fn parse_row(raw: &[u8]) -> (r: Result<Vec<String>, QueryError>)
    ensures
        all_text(split_on(raw@, COMMA)) ==> (r matches Ok(row) && row_model(row@) == line_fields(
            raw@,
            true,
        )),
        !all_text(split_on(raw@, COMMA)) ==> r == Err::<Vec<String>, QueryError>(QueryError::NotText),
{
    match parse_fields(raw, true) {
        Some(row) => Ok(row),
        None => Err(QueryError::NotText),
    }
}

} // verus!
