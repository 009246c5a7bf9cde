//! The query operators: schema resolution, selection and projection.
use vstd::prelude::*;

use crate::codec::{row_model, rows_model};
use crate::text::{all_text, line_fields, parse_fields, split_on, COMMA};

verus! {

/// Errors of query assembly and execution.
#[derive(Debug, PartialEq, Eq)]
pub enum QueryError {
    /// An operator names a field that the table's schema lacks.
    UnknownField { field: String, table: String },
    /// The query has no table to scan, or a malformed clause.
    BadQuery,
    /// Source text is not valid UTF-8.
    NotText,
}

/// `e` reports that `field` is missing from `table`.
pub open spec fn is_unknown_field(e: QueryError, field: Seq<char>, table: Seq<char>) -> bool {
    e matches QueryError::UnknownField { field: f, table: t } && f@ == field && t@ == table
}

/// `i` is the first position of `name` in `names`.
pub open spec fn is_first_position(names: Seq<Seq<char>>, name: Seq<char>, i: int) -> bool {
    &&& 0 <= i < names.len()
    &&& names[i] == name
    &&& forall|j: int| 0 <= j < i ==> names[j] != name
}

/// The first position of `name` in `names`, if any.
pub open spec fn position_of(names: Seq<Seq<char>>, name: Seq<char>) -> Option<int> {
    if exists|i: int| is_first_position(names, name, i) {
        Some(choose|i: int| is_first_position(names, name, i))
    } else {
        None
    }
}

proof fn lemma_position_found(names: Seq<Seq<char>>, name: Seq<char>, i: int)
    requires
        is_first_position(names, name, i),
    ensures
        position_of(names, name) == Some(i),
{
    let c = choose|c: int| is_first_position(names, name, c);
    assert(is_first_position(names, name, c));
    if c < i {
        assert(names[c] != name);
    } else if c > i {
        assert(names[i] != name);
    }
}

proof fn lemma_position_missing(names: Seq<Seq<char>>, name: Seq<char>)
    requires
        forall|j: int| 0 <= j < names.len() ==> names[j] != name,
    ensures
        position_of(names, name) is None,
{
}

/// The ordered field names of a table.
pub struct Schema {
    table: String,
    fields: Vec<String>,
}

impl Schema {
    pub closed spec fn table_name(&self) -> Seq<char> {
        self.table@
    }

    pub closed spec fn names(&self) -> Seq<Seq<char>> {
        row_model(self.fields@)
    }

    /// The schema of `table` from its header line: field names separated by
    /// commas. `None` when a name is not valid UTF-8.
    pub fn new(table: &str, header: &[u8]) -> (r: Option<Schema>)
        ensures
            r is Some <==> all_text(split_on(header@, COMMA)),
            r matches Some(s) ==> s.names() == line_fields(header@, false) && s.table_name()
                == table@,
    {
        match parse_fields(header, false) {
            Some(fields) => Some(Schema { table: table.to_owned(), fields }),
            None => None,
        }
    }

    pub fn table(&self) -> (r: &str)
        ensures
            r@ == self.table_name(),
    {
        self.table.as_str()
    }

    pub fn fields(&self) -> (r: &Vec<String>)
        ensures
            row_model(r@) == self.names(),
    {
        &self.fields
    }

    /// Column index of the field called `name`.
    pub fn position(&self, name: &String) -> (r: Option<usize>)
        ensures
            r matches Some(i) ==> position_of(self.names(), name@) == Some(i as int),
            r is None ==> position_of(self.names(), name@) is None,
    {
        let mut i: usize = 0;
        while i < self.fields.len()
            invariant
                i <= self.fields@.len(),
                forall|j: int| 0 <= j < i ==> self.names()[j] != name@,
            decreases self.fields@.len() - i,
        {
            if self.fields[i] == *name {
                proof {
                    lemma_position_found(self.names(), name@, i as int);
                }
                return Some(i);
            }
            i += 1;
        }
        proof {
            lemma_position_missing(self.names(), name@);
        }
        None
    }

    /// The error for a field missing from this schema.
    fn unknown(&self, field: &String) -> (e: QueryError)
        ensures
            is_unknown_field(e, field@, self.table_name()),
    {
        QueryError::UnknownField { field: field.clone(), table: self.table.clone() }
    }
}

/// The columns of `row` whose index is in `cols`, in row order.
pub open spec fn keep_columns(row: Seq<Seq<char>>, cols: Seq<usize>) -> Seq<Seq<char>>
    decreases row.len(),
{
    if row.len() == 0 {
        seq![]
    } else {
        keep_columns(row.drop_last(), cols) + if cols.contains((row.len() - 1) as usize) {
            seq![row.last()]
        } else {
            seq![]
        }
    }
}

/// A projection keeps every column when its list of names is empty.
pub open spec fn projected(row: Seq<Seq<char>>, keep_all: bool, cols: Seq<usize>) -> Seq<Seq<char>> {
    if keep_all {
        row
    } else {
        keep_columns(row, cols)
    }
}

fn contains_index(v: &Vec<usize>, i: usize) -> (r: bool)
    ensures
        r == v@.contains(i),
{
    let mut k: usize = 0;
    while k < v.len()
        invariant
            k <= v@.len(),
            forall|j: int| 0 <= j < k ==> v@[j] != i,
        decreases v@.len() - k,
    {
        if v[k] == i {
            return true;
        }
        k += 1;
    }
    false
}

/// Keeps the columns named by a projection list, in schema order.
pub struct Projector {
    projection: Vec<String>,
    idxs: Vec<usize>,
}

impl Projector {
    pub closed spec fn names(&self) -> Seq<Seq<char>> {
        row_model(self.projection@)
    }

    pub closed spec fn columns(&self) -> Seq<usize> {
        self.idxs@
    }

    /// Resolves each projected name against `schema`; fails with
    /// `UnknownField` on the first name the schema lacks.
    pub fn new(projection: Vec<String>, schema: &Schema) -> (r: Result<Projector, QueryError>)
        ensures
            r is Ok <==> forall|k: int|
                0 <= k < projection@.len() ==> #[trigger] position_of(schema.names(), projection@[k]@) is Some,
            r matches Ok(p) ==> {
                &&& p.names() == row_model(projection@)
                &&& p.columns().len() == projection@.len()
                &&& forall|k: int|
                    0 <= k < projection@.len() ==> position_of(schema.names(), projection@[k]@)
                        == Some(#[trigger] p.columns()[k] as int)
            },
            r matches Err(e) ==> exists|k: int|
                0 <= k < projection@.len() && #[trigger] position_of(schema.names(), projection@[k]@)
                    is None && is_unknown_field(e, projection@[k]@, schema.table_name()),
    {
        let mut idxs: Vec<usize> = Vec::new();
        let mut k: usize = 0;
        while k < projection.len()
            invariant
                k <= projection@.len(),
                idxs@.len() == k,
                forall|j: int|
                    0 <= j < k ==> position_of(schema.names(), projection@[j]@) == Some(
                        #[trigger] idxs@[j] as int,
                    ),
            decreases projection@.len() - k,
        {
            match schema.position(&projection[k]) {
                Some(i) => {
                    idxs.push(i);
                },
                None => {
                    let e = schema.unknown(&projection[k]);
                    return Err(e);
                },
            }
            k += 1;
        }
        assert forall|j: int| 0 <= j < projection@.len() implies #[trigger] position_of(
            schema.names(),
            projection@[j]@,
        ) is Some by {
            assert(position_of(schema.names(), projection@[j]@) == Some(idxs@[j] as int));
        }
        Ok(Projector { projection, idxs })
    }

    /// The projected columns of one row.
    pub fn project(&self, row: &Vec<String>) -> (r: Vec<String>)
        ensures
            row_model(r@) == projected(row_model(row@), self.names().len() == 0, self.columns()),
    {
        let ghost m = row_model(row@);
        if self.projection.len() == 0 {
            return row.clone();
        }
        let mut out: Vec<String> = Vec::new();
        let mut i: usize = 0;
        assert(m.take(0) =~= Seq::<Seq<char>>::empty());
        while i < row.len()
            invariant
                i <= row@.len(),
                m == row_model(row@),
                row_model(out@) == keep_columns(m.take(i as int), self.idxs@),
            decreases row@.len() - i,
        {
            let ghost t = m.take(i + 1);
            assert(t.drop_last() =~= m.take(i as int));
            if contains_index(&self.idxs, i) {
                out.push(row[i].clone());
                assert(row_model(out@) =~= keep_columns(t, self.idxs@));
            } else {
                assert(row_model(out@) =~= keep_columns(t, self.idxs@));
            }
            i += 1;
        }
        assert(m.take(i as int) =~= m);
        out
    }

    /// The projection of the row pulled from the source; `None` once the
    /// source is exhausted.
    pub fn next(&self, pulled: Option<Vec<String>>) -> (r: Option<Vec<String>>)
        ensures
            pulled is None ==> r is None,
            pulled matches Some(row) ==> (r matches Some(out) && row_model(out@) == projected(
                row_model(row@),
                self.names().len() == 0,
                self.columns(),
            )),
    {
        match pulled {
            Some(row) => Some(self.project(&row)),
            None => None,
        }
    }

    /// The projection of each row, row order kept.
    pub fn project_rows(&self, rows: &Vec<Vec<String>>) -> (r: Vec<Vec<String>>)
        ensures
            r@.len() == rows@.len(),
            forall|i: int|
                0 <= i < rows@.len() ==> row_model(#[trigger] r@[i]@) == projected(
                    row_model(rows@[i]@),
                    self.names().len() == 0,
                    self.columns(),
                ),
    {
        let mut out: Vec<Vec<String>> = Vec::new();
        let mut i: usize = 0;
        while i < rows.len()
            invariant
                i <= rows@.len(),
                out@.len() == i,
                forall|j: int|
                    0 <= j < i ==> row_model(#[trigger] out@[j]@) == projected(
                        row_model(rows@[j]@),
                        self.names().len() == 0,
                        self.columns(),
                    ),
            decreases rows@.len() - i,
        {
            let p = self.project(&rows[i]);
            out.push(p);
            i += 1;
        }
        out
    }
}

/// The one selection operator: `EQUALS`.
pub open spec fn equals_op() -> Seq<char> {
    seq!['E', 'Q', 'U', 'A', 'L', 'S']
}

/// The field at `idx` of `row` equals `lit`.
pub open spec fn row_matches(row: Seq<Seq<char>>, idx: int, lit: Seq<char>) -> bool {
    0 <= idx < row.len() && row[idx] == lit
}

/// The rows that a selection keeps, in their order; none when the operator
/// is not supported.
pub open spec fn selected(rows: Seq<Seq<Seq<char>>>, idx: int, supported: bool, lit: Seq<char>) -> Seq<
    Seq<Seq<char>>,
>
    decreases rows.len(),
{
    if rows.len() == 0 {
        seq![]
    } else {
        selected(rows.drop_last(), idx, supported, lit) + if supported && row_matches(
            rows.last(),
            idx,
            lit,
        ) {
            seq![rows.last()]
        } else {
            seq![]
        }
    }
}

/// A selection is the filter of its rows by the predicate.
pub proof fn lemma_selected_is_filter(
    rows: Seq<Seq<Seq<char>>>,
    idx: int,
    supported: bool,
    lit: Seq<char>,
)
    ensures
        selected(rows, idx, supported, lit) == rows.filter(
            |r: Seq<Seq<char>>| supported && row_matches(r, idx, lit),
        ),
    decreases rows.len(),
{
    reveal(Seq::filter);
    if rows.len() > 0 {
        lemma_selected_is_filter(rows.drop_last(), idx, supported, lit);
        let pred = |r: Seq<Seq<char>>| supported && row_matches(r, idx, lit);
        let sub = rows.drop_last().filter(pred);
        assert(rows.filter(pred) == if pred(rows.last()) {
            sub.push(rows.last())
        } else {
            sub
        });
        assert(sub + seq![rows.last()] =~= sub.push(rows.last()));
        assert(sub + Seq::<Seq<Seq<char>>>::empty() =~= sub);
    }
}

/// `sub` is made of elements of `full`, taken in increasing positions.
pub open spec fn is_ordered_subsequence<T>(sub: Seq<T>, full: Seq<T>) -> bool {
    exists|pos: Seq<int>|
        {
            &&& pos.len() == sub.len()
            &&& forall|k: int| 0 <= k < pos.len() ==> 0 <= #[trigger] pos[k] < full.len()
            &&& forall|k: int| 0 <= k < pos.len() ==> sub[k] == full[#[trigger] pos[k]]
            &&& forall|k: int, l: int| 0 <= k < l < pos.len() ==> #[trigger] pos[k] < #[trigger] pos[l]
        }
}

/// Positions in `rows` of the rows that a selection keeps.
pub open spec fn selected_positions(
    rows: Seq<Seq<Seq<char>>>,
    idx: int,
    supported: bool,
    lit: Seq<char>,
) -> Seq<int>
    decreases rows.len(),
{
    if rows.len() == 0 {
        seq![]
    } else {
        selected_positions(rows.drop_last(), idx, supported, lit) + if supported && row_matches(
            rows.last(),
            idx,
            lit,
        ) {
            seq![rows.len() - 1]
        } else {
            seq![]
        }
    }
}

proof fn lemma_selected_positions(
    rows: Seq<Seq<Seq<char>>>,
    idx: int,
    supported: bool,
    lit: Seq<char>,
)
    ensures
        ({
            let pos = selected_positions(rows, idx, supported, lit);
            let sub = selected(rows, idx, supported, lit);
            &&& pos.len() == sub.len()
            &&& forall|k: int| 0 <= k < pos.len() ==> 0 <= #[trigger] pos[k] < rows.len()
            &&& forall|k: int| 0 <= k < pos.len() ==> sub[k] == rows[#[trigger] pos[k]]
            &&& forall|k: int, l: int| 0 <= k < l < pos.len() ==> #[trigger] pos[k] < #[trigger] pos[l]
        }),
    decreases rows.len(),
{
    if rows.len() > 0 {
        let init = rows.drop_last();
        lemma_selected_positions(init, idx, supported, lit);
        let pos = selected_positions(rows, idx, supported, lit);
        let p0 = selected_positions(init, idx, supported, lit);
        assert forall|k: int| 0 <= k < p0.len() implies pos[k] == p0[k] && rows[p0[k]] == init[p0[k]] by {
        }
    }
}

/// Selection keeps the relative order of the rows it passes on.
pub proof fn lemma_selection_keeps_order(
    rows: Seq<Seq<Seq<char>>>,
    idx: int,
    supported: bool,
    lit: Seq<char>,
)
    ensures
        is_ordered_subsequence(selected(rows, idx, supported, lit), rows),
{
    lemma_selected_positions(rows, idx, supported, lit);
    let pos = selected_positions(rows, idx, supported, lit);
    assert(pos.len() == selected(rows, idx, supported, lit).len());
}

/// A selection whose operator is not supported passes on no row.
pub proof fn lemma_unsupported_selects_nothing(rows: Seq<Seq<Seq<char>>>, idx: int, lit: Seq<char>)
    ensures
        selected(rows, idx, false, lit).len() == 0,
    decreases rows.len(),
{
    if rows.len() > 0 {
        lemma_unsupported_selects_nothing(rows.drop_last(), idx, lit);
    }
}

/// Keeps the rows whose field equals a literal.
pub struct Selector {
    selection: Vec<String>,
    idx: usize,
    ran: bool,
}

impl Selector {
    /// Column index of the tested field.
    pub closed spec fn field_index(&self) -> int {
        self.idx as int
    }

    pub closed spec fn op(&self) -> Seq<char> {
        self.selection@[1]@
    }

    pub closed spec fn literal(&self) -> Seq<char> {
        self.selection@[2]@
    }

    pub closed spec fn wf(&self) -> bool {
        self.selection@.len() == 3
    }

    /// The selection has already handed out its batch.
    pub closed spec fn done(&self) -> bool {
        self.ran
    }

    pub open spec fn supported(&self) -> bool {
        self.op() == equals_op()
    }

    /// Takes the predicate `[field, operator, literal]`; fails with `BadQuery`
    /// unless it has three parts, and with `UnknownField` when `schema` lacks
    /// the field.
    pub fn new(selection: Vec<String>, schema: &Schema) -> (r: Result<Selector, QueryError>)
        ensures
            selection@.len() != 3 ==> r == Err::<Selector, QueryError>(QueryError::BadQuery),
            selection@.len() == 3 && position_of(schema.names(), selection@[0]@) is None ==> (r matches Err(
                e,
            ) && is_unknown_field(e, selection@[0]@, schema.table_name())),
            selection@.len() == 3 && position_of(schema.names(), selection@[0]@) is Some ==> (r matches Ok(
                s,
            ) && s.wf() && !s.done() && s.field_index() == position_of(schema.names(), selection@[0]@)->Some_0 && s.op()
                == selection@[1]@ && s.literal() == selection@[2]@),
    {
        if selection.len() != 3 {
            return Err(QueryError::BadQuery);
        }
        match schema.position(&selection[0]) {
            Some(idx) => Ok(Selector { selection, idx, ran: false }),
            None => Err(schema.unknown(&selection[0])),
        }
    }

    /// Whether the operator is `EQUALS`; any other matches no row.
    pub fn is_supported(&self) -> (r: bool)
        requires
            self.wf(),
        ensures
            r == self.supported(),
    {
        let equals = "EQUALS".to_owned();
        proof {
            reveal_strlit("EQUALS");
            assert(equals@ =~= equals_op());
        }
        self.selection[1] == equals
    }

    /// The first call takes the whole input and returns, as one batch, the
    /// rows that satisfy the predicate, in their order; later calls return `None`.
    pub fn next(&mut self, source: &Vec<Vec<String>>) -> (r: Option<Vec<Vec<String>>>)
        requires
            old(self).wf(),
        ensures
            final(self).wf(),
            final(self).done(),
            final(self).field_index() == old(self).field_index(),
            final(self).op() == old(self).op(),
            final(self).literal() == old(self).literal(),
            old(self).done() ==> r is None,
            !old(self).done() ==> (r matches Some(out) && rows_model(out@) == selected(
                rows_model(source@),
                old(self).field_index(),
                old(self).supported(),
                old(self).literal(),
            ) && (!old(self).supported() ==> out@.len() == 0)),
    {
        if self.ran {
            return None;
        }
        self.ran = true;
        Some(self.select(source))
    }

    /// The rows that satisfy the predicate, in their order.
    pub fn select(&self, rows: &Vec<Vec<String>>) -> (r: Vec<Vec<String>>)
        requires
            self.wf(),
        ensures
            rows_model(r@) == selected(rows_model(rows@), self.field_index(), self.supported(), self.literal()),
            !self.supported() ==> r@.len() == 0,
    {
        let ghost m = rows_model(rows@);
        let supported = self.is_supported();
        let mut out: Vec<Vec<String>> = Vec::new();
        let mut i: usize = 0;
        assert(m.take(0) =~= Seq::<Seq<Seq<char>>>::empty());
        while i < rows.len()
            invariant
                i <= rows@.len(),
                m == rows_model(rows@),
                supported == self.supported(),
                self.wf(),
                rows_model(out@) == selected(m.take(i as int), self.field_index(), supported, self.literal()),
            decreases rows@.len() - i,
        {
            let ghost t = m.take(i + 1);
            assert(t.drop_last() =~= m.take(i as int));
            assert(t.last() == row_model(rows@[i as int]@));
            let row = &rows[i];
            if supported && self.idx < row.len() && row[self.idx] == self.selection[2] {
                out.push(row.clone());
                assert(rows_model(out@) =~= selected(t, self.field_index(), supported, self.literal()));
            } else {
                assert(rows_model(out@) =~= selected(t, self.field_index(), supported, self.literal()));
            }
            i += 1;
        }
        assert(m.take(i as int) =~= m);
        proof {
            if !supported {
                lemma_unsupported_selects_nothing(m, self.field_index(), self.literal());
            }
        }
        out
    }
}

} // verus!
