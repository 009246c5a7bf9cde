//! Query descriptions and their execution over the rows of one table.
use vstd::prelude::*;

use crate::codec::{row_model, rows_model};
use crate::query::{
    equals_op, is_unknown_field, position_of, projected, selected, Projector, QueryError, Schema,
    Selector,
};

verus! {

/// A clause as plain values: its kind and its arguments, each absent when
/// the description does not give it as text.
pub open spec fn clauses_model(c: Seq<(Option<String>, Option<Vec<String>>)>) -> Seq<
    (Option<Seq<char>>, Option<Seq<Seq<char>>>),
> {
    c.map_values(
        |cl: (Option<String>, Option<Vec<String>>)|
            (
                match cl.0 {
                    Some(k) => Some(k@),
                    None => None,
                },
                opt_model(cl.1),
            ),
    )
}

/// One of the kinds `SCAN`, `SELECTION` and `PROJECTION`.
pub open spec fn known_kind(k: Option<Seq<char>>) -> bool {
    k == Some(scan_kind()) || k == Some(selection_kind()) || k == Some(projection_kind())
}

/// Every clause of a known kind has a list of text arguments.
pub open spec fn clauses_ok(c: Seq<(Option<Seq<char>>, Option<Seq<Seq<char>>>)>) -> bool {
    forall|i: int| 0 <= i < c.len() && known_kind(#[trigger] c[i].0) ==> c[i].1 is Some
}

/// The arguments of the last clause of kind `kind`.
pub open spec fn last_args(c: Seq<(Option<Seq<char>>, Option<Seq<Seq<char>>>)>, kind: Seq<char>) -> Option<
    Seq<Seq<char>>,
>
    decreases c.len(),
{
    if c.len() == 0 {
        None
    } else if c.last().0 == Some(kind) {
        c.last().1
    } else {
        last_args(c.drop_last(), kind)
    }
}

pub open spec fn opt_model(o: Option<Vec<String>>) -> Option<Seq<Seq<char>>> {
    match o {
        Some(v) => Some(row_model(v@)),
        None => None,
    }
}

pub open spec fn scan_kind() -> Seq<char> {
    seq!['S', 'C', 'A', 'N']
}

pub open spec fn selection_kind() -> Seq<char> {
    seq!['S', 'E', 'L', 'E', 'C', 'T', 'I', 'O', 'N']
}

pub open spec fn projection_kind() -> Seq<char> {
    seq!['P', 'R', 'O', 'J', 'E', 'C', 'T', 'I', 'O', 'N']
}

/// A query: the tables to scan (only the first is used), an optional
/// selection predicate and an optional projection list.
pub struct Query {
    pub projection: Option<Vec<String>>,
    pub selection: Option<Vec<String>>,
    pub scan: Option<Vec<String>>,
}

/// The selection, if any, is a three-part predicate on a field of the schema.
pub open spec fn selection_ok(sel: Option<Vec<String>>, names: Seq<Seq<char>>) -> bool {
    match sel {
        None => true,
        Some(s) => s@.len() == 3 && position_of(names, s@[0]@) is Some,
    }
}

/// Every projected name, if any, is a field of the schema.
pub open spec fn projection_ok(proj: Option<Vec<String>>, names: Seq<Seq<char>>) -> bool {
    match proj {
        None => true,
        Some(p) => forall|k: int| 0 <= k < p@.len() ==> #[trigger] position_of(names, p@[k]@) is Some,
    }
}

/// Column indexes of the projected names.
pub open spec fn columns_of(names: Seq<Seq<char>>, p: Seq<Seq<char>>) -> Seq<usize> {
    p.map_values(|n: Seq<char>| position_of(names, n)->Some_0 as usize)
}

/// The rows after the selection, if any.
pub open spec fn after_selection(
    rows: Seq<Seq<Seq<char>>>,
    sel: Option<Vec<String>>,
    names: Seq<Seq<char>>,
) -> Seq<Seq<Seq<char>>> {
    match sel {
        None => rows,
        Some(s) => selected(rows, position_of(names, s@[0]@)->Some_0, s@[1]@ == equals_op(), s@[2]@),
    }
}

/// The rows after the projection, if any.
pub open spec fn after_projection(
    rows: Seq<Seq<Seq<char>>>,
    proj: Option<Vec<String>>,
    names: Seq<Seq<char>>,
) -> Seq<Seq<Seq<char>>> {
    match proj {
        None => rows,
        Some(p) => rows.map_values(
            |r: Seq<Seq<char>>| projected(r, p@.len() == 0, columns_of(names, row_model(p@))),
        ),
    }
}

/// The query names a table to scan.
pub open spec fn has_scan(q: &Query) -> bool {
    q.scan is Some && q.scan->Some_0@.len() > 0
}

impl Query {
    /// The query that a list of `[kind, args]` clauses describes; for each of
    /// `SCAN`, `SELECTION` and `PROJECTION` the last such clause counts, and
    /// clauses of other kinds are ignored. `BadQuery` when a clause of one of
    /// these kinds lacks a list of text arguments.
    pub fn from(clauses: &Vec<(Option<String>, Option<Vec<String>>)>) -> (r: Result<Query, QueryError>)
        ensures
            r is Ok <==> clauses_ok(clauses_model(clauses@)),
            r matches Ok(q) ==> {
                &&& opt_model(q.scan) == last_args(clauses_model(clauses@), scan_kind())
                &&& opt_model(q.selection) == last_args(clauses_model(clauses@), selection_kind())
                &&& opt_model(q.projection) == last_args(clauses_model(clauses@), projection_kind())
            },
            r matches Err(e) ==> e == QueryError::BadQuery,
    {
        let ghost cm = clauses_model(clauses@);
        let scan_s = "SCAN".to_owned();
        let selection_s = "SELECTION".to_owned();
        let projection_s = "PROJECTION".to_owned();
        proof {
            reveal_strlit("SCAN");
            reveal_strlit("SELECTION");
            reveal_strlit("PROJECTION");
            assert(scan_s@ =~= scan_kind());
            assert(selection_s@ =~= selection_kind());
            assert(projection_s@ =~= projection_kind());
        }
        let mut q = Query { projection: None, selection: None, scan: None };
        let mut i: usize = 0;
        while i < clauses.len()
            invariant
                i <= clauses@.len(),
                cm == clauses_model(clauses@),
                scan_s@ == scan_kind(),
                selection_s@ == selection_kind(),
                projection_s@ == projection_kind(),
                clauses_ok(cm.take(i as int)),
                opt_model(q.scan) == last_args(cm.take(i as int), scan_kind()),
                opt_model(q.selection) == last_args(cm.take(i as int), selection_kind()),
                opt_model(q.projection) == last_args(cm.take(i as int), projection_kind()),
            decreases clauses@.len() - i,
        {
            let ghost t = cm.take(i + 1);
            assert(t.drop_last() =~= cm.take(i as int));
            assert(t.last() == cm[i as int]);
            assert(forall|j: int| 0 <= j < i ==> t[j] == cm.take(i as int)[j]);
            if let Some(kind) = &clauses[i].0 {
                let known = *kind == scan_s || *kind == selection_s || *kind == projection_s;
                if known {
                    let args = match &clauses[i].1 {
                        Some(a) => a.clone(),
                        None => {
                            assert(!clauses_ok(cm)) by {
                                assert(known_kind(cm[i as int].0));
                            }
                            return Err(QueryError::BadQuery);
                        },
                    };
                    assert(row_model(args@) =~= cm[i as int].1->Some_0);
                    if *kind == scan_s {
                        q.scan = Some(args);
                    } else if *kind == selection_s {
                        q.selection = Some(args);
                    } else {
                        q.projection = Some(args);
                    }
                }
            }
            i += 1;
        }
        assert(cm.take(i as int) =~= cm);
        Ok(q)
    }

    /// The table to scan: the first name of the `SCAN` clause; `BadQuery`
    /// when there is none.
    pub fn scan_table(&self) -> (r: Result<String, QueryError>)
        ensures
            has_scan(self) <==> r is Ok,
            r matches Ok(t) ==> t@ == self.scan->Some_0@[0]@,
            r matches Err(e) ==> e == QueryError::BadQuery,
    {
        match &self.scan {
            Some(tables) => {
                if tables.len() == 0 {
                    Err(QueryError::BadQuery)
                } else {
                    Ok(tables[0].clone())
                }
            },
            None => Err(QueryError::BadQuery),
        }
    }

    /// False when the selection uses an operator other than `EQUALS`; such a
    /// selection matches no row.
    pub fn selection_supported(&self) -> (r: bool)
        ensures
            r == match self.selection {
                None => true,
                Some(s) => s@.len() == 3 && s@[1]@ == equals_op(),
            },
    {
        match &self.selection {
            None => true,
            Some(sel) => {
                if sel.len() != 3 {
                    false
                } else {
                    let equals = "EQUALS".to_owned();
                    proof {
                        reveal_strlit("EQUALS");
                        assert(equals@ =~= equals_op());
                    }
                    sel[1] == equals
                }
            },
        }
    }
}

/// Runs `query` over `rows`, the rows of its scan table in source order, whose
/// fields `schema` names: first the selection, then the projection.
pub fn execute(query: &Query, schema: &Schema, rows: Vec<Vec<String>>) -> (r: Result<
    Vec<Vec<String>>,
    QueryError,
>)
    ensures
        !has_scan(query) ==> r == Err::<Vec<Vec<String>>, QueryError>(QueryError::BadQuery),
        has_scan(query) && query.selection is Some && query.selection->Some_0@.len() != 3 ==> r
            == Err::<Vec<Vec<String>>, QueryError>(QueryError::BadQuery),
        has_scan(query) && query.selection is Some && query.selection->Some_0@.len() == 3
            && position_of(schema.names(), query.selection->Some_0@[0]@) is None ==> (r matches Err(
            e,
        ) && is_unknown_field(e, query.selection->Some_0@[0]@, schema.table_name())),
        has_scan(query) && selection_ok(query.selection, schema.names()) && !projection_ok(
            query.projection,
            schema.names(),
        ) ==> (r matches Err(e) && exists|k: int|
            0 <= k < query.projection->Some_0@.len() && #[trigger] position_of(
                schema.names(),
                query.projection->Some_0@[k]@,
            ) is None && is_unknown_field(e, query.projection->Some_0@[k]@, schema.table_name())),
        has_scan(query) && selection_ok(query.selection, schema.names()) && projection_ok(
            query.projection,
            schema.names(),
        ) ==> (r matches Ok(out) && rows_model(out@) == after_projection(
            after_selection(rows_model(rows@), query.selection, schema.names()),
            query.projection,
            schema.names(),
        )),
{
    if query.scan_table().is_err() {
        return Err(QueryError::BadQuery);
    }
    let chosen = match &query.selection {
        None => rows,
        Some(sel) => {
            let ghost sm = row_model(sel@);
            let args = sel.clone();
            assert(row_model(args@) =~= sm);
            let selector = match Selector::new(args, schema) {
                Ok(s) => s,
                Err(e) => {
                    return Err(e);
                },
            };
            selector.select(&rows)
        },
    };
    match &query.projection {
        None => Ok(chosen),
        Some(proj) => {
            let ghost pm = row_model(proj@);
            let args = proj.clone();
            assert(row_model(args@) =~= pm);
            let projector = match Projector::new(args, schema) {
                Ok(p) => p,
                Err(e) => {
                    return Err(e);
                },
            };
            let out = projector.project_rows(&chosen);
            proof {
                assert(projector.columns() =~= columns_of(schema.names(), pm));
                assert(rows_model(out@) =~= rows_model(chosen@).map_values(
                    |r: Seq<Seq<char>>| projected(r, proj@.len() == 0, columns_of(schema.names(), pm)),
                ));
            }
            Ok(out)
        },
    }
}

} // verus!
