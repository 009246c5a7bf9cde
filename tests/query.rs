use db::index::IndexBuilder;
use db::plan::{execute, Query};
use db::query::{Projector, QueryError, Schema, Selector};
use db::scan::{parse_row, FileScan};

fn row(fields: &[&str]) -> Vec<String> {
    fields.iter().map(|f| f.to_string()).collect()
}

fn schema() -> Schema {
    Schema::new("movies", b"movieId,title,genres").unwrap()
}

fn movies() -> Vec<Vec<String>> {
    vec![
        row(&["1", "Toy Story", "Comedy"]),
        row(&["2", "Heat", "Crime"]),
        row(&["3", "Toy Story", "Drama"]),
    ]
}

fn clause(kind: &str, args: &[&str]) -> (Option<String>, Option<Vec<String>>) {
    (Some(kind.to_string()), Some(row(args)))
}

#[test]
fn schema_from_header() {
    let s = schema();
    assert_eq!(s.fields(), &row(&["movieId", "title", "genres"]));
    assert_eq!(s.table(), "movies");
    assert_eq!(s.position(&"genres".to_string()), Some(2));
    assert_eq!(s.position(&"year".to_string()), None);
    assert!(Schema::new("t", &[0xff]).is_none());
}

#[test]
fn query_end_to_end() {
    let q = Query::from(&vec![
        clause("SCAN", &["movies"]),
        clause("SELECTION", &["title", "EQUALS", "Toy Story"]),
        clause("PROJECTION", &["movieId", "genres"]),
    ]).unwrap();
    assert_eq!(q.scan_table(), Ok("movies".to_string()));
    assert!(q.selection_supported());
    let out = execute(&q, &schema(), movies()).unwrap();
    assert_eq!(out, vec![row(&["1", "Comedy"]), row(&["3", "Drama"])]);
}

#[test]
fn projection_keeps_schema_order() {
    let q = Query::from(&vec![clause("SCAN", &["movies"]), clause("PROJECTION", &["genres", "movieId"])]).unwrap();
    let out = execute(&q, &schema(), movies()).unwrap();
    assert_eq!(
        out,
        vec![row(&["1", "Comedy"]), row(&["2", "Crime"]), row(&["3", "Drama"])]
    );
}

#[test]
fn unknown_projected_field() {
    let r = Projector::new(row(&["nonexistent"]), &schema());
    assert_eq!(
        r.err(),
        Some(QueryError::UnknownField {
            field: "nonexistent".to_string(),
            table: "movies".to_string()
        })
    );
    let q = Query::from(&vec![clause("SCAN", &["movies"]), clause("PROJECTION", &["nonexistent"])]).unwrap();
    assert!(matches!(
        execute(&q, &schema(), movies()),
        Err(QueryError::UnknownField { .. })
    ));
}

#[test]
fn unknown_selected_field() {
    let r = Selector::new(row(&["year", "EQUALS", "1995"]), &schema());
    assert_eq!(
        r.err(),
        Some(QueryError::UnknownField { field: "year".to_string(), table: "movies".to_string() })
    );
}

#[test]
fn unsupported_operator_selects_nothing() {
    let s = Selector::new(row(&["title", "LESS", "Toy Story"]), &schema()).unwrap();
    assert!(!s.is_supported());
    assert_eq!(s.select(&movies()), Vec::<Vec<String>>::new());
    let q = Query::from(&vec![
        clause("SCAN", &["movies"]),
        clause("SELECTION", &["title", "LESS", "Toy Story"]),
    ]).unwrap();
    assert!(!q.selection_supported());
    assert_eq!(execute(&q, &schema(), movies()).unwrap().len(), 0);
}

#[test]
fn selection_and_projection_keep_order() {
    let rows = vec![
        row(&["5", "A", "x"]),
        row(&["1", "B", "x"]),
        row(&["4", "C", "y"]),
        row(&["2", "D", "x"]),
    ];
    let s = Selector::new(row(&["genres", "EQUALS", "x"]), &schema()).unwrap();
    let kept = s.select(&rows);
    assert_eq!(kept, vec![row(&["5", "A", "x"]), row(&["1", "B", "x"]), row(&["2", "D", "x"])]);
    let p = Projector::new(row(&["title"]), &schema()).unwrap();
    assert_eq!(p.project_rows(&kept), vec![row(&["A"]), row(&["B"]), row(&["D"])]);
}

#[test]
fn empty_projection_is_identity() {
    let p = Projector::new(vec![], &schema()).unwrap();
    assert_eq!(p.project(&row(&["1", "Heat", "Crime"])), row(&["1", "Heat", "Crime"]));
}

#[test]
fn missing_scan_is_bad_query() {
    let q = Query::from(&vec![clause("PROJECTION", &["title"])]).unwrap();
    assert_eq!(q.scan_table(), Err(QueryError::BadQuery));
    assert_eq!(execute(&q, &schema(), movies()), Err(QueryError::BadQuery));
    let q = Query::from(&vec![clause("SCAN", &["movies"]), clause("SELECTION", &["title", "EQUALS"])]).unwrap();
    assert_eq!(execute(&q, &schema(), movies()), Err(QueryError::BadQuery));
}

#[test]
fn later_clause_wins() {
    let q = Query::from(&vec![
        clause("SCAN", &["a"]),
        clause("OTHER", &["x"]),
        clause("SCAN", &["b", "c"]),
    ]).unwrap();
    assert_eq!(q.scan, Some(row(&["b", "c"])));
    assert_eq!(q.selection, None);
    assert_eq!(q.projection, None);
}

#[test]
fn parse_row_trims_fields() {
    assert_eq!(parse_row(b" 1 , Toy Story ,Comedy\n"), Ok(row(&["1", "Toy Story", "Comedy"])));
    assert_eq!(parse_row(b"a,,b"), Ok(row(&["a", "", "b"])));
    assert_eq!(parse_row(&[0x61, 0x2c, 0xff]), Err(QueryError::NotText));
}

#[test]
fn file_scan_tracks_offsets() {
    let mut scan = FileScan::new("movies", 21);
    assert_eq!(scan.offset(), 21);
    assert_eq!(scan.table(), "movies");
    assert_eq!(scan.next(b"1,Toy Story,Comedy\n"), Ok(Some(row(&["1", "Toy Story", "Comedy"]))));
    assert_eq!(scan.offset(), 40);
    assert_eq!(scan.next(b""), Ok(None));
    assert_eq!(scan.offset(), 40);
    assert_eq!(scan.next(&[0xff, b'\n']), Err(QueryError::NotText));
}

#[test]
fn index_keeps_last_offset() {
    let b = IndexBuilder::new("title", &schema()).unwrap();
    let entries = vec![
        (row(&["1", "Toy Story", "Comedy"]), 21),
        (row(&["2", "Heat", "Crime"]), 40),
        (row(&["3", "Toy Story", "Drama"]), 54),
    ];
    let index = b.build(&entries, "movies");
    assert_eq!(index.search("Toy Story"), Some(54));
    assert_eq!(index.search("Heat"), Some(40));
    assert_eq!(index.search("Alien"), None);
    assert_eq!(index.table(), "movies");
    assert!(matches!(
        IndexBuilder::new("year", &schema()),
        Err(QueryError::UnknownField { .. })
    ));
}

#[test]
fn malformed_clauses() {
    let bad = vec![clause("SCAN", &["movies"]), (Some("SELECTION".to_string()), None)];
    assert_eq!(Query::from(&bad).err(), Some(QueryError::BadQuery));
    let skipped = vec![
        (None, Some(row(&["x"]))),
        (Some("OTHER".to_string()), None),
        clause("SCAN", &["movies"]),
    ];
    let q = Query::from(&skipped).unwrap();
    assert_eq!(q.scan, Some(row(&["movies"])));
    assert_eq!(q.selection, None);
}

#[test]
fn rows_paired_with_line_starts() {
    let mut scan = FileScan::new("movies", 21);
    let lines = vec![b"1,Toy Story,Comedy\n".to_vec(), b"2,Heat,Crime\n".to_vec()];
    let out = scan.rows_with_offsets(&lines).unwrap();
    assert_eq!(
        out,
        vec![(row(&["1", "Toy Story", "Comedy"]), 21), (row(&["2", "Heat", "Crime"]), 40)]
    );
    assert_eq!(scan.offset(), 53);
    let bad = vec![b"a\n".to_vec(), vec![0xff]];
    assert_eq!(scan.rows_with_offsets(&bad), Err(QueryError::NotText));
}

#[test]
fn trim_removes_unicode_white_space() {
    assert_eq!(parse_row("\u{3000}a\u{a0},\tb c ".as_bytes()), Ok(row(&["a", "b c"])));
}

#[test]
fn pulled_projection_and_selection() {
    let p = Projector::new(row(&["genres"]), &schema()).unwrap();
    assert_eq!(p.next(Some(row(&["1", "Heat", "Crime"]))), Some(row(&["Crime"])));
    assert_eq!(p.next(None), None);
    let mut s = Selector::new(row(&["title", "EQUALS", "Toy Story"]), &schema()).unwrap();
    assert_eq!(
        s.next(&movies()),
        Some(vec![row(&["1", "Toy Story", "Comedy"]), row(&["3", "Toy Story", "Drama"])])
    );
    assert_eq!(s.next(&movies()), None);
    let mut u = Selector::new(row(&["title", "LIKE", "Toy Story"]), &schema()).unwrap();
    assert_eq!(u.next(&movies()), Some(vec![]));
    assert_eq!(u.next(&movies()), None);
}
