use db::heap::HeapFile;
use db::page::{HeapBlock, HeapError};

fn row(fields: &[&str]) -> Vec<String> {
    fields.iter().map(|f| f.to_string()).collect()
}

fn drain(heap: HeapFile) -> Vec<Vec<String>> {
    let mut it = heap.into_iter();
    let mut out = vec![];
    while let Some(r) = it.next() {
        out.push(r);
    }
    out
}

fn toy_story() -> Vec<String> {
    row(&["1", "Toy Story (1995)", "Adventure|Animation|Children|Comedy|Fantasy"])
}

#[test]
fn test_heap_file_iterator() {
    let mut heap = HeapFile::create("test_it", 0);

    let movies = vec![
        row(&["1", "Toy Story (1995)", "Adventure|Animation|Children|Comedy|Fantasy"]),
        row(&["2", "Jumanji (1995)", "Adventure|Children|Fantasy"]),
        row(&["3", "Grumpier Old Men (1995)", "Comedy|Romance"]),
        row(&["4", "Waiting to Exhale (1995)", "Comedy|Drama|Romance"]),
        row(&["5", "Father of the Bride Part II (1995)", "Comedy"]),
    ];

    for movie in &movies {
        heap.insert(movie).unwrap();
    }

    assert_eq!(drain(heap), movies);
}

#[test]
fn fresh_page_header_and_zeros() {
    let heap = HeapFile::create("fresh", 0);
    let bytes = heap.page(0).bytes();
    assert_eq!(bytes.len(), 8192);
    assert_eq!(&bytes[..4], &[0x00, 0x04, 0x20, 0x00]);
    assert!(bytes[4..].iter().all(|b| *b == 0));
    assert_eq!(heap.ptr_lower(), 4);
    assert_eq!(heap.ptr_upper(), 8192);
    assert_eq!(heap.free_space(), 8188);
}

#[test]
fn reopen_after_create_keeps_pointers() {
    let created = HeapFile::create("movies", 0);
    let image = created.page(0).bytes().clone();
    let reopened = HeapFile::open("movies", 0, image).unwrap();
    assert_eq!(reopened.ptr_lower(), created.ptr_lower());
    assert_eq!(reopened.ptr_upper(), created.ptr_upper());
    assert_eq!(reopened.free_space(), created.free_space());
    assert_eq!(reopened.free_space(), 8188);
}

#[test]
fn single_row_layout() {
    let mut heap = HeapFile::create("test_movies", 0);
    let movie = row(&["1", "Toy Story", "Animation"]);
    heap.insert(&movie).unwrap();

    let expected = [
        0x00, 0x19, 0x00, 0x01, 0x31, 0x00, 0x09, 0x54, 0x6f, 0x79, 0x20, 0x53, 0x74, 0x6f, 0x72,
        0x79, 0x00, 0x09, 0x41, 0x6e, 0x69, 0x6d, 0x61, 0x74, 0x69, 0x6f, 0x6e,
    ];
    let bytes = heap.page(0).bytes();
    assert_eq!(&bytes[8192 - 27..], &expected);
    assert_eq!(&bytes[..4], &[0x00, 0x06, 0x1f, 0xe5]);
    assert_eq!(&bytes[4..6], &[0x1f, 0xe5]);
    assert_eq!(heap.ptr_upper(), 8192 - 27);
    assert_eq!(heap.ptr_lower(), 6);
    assert_eq!(heap.free_space(), 8165 - 6);
    assert_eq!(heap.get(0), Some(movie.clone()));
    assert_eq!(heap.get(1), None);

    let reopened = HeapFile::open("test_movies", 0, bytes.clone()).unwrap();
    assert_eq!(reopened.get(0), Some(movie));
    assert_eq!(reopened.ptr_lower(), 6);
    assert_eq!(reopened.ptr_upper(), 8165);
}

#[test]
fn single_row_at_page_offset() {
    let mut heap = HeapFile::create("test_blocks", 8192);
    assert_eq!(heap.page(0).offset(), 8192);
    assert_eq!(&heap.page(0).bytes()[..4], &[0x00, 0x04, 0x20, 0x00]);
    let movie = row(&["1", "Toy Story", "Animation"]);
    heap.insert(&movie).unwrap();
    assert_eq!(&heap.page(0).bytes()[..4], &[0x00, 0x06, 0x1f, 0xe5]);
    assert_eq!(heap.get(0), Some(movie));
}

#[test]
fn page_capacity_for_sixty_six_byte_rows() {
    let movie = toy_story();
    let mut page = HeapBlock::create(0);
    for _ in 0..116 {
        page.insert(&movie).unwrap();
    }
    assert_eq!(page.free_space(), 68);
    assert_eq!(page.insert(&movie), Err(HeapError::OutOfPageSpace));
    assert_eq!(page.len(), 116);
    assert_eq!(page.ptr_lower(), 4 + 2 * 116);
    assert_eq!(page.ptr_upper(), 8192 - 68 * 116);
}

#[test]
fn accept_needs_slot_size_and_tuple() {
    // packed length 2 + 1 = 3: the row takes 7 bytes of free space
    let small = row(&["x"]);
    let mut page = HeapBlock::create(0);
    for _ in 0..1169 {
        page.insert(&small).unwrap();
    }
    assert_eq!(page.free_space(), 8188 - 7 * 1169);
    assert_eq!(page.free_space(), 5);
    assert_eq!(page.insert(&small), Err(HeapError::OutOfPageSpace));
    let mut other = HeapBlock::create(0);
    for _ in 0..1168 {
        other.insert(&small).unwrap();
    }
    assert_eq!(other.free_space(), 12);
    assert_eq!(other.insert(&small), Ok(()));
}

#[test]
fn page_boundary_growth() {
    let movie = toy_story();
    let mut heap = HeapFile::create("test_full", 0);
    for _ in 0..116 {
        heap.insert(&movie).unwrap();
    }
    assert_eq!(heap.page_count(), 1);
    heap.insert(&movie).unwrap();
    assert_eq!(heap.page_count(), 2);
    assert_eq!(heap.page(1).offset(), 8192);
    assert_eq!(heap.page(1).len(), 1);
    assert_eq!(heap.ptr_lower(), 6);
    assert_eq!(heap.ptr_upper(), 8192 - 68);
    assert_eq!(heap.get(116), Some(movie.clone()));
    assert_eq!(heap.get(117), None);
    let rows = drain(heap);
    assert_eq!(rows.len(), 117);
    assert!(rows.iter().all(|r| *r == movie));
}

#[test]
fn new_page_starts_fresh() {
    let page = HeapBlock::create(8192);
    assert_eq!(&page.bytes()[..4], &[0x00, 0x04, 0x20, 0x00]);
    assert_eq!(page.offset(), 8192);
}

#[test]
fn get_resolves_rows_on_later_pages() {
    let mut heap = HeapFile::create("numbers", 0);
    let mut rows = vec![];
    for i in 0..300 {
        let r = row(&[&i.to_string(), &"v".repeat(40)]);
        heap.insert(&r).unwrap();
        rows.push(r);
    }
    assert!(heap.page_count() >= 2);
    for (i, r) in rows.iter().enumerate() {
        assert_eq!(heap.get(i).as_ref(), Some(r));
    }
    assert_eq!(drain(heap), rows);
}

#[test]
fn load_then_iterate() {
    let rows = vec![row(&["a", "b"]), row(&["c", "d"]), row(&["e", "f"])];
    let heap = HeapFile::load("t", 0, &rows).unwrap();
    assert_eq!(heap.table(), "t");
    assert_eq!(drain(heap), rows);
}

#[test]
fn page_iterator_in_slot_order() {
    let mut page = HeapBlock::create(0);
    page.insert(&row(&["a"])).unwrap();
    page.insert(&row(&["b"])).unwrap();
    let mut it = page.into_iter();
    assert_eq!(it.next(), Some(row(&["a"])));
    assert_eq!(it.next(), Some(row(&["b"])));
    assert_eq!(it.next(), None);
}

#[test]
fn tuple_too_large_is_rejected() {
    let big = row(&[&"a".repeat(8183)]);
    let mut heap = HeapFile::create("big", 0);
    assert_eq!(heap.insert(&big), Err(HeapError::TupleTooLarge));
    let fits = row(&[&"a".repeat(8182)]);
    assert_eq!(heap.insert(&fits), Ok(()));
    assert_eq!(heap.free_space(), 0);
    let huge = row(&[&"a".repeat(70000)]);
    assert_eq!(heap.insert(&huge), Err(HeapError::TupleTooLarge));
}

#[test]
fn row_fitting_no_page() {
    let big = row(&[&"a".repeat(8185)]);
    let mut page = HeapBlock::create(0);
    assert_eq!(page.insert(&big), Err(HeapError::OutOfPageSpace));
    let huge = row(&[&"a".repeat(70000)]);
    assert_eq!(page.insert(&huge), Err(HeapError::TupleTooLarge));
    let mut heap = HeapFile::create("big", 0);
    assert_eq!(heap.insert(&big), Err(HeapError::TupleTooLarge));
    assert_eq!(heap.page_count(), 1);
    assert_eq!(heap.free_space(), 8188);
}

#[test]
fn corrupt_tuple_is_located() {
    let mut page = HeapBlock::create(0);
    page.insert(&row(&["ab"])).unwrap();
    let mut image = page.bytes().clone();
    // the tuple's field length now runs past its size
    image[8192 - 6 + 3] = 9;
    assert_eq!(
        HeapBlock::open(image, 8192).err(),
        Some(HeapError::Corrupt { page: 8192, byte: 8192 - 6 })
    );
}

#[test]
fn corrupt_images_are_refused() {
    assert_eq!(
        HeapBlock::open(vec![0; 8192], 0).err(),
        Some(HeapError::Corrupt { page: 0, byte: 0 })
    );
    assert!(HeapBlock::open(vec![0; 100], 0).is_err());
    let mut image = HeapBlock::create(0).bytes().clone();
    // one slot entry pointing below ptr_upper
    image[1] = 6;
    image[4] = 0x00;
    image[5] = 0x10;
    assert_eq!(
        HeapBlock::open(image, 16384).err(),
        Some(HeapError::Corrupt { page: 16384, byte: 4 })
    );
}
