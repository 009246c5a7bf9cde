use db::codec::{pack, unpack};

fn row(fields: &[&str]) -> Vec<String> {
    fields.iter().map(|f| f.to_string()).collect()
}

#[test]
fn pack_known_row() {
    let packed = pack(&row(&["1", "Toy Story", "Animation"])).unwrap();
    assert_eq!(
        packed,
        vec![
            0x00, 0x01, 0x31, 0x00, 0x09, 0x54, 0x6f, 0x79, 0x20, 0x53, 0x74, 0x6f, 0x72, 0x79,
            0x00, 0x09, 0x41, 0x6e, 0x69, 0x6d, 0x61, 0x74, 0x69, 0x6f, 0x6e,
        ]
    );
    assert_eq!(packed.len(), 25);
}

#[test]
fn pack_multibyte_text() {
    assert_eq!(pack(&row(&["é"])).unwrap(), vec![0x00, 0x02, 0xc3, 0xa9]);
    assert_eq!(unpack(&[0x00, 0x02, 0xc3, 0xa9]), Some(row(&["é"])));
}

#[test]
fn unpack_then_pack_gives_bytes_back() {
    let bytes = vec![0x00, 0x02, 0x68, 0x69, 0x00, 0x00, 0x00, 0x01, 0x7a];
    let r = unpack(&bytes).unwrap();
    assert_eq!(r, row(&["hi", "", "z"]));
    assert_eq!(pack(&r).unwrap(), bytes);
}

#[test]
fn unpack_rejects_malformed() {
    assert_eq!(unpack(&[0x00]), None);
    assert_eq!(unpack(&[0x00, 0x05, 0x61]), None);
    assert_eq!(unpack(&[0x00, 0x01, 0xff]), None);
    assert_eq!(unpack(&[]), Some(vec![]));
}

#[test]
fn pack_rejects_oversized_field() {
    assert_eq!(pack(&row(&[&"a".repeat(65536)])), None);
    assert_eq!(pack(&row(&[&"a".repeat(65533)])).map(|b| b.len()), Some(65535));
    assert_eq!(pack(&row(&[&"a".repeat(65534)])), None);
}
