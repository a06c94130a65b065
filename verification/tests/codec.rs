use toondb_storage::codec::{decode, encode, flat_key, path_key, split_bytes, SLASH};

fn segs(parts: &[&[u8]]) -> Vec<Vec<u8>> {
    parts.iter().map(|p| p.to_vec()).collect()
}

#[test]
fn round_trip_simple() {
    let p = segs(&[b"users", b"42", b"name"]);
    assert_eq!(decode(&encode(&p)), Some(p));
}

#[test]
fn round_trip_empty_path() {
    let p: Vec<Vec<u8>> = Vec::new();
    assert_eq!(decode(&encode(&p)), Some(p));
}

#[test]
fn round_trip_empty_segments() {
    let p = segs(&[b"", b"", b""]);
    assert_eq!(decode(&encode(&p)), Some(p));
    let q = segs(&[b"a", b"", b"b"]);
    assert_eq!(decode(&encode(&q)), Some(q));
    let one = segs(&[b""]);
    assert_eq!(decode(&encode(&one)), Some(one));
}

#[test]
fn round_trip_separator_adjacent_bytes() {
    // Segments holding the encoded separator (0x00), the escape byte
    // (0x01), their neighbours and the textual slash itself.
    let p = segs(&[&[0x00], &[0x01], &[0x00, 0x01, 0x02], &[0x2f], &[0xff, 0x00]]);
    assert_eq!(decode(&encode(&p)), Some(p));
}

#[test]
fn encode_exact_bytes() {
    // Tag, then a separator before each escaped segment.
    let p = segs(&[b"a", b"b"]);
    assert_eq!(encode(&p), vec![0x00, 0x00, 0x61, 0x00, 0x62]);
    // 0x00 escapes to 0x01 0x01 and 0x01 escapes to 0x01 0x02.
    let q = segs(&[&[0x00, 0x01]]);
    assert_eq!(encode(&q), vec![0x00, 0x00, 0x01, 0x01, 0x01, 0x02]);
}

#[test]
fn encode_is_injective_on_tricky_pairs() {
    let a = segs(&[b""]);
    let b: Vec<Vec<u8>> = Vec::new();
    assert_ne!(encode(&a), encode(&b));
    let c = segs(&[b"a", b""]);
    let d = segs(&[b"a"]);
    assert_ne!(encode(&c), encode(&d));
}

#[test]
fn decode_rejects_foreign_bytes() {
    assert_eq!(decode(&vec![]), None);
    // Flat-key tag.
    assert_eq!(decode(&vec![0x01, 0x00, 0x61]), None);
    // A byte before any separator.
    assert_eq!(decode(&vec![0x00, 0x61]), None);
    // A dangling escape at the end of a segment.
    assert_eq!(decode(&vec![0x00, 0x00, 0x01]), None);
    // An escape followed by a byte no encoder emits.
    assert_eq!(decode(&vec![0x00, 0x00, 0x01, 0x7f]), None);
}

#[test]
fn path_and_flat_keys_never_alias() {
    // An adversarial flat key equal to a plausible encoding pattern.
    let p = segs(&[b"a"]);
    let enc = encode(&p);
    assert_eq!(enc, vec![0x00, 0x00, 0x61]);
    let adversarial = enc.clone();
    assert_ne!(flat_key(&adversarial), enc);
    assert_ne!(flat_key(&vec![0x00, 0x61]), enc);
    // The namespaces differ in their first byte.
    assert_eq!(flat_key(&vec![])[0], 0x01);
    assert_eq!(encode(&Vec::new())[0], 0x00);
}

#[test]
fn split_matches_textual_splitting() {
    let path = b"users/42/name".to_vec();
    assert_eq!(split_bytes(&path, SLASH), segs(&[b"users", b"42", b"name"]));
    assert_eq!(split_bytes(&b"".to_vec(), SLASH), segs(&[b""]));
    assert_eq!(split_bytes(&b"a//b/".to_vec(), SLASH), segs(&[b"a", b"", b"b", b""]));
}

#[test]
fn path_key_goes_through_split_and_encode() {
    let path = b"a/b".to_vec();
    assert_eq!(path_key(&path), vec![0x00, 0x00, 0x61, 0x00, 0x62]);
}
