use gitloggraph::record::parse_record;

#[test]
fn record_with_parents() {
    let rec = parse_record(b"a1 b2 c3").unwrap();
    assert_eq!(rec.id, b"a1".to_vec());
    assert_eq!(rec.parents, vec![b"b2".to_vec(), b"c3".to_vec()]);
}

#[test]
fn record_without_parents() {
    let rec = parse_record(b"a1").unwrap();
    assert_eq!(rec.id, b"a1".to_vec());
    assert!(rec.parents.is_empty());
}

#[test]
fn empty_line_is_malformed() {
    assert!(parse_record(b"").is_err());
}

#[test]
fn leading_space_is_malformed() {
    assert!(parse_record(b" a1").is_err());
}

#[test]
fn consecutive_spaces_keep_empty_tokens() {
    let rec = parse_record(b"a1  b2").unwrap();
    assert_eq!(rec.id, b"a1".to_vec());
    assert_eq!(rec.parents, vec![Vec::<u8>::new(), b"b2".to_vec()]);
}
