use turbo_parsepdf_core::object::{Dictionary, Object};
use turbo_parsepdf_core::objstm::ObjStm;

fn objstm(n: i64, first: i64, body: &str) -> ObjStm {
    let mut d = Dictionary::new();
    d.insert("N", Object::Integer(n));
    d.insert("First", Object::Integer(first));
    ObjStm::parse(&d, body.as_bytes().to_vec()).unwrap()
}

#[test]
fn parses_two_objects() {
    // header "10 0 20 10 " (obj10@rel0, obj20@rel10), First=11, then objects.
    let body = "10 0 20 10 << /A 1 >>(hi)";
    let os = objstm(2, 11, body);
    assert_eq!(os.len(), 2);
    assert!(!os.is_empty());
    assert_eq!(os.object_number(0), Some(10));
    assert_eq!(os.object_number(1), Some(20));
    assert_eq!(os.get(0).unwrap().as_dict().unwrap().get("A").unwrap().as_integer(), Some(1));
    assert_eq!(os.get(1).unwrap().as_string(), Some(&b"hi"[..]));
}

#[test]
fn index_out_of_range_errors() {
    let os = objstm(1, 4, "10 0 42");
    assert!(os.get(5).is_err());
    assert_eq!(os.object_number(9), None);
}

#[test]
fn missing_keys_error() {
    let mut d = Dictionary::new();
    d.insert("N", Object::Integer(1));
    assert!(ObjStm::parse(&d, b"0 0 1".to_vec()).is_err()); // no First
    let mut d2 = Dictionary::new();
    d2.insert("N", Object::Integer(-1));
    d2.insert("First", Object::Integer(0));
    assert!(ObjStm::parse(&d2, b"".to_vec()).is_err()); // negative N
}

#[test]
fn truncated_header_errors() {
    let mut d = Dictionary::new();
    d.insert("N", Object::Integer(3));
    d.insert("First", Object::Integer(0));
    assert!(ObjStm::parse(&d, b"10 0".to_vec()).is_err());
}
