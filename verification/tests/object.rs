use turbo_parsepdf_core::object::{Dictionary, ObjRef, Object, Real, Stream};

/// The numeric value of a number object.
fn num(o: &Object) -> Option<f64> {
    match o {
        Object::Integer(n) => Some(*n as f64),
        Object::Real(Real::Decimal { mantissa, scale }) => Some(*mantissa as f64 / 10f64.powi(*scale as i32)),
        Object::Real(Real::Literal(t)) => std::str::from_utf8(t).ok()?.parse().ok(),
        _ => None,
    }
}

#[test]
fn objref_fields() {
    let r = ObjRef::new(12, 3);
    assert_eq!(r.num, 12);
    assert_eq!(r.gen, 3);
}

#[test]
fn dictionary_insert_get_and_dedup() {
    let mut d = Dictionary::new();
    assert!(d.is_empty());
    d.insert("Type", Object::Name("Page".into()));
    d.insert("Count", Object::Integer(1));
    assert_eq!(d.len(), 2);
    // Duplicate key overwrites in place, length unchanged.
    d.insert("Count", Object::Integer(9));
    assert_eq!(d.len(), 2);
    assert_eq!(d.get("Count").unwrap().as_integer(), Some(9));
    assert_eq!(d.get("Type").unwrap().as_name(), Some("Page"));
    assert!(d.get("Missing").is_none());
    let keys: Vec<&str> = d.iter().iter().map(|(k, _)| k.as_str()).collect();
    assert_eq!(keys, ["Type", "Count"]);
}

#[test]
fn accessors_match_their_variant() {
    assert_eq!(Object::Integer(5).as_integer(), Some(5));
    assert_eq!(num(&Object::Integer(5)), Some(5.0));
    assert_eq!(num(&Object::Real(Real::Decimal { mantissa: 25, scale: 1 })), Some(2.5));
    assert_eq!(Object::Boolean(true).as_bool(), Some(true));
    assert_eq!(Object::Name("X".into()).as_name(), Some("X"));
    assert_eq!(Object::String(b"hi".to_vec()).as_string(), Some(&b"hi"[..]));
    assert_eq!(Object::Reference(ObjRef::new(1, 0)).as_reference(), Some(ObjRef::new(1, 0)));
    assert!(Object::Null.is_null());
}

#[test]
fn array_and_dict_accessors() {
    let arr = Object::Array(vec![Object::Integer(1), Object::Integer(2)]);
    assert_eq!(arr.as_array().unwrap().len(), 2);
    let mut d = Dictionary::new();
    d.insert("K", Object::Integer(1));
    let dict = Object::Dictionary(d.clone());
    assert_eq!(dict.as_dict().unwrap().len(), 1);
    let stream = Object::Stream(Stream { dict: d, data: vec![1, 2, 3] });
    assert_eq!(stream.as_dict().unwrap().len(), 1);
    assert_eq!(stream.as_stream().unwrap().data, vec![1, 2, 3]);
}

#[test]
fn accessors_reject_wrong_variant() {
    let n = Object::Null;
    assert!(n.as_integer().is_none());
    assert!(num(&n).is_none());
    assert!(n.as_bool().is_none());
    assert!(n.as_name().is_none());
    assert!(n.as_string().is_none());
    assert!(n.as_array().is_none());
    assert!(n.as_dict().is_none());
    assert!(n.as_stream().is_none());
    assert!(n.as_reference().is_none());
    assert!(!Object::Integer(0).is_null());
}

#[test]
fn insert_keeps_first_slot_of_a_key() {
    let mut d = Dictionary::new();
    d.insert("A", Object::Integer(1));
    d.insert("B", Object::Integer(2));
    d.insert("A", Object::Integer(3));
    let items = d.iter();
    assert_eq!(items[0].0, "A");
    assert_eq!(items[0].1, Object::Integer(3));
    assert_eq!(items[1].0, "B");
}
