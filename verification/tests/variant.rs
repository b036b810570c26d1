use edgelink_core::propex::PropexSegment;
use edgelink_core::variant::{Number, Variant, VariantError, VariantObjectMap};
use edgelink_core::EdgelinkError;

fn num(i: i64) -> Variant {
    Variant::Number(Number::from_i64(i))
}

fn float(f: f64) -> Variant {
    Variant::Number(Number::from_f64_bits(f.to_bits()).unwrap())
}

fn string(s: &str) -> Variant {
    Variant::String(s.to_string())
}

fn object(pairs: Vec<(&str, Variant)>) -> Variant {
    let mut map = VariantObjectMap::new();
    for (k, v) in pairs {
        map.insert(k.to_string(), v);
    }
    Variant::Object(map)
}

fn prop(s: &str) -> PropexSegment {
    PropexSegment::Property(s.to_string())
}

fn sample_object() -> Variant {
    object(vec![
        ("value1", num(123)),
        ("value2", float(123.0)),
        (
            "value3",
            object(vec![("aaa", num(333)), ("bbb", num(444)), ("ccc", num(555)), ("ddd", num(999))]),
        ),
    ])
}

#[test]
fn mod_variant_clone_should_be_ok() {
    let var1 = Variant::Array(vec![num(123), num(333), Variant::Array(vec![num(901), num(902)])]);
    let mut var2 = var1.clone();

    let inner_array = var2.as_array_mut().unwrap()[2].as_array_mut().unwrap();
    inner_array[0] = num(999);

    let value1 = var1.as_array().unwrap()[2].as_array().unwrap()[0].as_i64().unwrap();
    let value2 = var2.as_array().unwrap()[2].as_array().unwrap()[0].as_i64().unwrap();

    assert_eq!(value1, 901);
    assert_eq!(value2, 999);
    assert_ne!(value1, value2);
}

#[test]
fn variant_variant_clone_should_be_ok() {
    let var1 = Variant::Array(vec![num(123), num(333), Variant::Array(vec![num(901), num(902)])]);
    let mut var2 = var1.clone();

    let inner_array = var2.as_array_mut().unwrap()[2].as_array_mut().unwrap();
    inner_array[0] = num(999);

    let value1 = var1.as_array().unwrap()[2].as_array().unwrap()[0].as_i64().unwrap();
    let value2 = var2.as_array().unwrap()[2].as_array().unwrap()[0].as_i64().unwrap();

    assert_eq!(value1, 901);
    assert_eq!(value2, 999);
    assert_ne!(value1, value2);
}

#[test]
fn mod_variant_propex_readonly_accessing_should_be_ok() {
    let obj1 = sample_object();

    let value1 = obj1.get_nav_property("value1").unwrap().as_i64().unwrap();
    assert_eq!(value1, 123);

    let ccc_1 = obj1.get_nav_property("value3.ccc").unwrap().as_i64().unwrap();
    assert_eq!(ccc_1, 555);

    let ccc_2 = obj1.get_nav_property("['value3'].ccc").unwrap().as_i64().unwrap();
    assert_eq!(ccc_2, 555);

    let ccc_3 = obj1.get_nav_property("['value3'][\"ccc\"]").unwrap().as_i64().unwrap();
    assert_eq!(ccc_3, 555);

    let ddd_1 = obj1.get_nav_property("value3.ddd").unwrap().as_i64().unwrap();
    assert_eq!(ddd_1, 999);
}

#[test]
fn variant_variant_propex_readonly_accessing_should_be_ok() {
    let obj1 = sample_object();

    let value1 = obj1.get_nav_property("value1").unwrap().as_i64().unwrap();
    assert_eq!(value1, 123);

    let ccc_1 = obj1.get_nav_property("value3.ccc").unwrap().as_i64().unwrap();
    assert_eq!(ccc_1, 555);

    let ccc_2 = obj1.get_nav_property("['value3'].ccc").unwrap().as_i64().unwrap();
    assert_eq!(ccc_2, 555);

    let ccc_3 = obj1.get_nav_property("['value3'][\"ccc\"]").unwrap().as_i64().unwrap();
    assert_eq!(ccc_3, 555);

    let ddd_1 = obj1.get_nav_property("value3.ddd").unwrap().as_i64().unwrap();
    assert_eq!(ddd_1, 999);
}

fn check_set_nav_property_with_empty_object() {
    let mut obj1 = Variant::empty_object();

    obj1.set_nav_property("address.country", string("US"), true).unwrap();
    obj1.set_nav_property("address.zip", string("12345"), true).unwrap();

    obj1.set_nav_property("array_field[0]", string("11111"), true).unwrap();
    obj1.set_nav_property("array_field[1]", string("22222"), true).unwrap();

    let obj_address = obj1.get_object_property("address").unwrap();

    assert!(obj_address.is_object());
    assert_eq!(obj_address.get_object_property("country").unwrap().as_str().unwrap(), "US");
    assert_eq!(obj_address.get_object_property("zip").unwrap().as_str().unwrap(), "12345");

    assert_eq!(obj_address.len(), 2);
}

#[test]
fn mod_variant_propex_set_nav_property_with_empty_object_should_be_ok() {
    check_set_nav_property_with_empty_object();
}

#[test]
fn variant_variant_propex_set_nav_property_with_empty_object_should_be_ok() {
    check_set_nav_property_with_empty_object();
}

#[test]
fn set_nav_property_creates_array_items() {
    let mut obj1 = Variant::empty_object();
    obj1.set_nav_property("array_field[0]", string("11111"), true).unwrap();
    obj1.set_nav_property("array_field[1]", string("22222"), true).unwrap();
    let arr = obj1.get_object_property("array_field").unwrap();
    assert!(arr.is_array());
    assert_eq!(arr.len(), 2);
    assert_eq!(obj1.get_nav_property("array_field[1]").unwrap().as_str().unwrap(), "22222");
}

#[test]
fn set_nav_property_without_create_fails_and_keeps_value() {
    let mut obj1 = sample_object();
    let r = obj1.set_nav_property("missing.child", num(1), false);
    assert_eq!(r, Err(VariantError::OutOfRange));
    assert!(obj1.get_object_property("missing").is_none());
    assert_eq!(obj1.len(), 3);
}

#[test]
fn set_nav_property_with_bad_expression_is_out_of_range() {
    let mut obj1 = sample_object();
    assert_eq!(obj1.set_nav_property("a..b", num(1), true), Err(VariantError::OutOfRange));
    assert_eq!(obj1.set_nav_property("", num(1), true), Err(VariantError::OutOfRange));
    assert_eq!(obj1.len(), 3);
}

#[test]
fn set_then_get_reads_back_the_value() {
    let mut obj1 = sample_object();
    obj1.set_nav_property("value3.eee", string("new"), false).unwrap();
    assert_eq!(obj1.get_nav_property("value3.eee").unwrap().as_str().unwrap(), "new");
    obj1.set_nav_property("value3.aaa", Variant::Bool(true), false).unwrap();
    assert_eq!(obj1.get_nav_property("value3.aaa").unwrap().as_bool(), Some(true));
    assert_eq!(obj1.get_nav_property("value3").unwrap().len(), 5);
}

#[test]
fn set_with_create_keeps_created_steps_on_error() {
    let mut obj1 = object(vec![("n", num(1))]);
    // "a" is created as an object, then "n.x" fails: a number has no properties.
    let r = obj1.set_nav_property("a.b", num(5), true);
    assert_eq!(r, Ok(()));
    let r = obj1.set_nav_property("n.x", num(5), true);
    assert_eq!(r, Err(VariantError::WrongType));
    assert_eq!(obj1.get_nav_property("a.b").unwrap().as_i64(), Some(5));
}

#[test]
fn set_array_item_cases() {
    let mut arr = Variant::Array(vec![num(1), num(2)]);
    assert_eq!(arr.set_array_item(0, num(10)), Ok(()));
    assert_eq!(arr.set_array_item(2, num(30)), Ok(()));
    assert_eq!(arr.set_array_item(5, num(50)), Err(VariantError::OutOfRange));
    assert_eq!(arr.len(), 3);
    assert_eq!(arr.get_array_item(0).unwrap().as_i64(), Some(10));
    assert_eq!(arr.get_array_item(2).unwrap().as_i64(), Some(30));

    let mut bytes = Variant::Bytes(vec![1, 2]);
    assert_eq!(bytes.set_array_item(1, num(300)), Ok(()));
    assert_eq!(bytes.set_array_item(2, num(7)), Ok(()));
    assert_eq!(bytes.set_array_item(0, string("x")), Err(VariantError::BadCast));
    assert_eq!(bytes.set_array_item(9, num(7)), Err(VariantError::OutOfRange));
    assert_eq!(bytes.as_bytes().unwrap(), &[1u8, 44, 7]);

    let mut s = string("abc");
    assert_eq!(s.set_array_item(0, num(1)), Err(VariantError::WrongType));
}

#[test]
fn set_object_property_on_non_object_is_wrong_type() {
    let mut v = num(1);
    assert_eq!(v.set_object_property("a".to_string(), num(2)), Err(VariantError::WrongType));
    let mut o = Variant::empty_object();
    assert_eq!(o.set_object_property("a".to_string(), num(2)), Ok(()));
    assert_eq!(o.get_object_property("a").unwrap().as_i64(), Some(2));
}

#[test]
fn set_segs_property_with_empty_path_is_out_of_range() {
    let mut o = Variant::empty_object();
    assert_eq!(o.set_segs_property(&[], num(1), true), Err(VariantError::OutOfRange));
}

#[test]
fn set_seg_property_dispatches_on_segment() {
    let mut o = Variant::empty_object();
    assert_eq!(o.set_seg_property(&prop("k"), num(1)), Ok(()));
    assert_eq!(o.set_seg_property(&PropexSegment::Index(0), num(1)), Err(VariantError::WrongType));
    assert_eq!(o.get_seg(&prop("k")).unwrap().as_i64(), Some(1));
}

#[test]
fn get_segs_mut_write_is_read_back() {
    let mut obj1 = sample_object();
    let path = vec![prop("value3"), prop("bbb")];
    *obj1.get_segs_mut(&path).unwrap() = string("changed");
    assert_eq!(obj1.get_segs(&path).unwrap().as_str().unwrap(), "changed");
    assert!(obj1.get_segs_mut(&[prop("nope")]).is_none());
    *obj1.get_segs_mut(&[]).unwrap() = Variant::Null;
    assert!(obj1.is_null());
}

#[test]
fn get_mut_accessors() {
    let mut arr = Variant::Array(vec![num(1)]);
    *arr.get_array_item_mut(0).unwrap() = num(2);
    assert!(arr.get_array_item_mut(1).is_none());
    assert_eq!(arr.get_array_item(0).unwrap().as_i64(), Some(2));

    let mut obj = object(vec![("a", num(1))]);
    *obj.get_object_property_mut("a").unwrap() = num(3);
    assert!(obj.get_object_property_mut("b").is_none());
    assert_eq!(obj.get_object_property("a").unwrap().as_i64(), Some(3));
    *obj.get_seg_mut(&prop("a")).unwrap() = num(4);
    assert_eq!(obj.get_seg(&prop("a")).unwrap().as_i64(), Some(4));

    let mut s = string("ab");
    s.as_str_mut().unwrap().push('c');
    assert_eq!(s.as_str(), Some("abc"));

    let mut b = Variant::Bytes(vec![1]);
    b.as_bytes_mut().unwrap().push(2);
    assert_eq!(b.as_bytes().unwrap(), &[1u8, 2]);

    let mut o = Variant::empty_object();
    o.as_object_mut().unwrap().insert("z".to_string(), num(9));
    assert_eq!(o.get_object_property("z").unwrap().as_i64(), Some(9));
    assert!(num(1).clone().as_object_mut().is_none());
}

#[test]
fn len_and_is_empty() {
    assert_eq!(Variant::Null.len(), 0);
    assert!(Variant::Null.is_empty());
    assert_eq!(string("é").len(), 2);
    assert!(!string("é").is_empty());
    assert!(string("").is_empty());
    assert_eq!(num(5).len(), 1);
    assert!(!num(5).is_empty());
    assert!(!float(0.0).is_empty());
    assert_eq!(Variant::Bool(false).len(), 1);
    assert!(Variant::empty_array().is_empty());
    assert!(Variant::empty_object().is_empty());
    assert_eq!(sample_object().len(), 3);
    assert_eq!(Variant::Bytes(vec![1, 2, 3]).len(), 3);
}

#[test]
fn number_kinds() {
    let n = num(-5);
    assert!(n.is_i64());
    assert!(!n.is_u64());
    assert!(!n.is_f64());
    assert_eq!(n.as_u64(), None);
    assert_eq!(n.as_u8(), None);
    let big = Variant::Number(Number::from_u64(u64::MAX));
    assert!(!big.is_i64());
    assert!(big.is_u64());
    assert_eq!(big.as_i64(), None);
    assert_eq!(big.as_u8(), Some(255));
    let f = float(2.5);
    assert!(f.is_f64());
    assert_eq!(f.as_i64(), None);
    assert_eq!(Number::from_f64_bits(f64::NAN.to_bits()).is_none(), true);
    assert_eq!(Number::from_f64_bits(f64::INFINITY.to_bits()).is_none(), true);
    assert_eq!(f.as_number().unwrap().as_f64_bits(), Some(2.5f64.to_bits()));
}

#[test]
fn kind_accessors() {
    assert!(Variant::Null.is_null());
    assert!(string("a").is_string());
    assert_eq!(Variant::Bool(true).as_bool(), Some(true));
    assert_eq!(Variant::Bool(true).into_bool().ok(), Some(true));
    assert!(num(1).into_bool().is_err());
    assert_eq!(Variant::Bytes(vec![1]).into_bytes().ok(), Some(vec![1u8]));
    assert_eq!(string("hi").as_bytes().unwrap(), b"hi");
    assert!(num(1).as_bytes().is_none());
    assert!(Variant::empty_array().into_array().unwrap().is_empty());
    assert!(Variant::empty_object().into_object().unwrap().is_empty());
    assert!(Variant::now().as_bool().is_none());
    assert!(!Variant::now().is_null());
    assert!(Variant::empty_string().as_str().unwrap().is_empty());
    let mut v = num(7);
    let taken = v.take();
    assert!(v.is_null());
    assert_eq!(taken.as_i64(), Some(7));
    assert!(Variant::default().is_null());
}

#[test]
fn object_map_keeps_keys_in_order() {
    let mut m = VariantObjectMap::new();
    assert!(m.insert("b".to_string(), num(2)).is_none());
    assert!(m.insert("a".to_string(), num(1)).is_none());
    let old = m.insert("b".to_string(), num(3)).unwrap();
    assert_eq!(old.as_i64(), Some(2));
    assert_eq!(m.len(), 2);
    assert!(m.contains_key("a"));
    assert!(!m.contains_key("c"));
    assert_eq!(m.get("b").unwrap().as_i64(), Some(3));
    *m.get_mut("a").unwrap() = num(10);
    assert_eq!(m.get("a").unwrap().as_i64(), Some(10));
    assert!(m.get_mut("zz").is_none());
}

#[test]
fn bytes_from_vec_converts_numbers() {
    let items = [
        num(0),
        num(255),
        float(3.9),
        float(-0.0),
        float(255.0),
        float(1e-300),
        float(254.999),
        Variant::Number(Number::from_u64(7)),
    ];
    let v = Variant::bytes_from_vec(&items).unwrap();
    assert_eq!(v.as_bytes().unwrap(), &[0u8, 255, 3, 0, 255, 0, 254, 7]);
    assert!(Variant::bytes_from_vec(&[]).unwrap().is_empty());
}

#[test]
fn bytes_from_vec_refuses_what_is_no_byte() {
    assert!(matches!(Variant::bytes_from_vec(&[num(256)]), Err(EdgelinkError::OutOfRange)));
    assert!(matches!(Variant::bytes_from_vec(&[num(-1)]), Err(EdgelinkError::OutOfRange)));
    assert!(matches!(Variant::bytes_from_vec(&[float(255.5)]), Err(EdgelinkError::OutOfRange)));
    assert!(matches!(Variant::bytes_from_vec(&[float(-0.5)]), Err(EdgelinkError::OutOfRange)));
    assert!(matches!(Variant::bytes_from_vec(&[float(1e300)]), Err(EdgelinkError::OutOfRange)));
    assert!(matches!(
        Variant::bytes_from_vec(&[Variant::Number(Number::from_u64(u64::MAX))]),
        Err(EdgelinkError::OutOfRange)
    ));
    match Variant::bytes_from_vec(&[num(1), string("a"), num(300)]) {
        Err(EdgelinkError::InvalidOperation(m)) => assert_eq!(m, "Invalid Variant type"),
        other => panic!("unexpected {:?}", other),
    }
    assert!(matches!(Variant::bytes_from_vec(&[num(300), string("a")]), Err(EdgelinkError::OutOfRange)));
}

#[test]
fn bytes_from_json_value_cases() {
    let v = Variant::bytes_from_json_value(&Variant::Array(vec![num(1), num(2), num(255)])).unwrap();
    assert_eq!(v.as_bytes().unwrap(), &[1u8, 2, 255]);
    let v = Variant::bytes_from_json_value(&string("hi")).unwrap();
    assert!(v.is_bytes());
    assert_eq!(v.as_bytes().unwrap(), b"hi");
    let msg = |r: Result<Variant, EdgelinkError>| match r {
        Err(EdgelinkError::NotSupported(m)) => m,
        other => panic!("unexpected {:?}", other),
    };
    assert_eq!(msg(Variant::bytes_from_json_value(&Variant::Array(vec![num(256)]))), "Invalid byte value");
    assert_eq!(msg(Variant::bytes_from_json_value(&Variant::Array(vec![num(-1)]))), "Invalid byte value");
    assert_eq!(
        msg(Variant::bytes_from_json_value(&Variant::Array(vec![float(1.5)]))),
        "Invalid byte JSON value type"
    );
    assert_eq!(
        msg(Variant::bytes_from_json_value(&Variant::Array(vec![string("x")]))),
        "Invalid byte JSON value type"
    );
    assert_eq!(msg(Variant::bytes_from_json_value(&Variant::Bool(true))), "Invalid byte JSON Value");
}

#[test]
fn object_keys_come_in_order() {
    let mut m = VariantObjectMap::new();
    m.insert("zeta".to_string(), num(1));
    m.insert("alpha".to_string(), num(2));
    m.insert("Beta".to_string(), num(3));
    m.insert("alpha".to_string(), num(4));
    assert_eq!(m.keys(), vec!["Beta", "alpha", "zeta"]);
    assert!(VariantObjectMap::default().keys().is_empty());
}

#[test]
fn variant_equality_compares_contents() {
    assert_eq!(num(1), num(1));
    assert_ne!(num(1), float(1.0));
    assert_ne!(num(1), string("1"));
    assert_eq!(Variant::Null, Variant::Null);
    assert_ne!(Variant::Null, Variant::Bool(false));
    assert_eq!(Variant::Bytes(vec![1, 2]), Variant::Bytes(vec![1, 2]));
    assert_ne!(Variant::Bytes(vec![1, 2]), Variant::Bytes(vec![1]));
    assert_ne!(Variant::Array(vec![num(1)]), Variant::Array(vec![num(1), num(2)]));
    assert_ne!(Variant::Array(vec![num(1), num(3)]), Variant::Array(vec![num(1), num(2)]));

    let a = sample_object();
    let b = a.clone();
    assert_eq!(a, b);
    let mut c = a.clone();
    c.set_nav_property("value3.aaa", num(0), false).unwrap();
    assert_ne!(a, c);
    assert_ne!(object(vec![("x", num(1))]), object(vec![("y", num(1))]));
    assert_eq!(object(vec![("x", num(1)), ("y", num(2))]), object(vec![("y", num(2)), ("x", num(1))]));

    let re1 = Variant::Regexp(regex::Regex::new("a+b").unwrap());
    let re2 = Variant::Regexp(regex::Regex::new("a+b").unwrap());
    let re3 = Variant::Regexp(regex::Regex::new("c").unwrap());
    assert_eq!(re1, re2);
    assert_ne!(re1, re3);
    assert_eq!(re1.clone(), re1);

    let t = std::time::SystemTime::now();
    assert_eq!(Variant::Date(t), Variant::Date(t));
    assert_ne!(Variant::Date(t), Variant::Date(t + std::time::Duration::from_secs(1)));
}

#[test]
fn variant_zeros_of_either_sign_are_equal() {
    assert!(float(0.0) == float(-0.0));
    assert!(Number::from_f64_bits((-0.0f64).to_bits()).unwrap() == Number::from_f64_bits(0.0f64.to_bits()).unwrap());
    assert!(float(1.0) != float(-1.0));
    assert!(float(1.0) != Variant::Number(Number::from_i64(1)));
    let a = Variant::Array(vec![float(-0.0), Variant::Number(Number::from_u64(3))]);
    let b = Variant::Array(vec![float(0.0), Variant::Number(Number::from_u64(3))]);
    assert!(a == b);
}

#[test]
fn variant_plain_bytes_of_each_kind() {
    assert_eq!(Variant::String("hé".to_string()).plain_bytes(), Some(vec![0x68, 0xc3, 0xa9]));
    assert_eq!(Variant::Bytes(vec![1, 2, 255]).plain_bytes(), Some(vec![1, 2, 255]));
    assert_eq!(Variant::Array(vec![num(1), num(258)]).plain_bytes(), Some(vec![1, 2]));
    assert_eq!(Variant::Array(vec![num(1), num(-1)]).plain_bytes(), None);
    assert_eq!(Variant::Array(vec![]).plain_bytes(), Some(vec![]));
    assert_eq!(Variant::Bool(true).plain_bytes(), None);
    assert_eq!(num(7).plain_bytes(), None);
}
