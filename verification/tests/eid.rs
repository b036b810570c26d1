use edgelink_core::eid::{ElementId, ParseElementIdError};
use edgelink_core::EdgelinkError;

#[test]
fn element_id_renders_sixteen_lowercase_digits() {
    let id = ElementId::with_u64(0x1234_abcd);
    assert_eq!(id.to_string(), "000000001234abcd");
    let chars: String = id.to_chars().iter().collect();
    assert_eq!(chars, "000000001234abcd");
    assert_eq!(ElementId::with_u64(u64::MAX).to_string(), "ffffffffffffffff");
    assert_eq!(ElementId::empty().to_string(), "0000000000000000");
}

#[test]
fn element_id_empty_and_default() {
    assert!(ElementId::empty().is_empty());
    assert!(ElementId::default().is_empty());
    assert!(!ElementId::with_u64(1).is_empty());
    let _fresh = ElementId::new();
}

#[test]
fn element_id_combine() {
    let a = ElementId::with_u64(0b1100);
    let b = ElementId::with_u64(0b1010);
    assert_eq!(ElementId::combine(&a, &b).unwrap(), ElementId::with_u64(0b0110));
    assert!(matches!(ElementId::combine(&a, &ElementId::empty()), Err(EdgelinkError::BadArgument("rhs"))));
    assert!(matches!(ElementId::combine(&ElementId::empty(), &b), Err(EdgelinkError::BadArgument("lhs"))));
    assert!(matches!(
        ElementId::combine(&ElementId::empty(), &ElementId::empty()),
        Err(EdgelinkError::BadArgument("rhs"))
    ));
    assert_eq!(a ^ b, ElementId::with_u64(0b0110));
}

#[test]
fn element_id_parse_hex() {
    assert_eq!(ElementId::parse_hex("ff"), Ok(ElementId::with_u64(255)));
    assert_eq!(ElementId::parse_hex("FF"), Ok(ElementId::with_u64(255)));
    assert_eq!(ElementId::parse_hex("+a"), Ok(ElementId::with_u64(10)));
    assert_eq!(ElementId::parse_hex(""), Err(ParseElementIdError::Empty));
    assert_eq!(ElementId::parse_hex("+"), Err(ParseElementIdError::InvalidDigit));
    assert_eq!(ElementId::parse_hex("-"), Err(ParseElementIdError::InvalidDigit));
    assert_eq!(ElementId::parse_hex("-1"), Err(ParseElementIdError::InvalidDigit));
    assert_eq!(ElementId::parse_hex("xyz"), Err(ParseElementIdError::InvalidDigit));
    assert_eq!(ElementId::parse_hex("ffffffffffffffff"), Ok(ElementId::with_u64(u64::MAX)));
    assert_eq!(ElementId::parse_hex("10000000000000000"), Err(ParseElementIdError::PosOverflow));
    assert_eq!(ElementId::parse_hex("0000000000000000000001"), Ok(ElementId::with_u64(1)));
    assert_eq!("1f".parse::<ElementId>(), Ok(ElementId::with_u64(31)));
}

#[test]
fn element_id_rendering_reads_back() {
    for v in [0u64, 1, 0xdead_beef, 0x8000_0000_0000_0000, u64::MAX] {
        let id = ElementId::with_u64(v);
        assert_eq!(ElementId::parse_hex(&id.to_string()), Ok(id));
    }
}

#[test]
fn element_id_converts_to_and_from_u64() {
    let id = ElementId::from(42u64);
    let back: u64 = id.into();
    assert_eq!(back, 42);
}
