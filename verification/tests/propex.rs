use edgelink_core::propex::{
    bracket_index, direct_identifier_property, first_direct_property, parse, quoted_index_property, PropexError,
    PropexPath, PropexSegment,
};

fn p(s: &str) -> PropexSegment {
    PropexSegment::Property(s.to_string())
}

#[test]
fn parse_primitives_should_be_ok() {
    let expr = "['test1']";
    let (_, parsed) = quoted_index_property(expr).unwrap();
    assert_eq!(p("test1"), parsed);

    let expr = r#"["test1"]"#;
    let (_, parsed) = quoted_index_property(expr).unwrap();
    assert_eq!(p("test1"), parsed);

    let expr = "_test_1";
    let (_, parsed) = first_direct_property(expr).unwrap();
    assert_eq!(p("_test_1"), parsed);

    let expr = ".foobar123";
    let (_, parsed) = direct_identifier_property(expr).unwrap();
    assert_eq!(p("foobar123"), parsed);

    let expr = "[ 'aaa']";
    let (_, parsed) = quoted_index_property(expr).unwrap();
    assert_eq!(p("aaa"), parsed);

    let expr = "[ 123 ]";
    let (_, parsed) = bracket_index(expr).unwrap();
    assert_eq!(PropexSegment::Index(123), parsed);
}

#[test]
fn parse_propex_should_be_ok() {
    let expr1 = r#"test1.hello.world['aaa'][333]["bb"].name_of"#;
    let segs = parse(expr1).unwrap();

    assert_eq!(7, segs.len());
    assert_eq!(p("test1"), segs[0]);
    assert_eq!(p("hello"), segs[1]);
    assert_eq!(p("world"), segs[2]);
    assert_eq!(p("aaa"), segs[3]);
    assert_eq!(PropexSegment::Index(333), segs[4]);
    assert_eq!(p("bb"), segs[5]);
    assert_eq!(p("name_of"), segs[6]);
}

#[test]
fn parse_propex_with_first_index_accessing_should_be_ok() {
    let expr1 = r#"['test1'].hello.world['aaa'].see[333]["bb"].name_of"#;
    let segs = parse(expr1).unwrap();

    assert_eq!(8, segs.len());
    assert_eq!(p("test1"), segs[0]);
    assert_eq!(p("hello"), segs[1]);
    assert_eq!(p("world"), segs[2]);
    assert_eq!(p("aaa"), segs[3]);
    assert_eq!(p("see"), segs[4]);
    assert_eq!(PropexSegment::Index(333), segs[5]);
    assert_eq!(p("bb"), segs[6]);
    assert_eq!(p("name_of"), segs[7]);
}

#[test]
fn parse_propex_with_nested_propex() {
    let expr1 = r#"['test1'].msg.payload[msg["topic"][0]].str[123]"#;
    let segs = parse(expr1).unwrap();

    assert_eq!(6, segs.len());
    assert_eq!(p("test1"), segs[0]);
    assert_eq!(p("msg"), segs[1]);
    assert_eq!(p("payload"), segs[2]);
    assert_eq!(PropexSegment::Nested(vec![p("msg"), p("topic"), PropexSegment::Index(0)]), segs[3]);
    assert_eq!(p("str"), segs[4]);
    assert_eq!(PropexSegment::Index(123), segs[5]);
}

#[test]
fn should_pass_red_node_unit_tests() {
    assert_eq!(parse("a.b.c").unwrap(), PropexPath::Multiple(vec![p("a"), p("b"), p("c")]), "pass a.b.c");
    assert_eq!(parse(r#"a["b"]["c"]"#).unwrap(), PropexPath::Multiple(vec![p("a"), p("b"), p("c")]), r#"pass a["b"]["c"]"#);
    assert_eq!(parse(r#"a["b"].c"#).unwrap(), PropexPath::Multiple(vec![p("a"), p("b"), p("c")]), r#"pass a["b"].c"#);
    assert_eq!(parse(r#"a['b'].c"#).unwrap(), PropexPath::Multiple(vec![p("a"), p("b"), p("c")]), r#"pass a['b'].c"#);
    assert_eq!(parse(r#"a[0].c"#).unwrap(), PropexPath::Multiple(vec![p("a"),PropexSegment::Index(0), p("c")]), r#"pass a[0].c"#);
    assert_eq!(parse(r#"a.0.c"#).unwrap(), PropexPath::Multiple(vec![p("a"),PropexSegment::Index(0), p("c")]), r#"pass a.0.c"#);
    assert_eq!(
        parse(r#"a['a.b[0]'].c"#).unwrap(),
        PropexPath::Multiple(vec![p("a"), p("a.b[0]"), p("c")]),
        r#"pass a['a.b[0]'].c"#
    );
    assert_eq!(
        parse(r#"a[0][0][0]"#).unwrap(),
        PropexPath::Multiple(vec![p("a"),PropexSegment::Index(0),PropexSegment::Index(0),PropexSegment::Index(0)]),
        r#"pass a[0][0][0]"#
    );
    assert_eq!(parse(r#"'1.2.3.4'"#).unwrap(), PropexPath::Multiple(vec![p("1.2.3.4"),]), r#"pass '1.2.3.4'"#);
    assert_eq!(parse(r#"'a.b'[1]"#).unwrap(), PropexPath::Multiple(vec![p("a.b"),PropexSegment::Index(1)]), r#"pass 'a.b'[1]"#);
    assert_eq!(parse(r#"'a.b'.c"#).unwrap(), PropexPath::Multiple(vec![p("a.b"), p("c")]), r#"pass 'a.b'.c"#);
    assert_eq!(
        parse(r#"a[msg.b]"#).unwrap(),
        PropexPath::Multiple(vec![p("a"), PropexSegment::Nested(vec![p("msg"), p("b")])]),
        r#"pass a[msg.b]"#
    );
    assert_eq!(
        parse(r#"a[msg[msg.b]]"#).unwrap(),
        PropexPath::Multiple(vec![p("a"), PropexSegment::Nested(vec![p("msg"), PropexSegment::Nested(vec![p("msg"), p("b")])])]),
        r#"pass a[msg[msg.b]]"#
    );
    assert_eq!(
        parse(r#"a[msg['b]"[']]"#).unwrap(),
        PropexPath::Multiple(vec![p("a"), PropexSegment::Nested(vec![p("msg"), p(r#"b]"["#)])]),
        r#"pass a[msg['b]"[']]"#
    );
    assert_eq!(
        parse(r#"a[msg['b][']]"#).unwrap(),
        PropexPath::Multiple(vec![p("a"), PropexSegment::Nested(vec![p("msg"), p(r#"b]["#)])]),
        r#"pass a[msg['b][']]"#
    );
    assert_eq!(
        parse(r#"b[msg.a][2]"#).unwrap(),
        PropexPath::Multiple(vec![p("b"), PropexSegment::Nested(vec![p("msg"), p("a")]),PropexSegment::Index(2)]),
        r#"pass b[msg.a][2]"#
    );
    assert_eq!(parse(r#"a.$b.c"#).unwrap(), PropexPath::Multiple(vec![p("a"), p("$b"), p("c")]), r#"pass a.$b.c"#);
    assert_eq!(parse(r#"a["$b"].c"#).unwrap(), PropexPath::Multiple(vec![p("a"), p("$b"), p("c")]), r#"pass a["$b"].c"#);
    assert_eq!(parse(r#"a._b.c"#).unwrap(), PropexPath::Multiple(vec![p("a"), p("_b"), p("c")]), r#"pass a._b.c"#);
    assert_eq!(parse(r#"a["_b"].c"#).unwrap(), PropexPath::Multiple(vec![p("a"), p("_b"), p("c")]), r#"pass a["_b"].c"#);
    assert_eq!(
        parse(r#"a['a.b[0]'].c"#).unwrap(),
        PropexPath::Multiple(vec![p("a"), p("a.b[0]"), p("c")]),
        r#"pass a['a.b[0]'].c"#
    );
    assert_eq!(
        parse(r#"a[msg.c][0]["fred"]"#).unwrap(),
        PropexPath::Multiple(vec![p("a"), PropexSegment::Nested(vec![p("msg"), p("c"),]),PropexSegment::Index(0), p("fred")]),
        r#"pass a[msg.c][0]["fred"]"#
    );

    // Failures:
    assert!(parse(r#"a'b'.c"#).is_err(), r#"fail a'b'.c"#);
    assert!(parse(r#"a['b'.c"#).is_err(), r#"fail a['b'.c"#);
    assert!(parse(r#"a[]"#).is_err(), r#"fail a[]"#);
    assert!(parse(r#"a]"#).is_err(), r#"fail a]"#);
    assert!(parse(r#"a["#).is_err(), r#"fail a["#);
    assert!(parse(r#"a[0d]"#).is_err(), r#"fail a[0d]"#);
    assert!(parse(r#"a['"#).is_err(), r#"fail a['"#);
    assert!(parse(r#"a[']"#).is_err(), r#"fail a[']"#);
    assert!(parse(r#"a[0']"#).is_err(), r#"fail a[0']"#);
    assert!(parse(r#"a.[0]"#).is_err(), r#"fail a.[0]"#);
    assert!(parse(r#"[0]"#).is_err(), r#"fail [0]"#);
    assert!(parse(r#"a[0"#).is_err(), r#"fail a[0"#);
    assert!(parse(r#"a."#).is_err(), r#"fail a."#);
    assert!(parse(r#".a"#).is_err(), r#"fail .a"#);
    assert!(parse(r#"a. b"#).is_err(), r#"fail `a. b`"#);
    assert!(parse(r#" a.b"#).is_err(), r#"fail ` a.b`"#);
    assert!(parse(r#"a[0].[1]"#).is_err(), r#"fail `a[0].[1]`"#);
    assert!(parse(r#"a['']"#).is_err(), r#"fail `a['']`"#);
    assert!(parse(r#"'a.b'c"#).is_err(), r#"fail `'a.b'c`"#);
    assert!(parse("").is_err(), r#"fail <blank>"#);
    assert!(parse("a[b]").is_err(), r#"fail `a[b]`"#);
    assert!(parse("a[msg.]").is_err(), r#"fail `a[msg.]`"#);
    assert!(parse("a[msg[]").is_err(), r#"fail `a[msg[]`"#);
    assert!(parse("a[msg.[]]").is_err(), r#"fail `a[msg.[]]`"#);
    assert!(parse("a[msg['af]]").is_err(), r#"fail `a[msg['af]]`"#);
}

#[test]
fn parse_reports_each_error_kind() {
    assert!(matches!(parse(""), Err(PropexError::BadArguments)));
    match parse("a[") {
        Err(PropexError::BadSyntax(s)) => assert_eq!(s, "a["),
        other => panic!("unexpected {:?}", other),
    }
}

#[test]
fn parse_index_overflow_is_refused() {
    assert!(parse("a[99999999999999999999999999]").is_err());
    assert_eq!(parse("a[18446744073709551615]").unwrap().as_slice()[1], PropexSegment::Index(18446744073709551615));
}

#[test]
fn path_slices_give_the_segments() {
    let mut single = PropexPath::Single(PropexSegment::Index(4));
    assert_eq!(single.as_slice(), &[PropexSegment::Index(4)]);
    single.as_mut_slice()[0] = p("x");
    assert_eq!(single, PropexPath::Single(p("x")));
    let multi = parse("a.b").unwrap();
    assert_eq!(multi.as_slice()[1].as_str(), Some("b"));
    assert_eq!(multi.as_slice()[0].as_index(), None);
    assert_eq!(PropexSegment::Index(7).as_index(), Some(7));
    assert_eq!(PropexSegment::Index(7).as_str(), None);
}

#[test]
fn segment_text_is_bracketed() {
    assert_eq!(PropexSegment::Index(0).to_string(), "[0]");
    assert_eq!(PropexSegment::Index(1207).to_string(), "[1207]");
    assert_eq!(p("name").to_string(), "[\"name\"]");
    let nested = PropexSegment::Nested(vec![p("msg"), p("topic"), PropexSegment::Index(3)]);
    assert_eq!(nested.to_string(), "[[\"msg\"][\"topic\"][3]]");
    assert_eq!(PropexSegment::Nested(vec![]).to_string(), "[]");
}

#[test]
fn dotted_identifiers_read_as_properties() {
    let path = parse("a.b_c.$d9").unwrap();
    assert_eq!(path.as_slice(), &[p("a"), p("b_c"), p("$d9")]);
    let path = parse("payload").unwrap();
    assert_eq!(path.as_slice(), &[p("payload")]);
}
