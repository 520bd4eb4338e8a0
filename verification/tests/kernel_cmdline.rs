use bootc_core::kernel_cmdline::{
    Cmdline, CmdlineError, Parameter, ParameterKey, ParameterKeyStr, ParameterStr,
    INITRD_ARG_PREFIX, ROOTFLAGS,
};

// convenience method for tests
fn param(s: &str) -> Parameter<'_> {
    Parameter::parse(s.as_bytes()).0.unwrap()
}

#[test]
fn test_parameter_parse() {
    let (p, rest) = Parameter::parse(b"foo");
    let p = p.unwrap();
    assert_eq!(p.key.0, b"foo");
    assert_eq!(p.value, None);
    assert_eq!(rest, "".as_bytes());

    // should consume one parameter and return the rest of the input
    let (p, rest) = Parameter::parse(b"foo=bar baz");
    let p = p.unwrap();
    assert_eq!(p.key.0, b"foo");
    assert_eq!(p.value, Some(b"bar".as_slice()));
    assert_eq!(rest, " baz".as_bytes());

    // should return None on empty or whitespace inputs
    let (p, rest) = Parameter::parse(b"");
    assert!(p.is_none());
    assert_eq!(rest, b"".as_slice());
    let (p, rest) = Parameter::parse(b"   ");
    assert!(p.is_none());
    assert_eq!(rest, b"".as_slice());
}

#[test]
fn test_parameter_simple() {
    let switch = param("foo");
    assert_eq!(switch.key.0, b"foo");
    assert_eq!(switch.value, None);

    let kv = param("bar=baz");
    assert_eq!(kv.key.0, b"bar");
    assert_eq!(kv.value, Some(b"baz".as_slice()));
}

#[test]
fn test_parameter_quoted() {
    let p = param("foo=\"quoted value\"");
    assert_eq!(p.value, Some(b"quoted value".as_slice()));
}

#[test]
fn test_parameter_extra_whitespace() {
    let p = param("  foo=bar  ");
    assert_eq!(p.key.0, b"foo");
    assert_eq!(p.value, Some(b"bar".as_slice()));
}

#[test]
fn test_parameter_internal_key_whitespace() {
    let (p, rest) = Parameter::parse("foo bar=baz".as_bytes());
    let p = p.unwrap();
    assert_eq!(p.key.0, b"foo");
    assert_eq!(p.value, None);
    assert_eq!(rest, b" bar=baz");
}

#[test]
fn test_parameter_pathological() {
    // valid things that certified insane people would do

    // quotes don't get removed from keys
    let p = param("\"\"\"");
    assert_eq!(p.key.0, b"\"\"\"");

    // quotes only get stripped from the absolute ends of values
    let p = param("foo=\"internal\"quotes\"are\"ok\"");
    assert_eq!(p.value, Some(b"internal\"quotes\"are\"ok".as_slice()));

    // non-UTF8 things are in fact valid
    let non_utf8_byte = b"\xff";
    #[allow(invalid_from_utf8)]
    let failed_conversion = std::str::from_utf8(non_utf8_byte);
    assert!(failed_conversion.is_err());
    let mut p = b"foo=".to_vec();
    p.push(non_utf8_byte[0]);
    let (p, _rest) = Parameter::parse(&p);
    let p = p.unwrap();
    assert_eq!(p.value, Some(non_utf8_byte.as_slice()));
}

#[test]
fn test_parameter_equality() {
    // substrings are not equal
    let foo = param("foo");
    let bar = param("foobar");
    assert_ne!(foo, bar);
    assert_ne!(bar, foo);

    // dashes and underscores are treated equally
    let dashes = param("a-delimited-param");
    let underscores = param("a_delimited_param");
    assert_eq!(dashes, underscores);

    // same key, same values is equal
    let dashes = param("a-delimited-param=same_values");
    let underscores = param("a_delimited_param=same_values");
    assert_eq!(dashes, underscores);

    // same key, different values is not equal
    let dashes = param("a-delimited-param=different_values");
    let underscores = param("a_delimited_param=DiFfErEnT_valUEZ");
    assert_ne!(dashes, underscores);

    // mixed variants are never equal
    let switch = param("same_key");
    let keyvalue = param("same_key=but_with_a_value");
    assert_ne!(switch, keyvalue);
}

#[test]
fn test_kargs_simple() {
    // example taken lovingly from:
    // https://git.kernel.org/pub/scm/linux/kernel/git/torvalds/linux.git/tree/kernel/params.c?id=89748acdf226fd1a8775ff6fa2703f8412b286c8#n160
    let kargs = Cmdline::from(b"foo=bar,bar2 baz=fuz wiz".as_slice());
    let mut iter = kargs.iter();

    assert_eq!(iter.next(), Some(param("foo=bar,bar2")));
    assert_eq!(iter.next(), Some(param("baz=fuz")));
    assert_eq!(iter.next(), Some(param("wiz")));
    assert_eq!(iter.next(), None);

    // Test the find API
    assert_eq!(kargs.find(b"foo").unwrap().value.unwrap(), b"bar,bar2");
    assert!(kargs.find(b"nothing").is_none());
}

#[test]
fn test_kargs_find_dash_hyphen() {
    let kargs = Cmdline::from(b"a-b=1 a_b=2".as_slice());
    // find should find the first one, which is a-b=1
    let p = kargs.find(b"a_b").unwrap();
    assert_eq!(p.key.0, b"a-b");
    assert_eq!(p.value.unwrap(), b"1");
    let p = kargs.find(b"a-b").unwrap();
    assert_eq!(p.key.0, b"a-b");
    assert_eq!(p.value.unwrap(), b"1");

    let kargs = Cmdline::from(b"a_b=2 a-b=1".as_slice());
    // find should find the first one, which is a_b=2
    let p = kargs.find(b"a_b").unwrap();
    assert_eq!(p.key.0, b"a_b");
    assert_eq!(p.value.unwrap(), b"2");
    let p = kargs.find(b"a-b").unwrap();
    assert_eq!(p.key.0, b"a_b");
    assert_eq!(p.value.unwrap(), b"2");
}

#[test]
fn test_kargs_extra_whitespace() {
    let kargs = Cmdline::from(b"  foo=bar    baz=fuz  wiz   ".as_slice());
    let mut iter = kargs.iter();

    assert_eq!(iter.next(), Some(param("foo=bar")));
    assert_eq!(iter.next(), Some(param("baz=fuz")));
    assert_eq!(iter.next(), Some(param("wiz")));
    assert_eq!(iter.next(), None);
}

#[test]
fn test_value_of() {
    let kargs = Cmdline::from(b"foo=bar baz=qux switch".as_slice());

    // Test existing key with value
    assert_eq!(kargs.value_of(b"foo"), Some(b"bar".as_slice()));
    assert_eq!(kargs.value_of(b"baz"), Some(b"qux".as_slice()));

    // Test key without value
    assert_eq!(kargs.value_of(b"switch"), None);

    // Test non-existent key
    assert_eq!(kargs.value_of(b"missing"), None);

    // Test dash/underscore equivalence
    let kargs = Cmdline::from(b"dash-key=value1 under_key=value2".as_slice());
    assert_eq!(kargs.value_of(b"dash_key"), Some(b"value1".as_slice()));
    assert_eq!(kargs.value_of(b"under-key"), Some(b"value2".as_slice()));
}

#[test]
fn test_value_of_utf8() {
    let kargs = Cmdline::from(b"foo=bar baz=qux switch".as_slice());

    // Test existing key with UTF-8 value
    assert_eq!(kargs.value_of_utf8("foo").unwrap(), Some("bar"));
    assert_eq!(kargs.value_of_utf8("baz").unwrap(), Some("qux"));

    // Test key without value
    assert_eq!(kargs.value_of_utf8("switch").unwrap(), None);

    // Test non-existent key
    assert_eq!(kargs.value_of_utf8("missing").unwrap(), None);

    // Test dash/underscore equivalence
    let kargs = Cmdline::from(b"dash-key=value1 under_key=value2".as_slice());
    assert_eq!(kargs.value_of_utf8("dash_key").unwrap(), Some("value1"));
    assert_eq!(kargs.value_of_utf8("under-key").unwrap(), Some("value2"));

    // Test invalid UTF-8
    let mut invalid_utf8 = b"invalid=".to_vec();
    invalid_utf8.push(0xff);
    let kargs = Cmdline::from(&invalid_utf8);
    assert!(kargs.value_of_utf8("invalid").is_err());
}

#[test]
fn test_require_value_of() {
    let kargs = Cmdline::from(b"foo=bar baz=qux switch".as_slice());

    // Test existing key with value
    assert_eq!(kargs.require_value_of(b"foo").unwrap(), b"bar");
    assert_eq!(kargs.require_value_of(b"baz").unwrap(), b"qux");

    // Test key without value should fail
    let err = kargs.require_value_of(b"switch").unwrap_err();
    assert!(err
        .to_string()
        .contains("Failed to find kernel argument 'switch'"));

    // Test non-existent key should fail
    let err = kargs.require_value_of(b"missing").unwrap_err();
    assert!(err
        .to_string()
        .contains("Failed to find kernel argument 'missing'"));

    // Test dash/underscore equivalence
    let kargs = Cmdline::from(b"dash-key=value1 under_key=value2".as_slice());
    assert_eq!(kargs.require_value_of(b"dash_key").unwrap(), b"value1");
    assert_eq!(kargs.require_value_of(b"under-key").unwrap(), b"value2");
}

#[test]
fn test_require_value_of_utf8() {
    let kargs = Cmdline::from(b"foo=bar baz=qux switch".as_slice());

    // Test existing key with UTF-8 value
    assert_eq!(kargs.require_value_of_utf8("foo").unwrap(), "bar");
    assert_eq!(kargs.require_value_of_utf8("baz").unwrap(), "qux");

    // Test key without value should fail
    let err = kargs.require_value_of_utf8("switch").unwrap_err();
    assert!(err
        .to_string()
        .contains("Failed to find kernel argument 'switch'"));

    // Test non-existent key should fail
    let err = kargs.require_value_of_utf8("missing").unwrap_err();
    assert!(err
        .to_string()
        .contains("Failed to find kernel argument 'missing'"));

    // Test dash/underscore equivalence
    let kargs = Cmdline::from(b"dash-key=value1 under_key=value2".as_slice());
    assert_eq!(kargs.require_value_of_utf8("dash_key").unwrap(), "value1");
    assert_eq!(kargs.require_value_of_utf8("under-key").unwrap(), "value2");

    // Test invalid UTF-8 should fail
    let mut invalid_utf8 = b"invalid=".to_vec();
    invalid_utf8.push(0xff);
    let kargs = Cmdline::from(&invalid_utf8);
    assert!(kargs.require_value_of_utf8("invalid").is_err());
}

#[test]
fn test_find_str() {
    let kargs = Cmdline::from(b"foo=bar baz=qux switch rd.break".as_slice());
    let p = kargs.find_str("foo").unwrap();
    assert_eq!(p, ParameterStr::from("foo=bar"));
    assert_eq!(p.as_ref(), "foo=bar");
    let p = kargs.find_str("rd.break").unwrap();
    assert_eq!(p, ParameterStr::from("rd.break"));
    assert!(kargs.find_str("missing").is_none());
}

#[test]
fn test_find_all_str() {
    let kargs =
        Cmdline::from(b"foo=bar rd.foo=a rd.bar=b rd.baz rd.qux=c notrd.val=d".as_slice());
    let mut rd_args: Vec<_> = kargs.find_all_starting_with_str("rd.");
    rd_args.sort_by(|a, b| a.key.0.cmp(b.key.0));
    assert_eq!(rd_args.len(), 4);
    assert_eq!(rd_args[0], ParameterStr::from("rd.bar=b"));
    assert_eq!(rd_args[1], ParameterStr::from("rd.baz"));
    assert_eq!(rd_args[2], ParameterStr::from("rd.foo=a"));
    assert_eq!(rd_args[3], ParameterStr::from("rd.qux=c"));
}

#[test]
fn test_param_to_str() {
    let p = param("foo=bar");
    let p_str = p.to_str().unwrap();
    assert_eq!(p_str, ParameterStr::from("foo=bar"));
    let non_utf8_byte = b"\xff";
    let mut p_u8 = b"foo=".to_vec();
    p_u8.push(non_utf8_byte[0]);
    let (p, _rest) = Parameter::parse(&p_u8);
    let p = p.unwrap();
    assert!(p.to_str().is_none());
}

#[test]
fn test_param_key_str_eq() {
    let k1 = ParameterKeyStr("a-b");
    let k2 = ParameterKeyStr("a_b");
    assert_eq!(k1, k2);
    let k1 = ParameterKeyStr("a-b");
    let k2 = ParameterKeyStr("a-c");
    assert_ne!(k1, k2);
}

#[test]
fn test_kargs_non_utf8() {
    let non_utf8_val = b"an_invalid_key=\xff";
    let mut kargs_bytes = b"foo=bar ".to_vec();
    kargs_bytes.extend_from_slice(non_utf8_val);
    kargs_bytes.extend_from_slice(b" baz=qux");
    let kargs = Cmdline::from(kargs_bytes.as_slice());

    // We should be able to find the valid kargs
    assert_eq!(kargs.find_str("foo").unwrap().value, Some("bar"));
    assert_eq!(kargs.find_str("baz").unwrap().value, Some("qux"));

    // But we should not find the invalid one via find_str
    assert!(kargs.find(b"an_invalid_key").unwrap().to_str().is_none());

    // And even using the raw find, trying to convert it to_str will fail.
    let raw_param = kargs.find(b"an_invalid_key").unwrap();
    assert_eq!(raw_param.value.unwrap(), b"\xff");
}

#[test]
fn constants_name_the_usual_arguments() {
    assert_eq!(INITRD_ARG_PREFIX, "rd.");
    assert_eq!(ROOTFLAGS, "rootflags");
}

#[test]
fn parse_keeps_the_whole_token_as_parameter() {
    let (p, rest) = Parameter::parse(b"\t root=\"/dev/sda 1\"\nquiet");
    let p = p.unwrap();
    assert_eq!(p.parameter, b"root=\"/dev/sda 1\"");
    assert_eq!(p.key.0, b"root");
    assert_eq!(p.value, Some(b"/dev/sda 1".as_slice()));
    assert_eq!(rest, b"\nquiet");
}

#[test]
fn parse_splits_on_every_kind_of_ascii_whitespace() {
    for sep in [b' ', b'\t', b'\n', 0x0c, b'\r'] {
        let mut line = b"a=1".to_vec();
        line.push(sep);
        line.extend_from_slice(b"b=2");
        let (p, rest) = Parameter::parse(&line);
        assert_eq!(p.unwrap().value, Some(b"1".as_slice()));
        assert_eq!(rest.len(), 4);
        assert_eq!(rest[0], sep);
    }
    // a vertical tab is no ASCII whitespace
    let (p, rest) = Parameter::parse(b"a=1\x0bb=2");
    assert_eq!(p.unwrap().value, Some(b"1\x0bb=2".as_slice()));
    assert_eq!(rest, b"");
}

#[test]
fn parse_ignores_whitespace_inside_quotes() {
    let (p, rest) = Parameter::parse(b"opts=\"a b\tc\" next");
    let p = p.unwrap();
    assert_eq!(p.value, Some(b"a b\tc".as_slice()));
    assert_eq!(rest, b" next");

    // an unbalanced quote runs to the end of the line
    let (p, rest) = Parameter::parse(b"opts=\"a b c");
    let p = p.unwrap();
    assert_eq!(p.parameter, b"opts=\"a b c");
    assert_eq!(rest, b"");
}

#[test]
fn value_quotes_are_stripped_as_a_pair_or_at_the_end_only() {
    // only a trailing quote: stripped
    assert_eq!(param("k=abc\"").value, Some(b"abc".as_slice()));
    // only a leading quote: the value is left as it is
    assert_eq!(param("k=\"abc").value, Some(b"\"abc".as_slice()));
    // a single quote stays
    assert_eq!(param("k=\"").value, Some(b"\"".as_slice()));
    // a pair of quotes around nothing
    assert_eq!(param("k=\"\"").value, Some(b"".as_slice()));
    // an empty value
    assert_eq!(param("k=").value, Some(b"".as_slice()));
    // only the first `=` splits
    assert_eq!(param("k=a=b").key.0, b"k");
    assert_eq!(param("k=a=b").value, Some(b"a=b".as_slice()));
    // an empty key
    assert_eq!(param("=v").key.0, b"");
    assert_eq!(param("=v").value, Some(b"v".as_slice()));
}

#[test]
fn parameter_str_strips_quotes_like_parameter() {
    for text in ["k=abc\"", "k=\"abc", "k=\"", "k=\"\"", "k=", "k=a=b", "=v", "k", "k=\"a b\""] {
        let bytes = param(text);
        let s = ParameterStr::from(text);
        assert_eq!(s.parameter, text);
        assert_eq!(s.key.0.as_bytes(), bytes.key.0);
        assert_eq!(s.value.map(|v| v.as_bytes()), bytes.value);
    }
}

#[test]
fn parameter_str_handles_multibyte_text() {
    let s = ParameterStr::from("clé=\"žluťoučký kůň\"");
    assert_eq!(s.key.0, "clé");
    assert_eq!(s.value, Some("žluťoučký kůň"));
    let s = ParameterStr::from("é=ü");
    assert_eq!(s.key.0, "é");
    assert_eq!(s.value, Some("ü"));
    let s = ParameterStr::from("k=\"é");
    assert_eq!(s.value, Some("\"é"));
    let s = ParameterStr::from("k=é\"");
    assert_eq!(s.value, Some("é"));
}

#[test]
fn key_equality_is_case_sensitive_and_length_sensitive() {
    assert_eq!(ParameterKey(b"a-b_c"), ParameterKey(b"a_b-c"));
    assert_ne!(ParameterKey(b"abc"), ParameterKey(b"ABC"));
    assert_ne!(ParameterKey(b"ab"), ParameterKey(b"abc"));
    assert_eq!(ParameterKey(b""), ParameterKey(b""));
}

#[test]
fn iter_yields_nothing_for_blank_lines() {
    let kargs = Cmdline::from(b"".as_slice());
    assert_eq!(kargs.iter().next(), None);
    let kargs = Cmdline::from(b" \t\n ".as_slice());
    let mut iter = kargs.iter();
    assert_eq!(iter.next(), None);
    assert_eq!(iter.0, b"");
}

#[test]
fn owned_command_line_parses_like_a_borrowed_one() {
    let kargs = Cmdline::from_vec(b"foo=bar baz".to_vec());
    assert_eq!(kargs.as_bytes(), b"foo=bar baz");
    assert_eq!(kargs.value_of(b"foo"), Some(b"bar".as_slice()));
    assert!(kargs.find(b"baz").unwrap().value.is_none());
}

#[test]
fn find_str_passes_over_parameters_that_are_not_utf8() {
    let mut line = b"key=\xff ".to_vec();
    line.extend_from_slice(b"key=ok");
    let kargs = Cmdline::from(&line);
    // the raw search finds the first, the UTF-8 search the second
    assert_eq!(kargs.find(b"key").unwrap().value, Some(b"\xff".as_slice()));
    assert_eq!(kargs.find_str("key").unwrap().value, Some("ok"));
}

#[test]
fn find_all_keeps_command_line_order_and_skips_non_utf8() {
    let mut line = b"rd.z=1 rd.bad=\xff ".to_vec();
    line.extend_from_slice(b"other rd.a rd");
    let kargs = Cmdline::from(&line);
    let found = kargs.find_all_starting_with_str(INITRD_ARG_PREFIX);
    assert_eq!(found.len(), 2);
    assert_eq!(found[0], ParameterStr::from("rd.z=1"));
    assert_eq!(found[1], ParameterStr::from("rd.a"));
    // the empty prefix matches every UTF-8 parameter
    assert_eq!(kargs.find_all_starting_with_str("").len(), 4);
}

#[test]
fn missing_value_error_names_the_key() {
    let kargs = Cmdline::from(b"switch".as_slice());
    match kargs.require_value_of(b"switch") {
        Err(CmdlineError::NotFound { key }) => assert_eq!(key, "switch"),
        other => panic!("unexpected result: {:?}", other),
    }
    let err = kargs.require_value_of_utf8("gone").unwrap_err();
    assert_eq!(err.to_string(), "Failed to find kernel argument 'gone'");
}

#[test]
fn missing_value_error_replaces_what_is_not_utf8_in_the_key() {
    let kargs = Cmdline::from(b"".as_slice());
    let err = kargs.require_value_of(b"k\xffey").unwrap_err();
    assert_eq!(err.to_string(), "Failed to find kernel argument 'k\u{fffd}ey'");
}

#[test]
fn invalid_utf8_value_is_its_own_error() {
    let mut line = b"invalid=".to_vec();
    line.push(0xff);
    let kargs = Cmdline::from(&line);
    match kargs.require_value_of_utf8("invalid") {
        Err(e @ CmdlineError::InvalidUtf8 { .. }) => {
            assert!(e.to_string().contains("utf-8"));
        },
        other => panic!("unexpected result: {:?}", other),
    }
    // the raw value can still be had
    assert_eq!(kargs.require_value_of(b"invalid").unwrap(), b"\xff");
}
