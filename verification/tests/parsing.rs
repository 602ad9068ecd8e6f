use toml::document::parse_from_bytes;
use toml::error::Error;
use toml::value::{Decimal, Value};

fn parse(text: &str) -> Result<Value, Error> {
    parse_from_bytes(text.as_bytes())
}

fn to_f64(d: &Decimal) -> f64 {
    let mut num: f64 = 0.0;
    let mut div: f64 = 10.0;
    for digit in d.digits.iter() {
        num = num + (*digit as f64) / div;
        div = div * 10.0;
    }
    let num = (d.whole as f64) + num;
    if d.negative {
        -num
    } else {
        num
    }
}

#[test]
fn scalar_bool_round_trip() {
    let v = parse("key = true").unwrap();
    assert_eq!(v.lookup("key"), Some(&Value::Boolean(true)));
    let v = parse("key = false").unwrap();
    assert_eq!(v.lookup("key"), Some(&Value::Boolean(false)));
}

#[test]
fn scalar_integer_round_trip() {
    let v = parse("key = 42").unwrap();
    assert_eq!(v.lookup("key"), Some(&Value::PosInt(42)));
    let v = parse("key = -17").unwrap();
    assert_eq!(v.lookup("key"), Some(&Value::NegInt(17)));
    let v = parse("key = 0").unwrap();
    assert_eq!(v.lookup("key"), Some(&Value::PosInt(0)));
    let v = parse("key = -0").unwrap();
    assert_eq!(v.lookup("key"), Some(&Value::NegInt(0)));
    let v = parse("key = 18446744073709551615").unwrap();
    assert_eq!(v.lookup("key"), Some(&Value::PosInt(u64::MAX)));
}

#[test]
fn integer_beyond_64_bits_is_rejected() {
    assert_eq!(parse("key = 18446744073709551616"), Err(Error::ParseError));
    assert_eq!(parse("key = -99999999999999999999"), Err(Error::ParseError));
}

#[test]
fn scalar_float_round_trip() {
    let v = parse("key = 3.25").unwrap();
    let d = v.lookup("key").unwrap().get_float().unwrap();
    assert_eq!(d, &Decimal { negative: false, whole: 3, digits: vec![2, 5] });
    assert_eq!(to_f64(d), 3.25);
    let v = parse("key = -0.5").unwrap();
    let d = v.lookup("key").unwrap().get_float().unwrap();
    assert_eq!(d, &Decimal { negative: true, whole: 0, digits: vec![5] });
    assert_eq!(to_f64(d), -0.5);
}

#[test]
fn float_needs_a_digit_after_the_point() {
    assert_eq!(parse("key = 1."), Err(Error::ParseError));
    assert_eq!(parse("key = 1.x"), Err(Error::ParseError));
    assert_eq!(parse("key = -.5"), Err(Error::ParseError));
}

#[test]
fn scalar_string_round_trip() {
    let v = parse("key = \"a\\tb\\n\\\"q\\\"\\\\\\/\\u0041\\b\\f\\r\"").unwrap();
    assert_eq!(
        v.lookup("key"),
        Some(&Value::String("a\tb\n\"q\"\\/A\u{8}\u{c}\r".to_string()))
    );
    let v = parse("key = \"\"").unwrap();
    assert_eq!(v.lookup("key"), Some(&Value::String(String::new())));
    let v = parse("key = \"h\u{e9}llo \\u00e9\"").unwrap();
    assert_eq!(v.lookup("key"), Some(&Value::String("h\u{e9}llo \u{e9}".to_string())));
}

#[test]
fn string_with_bare_control_character_is_rejected() {
    assert_eq!(parse("key = \"a\nb\""), Err(Error::ParseError));
    assert_eq!(parse("key = \"a\rb\""), Err(Error::ParseError));
    assert_eq!(parse("key = \"a\u{c}b\""), Err(Error::ParseError));
    assert_eq!(parse("key = \"a\u{8}b\""), Err(Error::ParseError));
}

#[test]
fn string_with_bad_escape_is_rejected() {
    assert_eq!(parse("key = \"\\x\""), Err(Error::ParseError));
    assert_eq!(parse("key = \"\\u12\""), Err(Error::ParseError));
    assert_eq!(parse("key = \"\\ud800\""), Err(Error::ParseError));
    assert_eq!(parse("key = \"open"), Err(Error::ParseError));
}

#[test]
fn scalar_datetime_round_trip() {
    let v = parse("key = 1979-05-27T07:32:00Z").unwrap();
    assert_eq!(v.lookup("key"), Some(&Value::Datetime(1979, 5, 27, 7, 32, 0)));
    let v = parse("key = 2000-12-31T24:60:60Z").unwrap();
    assert_eq!(v.lookup("key"), Some(&Value::Datetime(2000, 12, 31, 24, 60, 60)));
}

#[test]
fn malformed_datetime_is_rejected() {
    assert_eq!(parse("key = 1979-13-27T07:32:00Z"), Err(Error::ParseError));
    assert_eq!(parse("key = 1979-00-27T07:32:00Z"), Err(Error::ParseError));
    assert_eq!(parse("key = 1979-05-32T07:32:00Z"), Err(Error::ParseError));
    assert_eq!(parse("key = 1979-05-00T07:32:00Z"), Err(Error::ParseError));
    assert_eq!(parse("key = 1979-05-27T25:32:00Z"), Err(Error::ParseError));
    assert_eq!(parse("key = 1979-05-27T07:61:00Z"), Err(Error::ParseError));
    assert_eq!(parse("key = 1979-05-27T07:32:61Z"), Err(Error::ParseError));
    assert_eq!(parse("key = 1979-05-27 07:32:00Z"), Err(Error::ParseError));
    assert_eq!(parse("key = 1979-05-27T07:32:00"), Err(Error::ParseError));
    assert_eq!(parse("key = 979-05-27T07:32:00Z"), Err(Error::ParseError));
    assert_eq!(parse("key = 19790-05-27T07:32:00Z"), Err(Error::ParseError));
    assert_eq!(parse("key = 1979-5-27T07:32:00Z"), Err(Error::ParseError));
}

#[test]
fn duplicate_key_is_rejected() {
    assert_eq!(parse("a = 1\na = 2"), Err(Error::ParseError));
}

#[test]
fn duplicate_section_is_rejected() {
    assert_eq!(parse("[s]\n[s]"), Err(Error::ParseError));
}

#[test]
fn implicit_table_can_be_opened_once() {
    let v = parse("[a.b]\nx = 1\n[a]\ny = 2").unwrap();
    assert_eq!(v.lookup("a.b.x"), Some(&Value::PosInt(1)));
    assert_eq!(v.lookup("a.y"), Some(&Value::PosInt(2)));
    assert_eq!(parse("[a.b]\n[a]\n[a]"), Err(Error::ParseError));
}

#[test]
fn array_of_mixed_kinds_is_rejected() {
    assert_eq!(parse("x = [1, \"a\"]"), Err(Error::ParseError));
    assert_eq!(parse("x = [1, 2.5]"), Err(Error::ParseError));
    assert_eq!(parse("x = [true, 1]"), Err(Error::ParseError));
}

#[test]
fn array_with_an_element_that_fails_part_way_is_rejected() {
    assert_eq!(parse("x = [1, tru]"), Err(Error::ParseError));
    assert_eq!(parse("x = [1, -]"), Err(Error::ParseError));
    assert_eq!(parse("x = [tru]"), Err(Error::ParseError));
    assert_eq!(parse("x = [\"open]"), Err(Error::ParseError));
    assert_eq!(parse("x = [1, 1979-05-27]"), Err(Error::ParseError));
    assert_eq!(parse("x = [1, [2, fals]]"), Err(Error::ParseError));
    assert_eq!(parse("x = [1, 2.]"), Err(Error::ParseError));
}

#[test]
fn array_may_end_with_a_comma() {
    let v = parse("x = [1, 2,]").unwrap();
    assert_eq!(v.lookup("x"), Some(&Value::Array(vec![Value::PosInt(1), Value::PosInt(2)])));
    let v = parse("x = [1, 2, # last\n ]").unwrap();
    assert_eq!(v.lookup("x"), Some(&Value::Array(vec![Value::PosInt(1), Value::PosInt(2)])));
    assert_eq!(parse("x = [1, 2, x]"), Err(Error::ParseError));
    assert_eq!(parse("x = [1,, 2]"), Err(Error::ParseError));
}

#[test]
fn array_of_integers_of_both_signs() {
    let v = parse("x = [1, 2, -3]").unwrap();
    assert_eq!(
        v.lookup("x"),
        Some(&Value::Array(vec![Value::PosInt(1), Value::PosInt(2), Value::NegInt(3)]))
    );
    assert_eq!(v.lookup("x.1"), Some(&Value::PosInt(2)));
    assert_eq!(v.lookup("x.3"), None);
}

#[test]
fn arrays_nest_and_take_blanks_and_comments() {
    let v = parse("x = [ [1, 2], # first\n [\"a\"],\n [] ,\n]").unwrap();
    assert_eq!(
        v.lookup("x"),
        Some(&Value::Array(vec![
            Value::Array(vec![Value::PosInt(1), Value::PosInt(2)]),
            Value::Array(vec![Value::String("a".to_string())]),
            Value::Array(vec![]),
        ]))
    );
    assert_eq!(v.lookup("x.0.1"), Some(&Value::PosInt(2)));
    let v = parse("x = []").unwrap();
    assert_eq!(v.lookup("x"), Some(&Value::Array(vec![])));
    assert_eq!(parse("x = [1, 2"), Err(Error::ParseError));
    assert_eq!(parse("x = [1 2]"), Err(Error::ParseError));
}

#[test]
fn table_array_appends() {
    let v = parse("[[p]]\nid=1\n[[p]]\nid=2").unwrap();
    match v.lookup("p") {
        Some(Value::TableArray(tables)) => {
            assert_eq!(tables.len(), 2);
            assert!(matches!(tables[0], Value::Table(_, _)));
            assert!(matches!(tables[1], Value::Table(_, _)));
        }
        other => panic!("not a table array: {:?}", other),
    }
    assert_eq!(v.lookup("p.0.id"), Some(&Value::PosInt(1)));
    assert_eq!(v.lookup("p.1.id"), Some(&Value::PosInt(2)));
    assert_eq!(v.lookup("p.2"), None);
    assert_eq!(parse("[[p]]\nid=1\n[[p]]\nid=2\n[p]"), Err(Error::ParseError));
}

#[test]
fn array_header_on_a_plain_table_is_rejected() {
    assert_eq!(parse("[p]\n[[p]]"), Err(Error::ParseError));
    assert_eq!(parse("p = 1\n[[p]]"), Err(Error::ParseError));
    assert_eq!(parse("p = 1\n[p]"), Err(Error::ParseError));
    assert_eq!(parse("p = 1\n[p.q]"), Err(Error::ParseError));
}

#[test]
fn sections_below_a_table_array_go_to_its_last_table() {
    let v = parse("[[p]]\nid=1\n[p.q]\nx=1\n[[p]]\nid=2\n[p.q]\nx=2").unwrap();
    assert_eq!(v.lookup("p.0.q.x"), Some(&Value::PosInt(1)));
    assert_eq!(v.lookup("p.1.q.x"), Some(&Value::PosInt(2)));
}

#[test]
fn dotted_path_creates_tables() {
    let v = parse("[a.b.c]\nx = 1").unwrap();
    assert_eq!(v.lookup("a.b.c.x"), Some(&Value::PosInt(1)));
    match v.lookup("a.b") {
        Some(Value::Table(opened, entries)) => {
            assert!(!*opened);
            assert_eq!(entries.len(), 1);
            assert_eq!(entries[0].0, "c");
        }
        other => panic!("not a table: {:?}", other),
    }
    assert!(matches!(v.lookup("a.b.c"), Some(Value::Table(true, _))));
    assert_eq!(v.lookup("a.x"), None);
}

#[test]
fn section_name_with_empty_segment_is_rejected() {
    assert_eq!(parse("[a..b]"), Err(Error::ParseError));
    assert_eq!(parse("[.a]"), Err(Error::ParseError));
    assert_eq!(parse("[a.]"), Err(Error::ParseError));
    assert_eq!(parse("[]"), Err(Error::ParseError));
    assert_eq!(parse("[[]]"), Err(Error::ParseError));
    assert_eq!(parse("[a"), Err(Error::ParseError));
    assert_eq!(parse("[[a]"), Err(Error::ParseError));
}

#[test]
fn empty_document_is_an_empty_root() {
    assert_eq!(parse(""), Ok(Value::Table(false, vec![])));
    assert_eq!(parse("  \n# only a comment"), Ok(Value::Table(false, vec![])));
}

#[test]
fn entries_keep_their_order() {
    let v = parse("b = 1\na = 2 # two\n\n[s]\nc = 3").unwrap();
    assert_eq!(
        v,
        Value::Table(
            false,
            vec![
                ("b".to_string(), Value::PosInt(1)),
                ("a".to_string(), Value::PosInt(2)),
                (
                    "s".to_string(),
                    Value::Table(true, vec![("c".to_string(), Value::PosInt(3))])
                ),
            ]
        )
    );
}

#[test]
fn assignment_needs_an_equals_sign_and_a_value() {
    assert_eq!(parse("a"), Err(Error::ParseError));
    assert_eq!(parse("a 1"), Err(Error::ParseError));
    assert_eq!(parse("a ="), Err(Error::ParseError));
    assert_eq!(parse("a = x"), Err(Error::ParseError));
    assert_eq!(parse("a = tru"), Err(Error::ParseError));
    assert_eq!(parse("a = -"), Err(Error::ParseError));
    let v = parse("a \n = \n 1").unwrap();
    assert_eq!(v.lookup("a"), Some(&Value::PosInt(1)));
}

#[test]
fn bytes_that_are_not_utf8_are_a_read_fault() {
    assert_eq!(
        parse_from_bytes(b"a = 1\n\xff"),
        Err(Error::IOError("stream did not contain valid UTF-8".to_string()))
    );
    assert_eq!(parse_from_bytes(b"a = \xff"), Err(Error::ParseError));
    assert_eq!(
        parse_from_bytes(b"a = 1\n\xc0\x80"),
        Err(Error::IOError("stream did not contain valid UTF-8".to_string()))
    );
    assert_eq!(
        parse_from_bytes(b"a = 1\n\xed\xa0\x80"),
        Err(Error::IOError("stream did not contain valid UTF-8".to_string()))
    );
    let v = parse_from_bytes("k = \"\u{20ac}\u{1f600}\"".as_bytes()).unwrap();
    assert_eq!(v.lookup("k"), Some(&Value::String("\u{20ac}\u{1f600}".to_string())));
}
