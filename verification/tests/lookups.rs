use toml::builder::ValueBuilder;
use toml::document::{parse_from_buffer, parse_from_bytes, parse_from_partial};
use toml::error::Error;
use toml::lookup::{parse_index, parse_step, PathElement};
use toml::parser::{digit_of, Parser};
use toml::text::{chars_of, split_segments};
use toml::utf8::decode_prefix;
use toml::value::{have_equiv_types, Decimal, Value};
use toml::visitor::Visitor;

fn tree(text: &str) -> Value {
    parse_from_bytes(text.as_bytes()).unwrap()
}

fn chars(text: &str) -> Vec<char> {
    text.chars().collect()
}

#[test]
fn lookup_is_repeatable() {
    let v = tree("[abc.def]\na = \"x\"\n[[products]]\nn = 1");
    let first = v.lookup("abc.def.a").cloned();
    let second = v.lookup("abc.def.a").cloned();
    assert_eq!(first, Some(Value::String("x".to_string())));
    assert_eq!(first, second);
    assert_eq!(v.lookup("products.0"), v.lookup("products.0"));
    assert_eq!(v.lookup("nothing"), None);
    assert_eq!(v.lookup("nothing"), None);
}

#[test]
fn lookup_short_circuits_on_mismatch() {
    let v = tree("x = [1, 2]\n[t]\ny = 1\n[[ta]]\nz = 1");
    assert_eq!(v.lookup("x.y"), None);
    assert_eq!(v.lookup("t.0"), None);
    assert_eq!(v.lookup("ta.z"), None);
    assert_eq!(v.lookup("ta.0.z"), Some(&Value::PosInt(1)));
    assert_eq!(v.lookup("ta.1.z"), None);
    assert_eq!(v.lookup("t.y.q"), None);
    assert_eq!(v.lookup(""), None);
    assert_eq!(v.lookup("t..y"), None);
    assert_eq!(v.lookup("x.01"), Some(&Value::PosInt(2)));
    assert_eq!(v.lookup("x.99999999999999999999999999"), None);
}

#[test]
fn single_step_accessors() {
    let v = tree("x = [1, 2]\n[t]\ny = 1\n[[ta]]\nz = 1");
    assert_eq!(v.lookup_key("x").unwrap().lookup_vec(1), Some(&Value::PosInt(2)));
    assert_eq!(v.lookup_key("x").unwrap().lookup_vec(2), None);
    assert_eq!(v.lookup_key("x").unwrap().lookup_idx(0), Some(&Value::PosInt(1)));
    assert_eq!(v.lookup_key("ta").unwrap().lookup_vec(0), None);
    assert!(matches!(v.lookup_key("ta").unwrap().lookup_idx(0), Some(Value::Table(_, _))));
    assert_eq!(v.lookup_key("ta").unwrap().lookup_idx(1), None);
    assert_eq!(v.lookup_key("t").unwrap().lookup_key("y"), Some(&Value::PosInt(1)));
    assert_eq!(v.lookup_key("t").unwrap().lookup_idx(0), None);
    assert_eq!(v.lookup_key("missing"), None);
    assert_eq!(Value::PosInt(1).lookup_key("a"), None);
    assert_eq!(
        v.lookup_elm(&PathElement::Key("t".to_string())),
        v.lookup_key("t")
    );
    assert_eq!(
        v.lookup_key("x").unwrap().lookup_elm(&PathElement::Idx(1)),
        Some(&Value::PosInt(2))
    );
}

#[test]
fn lookup_by_lists_of_steps() {
    let v = tree("[abc.def]\na = 7\n[[p]]\nid = 1");
    assert_eq!(v.lookup_path(&["abc", "def", "a"]), Some(&Value::PosInt(7)));
    assert_eq!(v.lookup_path(&["abc", "nope", "a"]), None);
    assert_eq!(v.lookup_path(&[]), Some(&v));
    assert_eq!(v.lookup_path(&["p", "0"]), None);
    assert_eq!(
        v.lookup_path_elts(&[
            PathElement::Key("p".to_string()),
            PathElement::Idx(0),
            PathElement::Key("id".to_string())
        ]),
        Some(&Value::PosInt(1))
    );
    assert_eq!(v.lookup_path_elts(&[]), Some(&v));
}

#[test]
fn path_segments_are_classified() {
    assert_eq!(parse_index(&chars("12")), Some(12));
    assert_eq!(parse_index(&chars("0")), Some(0));
    assert_eq!(parse_index(&chars("")), None);
    assert_eq!(parse_index(&chars("1a")), None);
    assert_eq!(parse_index(&chars("-1")), None);
    assert_eq!(parse_index(&chars("+1")), None);
    assert_eq!(parse_step("7".to_string()), PathElement::Idx(7));
    assert_eq!(parse_step("seven".to_string()), PathElement::Key("seven".to_string()));
}

#[test]
fn getters_match_their_variant() {
    assert_eq!(Value::Boolean(false).get_bool(), Some(false));
    assert_eq!(Value::PosInt(1).get_bool(), None);
    assert_eq!(Value::PosInt(5).get_int(), Some(5));
    assert_eq!(Value::NegInt(5).get_int(), Some(-5));
    assert_eq!(Value::NegInt(0).get_int(), Some(0));
    assert_eq!(Value::PosInt(u64::MAX).get_int(), None);
    assert_eq!(Value::NegInt(1 << 63).get_int(), Some(i64::MIN));
    assert_eq!(Value::NegInt((1 << 63) + 1).get_int(), None);
    assert_eq!(Value::PosInt(1 << 63).get_int(), None);
    assert_eq!(Value::PosInt(i64::MAX as u64).get_int(), Some(i64::MAX));
    assert_eq!(Value::Boolean(true).get_int(), None);
    let d = Decimal { negative: false, whole: 2, digits: vec![5] };
    assert_eq!(Value::Float(d.clone()).get_float(), Some(&d));
    assert_eq!(Value::PosInt(1).get_float(), None);
    assert_eq!(Value::String("s".to_string()).get_str(), Some(&"s".to_string()));
    assert_eq!(Value::PosInt(1).get_str(), None);
    assert_eq!(Value::Array(vec![Value::PosInt(1)]).get_vec(), Some(&vec![Value::PosInt(1)]));
    assert_eq!(Value::TableArray(vec![]).get_vec(), None);
    assert_eq!(Value::TableArray(vec![]).get_table_array(), Some(&vec![]));
    assert_eq!(Value::Array(vec![]).get_table_array(), None);
    assert_eq!(Value::Table(true, vec![]).get_table(), Some(&vec![]));
    assert_eq!(Value::NoValue.get_table(), None);
}

#[test]
fn copies_are_equal() {
    let v = tree("a = [1, 2]\n[t]\nf = 1.5\n[[ta]]\ns = \"x\"");
    assert_eq!(v.copy(), v);
    assert_eq!(v.clone(), v);
}

#[test]
fn equivalent_types() {
    assert!(have_equiv_types(&Value::PosInt(1), &Value::NegInt(2)));
    assert!(have_equiv_types(&Value::NegInt(1), &Value::PosInt(2)));
    assert!(have_equiv_types(&Value::Boolean(true), &Value::Boolean(false)));
    assert!(have_equiv_types(&Value::Array(vec![]), &Value::Array(vec![Value::PosInt(1)])));
    assert!(have_equiv_types(
        &Value::Datetime(2000, 1, 1, 0, 0, 0),
        &Value::Datetime(2001, 1, 1, 0, 0, 0)
    ));
    assert!(!have_equiv_types(&Value::PosInt(1), &Value::Boolean(true)));
    assert!(!have_equiv_types(
        &Value::PosInt(1),
        &Value::Float(Decimal { negative: false, whole: 1, digits: vec![0] })
    ));
    assert!(!have_equiv_types(&Value::NoValue, &Value::NoValue));
    assert!(!have_equiv_types(&Value::Table(true, vec![]), &Value::Table(true, vec![])));
}

#[test]
fn builder_takes_sections_and_pairs() {
    let mut b = ValueBuilder::new();
    assert!(b.pair("top".to_string(), Value::PosInt(1)));
    assert!(!b.pair("top".to_string(), Value::PosInt(2)));
    assert!(b.section("a.b".to_string(), false));
    assert!(b.pair("x".to_string(), Value::PosInt(3)));
    assert!(!b.section("a.b".to_string(), false));
    assert!(b.pair("y".to_string(), Value::PosInt(4)));
    assert!(!b.section("a..c".to_string(), false));
    assert!(!b.section("top.c".to_string(), false));
    assert!(b.section("arr".to_string(), true));
    assert!(b.section("arr".to_string(), true));
    assert!(!b.section("arr".to_string(), false));
    assert!(b.pair("z".to_string(), Value::PosInt(5)));
    let root = Value::Table(false, b.into_root());
    assert_eq!(root.lookup("top"), Some(&Value::PosInt(1)));
    assert_eq!(root.lookup("a.b.x"), Some(&Value::PosInt(3)));
    assert_eq!(root.lookup("a.b.y"), Some(&Value::PosInt(4)));
    assert_eq!(root.lookup("arr.0.z"), None);
    assert_eq!(root.lookup("arr.1.z"), Some(&Value::PosInt(5)));
    assert_eq!(
        root.lookup("arr"),
        Some(&Value::TableArray(vec![
            Value::Table(true, vec![]),
            Value::Table(true, vec![("z".to_string(), Value::PosInt(5))]),
        ]))
    );
}

#[test]
fn builder_root_is_readable() {
    let mut b = ValueBuilder::new();
    assert!(b.get_root().is_empty());
    assert!(b.section("s".to_string(), false));
    assert_eq!(b.get_root().len(), 1);
    assert_eq!(b.get_root()[0], ("s".to_string(), Value::Table(true, vec![])));
}

#[test]
fn create_and_insert_on_a_table() {
    let path = vec!["a".to_string(), "b".to_string()];
    let mut table: Vec<(String, Value)> = Vec::new();
    assert!(ValueBuilder::recursive_create_tree(&path, &mut table, false));
    assert_eq!(
        table,
        vec![(
            "a".to_string(),
            Value::Table(false, vec![("b".to_string(), Value::Table(true, vec![]))])
        )]
    );
    assert!(ValueBuilder::insert_value(&path, "k", &mut table, Value::PosInt(1)));
    assert!(!ValueBuilder::insert_value(&path, "k", &mut table, Value::PosInt(2)));
    let wrong = vec!["a".to_string(), "c".to_string()];
    assert!(!ValueBuilder::insert_value(&wrong, "k", &mut table, Value::PosInt(2)));
    assert_eq!(
        table,
        vec![(
            "a".to_string(),
            Value::Table(
                false,
                vec![(
                    "b".to_string(),
                    Value::Table(true, vec![("k".to_string(), Value::PosInt(1))])
                )]
            )
        )]
    );
}

#[test]
fn scanner_counts_lines() {
    let mut p = Parser::new(chars("a\n\nb # c\n  d"), None);
    assert_eq!(p.get_line(), 1);
    assert_eq!(p.ch(), Some('a'));
    p.advance();
    assert_eq!(p.get_line(), 1);
    p.skip_whitespaces();
    assert_eq!(p.get_line(), 3);
    assert_eq!(p.ch(), Some('b'));
    p.advance();
    p.skip_whitespaces_and_comments();
    assert_eq!(p.get_line(), 4);
    assert_eq!(p.ch(), Some('d'));
    assert!(!p.eos());
    assert!(!p.advance_if('x'));
    assert!(p.advance_if('d'));
    assert!(p.eos());
    assert_eq!(p.ch(), None);
    p.advance();
    assert!(p.eos());
    assert_eq!(p.get_line(), 4);
}

#[test]
fn scanner_reads_digits_and_tokens() {
    let mut p = Parser::new(chars("0123x 7 ff"), None);
    assert_eq!(p.read_digits(), (Some(123), 4));
    assert_eq!(p.read_digits(), (None, 0));
    assert_eq!(p.read_digit(10), None);
    assert_eq!(p.read_token(&[' ']), "x".to_string());
    p.skip_whitespaces();
    assert_eq!(p.read_two_digits(), None);
    p.skip_whitespaces();
    assert_eq!(p.read_digit(16), Some(15));
    assert_eq!(p.read_digit(10), None);
    assert_eq!(p.read_digit(16), Some(15));
    let mut p = Parser::new(chars("42"), None);
    assert_eq!(p.read_two_digits(), Some(42));
    let mut p = Parser::new(chars("99999999999999999999"), None);
    assert_eq!(p.read_digits(), (None, 20));
    assert!(p.eos());
    assert_eq!(digit_of('z', 36), Some(35));
    assert_eq!(digit_of('Z', 36), Some(35));
    assert_eq!(digit_of('a', 10), None);
    assert_eq!(digit_of('9', 8), None);
    assert_eq!(digit_of('7', 8), Some(7));
}

#[test]
fn scanner_reads_names_strings_and_values() {
    let mut p = Parser::new(chars("a b.c]"), None);
    assert_eq!(p.parse_section_identifier(), "a b.c".to_string());
    let mut p = Parser::new(chars("key=1"), None);
    assert_eq!(p.parse_key(), "key".to_string());
    let mut p = Parser::new(chars("\"a\\nb\" rest"), None);
    assert_eq!(p.parse_string(), Some("a\nb".to_string()));
    assert_eq!(p.ch(), Some(' '));
    let mut p = Parser::new(chars("no quote"), None);
    assert_eq!(p.parse_string(), None);
    let mut p = Parser::new(chars("25x"), None);
    assert_eq!(
        p.parse_float_rest(1, true),
        Value::Float(Decimal { negative: true, whole: 1, digits: vec![2, 5] })
    );
    assert_eq!(p.ch(), Some('x'));
    let mut p = Parser::new(chars("  # c\n [1, -2] tail"), None);
    assert_eq!(p.parse_value(), Value::Array(vec![Value::PosInt(1), Value::NegInt(2)]));
    assert_eq!(p.ch(), Some(' '));
    assert_eq!(p.get_line(), 2);
    let mut p = Parser::new(chars("#x"), None);
    p.skip_comment();
    assert!(p.eos());
}

#[test]
fn parse_reports_the_line_of_an_error() {
    let mut p = Parser::new(chars("a = 1\nb = 2\nc = ?\n"), None);
    let mut b = ValueBuilder::new();
    assert_eq!(p.parse(&mut b), Err(Error::ParseError));
    assert_eq!(p.get_line(), 3);
    assert_eq!(b.get_root().len(), 2);
}

#[test]
fn a_fault_at_the_end_is_an_io_error() {
    assert_eq!(
        parse_from_buffer(chars("a = 1\n"), Some("broken pipe".to_string())),
        Err(Error::IOError("broken pipe".to_string()))
    );
    assert_eq!(
        parse_from_buffer(chars("a = "), Some("broken pipe".to_string())),
        Err(Error::ParseError)
    );
    assert_eq!(
        parse_from_buffer(chars("a = 1\n"), None),
        Ok(Value::Table(false, vec![("a".to_string(), Value::PosInt(1))]))
    );
    let p = Parser::new(chars("x"), Some("gone".to_string()));
    assert_eq!(p.to_err(), None);
    let p = Parser::new(chars(""), Some("gone".to_string()));
    assert_eq!(p.to_err(), Some("gone".to_string()));
    let p = Parser::new(chars(""), None);
    assert_eq!(p.to_err(), None);
}

#[test]
fn a_source_that_ended_early() {
    assert_eq!(
        parse_from_partial(b"a = 1\n", Some("reset".to_string())),
        Err(Error::IOError("reset".to_string()))
    );
    assert_eq!(
        parse_from_partial(b"a = 1\n\xff", Some("reset".to_string())),
        Err(Error::IOError("stream did not contain valid UTF-8".to_string()))
    );
    assert_eq!(parse_from_partial(b"a = [1,", Some("reset".to_string())), Err(Error::ParseError));
    assert_eq!(
        parse_from_partial(b"a = 1\n", None),
        Ok(Value::Table(false, vec![("a".to_string(), Value::PosInt(1))]))
    );
}

#[test]
fn text_helpers() {
    assert_eq!(chars_of("h\u{e9}"), vec!['h', '\u{e9}']);
    assert_eq!(
        split_segments(&chars("a..b.")),
        vec!["a".to_string(), String::new(), "b".to_string(), String::new()]
    );
    assert_eq!(split_segments(&chars("")), vec![String::new()]);
    assert_eq!(decode_prefix(b"a\xc3\xa9\xff"), (vec!['a', '\u{e9}'], 3));
    assert_eq!(decode_prefix(b"\xf0\x9f\x98\x80"), (vec!['\u{1f600}'], 4));
    assert_eq!(decode_prefix(b"\xf4\x90\x80\x80"), (vec![], 0));
    assert_eq!(decode_prefix(b"\xe2\x82"), (vec![], 0));
}
