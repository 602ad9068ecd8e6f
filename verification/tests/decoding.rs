use toml::decoder::{field_error, Decoder};
use toml::document::parse_from_bytes;
use toml::error::Error;
use toml::value::{Decimal, Value};

fn tree(text: &str) -> Value {
    parse_from_bytes(text.as_bytes()).unwrap()
}

#[test]
fn decode_shape_mismatch_names_the_field() {
    let mut d = Decoder::new(tree("host = \"h\""));
    let mut record = d.read_struct().unwrap();
    let mut field = record.read_struct_field("host").unwrap();
    let read = field.read_u64();
    assert_eq!(read, Err(Error::ParseError));
    let tagged = read.map_err(|e| field_error(e, "host"));
    assert_eq!(tagged, Err(Error::ParseErrorInField("host".to_string())));
}

#[test]
fn field_error_keeps_other_errors() {
    assert_eq!(
        field_error(Error::ParseErrorInField("inner".to_string()), "outer"),
        Error::ParseErrorInField("inner".to_string())
    );
    assert_eq!(
        field_error(Error::IOError("gone".to_string()), "outer"),
        Error::IOError("gone".to_string())
    );
    assert_eq!(field_error(Error::ParseError, "f"), Error::ParseErrorInField("f".to_string()));
}

#[test]
fn decode_record_with_sequence_and_option() {
    let text = "host = \"localhost\"\nids = [1, 10, 20]\n[[products]]\nid = 1\nname = \"Product 1\"\n[[products]]\nid = 2\nname = \"Product 2\"\n";
    let mut d = Decoder::new(tree(text));
    let mut record = d.read_struct().unwrap();

    let mut host = record.read_struct_field("host").unwrap();
    assert_eq!(host.read_str(), Ok("localhost".to_string()));

    let port = record.read_struct_field("port").unwrap();
    assert!(!port.read_option());

    let mut ids = record.read_struct_field("ids").unwrap();
    assert!(ids.read_option());
    let (mut elements, len) = ids.read_seq().unwrap();
    assert_eq!(len, 3);
    let mut got = Vec::new();
    for _ in 0..len {
        let mut e = elements.read_seq_elt().unwrap();
        got.push(e.read_usize().unwrap());
    }
    assert_eq!(got, vec![1, 10, 20]);
    assert_eq!(elements.read_seq_elt().err(), Some(Error::ParseError));

    let mut products = record.read_struct_field("products").unwrap();
    let (mut tables, len) = products.read_seq().unwrap();
    assert_eq!(len, 2);
    let mut names = Vec::new();
    for i in 0..len {
        let mut p = tables.read_seq_elt().unwrap();
        let mut fields = p.read_struct().unwrap();
        let mut id = fields.read_struct_field("id").unwrap();
        assert_eq!(id.read_u32(), Ok(i as u32 + 1));
        let mut name = fields.read_struct_field("name").unwrap();
        names.push(name.read_str().unwrap());
    }
    assert_eq!(names, vec!["Product 1".to_string(), "Product 2".to_string()]);
}

#[test]
fn a_field_is_read_once() {
    let mut d = Decoder::new(tree("a = 1"));
    let mut record = d.read_struct().unwrap();
    let mut first = record.read_struct_field("a").unwrap();
    assert_eq!(first.read_u64(), Ok(1));
    let second = record.read_struct_field("a").unwrap();
    assert!(!second.read_option());
}

#[test]
fn missing_field_fails_unless_optional() {
    let mut d = Decoder::new(tree("a = 1"));
    let mut record = d.read_struct().unwrap();
    let mut missing = record.read_struct_field("b").unwrap();
    assert!(!missing.read_option());
    assert_eq!(missing.read_u64(), Err(Error::ParseError));
    assert_eq!(missing.read_str(), Err(Error::ParseError));
}

#[test]
fn struct_field_outside_a_record_is_a_field_error() {
    let mut d = Decoder::new(Value::PosInt(1));
    assert_eq!(
        d.read_struct_field("x").err(),
        Some(Error::ParseErrorInField("x".to_string()))
    );
    assert_eq!(d.read_seq_elt().err(), Some(Error::ParseError));
    assert_eq!(d.read_map_elt_key().err(), Some(Error::ParseError));
    assert_eq!(d.read_struct().err(), Some(Error::ParseError));
    assert_eq!(Decoder::new(Value::PosInt(1)).read_seq().err(), Some(Error::ParseError));
    assert_eq!(Decoder::new(Value::PosInt(1)).read_map().err(), Some(Error::ParseError));
}

#[test]
fn unsigned_narrowing() {
    assert_eq!(Decoder::new(Value::PosInt(255)).read_u8(), Ok(255));
    assert_eq!(Decoder::new(Value::PosInt(256)).read_u8(), Err(Error::ParseError));
    assert_eq!(Decoder::new(Value::PosInt(65535)).read_u16(), Ok(65535));
    assert_eq!(Decoder::new(Value::PosInt(65536)).read_u16(), Err(Error::ParseError));
    assert_eq!(Decoder::new(Value::PosInt(4294967295)).read_u32(), Ok(4294967295));
    assert_eq!(Decoder::new(Value::PosInt(4294967296)).read_u32(), Err(Error::ParseError));
    assert_eq!(Decoder::new(Value::PosInt(u64::MAX)).read_u64(), Ok(u64::MAX));
    assert_eq!(Decoder::new(Value::PosInt(7)).read_usize(), Ok(7));
    assert_eq!(Decoder::new(Value::NegInt(1)).read_u64(), Err(Error::ParseError));
    assert_eq!(Decoder::new(Value::NegInt(0)).read_u8(), Err(Error::ParseError));
    assert_eq!(Decoder::new(Value::Boolean(true)).read_u64(), Err(Error::ParseError));
}

#[test]
fn signed_narrowing() {
    assert_eq!(Decoder::new(Value::PosInt(127)).read_i8(), Ok(127));
    assert_eq!(Decoder::new(Value::PosInt(128)).read_i8(), Err(Error::ParseError));
    assert_eq!(Decoder::new(Value::NegInt(128)).read_i8(), Ok(-128));
    assert_eq!(Decoder::new(Value::NegInt(129)).read_i8(), Err(Error::ParseError));
    assert_eq!(Decoder::new(Value::NegInt(32768)).read_i16(), Ok(-32768));
    assert_eq!(Decoder::new(Value::PosInt(32768)).read_i16(), Err(Error::ParseError));
    assert_eq!(Decoder::new(Value::NegInt(2147483648)).read_i32(), Ok(-2147483648));
    assert_eq!(Decoder::new(Value::PosInt(2147483648)).read_i32(), Err(Error::ParseError));
    assert_eq!(Decoder::new(Value::PosInt(i64::MAX as u64)).read_i64(), Ok(i64::MAX));
    assert_eq!(Decoder::new(Value::NegInt(i64::MAX as u64)).read_i64(), Ok(-i64::MAX));
    assert_eq!(
        Decoder::new(Value::PosInt(i64::MAX as u64 + 1)).read_i64(),
        Err(Error::ParseError)
    );
    assert_eq!(Decoder::new(Value::NegInt(i64::MAX as u64 + 1)).read_i64(), Ok(i64::MIN));
    assert_eq!(
        Decoder::new(Value::NegInt(i64::MAX as u64 + 2)).read_i64(),
        Err(Error::ParseError)
    );
    assert_eq!(Decoder::new(Value::NegInt(u64::MAX)).read_i64(), Err(Error::ParseError));
    assert_eq!(Decoder::new(Value::NegInt(1 << 63)).read_i32(), Err(Error::ParseError));
    assert_eq!(Decoder::new(Value::NegInt(5)).read_isize(), Ok(-5));
    assert_eq!(Decoder::new(Value::String("1".to_string())).read_i64(), Err(Error::ParseError));
}

#[test]
fn primitives_need_the_matching_variant() {
    assert_eq!(Decoder::new(Value::Boolean(true)).read_bool(), Ok(true));
    assert_eq!(Decoder::new(Value::PosInt(1)).read_bool(), Err(Error::ParseError));
    assert_eq!(
        Decoder::new(Value::Float(Decimal { negative: false, whole: 1, digits: vec![5] }))
            .read_float(),
        Ok(Decimal { negative: false, whole: 1, digits: vec![5] })
    );
    assert_eq!(Decoder::new(Value::PosInt(1)).read_float(), Err(Error::ParseError));
    assert_eq!(Decoder::new(Value::String("s".to_string())).read_str(), Ok("s".to_string()));
    assert_eq!(Decoder::new(Value::PosInt(1)).read_str(), Err(Error::ParseError));
    assert_eq!(Decoder::new(Value::NoValue).read_nil(), Err(Error::ParseError));
    assert_eq!(Decoder::new(Value::NoValue).read_enum(), Err(Error::ParseError));
}

#[test]
fn char_is_a_string_of_one_character() {
    assert_eq!(Decoder::new(Value::String("x".to_string())).read_char(), Ok('x'));
    assert_eq!(Decoder::new(Value::String("xy".to_string())).read_char(), Err(Error::ParseError));
    assert_eq!(Decoder::new(Value::String(String::new())).read_char(), Err(Error::ParseError));
    assert_eq!(Decoder::new(Value::String("\u{e9}".to_string())).read_char(), Ok('\u{e9}'));
    assert_eq!(
        Decoder::new(Value::String("\u{e9}\u{e9}".to_string())).read_char(),
        Err(Error::ParseError)
    );
    assert_eq!(Decoder::new(Value::PosInt(1)).read_char(), Err(Error::ParseError));
}

#[test]
fn reading_a_string_takes_the_value_out() {
    let mut d = Decoder::new(Value::String("s".to_string()));
    assert!(d.read_option());
    assert_eq!(d.read_str(), Ok("s".to_string()));
    assert!(!d.read_option());
    assert_eq!(d.read_str(), Err(Error::ParseError));
}

#[test]
fn mapping_yields_entries_in_stored_order() {
    let mut d = Decoder::new(tree("b = 1\na = 2\nc = 3"));
    let (mut map, len) = d.read_map().unwrap();
    assert_eq!(len, 3);
    let mut got = Vec::new();
    for _ in 0..len {
        let mut key = map.read_map_elt_key().unwrap();
        let k = key.read_str().unwrap();
        let v = map.read_u64().unwrap();
        got.push((k, v));
    }
    assert_eq!(
        got,
        vec![("b".to_string(), 1), ("a".to_string(), 2), ("c".to_string(), 3)]
    );
    assert_eq!(map.read_map_elt_key().err(), Some(Error::ParseError));
}

#[test]
fn sequence_of_an_array_in_order() {
    let mut d = Decoder::new(Value::Array(vec![
        Value::String("a".to_string()),
        Value::String("b".to_string()),
    ]));
    let (mut elements, len) = d.read_seq().unwrap();
    assert_eq!(len, 2);
    assert_eq!(elements.read_seq_elt().unwrap().read_str(), Ok("a".to_string()));
    assert_eq!(elements.read_seq_elt().unwrap().read_str(), Ok("b".to_string()));
    assert!(!d.read_option());
}
