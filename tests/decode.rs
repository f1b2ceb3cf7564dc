use std::collections::{HashMap, HashSet};

use fortunate_json::{
    decode, extract_field, extract_optional_field, parse, DecodeError, FromJSON, JSONError, Number, Value,
};

fn to_f32(n: Number) -> f32 {
    n.to_decimal_string().parse::<f32>().unwrap()
}

#[derive(Debug, PartialEq, Default)]
struct Point {
    x: f32,
    y: f32,
}

impl FromJSON for Point {
    fn from_json(v: &Value) -> Result<Self, DecodeError> {
        let o = v.as_object()?;

        Ok(Point {
            x: to_f32(extract_field(o, "x")?),
            y: to_f32(extract_field(o, "y")?),
        })
    }
}

#[derive(Debug, PartialEq, Default)]
struct Mesh {
    points: Vec<Point>,
    indeces: Vec<u32>,
}

impl FromJSON for Mesh {
    fn from_json(v: &Value) -> Result<Self, DecodeError> {
        let o = v.as_object()?;

        Ok(Mesh {
            points: extract_field(o, "points")?,
            indeces: extract_field(o, "indeces")?,
        })
    }
}

#[derive(Debug, PartialEq, Default)]
struct Config {
    name: String,
    port: Option<u32>,
}

impl FromJSON for Config {
    fn from_json(v: &Value) -> Result<Self, DecodeError> {
        let o = v.as_object()?;

        Ok(Config {
            name: extract_field(o, "name")?,
            port: extract_optional_field(o, "port")?,
        })
    }
}

#[test]
fn busted_unicode_escape() {
    assert_eq!(
        Err(JSONError::ParseError(
            "Unexpected EOF when parsing unicode escape in string literal".to_owned()
        )),
        decode::<String>("\"\\u00\"")
    );
}

#[test]
fn unpack_struct() {
    let json = "{\"x\": 3.14, \"y\": 1.161}";

    let parsed = parse(json).unwrap();

    let p: Point = FromJSON::from_json(&parsed).unwrap();

    assert_eq!(p, Point { x: 3.14, y: 1.161 });
}

#[test]
fn unpack_vec() {
    let expected = Mesh {
        points: vec![
            Point { x: 0.0, y: 0.0 },
            Point { x: 0.0, y: 10.0 },
            Point { x: 10.0, y: 0.0 },
        ],
        indeces: vec![0, 2, 1],
    };

    let json = "{\"points\":[{\"x\":0.0, \"y\":0.0}, {\"x\": 0.0, \"y\": 10}, {\"x\": 1e1, \"y\": 0.0}], \"indeces\":[0, 2, 1]}";

    let parsed = parse(json).unwrap();

    let m: Mesh = FromJSON::from_json(&parsed).unwrap();

    assert_eq!(m, expected);
}

#[test]
fn unpack_vec_fails_on_a_bad_element() {
    let json = "{\"points\":[{\"x\":0.0, \"y\":0.0}, {\"x\": 0.0}], \"indeces\":[0, 2, 1]}";
    let parsed = parse(json).unwrap();
    assert_eq!(Err(DecodeError), <Mesh as FromJSON>::from_json(&parsed));

    let json = "{\"points\":[], \"indeces\":[0, 2.5, 1]}";
    assert_eq!(Err(JSONError::DecodeError), decode::<Mesh>(json));
}

#[test]
fn unpack_map() {
    let expected = HashMap::from([("a".to_owned(), 1u32), ("b".to_owned(), 20u32)]);
    assert_eq!(Ok(expected), decode::<HashMap<String, u32>>("{\"a\": 1, \"b\": 2e1}"));
    assert_eq!(Ok(HashMap::new()), decode::<HashMap<String, u32>>("{}"));
    assert_eq!(Err(JSONError::DecodeError), decode::<HashMap<String, u32>>("{\"a\": 1.5}"));
    assert_eq!(Err(JSONError::DecodeError), decode::<HashMap<String, u32>>("[1]"));
}

#[test]
fn unpack_struct_with_optional_field() {
    let json = "{\"name\": \"server\", \"port\": 8080}";
    assert_eq!(Ok(Config { name: "server".to_owned(), port: Some(8080) }), decode::<Config>(json));
}

#[test]
fn unpack_set() {
    let expected: HashSet<u32> = HashSet::from([1, 2, 3]);
    assert_eq!(Ok(expected), decode::<HashSet<u32>>("[1, 2, 2, 3, 1]"));
    let words: HashSet<String> = HashSet::from(["x".to_owned(), "y".to_owned()]);
    assert_eq!(Ok(words), decode::<HashSet<String>>("[\"y\", \"x\", \"y\"]"));
    assert_eq!(Err(JSONError::DecodeError), decode::<HashSet<u32>>("[1, \"2\"]"));
}

#[test]
fn optional_field_missing_or_null() {
    assert_eq!(Ok(Config { name: "a".to_owned(), port: None }), decode::<Config>("{\"name\": \"a\"}"));
    // A present null is decoded as the field's own type, which a u32 refuses;
    // an `Option` field reads null as absent.
    assert_eq!(Err(JSONError::DecodeError), decode::<Config>("{\"name\": \"a\", \"port\": null}"));
    let parsed = parse("{\"port\": null}").unwrap();
    let o = parsed.as_object().unwrap();
    assert_eq!(Ok(None), extract_field::<Option<u32>>(o, "port"));
    assert_eq!(Ok(Some(None)), extract_optional_field::<Option<u32>>(o, "port"));
}

#[test]
fn required_field_missing() {
    assert_eq!(Err(JSONError::DecodeError), decode::<Config>("{\"port\": 1}"));
    let parsed = parse("{\"port\": 1}").unwrap();
    let o = parsed.as_object().unwrap();
    assert_eq!(Err(DecodeError), extract_field::<String>(o, "name"));
    assert_eq!(Ok(None), extract_optional_field::<String>(o, "name"));
    assert_eq!(Ok(Some(1)), extract_optional_field::<u32>(o, "port"));
}

#[test]
fn u32_needs_an_integral_number() {
    assert_eq!(Ok(10), decode::<u32>("10.0"));
    assert_eq!(Ok(10), decode::<u32>("1e1"));
    assert_eq!(Ok(12), decode::<u32>("1200e-2"));
    assert_eq!(Ok(0), decode::<u32>("0.000"));
    assert_eq!(Err(JSONError::DecodeError), decode::<u32>("10.5"));
    assert_eq!(Err(JSONError::DecodeError), decode::<u32>("1e-1"));
    assert_eq!(Err(JSONError::DecodeError), decode::<u32>("\"10\""));
}

#[test]
fn u32_saturates() {
    assert_eq!(Ok(4294967295), decode::<u32>("4294967295"));
    assert_eq!(Ok(u32::MAX), decode::<u32>("4294967296"));
    assert_eq!(Ok(u32::MAX), decode::<u32>("1e100"));
    assert_eq!(Ok(0), decode::<u32>("-3"));
    assert_eq!(Ok(0), decode::<u32>("0e99999999999999999999"));
    assert_eq!(Err(JSONError::DecodeError), decode::<u32>("5e-99999999999999999999"));
}

#[test]
fn strings_and_numbers_decode() {
    assert_eq!(Ok("hi".to_owned()), decode::<String>("\"hi\""));
    assert_eq!(Err(JSONError::DecodeError), decode::<String>("1"));
    let n = decode::<Number>("-1.5").unwrap();
    assert_eq!(to_f32(n), -1.5);
    assert_eq!(Ok(vec![Some(1), None]), decode::<Vec<Option<u32>>>("[1, null]"));
    assert_eq!(Err(JSONError::DecodeError), decode::<Vec<u32>>("{}"));
}

#[test]
fn decode_reports_parse_errors() {
    assert_eq!(
        Err(JSONError::ParseError("Extra content at end of input: ,".to_owned())),
        decode::<u32>("1 ,")
    );
}

#[test]
fn value_accessors() {
    let v = parse("[\"a\", 2, {}]").unwrap();
    let a = v.as_array().unwrap();
    assert_eq!(a[0].as_string(), Ok(&"a".to_owned()));
    assert!(a[0].as_number().is_err());
    assert!(a[1].as_number().is_ok());
    assert!(a[2].as_object().is_ok());
    assert!(v.as_object().is_err());
    assert!(v.as_string().is_err());
}
