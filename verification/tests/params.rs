use jsonrpsee::error::Error;
use jsonrpsee::jsonrpc;
use jsonrpsee::params::{Entry, ParamKey, Params};
use serde::de::DeserializeOwned;
use serde_json::{Number, Value};

fn text(s: &str) -> Value {
    Value::String(s.to_string())
}

fn number(n: u64) -> Value {
    Value::Number(Number::from(n))
}

fn decode<T: DeserializeOwned>(value: &Value) -> Result<T, String> {
    serde_json::from_value(value.clone()).map_err(|error| error.to_string())
}

fn named() -> jsonrpc::Params {
    let mut object = serde_json::Map::new();
    object.insert("zeta".to_string(), number(26));
    object.insert("alpha".to_string(), text("first"));
    object.insert("mid".to_string(), Value::Null);
    jsonrpc::Params::Object(object)
}

fn positional() -> jsonrpc::Params {
    jsonrpc::Params::Array(vec![text("hi"), number(2), Value::Bool(true)])
}

#[test]
fn get_raw_finds_positional_parameters_by_index() {
    let raw = positional();
    let params = Params::from(&raw);
    assert_eq!(params.get_raw(ParamKey::Index(0)), Some(&text("hi")));
    assert_eq!(params.get_raw(ParamKey::Index(1)), Some(&number(2)));
    assert_eq!(params.get_raw(ParamKey::Index(2)), Some(&Value::Bool(true)));
    assert_eq!(params.get_raw(ParamKey::Index(3)), None);
    assert_eq!(params.get_raw(ParamKey::Index(usize::MAX)), None);
}

#[test]
fn get_raw_finds_named_parameters_by_name() {
    let raw = named();
    let params = Params::from(&raw);
    assert_eq!(params.get_raw(ParamKey::String("alpha")), Some(&text("first")));
    assert_eq!(params.get_raw(ParamKey::String("zeta")), Some(&number(26)));
    assert_eq!(params.get_raw(ParamKey::String("mid")), Some(&Value::Null));
    assert_eq!(params.get_raw(ParamKey::String("omega")), None);
    assert_eq!(params.get_raw(ParamKey::String("")), None);
}

#[test]
fn wrong_kind_of_key_finds_nothing() {
    let raw = named();
    assert_eq!(Params::from(&raw).get_raw(ParamKey::Index(0)), None);
    let raw = positional();
    assert_eq!(Params::from(&raw).get_raw(ParamKey::String("0")), None);
    let raw = jsonrpc::Params::Absent;
    assert_eq!(Params::from(&raw).get_raw(ParamKey::Index(0)), None);
    assert_eq!(Params::from(&raw).get_raw(ParamKey::String("alpha")), None);
}

#[test]
fn keys_convert_from_names_and_positions() {
    let raw = named();
    let params = Params::from(&raw);
    assert_eq!(params.get_raw("alpha"), Some(&text("first")));
    assert_eq!(params.find(ParamKey::String("alpha")), Some(&text("first")));
    assert_eq!(params.find(ParamKey::String("beta")), None);
    assert_eq!(params.find(ParamKey::Index(0)), None);
    let raw = positional();
    let params = Params::from(&raw);
    assert_eq!(params.get_raw(1), Some(&number(2)));
    assert_eq!(params.get_raw(3), None);
    assert_eq!(params.find(ParamKey::Index(2)), Some(&Value::Bool(true)));
    assert_eq!(params.find(ParamKey::Index(3)), None);
    assert_eq!(params.find(ParamKey::String("1")), None);
    assert_eq!(params.get(1, decode::<u64>), Ok(2));
    let owned = "zeta".to_string();
    let raw = named();
    assert_eq!(Params::from(&raw).get_raw(&owned), Some(&number(26)));
    assert!(matches!(ParamKey::from(&owned), ParamKey::String("zeta")));
    assert!(matches!(ParamKey::from("name"), ParamKey::String("name")));
    assert!(matches!(ParamKey::from(9usize), ParamKey::Index(9)));
}

#[test]
fn get_decodes_the_parameter() {
    let raw = positional();
    let params = Params::from(&raw);
    assert_eq!(params.get(ParamKey::Index(0), decode::<String>), Ok("hi".to_string()));
    assert_eq!(params.get(ParamKey::Index(1), decode::<u64>), Ok(2));
    assert_eq!(params.get(ParamKey::Index(2), decode::<bool>), Ok(true));
    let raw = named();
    let params = Params::from(&raw);
    assert_eq!(params.get(ParamKey::String("mid"), decode::<Option<u8>>), Ok(None));
    assert_eq!(params.get(ParamKey::String("zeta"), decode::<u8>), Ok(26));
}

#[test]
fn get_reports_a_missing_parameter() {
    let raw = positional();
    let params = Params::from(&raw);
    assert_eq!(params.get(ParamKey::Index(3), decode::<String>), Err(Error::Custom("no such param".to_string())));
    assert_eq!(params.get(ParamKey::String("hi"), decode::<String>), Err(Error::Custom("no such param".to_string())));
}

#[test]
fn get_reports_a_parameter_of_the_wrong_type() {
    let raw = positional();
    let params = Params::from(&raw);
    match params.get(ParamKey::Index(0), decode::<u64>) {
        Err(Error::ParseError(cause)) => assert!(cause.contains("invalid type")),
        other => panic!("expected a parse error, got {:?}", other),
    }
    assert!(matches!(params.get(ParamKey::Index(2), decode::<u8>), Err(Error::ParseError(_))));
}

#[test]
fn get_hands_the_parameter_to_the_decoder() {
    let raw = positional();
    let params = Params::from(&raw);
    assert_eq!(params.get(1, |value| Ok::<String, String>(value.to_string())), Ok("2".to_string()));
    assert_eq!(
        params.get(1, |value| Err::<u8, String>(format!("cannot read {}", value))),
        Err(Error::ParseError("cannot read 2".to_string()))
    );
    // Nothing is decoded where nothing is found.
    assert_eq!(
        params.get(7, |_| -> Result<u8, String> { panic!("called without a parameter") }),
        Err(Error::Custom("no such param".to_string()))
    );
}

#[test]
fn iterator_walks_positional_parameters_in_order() {
    let raw = positional();
    let mut iter = Params::from(&raw).into_iter();
    assert_eq!(iter.len(), 3);
    assert_eq!(iter.size_hint(), (3, Some(3)));
    assert!(matches!(iter.next(), Some(Entry::Value(v)) if *v == text("hi")));
    assert_eq!(iter.size_hint(), (2, Some(2)));
    assert!(matches!(iter.next(), Some(Entry::Value(v)) if *v == number(2)));
    assert!(matches!(iter.next(), Some(Entry::Value(v)) if *v == Value::Bool(true)));
    assert_eq!(iter.size_hint(), (0, Some(0)));
    assert!(iter.next().is_none());
    assert!(iter.next().is_none());
    assert_eq!(iter.len(), 0);
}

#[test]
fn iterator_walks_named_parameters_in_map_order() {
    let raw = named();
    let expected: Vec<(String, Value)> = match &raw {
        jsonrpc::Params::Object(object) => object.iter().map(|(k, v)| (k.clone(), v.clone())).collect(),
        _ => unreachable!(),
    };
    assert_eq!(expected.len(), 3);
    let params = Params::from(&raw);
    let mut iter = params.into_iter();
    assert_eq!(iter.size_hint(), (3, Some(3)));
    let mut seen = Vec::new();
    while let Some(entry) = iter.next() {
        match entry {
            Entry::KeyValue(ParamKey::String(name), value) => {
                assert_eq!(params.get_raw(ParamKey::String(name)), Some(value));
                seen.push((name.to_string(), value.clone()));
            }
            other => panic!("expected a named entry, got {:?}", other),
        }
    }
    assert_eq!(seen, expected);
    assert_eq!(seen[0].0, "alpha");
    assert_eq!(seen[1].0, "mid");
    assert_eq!(seen[2].0, "zeta");
}

#[test]
fn iterator_over_absent_parameters_is_empty() {
    let raw = jsonrpc::Params::Absent;
    let mut iter = Params::from(&raw).into_iter();
    assert_eq!(iter.size_hint(), (0, Some(0)));
    assert!(iter.next().is_none());
}

#[test]
fn accessor_hands_the_raw_parameters_back() {
    let raw = positional();
    let params = Params::from(&raw);
    assert_eq!(params.as_ref(), &raw);
    let copy = params;
    assert_eq!(copy.as_ref(), params.as_ref());
}
