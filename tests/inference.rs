use json_analyzer::{DataType, Decls, JsonValue, Number};

fn s(text: &str) -> String {
    text.to_string()
}

fn integer(n: u64) -> JsonValue {
    JsonValue::Number(Number::from_parts(true, n, 0))
}

fn object(members: Vec<(&str, JsonValue)>) -> JsonValue {
    JsonValue::Object(members.into_iter().map(|(k, v)| (s(k), v)).collect())
}

fn object_type(fields: Vec<(&str, DataType)>) -> DataType {
    DataType::object_of(fields.into_iter().map(|(k, t)| (s(k), t)).collect())
}

#[test]
fn basic_types() {
    assert_eq!(DataType::from_json_value(&JsonValue::Null), DataType::Null);
    assert_eq!(
        DataType::from_json_value(&JsonValue::String(s("hello"))),
        DataType::String
    );
    assert_eq!(
        DataType::from_json_value(&JsonValue::String(s("foo"))),
        DataType::String
    );
    assert_eq!(
        DataType::from_json_value(&JsonValue::Boolean(true)),
        DataType::Bool
    );
}

#[test]
fn numbers() {
    assert_eq!(DataType::from_json_value(&integer(10)), DataType::Int);
    assert_eq!(
        DataType::from_json_value(&JsonValue::Number(Number::from_parts(true, 105, -1))),
        DataType::Float
    );
}

#[test]
fn unification() {
    assert_eq!(
        DataType::unify(DataType::String, DataType::Bool),
        DataType::variant_of(vec![DataType::String, DataType::Bool])
    );
    assert_eq!(
        DataType::unify(
            DataType::variant_of(vec![DataType::String, DataType::Bool]),
            DataType::Null
        ),
        DataType::variant_of(vec![DataType::String, DataType::Bool, DataType::Null])
    );
}

#[test]
fn floats_override_ints() {
    assert_eq!(
        DataType::unify(DataType::Int, DataType::Float),
        DataType::Float
    );
}

#[test]
fn structs() {
    let a = DataType::from_json_value(&object(vec![
        ("null", JsonValue::Null),
        ("string", JsonValue::String(s("hello"))),
        ("number", integer(123)),
        ("bool", JsonValue::Boolean(true)),
        ("object", object(vec![("hello", JsonValue::String(s("world")))])),
        ("arr", JsonValue::Array(vec![integer(1), integer(2), integer(3)])),
    ]));
    let b = object_type(vec![
        ("null", DataType::Null),
        ("string", DataType::String),
        ("number", DataType::Int),
        ("bool", DataType::Bool),
        ("object", object_type(vec![("hello", DataType::String)])),
        ("arr", DataType::Array(Box::new(DataType::Int))),
    ]);
    assert_eq!(a, b);
}

#[test]
fn object_unification() {
    let arr = JsonValue::Array(vec![integer(1), JsonValue::String(s("hello"))]);
    let arr_typ = DataType::Array(Box::new(DataType::variant_of(vec![
        DataType::Int,
        DataType::String,
    ])));
    assert_eq!(DataType::from_json_value(&arr), arr_typ);

    let objs = JsonValue::Array(vec![
        object(vec![("foo", JsonValue::String(s("bar")))]),
        object(vec![("foo", integer(123)), ("baz", JsonValue::Boolean(true))]),
    ]);
    let objs_type = DataType::Array(Box::new(object_type(vec![
        (
            "foo",
            DataType::variant_of(vec![DataType::String, DataType::Int]),
        ),
        (
            "baz",
            DataType::variant_of(vec![DataType::Bool, DataType::Null]),
        ),
    ])));
    assert_eq!(DataType::from_json_value(&objs), objs_type);
}
