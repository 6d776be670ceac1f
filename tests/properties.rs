use json_analyzer::{DataType, Decls, JsonValue, Number};

fn s(text: &str) -> String {
    text.to_string()
}

fn integer(n: u64) -> JsonValue {
    JsonValue::Number(Number::from_parts(true, n, 0))
}

fn object(members: Vec<(&str, JsonValue)>) -> JsonValue {
    JsonValue::Object(members.into_iter().map(|(k, v)| (s(k), v)).collect())
}

fn object_type(fields: Vec<(&str, DataType)>) -> DataType {
    DataType::object_of(fields.into_iter().map(|(k, t)| (s(k), t)).collect())
}

fn sample_types() -> Vec<DataType> {
    vec![
        DataType::Null,
        DataType::String,
        DataType::Int,
        DataType::Float,
        DataType::Bool,
        DataType::variant_of(vec![]),
        DataType::variant_of(vec![DataType::Int, DataType::String]),
        DataType::Array(Box::new(DataType::Int)),
        DataType::Array(Box::new(DataType::Float)),
        object_type(vec![("a", DataType::Int)]),
        object_type(vec![("a", DataType::String), ("b", DataType::Bool)]),
        object_type(vec![]),
    ]
}

fn declare_all(t: DataType) -> (Vec<String>, String) {
    let mut decls = Decls::new();
    let r = t.declare(&mut decls);
    (decls.decls, r)
}

#[test]
fn unify_with_itself_is_identity() {
    for t in sample_types() {
        assert_eq!(t.clone().unify(t.clone()), t);
    }
}

#[test]
fn empty_variant_is_neutral() {
    for t in sample_types() {
        assert_eq!(DataType::variant_of(vec![]).unify(t.clone()), t);
        assert_eq!(t.clone().unify(DataType::variant_of(vec![])), t);
    }
}

#[test]
fn unify_is_commutative() {
    for a in sample_types() {
        for b in sample_types() {
            assert_eq!(a.clone().unify(b.clone()), b.clone().unify(a.clone()));
        }
    }
}

#[test]
fn float_then_int_widens() {
    assert_eq!(DataType::Float.unify(DataType::Int), DataType::Float);
}

#[test]
fn object_union_keeps_every_field() {
    let a = object_type(vec![("x", DataType::Int), ("y", DataType::String)]);
    let b = object_type(vec![("y", DataType::Bool), ("z", DataType::Null)]);
    let expected = object_type(vec![
        ("x", DataType::variant_of(vec![DataType::Int, DataType::Null])),
        ("y", DataType::variant_of(vec![DataType::String, DataType::Bool])),
        ("z", DataType::Null),
    ]);
    assert_eq!(a.unify(b), expected);
}

#[test]
fn disjoint_objects_merge_into_optional_fields() {
    let a = object_type(vec![("a", DataType::Int)]);
    let b = object_type(vec![("b", DataType::String)]);
    let expected = object_type(vec![
        ("a", DataType::variant_of(vec![DataType::Int, DataType::Null])),
        ("b", DataType::variant_of(vec![DataType::String, DataType::Null])),
    ]);
    assert_eq!(a.unify(b), expected);
}

#[test]
fn variant_grows_by_one_new_option() {
    let v = DataType::variant_of(vec![DataType::Int, DataType::String]);
    let grown = v.clone().unify(DataType::Bool);
    assert_eq!(
        grown,
        DataType::variant_of(vec![DataType::Int, DataType::String, DataType::Bool])
    );
    match grown {
        DataType::Variant(options) => assert_eq!(options.len(), 3),
        _ => panic!("expected a variant"),
    }
    assert_eq!(v.clone().unify(DataType::String), v);
}

#[test]
fn variants_merge_without_nesting() {
    let a = DataType::variant_of(vec![DataType::Int, DataType::String]);
    let b = DataType::variant_of(vec![DataType::Bool, DataType::String]);
    assert_eq!(
        a.unify(b),
        DataType::variant_of(vec![DataType::Int, DataType::String, DataType::Bool])
    );
}

#[test]
fn plain_value_joins_variant_from_the_left() {
    let v = DataType::variant_of(vec![DataType::Int, DataType::String]);
    assert_eq!(
        DataType::Null.unify(v),
        DataType::variant_of(vec![DataType::Null, DataType::Int, DataType::String])
    );
}

#[test]
fn variant_options_are_canonical() {
    let v = DataType::variant_of(vec![DataType::Bool, DataType::Null, DataType::Bool]);
    match v {
        DataType::Variant(options) => {
            assert_eq!(options, vec![DataType::Null, DataType::Bool]);
        }
        _ => panic!("expected a variant"),
    }
}

#[test]
fn later_field_of_same_name_wins() {
    let t = object_type(vec![("k", DataType::Int), ("k", DataType::Bool)]);
    assert_eq!(t, object_type(vec![("k", DataType::Bool)]));
}

#[test]
fn arrays_of_different_elements_become_variant() {
    let a = DataType::Array(Box::new(DataType::Int));
    let b = DataType::Array(Box::new(DataType::String));
    assert_eq!(
        a.clone().unify(b.clone()),
        DataType::variant_of(vec![a, b])
    );
}

#[test]
fn compare_orders_by_kind_then_contents() {
    assert_eq!(DataType::Null.compare(&DataType::Bool), -1);
    assert_eq!(DataType::Bool.compare(&DataType::Null), 1);
    assert_eq!(
        object_type(vec![("a", DataType::Int)]).compare(&object_type(vec![("b", DataType::Int)])),
        -1
    );
    assert_eq!(
        object_type(vec![("b", DataType::Int)]).compare(&object_type(vec![("b", DataType::Int)])),
        0
    );
}

#[test]
fn empty_array_infers_unknown_element() {
    assert_eq!(
        DataType::from_json_value(&JsonValue::Array(vec![])),
        DataType::Array(Box::new(DataType::variant_of(vec![])))
    );
}

#[test]
fn decimal_numbers_with_zero_fraction_are_ints() {
    let n = JsonValue::Number(Number::from_parts(true, 1500, -2));
    assert_eq!(DataType::from_json_value(&n), DataType::Int);
    let m = JsonValue::Number(Number::from_parts(false, 1501, -2));
    assert_eq!(DataType::from_json_value(&m), DataType::Float);
    let z = JsonValue::Number(Number::from_parts(true, 0, -300));
    assert_eq!(DataType::from_json_value(&z), DataType::Int);
    let big = JsonValue::Number(Number::from_parts(true, 7, 300));
    assert_eq!(DataType::from_json_value(&big), DataType::Int);
    assert!(!Number::from_parts(true, 5, -1).is_integral());
}

#[test]
fn null_declares_nothing() {
    let t = DataType::from_json_value(&JsonValue::Null);
    assert_eq!(t, DataType::Null);
    let (decls, r) = declare_all(t);
    assert!(decls.is_empty());
    assert_eq!(r, "()");
}

#[test]
fn object_declares_one_struct() {
    let t = DataType::from_json_value(&object(vec![
        ("a", integer(1)),
        ("b", JsonValue::String(s("x"))),
    ]));
    assert_eq!(
        t,
        object_type(vec![("a", DataType::Int), ("b", DataType::String)])
    );
    let (decls, r) = declare_all(t);
    assert_eq!(decls, vec![s("struct Data0 {\n    pub a: i32,\n    pub b: String,\n}")]);
    assert_eq!(r, "Data0");
}

#[test]
fn mixed_number_array_is_float_sequence() {
    let t = DataType::from_json_value(&JsonValue::Array(vec![
        integer(1),
        JsonValue::Number(Number::from_parts(true, 25, -1)),
    ]));
    assert_eq!(t, DataType::Array(Box::new(DataType::Float)));
    let (decls, r) = declare_all(t);
    assert!(decls.is_empty());
    assert_eq!(r, "Vec<f64>");
}

#[test]
fn array_of_objects_declares_struct_and_unions() {
    let t = DataType::from_json_value(&JsonValue::Array(vec![
        object(vec![("foo", JsonValue::String(s("bar")))]),
        object(vec![("foo", integer(123)), ("baz", JsonValue::Boolean(true))]),
    ]));
    let (decls, r) = declare_all(t);
    assert_eq!(r, "Vec<Data0>");
    assert_eq!(
        decls,
        vec![
            s("enum Data1 {\n    Option0(()),\n    Option1(bool),\n}"),
            s("enum Data2 {\n    Option0(String),\n    Option1(i32),\n}"),
            s("struct Data0 {\n    pub baz: Data1,\n    pub foo: Data2,\n}"),
        ]
    );
}

#[test]
fn null_field_unified_with_string_becomes_optional() {
    let a = DataType::from_json_value(&object(vec![("x", JsonValue::Null)]));
    let b = DataType::from_json_value(&object(vec![("x", JsonValue::String(s("hi")))]));
    assert_eq!(
        a.unify(b),
        object_type(vec![(
            "x",
            DataType::variant_of(vec![DataType::Null, DataType::String])
        )])
    );
}

#[test]
fn declarations_have_distinct_names() {
    let mut fields = Vec::new();
    for i in 0..12u64 {
        fields.push((
            format!("f{}", i),
            object(vec![("v", integer(i))]),
        ));
    }
    let t = DataType::from_json_value(&JsonValue::Object(
        fields.into_iter().map(|(k, v)| (k, v)).collect(),
    ));
    let (decls, r) = declare_all(t);
    assert_eq!(decls.len(), 13);
    assert_eq!(r, "Data0");
    let mut names: Vec<String> = decls
        .iter()
        .map(|d| d.split_whitespace().nth(1).unwrap().to_string())
        .collect();
    assert!(names.contains(&s("Data12")));
    names.sort();
    names.dedup();
    assert_eq!(names.len(), 13);
}

#[test]
fn declaration_numbers_continue_across_calls() {
    let mut decls = Decls::new();
    let first = object_type(vec![("a", DataType::Int)]).declare(&mut decls);
    let second = DataType::variant_of(vec![DataType::Int, DataType::Bool]).declare(&mut decls);
    assert_eq!(first, "Data0");
    assert_eq!(second, "Data1");
    assert_eq!(decls.next_index, 2);
    assert_eq!(decls.decls[1], "enum Data1 {\n    Option0(i32),\n    Option1(bool),\n}");
}

#[test]
fn extreme_numbers() {
    assert!(!Number::from_parts(true, u64::MAX, -1).is_integral());
    assert!(Number::from_parts(true, 0, i16::MIN).is_integral());
    assert!(!Number::from_parts(true, u64::MAX, i16::MIN).is_integral());
    assert!(Number::from_parts(true, 10_000_000_000_000_000_000, -19).is_integral());
    assert!(Number::from_parts(false, u64::MAX, i16::MAX).is_integral());
}
