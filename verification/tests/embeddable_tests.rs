use rig_core::embeddable::Embeddable;
use rig_core::json::json_fragment;
use rig_core::schema::{extract, FieldMode, FieldSpec, Extractor, RecordSchema, SchemaError,
    ExtractionError};
use rig_core::value::{FieldValue, Record};

fn schema_of(fields: Vec<(&str, FieldMode)>) -> RecordSchema {
    let specs: Vec<FieldSpec> = fields
        .into_iter()
        .map(|(name, mode)| FieldSpec { name: name.to_string(), mode })
        .collect();
    RecordSchema::new(specs).unwrap()
}

#[test]
fn test_custom_embed() {
    let schema = schema_of(vec![
        ("word", FieldMode::Skip),
        ("definition", FieldMode::EmbedWith(Extractor::Json)),
    ]);
    let fake_definition = Record {
        id: "doc1".to_string(),
        fields: vec![
            FieldValue::Text("house".to_string()),
            FieldValue::Object(vec![
                (
                    "word".to_string(),
                    FieldValue::Text(
                        "a building in which people live; residence for human beings.".to_string(),
                    ),
                ),
                (
                    "link".to_string(),
                    FieldValue::Text("https://www.dictionary.com/browse/house".to_string()),
                ),
                ("speech".to_string(), FieldValue::Text("noun".to_string())),
            ]),
        ],
    };

    assert_eq!(
        extract(&schema, &fake_definition).unwrap(),
        vec!["{\"word\":\"a building in which people live; residence for human beings.\",\"link\":\"https://www.dictionary.com/browse/house\",\"speech\":\"noun\"}".to_string()]
    )
}

#[test]
fn test_simple_embed() {
    let schema = schema_of(vec![("word", FieldMode::Skip), ("definition", FieldMode::Embed)]);
    let fake_definition = Record {
        id: "doc1".to_string(),
        fields: vec![
            FieldValue::Text("house".to_string()),
            FieldValue::Text(
                "a building in which people live; residence for human beings.".to_string(),
            ),
        ],
    };

    assert_eq!(
        extract(&schema, &fake_definition).unwrap(),
        vec!["a building in which people live; residence for human beings.".to_string()]
    );
}

#[test]
fn test_multiple_embed() {
    let schema = schema_of(vec![
        ("company", FieldMode::Skip),
        ("employee_ages", FieldMode::Embed),
    ]);
    let company = Record {
        id: "doc1".to_string(),
        fields: vec![
            FieldValue::Text("Google".to_string()),
            FieldValue::List(vec![
                FieldValue::Int(25),
                FieldValue::Int(30),
                FieldValue::Int(35),
                FieldValue::Int(40),
            ]),
        ],
    };

    assert_eq!(
        extract(&schema, &company).unwrap(),
        vec![
            "25".to_string(),
            "30".to_string(),
            "35".to_string(),
            "40".to_string()
        ]
    );
}

#[test]
fn test_many_embed() {
    let schema = schema_of(vec![
        ("company", FieldMode::Embed),
        ("employee_ages", FieldMode::Embed),
    ]);
    let company = Record {
        id: "doc1".to_string(),
        fields: vec![
            FieldValue::Text("Google".to_string()),
            FieldValue::List(vec![
                FieldValue::Int(25),
                FieldValue::Int(30),
                FieldValue::Int(35),
                FieldValue::Int(40),
            ]),
        ],
    };

    assert_eq!(
        extract(&schema, &company).unwrap(),
        vec![
            "Google".to_string(),
            "25".to_string(),
            "30".to_string(),
            "35".to_string(),
            "40".to_string()
        ]
    );
}

#[test]
fn embeddable_scalar_impls() {
    assert_eq!("hi".to_string().embeddable().unwrap(), vec!["hi".to_string()]);
    assert_eq!(5i8.embeddable().unwrap(), vec!["5".to_string()]);
    assert_eq!((-3i16).embeddable().unwrap(), vec!["-3".to_string()]);
    assert_eq!(1234i32.embeddable().unwrap(), vec!["1234".to_string()]);
    assert_eq!((-9876543210i64).embeddable().unwrap(), vec!["-9876543210".to_string()]);
    assert_eq!(0i128.embeddable().unwrap(), vec!["0".to_string()]);
    assert_eq!(i128::MIN.embeddable().unwrap(), vec![i128::MIN.to_string()]);
    assert_eq!(true.embeddable().unwrap(), vec!["true".to_string()]);
    assert_eq!(false.embeddable().unwrap(), vec!["false".to_string()]);
    assert_eq!('x'.embeddable().unwrap(), vec!["x".to_string()]);
}

#[test]
fn embeddable_vec_impl_flattens_in_order() {
    let ages: Vec<i32> = vec![25, 30, 35, 40];
    assert_eq!(
        ages.embeddable().unwrap(),
        vec!["25".to_string(), "30".to_string(), "35".to_string(), "40".to_string()]
    );
    let nested: Vec<Vec<i32>> = vec![vec![1, 2], vec![], vec![3]];
    assert_eq!(
        nested.embeddable().unwrap(),
        vec!["1".to_string(), "2".to_string(), "3".to_string()]
    );
}

#[test]
fn schema_with_no_embeddable_fields_is_rejected() {
    let specs = vec![
        FieldSpec { name: "id".to_string(), mode: FieldMode::Skip },
        FieldSpec { name: "word".to_string(), mode: FieldMode::Skip },
    ];
    assert!(matches!(RecordSchema::new(specs), Err(SchemaError::NoEmbeddableFields)));
    assert!(matches!(RecordSchema::new(Vec::new()), Err(SchemaError::NoEmbeddableFields)));
}

#[test]
fn extraction_rejects_wrong_arity() {
    let schema = schema_of(vec![("a", FieldMode::Embed)]);
    let record = Record { id: "r".to_string(), fields: vec![] };
    assert!(matches!(
        extract(&schema, &record),
        Err(ExtractionError::ShapeMismatch { expected: 1, got: 0 })
    ));
}

#[test]
fn extraction_rejects_object_taken_verbatim() {
    let schema = schema_of(vec![("meta", FieldMode::Embed)]);
    let record = Record {
        id: "r".to_string(),
        fields: vec![FieldValue::Object(vec![(
            "k".to_string(),
            FieldValue::Int(1),
        )])],
    };
    match extract(&schema, &record) {
        Err(ExtractionError::NonEmbeddableShape { field }) => assert_eq!(field, "meta"),
        other => panic!("expected a non-embeddable shape error, got {:?}", other.is_ok()),
    }
}

#[test]
fn fragments_keep_declared_field_order_around_a_sequence() {
    let schema = schema_of(vec![
        ("before", FieldMode::Embed),
        ("items", FieldMode::Embed),
        ("after", FieldMode::Embed),
    ]);
    let record = Record {
        id: "r".to_string(),
        fields: vec![
            FieldValue::Text("first".to_string()),
            FieldValue::List(vec![FieldValue::Int(1), FieldValue::Int(2), FieldValue::Int(3)]),
            FieldValue::Bool(false),
        ],
    };
    assert_eq!(
        extract(&schema, &record).unwrap(),
        vec![
            "first".to_string(),
            "1".to_string(),
            "2".to_string(),
            "3".to_string(),
            "false".to_string()
        ]
    );
}

#[test]
fn json_escapes_strings_as_serializers_do() {
    let v = FieldValue::Object(vec![
        ("text".to_string(), FieldValue::Text("say \"hi\"\n\tdone\\".to_string())),
        ("n".to_string(), FieldValue::Int(-7)),
        ("flag".to_string(), FieldValue::Bool(true)),
        ("initial".to_string(), FieldValue::Char('q')),
        ("list".to_string(), FieldValue::List(vec![FieldValue::Int(1), FieldValue::Int(2)])),
        ("ctl".to_string(), FieldValue::Text("\u{1}".to_string())),
    ]);
    assert_eq!(
        json_fragment(&v),
        "{\"text\":\"say \\\"hi\\\"\\n\\tdone\\\\\",\"n\":-7,\"flag\":true,\"initial\":\"q\",\"list\":[1,2],\"ctl\":\"\\u0001\"}"
    );
}
