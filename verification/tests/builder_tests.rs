use rig_core::builder::{
    BuildError, EmbeddingProvider, EmbeddingsBuilder, Loader, LoaderError, ProviderError,
    StubProvider,
};
use rig_core::schema::{FieldMode, FieldSpec, Extractor, RecordSchema};
use rig_core::value::{FieldValue, Record};
use rig_core::vector::EmbeddingVector;

fn schema_of(fields: Vec<(&str, FieldMode)>) -> RecordSchema {
    let specs: Vec<FieldSpec> = fields
        .into_iter()
        .map(|(name, mode)| FieldSpec { name: name.to_string(), mode })
        .collect();
    RecordSchema::new(specs).unwrap()
}

fn acme_record() -> (RecordSchema, Record) {
    let schema = schema_of(vec![
        ("company", FieldMode::Embed),
        ("ages", FieldMode::Embed),
    ]);
    let record = Record {
        id: "doc1".to_string(),
        fields: vec![
            FieldValue::Text("Acme".to_string()),
            FieldValue::List(vec![FieldValue::Int(25), FieldValue::Int(30)]),
        ],
    };
    (schema, record)
}

#[test]
fn end_to_end_extraction_of_the_acme_record() {
    let (schema, record) = acme_record();
    assert_eq!(
        rig_core::schema::extract(&schema, &record).unwrap(),
        vec!["Acme".to_string(), "25".to_string(), "30".to_string()]
    );

    let ages_only = schema_of(vec![("company", FieldMode::Skip), ("ages", FieldMode::Embed)]);
    assert_eq!(
        rig_core::schema::extract(&ages_only, &record).unwrap(),
        vec!["25".to_string(), "30".to_string()]
    );
}

#[test]
fn build_groups_fragments_per_record() {
    let (schema, record) = acme_record();
    let record2 = Record {
        id: "doc2".to_string(),
        fields: vec![
            FieldValue::Text("Globex".to_string()),
            FieldValue::List(vec![FieldValue::Int(41)]),
        ],
    };
    let mut builder = EmbeddingsBuilder::new();
    builder.add_record(&schema, record);
    builder.add_record(&schema, record2);
    let mut provider = StubProvider {};
    let sets = builder.build(&mut provider).unwrap();

    assert_eq!(sets.len(), 2);
    let total: usize = sets.iter().map(|s| s.fragments().len()).sum();
    assert_eq!(total, 5);

    assert_eq!(sets[0].record_id(), "doc1");
    let texts0: Vec<String> = sets[0].fragments().iter().map(|f| f.0.clone()).collect();
    assert_eq!(texts0, vec!["Acme".to_string(), "25".to_string(), "30".to_string()]);
    assert_eq!(sets[1].record_id(), "doc2");
    let texts1: Vec<String> = sets[1].fragments().iter().map(|f| f.0.clone()).collect();
    assert_eq!(texts1, vec!["Globex".to_string(), "41".to_string()]);

    // The stub derives each vector from its fragment's text alone.
    for set in &sets {
        for (text, vector) in set.fragments() {
            assert_eq!(vector.components(), vec![1, (text.chars().count() % 100) as i64]);
        }
    }
}

#[test]
fn build_twice_yields_equal_sets() {
    let (schema, record) = acme_record();
    let mut builder = EmbeddingsBuilder::new();
    builder.add_record(&schema, record);
    let mut provider = StubProvider {};
    let first = builder.build(&mut provider).unwrap();
    let second = builder.build(&mut provider).unwrap();

    assert_eq!(first.len(), second.len());
    for (a, b) in first.iter().zip(second.iter()) {
        assert_eq!(a.record_id(), b.record_id());
        assert_eq!(a.fragments().len(), b.fragments().len());
        for (fa, fb) in a.fragments().iter().zip(b.fragments().iter()) {
            assert_eq!(fa.0, fb.0);
            assert_eq!(fa.1.components(), fb.1.components());
        }
    }
}

#[test]
fn batch_flattens_all_fragments_in_registration_order() {
    let (schema, record) = acme_record();
    let record2 = Record {
        id: "doc2".to_string(),
        fields: vec![
            FieldValue::Text("Globex".to_string()),
            FieldValue::List(vec![FieldValue::Int(41)]),
        ],
    };
    let mut builder = EmbeddingsBuilder::new();
    builder.add_record(&schema, record);
    builder.add_record(&schema, record2);
    assert_eq!(
        builder.batch().unwrap(),
        vec![
            "Acme".to_string(),
            "25".to_string(),
            "30".to_string(),
            "Globex".to_string(),
            "41".to_string()
        ]
    );
}

#[test]
fn regroup_pairs_the_given_vectors_by_position() {
    let (schema, record) = acme_record();
    let mut builder = EmbeddingsBuilder::new();
    builder.add_record(&schema, record);

    let vectors = vec![
        EmbeddingVector::new(vec![1, 0]).unwrap(),
        EmbeddingVector::new(vec![0, 2]).unwrap(),
        EmbeddingVector::new(vec![3, 3]).unwrap(),
    ];
    let sets = builder.regroup(vectors).unwrap();
    assert_eq!(sets.len(), 1);
    let frags = sets[0].fragments();
    assert_eq!(frags.len(), 3);
    assert_eq!(frags[0].0, "Acme");
    assert_eq!(frags[0].1.components(), vec![1, 0]);
    assert_eq!(frags[1].1.components(), vec![0, 2]);
    assert_eq!(frags[2].1.components(), vec![3, 3]);

    // A batch of the wrong size is the counting error.
    let short = vec![EmbeddingVector::new(vec![1]).unwrap()];
    assert!(matches!(
        builder.regroup(short),
        Err(BuildError::ProviderCountMismatch { expected: 3, got: 1 })
    ));
}

#[test]
fn register_all_appends_every_record_in_order() {
    let schema = schema_of(vec![("text", FieldMode::Embed)]);
    let mut builder = EmbeddingsBuilder::new();
    builder.register_all(
        &schema,
        vec![
            Record { id: "x".to_string(), fields: vec![FieldValue::Text("one".to_string())] },
            Record { id: "y".to_string(), fields: vec![FieldValue::Text("two".to_string())] },
        ],
    );
    assert_eq!(builder.len(), 2);
    let mut provider = StubProvider {};
    let sets = builder.build(&mut provider).unwrap();
    assert_eq!(sets[0].record_id(), "x");
    assert_eq!(sets[1].record_id(), "y");
}

struct FailingProvider {}

impl EmbeddingProvider for FailingProvider {
    fn embed_batch(&mut self, _texts: &Vec<String>) -> Result<Vec<EmbeddingVector>, ProviderError> {
        Err(ProviderError::Transient { message: "overloaded".to_string() })
    }
}

struct ShortProvider {}

impl EmbeddingProvider for ShortProvider {
    fn embed_batch(&mut self, _texts: &Vec<String>) -> Result<Vec<EmbeddingVector>, ProviderError> {
        Ok(vec![EmbeddingVector::new(vec![1]).unwrap()])
    }
}

#[test]
fn provider_failure_aborts_the_whole_build() {
    let (schema, record) = acme_record();
    let mut builder = EmbeddingsBuilder::new();
    builder.add_record(&schema, record);
    let mut provider = FailingProvider {};
    assert!(matches!(
        builder.build(&mut provider),
        Err(BuildError::Provider { error: ProviderError::Transient { .. } })
    ));
}

#[test]
fn a_short_provider_answer_is_rejected() {
    let (schema, record) = acme_record();
    let mut builder = EmbeddingsBuilder::new();
    builder.add_record(&schema, record);
    let mut provider = ShortProvider {};
    assert!(matches!(
        builder.build(&mut provider),
        Err(BuildError::ProviderCountMismatch { expected: 3, got: 1 })
    ));
}

#[test]
fn extraction_failure_aborts_before_any_provider_call() {
    let schema = schema_of(vec![("meta", FieldMode::Embed)]);
    let record = Record {
        id: "bad".to_string(),
        fields: vec![FieldValue::Object(vec![("k".to_string(), FieldValue::Int(1))])],
    };
    let mut builder = EmbeddingsBuilder::new();
    builder.add_record(&schema, record);
    // A failing provider proves no call is made: extraction fails first.
    let mut provider = FailingProvider {};
    assert!(matches!(
        builder.build(&mut provider),
        Err(BuildError::Extraction { record_index: 0, error: _ })
    ));
}

#[test]
fn empty_identifier_and_empty_extraction_are_rejected() {
    let (schema, mut record) = acme_record();
    record.id = String::new();
    let mut builder = EmbeddingsBuilder::new();
    builder.add_record(&schema, record);
    let mut provider = StubProvider {};
    assert!(matches!(
        builder.build(&mut provider),
        Err(BuildError::EmptyRecordId { record_index: 0 })
    ));

    let ages_only = schema_of(vec![("company", FieldMode::Skip), ("ages", FieldMode::Embed)]);
    let empty_ages = Record {
        id: "doc1".to_string(),
        fields: vec![FieldValue::Text("Acme".to_string()), FieldValue::List(vec![])],
    };
    let mut builder2 = EmbeddingsBuilder::new();
    builder2.add_record(&ages_only, empty_ages);
    assert!(matches!(
        builder2.build(&mut provider),
        Err(BuildError::EmptyRecord { record_index: 0 })
    ));
}

struct TwoRecordLoader {}

impl Loader for TwoRecordLoader {
    fn load_all(&mut self) -> Result<Vec<Record>, LoaderError> {
        Ok(vec![
            Record { id: "a".to_string(), fields: vec![FieldValue::Text("alpha".to_string())] },
            Record { id: "b".to_string(), fields: vec![FieldValue::Text("beta".to_string())] },
        ])
    }
}

struct BrokenLoader {}

impl Loader for BrokenLoader {
    fn load_all(&mut self) -> Result<Vec<Record>, LoaderError> {
        Err(LoaderError { message: "disk gone".to_string() })
    }
}

#[test]
fn a_loader_feeds_the_builder_in_production_order() {
    let schema = schema_of(vec![("text", FieldMode::Embed)]);
    let mut builder = EmbeddingsBuilder::new();
    let mut loader = TwoRecordLoader {};
    assert_eq!(builder.add_from_loader(&schema, &mut loader).unwrap(), 2);
    assert_eq!(builder.len(), 2);
    let mut provider = StubProvider {};
    let sets = builder.build(&mut provider).unwrap();
    assert_eq!(sets[0].record_id(), "a");
    assert_eq!(sets[1].record_id(), "b");
}

#[test]
fn a_broken_loader_leaves_the_builder_unchanged() {
    let schema = schema_of(vec![("text", FieldMode::Embed)]);
    let mut builder = EmbeddingsBuilder::new();
    let mut loader = BrokenLoader {};
    let r = builder.add_from_loader(&schema, &mut loader);
    assert!(matches!(r, Err(LoaderError { .. })));
    assert_eq!(builder.len(), 0);
}
