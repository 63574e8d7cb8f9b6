use rig_core::builder::{EmbeddingSet, SetError, StubProvider};
use rig_core::index::{DistanceMetric, IndexError, VectorIndex};
use rig_core::retriever::retrieve_context;
use rig_core::value::{FieldValue, Record};
use rig_core::vector::{EmbeddingVector, VectorError, NORM_LIMIT};

fn rec(id: &str) -> Record {
    Record { id: id.to_string(), fields: vec![FieldValue::Text(id.to_string())] }
}

fn vector(components: Vec<i64>) -> EmbeddingVector {
    EmbeddingVector::new(components).unwrap()
}

fn one_fragment_set(id: &str, components: Vec<i64>) -> EmbeddingSet {
    EmbeddingSet::new(
        id.to_string(),
        rec(id),
        vec![(id.to_string(), vector(components))],
    )
    .unwrap()
}

#[test]
fn vector_construction_guards_its_range() {
    assert!(matches!(EmbeddingVector::new(vec![]), Err(VectorError::Empty)));
    assert!(matches!(EmbeddingVector::new(vec![0, 0]), Err(VectorError::Zero)));
    assert!(matches!(EmbeddingVector::new(vec![i64::MAX]), Err(VectorError::TooLarge)));
    assert!(matches!(EmbeddingVector::new(vec![46341, 46341]), Err(VectorError::TooLarge)));
    let v = vector(vec![3, -4]);
    assert_eq!(v.dim(), 2);
    assert_eq!(v.norm_sq(), 25);
    assert!(v.norm_sq() <= NORM_LIMIT);
}

#[test]
fn embedding_set_construction_guards_its_invariants() {
    assert!(matches!(
        EmbeddingSet::new(String::new(), rec("a"), vec![("t".to_string(), vector(vec![1]))]),
        Err(SetError::EmptyRecordId)
    ));
    assert!(matches!(
        EmbeddingSet::new("a".to_string(), rec("a"), vec![]),
        Err(SetError::NoFragments)
    ));
}

#[test]
fn self_similarity_is_maximal_and_ranks_first() {
    let mut index = VectorIndex::new();
    index.add(one_fragment_set("target", vec![3, 4])).unwrap();
    index.add(one_fragment_set("other", vec![5, 1])).unwrap();
    index.add(one_fragment_set("opposite", vec![-3, -4])).unwrap();

    let query = vector(vec![3, 4]);
    let results = index.top_k(&query, 3).unwrap();
    assert_eq!(results[0].record_id, "target");
    assert!(results[0].score.is_max());
    assert!(!results[1].score.is_max());
    assert_eq!(results[0].distance_metric_used, DistanceMetric::Cosine);
    assert_eq!(results.last().unwrap().record_id, "opposite");
}

#[test]
fn top_k_caps_length_deduplicates_and_orders() {
    let mut index = VectorIndex::new();
    // "a" has two fragments; only its best entry may come back.
    index
        .add(
            EmbeddingSet::new(
                "a".to_string(),
                rec("a"),
                vec![
                    ("a1".to_string(), vector(vec![10, 0])),
                    ("a2".to_string(), vector(vec![0, 10])),
                ],
            )
            .unwrap(),
        )
        .unwrap();
    index.add(one_fragment_set("b", vec![7, 1])).unwrap();
    index.add(one_fragment_set("c", vec![-2, -9])).unwrap();

    let query = vector(vec![10, 0]);

    let capped = index.top_k(&query, 2).unwrap();
    assert_eq!(capped.len(), 2);

    let all = index.top_k(&query, 10).unwrap();
    assert_eq!(all.len(), 3);
    let mut ids: Vec<String> = all.iter().map(|r| r.record_id.clone()).collect();
    let ranked_ids = ids.clone();
    ids.sort();
    ids.dedup();
    assert_eq!(ids.len(), 3);
    assert_eq!(ranked_ids[0], "a");
    for pair in all.windows(2) {
        // Non-increasing: each later score is at most the earlier one.
        assert!(pair[1].score.le(&pair[0].score));
    }
}

#[test]
fn ties_go_to_the_earlier_insertion() {
    let mut index = VectorIndex::new();
    index.add(one_fragment_set("first", vec![2, 2])).unwrap();
    index.add(one_fragment_set("second", vec![4, 4])).unwrap();
    let query = vector(vec![1, 1]);
    let results = index.top_k(&query, 2).unwrap();
    assert_eq!(results[0].record_id, "first");
    assert_eq!(results[1].record_id, "second");
    assert!(results[0].score.is_max());
    assert!(results[1].score.is_max());
}

#[test]
fn dimensionality_mismatch_leaves_the_index_unchanged() {
    let mut index = VectorIndex::new();
    index.add(one_fragment_set("a", vec![1, 2])).unwrap();
    assert_eq!(index.len(), 1);

    // A set whose vector has another dimensionality is rejected whole.
    let r = index.add(one_fragment_set("b", vec![1, 2, 3]));
    assert!(matches!(r, Err(IndexError::DimensionMismatch { expected: 2, got: 3 })));
    assert_eq!(index.len(), 1);
    assert_eq!(index.dim(), 2);

    // A set mixing dimensionalities is rejected whole too.
    let mixed = EmbeddingSet::new(
        "c".to_string(),
        rec("c"),
        vec![
            ("c1".to_string(), vector(vec![1, 1])),
            ("c2".to_string(), vector(vec![1, 1, 1])),
        ],
    )
    .unwrap();
    assert!(matches!(mixed_err(&mut index, mixed), IndexError::DimensionMismatch { .. }));
    assert_eq!(index.len(), 1);

    // A query of the wrong dimensionality is an error, not an answer.
    let q3 = vector(vec![1, 1, 1]);
    assert!(matches!(
        index.top_k(&q3, 1),
        Err(IndexError::DimensionMismatch { expected: 2, got: 3 })
    ));
}

fn mixed_err(index: &mut VectorIndex, set: EmbeddingSet) -> IndexError {
    match index.add(set) {
        Err(e) => e,
        Ok(()) => panic!("a mixed-dimensionality set must be rejected"),
    }
}

#[test]
fn an_empty_index_answers_with_no_results() {
    let index = VectorIndex::new();
    let query = vector(vec![1, 2, 3]);
    assert_eq!(index.top_k(&query, 5).unwrap().len(), 0);
}

#[test]
fn retrieval_returns_summaries_in_ranked_order() {
    let mut index = VectorIndex::new();
    // The stub embeds a text as [1, len % 100]: store records at the
    // stub's own vectors so the query text picks its twin.
    index.add(one_fragment_set("short", vec![1, 5])).unwrap();
    index.add(one_fragment_set("longer", vec![1, 12])).unwrap();
    let mut provider = StubProvider {};

    let docs = retrieve_context(&mut provider, &index, &"hello".to_string(), 2).unwrap();
    assert_eq!(docs.len(), 2);
    assert_eq!(docs[0].id, "short");
    assert_eq!(docs[1].id, "longer");

    let one = retrieve_context(&mut provider, &index, &"hello".to_string(), 1).unwrap();
    assert_eq!(one.len(), 1);
    assert_eq!(one[0].id, "short");
}

#[test]
fn duplicate_record_ids_are_additive_and_deduplicated_at_query_time() {
    let mut index = VectorIndex::new();
    index.add(one_fragment_set("a", vec![1, 0])).unwrap();
    index.add(one_fragment_set("a", vec![0, 1])).unwrap();
    assert_eq!(index.len(), 2);
    let query = vector(vec![0, 9]);
    let results = index.top_k(&query, 5).unwrap();
    assert_eq!(results.len(), 1);
    assert_eq!(results[0].record_id, "a");
    assert!(results[0].score.is_max());
}
