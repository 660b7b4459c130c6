use kx_gateway::datasets::{
    check_chunk_cap, check_doc_content, check_indexable, check_ingest_batch, check_query_dim, check_query_staleness, effective_mode, plan_ingest,
    query_source, rebuild_row, rerank_on, search_width, sparse_arm, stored_chunk_index, stored_dim,
    stored_index_version, stored_parent, validate_dataset_name, ChunkShape, DatasetError,
    DatasetFacts, RetrievalMode, INDEX_VERSION, MAX_K,
};

fn shape(seed: u8, len: usize) -> ChunkShape {
    ChunkShape { chunk_ref: [seed; 32], vector_len: len }
}

fn facts(dim: Option<u32>, fp: &str, refs: Vec<[u8; 32]>) -> DatasetFacts {
    DatasetFacts { dim, embed_fingerprint: fp.to_string(), chunk_refs: refs }
}

#[test]
fn bad_dataset_names_are_rejected() {
    let long = "z".repeat(200);
    for bad in ["", "..", ".", "a/b", "x y", long.as_str()] {
        let err = validate_dataset_name(bad).unwrap_err();
        assert!(matches!(err, DatasetError::InvalidArgument(_)), "name {bad:?} must be rejected");
    }
}

#[test]
fn dataset_name_refusals_say_which_rule_failed() {
    assert_eq!(
        validate_dataset_name("").unwrap_err(),
        DatasetError::InvalidArgument("dataset name must be 1..=128 chars".to_string())
    );
    assert_eq!(
        validate_dataset_name("..").unwrap_err(),
        DatasetError::InvalidArgument("invalid dataset name".to_string())
    );
    assert_eq!(
        validate_dataset_name("a/b").unwrap_err(),
        DatasetError::InvalidArgument("dataset name allows [A-Za-z0-9._-] only".to_string())
    );
    assert!(validate_dataset_name("corpus-1.v2_final").is_ok());
    assert!(validate_dataset_name(&"a".repeat(128)).is_ok());
    assert!(validate_dataset_name(&"a".repeat(129)).is_err());
    // 43 three-byte chars are 129 bytes: over the byte cap.
    assert!(validate_dataset_name(&"é".repeat(43)).is_err());
}

#[test]
fn dim_mismatch_is_rejected() {
    let existing = facts(Some(4), "", vec![[1u8; 32]]);
    let err = plan_ingest("c", Some(&existing), &[shape(2, 3)], None).unwrap_err();
    assert_eq!(
        err,
        DatasetError::DimMismatch("dataset dim is 4, got a 3-dim vector".to_string())
    );
}

#[test]
fn a_batch_fixes_a_new_datasets_dimension() {
    let plan = plan_ingest("c", None, &[shape(1, 4), shape(2, 4)], None).unwrap();
    assert_eq!(plan.target_dim, 4);
    assert_eq!(plan.apply, vec![0, 1]);
    let err = plan_ingest("c", None, &[shape(1, 4), shape(2, 5)], None).unwrap_err();
    assert_eq!(err, DatasetError::DimMismatch("dataset dim is 4, got a 5-dim vector".to_string()));
    let err = plan_ingest("c", None, &[], None).unwrap_err();
    assert_eq!(err, DatasetError::InvalidArgument("no documents".to_string()));
}

#[test]
fn dedup_is_content_addressed() {
    let existing = facts(Some(4), "", vec![[7u8; 32]]);
    let again = plan_ingest("c", Some(&existing), &[shape(7, 4)], None).unwrap();
    assert!(again.apply.is_empty(), "a repeat content is a no-op");
    // Within one batch, only the first of two equal chunks applies.
    let plan = plan_ingest("c", Some(&existing), &[shape(8, 4), shape(8, 4), shape(9, 4)], None).unwrap();
    assert_eq!(plan.apply, vec![0, 2]);
}

#[test]
fn a_server_embed_batch_over_another_fingerprint_is_stale() {
    let existing = facts(Some(4), "model-a", vec![]);
    let err = plan_ingest("docs", Some(&existing), &[shape(1, 4)], Some("model-b")).unwrap_err();
    assert_eq!(
        err,
        DatasetError::StaleIndex(
            "dataset 'docs' was indexed under a different embed model / chunk config; create a new dataset or re-ingest to rebuild"
                .to_string()
        )
    );
    // The same fingerprint, an unstamped corpus, or a client-vector batch all pass.
    assert!(plan_ingest("docs", Some(&existing), &[shape(1, 4)], Some("model-a")).is_ok());
    let unstamped = facts(Some(4), "", vec![]);
    assert!(plan_ingest("docs", Some(&unstamped), &[shape(1, 4)], Some("model-b")).is_ok());
    assert!(plan_ingest("docs", Some(&existing), &[shape(1, 4)], None).is_ok());
}

#[test]
fn query_dim_mismatch_is_rejected() {
    let err = check_query_dim(Some(4), 3).unwrap_err();
    assert_eq!(err, DatasetError::DimMismatch("dataset dim is 4, got a 3-dim query".to_string()));
    assert!(check_query_dim(Some(4), 4).is_ok());
    assert!(check_query_dim(None, 3).is_ok(), "a dataset with no dimension takes any");
}

#[test]
fn fingerprint_staleness_refuses_a_model_swap_but_exempts_client_vectors() {
    let err = check_query_staleness("docs", "model-a", Some("model-b")).unwrap_err();
    assert!(matches!(err, DatasetError::StaleIndex(_)));
    assert_eq!(
        err.message(),
        "dataset 'docs' was indexed under a different embed model / chunk config; re-ingest to rebuild (the client-vector path is unaffected)"
    );
    assert!(check_query_staleness("docs", "model-a", None).is_ok(), "client vectors are exempt");
    assert!(check_query_staleness("docs", "", Some("model-b")).is_ok(), "unstamped corpus");
    assert!(check_query_staleness("docs", "model-a", Some("model-a")).is_ok());
}

#[test]
fn search_width_clamps_zero_and_caps_k() {
    assert_eq!(search_width(0), None);
    assert_eq!(search_width(1), Some((1, 4)));
    assert_eq!(search_width(10), Some((10, 40)));
    assert_eq!(search_width(1000), Some((MAX_K, 256)));
}

#[test]
fn query_vectors_come_from_the_client_or_the_server_embedder() {
    assert_eq!(query_source(Some(4), ""), Ok(false));
    assert_eq!(query_source(Some(0), "hello"), Ok(true));
    assert_eq!(query_source(None, "hello"), Ok(true));
    assert_eq!(
        query_source(None, ""),
        Err(DatasetError::InvalidArgument("query requires query_text or a query_embedding".to_string()))
    );
}

#[test]
fn retrieval_arms_and_rerank_follow_the_request() {
    assert_eq!(effective_mode(RetrievalMode::Default, RetrievalMode::Hybrid), RetrievalMode::Hybrid);
    assert_eq!(effective_mode(RetrievalMode::Dense, RetrievalMode::Hybrid), RetrievalMode::Dense);
    assert!(sparse_arm(RetrievalMode::Hybrid, "words", false));
    assert!(!sparse_arm(RetrievalMode::Hybrid, "", false));
    assert!(!sparse_arm(RetrievalMode::Hybrid, "words", true));
    assert!(!sparse_arm(RetrievalMode::Dense, "words", false));
    assert!(rerank_on(None, true));
    assert!(!rerank_on(Some(false), true));
    assert!(rerank_on(Some(true), false));
}

#[test]
fn chunk_cap_refuses_an_oversized_document() {
    assert!(check_chunk_cap(10, 0).is_ok(), "0 is no cap");
    assert!(check_chunk_cap(10, 10).is_ok());
    assert_eq!(
        check_chunk_cap(11, 10).unwrap_err(),
        DatasetError::InvalidArgument("document produces 11 chunks, over the 10-chunk cap".to_string())
    );
}

#[test]
fn stored_rows_rebuild_defensively() {
    assert_eq!(stored_dim(4), Some(4));
    assert_eq!(stored_dim(0), None);
    assert_eq!(stored_dim(-1), None);
    assert_eq!(stored_dim(1i64 << 40), None);
    assert_eq!(stored_index_version(3), 3);
    assert_eq!(stored_index_version(-5), INDEX_VERSION);
    assert_eq!(stored_chunk_index(7), 7);
    assert_eq!(stored_chunk_index(-7), 0);
    assert_eq!(rebuild_row(None, 4), (Some(4), true));
    assert_eq!(rebuild_row(Some(4), 3), (Some(4), false));
    assert_eq!(rebuild_row(None, 0), (None, true));
    let parent = [9u8; 32];
    assert_eq!(stored_parent([1u8; 32], Some(&parent[..])), parent);
    assert_eq!(stored_parent([1u8; 32], Some(&parent[..31])), [1u8; 32]);
    assert_eq!(stored_parent([1u8; 32], None), [1u8; 32]);
}

#[test]
fn dataset_error_messages() {
    assert_eq!(DatasetError::NotFound.message(), "dataset not found");
    assert_eq!(DatasetError::InvalidArgument("x".to_string()).message(), "x");
}

#[test]
fn reingesting_an_applied_batch_applies_nothing() {
    let rows = [shape(1, 4), shape(2, 4), shape(1, 4), shape(3, 4)];
    let first = plan_ingest("c", None, &rows, None).unwrap();
    assert_eq!(first.apply, vec![0, 1, 3]);
    let held: Vec<[u8; 32]> = first.apply.iter().map(|&p| rows[p].chunk_ref).collect();
    let existing = facts(Some(4), "", held);
    let again = plan_ingest("c", Some(&existing), &rows, None).unwrap();
    assert!(again.apply.is_empty());
}

#[test]
fn empty_content_is_rejected() {
    assert_eq!(check_ingest_batch("c", 1), Ok(()));
    assert_eq!(
        check_doc_content(0),
        Err(DatasetError::InvalidArgument("empty document content".to_string()))
    );
    assert_eq!(check_doc_content(1), Ok(()));
}

#[test]
fn an_ingest_batch_needs_a_valid_name_then_documents_then_content() {
    assert_eq!(
        check_ingest_batch("../x", 1),
        Err(DatasetError::InvalidArgument("dataset name allows [A-Za-z0-9._-] only".to_string()))
    );
    assert_eq!(
        check_ingest_batch("docs", 0),
        Err(DatasetError::InvalidArgument("no documents".to_string()))
    );
    assert_eq!(check_ingest_batch("docs", 2), Ok(()));
    assert_eq!(
        check_indexable(0),
        Err(DatasetError::InvalidArgument("no indexable content".to_string()))
    );
    assert_eq!(check_indexable(3), Ok(()));
}
