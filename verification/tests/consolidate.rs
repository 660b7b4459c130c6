use kx_gateway::consolidate::{
    bundle_observation, consolidate_outcome, consolidate_request, decode_consolidate_args,
    encode_observation, memory_fault, parse_kind_filter, ConsolidateArgs, MemoryEntry, MemoryError,
    MemoryFault, MemoryKind,
    DEFAULT_K, MAX_BUNDLE_BYTES, MAX_K,
};

fn entry(tag: u8, text: &str) -> MemoryEntry {
    MemoryEntry { memory_id: [tag; 32], content: text.as_bytes().to_vec() }
}

fn invoke(payload: &[u8], read: Result<Vec<MemoryEntry>, MemoryError>) -> Result<Vec<u8>, String> {
    let args = decode_consolidate_args(payload)?;
    let req = consolidate_request(&args, 1_000_000_000);
    consolidate_outcome(req.query, read.map_err(memory_fault))
}

#[test]
fn bundles_ordered_entries_and_drops_score_and_created_ms() {
    let args = decode_consolidate_args(br#"{"k":10}"#).unwrap();
    assert_eq!(consolidate_request(&args, 0).k, 10);
    let out = invoke(
        br#"{"k":10}"#,
        Ok(vec![entry(1, "the deadline is march 3rd"), entry(2, "the client prefers email")]),
    )
    .unwrap();
    let v: serde_json::Value = serde_json::from_slice(&out).unwrap();
    let entries = v["entries"].as_array().unwrap();
    assert_eq!(entries.len(), 2);
    assert_eq!(v["count"], 2);
    assert_eq!(entries[0]["text"], "the deadline is march 3rd");
    assert_eq!(entries[0]["ref"], "01".repeat(32));
    let s = String::from_utf8_lossy(&out);
    assert!(!s.contains("score"), "no similarity score in the committed bundle");
    assert!(!s.contains("created_ms"), "created_ms is not committed");
    // The exact committed bytes: fields in order, compact.
    let want = format!(
        "{{\"entries\":[{{\"ref\":\"{}\",\"text\":\"the deadline is march 3rd\"}},{{\"ref\":\"{}\",\"text\":\"the client prefers email\"}}],\"count\":2}}",
        "01".repeat(32),
        "02".repeat(32)
    );
    assert_eq!(s, want);
}

#[test]
fn empty_bundle_returns_a_note_not_an_error() {
    let out = invoke(b"{}", Ok(Vec::new())).unwrap();
    let v: serde_json::Value = serde_json::from_slice(&out).unwrap();
    assert_eq!(v["count"], 0);
    assert!(v["note"].as_str().unwrap().contains("no episodic memories"));
}

#[test]
fn soft_fails_every_recoverable_error() {
    for err in [
        MemoryError::NotFound,
        MemoryError::DimMismatch("d".into()),
        MemoryError::EmbedderUnavailable,
        MemoryError::StaleIndex("s".into()),
        MemoryError::InvalidArgument("a".into()),
    ] {
        assert_eq!(memory_fault(err.clone()), MemoryFault::Recoverable);
        let out = invoke(br#"{"query":"launch"}"#, Err(err)).unwrap();
        let v: serde_json::Value = serde_json::from_slice(&out).unwrap();
        assert_eq!(v["count"], 0, "a recoverable error soft-fails to an empty bundle");
        assert!(v["note"].is_string());
        assert_eq!(v["focus"], "launch");
        assert_eq!(
            String::from_utf8(out).unwrap(),
            "{\"focus\":\"launch\",\"entries\":[],\"count\":0,\"note\":\"no memories to consolidate (empty, stale, or no embedder)\"}"
        );
    }
}

#[test]
fn internal_error_dead_letters() {
    assert_eq!(
        invoke(b"{}", Err(MemoryError::Internal("boom".into()))),
        Err("consolidate: boom".to_string()),
        "a hard backend fault dead-letters the chain"
    );
}

#[test]
fn refuses_unknown_arg_and_bad_json() {
    assert!(invoke(br#"{"nope":1}"#, Ok(Vec::new())).is_err(), "unknown arg refused");
    assert!(invoke(b"not json", Ok(Vec::new())).is_err(), "bad json refused");
    assert_eq!(
        decode_consolidate_args(br#"{"nope":1}"#).unwrap_err(),
        "consolidate: bad args: unknown field `nope`, expected one of `query`, `k`, `kind_filter`, `window_hours`"
    );
    assert_eq!(
        decode_consolidate_args(br#"{"k":"ten"}"#).unwrap_err(),
        "consolidate: bad args: invalid type for `k`: expected an integer in 0..=4294967295"
    );
    assert_eq!(
        decode_consolidate_args(b"[1]").unwrap_err(),
        "consolidate: bad args: expected a JSON object"
    );
    assert_eq!(decode_consolidate_args(&[0xff, 0xfe]).unwrap_err(), "consolidate: bad args: invalid UTF-8");
    assert!(decode_consolidate_args(b"not json").unwrap_err().starts_with("consolidate: bad args: "));
}

#[test]
fn arguments_decode_with_nulls_as_absent() {
    let a = decode_consolidate_args(br#"{"query":null,"k":3,"kind_filter":"semantic","window_hours":2}"#).unwrap();
    assert_eq!(
        a,
        ConsolidateArgs { query: None, k: Some(3), kind_filter: Some("semantic".into()), window_hours: Some(2) }
    );
}

#[test]
fn the_request_clamps_k_and_windows_back_from_now() {
    let mut a = ConsolidateArgs { query: Some(String::new()), k: None, kind_filter: None, window_hours: Some(2) };
    let r = consolidate_request(&a, 10_000_000);
    assert_eq!(r.k, DEFAULT_K);
    assert_eq!(r.query, None, "an empty query is no focus");
    assert_eq!(r.kind, Some(MemoryKind::Episodic));
    assert_eq!(r.window, Some((10_000_000 - 7_200_000, 10_000_000)));
    a.k = Some(0);
    assert_eq!(consolidate_request(&a, 0).k, 1);
    a.k = Some(1000);
    assert_eq!(consolidate_request(&a, 0).k, MAX_K);
    a.window_hours = Some(u32::MAX);
    assert_eq!(consolidate_request(&a, i64::MIN + 5).window, Some((i64::MIN, i64::MIN + 5)), "saturates");
}

#[test]
fn kind_filter_defaults_to_episodic_and_any_means_every_kind() {
    assert_eq!(parse_kind_filter(None), Some(MemoryKind::Episodic));
    assert_eq!(parse_kind_filter(Some(" Semantic ")), Some(MemoryKind::Semantic));
    assert_eq!(parse_kind_filter(Some("ANY")), None);
    assert_eq!(parse_kind_filter(Some("all")), None);
    assert_eq!(parse_kind_filter(Some("")), None);
    assert_eq!(parse_kind_filter(Some("episodic")), Some(MemoryKind::Episodic));
    assert_eq!(parse_kind_filter(Some("weird")), Some(MemoryKind::Episodic));
}

#[test]
fn a_bundle_over_the_byte_budget_keeps_the_front_with_a_note() {
    let big = "x".repeat(MAX_BUNDLE_BYTES);
    let o = bundle_observation(None, &[entry(1, &big), entry(2, "tail")]);
    assert_eq!(o.count, 1);
    assert_eq!(o.note.as_deref(), Some("bundle truncated to fit the input window"));
    // A single oversized first entry still rides.
    let huge = "y".repeat(MAX_BUNDLE_BYTES + 10);
    let o = bundle_observation(None, &[entry(1, &huge)]);
    assert_eq!(o.count, 1);
    assert_eq!(o.note, None);
    let v: serde_json::Value = serde_json::from_slice(&encode_observation(&o)).unwrap();
    assert_eq!(v["entries"][0]["text"].as_str().unwrap().len(), MAX_BUNDLE_BYTES + 10);
}

#[test]
fn committed_text_escapes_quotes_and_control_characters() {
    let out = invoke(b"{}", Ok(vec![entry(3, "a\"b\\c\n\t\u{1}\u{7f}é")])).unwrap();
    let want = format!(
        "{{\"entries\":[{{\"ref\":\"{}\",\"text\":\"a\\\"b\\\\c\\n\\t\\u0001\u{7f}é\"}}],\"count\":1}}",
        "03".repeat(32)
    );
    assert_eq!(String::from_utf8(out).unwrap(), want);
}
