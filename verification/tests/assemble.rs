use kx_gateway::assemble::{
    assemble_context_items, assemble_from_parent_results, assemble_trajectory, fit_context_blocks, fit_trajectory_blocks,
    AssembleError, ContextItemRef, TRUNCATION_MARKER_RESERVE,
};

fn block(label: &str, body: &str) -> String {
    format!("[context {label}]\n{body}\n\n")
}

#[test]
fn context_items_fits_is_byte_identical() {
    let blocks = vec![block("a", "alpha"), block("b", "beta")];
    let cap = 10_000;
    assert_eq!(
        fit_context_blocks(&blocks, cap).unwrap(),
        blocks.concat(),
        "a bundle that fits is byte-identical to the untrimmed concat"
    );
}

#[test]
fn context_items_overflow_trims_lowest_ranked_suffix_with_marker() {
    let blocks = vec![
        block("first", &"A".repeat(200)),
        block("second", &"B".repeat(200)),
        block("third", &"C".repeat(200)),
    ];
    let cap = 460 + TRUNCATION_MARKER_RESERVE;
    let out = fit_context_blocks(&blocks, cap).unwrap();
    assert!(out.contains("[context first]"), "kept the most relevant: {out}");
    assert!(out.contains("[context second]"), "kept the 2nd: {out}");
    assert!(!out.contains("[context third]"), "dropped the suffix: {out}");
    assert!(
        out.contains("[context truncated: kept 2/3 items, dropped"),
        "honesty marker present: {out}"
    );
    assert!(out.len() <= cap, "trimmed output stays within the window cap");
}

#[test]
fn context_items_single_oversized_item_still_fails_closed() {
    let blocks = vec![block("huge", &"X".repeat(1000))];
    let cap = 100;
    let err = fit_context_blocks(&blocks, cap).unwrap_err();
    assert_eq!(err, blocks[0].len(), "needed = the oversized block's length");
}

#[test]
fn context_items_trim_is_deterministic() {
    let blocks = vec![
        block("one", &"1".repeat(300)),
        block("two", &"2".repeat(300)),
        block("three", &"3".repeat(300)),
    ];
    let cap = 350 + TRUNCATION_MARKER_RESERVE;
    let a = fit_context_blocks(&blocks, cap).unwrap();
    let b = fit_context_blocks(&blocks, cap).unwrap();
    assert_eq!(a, b, "same blocks + cap ⇒ byte-identical trim");
}

#[test]
fn trajectory_overflow_keeps_recent_suffix_with_marker() {
    let blocks = vec![
        block("oldest", &"O".repeat(200)),
        block("middle", &"M".repeat(200)),
        block("newest", &"N".repeat(200)),
    ];
    let cap = 460 + TRUNCATION_MARKER_RESERVE;
    let out = fit_trajectory_blocks(&blocks, cap).unwrap();
    assert!(!out.contains("[context oldest]"), "dropped the oldest: {out}");
    assert!(out.contains("[context middle]"), "kept the recent: {out}");
    assert!(out.contains("[context newest]"), "kept the most recent: {out}");
    assert!(out.contains("[context: dropped 1 older items"), "honesty marker present: {out}");
    assert!(out.find("[context middle]").unwrap() < out.find("[context newest]").unwrap());
    assert!(out.len() <= cap, "trimmed output stays within the window cap");
}

#[test]
fn trajectory_single_oversized_item_still_fails_closed() {
    let blocks = vec![block("huge", &"X".repeat(1000))];
    let err = fit_trajectory_blocks(&blocks, 100).unwrap_err();
    assert_eq!(err, blocks[0].len());
}

#[test]
fn trajectory_fits_is_byte_identical_and_deterministic() {
    let blocks = vec![block("a", "alpha"), block("b", "beta")];
    let cap = 10_000;
    let a = fit_trajectory_blocks(&blocks, cap).unwrap();
    assert_eq!(a, blocks.concat(), "a trajectory that fits is the untrimmed concat");
    assert_eq!(a, fit_trajectory_blocks(&blocks, cap).unwrap(), "deterministic");
}

#[test]
fn context_items_render_labeled_blocks() {
    let items = vec![ContextItemRef { name: "spec".into(), content_ref: [7u8; 32] }];
    let out = assemble_context_items(&items, &[Some(b"the spec text".to_vec())], 10_000).unwrap();
    assert!(out.contains("[context spec]"), "labeled by name");
    assert!(out.contains("the spec text"), "the blob bytes render");
}

#[test]
fn context_items_empty_is_empty() {
    assert_eq!(assemble_context_items(&[], &[], 10_000).unwrap(), String::new());
}

#[test]
fn context_items_missing_ref_fails_closed() {
    let phantom = [0x5au8; 32];
    let err = assemble_context_items(
        &[ContextItemRef { name: "x".into(), content_ref: phantom }],
        &[None],
        10_000,
    )
    .unwrap_err();
    assert_eq!(err, AssembleError::UpstreamMissing(phantom));
}

#[test]
fn trajectory_empty_is_empty() {
    assert_eq!(assemble_trajectory(&[], &[], 10_000).unwrap(), String::new());
}

#[test]
fn trajectory_missing_ref_fails_closed() {
    let phantom = [0x33u8; 32];
    let err = assemble_trajectory(&[phantom], &[None], 10_000).unwrap_err();
    assert_eq!(err, AssembleError::UpstreamMissing(phantom));
}

#[test]
fn an_unnamed_item_is_labeled_by_its_short_ref() {
    let r = [0xabu8; 32];
    let out = assemble_context_items(
        &[ContextItemRef { name: String::new(), content_ref: r }],
        &[Some(b"body".to_vec())],
        10_000,
    )
    .unwrap();
    assert_eq!(out, "[context abababababababab]\nbody\n\n");
}

#[test]
fn trajectory_keeps_input_order_and_labels_parents() {
    let out = assemble_trajectory(
        &[[0x99u8; 32], [0x01u8; 32]],
        &[Some(b"first".to_vec()), Some(b"second".to_vec())],
        10_000,
    )
    .unwrap();
    assert_eq!(
        out,
        "[context parent.9999999999999999]\nfirst\n\n[context parent.0101010101010101]\nsecond\n\n"
    );
}

#[test]
fn an_oversized_bundle_reports_needed_and_cap() {
    let items = vec![ContextItemRef { name: "big".into(), content_ref: [1u8; 32] }];
    let err = assemble_context_items(&items, &[Some(vec![b'x'; 500])], 100).unwrap_err();
    assert_eq!(err, AssembleError::Overflow { needed: "[context big]\n".len() + 500 + 2, cap: 100 });
}

#[test]
fn a_trimmed_bundle_never_exceeds_the_cap() {
    let blocks: Vec<String> = (0..10).map(|i| block(&format!("b{i}"), &"z".repeat(100))).collect();
    for cap in [300usize, 500, 800, 1200] {
        if let Ok(out) = fit_context_blocks(&blocks, cap) {
            assert!(out.len() <= cap, "cap {cap}: {}", out.len());
        }
        if let Ok(out) = fit_trajectory_blocks(&blocks, cap) {
            assert!(out.len() <= cap, "cap {cap}: {}", out.len());
        }
    }
}

fn mote_id(seed: u8) -> [u8; 32] {
    [seed; 32]
}

fn blob(bytes: &[u8]) -> Option<Vec<u8>> {
    Some(bytes.to_vec())
}

#[test]
fn empty_parents_render_nothing() {
    assert_eq!(
        assemble_from_parent_results(&[], &[], 10_000).unwrap(),
        String::new(),
        "no Data context => empty block => byte-identical to the plain leaf prompt"
    );
}

#[test]
fn render_is_deterministic_and_moteid_sorted() {
    let ref_a = [0xa1u8; 32];
    let ref_b = [0xb2u8; 32];
    let id_lo = mote_id(0x01);
    let id_hi = mote_id(0x99);
    let forward = assemble_from_parent_results(
        &[(id_lo, ref_a), (id_hi, ref_b)],
        &[blob(b"alpha-output"), blob(b"beta-output")],
        10_000,
    )
    .unwrap();
    let reverse = assemble_from_parent_results(
        &[(id_hi, ref_b), (id_lo, ref_a)],
        &[blob(b"beta-output"), blob(b"alpha-output")],
        10_000,
    )
    .unwrap();
    assert_eq!(forward, reverse, "wire order must not change the rendered context");
    let pos_a = forward.find("alpha-output").unwrap();
    let pos_b = forward.find("beta-output").unwrap();
    assert!(pos_a < pos_b, "blocks ordered by ascending MoteId");
    assert!(forward.contains("[context parent."), "blocks are labeled");
    assert_eq!(
        forward,
        "[context parent.a1a1a1a1a1a1a1a1]\nalpha-output\n\n[context parent.b2b2b2b2b2b2b2b2]\nbeta-output\n\n"
    );
}

#[test]
fn duplicate_parents_are_deduped() {
    let r = [0x42u8; 32];
    let id = mote_id(0x42);
    let out = assemble_from_parent_results(&[(id, r), (id, r)], &[blob(b"once"), blob(b"once")], 10_000).unwrap();
    assert_eq!(out.matches("once").count(), 1, "a repeated parent renders once");
}

#[test]
fn missing_upstream_fails_closed() {
    let phantom = [0x77u8; 32];
    let err = assemble_from_parent_results(&[(mote_id(1), phantom)], &[None], 10_000).unwrap_err();
    assert_eq!(err, AssembleError::UpstreamMissing(phantom));
}

#[test]
fn overflow_fails_closed() {
    let cap = 1000;
    let big = vec![b'x'; cap + 1];
    let err = assemble_from_parent_results(&[(mote_id(1), [3u8; 32])], &[Some(big)], cap).unwrap_err();
    assert!(matches!(err, AssembleError::Overflow { cap: c, .. } if c == cap));
}

#[test]
fn parent_overflow_reports_the_running_total() {
    // Each block is 35 bytes of framing plus its body; the second one crosses the cap.
    let out = assemble_from_parent_results(
        &[(mote_id(1), [1u8; 32]), (mote_id(2), [2u8; 32])],
        &[blob(b"aaaa"), blob(b"bbbb")],
        60,
    );
    let first = "[context parent.0101010101010101]\naaaa\n\n".len();
    let second = "[context parent.0202020202020202]\nbbbb\n\n".len();
    assert_eq!(out, Err(AssembleError::Overflow { needed: first + second, cap: 60 }));
    // The first missing body in id order wins over a later overflow.
    let err = assemble_from_parent_results(
        &[(mote_id(9), [9u8; 32]), (mote_id(2), [2u8; 32])],
        &[blob(&[b'x'; 500]), None],
        60,
    )
    .unwrap_err();
    assert_eq!(err, AssembleError::UpstreamMissing([2u8; 32]));
}

#[test]
fn trajectory_preserves_input_time_order_not_moteid() {
    let ref_first = [0x10u8; 32];
    let ref_second = [0x20u8; 32];
    let id_hi = mote_id(0x99);
    let id_lo = mote_id(0x01);
    let entries = [(id_hi, ref_first), (id_lo, ref_second)];
    let blobs = [blob(b"turn0-first-in-time"), blob(b"turn1-second-in-time")];

    let out = assemble_trajectory(&[ref_first, ref_second], &blobs, 10_000).unwrap();
    let pos_first = out.find("turn0-first-in-time").unwrap();
    let pos_second = out.find("turn1-second-in-time").unwrap();
    assert!(pos_first < pos_second, "trajectory must preserve TIME order regardless of MoteId: {out}");

    let moteid_sorted = assemble_from_parent_results(&entries, &blobs, 10_000).unwrap();
    assert!(
        moteid_sorted.find("turn1-second-in-time").unwrap() < moteid_sorted.find("turn0-first-in-time").unwrap(),
        "the MoteId-sorted path flips time order"
    );
}

#[test]
fn assemble_error_messages_name_the_ref_and_the_sizes() {
    let e = AssembleError::UpstreamMissing([0xabu8; 32]);
    assert_eq!(e.message(), format!("F-7 upstream context {} not resolvable in store", "ab".repeat(32)));
    let o = AssembleError::Overflow { needed: 1200, cap: 1000 };
    assert_eq!(o.message(), "F-7 context 1200B exceeds window cap 1000B");
}

#[test]
fn the_kept_prefix_and_suffix_are_the_largest_that_fit() {
    // Budget after the marker reserve: 1000 bytes; blocks of 400, 400, 300 and 100 bytes.
    let blocks = vec!["a".repeat(400), "b".repeat(400), "c".repeat(300), "d".repeat(100)];
    let cap = 1000 + TRUNCATION_MARKER_RESERVE;
    let out = fit_context_blocks(&blocks, cap).unwrap();
    assert!(out.starts_with(&format!("{}{}", "a".repeat(400), "b".repeat(400))));
    assert!(out.ends_with("[context truncated: kept 2/4 items, dropped 400B]\n\n"), "{out}");
    // From the newest end: 100 + 300 + 400 = 800 fits, the next 400 does not.
    let out = fit_trajectory_blocks(&blocks, cap).unwrap();
    assert!(out.starts_with("[context: dropped 1 older items (400B), kept 3 most recent]\n\n"), "{out}");
    // A first block larger than the budget fails closed with its length.
    assert_eq!(fit_context_blocks(&[format!("[context huge]\n{}\n\n", "X".repeat(1000))], 100), Err(1017));
}
