use kx_gateway::catalog::{
    advance_items, app_ref_preimage, branch_items_from_json, branch_items_to_json,
    branch_ref_preimage, bundle_items_from_json, bundle_items_to_json, bundle_ref_preimage,
    history_plan, history_prune_floor, recorded_version, restore_target, short_ref, sort_items,
    stored_ref16, version_item_count, versions_page, versions_query_bounds, BranchItem,
    BundleItem,
};

fn item(path: &str, seed: u8) -> BranchItem {
    BranchItem { path: path.to_string(), content_ref: [seed; 32] }
}

#[test]
fn branch_preimage_is_tagged_and_nul_separated() {
    let got = branch_ref_preimage("ns/coll/main", "ns/coll/base", &[item("a.md", 1), item("b.md", 2)]);
    let mut want = b"kx-branch\0ns/coll/main\0ns/coll/base\0".to_vec();
    want.extend_from_slice(b"a.md\0");
    want.extend_from_slice(&[1u8; 32]);
    want.extend_from_slice(b"b.md\0");
    want.extend_from_slice(&[2u8; 32]);
    assert_eq!(got, want);
    // A root branch (no parent) still separates the empty parent.
    assert_eq!(branch_ref_preimage("h", "", &[]), b"kx-branch\0h\0\0".to_vec());
}

#[test]
fn bundle_preimage_folds_items_in_author_order() {
    let items = vec![
        BundleItem { name: "spec".into(), content_ref: [7u8; 32], media_type: "text/markdown".into() },
        BundleItem { name: "notes".into(), content_ref: [8u8; 32], media_type: String::new() },
    ];
    let got = bundle_ref_preimage("team/b", &items);
    let mut want = b"kx-bundle\0team/b\0spec\0".to_vec();
    want.extend_from_slice(&[7u8; 32]);
    want.extend_from_slice(b"text/markdown\0notes\0");
    want.extend_from_slice(&[8u8; 32]);
    want.extend_from_slice(b"\0");
    assert_eq!(got, want);
}

#[test]
fn app_preimage_is_handle_scoped() {
    let a = app_ref_preimage("alice/apps/x", b"{\"v\":1}");
    let b = app_ref_preimage("bob/apps/x", b"{\"v\":1}");
    assert_eq!(a, b"kx-app\0alice/apps/x\0{\"v\":1}".to_vec());
    assert_ne!(a, b, "the same envelope under another handle is another App");
}

#[test]
fn a_short_ref_is_the_first_sixteen_bytes() {
    let mut d = [0u8; 32];
    for (i, b) in d.iter_mut().enumerate() {
        *b = i as u8;
    }
    let r = short_ref(&d);
    assert_eq!(r.to_vec(), (0u8..16).collect::<Vec<_>>());
}

#[test]
fn items_sort_by_path_and_keep_ties_in_order() {
    let mut items = vec![item("z.md", 1), item("a.md", 2), item("m/x.md", 3), item("a.md", 4), item("B.md", 5)];
    sort_items(&mut items);
    let got: Vec<(String, u8)> = items.iter().map(|i| (i.path.clone(), i.content_ref[0])).collect();
    assert_eq!(
        got,
        vec![
            ("B.md".to_string(), 5),
            ("a.md".to_string(), 2),
            ("a.md".to_string(), 4),
            ("m/x.md".to_string(), 3),
            ("z.md".to_string(), 1),
        ]
    );
}

#[test]
fn advancing_re_points_a_path_and_keeps_the_others() {
    let base = vec![item("b.md", 1), item("a.md", 2), item("c.md", 3)];
    let got = advance_items(&base, "b.md", [9u8; 32]);
    let pairs: Vec<(String, u8)> = got.iter().map(|i| (i.path.clone(), i.content_ref[0])).collect();
    assert_eq!(pairs, vec![("a.md".to_string(), 2), ("b.md".to_string(), 9), ("c.md".to_string(), 3)]);
}

#[test]
fn advancing_an_unlisted_path_inserts_it_in_order() {
    let base = vec![item("a.md", 1), item("c.md", 3)];
    let got = advance_items(&base, "b.md", [2u8; 32]);
    let paths: Vec<&str> = got.iter().map(|i| i.path.as_str()).collect();
    assert_eq!(paths, vec!["a.md", "b.md", "c.md"]);
    assert_eq!(got[1].content_ref, [2u8; 32]);
}

#[test]
fn advancing_to_the_current_ref_changes_nothing_and_dedups_repeats() {
    let base = vec![item("a.md", 1), item("b.md", 2)];
    let same = advance_items(&base, "a.md", [1u8; 32]);
    assert_eq!(same, base);
    // A listing that names a path twice keeps its last ref, once.
    let dup = vec![item("a.md", 1), item("a.md", 5)];
    let got = advance_items(&dup, "z.md", [7u8; 32]);
    let pairs: Vec<(String, u8)> = got.iter().map(|i| (i.path.clone(), i.content_ref[0])).collect();
    assert_eq!(pairs, vec![("a.md".to_string(), 5), ("z.md".to_string(), 7)]);
}

#[test]
fn a_stored_ref_is_cut_or_zero_padded_to_sixteen_bytes() {
    let long: Vec<u8> = (1u8..=20).collect();
    assert_eq!(stored_ref16(&long).to_vec(), (1u8..=16).collect::<Vec<_>>());
    let short = [7u8, 8, 9];
    let mut want = [0u8; 16];
    want[..3].copy_from_slice(&short);
    assert_eq!(stored_ref16(&short), want);
}

#[test]
fn history_records_only_real_mutations_and_seeds_a_baseline_once() {
    let old = [1u8; 16];
    let new = [2u8; 16];
    // Re-writing the stored ref records nothing.
    assert_eq!(history_plan(Some(&old[..]), &old, true), (false, false));
    // A change to a row with no history yet seeds the baseline first.
    assert_eq!(history_plan(Some(&old[..]), &new, true), (true, true));
    // A change to a row that already has history just records.
    assert_eq!(history_plan(Some(&old[..]), &new, false), (true, false));
    // A fresh row records its creation, with nothing to seed.
    assert_eq!(history_plan(None, &new, true), (true, false));
}

#[test]
fn branch_items_store_as_compact_path_and_hex_ref_rows() {
    let items = vec![item("a \"q\".md", 0xab), item("b.md", 1)];
    let json = branch_items_to_json(&items);
    let want = format!(
        "[{{\"path\":\"a \\\"q\\\".md\",\"ref\":\"{}\"}},{{\"path\":\"b.md\",\"ref\":\"{}\"}}]",
        "ab".repeat(32),
        "01".repeat(32)
    );
    assert_eq!(json, want);
    assert_eq!(branch_items_to_json(&[]), "[]");
    // What is stored reads back as the same items.
    assert_eq!(branch_items_from_json(&json), items);
}

#[test]
fn unreadable_branch_rows_read_as_nothing_and_bad_refs_are_skipped() {
    assert!(branch_items_from_json("not json").is_empty());
    assert!(branch_items_from_json("{\"path\":\"a\"}").is_empty(), "not a list");
    assert!(branch_items_from_json("[{\"path\":\"a\"}]").is_empty(), "a row without its ref");
    assert!(branch_items_from_json("[{\"path\":1,\"ref\":\"00\"}]").is_empty(), "a non-string path");
    let good = "0f".repeat(32);
    let text = format!(
        "[{{\"path\":\"x\",\"ref\":\"zz\"}},{{\"path\":\"y\",\"ref\":\"{good}\",\"extra\":true}},[\"z\",\"{}\"]]",
        "AB".repeat(32)
    );
    let got = branch_items_from_json(&text);
    assert_eq!(got, vec![item("y", 0x0f), item("z", 0xab)]);
}

#[test]
fn bundle_items_store_in_author_order_with_their_media_type() {
    let items = vec![
        BundleItem { name: "spec".into(), content_ref: [7u8; 32], media_type: "text/markdown".into() },
        BundleItem { name: "notes".into(), content_ref: [8u8; 32], media_type: String::new() },
    ];
    let json = bundle_items_to_json(&items);
    let want = format!(
        "[{{\"name\":\"spec\",\"ref\":\"{}\",\"media\":\"text/markdown\"}},{{\"name\":\"notes\",\"ref\":\"{}\",\"media\":\"\"}}]",
        "07".repeat(32),
        "08".repeat(32)
    );
    assert_eq!(json, want);
    assert_eq!(bundle_items_from_json(&json), items);
    assert!(bundle_items_from_json("[{\"name\":\"a\",\"ref\":\"00\"}]").is_empty(), "a row without its media");
}

#[test]
fn retention_keeps_the_newest_versions() {
    // Version 6 recorded under a retention of 3: versions up to 3 are dropped, 4..=6 stay.
    assert_eq!(history_prune_floor(6, 3), 3);
    assert_eq!(history_prune_floor(2, 256), -254, "a young history drops nothing");
    assert_eq!(history_prune_floor(1, usize::MAX), 1 - i64::MAX);
    assert_eq!(recorded_version(6), 6);
    assert_eq!(recorded_version(i64::from(u32::MAX) + 1), u32::MAX);
}

#[test]
fn history_pages_newest_first_below_a_descending_cursor() {
    assert_eq!(versions_query_bounds(2, None), (i64::from(u32::MAX), 3));
    assert_eq!(versions_query_bounds(2, Some(4)), (4, 3));
    assert_eq!(versions_query_bounds(usize::MAX, None).1, i64::MAX);
    // The over-fetched rows [5, 4, 3] for a page of 2: two rows, and more follow.
    assert_eq!(versions_page(vec![5u32, 4, 3], 2, None), Some((vec![5, 4], true)));
    assert_eq!(versions_page(vec![3u32, 2], 2, Some(4)), Some((vec![3, 2], false)));
    // No history at all reads as absent; a cursor past the oldest is an empty page.
    assert_eq!(versions_page(Vec::<u32>::new(), 10, None), None);
    assert_eq!(versions_page(Vec::<u32>::new(), 10, Some(1)), Some((vec![], false)));
}

#[test]
fn a_version_counts_its_readable_items() {
    let json = branch_items_to_json(&[item("a", 1), item("b", 2)]);
    assert_eq!(version_item_count(&json), 2);
    assert_eq!(version_item_count("garbage"), 0);
}

#[test]
fn restore_refuses_an_unresolvable_item_and_keeps_the_current_metadata() {
    let items = vec![item("ghost.md", 0xab)];
    let err = restore_target(&items, &[[1u8; 32]], None, ("p".into(), "d".into())).unwrap_err();
    assert_eq!(err, "a recorded item no longer resolves in the content store; this version cannot be restored");
    let items = vec![item("a.md", 1)];
    let cur = Some(("cur-parent".to_string(), "cur-desc".to_string()));
    assert_eq!(
        restore_target(&items, &[[1u8; 32]], cur, ("old".into(), "old-d".into())),
        Ok(("cur-parent".to_string(), "cur-desc".to_string()))
    );
    // A deleted branch is recreated from the recorded row.
    assert_eq!(
        restore_target(&items, &[[1u8; 32]], None, ("old".into(), "old-d".into())),
        Ok(("old".to_string(), "old-d".to_string()))
    );
}

#[test]
fn advancing_twice_with_the_same_ref_is_idempotent() {
    let base = vec![item("c.md", 3), item("a.md", 1)];
    let once = advance_items(&base, "b.md", [2u8; 32]);
    let twice = advance_items(&once, "b.md", [2u8; 32]);
    assert_eq!(once, twice);
}
