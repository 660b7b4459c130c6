use kx_gateway::bindings::{AppRunError, SkillRef};
use kx_gateway::catalog::BranchItem;
use kx_gateway::rail::{
    context_rail_items, is_project_rail_path, project_rail_items, project_rail_selection,
    skill_context_items, AppMode, ArtifactRef, RailRefs,
};

fn hex_str(bytes: &[u8]) -> String {
    bytes.iter().map(|b| format!("{b:02x}")).collect()
}

fn skill(name: &str, instructions_ref: &str) -> SkillRef {
    SkillRef { name: name.into(), instructions_ref: instructions_ref.into(), tools: vec![] }
}

fn art(name: &str, r: &[u8; 32]) -> ArtifactRef {
    ArtifactRef { name: name.into(), content_ref: hex_str(r) }
}

fn empty_rail() -> RailRefs {
    RailRefs { context: vec![], prompts: vec![], rules: vec![], memory: vec![], context_refs: vec![] }
}

fn file(path: &str, seed: u8) -> BranchItem {
    BranchItem { path: path.to_string(), content_ref: [seed; 32] }
}

#[test]
fn skill_context_items_labels_and_fails_closed_on_a_missing_blob() {
    let r = [0x5au8; 32];
    let hex = hex_str(&r);
    let present = [r];

    let items = skill_context_items(&[skill("triage", &hex)], &present).unwrap();
    assert_eq!(items.len(), 1);
    assert_eq!(items[0].name, "skill:triage");
    assert_eq!(items[0].content_ref, r);

    let missing = "c".repeat(64);
    let err = skill_context_items(&[skill("triage", &missing)], &present).unwrap_err();
    match err {
        AppRunError::InvalidArgs(msg) => {
            assert!(msg.contains("not found in the content store"), "{msg}");
            assert!(msg.contains("cccccccccccc"), "names the ref prefix: {msg}");
            assert_eq!(
                msg,
                "skill \"triage\" instructions (cccccccccccc\u{2026}) not found in the content store; add the skill body first (kx skills add / PutContent), then re-run"
            );
        }
        other => panic!("expected InvalidArgs, got {other:?}"),
    }
}

#[test]
fn a_skill_ref_that_is_not_hex_is_refused_by_name() {
    let err = skill_context_items(&[skill("t", "xyz")], &[]).unwrap_err();
    assert_eq!(err, AppRunError::InvalidArgs("skill \"t\" instructions_ref is not a 64-hex content ref".to_string()));
}

#[test]
fn context_rail_items_labels_every_kind_and_fails_closed() {
    let ctx = [1u8; 32];
    let prompt = [2u8; 32];
    let rule = [3u8; 32];
    let mem = [4u8; 32];
    let sref = [5u8; 32];
    let present = [ctx, prompt, rule, mem, sref];
    let mut rail = empty_rail();
    rail.context.push(art("c1", &ctx));
    rail.prompts.push(art("p1", &prompt));
    rail.rules.push(art("r1", &rule));
    rail.memory.push(art("m1", &mem));
    rail.context_refs.push(hex_str(&sref));

    let items = context_rail_items(&rail, &present).unwrap();
    let names: Vec<&str> = items.iter().map(|i| i.name.as_str()).collect();
    assert_eq!(names, vec!["context:c1", "prompt:p1", "rule:r1", "memory:m1", "ref:050505050505"]);
    assert_eq!(items[0].content_ref, ctx);
    assert_eq!(items[4].content_ref, sref);

    let mut bad = empty_rail();
    bad.rules.push(ArtifactRef { name: "x".into(), content_ref: "d".repeat(64) });
    let err = context_rail_items(&bad, &present).unwrap_err();
    match err {
        AppRunError::InvalidArgs(msg) => {
            assert!(msg.contains("not found in the content store"), "{msg}");
            assert!(msg.contains("dddddddddddd"), "names the ref prefix: {msg}");
            assert!(msg.starts_with("rule ("), "names the field: {msg}");
        }
        other => panic!("expected InvalidArgs, got {other:?}"),
    }
    let mut odd = empty_rail();
    odd.context_refs.push("not-hex".into());
    assert_eq!(
        context_rail_items(&odd, &present).unwrap_err(),
        AppRunError::InvalidArgs("context_ref is not a 64-hex content ref: \"not-hex\"".to_string())
    );
    assert!(context_rail_items(&empty_rail(), &[]).unwrap().is_empty(), "an empty rail is no items");
}

#[test]
fn project_rail_is_md_only_sorted_and_order_independent() {
    let forward = vec![
        file("README.md", 1),
        file("app.json", 2),
        file(".kortecx/marker.json", 3),
        file("prompts/system.md", 4),
        file("rules/guardrails.md", 5),
    ];
    let reversed: Vec<BranchItem> = forward.iter().rev().cloned().collect();
    let allowed = vec![false; 5];
    let a1 = project_rail_selection(&forward, AppMode::Contextual, &allowed);
    let a2 = project_rail_selection(&forward, AppMode::Contextual, &allowed);
    let b1 = project_rail_selection(&reversed, AppMode::Contextual, &allowed);
    assert_eq!(a1, a2, "two calls must be identical");
    assert_eq!(a1, b1, "selection must not depend on advance order");
    let sizes: Vec<Option<usize>> = a1.iter().map(|_| Some(10)).collect();
    let items = project_rail_items(&a1, &sizes, 1000).unwrap();
    let names: Vec<&str> = items.iter().map(|i| i.name.as_str()).collect();
    assert_eq!(names, vec!["project:README.md", "project:prompts/system.md", "project:rules/guardrails.md"]);
    assert!(items.iter().any(|i| i.content_ref == [5u8; 32]));
}

#[test]
fn the_codified_rail_follows_the_scaffold_rules() {
    let files = vec![file("config.toml", 1), file(".kortecx/x.md", 2), file("README.md", 3), file("workflow.json", 4)];
    // The scaffold rules admit config.toml and README.md but not the consumed workflow.json.
    let allowed = vec![true, true, true, false];
    let sel = project_rail_selection(&files, AppMode::Codified, &allowed);
    let paths: Vec<&str> = sel.iter().map(|f| f.path.as_str()).collect();
    assert_eq!(paths, vec!["README.md", "config.toml"], ".kortecx is never carried");
}

#[test]
fn rail_paths_follow_the_last_dot() {
    assert!(is_project_rail_path("notes.md", AppMode::Contextual, false));
    assert!(is_project_rail_path("a.b/c.md", AppMode::Contextual, false));
    assert!(!is_project_rail_path("notes.md.bak", AppMode::Contextual, false));
    assert!(!is_project_rail_path("notes.MD", AppMode::Contextual, false));
    assert!(is_project_rail_path("md", AppMode::Contextual, false), "no dot: the whole name is the suffix");
    assert!(!is_project_rail_path(".kortecx/notes.md", AppMode::Contextual, false));
    assert!(!is_project_rail_path(".kortecx/notes.md", AppMode::Codified, true));
    assert!(is_project_rail_path("src/main.py", AppMode::Codified, true));
}

#[test]
fn project_rail_over_budget_refuses() {
    let sel = vec![file("rules/big.md", 1)];
    let err = project_rail_items(&sel, &[Some(65_537)], 65_536).unwrap_err();
    match err {
        AppRunError::InvalidArgs(msg) => {
            assert!(msg.contains("context-rail budget"), "{msg}");
            assert!(msg.contains("big.md"), "names the offending file: {msg}");
            assert_eq!(
                msg,
                "the app's project files exceed the 65536-byte context-rail budget (reached at \"rules/big.md\"); trim the project or raise KX_APP_PROJECT_RAIL_BYTES"
            );
        }
        other => panic!("expected InvalidArgs, got {other:?}"),
    }
}

#[test]
fn a_missing_project_body_is_an_internal_failure() {
    let sel = vec![file("a.md", 1), file("b.md", 2)];
    assert_eq!(
        project_rail_items(&sel, &[Some(1), None], 100).unwrap_err(),
        AppRunError::Internal("app project file \"b.md\" is missing from the content store".to_string())
    );
    // The budget is cumulative: the second file crosses it.
    assert!(matches!(project_rail_items(&sel, &[Some(60), Some(60)], 100), Err(AppRunError::InvalidArgs(_))));
    assert_eq!(project_rail_items(&sel, &[Some(50), Some(50)], 100).unwrap().len(), 2);
}
