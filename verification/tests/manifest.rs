use kx_gateway::bindings::{ConnectionRef, DatasetBinding, SkillRef, StepSpec};
use kx_gateway::collections::{PairSet, StrMap, StrSet};
use kx_gateway::manifest::{
    app_manifest, connection_manifest_lines, dataset_manifest_lines, manifest_wish,
    model_route_served, principal_tool_ceiling, tool_manifest_lines, AppCapability,
};

fn map(pairs: &[(&str, &str)]) -> StrMap {
    let mut m = StrMap::new();
    for (k, v) in pairs {
        m.insert((*k).to_string(), (*v).to_string());
    }
    m
}

fn set(names: &[&str]) -> StrSet {
    let mut s = StrSet::new();
    for n in names {
        s.insert(n);
    }
    s
}

fn pairs(ps: &[(&str, &str)]) -> PairSet {
    let mut s = PairSet::new();
    for (a, b) in ps {
        s.insert(a, b);
    }
    s
}

fn grants(ps: &[(&str, &str)]) -> Vec<(String, String)> {
    ps.iter().map(|(a, b)| ((*a).to_string(), (*b).to_string())).collect()
}

fn line<'a>(lines: &'a [AppCapability], id: &str) -> &'a AppCapability {
    lines.iter().find(|c| c.id == id).expect("a line for the id")
}

#[test]
fn principal_tool_ceiling_is_fireable_intersect_registry() {
    // echo-tool@1 is fireable AND in the registry; not-registered@9 is fireable but absent
    // from the registry, so it is excluded. No explicit allowlist narrows further.
    let fireable = grants(&[("echo-tool", "1"), ("not-registered", "9")]);
    let ceiling = principal_tool_ceiling(&fireable, &[true, false], None);
    assert_eq!(ceiling.items().to_vec(), grants(&[("echo-tool", "1")]));
}

#[test]
fn an_explicit_allowlist_narrows_the_ceiling() {
    let fireable = grants(&[("web", "2"), ("echo-tool", "1"), ("web", "1")]);
    let allow = pairs(&[("web", "1"), ("web", "2")]);
    let ceiling = principal_tool_ceiling(&fireable, &[true, true, true], Some(&allow));
    assert_eq!(ceiling.items().to_vec(), grants(&[("web", "1"), ("web", "2")]), "sorted by id, then version");
}

#[test]
fn manifest_diffs_declared_needs_against_policy() {
    let wish = manifest_wish(&[], &map(&[("echo-tool", "1"), ("gmail/search", "1")]), &[]);
    let ceiling = pairs(&[("echo-tool", "1")]);
    let conns = vec![ConnectionRef {
        descriptor: "mcp+stdio://gmail".into(),
        credential_ref: "KX_GMAIL_CREDENTIAL".into(),
    }];
    let served = vec!["m".to_string()];
    let m = app_manifest(false, &wish, Some(&ceiling), &conns, &set(&[]), &set(&[]), &[], None, "m", &served);
    assert!(!m.reach_inherit);
    let echo = line(&m.tools, "echo-tool");
    assert!(echo.requested && echo.in_policy && !echo.inherited);
    let gmail = line(&m.tools, "gmail/search");
    assert!(gmail.requested && !gmail.in_policy, "requested but not fireable => a missing capability");
    let conn = line(&m.connections, "mcp+stdio://gmail");
    assert!(conn.requested && !conn.in_policy, "an unregistered connection is requested but not in policy");
    assert_eq!(m.model_route, "m");
    assert!(m.model_route_served);
    assert!(m.datasets.is_empty());
}

#[test]
fn manifest_reports_a_tool_a_step_asks_for_itself() {
    let mut gather = StepSpec::new(Some("model"), "", "gather");
    gather.tool_contract = map(&[("echo-tool", "1")]);
    let write = StepSpec::new(Some("model"), "", "write");
    let wish = manifest_wish(&[], &StrMap::new(), &[gather, write]);
    let lines = tool_manifest_lines(&wish, &pairs(&[("echo-tool", "1")]), false);
    let echo = line(&lines, "echo-tool");
    assert!(echo.requested && echo.in_policy && !echo.inherited);
}

#[test]
fn a_declared_version_wins_over_a_steps_and_the_first_step_wins() {
    let mut a = StepSpec::new(Some("model"), "", "a");
    a.tool_contract = map(&[("web", "3"), ("calc", "1")]);
    let mut b = StepSpec::new(Some("model"), "", "b");
    b.tool_contract = map(&[("calc", "2"), ("mail", "1")]);
    let skills = vec![SkillRef { name: "s".into(), instructions_ref: String::new(), tools: grants(&[("web", "1")]) }];
    let wish = manifest_wish(&skills, &map(&[("web", "2")]), &[a, b]);
    // A skill's version wins over the steering grant; a wished version wins over any step's.
    assert_eq!(wish.entries().to_vec(), grants(&[("calc", "1"), ("mail", "1"), ("web", "1")]));
}

#[test]
fn manifest_flags_a_missing_dataset_the_one_hard_run_failure() {
    let bindings = vec![
        DatasetBinding { declared: "ingested-ds".into(), cas_refs: vec![] },
        DatasetBinding { declared: "missing-ds".into(), cas_refs: vec![] },
        DatasetBinding { declared: "carried-ds".into(), cas_refs: vec!["a".repeat(64)] },
    ];
    let available = set(&["ingested-ds"]);
    let lines = dataset_manifest_lines(&bindings, Some(&available));
    assert!(line(&lines, "ingested-ds").in_policy, "an ingested dataset is in policy");
    assert!(line(&lines, "carried-ds").in_policy, "a self-contained dataset is in policy");
    let missing = line(&lines, "missing-ds");
    assert!(missing.requested && !missing.in_policy);
    // A build with no retrieval view degrades to ungrounded: nothing blocks the run.
    let lines = dataset_manifest_lines(&bindings, None);
    assert!(lines.iter().all(|c| c.in_policy));
}

#[test]
fn manifest_inherit_flags_every_ceiling_tool_inherited() {
    let wish = manifest_wish(&[], &StrMap::new(), &[]);
    let ceiling = pairs(&[("echo-tool", "1"), ("retrieve", "1")]);
    let lines = tool_manifest_lines(&wish, &ceiling, true);
    assert_eq!(lines.len(), 2);
    assert!(lines.iter().all(|c| c.inherited && c.in_policy && !c.requested));
    let in_policy: Vec<(String, String)> =
        lines.iter().filter(|c| c.in_policy).map(|c| (c.id.clone(), c.version.clone())).collect();
    assert_eq!(in_policy, ceiling.items().to_vec(), "the in-policy tools are exactly the ceiling");
}

#[test]
fn an_explicitly_declared_ceiling_tool_is_requested_not_inherited() {
    let wish = map(&[("echo-tool", "1"), ("x", "2")]);
    let ceiling = pairs(&[("echo-tool", "1"), ("echo-tool", "2")]);
    let lines = tool_manifest_lines(&wish, &ceiling, true);
    let keys: Vec<(String, String)> = lines.iter().map(|c| (c.id.clone(), c.version.clone())).collect();
    assert_eq!(keys, grants(&[("echo-tool", "1"), ("echo-tool", "2"), ("x", "2")]));
    assert!(lines[0].requested && lines[0].in_policy && !lines[0].inherited);
    assert!(!lines[1].requested && lines[1].in_policy && lines[1].inherited);
    assert!(lines[2].requested && !lines[2].in_policy && !lines[2].inherited);
    // Without inheritance only the wish is listed.
    assert_eq!(tool_manifest_lines(&wish, &ceiling, false).len(), 2);
}

#[test]
fn manifest_flags_an_unserved_model_route() {
    let served = vec!["m".to_string()];
    let m = app_manifest(
        false, &StrMap::new(), None, &[], &set(&[]), &set(&[]), &[], None, "kx-serve:ghost", &served,
    );
    assert_eq!(m.model_route, "kx-serve:ghost");
    assert!(!m.model_route_served, "an unserved route is flagged before the run refuses it");
    assert!(model_route_served("", &served), "an empty route takes the served default");
}

#[test]
fn connection_lines_match_by_credential_else_endpoint() {
    let conns = vec![
        ConnectionRef { descriptor: "mcp://github".into(), credential_ref: "GH".into() },
        ConnectionRef { descriptor: "mcp://local".into(), credential_ref: String::new() },
        ConnectionRef { descriptor: "mcp://other".into(), credential_ref: String::new() },
    ];
    let lines = connection_manifest_lines(&conns, &set(&["GH"]), &set(&["mcp://local"]));
    assert_eq!(lines.iter().map(|c| c.in_policy).collect::<Vec<_>>(), vec![true, true, false]);
    assert!(lines.iter().all(|c| c.requested && !c.inherited && c.version.is_empty()));
}
