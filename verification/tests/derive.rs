use kx_gateway::collections::StrMap;
use kx_gateway::derive::{
    brief, derive_lane, hosted_design, intersect_capabilities, note_file_plan_failure, resolve_framework,
    DeriveInput, DerivedApp, ResolvedStep, DEFAULT_FRAMEWORK,
};

fn input(kind: &str, mode: &str, prompt: &str) -> DeriveInput {
    DeriveInput { prompt: prompt.into(), kind: kind.into(), mode: mode.into(), framework: String::new(), attachments: vec![] }
}

fn scheduled(prompt: &str) -> DeriveInput {
    input("scheduled", "codified", prompt)
}

fn strings(v: &[&str]) -> Vec<String> {
    v.iter().map(|s| s.to_string()).collect()
}

fn step(role: &str, tools: &[(&str, &str)], tools_dropped: &[&str], skills: &[&str], skills_dropped: &[&str]) -> ResolvedStep {
    let mut granted = StrMap::new();
    for (k, v) in tools {
        granted.insert(k.to_string(), v.to_string());
    }
    ResolvedStep {
        role: role.into(),
        intent: format!("{role} intent"),
        model_id: String::new(),
        granted,
        tools_dropped: strings(tools_dropped),
        skills: strings(skills),
        skills_dropped: strings(skills_dropped),
        integrations: vec![],
        integrations_dropped: vec![],
        datasets: vec![],
        datasets_dropped: vec![],
    }
}

#[test]
fn a_pinned_framework_is_honoured_and_an_invented_one_is_replaced() {
    let mut notices = Vec::new();
    assert_eq!(resolve_framework("next_js", &mut notices), "next_js");
    assert!(notices.is_empty(), "a valid pin needs no notice");
    assert_eq!(resolve_framework("solid", &mut notices), DEFAULT_FRAMEWORK);
    assert!(notices.iter().any(|n| n.contains("solid")));
    notices.clear();
    assert_eq!(resolve_framework("auto", &mut notices), DEFAULT_FRAMEWORK);
    assert_eq!(resolve_framework("", &mut notices), DEFAULT_FRAMEWORK);
}

#[test]
fn the_brief_carries_the_lane_facts_and_filenames_only() {
    let mut i = scheduled("summarise the changelog");
    i.attachments = vec!["changelog.md".into()];
    let b = brief(&i);
    assert!(b.contains("summarise the changelog"));
    assert!(b.contains("CODIFIED"));
    assert!(b.contains("changelog.md"));
    let hosted = input("hosted", "", "a timer");
    assert!(brief(&hosted).contains("HOSTED"));
    assert!(!brief(&hosted).contains("CODIFIED"));
}

#[test]
fn refuses_an_empty_prompt_and_an_unknown_kind() {
    assert!(derive_lane(&scheduled("   ")).is_err());
    let err = derive_lane(&input("workflow", "", "do a thing")).unwrap_err();
    assert!(err.contains("workflow"));
    assert_eq!(derive_lane(&input("", "", "x")), Ok(false));
    assert_eq!(derive_lane(&input(" hosted ", "", "x")), Ok(true));
}

#[test]
fn an_invented_tool_costs_only_itself_and_is_reported() {
    let steps = vec![step("researcher", &[("mcp-echo/echo", "1")], &["definitely-not-registered"], &[], &[])];
    let (out, app) = intersect_capabilities("n".into(), "d".into(), &[], &steps, 0, false);
    assert_eq!(out[0].tool_contract.get("mcp-echo/echo").map(String::as_str), Some("1"));
    assert_eq!(app.notices, vec!["not attached — outside what this account can fire: definitely-not-registered".to_string()]);
}

#[test]
fn an_invented_name_on_any_axis_costs_only_itself_and_is_reported_once() {
    let steps = vec![
        step("a", &[], &[], &["drafting"], &["no-such-skill"]),
        step("b", &[], &[], &["drafting"], &["no-such-skill", "another"]),
    ];
    let (_out, app) = intersect_capabilities("n".into(), "d".into(), &[(0, 1)], &steps, 0, false);
    assert_eq!(app.skills, vec!["drafting".to_string()]);
    assert_eq!(app.notices, vec!["skills not found, so not attached: another, no-such-skill".to_string()]);
    assert_eq!(app.edges, vec![(0u32, 1u32)]);
}

#[test]
fn every_axis_binds_to_the_step_that_asked_and_the_app_carries_the_union() {
    let steps = vec![
        step("a", &[("mcp-echo/echo", "1")], &[], &["drafting"], &[]),
        step("b", &[("retrieve", "1")], &[], &[], &[]),
        step("join", &[], &[], &[], &[]),
    ];
    let (out, app) = intersect_capabilities("n".into(), "d".into(), &[(0, 2), (1, 2)], &steps, 3, true);
    assert_eq!(out.len(), 3);
    assert_eq!(out[0].kind, "plain");
    assert!(out[2].tool_contract.is_empty(), "the joining step needs nothing");
    assert_eq!(app.tools.len(), 2);
    assert_eq!(app.skills, vec!["drafting".to_string()]);
    assert_eq!(
        app.notices,
        vec![
            "3 more registered tools exist than fit the design prompt — attach any that are missing below before creating the app".to_string(),
            "the design attached some capabilities to the app rather than to a step — they were placed on the first step; open any step to move them".to_string(),
        ]
    );
}

#[test]
fn the_hosted_lane_keeps_no_steps_or_capabilities() {
    let steps = vec![step("a", &[("mcp-echo/echo", "1")], &[], &["drafting"], &[])];
    let (_out, mut app): (_, DerivedApp) = intersect_capabilities("Timer".into(), " a pomodoro timer ".into(), &[(0, 0)], &steps, 0, false);
    let mut i = input("hosted", "", " make it ");
    i.framework = "svelte".into();
    let goal = hosted_design(&mut app, &i);
    assert_eq!(goal, "a pomodoro timer. make it");
    assert_eq!(app.framework, "svelte");
    assert!(app.edges.is_empty() && app.tools.is_empty() && app.skills.is_empty());
    note_file_plan_failure(&mut app, "sorry");
    assert!(app.notices.iter().any(|n| n.contains("file plan")));
}

#[test]
fn an_edge_past_u32_is_dropped() {
    let (_o, app) = intersect_capabilities("n".into(), "d".into(), &[(0, 1), (usize::MAX, 0)], &[], 0, false);
    assert_eq!(app.edges, vec![(0u32, 1u32)]);
}
