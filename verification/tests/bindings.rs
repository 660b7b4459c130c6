use kx_gateway::bindings::{
    collect_dataset_bindings, combined_tool_wish, connection_credentials, effective_tool_wish,
    entry_agentic_step_index, fold_skill_tools, fold_step_tools, inject_app_args, model_steps_naming,
    dataset_grounding_plan, ground_on_datasets, narrow_scope, partition_skills, per_step_secret_scopes, pin_model_route, registry_views,
    resolve_secret_scope, skill_wish_union, stamp_require_approval, steer_dataset_prompt,
    steer_step_dataset_prompt, steps_naming, take_bindings, AppRunError, ConnectionRef, DagSpec, DatasetBinding, DatasetRef,
    EdgeSpec, Reach, SkillRef, StepSpec,
};
use kx_gateway::collections::{StrMap, StrSet};

fn model_step(prompt: &str) -> StepSpec {
    StepSpec::new(Some("model"), "", prompt)
}

fn pure_step() -> StepSpec {
    StepSpec::new(Some("pure"), "", "")
}

fn dag(steps: Vec<StepSpec>) -> DagSpec {
    DagSpec { steps, edges: vec![] }
}

fn map(pairs: &[(&str, &str)]) -> StrMap {
    let mut m = StrMap::new();
    for (k, v) in pairs {
        m.insert((*k).to_string(), (*v).to_string());
    }
    m
}

fn set(names: &[&str]) -> StrSet {
    let mut s = StrSet::new();
    for n in names {
        s.insert(n);
    }
    s
}

fn names(s: &Option<StrSet>) -> Vec<String> {
    match s {
        Some(x) => x.items().to_vec(),
        None => Vec::new(),
    }
}

fn cref(descriptor: &str, credential_ref: &str) -> ConnectionRef {
    ConnectionRef { descriptor: descriptor.to_string(), credential_ref: credential_ref.to_string() }
}

fn skill(name: &str, instructions_ref: &str, tools: &[(&str, &str)]) -> SkillRef {
    SkillRef {
        name: name.into(),
        instructions_ref: instructions_ref.into(),
        tools: tools.iter().map(|(k, v)| ((*k).to_string(), (*v).to_string())).collect(),
    }
}

#[test]
fn steps_naming_is_case_insensitive_and_empty_means_app_wide() {
    let per_step = vec![vec!["Triage".to_string()], Vec::new(), vec!["triage".to_string(), "other".to_string()]];
    assert_eq!(steps_naming(&per_step, "triage"), vec![0, 2]);
    assert!(steps_naming(&per_step, "absent").is_empty(), "a capability no step named binds App-wide");
}

#[test]
fn inject_args_empty_is_a_noop() {
    let mut d = dag(vec![model_step("go")]);
    inject_app_args(&mut d, b"").unwrap();
    assert_eq!(d.steps[0].prompt, "go");
    inject_app_args(&mut d, b"{}").unwrap();
    assert_eq!(d.steps[0].prompt, "go");
}

#[test]
fn inject_args_folds_a_sorted_inputs_block_into_the_first_model_step() {
    let mut d = dag(vec![model_step("Answer the question.")]);
    inject_app_args(&mut d, br#"{"topic":"whales","audience":"kids"}"#).unwrap();
    assert_eq!(d.steps[0].prompt, "Answer the question.\n\nInputs:\n- audience: kids\n- topic: whales");
}

#[test]
fn inject_args_noop_when_no_model_step() {
    let mut d = dag(vec![pure_step()]);
    inject_app_args(&mut d, br#"{"x":"y"}"#).unwrap();
    assert!(d.steps[0].prompt.is_empty());
}

#[test]
fn inject_args_rejects_non_object_json() {
    let mut d = dag(vec![model_step("go")]);
    assert!(matches!(inject_app_args(&mut d, b"[1,2,3]"), Err(AppRunError::InvalidArgs(_))));
}

#[test]
fn secret_scope_grants_the_declared_credential_when_registered() {
    let refs = vec![cref("kx-connector-gmail", "KX_GMAIL_CREDENTIAL")];
    let scope = vec!["KX_GMAIL_CREDENTIAL".to_string()];
    let got = resolve_secret_scope(&refs, &scope, &set(&["KX_GMAIL_CREDENTIAL"]), &StrMap::new()).unwrap();
    assert_eq!(names(&got), vec!["KX_GMAIL_CREDENTIAL"]);
}

#[test]
fn secret_scope_adopts_a_referenced_connections_credential_without_an_explicit_scope() {
    let refs = vec![cref("kx-connector-gmail", "KX_GMAIL_CREDENTIAL")];
    let got = resolve_secret_scope(&refs, &[], &set(&["KX_GMAIL_CREDENTIAL"]), &StrMap::new()).unwrap();
    assert!(names(&got).contains(&"KX_GMAIL_CREDENTIAL".to_string()));
}

#[test]
fn secret_scope_adopts_a_one_click_bind_credential() {
    let refs = vec![cref("https://gmail.local/mcp", "")];
    let ep = map(&[("https://gmail.local/mcp", "KX_GMAIL_CREDENTIAL")]);
    let got = resolve_secret_scope(&refs, &[], &StrSet::new(), &ep).unwrap();
    assert_eq!(names(&got), vec!["KX_GMAIL_CREDENTIAL"]);
}

#[test]
fn missing_registered_connection_is_a_missing_integration() {
    let refs = vec![cref("kx-connector-gmail", "KX_GMAIL_CREDENTIAL")];
    let err = resolve_secret_scope(&refs, &[], &StrSet::new(), &StrMap::new()).expect_err("missing integration");
    match err {
        AppRunError::MissingIntegration(name) => assert_eq!(name, "KX_GMAIL_CREDENTIAL"),
        other => panic!("expected MissingIntegration, got {other:?}"),
    }
}

#[test]
fn credential_less_endpoint_bind_needs_no_scope() {
    let refs = vec![cref("https://mcp.example/sse", "")];
    let ep = map(&[("https://mcp.example/sse", "")]);
    assert!(resolve_secret_scope(&refs, &[], &StrSet::new(), &ep).unwrap().is_none());
    assert!(matches!(
        resolve_secret_scope(&refs, &[], &StrSet::new(), &StrMap::new()),
        Err(AppRunError::MissingIntegration(_))
    ));
}

#[test]
fn secret_scope_naming_an_unreferenced_credential_is_rejected() {
    let refs = vec![cref("kx-connector-gmail", "KX_GMAIL_CREDENTIAL")];
    let scope = vec!["SOME_OTHER_SECRET".to_string()];
    let err = resolve_secret_scope(&refs, &scope, &set(&["KX_GMAIL_CREDENTIAL", "SOME_OTHER_SECRET"]), &StrMap::new())
        .expect_err("loud guard");
    match err {
        AppRunError::InvalidArgs(m) => assert_eq!(
            m,
            "guards.secret_scope names \"SOME_OTHER_SECRET\" but no referenced connection provides that credential"
        ),
        other => panic!("expected InvalidArgs, got {other:?}"),
    }
}

#[test]
fn skill_wish_union_first_wins_on_version_conflict_across_skills() {
    let skills = vec![
        skill("a", &"a".repeat(64), &[("gmail/search", "1"), ("retrieve", "1")]),
        skill("b", &"b".repeat(64), &[("gmail/search", "2"), ("fs-read", "1")]),
    ];
    let wish = skill_wish_union(&skills);
    assert_eq!(wish.get("gmail/search").map(String::as_str), Some("1"), "first occurrence wins");
    assert_eq!(wish.len(), 3);
}

#[test]
fn fold_skill_tools_targets_the_entry_root_model_step_and_declared_version_wins() {
    let mut declared_step = model_step("go");
    declared_step.tool_contract.insert("gmail/search".into(), "9".into());
    let mut d = dag(vec![declared_step, model_step("second")]);
    let granted = map(&[("gmail/search", "1"), ("retrieve", "1")]);
    fold_skill_tools(&mut d, &granted);
    assert_eq!(d.steps[0].tool_contract.get("gmail/search").map(String::as_str), Some("9"));
    assert_eq!(d.steps[0].tool_contract.get("retrieve").map(String::as_str), Some("1"));
    assert!(d.steps[1].tool_contract.is_empty());
}

#[test]
fn fold_skill_tools_refuses_the_split_when_the_model_step_is_not_a_root() {
    let mut d = dag(vec![pure_step(), model_step("go")]);
    d.edges = vec![EdgeSpec { parent: 0, child: 1 }];
    let granted = map(&[("retrieve", "1")]);
    fold_skill_tools(&mut d, &granted);
    assert!(d.steps[1].tool_contract.is_empty(), "no root model step ⇒ no fold ⇒ no split");
    assert_eq!(entry_agentic_step_index(&d), None);
    let single = dag(vec![model_step("go")]);
    assert_eq!(entry_agentic_step_index(&single), Some(0));
}

#[test]
fn fold_skill_tools_skips_when_granted_is_empty() {
    let mut d = dag(vec![model_step("go")]);
    fold_skill_tools(&mut d, &StrMap::new());
    assert!(d.steps[0].tool_contract.is_empty());
}

#[test]
fn effective_tool_wish_never_unions_past_the_ceiling() {
    let universe = ["a", "b", "c", "d"];
    let n = universe.len();
    let subset = |mask: u32| -> Vec<String> {
        (0..n).filter(|i| mask & (1 << i) != 0).map(|i| universe[i].to_string()).collect()
    };
    for dmask in 0u32..(1 << n) {
        for cmask in 0u32..(1 << n) {
            let mut declared = StrMap::new();
            for k in subset(dmask) {
                declared.insert(k, "1".to_string());
            }
            let ceiling: Vec<(String, String)> = subset(cmask).into_iter().map(|k| (k, "1".to_string())).collect();
            let declared_pairs = declared.entries().to_vec();
            let explicit = effective_tool_wish(Reach::Explicit, declared, Some(&ceiling));
            assert_eq!(explicit.entries().to_vec(), declared_pairs, "Explicit keeps the declared wish verbatim");
            let mut declared2 = StrMap::new();
            for (k, v) in &declared_pairs {
                declared2.insert(k.clone(), v.clone());
            }
            let inherit = effective_tool_wish(Reach::InheritPrincipal, declared2, Some(&ceiling));
            assert_eq!(inherit.entries().to_vec(), ceiling, "InheritPrincipal replaces the wish with the ceiling");
            for (id, _) in &declared_pairs {
                if !ceiling.iter().any(|(cid, _)| cid == id) {
                    assert!(!inherit.contains_key(id), "declared {id:?} outside the ceiling must not appear (no union)");
                }
            }
        }
    }
    assert!(effective_tool_wish(Reach::InheritPrincipal, StrMap::new(), None).is_empty());
}

#[test]
fn per_step_secret_scopes_bind_where_named_and_share_what_is_unbound() {
    let provided = vec![
        ("gmail".to_string(), Some("KX_GMAIL_CREDENTIAL".to_string())),
        ("shared".to_string(), Some("KX_SHARED".to_string())),
    ];
    let bindings = vec![vec!["gmail".to_string()], Vec::new()];
    let scopes = per_step_secret_scopes(&provided, &bindings, &[], 2);
    assert_eq!(names(&scopes[0]), vec!["KX_GMAIL_CREDENTIAL", "KX_SHARED"]);
    assert_eq!(names(&scopes[1]), vec!["KX_SHARED"], "the step that never asked for gmail cannot dial it, though the App can");
    let unbound = per_step_secret_scopes(&provided, &[Vec::new(), Vec::new()], &[], 2);
    assert_eq!(names(&unbound[0]), names(&unbound[1]));
    assert_eq!(names(&unbound[0]), vec!["KX_GMAIL_CREDENTIAL", "KX_SHARED"]);
    let guarded = per_step_secret_scopes(&provided, &bindings, &["KX_GMAIL_CREDENTIAL".to_string()], 2);
    assert_eq!(names(&guarded[0]), vec!["KX_GMAIL_CREDENTIAL"]);
    assert!(guarded[1].is_none(), "narrowed to nothing ⇒ SecretScope::None ⇒ a credentialed tool fails closed");
}

#[test]
fn combined_tool_wish_unions_skills_and_steering_skill_wins_on_conflict() {
    let skills = vec![skill("a", &"a".repeat(64), &[("echo-tool", "1"), ("retrieve", "1")])];
    let steering = map(&[("echo-tool", "9"), ("fs-read", "1")]);
    let wish = combined_tool_wish(&skills, &steering);
    assert_eq!(wish.get("echo-tool").map(String::as_str), Some("1"), "skill wins the cross-source conflict");
    assert_eq!(wish.get("retrieve").map(String::as_str), Some("1"));
    assert_eq!(wish.get("fs-read").map(String::as_str), Some("1"), "steering-only wish included");
    assert_eq!(wish.len(), 3);
    assert_eq!(combined_tool_wish(&[], &steering).len(), 2);
    assert!(combined_tool_wish(&[], &StrMap::new()).is_empty());
}

#[test]
fn steer_dataset_prompt_appends_a_grounding_directive_naming_datasets() {
    let mut d = dag(vec![model_step("Answer the question.")]);
    steer_dataset_prompt(&mut d, &["science".to_string(), "history".to_string()]);
    assert!(d.steps[0].prompt.contains("retrieve"), "{}", d.steps[0].prompt);
    assert!(d.steps[0].prompt.contains("science, history"), "names the datasets: {}", d.steps[0].prompt);
    assert!(d.steps[0].prompt.starts_with("Answer the question."));
    let mut none = dag(vec![pure_step()]);
    steer_dataset_prompt(&mut none, &["science".to_string()]);
    assert!(none.steps[0].prompt.is_empty());
}

#[test]
fn collect_dataset_bindings_dedups_in_declaration_order_and_keeps_the_corpus() {
    let corpus = vec!["c".repeat(64)];
    let datasets = vec![
        DatasetRef { dataset_ref: "science".into(), cas_refs: corpus.clone() },
        DatasetRef { dataset_ref: "".into(), cas_refs: corpus.clone() },
        DatasetRef { dataset_ref: "science".into(), cas_refs: Vec::new() },
    ];
    let steering = vec!["history".to_string(), "science".to_string(), String::new()];
    assert_eq!(
        collect_dataset_bindings(&datasets, &steering),
        vec![
            DatasetBinding { declared: "science".into(), cas_refs: corpus },
            DatasetBinding { declared: "history".into(), cas_refs: Vec::new() },
        ]
    );
}

#[test]
fn the_grounding_directive_is_exact_and_trimmed() {
    let mut d = dag(vec![model_step("  Q  ")]);
    steer_step_dataset_prompt(&mut d, 0, &["kb".to_string()]);
    assert_eq!(
        d.steps[0].prompt,
        "Q  \n\nGrounding: use the `retrieve` tool to search the dataset(s) [kb] for relevant passages BEFORE answering, and ground your answer in what you retrieve."
    );
    let before = d.steps[0].prompt.clone();
    steer_step_dataset_prompt(&mut d, 5, &["kb".to_string()]);
    steer_step_dataset_prompt(&mut d, 0, &[]);
    assert_eq!(d.steps[0].prompt, before);
}

#[test]
fn a_binding_to_a_pure_step_is_dropped() {
    let d = dag(vec![model_step("a"), pure_step(), model_step("c")]);
    let per_step = vec![vec!["kb".to_string()], vec!["KB".to_string()], vec!["kb".to_string()], vec!["kb".to_string()]];
    assert_eq!(model_steps_naming(&per_step, "kb", &d), vec![0, 2]);
}

#[test]
fn fold_step_tools_past_the_end_changes_nothing() {
    let mut d = dag(vec![model_step("a")]);
    fold_step_tools(&mut d, 3, &map(&[("x", "1")]));
    assert!(d.steps[0].tool_contract.is_empty());
}

#[test]
fn a_model_step_may_be_inferred_from_its_prompt() {
    let mut d = DagSpec { steps: vec![StepSpec::new(None, "", ""), StepSpec::new(None, "", "hi")], edges: vec![] };
    assert_eq!(entry_agentic_step_index(&d), Some(1));
    inject_app_args(&mut d, br#"{"k":"v"}"#).unwrap();
    assert_eq!(d.steps[1].prompt, "hi\n\nInputs:\n- k: v");
}

#[test]
fn narrowing_keeps_only_provided_names() {
    let provided = set(&["B", "A"]);
    assert_eq!(names(&narrow_scope(&provided, &[])), vec!["A", "B"]);
    assert_eq!(names(&narrow_scope(&provided, &["B".to_string(), "Z".to_string()])), vec!["B"]);
    assert!(narrow_scope(&provided, &["Z".to_string()]).is_none());
}

#[test]
fn connection_credentials_pairs_each_descriptor_with_its_credential() {
    let refs = vec![cref("a", "CRED_A"), cref("https://b", "")];
    let got = connection_credentials(&refs, &set(&["CRED_A"]), &map(&[("https://b", "")])).unwrap();
    assert_eq!(got, vec![("a".to_string(), Some("CRED_A".to_string())), ("https://b".to_string(), None)]);
}

#[test]
fn taking_bindings_empties_every_step_and_keeps_the_rest() {
    let mut a = model_step("plan");
    a.skills = vec!["triage".to_string()];
    a.connections = vec!["github".to_string()];
    a.tool_contract = map(&[("kx.search", "1.0.0")]);
    let mut b = pure_step();
    b.datasets = vec!["docs".to_string()];
    b.apps = vec!["helper".to_string()];
    let mut d = DagSpec { steps: vec![a, b], edges: vec![EdgeSpec { parent: 0, child: 1 }] };
    let taken = take_bindings(&mut d);
    assert_eq!(taken.skills, vec![vec!["triage".to_string()], Vec::<String>::new()]);
    assert_eq!(taken.connections, vec![vec!["github".to_string()], Vec::<String>::new()]);
    assert_eq!(taken.datasets, vec![Vec::<String>::new(), vec!["docs".to_string()]]);
    assert_eq!(taken.apps, vec![Vec::<String>::new(), vec!["helper".to_string()]]);
    for s in &d.steps {
        assert!(s.skills.is_empty() && s.connections.is_empty() && s.datasets.is_empty() && s.apps.is_empty());
    }
    assert_eq!(d.steps[0].prompt, "plan");
    assert_eq!(d.steps[0].tool_contract.get("kx.search").map(|v| v.as_str()), Some("1.0.0"));
    assert_eq!(d.edges.len(), 1);
}

#[test]
fn an_unserved_model_route_refuses_the_run() {
    let served = vec!["llama-3".to_string(), "qwen".to_string()];
    let mut d = dag(vec![model_step("go")]);
    assert_eq!(
        pin_model_route(&mut d, "gpt-x", &served),
        Err(AppRunError::UnservedModelRoute("gpt-x".to_string()))
    );
    assert_eq!(d.steps[0].model_id, "", "a refused route changes nothing");
}

#[test]
fn a_served_model_route_pins_only_model_steps_without_their_own_model() {
    let served = vec!["llama-3".to_string(), "qwen".to_string()];
    let own = StepSpec::new(Some("model"), "mistral", "b");
    let mut d = dag(vec![model_step("a"), own, pure_step()]);
    assert_eq!(pin_model_route(&mut d, "qwen", &served), Ok(()));
    assert_eq!(d.steps[0].model_id, "qwen");
    assert_eq!(d.steps[1].model_id, "mistral", "an authored model wins");
    assert_eq!(d.steps[2].model_id, "", "a pure step takes no model");
    let mut e = dag(vec![model_step("a")]);
    assert_eq!(pin_model_route(&mut e, "", &served), Ok(()));
    assert_eq!(e.steps[0].model_id, "", "an empty route leaves the blueprint alone");
}

#[test]
fn skills_partition_into_app_wide_and_per_step() {
    let skills = vec![skill("triage", "", &[]), skill("summarize", "", &[]), skill("cite", "", &[])];
    let bindings = vec![vec!["Triage".to_string()], Vec::new(), vec!["cite".to_string()]];
    let d = dag(vec![model_step("a"), model_step("b"), pure_step()]);
    let (unbound, bound) = partition_skills(&skills, &bindings, &d, 3);
    // `cite` is named only by a pure step, so no model step binds it: App-wide.
    assert_eq!(unbound, vec![1, 2]);
    assert_eq!(bound, vec![vec![0], Vec::<usize>::new(), Vec::<usize>::new()]);
}

#[test]
fn approval_is_stamped_onto_the_entry_agentic_step_only() {
    let mut d = DagSpec {
        steps: vec![model_step("root"), model_step("child")],
        edges: vec![EdgeSpec { parent: 0, child: 1 }],
    };
    stamp_require_approval(&mut d, true, "kx.require_approval");
    assert_eq!(d.steps[0].params.get("kx.require_approval").map(|v| v.as_str()), Some("true"));
    assert_eq!(d.steps[1].params.get("kx.require_approval"), None);
    let mut e = dag(vec![model_step("root")]);
    stamp_require_approval(&mut e, false, "kx.require_approval");
    assert!(e.steps[0].params.is_empty(), "false changes nothing");
}

#[test]
fn registry_views_collect_credentials_and_endpoints() {
    let registered = vec![
        ("mcp://github".to_string(), Some("gh-token".to_string())),
        ("mcp://local".to_string(), None),
        ("mcp://github".to_string(), Some("gh-token-2".to_string())),
    ];
    let (creds, eps) = registry_views(&registered);
    assert_eq!(creds.items().to_vec(), vec!["gh-token".to_string(), "gh-token-2".to_string()]);
    assert_eq!(eps.get("mcp://github").map(|v| v.as_str()), Some("gh-token-2"), "a later connection wins");
    assert_eq!(eps.get("mcp://local").map(|v| v.as_str()), Some(""));
}

#[test]
fn datasets_ground_the_entry_step_or_the_steps_that_name_them() {
    let mut d = DagSpec {
        steps: vec![model_step("go"), model_step("write")],
        edges: vec![EdgeSpec { parent: 0, child: 1 }],
    };
    d.steps[1].tool_contract = map(&[("retrieve", "7")]);
    let resolved = vec!["docs".to_string(), "faq".to_string()];
    let targets = vec![vec![], vec![1]];
    ground_on_datasets(&mut d, &resolved, &targets, &set(&["docs", "faq"])).unwrap();
    let directive = |list: &str| {
        format!("Grounding: use the `retrieve` tool to search the dataset(s) [{list}] for relevant passages BEFORE answering, and ground your answer in what you retrieve.")
    };
    assert_eq!(d.steps[0].prompt, format!("go\n\n{}", directive("docs")));
    assert_eq!(d.steps[0].tool_contract.get("retrieve").map(|v| v.as_str()), Some("1"));
    assert_eq!(d.steps[1].prompt, format!("write\n\n{}", directive("faq")));
    assert_eq!(d.steps[1].tool_contract.get("retrieve").map(|v| v.as_str()), Some("7"), "an authored version wins");
}

#[test]
fn grounding_on_a_dataset_that_is_not_ingested_is_refused() {
    let mut d = dag(vec![model_step("go")]);
    let resolved = vec!["docs".to_string(), "ghost".to_string()];
    let err = ground_on_datasets(&mut d, &resolved, &[vec![], vec![]], &set(&["docs"])).unwrap_err();
    assert_eq!(
        err,
        AppRunError::InvalidArgs(
            "app grounds on dataset \"ghost\" but no such dataset is ingested; run `kx datasets ingest ghost \u{2026}` first, then re-run".to_string()
        )
    );
    assert_eq!(d.steps[0].prompt, "go", "a refused grounding changes nothing");
}

#[test]
fn the_grounding_plan_groups_by_step() {
    let resolved = vec!["a".to_string(), "b".to_string(), "c".to_string()];
    let targets = vec![vec![0, 2], vec![], vec![2]];
    let (app, per) = dataset_grounding_plan(&resolved, &targets, &set(&["a", "b", "c"]), 3).unwrap();
    assert_eq!(app, vec!["b".to_string()]);
    assert_eq!(per, vec![vec!["a".to_string()], vec![], vec!["a".to_string(), "c".to_string()]]);
}

#[test]
fn an_inherited_wish_is_exactly_a_one_version_ceiling() {
    let ceiling = vec![("a".to_string(), "1".to_string()), ("b".to_string(), "2".to_string())];
    let w = effective_tool_wish(Reach::InheritPrincipal, StrMap::new(), Some(&ceiling));
    assert_eq!(w.get("a").map(String::as_str), Some("1"));
    assert_eq!(w.get("b").map(String::as_str), Some("2"));
    assert_eq!(w.len(), 2);
}
