use kx_gateway::control::{ControlDecodeError, ControlProposal, PolicyRoleRow, PolicyRoleToolWire, SecretProposal, ToolProposal, TriggerProposal};
use kx_gateway::nl_control::{admit_role_names_only_fireable_tools, check_steer, summarize};

fn fireable() -> Vec<(String, String)> {
    vec![("retrieve".to_string(), "1".to_string())]
}

fn role_naming(tool_id: &str, tool_version: &str) -> ControlProposal {
    ControlProposal::PutPolicyRole(PolicyRoleRow {
        name: "reporting-only".into(),
        description: String::new(),
        tools: vec![PolicyRoleToolWire { tool_id: tool_id.into(), tool_version: tool_version.into() }],
        created_unix_ms: 0,
        updated_unix_ms: 0,
    })
}

fn tool(name: &str, host: &str) -> ControlProposal {
    ControlProposal::RegisterTool(ToolProposal {
        tool_name: name.into(),
        tool_version: "1".into(),
        description: String::new(),
        idempotency_class: "Token".into(),
        server_host: host.into(),
        remote_name: String::new(),
    })
}

#[test]
fn a_role_naming_an_unregistered_tool_is_refused_and_one_naming_a_registered_tool_is_not() {
    let ok = admit_role_names_only_fireable_tools(&role_naming("retrieve", "1"), &fireable());
    assert!(ok.is_ok(), "a role narrowing to a REGISTERED tool must pass the authority gate: {ok:?}");
    let err = admit_role_names_only_fireable_tools(&role_naming("definitely-not-registered", "1"), &fireable())
        .expect_err("a role naming a tool nobody registered must be refused");
    assert!(err.contains("definitely-not-registered@1"), "the refusal must name the offending pair, got: {err}");
    assert!(err.contains("NARROWS"), "the refusal must give the narrowing rationale, got: {err}");
}

#[test]
fn the_version_half_of_the_pair_is_load_bearing() {
    let err = admit_role_names_only_fireable_tools(&role_naming("retrieve", "9"), &fireable())
        .expect_err("retrieve@9 is not registered even though retrieve@1 is");
    assert!(err.contains("retrieve@9"), "got: {err}");
}

#[test]
fn a_non_policy_proposal_passes_the_authority_gate_untouched() {
    assert!(admit_role_names_only_fireable_tools(&tool("retrieve", "api.example.com"), &fireable()).is_ok());
}

#[test]
fn a_secret_summary_names_only_the_name() {
    let s = summarize(&ControlProposal::PutSecret(SecretProposal {
        name: "OPENAI_API_KEY".into(),
        secret_scope: "app:reports".into(),
        net_scope: "egress:api.example.com:443".into(),
    }));
    assert!(s.contains("OPENAI_API_KEY"));
    assert!(s.contains("NAME"));
    assert!(!s.contains("app:reports"));
}

#[test]
fn the_refusal_lists_every_unmatched_pair_in_debug_form() {
    let p = ControlProposal::PutPolicyRole(PolicyRoleRow {
        name: "r".into(),
        description: String::new(),
        tools: vec![
            PolicyRoleToolWire { tool_id: "a".into(), tool_version: "1".into() },
            PolicyRoleToolWire { tool_id: "retrieve".into(), tool_version: "1".into() },
            PolicyRoleToolWire { tool_id: "b".into(), tool_version: "2".into() },
        ],
        created_unix_ms: 0,
        updated_unix_ms: 0,
    });
    let err = admit_role_names_only_fireable_tools(&p, &fireable()).unwrap_err();
    assert!(err.starts_with("this role names tools that no registered tool matches"), "{err}");
    assert!(err.ends_with(r#"["a@1", "b@2"]"#), "{err}");
    let one = admit_role_names_only_fireable_tools(&role_naming("x", "1"), &fireable()).unwrap_err();
    assert!(one.starts_with("this role names a tool that"), "{one}");
}

#[test]
fn summaries_render_each_shape() {
    assert_eq!(summarize(&tool("lookup", "api.example.com")), "register tool lookup@1 via api.example.com");
    assert_eq!(summarize(&role_naming("retrieve", "1")), "define role reporting-only narrowing to 1 tool(s)");
    assert_eq!(
        summarize(&ControlProposal::AssignPolicyRole { party: "alice@acme".into(), role: "ops".into() }),
        "assign role ops to alice@acme"
    );
    let t = TriggerProposal {
        name: "nightly".into(),
        kind: "cron".into(),
        auth: "none".into(),
        auth_secret_ref: String::new(),
        schedule_spec: "0 9 * * *".into(),
        timezone: String::new(),
        enabled: true,
        require_approval: false,
        recipe_handle: String::new(),
        app_handle: "ops/daily".into(),
        workflow_handle: "wf".into(),
    };
    assert_eq!(summarize(&ControlProposal::RegisterTrigger(t)), "register cron trigger nightly -> ops/daily");
}

#[test]
fn an_unknown_steer_is_refused_and_a_blank_one_is_not() {
    assert_eq!(check_steer("  tools ").unwrap(), "tools");
    assert_eq!(check_steer("   ").unwrap(), "");
    let err = check_steer("telepathy").unwrap_err();
    assert!(err.starts_with("unknown domain \"telepathy\": expected one of workflows"), "{err}");
}

#[test]
fn decode_errors_have_their_refusal_text() {
    assert_eq!(
        ControlDecodeError::Oversize { got: 20000 }.message(),
        "the control form is 20000 bytes, over the 16384 byte cap"
    );
    assert_eq!(ControlDecodeError::NotUtf8.message(), "the control form is not valid UTF-8");
    assert!(ControlDecodeError::Forbidden("token".into()).message().starts_with("the form carries `token`"));
}
