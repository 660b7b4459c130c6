use kx_gateway::control::{decode_control, ControlDecodeError, ControlProposal, MAX_CONTROL_BYTES};

#[test]
fn the_taught_example_decodes() {
    let raw = r#"{"control":{"domain":"triggers","name":"nightly-report","fields":{"kind":"cron","schedule_spec":"0 9 * * *","app_handle":"ops/reports/daily"}}}"#;
    match decode_control(raw.as_bytes()).unwrap() {
        ControlProposal::RegisterTrigger(t) => {
            assert_eq!(t.name, "nightly-report");
            assert_eq!(t.kind, "cron");
            assert_eq!(t.schedule_spec, "0 9 * * *");
            assert_eq!(t.app_handle, "ops/reports/daily");
            assert_eq!(t.auth, "none");
            assert!(t.enabled);
            assert!(!t.require_approval);
        }
        other => panic!("expected a trigger, got {other:?}"),
    }
}

#[test]
fn a_credential_or_argv_key_is_refused_by_name() {
    for key in ["value", "secret", "password", "token", "argv", "env"] {
        let raw = format!(r#"{{"control":{{"domain":"secrets","name":"API_KEY","fields":{{"{key}":"x"}}}}}}"#);
        match decode_control(raw.as_bytes()) {
            Err(ControlDecodeError::Forbidden(k)) => assert_eq!(k, key),
            other => panic!("{key} must be Forbidden, got {other:?}"),
        }
    }
}

#[test]
fn an_unknown_field_is_refused_rather_than_dropped() {
    let raw = r#"{"control":{"domain":"secrets","name":"API_KEY","fields":{"expires_at":"soon"}}}"#;
    assert!(matches!(decode_control(raw.as_bytes()), Err(ControlDecodeError::Malformed(_))));
}

#[test]
fn an_unknown_domain_names_the_alternatives() {
    let raw = r#"{"control":{"domain":"telepathy","name":"x","fields":{}}}"#;
    let Err(ControlDecodeError::Malformed(m)) = decode_control(raw.as_bytes()) else {
        panic!("expected Malformed");
    };
    assert!(m.contains("telepathy"));
    assert!(m.contains("workflows | tools | connectors"));
}

#[test]
fn policy_distinguishes_defining_from_assigning() {
    let define = r#"{"control":{"domain":"policy","name":"ops","fields":{"tools":["fs.read@1"]}}}"#;
    match decode_control(define.as_bytes()).unwrap() {
        ControlProposal::PutPolicyRole(r) => {
            assert_eq!(r.name, "ops");
            assert_eq!(r.tools.len(), 1);
            assert_eq!(r.tools[0].tool_id, "fs.read");
            assert_eq!(r.tools[0].tool_version, "1");
        }
        other => panic!("expected PutPolicyRole, got {other:?}"),
    }
    let assign = r#"{"control":{"domain":"policy","name":"ops","fields":{"party":"alice@acme"}}}"#;
    match decode_control(assign.as_bytes()).unwrap() {
        ControlProposal::AssignPolicyRole { party, role } => {
            assert_eq!(party, "alice@acme");
            assert_eq!(role, "ops");
        }
        other => panic!("expected AssignPolicyRole, got {other:?}"),
    }
}

#[test]
fn a_script_form_lowers_with_empty_argv_and_env() {
    let raw = r#"{"control":{"domain":"scripts","name":"tidy","fields":{"interpreter":"sh","source":"echo hi"}}}"#;
    match decode_control(raw.as_bytes()).unwrap() {
        ControlProposal::RegisterScript(s) => {
            assert!(s.fs_mounts.is_empty());
            assert_eq!(s.interpreter, "sh");
            assert_eq!(s.source, b"echo hi".to_vec());
            assert_eq!(s.script_version, "1");
            assert_eq!(s.mem_bytes, 0);
        }
        other => panic!("expected a script, got {other:?}"),
    }
}

#[test]
fn a_fenced_reply_still_decodes() {
    let raw = "```json\n{\"control\":{\"domain\":\"secrets\",\"name\":\"API_KEY\",\"fields\":{}}}\n```";
    assert!(decode_control(raw.as_bytes()).is_ok());
}

#[test]
fn an_oversize_form_is_refused_before_parsing() {
    let raw = vec![b'{'; MAX_CONTROL_BYTES + 1];
    assert!(matches!(decode_control(&raw), Err(ControlDecodeError::Oversize { .. })));
}

#[test]
fn a_nameless_form_is_refused() {
    let raw = r#"{"control":{"domain":"secrets","name":"  ","fields":{}}}"#;
    assert!(matches!(decode_control(raw.as_bytes()), Err(ControlDecodeError::Malformed(_))));
}

#[test]
fn invalid_utf8_is_refused() {
    assert_eq!(decode_control(&[0xff, 0xfe]), Err(ControlDecodeError::NotUtf8));
}

#[test]
fn a_field_of_the_wrong_type_is_refused() {
    let raw = r#"{"control":{"domain":"connectors","name":"gmail","fields":{"tls_required":"yes"}}}"#;
    match decode_control(raw.as_bytes()) {
        Err(ControlDecodeError::Malformed(m)) => {
            assert_eq!(m, "the requested domain form is not admissible: invalid type for field `tls_required`")
        }
        other => panic!("expected Malformed, got {other:?}"),
    }
}

#[test]
fn an_extra_envelope_key_is_refused() {
    let raw = r#"{"control":{"domain":"secrets","name":"K"},"note":"hi"}"#;
    match decode_control(raw.as_bytes()) {
        Err(ControlDecodeError::Malformed(m)) => assert_eq!(m, "not a valid control form: unknown field `note`"),
        other => panic!("expected Malformed, got {other:?}"),
    }
}

#[test]
fn connector_defaults_and_a_trimmed_name() {
    let raw = r#"{"control":{"domain":" connectors ","name":"  gmail ","fields":{"args":["--x","y"],"endpoint":"https://m"}}}"#;
    match decode_control(raw.as_bytes()).unwrap() {
        ControlProposal::RegisterMcpServer(c) => {
            assert_eq!(c.server_name, "gmail");
            assert_eq!(c.transport, "http");
            assert!(c.tls_required);
            assert_eq!(c.args, vec!["--x".to_string(), "y".to_string()]);
            assert_eq!(c.endpoint, "https://m");
        }
        other => panic!("expected a connector, got {other:?}"),
    }
}

#[test]
fn a_null_field_reads_as_absent() {
    let raw = r#"{"control":{"domain":"tools","name":"lookup","fields":{"tool_version":null,"server_host":"api.example.com"}}}"#;
    match decode_control(raw.as_bytes()).unwrap() {
        ControlProposal::RegisterTool(t) => {
            assert_eq!(t.tool_version, "1");
            assert_eq!(t.idempotency_class, "Token");
            assert_eq!(t.server_host, "api.example.com");
        }
        other => panic!("expected a tool, got {other:?}"),
    }
}

#[test]
fn a_policy_spec_without_an_at_is_skipped_and_the_first_at_splits() {
    let raw = r#"{"control":{"domain":"policy","name":"r","fields":{"tools":["nover","a@b@c"]}}}"#;
    match decode_control(raw.as_bytes()).unwrap() {
        ControlProposal::PutPolicyRole(r) => {
            assert_eq!(r.tools.len(), 1);
            assert_eq!(r.tools[0].tool_id, "a");
            assert_eq!(r.tools[0].tool_version, "b@c");
        }
        other => panic!("expected PutPolicyRole, got {other:?}"),
    }
}

#[test]
fn malformed_json_is_malformed() {
    match decode_control(b"{not json") {
        Err(ControlDecodeError::Malformed(m)) => assert!(m.starts_with("not a valid control form: ")),
        other => panic!("expected Malformed, got {other:?}"),
    }
}

#[test]
fn the_least_forbidden_key_is_the_one_refused() {
    let raw = r#"{"control":{"domain":"nope","name":"x","fields":{"token":"t","argv":["a"],"value":"v"}}}"#;
    match decode_control(raw.as_bytes()) {
        Err(ControlDecodeError::Forbidden(k)) => assert_eq!(k, "argv"),
        other => panic!("expected a forbidden-key refusal, got {other:?}"),
    }
}

#[test]
fn a_fenced_reply_decodes_exactly_like_the_bare_one() {
    for bare in [
        r#"{"control":{"domain":"secrets","name":"API_KEY","fields":{}}}"#,
        r#"{"control":{"domain":"secrets","name":"API_KEY","fields":{"password":"x"}}}"#,
        r#"{"control":{"domain":"nope","name":"n"}}"#,
        "not json",
    ] {
        let fenced = format!("```json\n{bare}\n```");
        assert_eq!(
            format!("{:?}", decode_control(fenced.as_bytes())),
            format!("{:?}", decode_control(bare.as_bytes()))
        );
    }
}

#[test]
fn the_array_forms_of_the_envelope_and_the_form_decode_too() {
    let raw = r#"[["secrets","API_KEY",{"secret_scope":"s"}]]"#;
    match decode_control(raw.as_bytes()).unwrap() {
        ControlProposal::PutSecret(p) => assert_eq!(p.name, "API_KEY"),
        other => panic!("expected a secret, got {other:?}"),
    }
    let raw = r#"{"control":["secrets","API_KEY"]}"#;
    assert!(matches!(decode_control(raw.as_bytes()), Ok(ControlProposal::PutSecret(_))));
    for bad in [r#"{"control":["secrets"]}"#, r#"{"control":["secrets","n",{},1]}"#, r#"[]"#, r#"[{"domain":"secrets","name":"n"},1]"#] {
        assert!(matches!(decode_control(bad.as_bytes()), Err(ControlDecodeError::Malformed(_))), "{bad}");
    }
}
