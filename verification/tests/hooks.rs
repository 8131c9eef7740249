//! Hooks: what they may see, what their output means, and what is recorded.
use faktor::hooks::{
    env_entries, event_name, first_verdict, input_json, process_owner, verdict_lines, CapabilitySet,
    FailurePolicy, HookEvent, HookInput, HookRegistry, HookReport, HookSpec, HookVerdict,
    ProcessOutput, ProcessOwner, MAX_AUDIT_RECORDS,
};
use faktor::ids::SessionId;
use faktor::json::Json;

const EXECUTE: u64 = 1;
const READ: u64 = 2;
const NETWORK: u64 = 4;

fn registry() -> HookRegistry {
    HookRegistry::new(CapabilitySet::new(u64::MAX, "all"))
}

fn ran(exit_code: Option<i32>, stdout: &str) -> ProcessOutput {
    ProcessOutput {
        timed_out: false,
        exit_code,
        stdout_head: stdout.to_string(),
        stdout_truncated: false,
        stderr_head: String::new(),
        stderr_truncated: false,
    }
}

fn killed(stdout: &str) -> ProcessOutput {
    ProcessOutput { timed_out: true, ..ran(None, stdout) }
}

/// What a line reads as, with the value that it holds.
fn verdict_of(line: &str) -> Option<HookVerdict> {
    let value: serde_json::Value = serde_json::from_str(line).ok()?;
    let reason = || value.get("reason")?.as_str().map(str::to_string);
    match value.get("verdict")?.as_str()? {
        "allow" => Some(HookVerdict::Allow),
        "deny" => Some(HookVerdict::Deny { reason: reason()? }),
        "warn" => Some(HookVerdict::Warn { reason: reason()? }),
        "modify" => {
            let note = value.get("metadata")?.get("note")?.as_str()?;
            Some(HookVerdict::Modify {
                metadata: Json::Object(vec![("note".to_string(), Json::Text(note.to_string()))]),
            })
        }
        _ => None,
    }
}

fn report(output: ProcessOutput) -> HookReport {
    let parsed = verdict_lines(&output.stdout_head).iter().map(|l| verdict_of(l)).collect();
    HookReport::Ran { verdict: first_verdict(&parsed), output }
}

/// Runs the hooks for an event, each with this output.
fn run(r: &mut HookRegistry, event: HookEvent, outputs: &[ProcessOutput]) -> HookVerdict {
    let mut run = r.run(event);
    let mut i = 0;
    while let Some(spec) = run.next().map(|s| s.duplicate()) {
        let verdict = if r.in_scope(&spec) {
            r.run_one(&spec, event, report(outputs[i].clone()), 1, 2)
        } else {
            r.run_one(&spec, event, HookReport::OutOfScope, 1, 2)
        };
        run.took(verdict);
        i += 1;
    }
    run.verdict()
}

fn spec(id: &str, event: HookEvent) -> HookSpec {
    HookSpec {
        id: id.to_string(),
        command: "sh".to_string(),
        events: vec![event],
        ..Default::default()
    }
}

#[test]
fn allow_path_via_json_stdout() {
    let mut r = registry();
    r.register(spec("ok", HookEvent::PreTool)).unwrap();
    let out = ran(Some(0), "{\"verdict\":\"allow\"}\n");
    assert_eq!(run(&mut r, HookEvent::PreTool, &[out]), HookVerdict::Allow);
}

#[test]
fn deny_path_blocks() {
    let mut r = registry();
    r.register(spec("no", HookEvent::PreTool)).unwrap();
    let out = ran(Some(0), "{\"verdict\":\"deny\",\"reason\":\"policy\"}\n");
    match run(&mut r, HookEvent::PreTool, &[out]) {
        HookVerdict::Deny { reason } => assert_eq!(reason, "policy"),
        v => panic!("expected deny, got {v:?}"),
    }
}

#[test]
fn fail_closed_on_crash_without_verdict() {
    let mut r = registry();
    r.register(HookSpec {
        failure_policy: FailurePolicy::FailClosed,
        ..spec("crash", HookEvent::PreEdit)
    })
    .unwrap();
    assert!(matches!(
        run(&mut r, HookEvent::PreEdit, &[ran(Some(3), "")]),
        HookVerdict::Deny { .. }
    ));
}

#[test]
fn fail_open_proceeds_with_warn_audit() {
    let mut r = registry();
    r.register(HookSpec {
        failure_policy: FailurePolicy::FailOpen,
        ..spec("soft", HookEvent::PreTool)
    })
    .unwrap();
    assert_eq!(
        run(&mut r, HookEvent::PreTool, &[ran(Some(9), "")]),
        HookVerdict::Warn {
            reason: "hook soft failed open: Warn { reason: \"hook soft exited Some(9) without a \
                     verdict\" }"
                .to_string()
        }
    );
    assert!(!r.audit().is_empty());
}

#[test]
fn timeout_kills_and_policy_decides() {
    let mut r = registry();
    r.register(HookSpec {
        deadline_ms: 300,
        failure_policy: FailurePolicy::FailClosed,
        ..spec("slow", HookEvent::PreModel)
    })
    .unwrap();
    let v = run(&mut r, HookEvent::PreModel, &[killed("")]);
    assert!(matches!(v, HookVerdict::Deny { .. }), "timeout fails closed: {v:?}");
}

fn names(entries: &[(String, String)]) -> Vec<&str> {
    entries.iter().map(|e| e.0.as_str()).collect()
}

#[test]
fn env_clear_by_default_removes_secrets() {
    // The list is all that a hook sees: a secret of the daemon is not on it.
    let entries = env_entries(&spec("env", HookEvent::PostTool), "{}");
    assert_eq!(entries, vec![("FAKTOR_HOOK_INPUT".to_string(), "{}".to_string())]);
}

#[test]
fn explicit_env_entries_pass_under_the_allowlist() {
    let s = HookSpec {
        env_allowlist: true,
        env: vec![("ALLOWED".to_string(), "1".to_string())],
        ..spec("env", HookEvent::PreTool)
    };
    let entries = env_entries(&s, "{}");
    assert_eq!(entries[0], ("ALLOWED".to_string(), "1".to_string()));
    assert_eq!(names(&entries), vec!["ALLOWED", "FAKTOR_HOOK_INPUT"]);
}

#[test]
fn allowlist_off_passes_only_the_benign_set() {
    let s = HookSpec { env_allowlist: false, ..spec("env", HookEvent::PreModel) };
    let entries = env_entries(&s, "{}");
    let listed = names(&entries);
    assert!(listed.contains(&"PATH") && listed.contains(&"HOME"));
    assert!(!listed.contains(&"FAKTOR_TOKEN"), "the secret never passes");
    // An empty value stands for the value of the daemon.
    assert!(entries.iter().all(|e| e.0 == "FAKTOR_HOOK_INPUT" || e.1.is_empty()));
}

#[test]
fn ten_megabyte_stream_stays_bounded_and_the_hook_completes() {
    // What is kept of a flood is its head, and it says nothing; the hook
    // ended well, so it allows.
    let mut r = registry();
    r.register(HookSpec {
        stdout_cap: 4096,
        stderr_cap: 4096,
        ..spec("noisy", HookEvent::PreTool)
    })
    .unwrap();
    let flood = ProcessOutput { stdout_truncated: true, ..ran(Some(0), &"\0".repeat(4096)) };
    assert_eq!(run(&mut r, HookEvent::PreTool, &[flood]), HookVerdict::Allow);
    let audit = r.audit();
    assert_eq!(audit.len(), 1);
    let head = &audit[0].stdout_head;
    assert!(
        head.len() <= 4096 + 3,
        "audit stdout head is bounded (cap + '…' marker), got {} bytes",
        head.len()
    );
    assert!(head.ends_with('…'));
}

#[test]
fn deadline_discards_partial_verdict_output() {
    // The hook wrote a valid allow verdict, then ran past the deadline: the
    // outcome is the failure policy's, and the output lands in the record.
    let out = killed("{\"verdict\":\"allow\"}\n");
    let mut r = registry();
    r.register(HookSpec {
        deadline_ms: 200,
        failure_policy: FailurePolicy::FailClosed,
        ..spec("liar", HookEvent::PreModel)
    })
    .unwrap();
    match run(&mut r, HookEvent::PreModel, &[out.clone()]) {
        HookVerdict::Deny { .. } => {}
        v => panic!("timeout must fail closed, partial allow discarded: {v:?}"),
    }
    let audit = r.audit();
    assert_eq!(audit.len(), 1);
    assert_eq!(audit[0].verdict, "deny", "audit carries the applied outcome");
    assert_eq!(audit[0].exit_code, None, "the tree was killed, not exited");
    assert!(
        audit[0].stdout_head.contains("allow"),
        "partial stdout is audited, and decides nothing, got {:?}",
        audit[0].stdout_head
    );

    // Same partial output under FailOpen: the policy outcome is Warn.
    let mut r2 = registry();
    r2.register(HookSpec {
        deadline_ms: 200,
        failure_policy: FailurePolicy::FailOpen,
        ..spec("liar-open", HookEvent::PreTool)
    })
    .unwrap();
    assert!(matches!(run(&mut r2, HookEvent::PreTool, &[out]), HookVerdict::Warn { .. }));
}

#[test]
fn verdict_precedence_deny_wins() {
    let mut r = registry();
    r.register(spec("a", HookEvent::PreTool)).unwrap();
    r.register(spec("b", HookEvent::PreTool)).unwrap();
    let outputs = [
        ran(Some(0), "{\"verdict\":\"allow\"}\n"),
        ran(Some(0), "{\"verdict\":\"deny\",\"reason\":\"stop\"}\n"),
    ];
    match run(&mut r, HookEvent::PreTool, &outputs) {
        HookVerdict::Deny { reason } => assert_eq!(reason, "stop"),
        v => panic!("deny must win: {v:?}"),
    }
}

#[test]
fn warnings_beat_modifications_and_a_denial_ends_the_run() {
    let outputs = [
        ran(Some(0), "{\"verdict\":\"modify\",\"metadata\":{\"note\":\"one\"}}"),
        ran(Some(0), "{\"verdict\":\"warn\",\"reason\":\"first\"}"),
        ran(Some(0), "{\"verdict\":\"warn\",\"reason\":\"second\"}"),
        ran(Some(0), "{\"verdict\":\"modify\",\"metadata\":{\"note\":\"two\"}}"),
    ];
    let mut r = registry();
    for id in ["a", "b", "c", "d"] {
        r.register(spec(id, HookEvent::PreTool)).unwrap();
    }
    assert_eq!(
        run(&mut r, HookEvent::PreTool, &outputs),
        HookVerdict::Warn { reason: "first".to_string() }
    );
    assert_eq!(r.audit().len(), 4);

    let mut r = registry();
    for id in ["a", "b", "c"] {
        r.register(spec(id, HookEvent::PreTool)).unwrap();
    }
    let deny = ran(Some(0), "{\"verdict\":\"deny\",\"reason\":\"no\"}");
    let outputs = [outputs[1].clone(), deny, outputs[2].clone()];
    assert_eq!(
        run(&mut r, HookEvent::PreTool, &outputs),
        HookVerdict::Deny { reason: "no".to_string() }
    );
    assert_eq!(r.audit().len(), 2, "nothing runs behind a denial");
}

#[test]
fn modify_metadata_passthrough_and_audit_completeness() {
    let mut r = registry();
    r.register(spec("m", HookEvent::PreModel)).unwrap();
    let out = ran(Some(0), "{\"verdict\":\"modify\",\"metadata\":{\"note\":\"hi\"}}\n");
    match run(&mut r, HookEvent::PreModel, &[out]) {
        HookVerdict::Modify { metadata } => {
            assert_eq!(metadata.get("note").and_then(|n| n.as_text()), Some("hi"))
        }
        v => panic!("expected modify: {v:?}"),
    }
    let audit = r.audit();
    assert_eq!(audit.len(), 1);
    assert_eq!(audit[0].hook_id, "m");
    assert!(audit[0].started_ms > 0 && audit[0].duration_ms < 60_000);
}

#[test]
fn hostile_registrations_rejected() {
    let mut r = registry();
    assert!(r.register(HookSpec { id: String::new(), ..Default::default() }).is_err());
    assert!(r
        .register(HookSpec {
            id: "d".to_string(),
            command: "x".to_string(),
            deadline_ms: 0,
            ..Default::default()
        })
        .is_err());
    let ok = HookSpec { id: "d".to_string(), command: "true".to_string(), ..Default::default() };
    r.register(ok.clone()).unwrap();
    assert!(r.register(ok).is_err(), "duplicate id rejected");
    let long = HookSpec { deadline_ms: 300_001, ..spec("l", HookEvent::PreTool) };
    assert_eq!(
        r.register(long),
        Err("hook deadline must be in (0, 300000] ms".to_string())
    );
    assert!(r.register(spec(&"x".repeat(129), HookEvent::PreTool)).is_err());
    assert!(r.register(HookSpec { command: String::new(), ..spec("c", HookEvent::PreTool) }).is_err());
}

#[test]
fn hundred_concurrent_hooks_obey_the_bounded_registry_and_audit_once() {
    let mut r = registry();
    let specs: Vec<HookSpec> =
        (0..100).map(|i| spec(&format!("conc-{i}"), HookEvent::PreTool)).collect();
    for s in &specs {
        r.register(s.clone()).unwrap();
    }
    for s in &specs {
        let out = report(ran(Some(0), "{\"verdict\":\"allow\"}\n"));
        assert!(matches!(
            r.run_one(s, HookEvent::PreTool, out, 1, 1000),
            HookVerdict::Allow
        ));
    }
    // Exactly-once audit records: one per run, none lost or duplicated.
    let audit = r.audit();
    assert_eq!(audit.len(), 100, "exactly one audit record per run");
    for rec in &audit {
        assert_eq!(rec.verdict, "allow");
        assert_eq!(rec.exit_code, Some(0));
    }
}

#[test]
fn deadline_kill_takes_the_hook_grandchild() {
    let mut r = registry();
    r.register(HookSpec {
        deadline_ms: 500,
        failure_policy: FailurePolicy::FailClosed,
        ..spec("grandchild", HookEvent::PreModel)
    })
    .unwrap();
    let s = r.matching(HookEvent::PreModel).remove(0);
    let v = r.run_one(&s, HookEvent::PreModel, report(killed("")), 1, 512);
    assert!(matches!(v, HookVerdict::Deny { .. }), "{v:?}");
    let audit = r.audit();
    assert_eq!(audit.len(), 1, "exactly one audit record");
    assert_eq!(audit[0].verdict, "deny", "timeout fails closed");
    assert_eq!(audit[0].exit_code, None, "the tree was killed");
    assert!(audit[0].duration_ms >= 500, "the run lasted through the deadline");
}

#[test]
fn scope_exceeding_the_envelope_is_refused_before_spawn() {
    let mut r = HookRegistry::new(CapabilitySet::new(EXECUTE | READ, "execute, read"));
    r.register(HookSpec {
        permission_scope: CapabilitySet::new(NETWORK, "network"),
        ..spec("over", HookEvent::PreTool)
    })
    .unwrap();
    let over = r
        .matching(HookEvent::PreTool)
        .into_iter()
        .find(|s| s.id == "over")
        .unwrap();
    assert!(!r.in_scope(&over), "the refused hook must never start");
    let v = r.run_one(&over, HookEvent::PreTool, HookReport::OutOfScope, 1, 0);
    assert!(
        matches!(v, HookVerdict::Deny { .. }),
        "an out-of-envelope scope fails closed: {v:?}"
    );
    let audit = r.audit();
    assert_eq!(audit.len(), 1, "the refusal is audited exactly once");
    assert_eq!(audit[0].verdict, "deny");
    assert_eq!(audit[0].exit_code, None);
    assert!(audit[0].stdout_head.is_empty());
    // The same command with an in-envelope scope runs.
    r.register(HookSpec {
        permission_scope: CapabilitySet::new(EXECUTE, "execute"),
        ..spec("within", HookEvent::PreTool)
    })
    .unwrap();
    let within = r
        .matching(HookEvent::PreTool)
        .into_iter()
        .find(|s| s.id == "within")
        .unwrap();
    assert!(r.in_scope(&within));
    let out = report(ran(Some(0), "{\"verdict\":\"allow\"}"));
    assert_eq!(r.run_one(&within, HookEvent::PreTool, out, 1, 0), HookVerdict::Allow);
    assert_eq!(r.audit().len(), 2);
}

#[test]
fn a_refusal_names_both_scopes() {
    let r = HookRegistry::new(CapabilitySet::new(READ, "read"));
    let s = HookSpec {
        failure_policy: FailurePolicy::Warn,
        permission_scope: CapabilitySet::new(NETWORK, "network"),
        ..spec("over", HookEvent::PreTool)
    };
    let mut r = r;
    assert_eq!(
        r.run_one(&s, HookEvent::PreTool, HookReport::OutOfScope, 1, 0),
        HookVerdict::Warn {
            reason: "hook over failed open: Warn { reason: \"hook over scope [network] exceeds \
                     the granted envelope [read]\" }"
                .to_string()
        }
    );
    let refused = HookReport::NotStarted("no such file".to_string());
    assert!(matches!(
        r.run_one(&s, HookEvent::PreTool, refused, 1, 0),
        HookVerdict::Warn { .. }
    ));
    assert_eq!(r.audit().len(), 2, "a hook that could not be started is recorded too");
}

#[test]
fn the_audit_log_keeps_the_newest_records() {
    let mut r = registry();
    let s = spec("a", HookEvent::PreTool);
    for i in 0..MAX_AUDIT_RECORDS + 2 {
        r.run_one(&s, HookEvent::PreTool, report(ran(Some(0), "")), i as i64, 0);
    }
    let audit = r.audit();
    assert_eq!(audit.len(), MAX_AUDIT_RECORDS);
    assert_eq!(audit[0].started_ms, 2);
    assert_eq!(audit[MAX_AUDIT_RECORDS - 1].started_ms, MAX_AUDIT_RECORDS as i64 + 1);
}

#[test]
fn verdicts_are_read_from_the_first_lines_only() {
    let mut out = String::from("starting\n  {\"verdict\":\"allow\"}  \nplain\n");
    assert_eq!(verdict_lines(&out), vec!["{\"verdict\":\"allow\"}".to_string()]);
    out = "noise\n".repeat(64);
    out.push_str("{\"verdict\":\"allow\"}\n");
    assert!(verdict_lines(&out).is_empty());
    let deny = HookVerdict::Deny { reason: "x".to_string() };
    assert_eq!(first_verdict(&vec![None, Some(deny.clone()), Some(HookVerdict::Allow)]), Some(deny));
    assert_eq!(first_verdict(&vec![None]), None);
}

#[test]
fn hooks_belong_to_the_session_they_are_told() {
    let told = |id: Option<&str>| {
        process_owner(&HookInput { session_id: id.map(str::to_string), ..Default::default() })
    };
    assert_eq!(told(Some("42")), ProcessOwner::Session(SessionId::new(42)));
    assert_eq!(told(Some("x42")), ProcessOwner::Daemon);
    assert_eq!(told(Some("18446744073709551616")), ProcessOwner::Daemon);
    assert_eq!(told(None), ProcessOwner::Daemon);
}

#[test]
fn what_a_hook_is_told_is_one_object() {
    let input = HookInput {
        event: HookEvent::SubagentStop,
        session_id: Some("7".to_string()),
        task_id: None,
        operation_id: Some("op".to_string()),
        payload: Json::Bool(true),
    };
    let value = input_json(&input);
    assert_eq!(value.get("event"), Some(&Json::Text("subagent_stop".to_string())));
    assert_eq!(value.get("session_id"), Some(&Json::Text("7".to_string())));
    assert_eq!(value.get("task_id"), Some(&Json::Null));
    assert_eq!(value.get("operation_id"), Some(&Json::Text("op".to_string())));
    assert_eq!(value.get("payload"), Some(&Json::Bool(true)));
    let all: Vec<&str> = HookEvent::all().into_iter().map(event_name).collect();
    assert_eq!(all.len(), 17);
    assert_eq!(all[0], "session_start");
    assert_eq!(all[16], "session_end");
}

#[test]
fn a_set_is_within_another_by_each_capability() {
    let small = CapabilitySet::new(READ, "read");
    let big = CapabilitySet::new(READ | EXECUTE, "both");
    assert!(small.is_subset_of(&big));
    assert!(!big.is_subset_of(&small));
    assert!(CapabilitySet::new(0, "").is_subset_of(&small));
}

#[test]
fn what_an_ungranted_hook_reports_does_not_count() {
    let over = |policy: FailurePolicy| HookSpec {
        failure_policy: policy,
        permission_scope: CapabilitySet::new(NETWORK, "network"),
        ..spec("over", HookEvent::PreTool)
    };
    let allow = || report(ran(Some(0), "{\"verdict\":\"allow\"}"));
    let mut r = HookRegistry::new(CapabilitySet::new(READ, "read"));
    let v = r.run_one(&over(FailurePolicy::FailClosed), HookEvent::PreTool, allow(), 1, 2);
    assert_eq!(v, HookVerdict::Deny { reason: "hook over failed closed".to_string() });
    let audit = r.audit();
    assert_eq!(audit.len(), 1);
    assert_eq!(audit[0].verdict, "deny");
    assert_eq!(audit[0].exit_code, None);
    assert!(audit[0].stdout_head.is_empty());
    assert!(audit[0].stderr_head.is_empty());
    let v = r.run_one(&over(FailurePolicy::Warn), HookEvent::PreTool, allow(), 1, 2);
    assert!(matches!(v, HookVerdict::Warn { .. }), "{v:?}");
    assert_eq!(r.audit()[1].verdict, "warn");
}

#[test]
fn only_a_granted_hook_has_a_process_to_start() {
    let r = HookRegistry::new(CapabilitySet::new(READ, "read"));
    let input = HookInput {
        event: HookEvent::PreTool,
        session_id: Some("4".to_string()),
        ..HookInput::default()
    };
    let within = HookSpec {
        permission_scope: CapabilitySet::new(READ, "read"),
        ..spec("within", HookEvent::PreTool)
    };
    let started = r.start(&within, &input).unwrap();
    assert_eq!(started.command, within.command);
    assert_eq!(started.args, within.args);
    let told = [
        r#"{"event":"pre_tool","operation_id":null,"#,
        r#""payload":null,"session_id":"4","task_id":null}"#,
    ]
    .concat();
    assert_eq!(started.env, env_entries(&within, &told));
    assert_eq!(started.owner, process_owner(&input));
    assert_eq!(started.deadline_ms, within.deadline_ms);
    assert_eq!((started.stdout_cap, started.stderr_cap), (within.stdout_cap, within.stderr_cap));
    let over = HookSpec {
        permission_scope: CapabilitySet::new(NETWORK, "network"),
        ..spec("over", HookEvent::PreTool)
    };
    assert_eq!(r.start(&over, &input), None);
}

#[test]
fn a_hook_reads_its_input_as_json() {
    let input = HookInput {
        event: HookEvent::PostTool,
        session_id: None,
        task_id: Some("t\"1\"".to_string()),
        operation_id: Some("op\n".to_string()),
        payload: Json::Object(vec![
            ("size".to_string(), Json::Number("18446744073709551615".to_string())),
            ("args".to_string(), Json::List(vec![Json::Bool(false), Json::Null])),
        ]),
    };
    let r = registry();
    let started = r.start(&spec("told", HookEvent::PostTool), &input).unwrap();
    let (name, value) = started.env.last().unwrap();
    assert_eq!(name, "FAKTOR_HOOK_INPUT");
    let told = [
        r#"{"event":"post_tool","operation_id":"op\n","#,
        r#""payload":{"args":[false,null],"size":18446744073709551615},"#,
        r#""session_id":null,"task_id":"t\"1\""}"#,
    ]
    .concat();
    assert_eq!(value, &told);
}
