//! Tests of eggs: templates, rules and setup.
use voltpanel::json::Json;
use voltpanel::models::Server;
use voltpanel::services::blueprint::NumberVerdict;
use voltpanel::services::egg::{
    build_default_config, default_image, default_stop, env_for_server, fill, install_notice,
    resolve_startup, resolve_variables, rules_of, run_install, validate_value, EggFault,
    EggVariable, Rule,
};

fn variable(env_var: &str, default: &str, rules: &str) -> EggVariable {
    EggVariable {
        name: env_var.into(),
        description: String::new(),
        env_var: env_var.into(),
        default_value: default.into(),
        user_viewable: true,
        user_editable: true,
        rules: rules.into(),
    }
}

fn server() -> Server {
    Server {
        id: 1,
        uuid: "u".into(),
        name: "srv".into(),
        blueprint_id: 1,
        startup: String::new(),
        port: Some(25565),
        memory_mb: 1024,
        disk_mb: 2048,
        cpu_percent: 50,
    }
}

fn pairs(p: &[(&str, &str)]) -> Vec<(String, String)> {
    p.iter().map(|(k, v)| (k.to_string(), v.to_string())).collect()
}

/// What the bounds of the rules say of a number.
fn judge(v: f64, rules: &[Rule]) -> NumberVerdict {
    let mut low: Option<String> = None;
    let mut high: Option<String> = None;
    for r in rules {
        match r {
            Rule::Min { least } => low = Some(least.clone()),
            Rule::Max { greatest } => high = Some(greatest.clone()),
            _ => {}
        }
    }
    if let Some(b) = low {
        if v < b.trim().parse::<f64>().unwrap() {
            return NumberVerdict::TooLow { bound: b };
        }
    }
    if let Some(b) = high {
        if v > b.trim().parse::<f64>().unwrap() {
            return NumberVerdict::TooHigh { bound: b };
        }
    }
    NumberVerdict::Fine
}

fn fault(rules: &str, value: &str) -> Option<EggFault> {
    let var = variable("V", "", rules);
    let parsed = rules_of(rules);
    let bounded: Vec<bool> = parsed
        .iter()
        .map(|r| match r {
            Rule::Min { least } => least.trim().parse::<f64>().is_ok(),
            Rule::Max { greatest } => greatest.trim().parse::<f64>().is_ok(),
            _ => true,
        })
        .collect();
    let (number, length) = if bounded.iter().all(|b| *b) {
        let number = match value.trim().parse::<f64>() {
            Ok(v) => judge(v, &parsed),
            Err(_) => NumberVerdict::NotANumber,
        };
        (number, judge(value.len() as f64, &parsed))
    } else {
        (NumberVerdict::Fine, NumberVerdict::Fine)
    };
    validate_value(&var, &parsed, value, &bounded, &number, &length).err().map(|e| e.fault)
}

#[test]
fn each_rule_refuses_what_it_forbids() {
    assert_eq!(fault("required", "  "), Some(EggFault::Required));
    assert_eq!(fault("required", "a"), None);
    assert_eq!(fault("numeric", "a"), Some(EggFault::NotNumeric));
    assert_eq!(fault("numeric|min:2|max:4", "1"), Some(EggFault::BelowMin));
    assert_eq!(fault("numeric|min:2|max:4", "5"), Some(EggFault::AboveMax));
    assert_eq!(fault("numeric|min:2|max:4", "3"), None);
    assert_eq!(fault("min:2|max:4", "a"), Some(EggFault::TooShort));
    assert_eq!(fault("min:2|max:4", "abcde"), Some(EggFault::TooLong));
    assert_eq!(fault("min:2", "a"), Some(EggFault::TooShort));
    assert_eq!(fault("min:2", "ab"), None);
    assert_eq!(fault("max:2", "abc"), Some(EggFault::TooLong));
    assert_eq!(fault("max:2", "ab"), None);
    assert_eq!(fault("min:x", "a"), Some(EggFault::InvalidMin));
    assert_eq!(fault("max:x", "a"), Some(EggFault::InvalidMax));
    assert_eq!(fault("regex:^a+$", "aab"), Some(EggFault::NoMatch));
    assert_eq!(fault("regex:^a+$", "aaa"), None);
    assert_eq!(fault("regex:(", "a"), Some(EggFault::InvalidPattern));
    assert_eq!(fault("string", "a"), None);
}

#[test]
fn templates_are_filled() {
    let env = pairs(&[("A", "1"), ("SERVER_NAME", "srv")]);
    assert_eq!(fill("{{A}} {{ SERVER_NAME }} {{NOPE}}.", &env), "1 srv .");
    assert_eq!(fill("{{A B}} {A} {{}}", &env), "{{A B}} {A} {{}}");
}

#[test]
fn startup_takes_the_servers_own_values_last() {
    let vars = vec![variable("JAR", "a.jar", ""), variable("SERVER_NAME", "fake", "")];
    let values = resolve_variables(&vars, &pairs(&[("JAR", "b.jar")]));
    assert_eq!(values, vec!["b.jar", "fake"]);
    let s = server();
    assert_eq!(
        resolve_startup("run {{JAR}} {{SERVER_NAME}} {{SERVER_PORT}} {{SERVER_MEMORY}}", &vars, &values, &s),
        "run b.jar srv 25565 1024"
    );
    let mut own = server();
    own.startup = "own {{JAR}}".into();
    assert_eq!(resolve_startup("run", &vars, &values, &own), "own b.jar");
    assert!(build_default_config(&None, &vars, &values, &s).is_none());
    let built = build_default_config(&Some("{\"j\":\"{{JAR}}\"}".into()), &vars, &values, &s).unwrap();
    assert_eq!(built.get_text("j").unwrap(), "b.jar");
    let built = build_default_config(&Some("{oops {{JAR}}".into()), &vars, &values, &s).unwrap();
    assert!(matches!(built, Json::Null));
}

#[test]
fn the_process_gets_its_environment() {
    let mut hidden = variable("TOKEN", "", "");
    hidden.user_viewable = false;
    let vars = vec![variable("A", "1", ""), hidden];
    let env = env_for_server(&vars, &vec!["1".into(), String::new()], &server(), "/srv/u");
    let get = |k: &str| env.iter().find(|(n, _)| n == k).map(|(_, v)| v.clone());
    assert_eq!(get("A").as_deref(), Some("1"));
    assert_eq!(get("TOKEN"), None);
    assert_eq!(get("HOME").as_deref(), Some("/srv/u"));
    assert_eq!(get("SERVER_PORT").as_deref(), Some("25565"));
}

#[test]
fn setup_runs_where_there_is_a_script() {
    assert!(run_install(&None, &vec![], &vec![], &server(), "/srv/u").is_none());
    let plan = run_install(&Some("echo hi".into()), &vec![], &vec![], &server(), "/srv/u").unwrap();
    assert_eq!(plan.script, "echo hi");
    assert!(install_notice("srv", true, "").error.is_none());
    assert!(install_notice("srv", false, "boom").error.is_some());
    assert_eq!(default_image(), "alpine:latest");
    assert_eq!(default_stop(), "stop");
}
