use garage_sale_gen::cli::{choose_log_level, handle_command, BuildArgs, Cli, Commands, LogLevel, ScaffoldArgs, Task};
use garage_sale_gen::config::{config_candidates, find_default_config, Config};
use garage_sale_gen::models::Attrs;
use garage_sale_gen::sorted_map::SortedMap;
use garage_sale_gen::yaml::{YamlNumber, YamlValue};

fn args() -> BuildArgs {
    BuildArgs {
        config: None,
        base_path: None,
        templates_path: None,
        static_path: None,
        content_path: None,
        output_path: None,
        title: None,
        locale: None,
        default_template: "base.html".to_string(),
        var: Vec::new(),
        json_var: None,
        clean: false,
    }
}

fn text_of(a: &Attrs, key: &str) -> Option<String> {
    match a.get(&key.to_string()) {
        Some(YamlValue::String(s)) => Some(s.clone()),
        _ => None,
    }
}

fn s(x: &str) -> YamlValue {
    YamlValue::String(x.to_string())
}

#[test]
fn parse_vars_splits_at_the_first_equals() {
    let mut a = args();
    a.var = vec!["author=John Doe".to_string(), "eq=a=b".to_string(), "author=Jane".to_string(), "empty=".to_string()];
    let m = match a.parse_vars() {
        Ok(m) => m,
        Err(e) => panic!("{}", e),
    };
    assert_eq!(m.len(), 3);
    assert_eq!(text_of(&m, "author"), Some("Jane".to_string()));
    assert_eq!(text_of(&m, "eq"), Some("a=b".to_string()));
    assert_eq!(text_of(&m, "empty"), Some(String::new()));
}

#[test]
fn parse_vars_rejects_a_pair_without_equals() {
    let mut a = args();
    a.var = vec!["ok=1".to_string(), "broken".to_string(), "also-broken".to_string()];
    match a.parse_vars() {
        Ok(_) => panic!("expected an error"),
        Err(e) => assert_eq!(e, "Invalid --var format: 'broken'. Expected KEY=VALUE"),
    }
}

#[test]
fn parse_json_var_keeps_string_keys() {
    let mut a = args();
    a.json_var = Some(r#"{"social": "@example", 1: "dropped", "n": -3, "deep": {"x": [true, null]}}"#.to_string());
    let m = match a.parse_json_var() {
        Ok(m) => m,
        Err(e) => panic!("{}", e),
    };
    assert_eq!(m.len(), 3);
    assert_eq!(text_of(&m, "social"), Some("@example".to_string()));
    assert!(matches!(m.get(&"n".to_string()), Some(YamlValue::Number(YamlNumber::NegInt(-3)))));
    match m.get(&"deep".to_string()) {
        Some(YamlValue::Mapping(entries)) => {
            assert_eq!(entries.len(), 1);
            assert!(matches!(&entries[0].0, YamlValue::String(k) if k == "x"));
            assert!(matches!(&entries[0].1, YamlValue::Sequence(v) if v.len() == 2
                && matches!(v[0], YamlValue::Bool(true)) && matches!(v[1], YamlValue::Null)));
        },
        _ => panic!("expected a mapping"),
    }
}

#[test]
fn parse_json_var_reads_yaml_too() {
    let mut a = args();
    a.json_var = Some("author: Me\nyear: 2025".to_string());
    let m = match a.parse_json_var() {
        Ok(m) => m,
        Err(e) => panic!("{}", e),
    };
    assert_eq!(text_of(&m, "author"), Some("Me".to_string()));
    assert!(matches!(m.get(&"year".to_string()), Some(YamlValue::Number(YamlNumber::PosInt(2025)))));
}

#[test]
fn parse_json_var_errors_and_absence() {
    let mut a = args();
    match a.parse_json_var() {
        Ok(m) => assert!(m.is_empty()),
        Err(e) => panic!("{}", e),
    }
    a.json_var = Some(r#"["x"]"#.to_string());
    match a.parse_json_var() {
        Ok(_) => panic!("expected an error"),
        Err(e) => assert_eq!(e, "--json-var must be a JSON object, not an array or primitive"),
    }
    a.json_var = Some("42".to_string());
    assert_eq!(a.parse_json_var().err(), Some("--json-var must be a JSON object, not an array or primitive".to_string()));
    a.json_var = Some("{unclosed".to_string());
    match a.parse_json_var() {
        Ok(_) => panic!("expected an error"),
        Err(e) => {
            assert!(!e.is_empty());
            assert_ne!(e, "--json-var must be a JSON object, not an array or primitive");
        },
    }
}

#[test]
fn from_cli_takes_paths_and_values() {
    let mut a = args();
    a.base_path = Some("/site".to_string());
    a.title = Some("Garage".to_string());
    a.var = vec!["who=var".to_string(), "only=var".to_string()];
    a.json_var = Some(r#"{"who": "json"}"#.to_string());
    let c = match Config::from_cli(&a) {
        Ok(c) => c,
        Err(e) => panic!("{}", e),
    };
    assert_eq!(c.base_path, Some("/site".to_string()));
    assert_eq!(c.title, Some("Garage".to_string()));
    assert_eq!(c.output_path, None);
    assert_eq!(c.default_template, Some("base.html".to_string()));
    // --json-var wins over --var
    assert_eq!(text_of(&c.extra, "who"), Some("json".to_string()));
    assert_eq!(text_of(&c.extra, "only"), Some("var".to_string()));
}

#[test]
fn from_cli_fails_as_the_parsers_do() {
    let mut a = args();
    a.var = vec!["nope".to_string()];
    assert!(Config::from_cli(&a).is_err());
    let mut a = args();
    a.json_var = Some("scalar".to_string());
    match Config::from_cli(&a) {
        Ok(_) => panic!("expected an error"),
        Err(e) => assert_eq!(e, "--json-var must be a JSON object, not an array or primitive"),
    }
}

#[test]
fn from_env_reads_prefixed_variables() {
    let vars = vec![
        ("SITE_TITLE".to_string(), "My Site".to_string()),
        ("SITE_BASE_PATH".to_string(), "/srv/site".to_string()),
        ("SITE_AUTHOR".to_string(), "Me".to_string()),
        ("SITE_Colour".to_string(), "red".to_string()),
        ("OTHER_THING".to_string(), "x".to_string()),
        ("SITE".to_string(), "y".to_string()),
    ];
    let c = Config::from_env("site", &vars);
    assert_eq!(c.title, Some("My Site".to_string()));
    assert_eq!(c.base_path, Some("/srv/site".to_string()));
    assert_eq!(c.locale, None);
    assert_eq!(c.extra.len(), 2);
    assert_eq!(text_of(&c.extra, "author"), Some("Me".to_string()));
    assert_eq!(text_of(&c.extra, "colour"), Some("red".to_string()));
    assert_eq!(text_of(&c.extra, "title"), None);
}

#[test]
fn merge_prefers_the_later_configuration() {
    let mut a = Config::empty();
    a.title = Some("A".to_string());
    a.locale = Some("en".to_string());
    a.extra.insert("k".to_string(), s("a"));
    a.extra.insert("only_a".to_string(), s("a"));
    let mut b = Config::empty();
    b.title = Some("B".to_string());
    b.extra.insert("k".to_string(), s("b"));
    let m = a.merge(b);
    assert_eq!(m.title, Some("B".to_string()));
    assert_eq!(m.locale, Some("en".to_string()));
    assert_eq!(text_of(&m.extra, "k"), Some("b".to_string()));
    assert_eq!(text_of(&m.extra, "only_a"), Some("a".to_string()));
}

#[test]
fn merge_with_empty_changes_nothing() {
    let mut a = Config::empty();
    a.output_path = Some("out".to_string());
    a.extra.insert("k".to_string(), s("v"));
    let m = a.merge(Config::empty());
    assert_eq!(m.output_path, Some("out".to_string()));
    assert_eq!(text_of(&m.extra, "k"), Some("v".to_string()));
    let mut b = Config::empty();
    b.locale = Some("fr".to_string());
    let m = Config::empty().merge(b);
    assert_eq!(m.locale, Some("fr".to_string()));
    assert_eq!(m.title, None);
}

#[test]
fn path_getters_fall_back_to_defaults() {
    let c = Config::empty();
    let base = c.get_base_path();
    assert_eq!(base, ".");
    assert_eq!(c.get_templates_path(&base), "./templates");
    assert_eq!(c.get_static_path(&base), "./static");
    assert_eq!(c.get_content_path(&base), "./content");
    assert_eq!(c.get_output_path(), "./public");
    let mut c = Config::empty();
    c.content_path = Some("pages".to_string());
    c.output_path = Some("dist".to_string());
    assert_eq!(c.get_content_path("/site"), "pages");
    assert_eq!(c.get_templates_path("/site/"), "/site/templates");
    assert_eq!(c.get_output_path(), "dist");
}

#[test]
fn site_meta_takes_title_and_locale() {
    let mut c = Config::empty();
    c.title = Some("T".to_string());
    c.locale = Some("de".to_string());
    c.default_template = Some("main".to_string());
    c.extra.insert("title".to_string(), s("overridden"));
    c.extra.insert("x".to_string(), s("y"));
    let m = c.into_site_meta();
    assert_eq!(m.default_template, Some("main".to_string()));
    assert!(m.navigation.is_empty());
    assert_eq!(text_of(&m.extra, "title"), Some("T".to_string()));
    assert_eq!(text_of(&m.extra, "locale"), Some("de".to_string()));
    assert_eq!(text_of(&m.extra, "x"), Some("y".to_string()));
}

#[test]
fn default_config_prefers_yaml_over_yml() {
    assert_eq!(config_candidates("/site"), vec!["/site/config.yaml".to_string(), "/site/config.yml".to_string()]);
    let both = vec!["/site/config.yml".to_string(), "/site/config.yaml".to_string()];
    assert_eq!(find_default_config("/site", &both), Some("/site/config.yaml".to_string()));
    let yml = vec!["/site/config.yml".to_string()];
    assert_eq!(find_default_config("/site", &yml), Some("/site/config.yml".to_string()));
    assert_eq!(find_default_config("/site", &Vec::new()), None);
}

#[test]
fn commands_dispatch_to_tasks() {
    let cli = Cli {
        command: Commands::Scaffold(ScaffoldArgs { path: Some("here".to_string()), example: "basic".to_string(), list: false }),
        verbose: 0,
        silent: false,
        env_prefix: "SITE".to_string(),
    };
    match handle_command(cli) {
        Task::Scaffold(a) => {
            assert_eq!(a.path, Some("here".to_string()));
            assert_eq!(a.example, "basic");
        },
        Task::Build(..) => panic!("expected scaffold"),
    }
    let cli = Cli { command: Commands::Build(args()), verbose: 2, silent: false, env_prefix: "GS".to_string() };
    match handle_command(cli) {
        Task::Build(a, prefix) => {
            assert_eq!(prefix, "GS");
            assert_eq!(a.default_template, "base.html");
        },
        Task::Scaffold(_) => panic!("expected build"),
    }
}

#[test]
fn log_level_choice() {
    assert_eq!(choose_log_level(true, 3, Some("trace".to_string())), (LogLevel::Error, false));
    assert_eq!(choose_log_level(false, 1, None), (LogLevel::Info, false));
    assert_eq!(choose_log_level(false, 2, None), (LogLevel::Debug, false));
    assert_eq!(choose_log_level(false, 7, None), (LogLevel::Trace, false));
    assert_eq!(choose_log_level(false, 0, None), (LogLevel::Warn, false));
    assert_eq!(choose_log_level(false, 0, Some("DEBUG".to_string())), (LogLevel::Debug, false));
    assert_eq!(choose_log_level(false, 0, Some("Verbose".to_string())), (LogLevel::Trace, false));
    assert_eq!(choose_log_level(false, 0, Some("warning".to_string())), (LogLevel::Warn, false));
    assert_eq!(choose_log_level(false, 0, Some("OFF".to_string())), (LogLevel::Off, false));
    assert_eq!(choose_log_level(false, 0, Some("0".to_string())), (LogLevel::Off, false));
    assert_eq!(choose_log_level(false, 0, Some("loud".to_string())), (LogLevel::Warn, true));
}

#[test]
fn sorted_map_keeps_keys_in_order() {
    let mut m: SortedMap<String, YamlValue> = SortedMap::new();
    m.insert("b".to_string(), s("2"));
    m.insert("a".to_string(), s("1"));
    m.insert("c".to_string(), s("3"));
    m.insert("a".to_string(), s("one"));
    assert_eq!(m.len(), 3);
    assert_eq!(m.key_at(0), "a");
    assert_eq!(m.key_at(1), "b");
    assert_eq!(m.key_at(2), "c");
    assert_eq!(text_of(&m, "a"), Some("one".to_string()));
    assert!(m.remove(&"b".to_string()));
    assert!(!m.remove(&"b".to_string()));
    assert_eq!(m.len(), 2);
    assert!(!m.contains_key(&"b".to_string()));
}

fn config_with(title: Option<&str>, key: &str, value: &str) -> Config {
    let mut c = Config::empty();
    c.title = title.map(|t| t.to_string());
    c.extra.insert(key.to_string(), s(value));
    c
}

#[test]
fn merging_is_associative() {
    let left = config_with(Some("a"), "k", "a").merge(config_with(None, "k", "b")).merge(config_with(Some("c"), "j", "c"));
    let right = config_with(Some("a"), "k", "a").merge(config_with(None, "k", "b").merge(config_with(Some("c"), "j", "c")));
    assert_eq!(left.title, right.title);
    assert_eq!(left.title, Some("c".to_string()));
    assert_eq!(left.extra.len(), right.extra.len());
    assert_eq!(text_of(&left.extra, "k"), text_of(&right.extra, "k"));
    assert_eq!(text_of(&left.extra, "k"), Some("b".to_string()));
    assert_eq!(text_of(&left.extra, "j"), text_of(&right.extra, "j"));
}
