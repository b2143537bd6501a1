use minsec::builtin;
use minsec::config::{layered, merge, BackendKind, Config, CustomFile, FilterConfig, Node};
use minsec::duration::{parse, Duration, HumanDuration};
use minsec::engine::{load_filters, DefSource};
use minsec::filter::{CompiledFilter, FilterDef, JournalSelector};
use minsec::inspection::{
    all_filter_names, check, check_failed, inspect, inspect_filter, names_to_check, path_filter,
    raw_filter_def, toml_files, InspectionFiles,
};
use minsec::sync::nft::parse_entry;

fn custom_def(name: &str) -> FilterDef {
    FilterDef {
        name: name.into(),
        description: String::new(),
        files: vec!["/var/log/x".into()],
        journal: JournalSelector::none(),
        prefilter: vec![],
        patterns: vec!["failed from <HOST>".into()],
        ignore: vec![],
        ports: vec![22],
    }
}

fn tree(t: toml::Table) -> Vec<(String, Node<toml::Value>)> {
    t.into_iter()
        .map(|(k, v)| match v {
            toml::Value::Table(t) => (k, Node::Table(tree(t))),
            v => (k, Node::Leaf(v)),
        })
        .collect()
}

fn duration(v: &toml::Value) -> HumanDuration {
    HumanDuration(parse(v.as_str().unwrap()).unwrap())
}

/// Reads the settings that the tests use; anything else is refused.
fn decode(t: &[(String, Node<toml::Value>)]) -> Result<Config, String> {
    let mut cfg = Config::default();
    for (k, v) in t {
        match (k.as_str(), v) {
            ("defaults", Node::Table(d)) => {
                for (k, v) in d {
                    match (k.as_str(), v) {
                        ("bantime", Node::Leaf(v)) => cfg.defaults.bantime = duration(v),
                        ("maxretry", Node::Leaf(v)) => {
                            cfg.defaults.maxretry = v.as_integer().unwrap() as u32
                        }
                        ("backend", Node::Leaf(v)) => {
                            assert_eq!(v.as_str(), Some("exec"));
                            cfg.defaults.backend = BackendKind::Exec
                        }
                        ("allow", Node::Leaf(v)) => {
                            cfg.defaults.allow = v
                                .as_array()
                                .unwrap()
                                .iter()
                                .map(|n| parse_entry(n.as_str().unwrap(), 4).unwrap())
                                .collect()
                        }
                        _ => return Err(k.clone()),
                    }
                }
            }
            ("filters", Node::Table(fs)) => {
                for (name, f) in fs {
                    let mut fc = FilterConfig::default();
                    let Node::Table(f) = f else { return Err(name.clone()) };
                    for (k, v) in f {
                        match (k.as_str(), v) {
                            ("enabled", Node::Leaf(v)) => fc.enabled = v.as_bool().unwrap(),
                            ("maxretry", Node::Leaf(v)) => {
                                fc.maxretry = Some(v.as_integer().unwrap() as u32)
                            }
                            _ => return Err(k.clone()),
                        }
                    }
                    cfg.filters.insert(name.clone(), fc);
                }
            }
            _ => return Err(k.clone()),
        }
    }
    Ok(cfg)
}

fn config(s: &str) -> Result<Config, String> {
    let cfg = decode(&tree(toml::from_str(s).unwrap()))?;
    cfg.validate().map_err(|e| e.message())?;
    Ok(cfg)
}

#[test]
fn defaults_and_overrides() {
    let cfg = config(
        r#"
[defaults]
bantime = "2h"
allow = ["10.0.0.0/8"]
[filters.sshd]
enabled = true
maxretry = 3
"#,
    )
    .unwrap();
    assert_eq!(cfg.defaults.bantime.secs(), 7200);
    assert_eq!(cfg.defaults.findtime.secs(), 600);
    let def = cfg
        .filter_def("sshd", CustomFile::Missing, Some(Ok(custom_def("sshd"))))
        .unwrap();
    let p = cfg.policy_for("sshd", &def);
    assert_eq!(p.maxretry, 3);
    assert_eq!(p.bantime, Duration::from_secs(7200));
    assert_eq!(cfg.enabled_filters(), vec!["sshd"]);
}

#[test]
fn rejects_bad() {
    assert!(config("[defaults]\nmaxretry = 0").is_err());
    assert!(config("[defaults]\nbackend = \"exec\"").is_err());
    assert!(config("[nope]\nx = 1").is_err());
}

#[test]
fn merge_tables() {
    let mut a = tree(toml::from_str("[defaults]\nbantime='1h'\nmaxretry=5").unwrap());
    let b = tree(toml::from_str("[defaults]\nmaxretry=9\n[filters.sshd]\nenabled=true").unwrap());
    merge(&mut a, b);
    let c = decode(&a).unwrap();
    assert_eq!(c.defaults.maxretry, 9);
    assert_eq!(c.defaults.bantime.secs(), 3600);
    assert!(c.filters.get(&"sshd".to_string()).unwrap().enabled);
}

#[test]
fn the_last_drop_in_wins() {
    let t = |s: &str| tree(toml::from_str(s).unwrap());
    let out = layered(
        t("[defaults]\nmaxretry=1\nbantime='1h'"),
        vec![t("[defaults]\nmaxretry=2\nbantime='2h'"), t("[defaults]\nmaxretry=3")],
    );
    let c = decode(&out).unwrap();
    assert_eq!(c.defaults.maxretry, 3);
    assert_eq!(c.defaults.bantime.secs(), 7200);
}

#[test]
fn drop_ins_are_taken_in_order() {
    let found = ["/c/20-b.toml", "/c/10-a.toml", "/c/readme", "/c/.toml", "/c/x.toml.bak"];
    let found: Vec<String> = found.iter().map(|s| s.to_string()).collect();
    assert_eq!(toml_files(&found), vec!["/c/10-a.toml", "/c/20-b.toml"]);
    assert!(toml_files(&vec!["toml".to_string(), ".toml".to_string()]).is_empty());
}

#[test]
fn a_value_and_a_table_do_not_mix() {
    let mut a = vec![
        ("x".to_string(), Node::Leaf(1)),
        ("y".to_string(), Node::Table(vec![("z".to_string(), Node::Leaf(2))])),
    ];
    merge(
        &mut a,
        vec![
            ("x".to_string(), Node::Table(vec![])),
            ("y".to_string(), Node::Leaf(3)),
        ],
    );
    for (k, v) in &a {
        match (k.as_str(), v) {
            ("x", Node::Table(t)) => assert!(t.is_empty()),
            ("y", Node::Leaf(n)) => assert_eq!(*n, 3),
            _ => panic!("{k}"),
        }
    }
    assert_eq!(a.len(), 2);
}

#[test]
fn every_fault_has_its_message() {
    let message = |f: &dyn Fn(&mut Config)| {
        let mut cfg = Config::default();
        f(&mut cfg);
        cfg.validate().unwrap_err().message()
    };
    assert_eq!(message(&|c| c.defaults.maxretry = 33), "defaults.maxretry must be 1..=32");
    assert_eq!(
        message(&|c| c.defaults.findtime = HumanDuration(Duration::from_secs(0))),
        "defaults.findtime must be > 0"
    );
    assert_eq!(message(&|c| c.defaults.ipv6_prefix = 129), "defaults.ipv6_prefix must be 1..=128");
    assert_eq!(
        message(&|c| c.defaults.backend = BackendKind::Exec),
        "defaults.exec_command is required for the exec backend"
    );
    assert_eq!(
        message(&|c| {
            for name in ["zz", "bad"] {
                let mut f = FilterConfig::default();
                f.maxretry = Some(0);
                c.filters.insert(name.into(), f);
            }
        }),
        "filters.bad.maxretry must be 1..=32"
    );
    assert!(Config::default().validate().is_ok());
}

#[test]
fn definitions_resolve() {
    let mut cfg = Config::default();
    cfg.config_dir = "/etc/minsec".into();
    let mut f = FilterConfig::default();
    f.files = Some(vec!["/srv/log".into()]);
    f.ports = Some(vec![2222]);
    cfg.filters.insert("a".into(), f);
    let d = cfg.filter_def("a", CustomFile::Parsed { def: custom_def("a") }, None).unwrap();
    assert_eq!((d.files, d.ports), (vec!["/srv/log".to_string()], vec![2222]));
    let err = |c: CustomFile, b: Option<Result<FilterDef, String>>| {
        cfg.filter_def("q", c, b).unwrap_err()
    };
    assert_eq!(
        err(CustomFile::Missing, None),
        "unknown filter `q` (no built-in and no /etc/minsec/filters/q.toml)"
    );
    assert_eq!(
        err(CustomFile::Malformed { error: "bad".into() }, None),
        "/etc/minsec/filters/q.toml: bad"
    );
    assert_eq!(
        err(CustomFile::Unreadable { error: "denied".into() }, None),
        "/etc/minsec/filters/q.toml: denied"
    );
    assert_eq!(err(CustomFile::Missing, Some(Err("broken".into()))), "broken");
}

#[test]
fn built_in_filters_by_name() {
    let defs: Vec<Result<FilterDef, String>> = builtin::names()
        .iter()
        .map(|n| if n == "webmin" { Err("bad".into()) } else { Ok(custom_def(n)) })
        .collect();
    assert_eq!(defs.len(), 10);
    assert_eq!(builtin::get("nginx-auth", &defs).unwrap().unwrap().name, "nginx-auth");
    assert_eq!(builtin::get("webmin", &defs).unwrap().unwrap_err(), "builtin filter `webmin`: bad");
    assert!(builtin::get("nope", &defs).is_none());
}

#[test]
fn good_built_in_definitions_compile() {
    let defs: Vec<Result<FilterDef, String>> =
        builtin::names().iter().map(|n| Ok(custom_def(n))).collect();
    for name in builtin::names() {
        let def = builtin::get(&name, &defs).unwrap().unwrap();
        assert_eq!(def.name, name);
        assert!(CompiledFilter::compile(def).is_ok());
    }
}

fn source(name: &str) -> DefSource {
    DefSource {
        custom: CustomFile::Parsed { def: custom_def(name) },
        is_file: true,
        builtin: None,
    }
}

#[test]
fn filters_load_in_order() {
    let mut cfg = Config::default();
    for (name, enabled) in [("b", true), ("a", true), ("c", false)] {
        let mut f = FilterConfig::default();
        f.enabled = enabled;
        cfg.filters.insert(name.into(), f);
    }
    let loaded = load_filters(&cfg, vec![source("a"), source("b")]).unwrap();
    assert_eq!(loaded.iter().map(|f| f.name()).collect::<Vec<_>>(), vec!["a", "b"]);
    let mut bad = source("b");
    bad.custom = CustomFile::Parsed { def: FilterDef { patterns: vec![], ..custom_def("b") } };
    assert_eq!(
        load_filters(&cfg, vec![source("a"), bad]).err().unwrap(),
        "filter `b` has no patterns"
    );
    let mut by_hand = source("b");
    by_hand.custom = CustomFile::Parsed {
        def: FilterDef { patterns: vec!["(?P<host>x)".into()], ..custom_def("b") },
    };
    assert!(load_filters(&cfg, vec![source("a"), by_hand]).is_ok());
}

#[test]
fn a_directory_is_no_definition_file() {
    let cfg = Config::default();
    let src = |is_file: bool, builtin: Option<Result<FilterDef, String>>| DefSource {
        custom: CustomFile::Unreadable { error: "is a directory".into() },
        is_file,
        builtin,
    };
    let raw = |s: DefSource| raw_filter_def("sshd", "/f/sshd.toml", &s);
    assert_eq!(raw(src(true, Some(Ok(custom_def("sshd"))))).unwrap_err(), "is a directory");
    assert_eq!(raw(src(false, Some(Ok(custom_def("sshd"))))).unwrap().name, "sshd");
    assert_eq!(raw(src(false, None)).unwrap_err(), "unknown filter `sshd`");
    // The effective definition still cannot be had.
    let e = inspect_filter(&cfg, "sshd", src(false, Some(Ok(custom_def("sshd"))))).unwrap_err();
    assert_eq!(e, "filters/sshd.toml: is a directory");
    assert_eq!(inspect_filter(&cfg, "sshd", src(false, None)).unwrap_err(), "unknown filter `sshd`");
}

#[test]
fn a_check_covers_all_filters_or_the_enabled_ones() {
    let mut cfg = Config::default();
    for (name, enabled) in [("mine", true), ("other", false)] {
        let mut f = FilterConfig::default();
        f.enabled = enabled;
        cfg.filters.insert(name.into(), f);
    }
    let found = files(&["/etc/minsec/filters/extra.toml"]);
    assert_eq!(names_to_check(&cfg, &found, false), vec!["mine"]);
    let all = names_to_check(&cfg, &found, true);
    assert_eq!(all, all_filter_names(&cfg, &found));
    assert!(all.contains(&"extra".to_string()) && all.contains(&"sshd".to_string()));
}

fn files(custom: &[&str]) -> InspectionFiles {
    InspectionFiles {
        main: Some("/etc/minsec/minsec.toml".into()),
        dropins: vec!["/etc/minsec/conf.d/10-local.toml".into()],
        custom_filters: custom.iter().map(|s| s.to_string()).collect(),
    }
}

fn sources(names: &[String]) -> Vec<DefSource> {
    names
        .iter()
        .map(|n| if n == "custom" {
            source(n)
        } else {
            DefSource { custom: CustomFile::Missing, is_file: false, builtin: Some(Ok(custom_def(n))) }
        })
        .collect()
}

#[test]
fn inspection_reports_merged_configuration_and_custom_filters() {
    let mut a = tree(
        toml::from_str("[defaults]\nbantime = \"2h\"\n[filters.sshd]\nenabled = true\n").unwrap(),
    );
    merge(&mut a, tree(toml::from_str("[defaults]\nmaxretry = 7\n").unwrap()));
    let mut cfg = decode(&a).unwrap();
    cfg.config_dir = "/etc/minsec".into();
    let files = files(&["/etc/minsec/filters/custom.toml"]);
    let names = all_filter_names(&cfg, &files);
    assert_eq!(names.len(), 11);
    let mut sorted = names.clone();
    sorted.sort();
    assert_eq!(names, sorted);
    let i = inspect(&cfg, files, "test-version", &names, sources(&names)).unwrap();
    assert_eq!(i.schema_version, 1);
    assert_eq!(i.effective.defaults.bantime_seconds, 7200);
    assert_eq!(i.effective.defaults.maxretry, 7);
    assert!(i.filters.iter().any(|f| f.name == "custom" && !f.enabled && !f.builtin
        && f.source == "/etc/minsec/filters/custom.toml"));
    assert!(i.filters.iter().any(|f| f.name == "sshd" && f.enabled && f.source == "built-in"));
    assert_eq!(i.files.dropins.len(), 1);
    assert_eq!(i.files.custom_filters.len(), 1);
    assert_eq!(i.paths.events_file, "/var/lib/minsec/events.jsonl");
    assert_eq!(i.effective.defaults.escalate.max_seconds, 604_800);
}

#[test]
fn check_compiles_what_it_is_given() {
    let cfg = Config::default();
    let names = all_filter_names(&cfg, &files(&["/x/custom.toml"]));
    let all = check(&cfg, names.clone(), sources(&names));
    assert!(all.ok);
    assert!(all.checked_filters.contains(&"custom".to_string()));
    let enabled = check(&cfg, cfg.enabled_filters(), vec![]);
    assert!(enabled.ok && enabled.checked_filters.is_empty());
    let bad = check(
        &cfg,
        vec!["a".into(), "b".into()],
        vec![source("a"), DefSource { custom: CustomFile::Missing, is_file: false, builtin: None }],
    );
    assert!(!bad.ok);
    assert_eq!(bad.errors.len(), 1);
    assert_eq!(bad.errors[0].filter.as_deref(), Some("b"));
    assert_eq!(check_failed("boom".into()).errors[0].error, "boom");
}

#[test]
fn definition_files_name_their_filter() {
    assert_eq!(path_filter("/etc/minsec/filters/my.app.toml"), "my.app");
    assert_eq!(path_filter("plain"), "plain");
    assert_eq!(path_filter("/x/.toml"), ".toml");
}
