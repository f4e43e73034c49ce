use fcheckd::config::{
    check_path, check_script, combine_event_flags, config_path_in_use, flag_name, home_config_path,
    is_absolute, join, parse_events, Cfg, CfgEntry, ConfigError, RawCfgEntry,
};

fn p(s: &str) -> Vec<u8> {
    s.as_bytes().to_vec()
}

fn names(list: &[&str]) -> Vec<String> {
    list.iter().map(|s| s.to_string()).collect()
}

fn raw(path: &str, script: &str, events: &[&str]) -> RawCfgEntry {
    RawCfgEntry {
        path: p(path),
        recursive: false,
        script: p(script),
        events: names(events),
        path_exists: true,
        script_exists: true,
    }
}

fn unknown_event(r: Result<u32, ConfigError>) -> String {
    match r {
        Err(ConfigError::UnknownEvent(n)) => n,
        _ => panic!("expected an unknown event"),
    }
}

#[test]
fn single_event_name_gives_its_flag() {
    assert_eq!(parse_events(&names(&["create"])).ok(), Some(0x100));
    assert_eq!(parse_events(&names(&["delete"])).ok(), Some(0x200));
}

#[test]
fn event_names_are_matched_without_regard_to_case() {
    assert_eq!(parse_events(&names(&["CREATE"])).ok(), Some(0x100));
    assert_eq!(parse_events(&names(&["Close_Write"])).ok(), Some(0x8));
}

#[test]
fn event_names_combine_into_one_mask() {
    assert_eq!(parse_events(&names(&["create", "delete", "modify"])).ok(), Some(0x302));
    assert_eq!(parse_events(&names(&["close"])).ok(), Some(0x18));
    assert_eq!(parse_events(&names(&[])).ok(), Some(0));
}

#[test]
fn unknown_event_name_is_refused_with_the_first_one() {
    assert_eq!(unknown_event(parse_events(&names(&["create", "bogus", "nope"]))), "bogus");
    assert_eq!(unknown_event(parse_events(&names(&[""]))), "");
    assert_eq!(unknown_event(parse_events(&names(&["in_create"]))), "in_create");
}

#[test]
fn flag_names_are_prefixed_with_in() {
    assert_eq!(flag_name("CREATE"), "IN_CREATE");
    assert_eq!(flag_name(""), "IN_");
}

#[test]
fn combining_looked_up_flags() {
    let n = names(&["a", "b", "c"]);
    assert_eq!(combine_event_flags(&n, &vec![Some(1), Some(4), Some(1)]).ok(), Some(5));
    assert_eq!(unknown_event(combine_event_flags(&n, &vec![Some(1), None, None])), "b");
    assert_eq!(unknown_event(combine_event_flags(&n, &vec![None, Some(2), None])), "a");
}

#[test]
fn absolute_paths_start_with_the_root() {
    assert!(is_absolute(&p("/etc")));
    assert!(!is_absolute(&p("etc")));
    assert!(!is_absolute(&p("")));
    assert!(!is_absolute(&p("./x")));
}

#[test]
fn watched_path_must_be_absolute_and_exist() {
    assert_eq!(check_path(p("/w"), true).ok(), Some(p("/w")));
    assert!(matches!(check_path(p("w"), true), Err(ConfigError::NotAbsolute(x)) if x == p("w")));
    assert!(matches!(check_path(p("w"), false), Err(ConfigError::NotAbsolute(_))));
    assert!(matches!(check_path(p("/w"), false), Err(ConfigError::WatchedMissing(x)) if x == p("/w")));
}

#[test]
fn script_must_be_absolute_and_exist() {
    assert_eq!(check_script(p("/s.sh"), true).ok(), Some(p("/s.sh")));
    assert!(matches!(check_script(p("s.sh"), true), Err(ConfigError::NotAbsolute(_))));
    assert!(matches!(check_script(p("/s.sh"), false), Err(ConfigError::ScriptMissing(x)) if x == p("/s.sh")));
}

#[test]
fn entry_is_validated_events_then_path_then_script() {
    let mut r = raw("rel", "rel.sh", &["bogus"]);
    r.path_exists = false;
    assert!(matches!(CfgEntry::from_raw(r), Err(ConfigError::UnknownEvent(n)) if n == "bogus"));
    let mut r = raw("rel", "rel.sh", &["create"]);
    r.path_exists = false;
    assert!(matches!(CfgEntry::from_raw(r), Err(ConfigError::NotAbsolute(x)) if x == p("rel")));
    let mut r = raw("/w", "rel.sh", &["create"]);
    r.script_exists = false;
    assert!(matches!(CfgEntry::from_raw(r), Err(ConfigError::NotAbsolute(x)) if x == p("rel.sh")));
    let mut r = raw("/w", "/s.sh", &["create"]);
    r.recursive = true;
    let e = CfgEntry::from_raw(r).ok().unwrap();
    assert_eq!(e.path, p("/w"));
    assert_eq!(e.script, p("/s.sh"));
    assert!(e.recursive);
    assert_eq!(e.events, 0x100);
}

#[test]
fn config_keeps_entries_in_order_and_the_command_line_path() {
    let cfg = Cfg::init(Some(p("/c.toml")), vec![raw("/a", "/s", &["create"]), raw("/b", "/s", &["delete"])])
        .ok()
        .unwrap();
    assert_eq!(cfg.entry.len(), 2);
    assert_eq!(cfg.entry[0].path, p("/a"));
    assert_eq!(cfg.entry[1].path, p("/b"));
    assert_eq!(cfg.entry[1].events, 0x200);
    assert_eq!(cfg.cli_config_path, Some(p("/c.toml")));
}

#[test]
fn config_is_refused_by_its_first_bad_entry() {
    let mut missing = raw("/gone", "/s", &["create"]);
    missing.path_exists = false;
    let r = Cfg::init(None, vec![raw("/a", "/s", &["create"]), missing, raw("b", "/s", &["create"])]);
    assert!(matches!(r, Err(ConfigError::WatchedMissing(x)) if x == p("/gone")));
    let empty = Cfg::init(None, vec![]).ok().unwrap();
    assert!(empty.entry.is_empty());
    assert_eq!(empty.cli_config_path, None);
}

#[test]
fn join_adds_one_separator() {
    assert_eq!(join(&p("/home/u"), &p("x/y")), p("/home/u/x/y"));
    assert_eq!(join(&p("/home/u/"), &p("x")), p("/home/u/x"));
    assert_eq!(join(&p(""), &p("x")), p("x"));
    assert_eq!(join(&p("/home/u"), &p("/abs")), p("/abs"));
}

#[test]
fn home_config_lies_below_the_home_directory() {
    assert_eq!(home_config_path(Some(p("/home/u"))), Some(p("/home/u/.config/fcheckd/config.toml")));
    assert_eq!(home_config_path(None), None);
}

#[test]
fn config_path_prefers_command_line_then_home_then_etc() {
    assert_eq!(config_path_in_use(&Some(p("/my.toml")), Some(p("/home/u"))), p("/my.toml"));
    assert_eq!(config_path_in_use(&None, Some(p("/home/u"))), p("/home/u/.config/fcheckd/config.toml"));
    assert_eq!(config_path_in_use(&None, None), p("/etc/fcheckd/config.toml"));
}

#[test]
fn event_mask_ignores_order_repetition_and_case() {
    let m1 = parse_events(&names(&["create", "delete", "create"])).ok();
    let m2 = parse_events(&names(&["DELETE", "Create"])).ok();
    assert_eq!(m1, Some(0x300));
    assert_eq!(m1, m2);
}

#[test]
fn event_names_cover_the_whole_flag_table() {
    assert_eq!(parse_events(&names(&["move"])).ok(), Some(0xc0));
    assert_eq!(parse_events(&names(&["all_events"])).ok(), Some(0xfff));
    assert_eq!(parse_events(&names(&["oneshot", "onlydir"])).ok(), Some(0x8100_0000));
    assert_eq!(parse_events(&names(&["unmount", "q_overflow", "ignored"])).ok(), Some(0xe000));
    assert_eq!(unknown_event(parse_events(&names(&["excl_unlink"]))), "excl_unlink");
}
