use modtide::engine::{Metadata, ModEngine, ModState};
use modtide::engine::ModState::{Disabled, Enabled, MissingEntry, NotInstalled};

#[test]
fn state() {

    let header = "-- line1\n-- line2\nbase\ndmf\n--dmf\n";
    let test: &[(&str, &str, ModState)] = &[
        ("on1", "on1/on1.mod", Enabled),
        ("--off1", "off1/off1.mod", Disabled),
        ("not_ins1", "", NotInstalled),
        ("", "miss_ent1/miss_ent1.mod", MissingEntry),
    ];

    let mut load_order = String::from(header);
    for (name, ..) in test {
        load_order.push_str(name);
        load_order.push('\n');
    }

    let mut metas = Vec::new();
    for (_, path, ..) in test {
        metas.push(Metadata::new(path));
    }

    let mut engine = ModEngine::new();
    engine.load(&load_order, metas);
    assert_eq!(engine.mods.len(), test.len());
    for (m, t) in engine.mods.iter().zip(test.iter()) {
        let name = t.1
            .split("/")
            .nth(1)
            .and_then(|s| s.strip_suffix(".mod"))
            .unwrap_or(t.0);

        assert_eq!(m.name(), name);
        assert_eq!(m.state, t.2, "{name}");
    }
}

#[test]
fn sort() {
    let expected: &[&str] = &[
        "abc",
        "load_before1",
        "bca",
        "load_before2",
        "requires",
        "late",
        "aaa",
    ];
    let test: &[(&str, &str)] = &[
        ("aaa", ""),
        ("abc", ""),
        ("bca", ""),
        ("requires", "require = {\"bca\"}"),
        ("load_before1", "load_before = {\"bca\"}"),
        ("load_before2", "load_after = {\"bca\"} require = {\"abc\"}"),
        ("late", "require = {\"requires\"}"),
    ];

    let mut metas = Vec::new();
    for (name, file) in test {
        let path = format!("{name}/{name}.mod");
        metas.push(Metadata::fuzzy_parse_mod(&path, file));
    }

    let mut engine = ModEngine::new();
    engine.load("", metas);
    let missing = engine.sort().unwrap();
    assert!(missing.is_empty());

    let mut failed = None;
    for i in 0..test.len() {
        let a = engine.mods[i].name();
        let b = expected[i];
        if a != b {
            failed = Some((a, b));
            break;
        }
    }

    if let Some((a, b)) = failed {
        for i in 0..test.len() {
            let a = engine.mods[i].name();
            let b = expected[i];
            println!("{a}, {b}");
        }
        panic!("{a} != {b}");
    }
}

#[test]
fn sort_fail() {
    let test: &[(&str, &str)] = &[
        ("aa", "load_before = {\"bb\"}"),
        ("bb", ""),
        ("ba", "require = {\"bb\"} load_before = {\"aa\"}"),
    ];

    let mut metas = Vec::new();
    for (name, file) in test {
        let path = format!("{name}/{name}.mod");
        metas.push(Metadata::fuzzy_parse_mod(&path, file));
    }

    let mut engine = ModEngine::new();
    engine.load("", metas);
    assert!(engine.sort().is_none());
}

#[test]
fn sort_missing_require() {
    let test: &[(&str, &str)] = &[
        ("a", "require = {\"b\"}"),
    ];

    let mut metas = Vec::new();
    for (name, file) in test {
        let path = format!("{name}/{name}.mod");
        metas.push(Metadata::fuzzy_parse_mod(&path, file));
    }

    let mut engine = ModEngine::new();
    engine.load("", metas);
    assert_eq!(1, engine.sort().unwrap().len());
}

#[test]
fn metadata_name_needs_mod_suffix() {
    assert_eq!(Metadata::new("a/a.mod").name().as_deref(), Some("a"));
    assert_eq!(Metadata::new("a\\b.mod").name().as_deref(), Some("b"));
    assert_eq!(Metadata::new("a/b.txt").name(), None);
    assert_eq!(Metadata::new("ab.mod").name(), None);
}

#[test]
fn generate_marks_disabled_and_skips_missing() {
    let metas = vec![
        Metadata::new("on/on.mod"),
        Metadata::new("off/off.mod"),
        Metadata::new("new/new.mod"),
    ];
    let mut engine = ModEngine::new();
    engine.load("-- top\non\n--off\ngone\n", metas);
    let mut out = String::new();
    engine.generate(&mut out);
    assert_eq!(out, "-- top\non\n--off\n--gone\n");
}

#[test]
fn sort_reports_missing_pair() {
    let metas = vec![Metadata::fuzzy_parse_mod("a/a.mod", "require = { \"x\", \"y\" }")];
    let mut engine = ModEngine::new();
    engine.load("", metas);
    let missing = engine.sort().unwrap();
    assert_eq!(missing, vec![
        ("a".to_string(), "x".to_string()),
        ("a".to_string(), "y".to_string()),
    ]);
}

#[test]
fn load_keeps_header_and_reads_states() {
    let mut engine = ModEngine::new();
    engine.load("-- a\n-- b\nx\r\n-- c\n--  y\nbase\n", vec![]);
    assert_eq!(engine.header, "-- a\n-- b\n");
    let got: Vec<(&str, ModState)> = engine.mods.iter().map(|m| (m.name(), m.state.clone())).collect();
    assert_eq!(got, vec![("x", NotInstalled), ("c", NotInstalled), ("y", NotInstalled)]);
}

#[test]
fn parse_reads_lists_and_version() {
    let meta = Metadata::fuzzy_parse_mod(
        "m\\m.mod",
        "version = \"1.2\"\nload_after = { \"a\" , \"b\" }\nrequire = {}\nload_before = \"x\"",
    );
    let mut engine = ModEngine::new();
    engine.load("m\n", vec![meta, Metadata::new("a/a.mod"), Metadata::new("b/b.mod")]);
    assert_eq!(engine.mods[0].path(), "m/m.mod");
    assert_eq!(engine.mods[0].state, Enabled);
    let missing = engine.sort().unwrap();
    assert!(missing.is_empty());
    let names: Vec<&str> = engine.mods.iter().map(|m| m.name()).collect();
    assert_eq!(names, vec!["a", "b", "m"]);
}
