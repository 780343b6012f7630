use mod_manager::hierarchy::{split_key, ModSettingsGroup, ModSettingsNode};
use mod_manager::modsettings::{ModSettingPair, ModSettingValue};
use mod_manager::settings::ModSettings;

fn pair(b: bool) -> ModSettingPair {
    ModSettingPair { current: ModSettingValue::Bool(b), next: ModSettingValue::Empty }
}

fn group<'a>(g: &'a ModSettingsGroup, name: &str) -> &'a ModSettingsGroup {
    g.0.iter()
        .find_map(|(n, node)| match node {
            ModSettingsNode::Group(c) if n == name => Some(c),
            _ => None,
        })
        .expect("group")
}

#[test]
fn hierarchy_grouping() {
    let mut s = ModSettings::new();
    s.insert("a.b.c".to_string(), pair(true));
    s.insert("a.b.d".to_string(), pair(false));
    let mut tree = s.grouped();
    assert_eq!(tree.0.len(), 1);
    assert_eq!(tree.0[0].0, "a");
    let a = group(&tree, "a");
    assert_eq!(a.0.len(), 1);
    assert_eq!(a.0[0].0, "b");
    let b = group(a, "b");
    assert_eq!(b.0.len(), 2);
    let names: Vec<&str> = b.0.iter().map(|(n, _)| n.as_str()).collect();
    assert_eq!(names, vec!["c", "d"]);
    for (_, node) in b.0.iter() {
        match node {
            ModSettingsNode::Setting(t) => assert!(!t.included),
            ModSettingsNode::Group(_) => panic!("expected a leaf"),
        }
    }
    assert!(!tree.all_included());
    assert!(tree.to_set().is_empty());

    match &mut tree.0[0].1 {
        ModSettingsNode::Group(a) => a.include_all(true),
        ModSettingsNode::Setting(_) => panic!("expected a group"),
    }
    let a = group(&tree, "a");
    assert!(a.all_included());
    let b = group(a, "b");
    for (_, node) in b.0.iter() {
        match node {
            ModSettingsNode::Setting(t) => assert!(t.included),
            ModSettingsNode::Group(_) => panic!("expected a leaf"),
        }
    }
    let mut keys = tree.to_set();
    keys.sort();
    assert_eq!(keys, vec!["a.b.c".to_string(), "a.b.d".to_string()]);
}

#[test]
fn hierarchy_children_sorted() {
    let mut s = ModSettings::new();
    for k in ["zeta", "alpha.x", "mid", "alpha.a", "Beta", "alpha"] {
        s.insert(k.to_string(), pair(true));
    }
    let tree = s.grouped();
    let names: Vec<&str> = tree.0.iter().map(|(n, _)| n.as_str()).collect();
    assert_eq!(names.len(), 5);
    let mut sorted = names.clone();
    sorted.sort();
    assert_eq!(names, sorted);
    let alpha = group(&tree, "alpha");
    let inner: Vec<&str> = alpha.0.iter().map(|(n, _)| n.as_str()).collect();
    assert_eq!(inner, vec!["a", "x"]);
}

#[test]
fn hierarchy_partial_inclusion() {
    let mut s = ModSettings::new();
    s.insert("g.one".to_string(), pair(true));
    s.insert("g.two".to_string(), pair(true));
    s.insert("top".to_string(), pair(true));
    let mut tree = s.grouped();
    for (name, node) in tree.0.iter_mut() {
        if name == "top" {
            if let ModSettingsNode::Setting(t) = node {
                t.included = true;
            }
        }
    }
    assert!(!tree.all_included());
    assert_eq!(tree.to_set(), vec!["top".to_string()]);
    tree.include_all(true);
    assert!(tree.all_included());
    assert_eq!(tree.to_set().len(), 3);
    tree.include_all(false);
    assert!(tree.to_set().is_empty());
}

#[test]
fn empty_group_is_all_included() {
    assert!(ModSettingsGroup(Vec::new()).all_included());
}

#[test]
fn split_key_segments() {
    assert_eq!(split_key("a.b.c"), vec!["a", "b", "c"]);
    assert_eq!(split_key(""), vec![""]);
    assert_eq!(split_key("a..b."), vec!["a", "", "b", ""]);
    assert_eq!(split_key("ünï.cödé"), vec!["ünï", "cödé"]);
}

fn leaf(name: &str, included: bool) -> (String, ModSettingsNode) {
    (
        name.to_string(),
        ModSettingsNode::Setting(mod_manager::hierarchy::TogglableSetting { pair: pair(true), included }),
    )
}

#[test]
fn sort_orders_every_level_and_keeps_leaves() {
    let inner = ModSettingsGroup(vec![leaf("z", true), leaf("b", false), leaf("m", true)]);
    let mut tree = ModSettingsGroup(vec![
        leaf("q", true),
        ("g".to_string(), ModSettingsNode::Group(inner)),
        leaf("a", false),
        leaf("c", true),
    ]);
    let mut before = tree.to_set();
    before.sort();
    tree.sort();
    let names: Vec<&str> = tree.0.iter().map(|(n, _)| n.as_str()).collect();
    assert_eq!(names, vec!["a", "c", "g", "q"]);
    let g = group(&tree, "g");
    let inner_names: Vec<&str> = g.0.iter().map(|(n, _)| n.as_str()).collect();
    assert_eq!(inner_names, vec!["b", "m", "z"]);
    let after = tree.to_set();
    assert_eq!(after, vec!["c".to_string(), "g.m".to_string(), "g.z".to_string(), "q".to_string()]);
    let mut after_sorted = after.clone();
    after_sorted.sort();
    assert_eq!(before, after_sorted);
}

#[test]
fn grouped_reuses_groups() {
    let mut s = ModSettings::new();
    for k in ["a.b.c", "a.b.d", "a.e", "f"] {
        s.insert(k.to_string(), pair(false));
    }
    let tree = s.grouped();
    let names: Vec<&str> = tree.0.iter().map(|(n, _)| n.as_str()).collect();
    assert_eq!(names, vec!["a", "f"]);
    let a = group(&tree, "a");
    let a_names: Vec<&str> = a.0.iter().map(|(n, _)| n.as_str()).collect();
    assert_eq!(a_names, vec!["b", "e"]);
    assert_eq!(group(a, "b").0.len(), 2);
    let mut tree = tree;
    tree.include_all(true);
    let mut keys = tree.to_set();
    keys.sort();
    assert_eq!(keys, vec!["a.b.c", "a.b.d", "a.e", "f"]);
}
