use mod_manager::error::SettingsError;
use mod_manager::modpack::{ModPack, PackLoadError, PackSection};
use mod_manager::mods::{Mod, ModKind, ModSource, NormalMod};
use mod_manager::modsettings::{ModSettingPair, ModSettingValue};
use mod_manager::settings::ModSettings;

fn normal(id: &str, enabled: bool) -> Mod {
    Mod {
        source: ModSource::Manual,
        kind: ModKind::Normal(NormalMod { enabled }),
        name: id.to_string(),
        id: id.to_string(),
        description: String::new(),
        unsafe_api: false,
        settings_fold_open: false,
        tags: None,
    }
}

fn enabled(m: &Mod) -> Option<bool> {
    match m.kind {
        ModKind::Normal(n) => Some(n.enabled),
        _ => None,
    }
}

fn pair(s: &str) -> ModSettingPair {
    ModSettingPair {
        current: ModSettingValue::String(s.to_string()),
        next: ModSettingValue::Empty,
    }
}

#[test]
fn pack_future_version_is_rejected() {
    let mut data = 1u64.to_le_bytes().to_vec();
    data.extend_from_slice(&[0xff; 3]);
    let expected = PackLoadError {
        section: PackSection::Version,
        error: SettingsError::UnsupportedSchemaVersion(1),
    };
    assert_eq!(ModPack::load(&data, "p".to_string()).unwrap_err(), expected);
    assert_eq!(ModPack::load(&1u64.to_le_bytes(), "p".to_string()).unwrap_err(), expected);
}

#[test]
fn pack_round_trip_keeps_selected_settings() {
    let mut s = ModSettings::new();
    s.insert("keep.me".to_string(), pair("yes"));
    s.insert("drop.me".to_string(), pair("no"));
    let mods = vec!["b".to_string(), "a".to_string()];
    let pack = ModPack::new("My pack".to_string(), "pack.bin".to_string(), &mods, &s);
    assert_eq!(pack.name(), "My pack");
    assert_eq!(pack.file_name(), "pack.bin");

    let mut tree = s.grouped();
    for (name, node) in tree.0.iter_mut() {
        if name == "keep" {
            if let mod_manager::hierarchy::ModSettingsNode::Group(g) = node {
                g.include_all(true);
            }
        }
    }
    let bytes = pack.save(&tree).unwrap();
    assert_eq!(&bytes[0..8], &0u64.to_le_bytes());
    assert_eq!(&bytes[8..16], &7u64.to_le_bytes());
    assert_eq!(&bytes[16..23], b"My pack");
    let loaded = ModPack::load(&bytes, "other.bin".to_string()).unwrap();
    assert_eq!(loaded.name(), "My pack");
    assert_eq!(loaded.file_name(), "other.bin");
    assert_eq!(loaded.mods(), &mods);
    assert_eq!(loaded.settings().len(), 1);
    assert!(loaded.settings().get("keep.me").is_some());
    assert!(loaded.settings().get("drop.me").is_none());
}

#[test]
fn pack_truncated_is_short_read() {
    let mut data = 0u64.to_le_bytes().to_vec();
    data.extend_from_slice(&10u64.to_le_bytes());
    data.extend_from_slice(b"abc");
    assert_eq!(
        ModPack::load(&data, String::new()).unwrap_err(),
        PackLoadError { section: PackSection::Name, error: SettingsError::ShortRead }
    );
    let mut data = 0u64.to_le_bytes().to_vec();
    data.extend_from_slice(&1u64.to_le_bytes());
    data.extend_from_slice(b"n");
    data.extend_from_slice(&2u64.to_le_bytes());
    data.extend_from_slice(&1u64.to_le_bytes());
    data.extend_from_slice(b"a");
    data.extend_from_slice(&5u64.to_le_bytes());
    assert_eq!(
        ModPack::load(&data, String::new()).unwrap_err(),
        PackLoadError { section: PackSection::ModId(1), error: SettingsError::ShortRead }
    );
}

#[test]
fn apply_semantics() {
    let mut mods = vec![normal("A", false), normal("B", true), normal("C", false)];
    let ids = vec!["C".to_string(), "A".to_string()];
    let pack = ModPack::new("p".to_string(), String::new(), &ids, &ModSettings::new());
    let mut settings = ModSettings::new();
    pack.apply(&mut mods, &mut settings);
    let a = mods.iter().find(|m| m.id == "A").unwrap();
    let b = mods.iter().find(|m| m.id == "B").unwrap();
    let c = mods.iter().find(|m| m.id == "C").unwrap();
    assert_eq!(enabled(a), Some(true));
    assert_eq!(enabled(b), Some(false));
    assert_eq!(enabled(c), Some(true));
    let on: Vec<&str> = mods
        .iter()
        .filter(|m| enabled(m) == Some(true))
        .map(|m| m.id.as_str())
        .collect();
    assert_eq!(on, vec!["C", "A"]);
    let order: Vec<&str> = mods.iter().map(|m| m.id.as_str()).collect();
    assert_eq!(order, vec!["C", "B", "A"]);
}

#[test]
fn apply_keeps_unlisted_in_place_and_skips_flagless_kinds() {
    let mut t = normal("T", true);
    t.kind = ModKind::Translation;
    let mut mods = vec![normal("x", true), t, normal("y", false), normal("z", true), normal("w", false)];
    let ids = vec!["w".to_string(), "T".to_string(), "x".to_string()];
    let pack = ModPack::new("p".to_string(), String::new(), &ids, &ModSettings::new());
    let mut settings = ModSettings::new();
    pack.apply(&mut mods, &mut settings);
    let order: Vec<&str> = mods.iter().map(|m| m.id.as_str()).collect();
    assert_eq!(order, vec!["w", "T", "y", "z", "x"]);
    assert!(matches!(mods[1].kind, ModKind::Translation));
    assert_eq!(enabled(&mods[0]), Some(true));
    assert_eq!(enabled(&mods[2]), Some(false));
    assert_eq!(enabled(&mods[3]), Some(false));
    assert_eq!(enabled(&mods[4]), Some(true));
}

#[test]
fn apply_merges_settings_last_writer_wins() {
    let mut pack_settings = ModSettings::new();
    pack_settings.insert("shared".to_string(), pair("pack"));
    pack_settings.insert("new".to_string(), pair("pack"));
    let pack = ModPack::new("p".to_string(), String::new(), &[], &pack_settings);
    let mut settings = ModSettings::new();
    settings.insert("shared".to_string(), pair("mine"));
    settings.insert("own".to_string(), pair("mine"));
    let mut mods = Vec::new();
    pack.apply(&mut mods, &mut settings);
    assert_eq!(settings.len(), 3);
    match &settings.get("shared").unwrap().current {
        ModSettingValue::String(s) => assert_eq!(s, "pack"),
        _ => panic!("expected a string"),
    }
    match &settings.get("own").unwrap().current {
        ModSettingValue::String(s) => assert_eq!(s, "mine"),
        _ => panic!("expected a string"),
    }
}
