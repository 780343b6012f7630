use mod_manager::mods::{
    mod_config_text, parse_tags, sort_mods, ConfigError, Mod, ModConfigItem, ModKind, ModManifest,
    ModSource, NormalMod, SteamMod,
};

fn normal(id: &str, enabled: bool) -> Mod {
    Mod {
        source: ModSource::Manual,
        kind: ModKind::Normal(NormalMod { enabled }),
        name: id.to_string(),
        id: id.to_string(),
        description: String::new(),
        unsafe_api: false,
        settings_fold_open: false,
        tags: None,
    }
}

fn item(id: &str, enabled: bool) -> ModConfigItem {
    ModConfigItem { id: id.to_string(), enabled }
}

fn enabled(m: &Mod) -> Option<bool> {
    match m.kind {
        ModKind::Normal(n) => Some(n.enabled),
        _ => None,
    }
}

#[test]
fn sort_mods_follows_config() {
    let mut gm = normal("gm", false);
    gm.kind = ModKind::Gamemode;
    let mods = vec![normal("a", false), normal("b", true), gm, normal("unlisted", true)];
    let config = vec![item("gm", true), item("b", false), item("missing", true), item("a", true)];
    let sorted = sort_mods(&mods, &config).unwrap();
    let ids: Vec<&str> = sorted.iter().map(|m| m.id.as_str()).collect();
    assert_eq!(ids, vec!["gm", "b", "a"]);
    assert!(matches!(sorted[0].kind, ModKind::Gamemode));
    assert_eq!(enabled(&sorted[1]), Some(false));
    assert_eq!(enabled(&sorted[2]), Some(true));
}

#[test]
fn sort_mods_rejects_duplicate_ids() {
    let mods = vec![normal("a", false), normal("b", true), normal("a", true)];
    let err = sort_mods(&mods, &[item("a", true)]).unwrap_err();
    assert_eq!(err.id, "a");
}

#[test]
fn config_item_from_attributes() {
    let it = ModConfigItem::from_attributes(Some("x".to_string()), Some("1".to_string())).unwrap();
    assert_eq!(it.id, "x");
    assert!(it.enabled);
    let it = ModConfigItem::from_attributes(Some("x".to_string()), Some("0".to_string())).unwrap();
    assert!(!it.enabled);
    let it = ModConfigItem::from_attributes(Some("x".to_string()), Some("true".to_string())).unwrap();
    assert!(!it.enabled);
    assert!(matches!(
        ModConfigItem::from_attributes(None, Some("1".to_string())),
        Err(ConfigError::MissingName)
    ));
    assert!(matches!(
        ModConfigItem::from_attributes(Some("x".to_string()), None),
        Err(ConfigError::MissingEnabled)
    ));
}

#[test]
fn mod_config_text_lines() {
    let mut steam = normal("s", true);
    steam.source = ModSource::Steam(SteamMod { workshop_id: "123".to_string() });
    steam.settings_fold_open = true;
    let mut tr = normal("t", true);
    tr.kind = ModKind::Translation;
    let text = mod_config_text(&[steam, tr]);
    assert_eq!(
        text,
        "<Mods>\n\t<Mod enabled=\"1\" name=\"s\" settings_fold_open=\"1\" workshop_item_id=\"123\" />\n\t<Mod enabled=\"0\" name=\"t\" settings_fold_open=\"0\" workshop_item_id=\"0\" />\n</Mods>"
    );
    assert_eq!(mod_config_text(&[]), "<Mods>\n</Mods>");
}

#[test]
fn tags_are_split_and_trimmed() {
    assert_eq!(parse_tags(""), None);
    assert_eq!(
        parse_tags("quality of life, gameplay ,x"),
        Some(vec!["quality of life".to_string(), "gameplay".to_string(), "x".to_string()])
    );
}

#[test]
fn mod_from_manifest() {
    let manifest = ModManifest {
        name: None,
        description: Some("line one\\nline two".to_string()),
        is_translation: Some("0".to_string()),
        is_game_mode: Some("1".to_string()),
        settings_fold_open: Some("1".to_string()),
        request_no_api_restrictions: None,
    };
    let m = Mod::from_manifest(manifest, "id".to_string(), ModSource::Manual, None);
    assert_eq!(m.name, "unnamed");
    assert_eq!(m.description, "line one\nline two");
    assert!(matches!(m.kind, ModKind::Gamemode));
    assert!(m.settings_fold_open);
    assert!(!m.unsafe_api);
    let plain = ModManifest {
        name: Some("N".to_string()),
        description: None,
        is_translation: None,
        is_game_mode: None,
        settings_fold_open: None,
        request_no_api_restrictions: Some("1".to_string()),
    };
    let m = Mod::from_manifest(plain, "id".to_string(), ModSource::Manual, None);
    assert_eq!(m.name, "N");
    assert_eq!(m.description, "");
    assert_eq!(enabled(&m), Some(false));
    assert!(m.unsafe_api);
}

#[test]
fn mod_duplicate_is_equal() {
    let mut m = normal("a", true);
    m.tags = Some(vec!["t".to_string()]);
    let d = m.duplicate();
    assert_eq!(d.id, m.id);
    assert_eq!(d.tags, m.tags);
    assert_eq!(enabled(&d), Some(true));
}
