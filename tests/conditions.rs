use mod_manager::mods::conditional::{Condition, ConditionalVariant};
use mod_manager::mods::{GitHost, GitMod, Mod, ModKind, ModSource, NormalMod, SteamMod};

fn base(name: &str, id: &str) -> Mod {
    Mod {
        source: ModSource::Manual,
        kind: ModKind::Normal(NormalMod { enabled: true }),
        name: name.to_string(),
        id: id.to_string(),
        description: String::new(),
        unsafe_api: false,
        settings_fold_open: false,
        tags: None,
    }
}

fn cond(s: &str) -> Condition {
    Condition::new(s).expect("a valid term")
}

#[test]
fn variant_abbreviations() {
    assert_eq!(ConditionalVariant::new("en"), Some(ConditionalVariant::Enabled));
    assert_eq!(ConditionalVariant::new("git"), Some(ConditionalVariant::Git));
    assert_eq!(ConditionalVariant::new("gith"), Some(ConditionalVariant::Github));
    assert_eq!(ConditionalVariant::new("gi"), Some(ConditionalVariant::Git));
    assert_eq!(ConditionalVariant::new("g"), None);
    assert_eq!(ConditionalVariant::new("s"), None);
    assert_eq!(ConditionalVariant::new("st"), Some(ConditionalVariant::Steam));
    assert_eq!(ConditionalVariant::new("xyz"), None);
    assert_eq!(ConditionalVariant::new("t"), None);
    assert_eq!(ConditionalVariant::new("ta"), Some(ConditionalVariant::Tagged));
}

#[test]
fn empty_term_is_none() {
    assert!(Condition::new("").is_none());
    assert!(Condition::new("#nothing").is_none());
    assert!(Condition::new(":").is_none());
    assert!(Condition::new(":!").is_none());
}

#[test]
fn literal_terms_ignore_case() {
    let m = base("Cool Mod", "cool_mod_id");
    assert!(cond("COOL").matches(&m));
    assert!(cond("mod_ID").matches(&m));
    assert!(!cond("other").matches(&m));
}

#[test]
fn meta_terms() {
    let mut m = base("n", "i");
    assert!(cond("#enabled").matches(&m));
    assert!(!cond("#!enabled").matches(&m));
    assert!(cond("#MANUAL").matches(&m));
    assert!(!cond("#steam").matches(&m));
    assert!(cond("#safe").matches(&m));
    m.unsafe_api = true;
    assert!(!cond("#safe").matches(&m));
    m.kind = ModKind::Translation;
    // A translation has no enabled flag: the term lets it through either way.
    assert!(cond("#enabled").matches(&m));
    assert!(cond("#!enabled").matches(&m));
    assert!(cond("#translation").matches(&m));
    m.source = ModSource::Git(GitMod { remote: None, host: GitHost::Gitlab });
    assert!(cond("#git").matches(&m));
    assert!(cond("#gitlab").matches(&m));
    assert!(!cond("#github").matches(&m));
    m.source = ModSource::Steam(SteamMod { workshop_id: "1".to_string() });
    assert!(cond("#steam").matches(&m));
}

#[test]
fn tag_terms() {
    let mut m = base("n", "i");
    assert!(cond(":qual").matches(&m));
    assert!(cond(":!qual").matches(&m));
    assert!(!cond("#tagged").matches(&m));
    m.tags = Some(vec!["quality of life".to_string(), "gameplay".to_string()]);
    assert!(cond("#tagged").matches(&m));
    assert!(cond(":QUAL").matches(&m));
    assert!(!cond(":!qual").matches(&m));
    assert!(!cond(":visual").matches(&m));
    assert!(cond(":!visual").matches(&m));
}

#[test]
fn mod_matches_all_conditions() {
    let m = base("Cool Mod", "cool");
    assert!(m.matches(&[]));
    assert!(m.matches(&[cond("cool"), cond("#enabled")]));
    assert!(!m.matches(&[cond("cool"), cond("#!enabled")]));
}

#[test]
fn special_terms_lists_every_term() {
    let text = Condition::special_terms();
    assert!(text.starts_with("Use :tag or :!tag to search mod tags\nSpecial terms (use with # or #!):\n"));
    assert!(text.ends_with("\ntagged\ntranslation"));
    assert_eq!(text.lines().count(), 2 + 1 + 11);
}

#[test]
fn git_host_from_remote() {
    assert_eq!(GitHost::from_remote(&Some("https://github.com/a/b".to_string())), GitHost::Github);
    assert_eq!(GitHost::from_remote(&Some("git@gitlab.com:a/b".to_string())), GitHost::Gitlab);
    assert_eq!(GitHost::from_remote(&Some("https://example.org".to_string())), GitHost::Other);
    assert_eq!(GitHost::from_remote(&None), GitHost::Other);
}
