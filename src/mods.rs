use vstd::prelude::*;

use crate::ext::str_eq;
use crate::hierarchy::{split_at_char, split_on};
use crate::modpack::with_enabled;
use crate::mods::conditional::{condition_matches, Condition};

pub mod conditional;

verus! {

/// Where a git mod's remote is hosted.
#[derive(Debug, Clone, Copy, PartialEq, Eq, Structural)]
pub enum GitHost {
    Github,
    Gitlab,
    Other,
}

/// A mod installed from a git checkout.
#[derive(Debug, Clone)]
pub struct GitMod {
    pub remote: Option<String>,
    pub host: GitHost,
}

/// A mod installed from the Steam workshop.
#[derive(Debug, Clone)]
pub struct SteamMod {
    pub workshop_id: String,
}

/// A mod installed from mod.io's workshop.
#[derive(Debug, Clone)]
pub struct ModWorkshopMod {
    pub link: String,
}

/// Where a mod came from.
#[derive(Debug, Clone)]
pub enum ModSource {
    Git(GitMod),
    Steam(SteamMod),
    ModWorkshop(ModWorkshopMod),
    Manual,
}

/// The state of a mod that can be switched on and off.
#[derive(Debug, Clone, Copy, PartialEq, Eq, Structural)]
pub struct NormalMod {
    pub enabled: bool,
}

/// What kind of mod this is; only a normal mod has an enabled flag.
#[derive(Debug, Clone, Copy, PartialEq, Eq, Structural)]
pub enum ModKind {
    Normal(NormalMod),
    Translation,
    Gamemode,
}

/// An installed mod.
#[derive(Debug, Clone)]
pub struct Mod {
    pub source: ModSource,
    pub kind: ModKind,
    pub name: String,
    pub id: String,
    pub description: String,
    pub unsafe_api: bool,
    /// Kept only to be written back to the mod config as it was read.
    pub settings_fold_open: bool,
    pub tags: Option<Vec<String>>,
}

/// Whether every condition of `conditions` holds of `m`.
pub open spec fn all_match(conditions: Seq<Condition>, m: Mod) -> bool {
    forall|i: int| 0 <= i < conditions.len() ==> condition_matches(#[trigger] conditions[i], m)
}

/// The host a remote URL names: GitHub where it mentions "github", else
/// GitLab where it mentions "gitlab".
pub open spec fn host_of(url: Seq<char>) -> GitHost {
    if crate::mods::conditional::contains_seq(url, seq!['g', 'i', 't', 'h', 'u', 'b']) {
        GitHost::Github
    } else if crate::mods::conditional::contains_seq(url, seq!['g', 'i', 't', 'l', 'a', 'b']) {
        GitHost::Gitlab
    } else {
        GitHost::Other
    }
}

impl GitHost {
    /// The host of a remote URL, or `Other` without one.
    pub fn from_remote(remote: &Option<String>) -> (r: GitHost)
        ensures
            r == match remote {
                Some(url) => host_of(url@),
                None => GitHost::Other,
            },
    {
        match remote {
            Some(url) => {
                proof {
                    reveal_strlit("github");
                    reveal_strlit("gitlab");
                    assert("github"@ =~= seq!['g', 'i', 't', 'h', 'u', 'b']);
                    assert("gitlab"@ =~= seq!['g', 'i', 't', 'l', 'a', 'b']);
                }
                if crate::mods::conditional::str_contains(url.as_str(), "github") {
                    GitHost::Github
                } else if crate::mods::conditional::str_contains(url.as_str(), "gitlab") {
                    GitHost::Gitlab
                } else {
                    GitHost::Other
                }
            },
            None => GitHost::Other,
        }
    }
}

impl Mod {
    /// Whether every search condition holds of this mod; true for none.
    pub fn matches(&self, conditions: &[Condition]) -> (r: bool)
        ensures
            r == all_match(conditions@, *self),
    {
        let mut i: usize = 0;
        while i < conditions.len()
            invariant
                i <= conditions@.len(),
                forall|k: int| 0 <= k < i ==> condition_matches(#[trigger] conditions@[k], *self),
            decreases conditions@.len() - i,
        {
            if !conditions[i].matches(self) {
                return false;
            }
            i = i + 1;
        }
        true
    }
}

/// An entry of the game's mod config: a mod id and whether it is enabled.
#[derive(Debug, Clone)]
pub struct ModConfigItem {
    pub id: String,
    /// Read from the config as it stands; meaningless for a mod without an enabled flag.
    pub enabled: bool,
}

/// Why an entry of the mod config could not be read.
#[derive(Debug, Clone, Copy, PartialEq, Eq, Structural)]
pub enum ConfigError {
    MissingName,
    MissingEnabled,
}

/// Two loaded mods with the same id.
#[derive(Debug, Clone)]
pub struct DuplicateModId {
    pub id: String,
}

/// A mod's tags as the contracts see them.
pub open spec fn tags_view(t: Option<Vec<String>>) -> Option<Seq<Seq<char>>> {
    match t {
        Some(v) => Some(v@.map_values(|s: String| s@)),
        None => None,
    }
}

/// Whether two mods hold the same values.
pub open spec fn same_mod(a: Mod, b: Mod) -> bool {
    &&& a.source == b.source
    &&& a.kind == b.kind
    &&& a.name == b.name
    &&& a.id == b.id
    &&& a.description == b.description
    &&& a.unsafe_api == b.unsafe_api
    &&& a.settings_fold_open == b.settings_fold_open
    &&& tags_view(a.tags) == tags_view(b.tags)
}

/// Whether no two mods share an id.
pub open spec fn ids_unique(ms: Seq<Mod>) -> bool {
    forall|i: int, j: int| 0 <= i < j < ms.len() ==> #[trigger] ms[i].id@ != #[trigger] ms[j].id@
}

/// The last mod of `ms` with id `id`.
pub open spec fn mod_with_id(ms: Seq<Mod>, id: Seq<char>) -> Option<Mod>
    decreases ms.len(),
{
    if ms.len() == 0 {
        None
    } else if ms.last().id@ == id {
        Some(ms.last())
    } else {
        mod_with_id(ms.drop_last(), id)
    }
}

/// The mods in the order of the config, each with the config's enabled
/// flag; config entries without an installed mod are passed over.
pub open spec fn ordered_by_config(ms: Seq<Mod>, cfg: Seq<ModConfigItem>) -> Seq<Mod>
    decreases cfg.len(),
{
    if cfg.len() == 0 {
        Seq::empty()
    } else {
        let rest = ordered_by_config(ms, cfg.drop_last());
        match mod_with_id(ms, cfg.last().id@) {
            Some(m) => rest.push(with_enabled(m, cfg.last().enabled)),
            None => rest,
        }
    }
}

/// "1" or "0".
pub open spec fn flag_text(b: bool) -> Seq<char> {
    if b {
        "1"@
    } else {
        "0"@
    }
}

/// Whether a mod is switched on; a mod without a flag is not.
pub open spec fn is_enabled(m: Mod) -> bool {
    match m.kind {
        ModKind::Normal(n) => n.enabled,
        _ => false,
    }
}

/// The workshop item id a mod is saved with: its Steam id, else "0".
pub open spec fn workshop_item_id(m: Mod) -> Seq<char> {
    match m.source {
        ModSource::Steam(s) => s.workshop_id@,
        _ => "0"@,
    }
}

/// The line of the mod config for `m`.
pub open spec fn config_line(m: Mod) -> Seq<char> {
    "\t<Mod enabled=\""@ + flag_text(is_enabled(m)) + "\" name=\""@ + m.id@
        + "\" settings_fold_open=\""@ + flag_text(m.settings_fold_open)
        + "\" workshop_item_id=\""@ + workshop_item_id(m) + "\" />\n"@
}

/// The lines of the mod config for `ms`, in order.
pub open spec fn config_lines(ms: Seq<Mod>) -> Seq<char>
    decreases ms.len(),
{
    if ms.len() == 0 {
        Seq::empty()
    } else {
        config_lines(ms.drop_last()) + config_line(ms.last())
    }
}

/// Whether `c` has Unicode's White_Space property, which `char::is_whitespace` tests.
pub open spec fn is_white_space(c: char) -> bool {
    let u = c as u32;
    ||| 0x9 <= u <= 0xd
    ||| u == 0x20
    ||| u == 0x85
    ||| u == 0xa0
    ||| u == 0x1680
    ||| 0x2000 <= u <= 0x200a
    ||| u == 0x2028
    ||| u == 0x2029
    ||| u == 0x202f
    ||| u == 0x205f
    ||| u == 0x3000
}

/// `s` without its leading white space.
pub open spec fn trim_start(s: Seq<char>) -> Seq<char>
    decreases s.len(),
{
    if s.len() > 0 && is_white_space(s[0]) {
        trim_start(s.drop_first())
    } else {
        s
    }
}

/// `s` without its trailing white space.
pub open spec fn trim_end(s: Seq<char>) -> Seq<char>
    decreases s.len(),
{
    if s.len() > 0 && is_white_space(s.last()) {
        trim_end(s.drop_last())
    } else {
        s
    }
}

/// `s` without leading and trailing white space.
pub open spec fn trimmed(s: Seq<char>) -> Seq<char> {
    trim_end(trim_start(s))
}

/// Relies on `str::trim`: it removes the leading and trailing characters
/// for which `char::is_whitespace` holds.
#[verifier::external_body]
fn trim_str(s: &str) -> (r: String)
    ensures
        r@ == trimmed(s@),
{
    s.trim().to_owned()
}

/// The tags a workshop file lists: comma separated, each trimmed; none
/// where the list is empty.
pub open spec fn tags_of(s: Seq<char>) -> Option<Seq<Seq<char>>> {
    if s.len() == 0 {
        None
    } else {
        Some(split_on(s, ',').map_values(|t: Seq<char>| trimmed(t)))
    }
}

/// `s` with each occurrence of `from`, found from the left without
/// overlaps, replaced by `to`.
pub open spec fn replaced(s: Seq<char>, from: Seq<char>, to: Seq<char>) -> Seq<char>
    decreases s.len(),
{
    if from.len() == 0 || s.len() < from.len() {
        s
    } else if s.take(from.len() as int) == from {
        to + replaced(s.skip(from.len() as int), from, to)
    } else {
        seq![s[0]] + replaced(s.skip(1), from, to)
    }
}

/// `s` with each escaped line break (a backslash, then `n`) made a real one,
/// reading from the left.
pub open spec fn unescaped(s: Seq<char>) -> Seq<char> {
    replaced(s, seq!['\\', 'n'], seq!['\n'])
}

/// Relies on `str::replace`: it replaces each occurrence of a non-empty
/// pattern, found from the left without overlaps, by the replacement.
#[verifier::external_body]
fn replace_all(s: &str, from: &str, to: &str) -> (r: String)
    requires
        from@.len() > 0,
    ensures
        r@ == replaced(s@, from@, to@),
{
    s.replace(from, to)
}

/// `s` with each escaped line break made a real one.
fn unescape_newlines(s: &str) -> (r: String)
    ensures
        r@ == unescaped(s@),
{
    proof {
        reveal_strlit("\\n");
        reveal_strlit("\n");
        assert("\\n"@ =~= seq!['\\', 'n']);
        assert("\n"@ =~= seq!['\n']);
    }
    replace_all(s, "\\n", "\n")
}

/// An attribute's value, or `default` where it is missing.
pub open spec fn attr_or(a: Option<String>, default: Seq<char>) -> Seq<char> {
    match a {
        Some(v) => v@,
        None => default,
    }
}

/// Whether an attribute holds "1"; a missing one is taken as "0".
pub open spec fn attr_set(a: Option<String>) -> bool {
    attr_or(a, "0"@) == "1"@
}

/// The attributes of a mod's manifest that the mod list uses.
#[derive(Debug, Clone)]
pub struct ModManifest {
    pub name: Option<String>,
    pub description: Option<String>,
    pub is_translation: Option<String>,
    pub is_game_mode: Option<String>,
    pub settings_fold_open: Option<String>,
    pub request_no_api_restrictions: Option<String>,
}

/// Whether an attribute holds exactly "1".
fn attr_is_set(a: &Option<String>) -> (r: bool)
    ensures
        r == attr_set(*a),
{
    match a {
        Some(v) => str_eq(v.as_str(), "1"),
        None => {
            proof {
                reveal_strlit("0");
                reveal_strlit("1");
                assert("0"@[0] != "1"@[0]);
            }
            false
        },
    }
}

impl ModConfigItem {
    /// An entry of the mod config from its `name` and `enabled` attributes.
    pub fn from_attributes(name: Option<String>, enabled: Option<String>) -> (r: Result<
        ModConfigItem,
        ConfigError,
    >)
        ensures
            name is None ==> r == Err::<ModConfigItem, ConfigError>(ConfigError::MissingName),
            name is Some && enabled is None ==> r == Err::<ModConfigItem, ConfigError>(
                ConfigError::MissingEnabled,
            ),
            name is Some && enabled is Some ==> (r matches Ok(item) && item.id@ == name->0@
                && item.enabled == (enabled->0@ == "1"@)),
    {
        match name {
            None => Err(ConfigError::MissingName),
            Some(id) => match enabled {
                None => Err(ConfigError::MissingEnabled),
                Some(e) => Ok(ModConfigItem { id, enabled: str_eq(e.as_str(), "1") }),
            },
        }
    }
}

/// The tags a workshop file lists: comma separated, each trimmed; none
/// where the list is empty.
pub fn parse_tags(s: &str) -> (r: Option<Vec<String>>)
    ensures
        tags_view(r) == tags_of(s@),
{
    if s.unicode_len() == 0 {
        return None;
    }
    let parts = split_at_char(s, ',');
    let mut tags: Vec<String> = Vec::new();
    let mut i: usize = 0;
    while i < parts.len()
        invariant
            i <= parts@.len(),
            tags@.map_values(|t: String| t@) == parts@.take(i as int).map_values(
                |t: String| trimmed(t@),
            ),
        decreases parts@.len() - i,
    {
        let ghost before = tags@.map_values(|t: String| t@);
        tags.push(trim_str(parts[i].as_str()));
        proof {
            assert(tags@.map_values(|t: String| t@) =~= before.push(trimmed(parts@[i as int]@)));
            assert(parts@.take(i + 1).map_values(|t: String| trimmed(t@)) =~= parts@.take(
                i as int,
            ).map_values(|t: String| trimmed(t@)).push(trimmed(parts@[i as int]@)));
        }
        i = i + 1;
    }
    proof {
        assert(parts@.take(parts@.len() as int) =~= parts@);
        assert(parts@.map_values(|t: String| trimmed(t@)) =~= split_on(s@, ',').map_values(
            |t: Seq<char>| trimmed(t),
        ));
    }
    Some(tags)
}

/// The line of the mod config for `m`.
fn config_line_of(m: &Mod) -> (r: String)
    ensures
        r@ == config_line(*m),
{
    let on = match &m.kind {
        ModKind::Normal(n) => n.enabled,
        _ => false,
    };
    let enabled = if on {
        "1"
    } else {
        "0"
    };
    let fold = if m.settings_fold_open {
        "1"
    } else {
        "0"
    };
    let workshop = match &m.source {
        ModSource::Steam(steam) => steam.workshop_id.as_str(),
        _ => "0",
    };
    let a = "\t<Mod enabled=\"".to_owned().concat(enabled).concat("\" name=\"");
    let b = a.concat(m.id.as_str()).concat("\" settings_fold_open=\"").concat(fold);
    let c = b.concat("\" workshop_item_id=\"").concat(workshop).concat("\" />\n");
    c
}

/// The text of the game's mod config for `mods`, in list order.
pub fn mod_config_text(mods: &[Mod]) -> (r: String)
    ensures
        r@ == "<Mods>\n"@ + config_lines(mods@) + "</Mods>"@,
{
    let mut text = "<Mods>\n".to_owned();
    let mut i: usize = 0;
    while i < mods.len()
        invariant
            i <= mods@.len(),
            text@ == "<Mods>\n"@ + config_lines(mods@.take(i as int)),
        decreases mods@.len() - i,
    {
        let line = config_line_of(&mods[i]);
        let ghost before = text@;
        text = text.concat(line.as_str());
        proof {
            assert(mods@.take(i + 1).drop_last() =~= mods@.take(i as int));
            assert(mods@.take(i + 1).last() == mods@[i as int]);
            assert(text@ =~= "<Mods>\n"@ + config_lines(mods@.take(i + 1)));
        }
        i = i + 1;
    }
    proof {
        assert(mods@.take(mods@.len() as int) =~= mods@);
    }
    text.concat("</Mods>")
}

impl Mod {
    /// A copy of this mod.
    pub fn duplicate(&self) -> (r: Mod)
        ensures
            same_mod(r, *self),
    {
        let source = match &self.source {
            ModSource::Git(g) => ModSource::Git(
                GitMod {
                    remote: match &g.remote {
                        Some(url) => Some(url.clone()),
                        None => None,
                    },
                    host: g.host,
                },
            ),
            ModSource::Steam(s) => ModSource::Steam(SteamMod { workshop_id: s.workshop_id.clone() }),
            ModSource::ModWorkshop(w) => ModSource::ModWorkshop(ModWorkshopMod { link: w.link.clone() }),
            ModSource::Manual => ModSource::Manual,
        };
        let tags = match &self.tags {
            Some(list) => {
                let mut copy: Vec<String> = Vec::new();
                let mut i: usize = 0;
                while i < list.len()
                    invariant
                        i <= list@.len(),
                        copy@ == list@.take(i as int),
                    decreases list@.len() - i,
                {
                    copy.push(list[i].clone());
                    proof {
                        assert(list@.take(i + 1) =~= list@.take(i as int).push(list@[i as int]));
                    }
                    i = i + 1;
                }
                proof {
                    assert(list@.take(list@.len() as int) =~= list@);
                }
                Some(copy)
            },
            None => None,
        };
        Mod {
            source,
            kind: self.kind,
            name: self.name.clone(),
            id: self.id.clone(),
            description: self.description.clone(),
            unsafe_api: self.unsafe_api,
            settings_fold_open: self.settings_fold_open,
            tags,
        }
    }

    /// A mod from its manifest's attributes: "unnamed" where it has no name,
    /// a translation or else a game mode where the manifest says so (else a
    /// normal mod, disabled), escaped line breaks in the description made real.
    pub fn from_manifest(manifest: ModManifest, id: String, source: ModSource, tags: Option<Vec<String>>) -> (r: Mod)
        ensures
            r.name@ == attr_or(manifest.name, "unnamed"@),
            r.description@ == unescaped(attr_or(manifest.description, ""@)),
            r.kind == if attr_set(manifest.is_translation) {
                ModKind::Translation
            } else if attr_set(manifest.is_game_mode) {
                ModKind::Gamemode
            } else {
                ModKind::Normal(NormalMod { enabled: false })
            },
            r.settings_fold_open == attr_set(manifest.settings_fold_open),
            r.unsafe_api == attr_set(manifest.request_no_api_restrictions),
            r.id == id,
            r.source == source,
            r.tags == tags,
    {
        let kind = if attr_is_set(&manifest.is_translation) {
            ModKind::Translation
        } else if attr_is_set(&manifest.is_game_mode) {
            ModKind::Gamemode
        } else {
            ModKind::Normal(NormalMod { enabled: false })
        };
        let settings_fold_open = attr_is_set(&manifest.settings_fold_open);
        let unsafe_api = attr_is_set(&manifest.request_no_api_restrictions);
        let name = match manifest.name {
            Some(n) => n,
            None => "unnamed".to_owned(),
        };
        let description = match manifest.description {
            Some(d) => unescape_newlines(d.as_str()),
            None => unescape_newlines(""),
        };
        Mod { source, kind, name, id, description, unsafe_api, settings_fold_open, tags }
    }
}

/// The loaded mods in the order of the mod config, each with the config's
/// enabled flag. Fails where two loaded mods share an id.
pub fn sort_mods(mods: &[Mod], config: &[ModConfigItem]) -> (r: Result<Vec<Mod>, DuplicateModId>)
    ensures
        r is Err <==> !ids_unique(mods@),
        r matches Err(e) ==> exists|i: int, j: int|
            0 <= i < j < mods@.len() && mods@[i].id@ == e.id@ && mods@[j].id@ == e.id@,
        r matches Ok(v) ==> {
            let want = ordered_by_config(mods@, config@);
            &&& v@.len() == want.len()
            &&& forall|k: int| 0 <= k < v@.len() ==> same_mod(#[trigger] v@[k], want[k])
        },
{
    let mut j: usize = 0;
    while j < mods.len()
        invariant
            j <= mods@.len(),
            ids_unique(mods@.take(j as int)),
        decreases mods@.len() - j,
    {
        let mut i: usize = 0;
        while i < j
            invariant
                i <= j < mods@.len(),
                ids_unique(mods@.take(j as int)),
                forall|k: int| 0 <= k < i ==> mods@[k].id@ != mods@[j as int].id@,
            decreases j - i,
        {
            if str_eq(mods[i].id.as_str(), mods[j].id.as_str()) {
                return Err(DuplicateModId { id: mods[j].id.clone() });
            }
            i = i + 1;
        }
        proof {
            let t = mods@.take(j + 1);
            assert forall|a: int, b: int| 0 <= a < b < t.len() implies #[trigger] t[a].id@
                != #[trigger] t[b].id@ by {
                if b < j {
                    assert(mods@.take(j as int)[a] == t[a] && mods@.take(j as int)[b] == t[b]);
                }
            }
        }
        j = j + 1;
    }
    proof {
        assert(mods@.take(mods@.len() as int) =~= mods@);
    }
    let mut out: Vec<Mod> = Vec::new();
    let mut c: usize = 0;
    while c < config.len()
        invariant
            c <= config@.len(),
            ids_unique(mods@),
            out@.len() == ordered_by_config(mods@, config@.take(c as int)).len(),
            forall|k: int|
                0 <= k < out@.len() ==> same_mod(
                    #[trigger] out@[k],
                    ordered_by_config(mods@, config@.take(c as int))[k],
                ),
        decreases config@.len() - c,
    {
        let item = &config[c];
        proof {
            assert(config@.take(c + 1).drop_last() =~= config@.take(c as int));
            assert(config@.take(c + 1).last() == *item);
        }
        match find_mod(mods, item.id.as_str()) {
            Some(k) => {
                let mut m = mods[k].duplicate();
                match m.kind {
                    ModKind::Normal(_) => {
                        m.kind = ModKind::Normal(NormalMod { enabled: item.enabled });
                    },
                    _ => {},
                }
                out.push(m);
            },
            None => {},
        }
        c = c + 1;
    }
    proof {
        assert(config@.take(config@.len() as int) =~= config@);
    }
    Ok(out)
}

/// The index of the last mod with id `id`.
fn find_mod(mods: &[Mod], id: &str) -> (r: Option<usize>)
    ensures
        match r {
            Some(k) => k < mods@.len() && mod_with_id(mods@, id@) == Some(mods@[k as int]),
            None => mod_with_id(mods@, id@) is None,
        },
{
    let mut i: usize = mods.len();
    proof {
        assert(mods@.take(i as int) =~= mods@);
    }
    while i > 0
        invariant
            i <= mods@.len(),
            mod_with_id(mods@, id@) == mod_with_id(mods@.take(i as int), id@),
        decreases i,
    {
        proof {
            assert(mods@.take(i as int).drop_last() =~= mods@.take(i - 1));
        }
        if str_eq(mods[i - 1].id.as_str(), id) {
            return Some(i - 1);
        }
        i = i - 1;
    }
    None
}

} // verus!
