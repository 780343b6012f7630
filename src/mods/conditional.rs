use vstd::prelude::*;

use crate::mods::{GitHost, Mod, ModKind, ModSource};

verus! {

/// The special search terms, written after `#`.
#[derive(Debug, Clone, Copy, PartialEq, Eq, Structural)]
pub enum ConditionalVariant {
    Enabled,
    Gamemode,
    Git,
    Github,
    Gitlab,
    Manual,
    Normal,
    Steam,
    Safe,
    Tagged,
    Translation,
}

/// What `str::to_lowercase` makes of a string.
pub uninterp spec fn lower_of(s: Seq<char>) -> Seq<char>;

/// Relies on `str::to_lowercase`: the result depends on the characters alone.
#[verifier::external_body]
fn lowercase(s: &str) -> (r: String)
    ensures
        r@ == lower_of(s@),
{
    s.to_lowercase()
}

/// Whether `needle` occurs in `hay` as a run of consecutive characters.
pub open spec fn contains_seq(hay: Seq<char>, needle: Seq<char>) -> bool {
    exists|i: int| 0 <= i <= hay.len() - needle.len() && #[trigger] hay.subrange(i, i + needle.len()) == needle
}

/// The characters of `s`.
pub fn chars_of(s: &str) -> (r: Vec<char>)
    ensures
        r@ == s@,
{
    let n = s.unicode_len();
    let mut out: Vec<char> = Vec::new();
    let mut i: usize = 0;
    while i < n
        invariant
            n == s@.len(),
            i <= n,
            out@ == s@.take(i as int),
        decreases n - i,
    {
        out.push(s.get_char(i));
        proof {
            assert(s@.take(i + 1) =~= s@.take(i as int).push(s@[i as int]));
        }
        i = i + 1;
    }
    proof {
        assert(s@.take(n as int) =~= s@);
    }
    out
}

/// Whether `needle` occurs in `hay`.
pub fn str_contains(hay: &str, needle: &str) -> (r: bool)
    ensures
        r == contains_seq(hay@, needle@),
{
    let h = chars_of(hay);
    let m = chars_of(needle);
    if m.len() > h.len() {
        return false;
    }
    let mut i: usize = 0;
    while i <= h.len() - m.len()
        invariant
            h@ == hay@,
            m@ == needle@,
            m@.len() <= h@.len(),
            i <= h@.len() - m@.len() + 1,
            forall|k: int| 0 <= k < i ==> #[trigger] h@.subrange(k, k + m@.len()) != m@,
        decreases h@.len() - m@.len() + 1 - i,
    {
        let mut j: usize = 0;
        while j < m.len() && h[i + j] == m[j]
            invariant
                i + m.len() <= h.len(),
                j <= m@.len(),
                forall|t: int| 0 <= t < j ==> h@[i + t] == m@[t],
            decreases m@.len() - j,
        {
            j = j + 1;
        }
        if j == m.len() {
            assert(h@.subrange(i as int, i + m@.len()) =~= m@);
            return true;
        }
        assert(h@.subrange(i as int, i + m@.len())[j as int] != m@[j as int]);
        i = i + 1;
    }
    false
}

/// Whether `s` begins with `prefix`.
pub fn str_starts_with(s: &str, prefix: &str) -> (r: bool)
    ensures
        r == prefix@.is_prefix_of(s@),
{
    let a = chars_of(s);
    let b = chars_of(prefix);
    if b.len() > a.len() {
        return false;
    }
    let mut j: usize = 0;
    while j < b.len()
        invariant
            a@ == s@,
            b@ == prefix@,
            b@.len() <= a@.len(),
            j <= b@.len(),
            forall|t: int| 0 <= t < j ==> a@[t] == b@[t],
        decreases b@.len() - j,
    {
        if a[j] != b[j] {
            return false;
        }
        j = j + 1;
    }
    assert(s@.take(prefix@.len() as int) =~= prefix@);
    true
}

/// The special terms in the order they are offered.
pub open spec fn all_variants() -> Seq<ConditionalVariant> {
    seq![
        ConditionalVariant::Enabled,
        ConditionalVariant::Gamemode,
        ConditionalVariant::Git,
        ConditionalVariant::Github,
        ConditionalVariant::Gitlab,
        ConditionalVariant::Manual,
        ConditionalVariant::Normal,
        ConditionalVariant::Steam,
        ConditionalVariant::Safe,
        ConditionalVariant::Tagged,
        ConditionalVariant::Translation,
    ]
}

/// The word of a special term.
pub open spec fn variant_name(v: ConditionalVariant) -> Seq<char> {
    match v {
        ConditionalVariant::Enabled => "enabled"@,
        ConditionalVariant::Gamemode => "gamemode"@,
        ConditionalVariant::Git => "git"@,
        ConditionalVariant::Github => "github"@,
        ConditionalVariant::Gitlab => "gitlab"@,
        ConditionalVariant::Manual => "manual"@,
        ConditionalVariant::Normal => "normal"@,
        ConditionalVariant::Steam => "steam"@,
        ConditionalVariant::Safe => "safe"@,
        ConditionalVariant::Tagged => "tagged"@,
        ConditionalVariant::Translation => "translation"@,
    }
}

/// The terms of `vs` whose word begins with `pat`, in order.
pub open spec fn prefixed_by(vs: Seq<ConditionalVariant>, pat: Seq<char>) -> Seq<ConditionalVariant>
    decreases vs.len(),
{
    if vs.len() == 0 {
        Seq::empty()
    } else if pat.is_prefix_of(variant_name(vs.last())) {
        prefixed_by(vs.drop_last(), pat).push(vs.last())
    } else {
        prefixed_by(vs.drop_last(), pat)
    }
}

/// Whether the word of `v` begins every word of `vs`.
pub open spec fn begins_all(v: ConditionalVariant, vs: Seq<ConditionalVariant>) -> bool {
    forall|i: int| 0 <= i < vs.len() ==> variant_name(v).is_prefix_of(#[trigger] variant_name(vs[i]))
}

/// The terms of `vs` whose word begins every word of `all`, in order.
pub open spec fn beginners(vs: Seq<ConditionalVariant>, all: Seq<ConditionalVariant>) -> Seq<
    ConditionalVariant,
>
    decreases vs.len(),
{
    if vs.len() == 0 {
        Seq::empty()
    } else if begins_all(vs.last(), all) {
        beginners(vs.drop_last(), all).push(vs.last())
    } else {
        beginners(vs.drop_last(), all)
    }
}

/// The term an abbreviation stands for: the one term it begins, or among
/// several, the one whose word begins all of theirs ("git" before "github").
pub open spec fn variant_for(pat: Seq<char>) -> Option<ConditionalVariant> {
    let matching = prefixed_by(all_variants(), pat);
    let starters = beginners(matching, matching);
    if matching.len() == 1 {
        Some(matching[0])
    } else if starters.len() == 1 {
        Some(starters[0])
    } else {
        None
    }
}

/// What a special term says of a mod; `None` where it does not apply.
pub open spec fn variant_matches(v: ConditionalVariant, m: Mod) -> Option<bool> {
    match v {
        ConditionalVariant::Enabled => match m.kind {
            ModKind::Normal(n) => Some(n.enabled),
            _ => None,
        },
        ConditionalVariant::Gamemode => Some(m.kind is Gamemode),
        ConditionalVariant::Git => Some(m.source is Git),
        ConditionalVariant::Github => Some(
            match m.source {
                ModSource::Git(g) => g.host == GitHost::Github,
                _ => false,
            },
        ),
        ConditionalVariant::Gitlab => Some(
            match m.source {
                ModSource::Git(g) => g.host == GitHost::Gitlab,
                _ => false,
            },
        ),
        ConditionalVariant::Manual => Some(m.source is Manual),
        ConditionalVariant::Normal => Some(m.kind is Normal),
        ConditionalVariant::Steam => Some(m.source is Steam),
        ConditionalVariant::Safe => Some(!m.unsafe_api),
        ConditionalVariant::Tagged => Some(m.tags is Some),
        ConditionalVariant::Translation => Some(m.kind is Translation),
    }
}

impl ConditionalVariant {
    /// The word of this term.
    pub fn name(&self) -> (r: &'static str)
        ensures
            r@ == variant_name(*self),
    {
        match self {
            ConditionalVariant::Enabled => "enabled",
            ConditionalVariant::Gamemode => "gamemode",
            ConditionalVariant::Git => "git",
            ConditionalVariant::Github => "github",
            ConditionalVariant::Gitlab => "gitlab",
            ConditionalVariant::Manual => "manual",
            ConditionalVariant::Normal => "normal",
            ConditionalVariant::Steam => "steam",
            ConditionalVariant::Safe => "safe",
            ConditionalVariant::Tagged => "tagged",
            ConditionalVariant::Translation => "translation",
        }
    }

    /// Every term, in the order they are offered.
    pub fn all() -> (r: Vec<ConditionalVariant>)
        ensures
            r@ == all_variants(),
    {
        let r = vec![
            ConditionalVariant::Enabled,
            ConditionalVariant::Gamemode,
            ConditionalVariant::Git,
            ConditionalVariant::Github,
            ConditionalVariant::Gitlab,
            ConditionalVariant::Manual,
            ConditionalVariant::Normal,
            ConditionalVariant::Steam,
            ConditionalVariant::Safe,
            ConditionalVariant::Tagged,
            ConditionalVariant::Translation,
        ];
        assert(r@ =~= all_variants());
        r
    }

    /// The term `pat` abbreviates, if it names exactly one.
    pub fn new(pat: &str) -> (r: Option<ConditionalVariant>)
        ensures
            r == variant_for(pat@),
    {
        let all = ConditionalVariant::all();
        let mut matching: Vec<ConditionalVariant> = Vec::new();
        let mut i: usize = 0;
        while i < all.len()
            invariant
                all@ == all_variants(),
                i <= all@.len(),
                matching@ == prefixed_by(all@.take(i as int), pat@),
            decreases all@.len() - i,
        {
            let v = all[i];
            proof {
                assert(all@.take(i + 1).drop_last() =~= all@.take(i as int));
                assert(all@.take(i + 1).last() == v);
            }
            if str_starts_with(v.name(), pat) {
                matching.push(v);
            }
            i = i + 1;
        }
        proof {
            assert(all@.take(all@.len() as int) =~= all@);
        }
        if matching.len() == 1 {
            return Some(matching[0]);
        }
        let mut starters: Vec<ConditionalVariant> = Vec::new();
        let mut j: usize = 0;
        while j < matching.len()
            invariant
                j <= matching@.len(),
                starters@ == beginners(matching@.take(j as int), matching@),
            decreases matching@.len() - j,
        {
            let v = matching[j];
            proof {
                assert(matching@.take(j + 1).drop_last() =~= matching@.take(j as int));
                assert(matching@.take(j + 1).last() == v);
            }
            let mut all_begin = true;
            let mut k: usize = 0;
            while k < matching.len()
                invariant
                    k <= matching@.len(),
                    all_begin == forall|t: int|
                        0 <= t < k ==> variant_name(v).is_prefix_of(
                            #[trigger] variant_name(matching@[t]),
                        ),
                decreases matching@.len() - k,
            {
                let begins = str_starts_with(matching[k].name(), v.name());
                all_begin = all_begin && begins;
                k = k + 1;
            }
            if all_begin {
                starters.push(v);
            }
            j = j + 1;
        }
        proof {
            assert(matching@.take(matching@.len() as int) =~= matching@);
        }
        if starters.len() == 1 {
            Some(starters[0])
        } else {
            None
        }
    }

    /// What this term says of `nmod`; `None` where it does not apply.
    pub fn matches(&self, nmod: &Mod) -> (r: Option<bool>)
        ensures
            r == variant_matches(*self, *nmod),
    {
        match self {
            ConditionalVariant::Enabled => match &nmod.kind {
                ModKind::Normal(normal_mod) => Some(normal_mod.enabled),
                _ => None,
            },
            ConditionalVariant::Gamemode => Some(matches!(nmod.kind, ModKind::Gamemode)),
            ConditionalVariant::Git => Some(matches!(nmod.source, ModSource::Git(..))),
            ConditionalVariant::Github => match &nmod.source {
                ModSource::Git(source) => Some(matches!(source.host, GitHost::Github)),
                _ => Some(false),
            },
            ConditionalVariant::Gitlab => match &nmod.source {
                ModSource::Git(source) => Some(matches!(source.host, GitHost::Gitlab)),
                _ => Some(false),
            },
            ConditionalVariant::Manual => Some(matches!(nmod.source, ModSource::Manual)),
            ConditionalVariant::Normal => Some(matches!(nmod.kind, ModKind::Normal(..))),
            ConditionalVariant::Steam => Some(matches!(nmod.source, ModSource::Steam(..))),
            ConditionalVariant::Safe => Some(!nmod.unsafe_api),
            ConditionalVariant::Tagged => Some(nmod.tags.is_some()),
            ConditionalVariant::Translation => Some(matches!(nmod.kind, ModKind::Translation)),
        }
    }
}

/// A special term, possibly negated with `!`.
#[derive(Debug, Clone, Copy)]
pub struct MetaCondition {
    pub conditional: ConditionalVariant,
    pub inverted: bool,
}

/// What a special term, negated or not, says of a mod: a term that does not
/// apply lets every mod through.
pub open spec fn meta_matches(c: MetaCondition, m: Mod) -> bool {
    match variant_matches(c.conditional, m) {
        Some(x) => x != c.inverted,
        None => true,
    }
}

/// `s` without its first character, if it has one.
pub open spec fn after_first(s: Seq<char>) -> Seq<char> {
    if s.len() == 0 {
        s
    } else {
        s.drop_first()
    }
}

/// Whether `s` begins with `c`.
pub open spec fn starts_with_char(s: Seq<char>, c: char) -> bool {
    s.len() > 0 && s[0] == c
}

/// The special term `src` gives: a leading `!` negates the term after it.
pub open spec fn meta_for(src: Seq<char>) -> Option<MetaCondition> {
    let inverted = starts_with_char(src, '!');
    match variant_for(if inverted { after_first(src) } else { src }) {
        Some(v) => Some(MetaCondition { conditional: v, inverted }),
        None => None,
    }
}

/// `s` without its first character.
fn rest_of(s: &str) -> (r: String)
    requires
        s@.len() > 0,
    ensures
        r@ == s@.drop_first(),
{
    let n = s.unicode_len();
    s.substring_char(1, n).to_owned()
}

impl MetaCondition {
    /// What this term says of `nmod`.
    pub fn matches(&self, nmod: &Mod) -> (r: bool)
        ensures
            r == meta_matches(*self, *nmod),
    {
        match self.conditional.matches(nmod) {
            Some(x) => x != self.inverted,
            None => true,
        }
    }

    /// Reads a special term from already lower-cased text.
    pub fn new(src: &str) -> (r: Option<MetaCondition>)
        ensures
            r == meta_for(src@),
    {
        let n = src.unicode_len();
        let inverted = n > 0 && src.get_char(0) == '!';
        let variant = if inverted {
            let rest = rest_of(src);
            ConditionalVariant::new(rest.as_str())
        } else {
            ConditionalVariant::new(src)
        };
        match variant {
            Some(v) => Some(MetaCondition { conditional: v, inverted }),
            None => None,
        }
    }
}

/// A tag search, possibly negated with `!`.
#[derive(Debug, Clone)]
pub struct TagCondition {
    pub inverted: bool,
    pub tag: String,
}

/// Whether some tag of `tags` begins with `tag`.
pub open spec fn some_tag_begins(tags: Seq<String>, tag: Seq<char>) -> bool {
    exists|i: int| 0 <= i < tags.len() && tag.is_prefix_of(#[trigger] tags[i]@)
}

/// What a tag search says of a mod: a mod without tags always passes.
pub open spec fn tag_matches(c: TagCondition, m: Mod) -> bool {
    match m.tags {
        Some(tags) => some_tag_begins(tags@, c.tag@) != c.inverted,
        None => true,
    }
}

/// The tag search `src` gives: a leading `!` negates it, and an empty tag is none.
pub open spec fn tag_for(src: Seq<char>) -> Option<(bool, Seq<char>)> {
    let inverted = starts_with_char(src, '!');
    let tag = if inverted { after_first(src) } else { src };
    if tag.len() == 0 {
        None
    } else {
        Some((inverted, tag))
    }
}

impl TagCondition {
    /// Reads a tag search from already lower-cased text.
    pub fn new(src: &str) -> (r: Option<TagCondition>)
        ensures
            match tag_for(src@) {
                Some((inverted, tag)) => (r matches Some(c) && c.inverted == inverted && c.tag@ == tag),
                None => r is None,
            },
    {
        let n = src.unicode_len();
        let inverted = n > 0 && src.get_char(0) == '!';
        let tag = if inverted {
            rest_of(src)
        } else {
            src.to_owned()
        };
        if tag.unicode_len() == 0 {
            return None;
        }
        Some(TagCondition { inverted, tag })
    }

    /// What this tag search says of `nmod`.
    pub fn matches(&self, nmod: &Mod) -> (r: bool)
        ensures
            r == tag_matches(*self, *nmod),
    {
        match &nmod.tags {
            Some(tags) => {
                let mut found = false;
                let mut i: usize = 0;
                while i < tags.len()
                    invariant
                        i <= tags@.len(),
                        found == exists|k: int| 0 <= k < i && self.tag@.is_prefix_of(#[trigger] tags@[k]@),
                    decreases tags@.len() - i,
                {
                    if str_starts_with(tags[i].as_str(), self.tag.as_str()) {
                        found = true;
                    }
                    i = i + 1;
                }
                found != self.inverted
            },
            None => true,
        }
    }
}

/// The three kinds of search term.
#[derive(Debug, Clone)]
pub enum ConditionEnum {
    Meta(MetaCondition),
    Literal(String),
    Tag(TagCondition),
}

/// One search term.
#[derive(Debug, Clone)]
pub struct Condition(pub ConditionEnum);

/// Whether lower-cased text `s` occurs in a mod's lower-cased name or id.
pub open spec fn literal_matches(s: Seq<char>, lower_name: Seq<char>, lower_id: Seq<char>) -> bool {
    contains_seq(lower_name, s) || contains_seq(lower_id, s)
}

/// What a search term says of a mod.
pub open spec fn condition_matches(c: Condition, m: Mod) -> bool {
    match c.0 {
        ConditionEnum::Meta(meta) => meta_matches(meta, m),
        ConditionEnum::Literal(s) => literal_matches(s@, lower_of(m.name@), lower_of(m.id@)),
        ConditionEnum::Tag(tag) => tag_matches(tag, m),
    }
}

/// The help text that lists the special terms.
pub open spec fn special_terms_text(k: nat) -> Seq<char>
    decreases k,
{
    if k == 0 {
        "Use :tag or :!tag to search mod tags\nSpecial terms (use with # or #!):\n"@
    } else {
        special_terms_text((k - 1) as nat) + "\n"@ + variant_name(all_variants()[k - 1])
    }
}

/// Whether lower-cased text `s` occurs in a mod's lower-cased name or id.
pub fn literal_in(s: &str, lower_name: &str, lower_id: &str) -> (r: bool)
    ensures
        r == literal_matches(s@, lower_name@, lower_id@),
{
    str_contains(lower_name, s) || str_contains(lower_id, s)
}

impl Condition {
    /// The help text that lists the special terms.
    pub fn special_terms() -> (r: String)
        ensures
            r@ == special_terms_text(11),
    {
        let all = ConditionalVariant::all();
        let mut s = "Use :tag or :!tag to search mod tags\nSpecial terms (use with # or #!):\n".to_owned();
        let mut i: usize = 0;
        while i < all.len()
            invariant
                all@ == all_variants(),
                i <= all@.len(),
                s@ == special_terms_text(i as nat),
            decreases all@.len() - i,
        {
            s = s.concat("\n").concat(all[i].name());
            i = i + 1;
        }
        s
    }

    /// Reads a search term: `#` starts a special term, `:` a tag search,
    /// anything else is text to look for in names and ids. Case is ignored.
    pub fn new(src: &str) -> (r: Option<Condition>)
        ensures
            src@.len() == 0 ==> r is None,
            src@.len() > 0 && src@[0] == '#' ==> r == match meta_for(lower_of(src@.drop_first())) {
                Some(m) => Some(Condition(ConditionEnum::Meta(m))),
                None => None,
            },
            src@.len() > 0 && src@[0] == ':' ==> match tag_for(lower_of(src@.drop_first())) {
                Some((inverted, tag)) => (r matches Some(c) && c.0 matches ConditionEnum::Tag(t)
                    && t.inverted == inverted && t.tag@ == tag),
                None => r is None,
            },
            src@.len() > 0 && src@[0] != '#' && src@[0] != ':' ==> (r matches Some(c)
                && c.0 matches ConditionEnum::Literal(s) && s@ == lower_of(src@)),
    {
        let n = src.unicode_len();
        if n == 0 {
            return None;
        }
        let c = src.get_char(0);
        if c == '#' {
            let lowered = lowercase(rest_of(src).as_str());
            match MetaCondition::new(lowered.as_str()) {
                Some(m) => Some(Condition(ConditionEnum::Meta(m))),
                None => None,
            }
        } else if c == ':' {
            let lowered = lowercase(rest_of(src).as_str());
            match TagCondition::new(lowered.as_str()) {
                Some(t) => Some(Condition(ConditionEnum::Tag(t))),
                None => None,
            }
        } else {
            Some(Condition(ConditionEnum::Literal(lowercase(src))))
        }
    }

    /// Whether this term lets `nmod` through.
    pub fn matches(&self, nmod: &Mod) -> (r: bool)
        ensures
            r == condition_matches(*self, *nmod),
    {
        match &self.0 {
            ConditionEnum::Meta(meta) => meta.matches(nmod),
            ConditionEnum::Literal(s) => {
                let name = lowercase(nmod.name.as_str());
                let id = lowercase(nmod.id.as_str());
                literal_in(s.as_str(), name.as_str(), id.as_str())
            },
            ConditionEnum::Tag(tag) => tag.matches(nmod),
        }
    }
}

} // verus!
