use vstd::prelude::*;

use crate::error::SettingsError;
use crate::ext::{
    fits_u64, lemma_str64_round_trip, lemma_u64_round_trip, read_str64, read_u64, str64_bytes,
    take_str64, take_u64, u64_bytes, write_str64, write_u64, Endianness,
};
use crate::hierarchy::{included_keys, ModSettingsGroup};
use crate::modsettings::{
    entry_bytes, entry_encodable, lemma_entry_round_trip, take_entry, ModSetting, PairView,
};
use crate::mods::{Mod, ModKind, NormalMod};
use crate::settings::{entries_map, EntryView, ModSettings};

verus! {

/// A mod pack as the contracts see it.
pub struct PackView {
    pub name: Seq<char>,
    pub mods: Seq<Seq<char>>,
    pub settings: Map<Seq<char>, PairView>,
}

/// A named bundle of mod ids and the settings chosen for export.
#[derive(Debug)]
pub struct ModPack {
    file_name: String,
    name: String,
    mods: Vec<String>,
    settings: ModSettings,
}

/// The only schema version of the pack format.
pub const PACK_VERSION: u64 = 0;

/// Reads `n` strings with eight-byte little-endian length prefixes.
pub open spec fn take_mod_ids(s: Seq<u8>, n: nat) -> Result<(Seq<Seq<char>>, Seq<u8>), SettingsError>
    decreases n,
{
    if n == 0 {
        Ok((Seq::empty(), s))
    } else {
        match take_mod_ids(s, (n - 1) as nat) {
            Err(e) => Err(e),
            Ok((ids, rest)) => match take_str64(rest, Endianness::Little) {
                Err(e) => Err(e),
                Ok((id, rest2)) => Ok((ids.push(id), rest2)),
            },
        }
    }
}

/// Reads `n` settings entries.
pub open spec fn take_n_entries(s: Seq<u8>, n: nat) -> Result<(Seq<EntryView>, Seq<u8>), SettingsError>
    decreases n,
{
    if n == 0 {
        Ok((Seq::empty(), s))
    } else {
        match take_n_entries(s, (n - 1) as nat) {
            Err(e) => Err(e),
            Ok((es, rest)) => match take_entry(rest) {
                Err(e) => Err(e),
                Ok((entry, rest2)) => Ok((es.push(entry), rest2)),
            },
        }
    }
}

/// Reads a pack file: schema version, name, mod ids, then settings entries.
/// A version other than 0 is refused before anything after it is read.
pub open spec fn pack_loaded(data: Seq<u8>) -> Result<PackView, SettingsError> {
    match take_u64(data, Endianness::Little) {
        Err(e) => Err(e),
        Ok((version, s1)) => if version != PACK_VERSION {
            Err(SettingsError::UnsupportedSchemaVersion(version))
        } else {
            match take_str64(s1, Endianness::Little) {
                Err(e) => Err(e),
                Ok((name, s2)) => match take_u64(s2, Endianness::Little) {
                    Err(e) => Err(e),
                    Ok((n_mods, s3)) => match take_mod_ids(s3, n_mods as nat) {
                        Err(e) => Err(e),
                        Ok((mods, s4)) => match take_u64(s4, Endianness::Little) {
                            Err(e) => Err(e),
                            Ok((n_settings, s5)) => match take_n_entries(s5, n_settings as nat) {
                                Err(e) => Err(e),
                                Ok((entries, _)) => Ok(
                                    PackView { name, mods, settings: entries_map(entries) },
                                ),
                            },
                        },
                    },
                },
            }
        },
    }
}

/// The part of a pack file where reading stopped.
#[derive(Debug, Clone, Copy, PartialEq, Eq, Structural)]
pub enum PackSection {
    Version,
    Name,
    ModCount,
    /// The mod id with this index, counting from 0.
    ModId(u64),
    SettingCount,
    /// The settings entry with this index, counting from 0.
    Setting(u64),
}

/// A failed read of a pack file: what went wrong, and where.
#[derive(Debug, Clone, Copy, PartialEq, Eq, Structural)]
pub struct PackLoadError {
    pub section: PackSection,
    pub error: SettingsError,
}

/// How many of `n` mod ids are read off `s` before reading stops.
pub open spec fn ids_read(s: Seq<u8>, n: nat) -> nat
    decreases n,
{
    if n == 0 {
        0
    } else {
        match take_mod_ids(s, (n - 1) as nat) {
            Err(_) => ids_read(s, (n - 1) as nat),
            Ok((_, rest)) => if take_str64(rest, Endianness::Little) is Err {
                (n - 1) as nat
            } else {
                n
            },
        }
    }
}

/// How many of `n` settings entries are read off `s` before reading stops.
pub open spec fn settings_read(s: Seq<u8>, n: nat) -> nat
    decreases n,
{
    if n == 0 {
        0
    } else {
        match take_n_entries(s, (n - 1) as nat) {
            Err(_) => settings_read(s, (n - 1) as nat),
            Ok((_, rest)) => if take_entry(rest) is Err {
                (n - 1) as nat
            } else {
                n
            },
        }
    }
}

/// Where reading a pack file whose content is `data` stops, where it fails.
pub open spec fn pack_failed_section(data: Seq<u8>) -> PackSection {
    match take_u64(data, Endianness::Little) {
        Err(_) => PackSection::Version,
        Ok((version, s1)) => if version != PACK_VERSION {
            PackSection::Version
        } else {
            match take_str64(s1, Endianness::Little) {
                Err(_) => PackSection::Name,
                Ok((_, s2)) => match take_u64(s2, Endianness::Little) {
                    Err(_) => PackSection::ModCount,
                    Ok((n_mods, s3)) => match take_mod_ids(s3, n_mods as nat) {
                        Err(_) => PackSection::ModId(ids_read(s3, n_mods as nat) as u64),
                        Ok((_, s4)) => match take_u64(s4, Endianness::Little) {
                            Err(_) => PackSection::SettingCount,
                            Ok((n_settings, s5)) => PackSection::Setting(
                                settings_read(s5, n_settings as nat) as u64,
                            ),
                        },
                    },
                },
            }
        },
    }
}

/// Mod ids written one after another.
pub open spec fn mod_ids_bytes(ids: Seq<Seq<char>>) -> Seq<u8>
    decreases ids.len(),
{
    if ids.len() == 0 {
        Seq::empty()
    } else {
        mod_ids_bytes(ids.drop_last()) + str64_bytes(ids.last(), Endianness::Little)
    }
}

/// Entries written one after another, as in a settings file.
pub open spec fn pack_entries_bytes(s: Seq<EntryView>) -> Seq<u8>
    decreases s.len(),
{
    if s.len() == 0 {
        Seq::empty()
    } else {
        pack_entries_bytes(s.drop_last()) + entry_bytes(s.last().0, s.last().1)
    }
}

/// The bytes of a pack file.
pub open spec fn pack_bytes(name: Seq<char>, mods: Seq<Seq<char>>, entries: Seq<EntryView>) -> Seq<u8> {
    u64_bytes(PACK_VERSION, Endianness::Little) + str64_bytes(name, Endianness::Little) + u64_bytes(
        mods.len() as u64,
        Endianness::Little,
    ) + mod_ids_bytes(mods) + u64_bytes(entries.len() as u64, Endianness::Little)
        + pack_entries_bytes(entries)
}

/// The entries of `s` whose key is in `keys`, in order.
pub open spec fn selected_entries(s: Seq<EntryView>, keys: Seq<Seq<char>>) -> Seq<EntryView>
    decreases s.len(),
{
    if s.len() == 0 {
        Seq::empty()
    } else if keys.contains(s.last().0) {
        selected_entries(s.drop_last(), keys).push(s.last())
    } else {
        selected_entries(s.drop_last(), keys)
    }
}

/// A pack file whose version is not 0 is refused with
/// `UnsupportedSchemaVersion`, whatever follows the version.
pub proof fn lemma_future_version_rejected(version: u64, rest: Seq<u8>)
    requires
        version != PACK_VERSION,
    ensures
        pack_loaded(u64_bytes(version, Endianness::Little) + rest) == Err::<PackView, SettingsError>(
            SettingsError::UnsupportedSchemaVersion(version),
        ),
{
    lemma_u64_round_trip(version, Endianness::Little, rest);
}

proof fn lemma_mod_ids_round_trip(ids: Seq<Seq<char>>, rest: Seq<u8>)
    requires
        forall|i: int| 0 <= i < ids.len() ==> fits_u64(#[trigger] ids[i]),
    ensures
        take_mod_ids(mod_ids_bytes(ids) + rest, ids.len()) == Ok::<
            (Seq<Seq<char>>, Seq<u8>),
            SettingsError,
        >((ids, rest)),
    decreases ids.len(),
{
    if ids.len() > 0 {
        let last = ids.last();
        let tail = str64_bytes(last, Endianness::Little) + rest;
        assert(mod_ids_bytes(ids) + rest =~= mod_ids_bytes(ids.drop_last()) + tail);
        assert forall|i: int| 0 <= i < ids.drop_last().len() implies fits_u64(#[trigger] ids.drop_last()[i]) by {
            assert(ids.drop_last()[i] == ids[i]);
        }
        assert(fits_u64(ids[ids.len() - 1]));
        lemma_mod_ids_round_trip(ids.drop_last(), tail);
        lemma_str64_round_trip(last, Endianness::Little, rest);
        assert(ids.drop_last().push(last) =~= ids);
    } else {
        assert(mod_ids_bytes(ids) + rest =~= rest);
        assert(ids =~= Seq::<Seq<char>>::empty());
    }
}

proof fn lemma_pack_entries_round_trip(s: Seq<EntryView>, rest: Seq<u8>)
    requires
        forall|i: int| 0 <= i < s.len() ==> entry_encodable(#[trigger] s[i].0, s[i].1),
    ensures
        take_n_entries(pack_entries_bytes(s) + rest, s.len()) == Ok::<
            (Seq<EntryView>, Seq<u8>),
            SettingsError,
        >((s, rest)),
    decreases s.len(),
{
    if s.len() > 0 {
        let last = s.last();
        let tail = entry_bytes(last.0, last.1) + rest;
        assert(pack_entries_bytes(s) + rest =~= pack_entries_bytes(s.drop_last()) + tail);
        assert forall|i: int| 0 <= i < s.drop_last().len() implies entry_encodable(
            #[trigger] s.drop_last()[i].0,
            s.drop_last()[i].1,
        ) by {
            assert(s.drop_last()[i] == s[i]);
        }
        lemma_pack_entries_round_trip(s.drop_last(), tail);
        assert(entry_encodable(s[s.len() - 1].0, s[s.len() - 1].1));
        lemma_entry_round_trip(last.0, last.1, rest);
        assert(s.drop_last().push(last) =~= s);
    } else {
        assert(pack_entries_bytes(s) + rest =~= rest);
        assert(s =~= Seq::<EntryView>::empty());
    }
}

/// A pack written by `pack_bytes` reads back with the same name, mod ids
/// and settings.
pub proof fn lemma_pack_round_trip(name: Seq<char>, mods: Seq<Seq<char>>, entries: Seq<EntryView>)
    requires
        fits_u64(name),
        forall|i: int| 0 <= i < mods.len() ==> fits_u64(#[trigger] mods[i]),
        mods.len() <= u64::MAX,
        entries.len() <= u64::MAX,
        forall|i: int| 0 <= i < entries.len() ==> entry_encodable(#[trigger] entries[i].0, entries[i].1),
    ensures
        pack_loaded(pack_bytes(name, mods, entries)) == Ok::<PackView, SettingsError>(
            PackView { name, mods, settings: entries_map(entries) },
        ),
{
    let e = Endianness::Little;
    let s5 = pack_entries_bytes(entries);
    let s4 = u64_bytes(entries.len() as u64, e) + s5;
    let s3 = mod_ids_bytes(mods) + s4;
    let s2 = u64_bytes(mods.len() as u64, e) + s3;
    let s1 = str64_bytes(name, e) + s2;
    assert(pack_bytes(name, mods, entries) =~= u64_bytes(PACK_VERSION, e) + s1);
    lemma_u64_round_trip(PACK_VERSION, e, s1);
    lemma_str64_round_trip(name, e, s2);
    lemma_u64_round_trip(mods.len() as u64, e, s3);
    lemma_mod_ids_round_trip(mods, s4);
    lemma_u64_round_trip(entries.len() as u64, e, s5);
    lemma_pack_entries_round_trip(entries, Seq::empty());
    assert(s5 + Seq::<u8>::empty() =~= s5);
}

/// `m` with its enabled flag set to `on`, where it has one.
pub open spec fn with_enabled(m: Mod, on: bool) -> Mod {
    match m.kind {
        ModKind::Normal(_) => Mod { kind: ModKind::Normal(NormalMod { enabled: on }), ..m },
        _ => m,
    }
}

/// Whether a pack listing `ids` turns `m` on: it has an enabled flag and
/// its id is listed.
pub open spec fn turned_on(ids: Seq<Seq<char>>, m: Mod) -> bool {
    m.kind is Normal && ids.contains(m.id@)
}

/// The position of the last mention of `id` in `ids`, or -1.
pub open spec fn pack_rank(ids: Seq<Seq<char>>, id: Seq<char>) -> int
    decreases ids.len(),
{
    if ids.len() == 0 {
        -1
    } else if ids.last() == id {
        ids.len() - 1
    } else {
        pack_rank(ids.drop_last(), id)
    }
}

/// The mods that the pack turns on, enabled, in list order.
pub open spec fn picked(ms: Seq<Mod>, ids: Seq<Seq<char>>) -> Seq<Mod>
    decreases ms.len(),
{
    if ms.len() == 0 {
        Seq::empty()
    } else if turned_on(ids, ms[0]) {
        seq![with_enabled(ms[0], true)] + picked(ms.drop_first(), ids)
    } else {
        picked(ms.drop_first(), ids)
    }
}

/// The mods of `ps` whose id the pack mentions last at position `r`, in order.
pub open spec fn of_rank(ps: Seq<Mod>, ids: Seq<Seq<char>>, r: int) -> Seq<Mod>
    decreases ps.len(),
{
    if ps.len() == 0 {
        Seq::empty()
    } else if pack_rank(ids, ps.last().id@) == r {
        of_rank(ps.drop_last(), ids, r).push(ps.last())
    } else {
        of_rank(ps.drop_last(), ids, r)
    }
}

/// The mods of `ps` in pack order: those ranked 0, then 1, ... up to `r`;
/// mods of equal rank keep their order.
pub open spec fn arranged(ps: Seq<Mod>, ids: Seq<Seq<char>>, r: nat) -> Seq<Mod>
    decreases r,
{
    if r == 0 {
        Seq::empty()
    } else {
        arranged(ps, ids, (r - 1) as nat) + of_rank(ps, ids, r - 1)
    }
}

/// The list with a hole where each turned-on mod stood and every other
/// mod turned off.
pub open spec fn holes(ms: Seq<Mod>, ids: Seq<Seq<char>>) -> Seq<Option<Mod>> {
    ms.map_values(
        |m: Mod|
            if turned_on(ids, m) {
                None
            } else {
                Some(with_enabled(m, false))
            },
    )
}

/// The holes of `l` filled with `a`, in order.
pub open spec fn filled(l: Seq<Option<Mod>>, a: Seq<Mod>) -> Seq<Mod>
    decreases l.len(),
{
    if l.len() == 0 {
        Seq::empty()
    } else {
        match l[0] {
            Some(m) => seq![m] + filled(l.drop_first(), a),
            None => seq![a[0]] + filled(l.drop_first(), a.drop_first()),
        }
    }
}

/// The mod list after a pack listing `ids` is applied: the turned-on mods
/// move, among their own places, into pack order; the rest keep theirs.
pub open spec fn applied(ms: Seq<Mod>, ids: Seq<Seq<char>>) -> Seq<Mod> {
    filled(holes(ms, ids), arranged(picked(ms, ids), ids, ids.len()))
}

/// How many holes `l` has.
pub open spec fn hole_count(l: Seq<Option<Mod>>) -> nat
    decreases l.len(),
{
    if l.len() == 0 {
        0
    } else {
        hole_count(l.drop_first()) + if l[0] is None { 1nat } else { 0nat }
    }
}

/// How many mods of `ps` have a rank in `0..r`.
pub open spec fn ranked_below(ps: Seq<Mod>, ids: Seq<Seq<char>>, r: int) -> nat
    decreases ps.len(),
{
    if ps.len() == 0 {
        0
    } else {
        ranked_below(ps.drop_last(), ids, r) + if 0 <= pack_rank(ids, ps.last().id@) < r {
            1nat
        } else {
            0nat
        }
    }
}

proof fn lemma_rank_contains(ids: Seq<Seq<char>>, id: Seq<char>)
    ensures
        ids.contains(id) <==> pack_rank(ids, id) >= 0,
        pack_rank(ids, id) < ids.len(),
        pack_rank(ids, id) >= 0 ==> ids[pack_rank(ids, id)] == id,
    decreases ids.len(),
{
    if ids.len() > 0 {
        lemma_rank_contains(ids.drop_last(), id);
        if ids.contains(id) && ids.last() != id {
            let k = choose|k: int| 0 <= k < ids.len() && ids[k] == id;
            assert(ids.drop_last()[k] == id);
        }
        if pack_rank(ids.drop_last(), id) >= 0 {
            assert(ids.drop_last()[pack_rank(ids.drop_last(), id)] == id);
        }
    }
}

proof fn lemma_of_rank_count(ps: Seq<Mod>, ids: Seq<Seq<char>>, r: int)
    requires
        r >= 0,
    ensures
        ranked_below(ps, ids, r + 1) == ranked_below(ps, ids, r) + of_rank(ps, ids, r).len(),
    decreases ps.len(),
{
    if ps.len() > 0 {
        lemma_of_rank_count(ps.drop_last(), ids, r);
    }
}

proof fn lemma_arranged_len(ps: Seq<Mod>, ids: Seq<Seq<char>>, r: nat)
    ensures
        arranged(ps, ids, r).len() == ranked_below(ps, ids, r as int),
    decreases r,
{
    if r == 0 {
        lemma_ranked_below_zero(ps, ids);
    } else {
        lemma_arranged_len(ps, ids, (r - 1) as nat);
        lemma_of_rank_count(ps, ids, r - 1);
    }
}

proof fn lemma_ranked_below_zero(ps: Seq<Mod>, ids: Seq<Seq<char>>)
    ensures
        ranked_below(ps, ids, 0) == 0,
    decreases ps.len(),
{
    if ps.len() > 0 {
        lemma_ranked_below_zero(ps.drop_last(), ids);
    }
}

proof fn lemma_ranked_below_all(ps: Seq<Mod>, ids: Seq<Seq<char>>)
    requires
        forall|t: int| 0 <= t < ps.len() ==> 0 <= #[trigger] pack_rank(ids, ps[t].id@) < ids.len(),
    ensures
        ranked_below(ps, ids, ids.len() as int) == ps.len(),
    decreases ps.len(),
{
    if ps.len() > 0 {
        assert forall|t: int| 0 <= t < ps.drop_last().len() implies 0 <= #[trigger] pack_rank(
            ids,
            ps.drop_last()[t].id@,
        ) < ids.len() by {
            assert(ps.drop_last()[t] == ps[t]);
        }
        assert(0 <= pack_rank(ids, ps[ps.len() - 1].id@) < ids.len());
        lemma_ranked_below_all(ps.drop_last(), ids);
    }
}

proof fn lemma_holes_count(ms: Seq<Mod>, ids: Seq<Seq<char>>)
    ensures
        hole_count(holes(ms, ids)) == picked(ms, ids).len(),
    decreases ms.len(),
{
    if ms.len() > 0 {
        assert(holes(ms, ids).drop_first() =~= holes(ms.drop_first(), ids));
        lemma_holes_count(ms.drop_first(), ids);
    }
}

/// The settings of `m` with those of `s` inserted in order, later ones winning.
pub open spec fn merged(m: Map<Seq<char>, PairView>, s: Seq<EntryView>) -> Map<Seq<char>, PairView>
    decreases s.len(),
{
    if s.len() == 0 {
        m
    } else {
        merged(m, s.drop_last()).insert(s.last().0, s.last().1)
    }
}

proof fn lemma_merged_union(m: Map<Seq<char>, PairView>, s: Seq<EntryView>)
    ensures
        merged(m, s) == m.union_prefer_right(entries_map(s)),
    decreases s.len(),
{
    if s.len() > 0 {
        lemma_merged_union(m, s.drop_last());
        assert(merged(m, s) =~= m.union_prefer_right(entries_map(s)));
    } else {
        assert(m.union_prefer_right(Map::empty()) =~= m);
    }
}

/// The position of the last mention of `id` in `ids`.
fn rank_in(ids: &Vec<String>, id: &str) -> (r: Option<usize>)
    ensures
        match r {
            Some(j) => j as int == pack_rank(ids@.map_values(|s: String| s@), id@),
            None => pack_rank(ids@.map_values(|s: String| s@), id@) == -1,
        },
{
    let ghost v = ids@.map_values(|s: String| s@);
    let mut i: usize = ids.len();
    proof {
        assert(v.take(i as int) =~= v);
    }
    while i > 0
        invariant
            i <= ids@.len(),
            v == ids@.map_values(|s: String| s@),
            pack_rank(v, id@) == pack_rank(v.take(i as int), id@),
        decreases i,
    {
        proof {
            assert(v.take(i as int).drop_last() =~= v.take(i - 1));
        }
        if crate::ext::str_eq(ids[i - 1].as_str(), id) {
            return Some(i - 1);
        }
        i = i - 1;
    }
    None
}

impl ModPack {
    /// The pack as the contracts see it.
    pub closed spec fn view_pack(&self) -> PackView {
        PackView {
            name: self.name@,
            mods: self.mods@.map_values(|s: String| s@),
            settings: self.settings@,
        }
    }

    /// The entries of the pack's settings, in their stored order.
    pub closed spec fn entries_view(&self) -> Seq<EntryView> {
        self.settings.entries_view()
    }

    /// The name of the file the pack was read from or is to be written to.
    pub closed spec fn file_name_view(&self) -> Seq<char> {
        self.file_name@
    }

    /// Reads a pack file whose content is `data`.
    pub fn load(data: &[u8], file_name: String) -> (r: Result<ModPack, PackLoadError>)
        ensures
            match pack_loaded(data@) {
                Ok(v) => r matches Ok(p) && p.view_pack() == v && p.file_name_view() == file_name@,
                Err(e) => r matches Err(x) && x.error == e && x.section == pack_failed_section(
                    data@,
                ),
            },
    {
        proof {
            assert(data@.skip(0) =~= data@);
        }
        let (version, after_version) = match read_u64(data, 0, Endianness::Little) {
            Ok(x) => x,
            Err(error) => return Err(PackLoadError { section: PackSection::Version, error }),
        };
        if version != PACK_VERSION {
            return Err(
                PackLoadError {
                    section: PackSection::Version,
                    error: SettingsError::UnsupportedSchemaVersion(version),
                },
            );
        }
        Self::load_v0(data, after_version, file_name)
    }

    /// Reads the part of a version 0 pack after its version field.
    fn load_v0(data: &[u8], start: usize, file_name: String) -> (r: Result<ModPack, PackLoadError>)
        requires
            8 <= start <= data@.len(),
            take_u64(data@, Endianness::Little) == Ok::<(u64, Seq<u8>), SettingsError>(
                (PACK_VERSION, data@.skip(start as int)),
            ),
        ensures
            match pack_loaded(data@) {
                Ok(v) => r matches Ok(p) && p.view_pack() == v && p.file_name_view() == file_name@,
                Err(e) => r matches Err(x) && x.error == e && x.section == pack_failed_section(
                    data@,
                ),
            },
    {
        let (name, after_name) = match read_str64(data, start, Endianness::Little) {
            Ok(x) => x,
            Err(error) => return Err(PackLoadError { section: PackSection::Name, error }),
        };
        let (n_mods, mods_start) = match read_u64(data, after_name, Endianness::Little) {
            Ok(x) => x,
            Err(error) => return Err(PackLoadError { section: PackSection::ModCount, error }),
        };
        let mut mods: Vec<String> = Vec::new();
        let mut pos = mods_start;
        let mut k: u64 = 0;
        proof {
            assert(mods@.map_values(|s: String| s@) =~= Seq::<Seq<char>>::empty());
        }
        while k < n_mods
            invariant
                mods_start <= pos <= data@.len(),
                take_u64(data@, Endianness::Little) == Ok::<(u64, Seq<u8>), SettingsError>(
                    (PACK_VERSION, data@.skip(start as int)),
                ),
                take_str64(data@.skip(start as int), Endianness::Little) == Ok::<(Seq<char>, Seq<u8>), SettingsError>(
                    (name@, data@.skip(after_name as int)),
                ),
                take_u64(data@.skip(after_name as int), Endianness::Little) == Ok::<(u64, Seq<u8>), SettingsError>(
                    (n_mods, data@.skip(mods_start as int)),
                ),
                k <= n_mods,
                take_mod_ids(data@.skip(mods_start as int), k as nat) == Ok::<(Seq<Seq<char>>, Seq<u8>), SettingsError>(
                    (mods@.map_values(|s: String| s@), data@.skip(pos as int)),
                ),
            decreases n_mods - k,
        {
            let ghost before = mods@.map_values(|s: String| s@);
            let (id, next) = match read_str64(data, pos, Endianness::Little) {
                Ok(x) => x,
                Err(err) => {
                    proof {
                        lemma_take_mod_ids_fails(data@.skip(mods_start as int), k as nat, n_mods as nat);
                    }
                    return Err(PackLoadError { section: PackSection::ModId(k), error: err });
                },
            };
            mods.push(id);
            proof {
                assert(mods@.map_values(|s: String| s@) =~= before.push(id@));
            }
            pos = next;
            k = k + 1;
        }
        let mods_end = pos;
        let (n_settings, settings_start) = match read_u64(data, pos, Endianness::Little) {
            Ok(x) => x,
            Err(error) => return Err(PackLoadError { section: PackSection::SettingCount, error }),
        };
        let ghost mods_v = mods@.map_values(|s: String| s@);
        let mut entries: Vec<ModSetting> = Vec::new();
        let mut settings = ModSettings::new();
        let mut pos = settings_start;
        let mut k: u64 = 0;
        proof {
            assert(entries@.map_values(|m: ModSetting| (m.key@, m.values@)) =~= Seq::<EntryView>::empty());
        }
        while k < n_settings
            invariant
                settings_start <= pos <= data@.len(),
                take_u64(data@, Endianness::Little) == Ok::<(u64, Seq<u8>), SettingsError>(
                    (PACK_VERSION, data@.skip(start as int)),
                ),
                take_str64(data@.skip(start as int), Endianness::Little) == Ok::<(Seq<char>, Seq<u8>), SettingsError>(
                    (name@, data@.skip(after_name as int)),
                ),
                take_u64(data@.skip(after_name as int), Endianness::Little) == Ok::<(u64, Seq<u8>), SettingsError>(
                    (n_mods, data@.skip(mods_start as int)),
                ),
                take_mod_ids(data@.skip(mods_start as int), n_mods as nat) == Ok::<(Seq<Seq<char>>, Seq<u8>), SettingsError>(
                    (mods_v, data@.skip(mods_end as int)),
                ),
                take_u64(data@.skip(mods_end as int), Endianness::Little) == Ok::<(u64, Seq<u8>), SettingsError>(
                    (n_settings, data@.skip(settings_start as int)),
                ),
                mods_v == mods@.map_values(|s: String| s@),
                k <= n_settings,
                take_n_entries(data@.skip(settings_start as int), k as nat) == Ok::<(Seq<EntryView>, Seq<u8>), SettingsError>(
                    (entries@.map_values(|m: ModSetting| (m.key@, m.values@)), data@.skip(pos as int)),
                ),
                settings@ == entries_map(entries@.map_values(|m: ModSetting| (m.key@, m.values@))),
            decreases n_settings - k,
        {
            let ghost before = entries@.map_values(|m: ModSetting| (m.key@, m.values@));
            let (entry, next) = match ModSetting::load(data, pos) {
                Ok(x) => x,
                Err(err) => {
                    proof {
                        lemma_take_n_entries_fails(data@.skip(settings_start as int), k as nat, n_settings as nat);
                    }
                    return Err(PackLoadError { section: PackSection::Setting(k), error: err });
                },
            };
            let ghost ev = (entry.key@, entry.values@);
            settings.insert(entry.key.clone(), entry.values.duplicate());
            entries.push(entry);
            proof {
                let now = entries@.map_values(|m: ModSetting| (m.key@, m.values@));
                assert(now =~= before.push(ev));
                assert(now.drop_last() =~= before);
            }
            pos = next;
            k = k + 1;
        }
        Ok(ModPack { file_name, name, mods, settings })
    }

    /// Writes this pack, keeping only the settings whose key the included
    /// leaves of `selection` name. Fails where a key or a string value is too
    /// long for its length prefix; what it writes reads back as this pack
    /// with only those settings.
    pub fn save(&self, selection: &ModSettingsGroup) -> (r: Result<Vec<u8>, SettingsError>)
        ensures
            ({
                let kept = selected_entries(self.entries_view(), included_keys(selection@));
                &&& r is Ok <==> forall|i: int| 0 <= i < kept.len() ==> entry_encodable(#[trigger] kept[i].0, kept[i].1)
                &&& r matches Ok(b) ==> b@ == pack_bytes(self.view_pack().name, self.view_pack().mods, kept)
                &&& r matches Ok(b) ==> pack_loaded(b@) == Ok::<PackView, SettingsError>(
                    PackView {
                        name: self.view_pack().name,
                        mods: self.view_pack().mods,
                        settings: entries_map(kept),
                    },
                )
                &&& r is Err ==> r == Err::<Vec<u8>, SettingsError>(SettingsError::LengthOverflow)
            }),
    {
        let keys = selection.to_set();
        let ghost keys_v = keys@.map_values(|k: String| k@);
        let all = self.settings.entries();
        let ghost ev = self.settings.entries_view();
        let mut kept: Vec<&ModSetting> = Vec::new();
        let mut i: usize = 0;
        while i < all.len()
            invariant
                i <= all@.len(),
                all@.map_values(|m: ModSetting| (m.key@, m.values@)) == ev,
                keys_v == keys@.map_values(|k: String| k@),
                kept@.map_values(|m: &ModSetting| (m.key@, m.values@)) == selected_entries(
                    ev.take(i as int),
                    keys_v,
                ),
            decreases all@.len() - i,
        {
            let ghost before = kept@.map_values(|m: &ModSetting| (m.key@, m.values@));
            proof {
                assert(ev.take(i + 1).drop_last() =~= ev.take(i as int));
                assert(ev.take(i + 1).last() == ev[i as int]);
            }
            if key_listed(&keys, all[i].key.as_str()) {
                kept.push(&all[i]);
                proof {
                    assert(kept@.map_values(|m: &ModSetting| (m.key@, m.values@)) =~= before.push(ev[i as int]));
                }
            }
            i = i + 1;
        }
        proof {
            assert(ev.take(all@.len() as int) =~= ev);
        }
        let ghost kept_v = kept@.map_values(|m: &ModSetting| (m.key@, m.values@));
        let ghost wanted = selected_entries(self.entries_view(), included_keys(selection@));
        assert(kept_v == wanted);
        let mut out: Vec<u8> = Vec::new();
        write_u64(&mut out, PACK_VERSION, Endianness::Little);
        write_str64(&mut out, self.name.as_str(), Endianness::Little);
        write_u64(&mut out, self.mods.len() as u64, Endianness::Little);
        let ghost mods_v = self.mods@.map_values(|s: String| s@);
        let ghost head = out@;
        let mut j: usize = 0;
        while j < self.mods.len()
            invariant
                j <= self.mods@.len(),
                mods_v == self.mods@.map_values(|s: String| s@),
                out@ == head + mod_ids_bytes(mods_v.take(j as int)),
                kept_v == wanted,
                wanted == selected_entries(self.entries_view(), included_keys(selection@)),
                fits_u64(self.name@),
                forall|q: int| 0 <= q < j ==> fits_u64(#[trigger] mods_v[q]),
            decreases self.mods@.len() - j,
        {
            write_str64(&mut out, self.mods[j].as_str(), Endianness::Little);
            proof {
                assert(mods_v.take(j + 1).drop_last() =~= mods_v.take(j as int));
                assert(mods_v.take(j + 1).last() == self.mods@[j as int]@);
                assert(out@ =~= head + mod_ids_bytes(mods_v.take(j + 1)));
            }
            j = j + 1;
        }
        proof {
            assert(mods_v.take(self.mods@.len() as int) =~= mods_v);
        }
        write_u64(&mut out, kept.len() as u64, Endianness::Little);
        let ghost head2 = out@;
        let mut t: usize = 0;
        while t < kept.len()
            invariant
                t <= kept@.len(),
                kept_v == kept@.map_values(|m: &ModSetting| (m.key@, m.values@)),
                out@ == head2 + pack_entries_bytes(kept_v.take(t as int)),
                kept_v == wanted,
                wanted == selected_entries(self.entries_view(), included_keys(selection@)),
                fits_u64(self.name@),
                forall|q: int| 0 <= q < mods_v.len() ==> fits_u64(#[trigger] mods_v[q]),
                forall|q: int| 0 <= q < t ==> entry_encodable(#[trigger] kept_v[q].0, kept_v[q].1),
            decreases kept@.len() - t,
        {
            let res = kept[t].save(&mut out);
            if res.is_err() {
                assert(!entry_encodable(kept_v[t as int].0, kept_v[t as int].1));
                assert(!(forall|q: int| 0 <= q < wanted.len() ==> entry_encodable(#[trigger] wanted[q].0, wanted[q].1)));
                return Err(SettingsError::LengthOverflow);
            }
            proof {
                assert(kept_v.take(t + 1).drop_last() =~= kept_v.take(t as int));
                assert(kept_v.take(t + 1).last() == kept_v[t as int]);
                assert(out@ =~= head2 + pack_entries_bytes(kept_v.take(t + 1)));
            }
            t = t + 1;
        }
        proof {
            assert(kept_v.take(kept@.len() as int) =~= kept_v);
            assert(out@ =~= pack_bytes(self.name@, mods_v, kept_v));
            lemma_pack_round_trip(self.name@, mods_v, kept_v);
        }
        Ok(out)
    }

    /// Applies this pack: every mod with an enabled flag is turned on exactly
    /// where the pack lists its id; the turned-on mods take, among their own
    /// places, the order in which the pack lists them; every other mod keeps
    /// its place. The pack's settings then overwrite those of `settings`.
    pub fn apply(&self, mods: &mut Vec<Mod>, settings: &mut ModSettings)
        ensures
            final(mods)@ == applied(old(mods)@, self.view_pack().mods),
            final(settings)@ == old(settings)@.union_prefer_right(self.view_pack().settings),
    {
        let ghost ids = self.view_pack().mods;
        let ghost ms = mods@;
        let mut rest: Vec<Mod> = Vec::new();
        std::mem::swap(mods, &mut rest);
        let mut hole_list: Vec<Option<Mod>> = Vec::new();
        let mut chosen: Vec<Mod> = Vec::new();
        let mut ranks: Vec<usize> = Vec::new();
        let ghost mut c: int = 0;
        proof {
            assert(rest@ =~= ms.skip(0));
            assert(holes(ms.take(0), ids) =~= Seq::<Option<Mod>>::empty());
            assert(picked(ms, ids) =~= chosen@ + picked(rest@, ids));
        }
        while rest.len() > 0
            invariant
                ids == self.mods@.map_values(|s: String| s@),
                0 <= c <= ms.len(),
                rest@ == ms.skip(c),
                hole_list@ == holes(ms.take(c), ids),
                picked(ms, ids) == chosen@ + picked(rest@, ids),
                ranks@.len() == chosen@.len(),
                forall|t: int|
                    0 <= t < ranks@.len() ==> #[trigger] ranks@[t] as int == pack_rank(ids, chosen@[t].id@)
                        && ranks@[t] < ids.len(),
            decreases rest@.len(),
        {
            let ghost r0 = rest@;
            let mut m = rest.remove(0);
            let ghost m0 = m;
            let rank = rank_in(&self.mods, m.id.as_str());
            proof {
                lemma_rank_contains(ids, m0.id@);
                assert(r0.drop_first() =~= rest@);
                assert(ms.take(c + 1) =~= ms.take(c).push(m0));
                assert(rest@ =~= ms.skip(c + 1));
            }
            let normal = match m.kind {
                ModKind::Normal(_) => true,
                _ => false,
            };
            let ghost before_chosen = chosen@;
            match rank {
                Some(j) if normal => {
                    m.kind = ModKind::Normal(NormalMod { enabled: true });
                    proof {
                        assert(m == with_enabled(m0, true));
                    }
                    chosen.push(m);
                    ranks.push(j);
                    hole_list.push(None);
                    proof {
                        assert(picked(r0, ids) == seq![with_enabled(m0, true)] + picked(rest@, ids));
                        assert(before_chosen + (seq![with_enabled(m0, true)] + picked(rest@, ids))
                            =~= chosen@ + picked(rest@, ids));
                        assert(ranks@[ranks@.len() - 1] == j);
                        assert(chosen@[chosen@.len() - 1] == with_enabled(m0, true));
                    }
                },
                _ => {
                    if normal {
                        m.kind = ModKind::Normal(NormalMod { enabled: false });
                    }
                    proof {
                        assert(m == with_enabled(m0, false));
                    }
                    hole_list.push(Some(m));
                },
            }
            proof {
                assert(hole_list@ =~= holes(ms.take(c + 1), ids));
                c = c + 1;
            }
        }
        let ghost ps = chosen@;
        proof {
            assert(ms.take(c) =~= ms);
            assert(picked(rest@, ids) =~= Seq::<Mod>::empty());
            assert(chosen@ + Seq::<Mod>::empty() =~= chosen@);
        }
        let mut slots: Vec<Option<Mod>> = Vec::new();
        let mut k: usize = 0;
        let n_chosen = chosen.len();
        while chosen.len() > 0
            invariant
                k + chosen@.len() == ps.len(),
                n_chosen == ps.len(),
                chosen@ == ps.skip(k as int),
                slots@.len() == k,
                forall|t: int| 0 <= t < k ==> #[trigger] slots@[t] == Some(ps[t]),
            decreases chosen@.len(),
        {
            let m = chosen.remove(0);
            slots.push(Some(m));
            proof {
                assert(chosen@ =~= ps.skip(k + 1));
            }
            k = k + 1;
        }
        let n_ids = self.mods.len();
        let mut order: Vec<Mod> = Vec::new();
        let mut r: usize = 0;
        while r < n_ids
            invariant
                n_ids == ids.len(),
                r <= n_ids,
                slots@.len() == ps.len(),
                ranks@.len() == ps.len(),
                forall|t: int|
                    0 <= t < ranks@.len() ==> #[trigger] ranks@[t] as int == pack_rank(ids, ps[t].id@)
                        && ranks@[t] < ids.len(),
                order@ == arranged(ps, ids, r as nat),
                forall|t: int|
                    0 <= t < ps.len() ==> #[trigger] slots@[t] == if ranks@[t] < r {
                        None
                    } else {
                        Some(ps[t])
                    },
            decreases n_ids - r,
        {
            let mut t: usize = 0;
            proof {
                assert(ps.take(0) =~= Seq::<Mod>::empty());
                assert(arranged(ps, ids, r as nat) + of_rank(ps.take(0), ids, r as int) =~= arranged(ps, ids, r as nat));
            }
            while t < slots.len()
                invariant
                    slots@.len() == ps.len(),
                    ranks@.len() == ps.len(),
                    t <= ps.len(),
                    forall|q: int|
                        0 <= q < ranks@.len() ==> #[trigger] ranks@[q] as int == pack_rank(ids, ps[q].id@),
                    order@ == arranged(ps, ids, r as nat) + of_rank(ps.take(t as int), ids, r as int),
                    forall|q: int|
                        0 <= q < ps.len() ==> #[trigger] slots@[q] == if ranks@[q] < r || (q < t
                            && ranks@[q] == r) {
                            None
                        } else {
                            Some(ps[q])
                        },
                decreases ps.len() - t,
            {
                proof {
                    assert(ps.take(t + 1).drop_last() =~= ps.take(t as int));
                    assert(ps.take(t + 1).last() == ps[t as int]);
                }
                if ranks[t] == r {
                    let taken = slots[t].take();
                    match taken {
                        Some(m) => {
                            order.push(m);
                        },
                        None => {
                            assert(false);
                        },
                    }
                    proof {
                        assert(order@ =~= arranged(ps, ids, r as nat) + of_rank(ps.take(t + 1), ids, r as int));
                    }
                }
                t = t + 1;
            }
            proof {
                assert(ps.take(ps.len() as int) =~= ps);
                assert(arranged(ps, ids, (r + 1) as nat) == arranged(ps, ids, r as nat) + of_rank(ps, ids, r as int));
            }
            r = r + 1;
        }
        proof {
            lemma_holes_count(ms, ids);
            lemma_arranged_len(ps, ids, ids.len());
            assert forall|t: int| 0 <= t < ps.len() implies 0 <= #[trigger] pack_rank(ids, ps[t].id@)
                < ids.len() by {
                assert(ranks@[t] as int == pack_rank(ids, ps[t].id@));
            }
            lemma_ranked_below_all(ps, ids);
            assert(hole_list@ == holes(ms, ids));
        }
        let ghost all_holes = hole_list@;
        let ghost all_order = order@;
        let mut result: Vec<Mod> = Vec::new();
        proof {
            assert(result@ + filled(hole_list@, order@) =~= filled(all_holes, all_order));
        }
        while hole_list.len() > 0
            invariant
                filled(all_holes, all_order) == result@ + filled(hole_list@, order@),
                hole_count(hole_list@) == order@.len(),
            decreases hole_list@.len(),
        {
            let ghost l0 = hole_list@;
            let ghost a0 = order@;
            let h = hole_list.remove(0);
            proof {
                assert(l0.drop_first() =~= hole_list@);
            }
            match h {
                Some(m) => {
                    let ghost before = result@;
                    result.push(m);
                    proof {
                        assert(before + (seq![m] + filled(hole_list@, order@)) =~= result@ + filled(
                            hole_list@,
                            order@,
                        ));
                    }
                },
                None => {
                    let ghost before = result@;
                    let m = order.remove(0);
                    result.push(m);
                    proof {
                        assert(a0.drop_first() =~= order@);
                        assert(before + (seq![m] + filled(hole_list@, order@)) =~= result@ + filled(
                            hole_list@,
                            order@,
                        ));
                    }
                },
            }
        }
        proof {
            assert(result@ + Seq::<Mod>::empty() =~= result@);
        }
        *mods = result;

        let entries = self.settings.entries();
        let ghost ev = self.settings.entries_view();
        let ghost start = settings@;
        let mut i: usize = 0;
        proof {
            assert(ev.take(0) =~= Seq::<EntryView>::empty());
        }
        while i < entries.len()
            invariant
                i <= entries@.len(),
                entries@.map_values(|m: ModSetting| (m.key@, m.values@)) == ev,
                settings@ == merged(start, ev.take(i as int)),
            decreases entries@.len() - i,
        {
            settings.insert(entries[i].key.clone(), entries[i].values.duplicate());
            proof {
                assert(ev.take(i + 1).drop_last() =~= ev.take(i as int));
                assert(ev.take(i + 1).last() == ev[i as int]);
            }
            i = i + 1;
        }
        proof {
            assert(ev.take(entries@.len() as int) =~= ev);
            lemma_merged_union(start, ev);
            self.settings.lemma_view_is_entries_map();
        }
    }

    /// A pack named `name` of the mods `mods` with a copy of `settings`.
    pub fn new(name: String, file_name: String, mods: &[String], settings: &ModSettings) -> (r: ModPack)
        ensures
            r.view_pack() == (PackView {
                name: name@,
                mods: mods@.map_values(|s: String| s@),
                settings: settings@,
            }),
            r.file_name_view() == file_name@,
    {
        let mut ids: Vec<String> = Vec::new();
        let mut i: usize = 0;
        while i < mods.len()
            invariant
                i <= mods@.len(),
                ids@ == mods@.take(i as int),
            decreases mods@.len() - i,
        {
            ids.push(mods[i].clone());
            proof {
                assert(mods@.take(i + 1) =~= mods@.take(i as int).push(mods@[i as int]));
            }
            i = i + 1;
        }
        proof {
            assert(mods@.take(mods@.len() as int) =~= mods@);
        }
        ModPack { file_name, name, mods: ids, settings: settings.duplicate() }
    }

    /// The name of the file the pack was read from or is to be written to.
    pub fn file_name(&self) -> (r: &str)
        ensures
            r@ == self.file_name_view(),
    {
        self.file_name.as_str()
    }

    /// The pack's name.
    pub fn name(&self) -> (r: &str)
        ensures
            r@ == self.view_pack().name,
    {
        self.name.as_str()
    }

    /// The ids of the pack's mods, in pack order.
    pub fn mods(&self) -> (r: &Vec<String>)
        ensures
            r@.map_values(|s: String| s@) == self.view_pack().mods,
    {
        &self.mods
    }

    /// The pack's settings.
    pub fn settings(&self) -> (r: &ModSettings)
        ensures
            r@ == self.view_pack().settings,
            r.entries_view() == self.entries_view(),
    {
        &self.settings
    }
}

/// Whether `key` is one of `keys`.
fn key_listed(keys: &Vec<String>, key: &str) -> (r: bool)
    ensures
        r == keys@.map_values(|k: String| k@).contains(key@),
{
    let mut i: usize = 0;
    while i < keys.len()
        invariant
            i <= keys@.len(),
            forall|j: int| 0 <= j < i ==> keys@[j]@ != key@,
        decreases keys@.len() - i,
    {
        if crate::ext::str_eq(keys[i].as_str(), key) {
            assert(keys@.map_values(|k: String| k@)[i as int] == key@);
            return true;
        }
        i = i + 1;
    }
    proof {
        let kv = keys@.map_values(|k: String| k@);
        if kv.contains(key@) {
            let j = choose|j: int| 0 <= j < kv.len() && #[trigger] kv[j] == key@;
            assert(keys@[j]@ == key@);
        }
    }
    false
}

proof fn lemma_take_mod_ids_fails(s: Seq<u8>, k: nat, n: nat)
    requires
        k < n,
        take_mod_ids(s, k) matches Ok((_, rest)) && take_str64(rest, Endianness::Little) is Err,
    ensures
        take_mod_ids(s, n) == Err::<(Seq<Seq<char>>, Seq<u8>), SettingsError>(
            take_str64(take_mod_ids(s, k)->Ok_0.1, Endianness::Little)->Err_0,
        ),
        ids_read(s, n) == k,
    decreases n - k,
{
    if k + 1 < n {
        lemma_take_mod_ids_fails_after(s, k, (n - 1) as nat);
    }
}

proof fn lemma_take_mod_ids_fails_after(s: Seq<u8>, k: nat, n: nat)
    requires
        k < n,
        take_mod_ids(s, k + 1) is Err,
    ensures
        take_mod_ids(s, n) == take_mod_ids(s, k + 1),
        take_mod_ids(s, n + 1) == take_mod_ids(s, k + 1),
        take_mod_ids(s, k) matches Ok((_, rest)) && take_str64(rest, Endianness::Little) is Err
            ==> ids_read(s, n + 1) == k,
    decreases n - k,
{
    if k + 1 < n {
        lemma_take_mod_ids_fails_after(s, k, (n - 1) as nat);
    }
    if take_mod_ids(s, k) matches Ok((_, rest)) && take_str64(rest, Endianness::Little) is Err {
        assert(ids_read(s, k + 1) == k);
        assert(ids_read(s, n) == k);
        assert(ids_read(s, n + 1) == ids_read(s, n));
    }
}

proof fn lemma_take_n_entries_fails(s: Seq<u8>, k: nat, n: nat)
    requires
        k < n,
        take_n_entries(s, k) matches Ok((_, rest)) && take_entry(rest) is Err,
    ensures
        take_n_entries(s, n) == Err::<(Seq<EntryView>, Seq<u8>), SettingsError>(
            take_entry(take_n_entries(s, k)->Ok_0.1)->Err_0,
        ),
        settings_read(s, n) == k,
    decreases n - k,
{
    if k + 1 < n {
        lemma_take_n_entries_fails_after(s, k, (n - 1) as nat);
    }
}

proof fn lemma_take_n_entries_fails_after(s: Seq<u8>, k: nat, n: nat)
    requires
        k < n,
        take_n_entries(s, k + 1) is Err,
    ensures
        take_n_entries(s, n) == take_n_entries(s, k + 1),
        take_n_entries(s, n + 1) == take_n_entries(s, k + 1),
        take_n_entries(s, k) matches Ok((_, rest)) && take_entry(rest) is Err ==> settings_read(
            s,
            n + 1,
        ) == k,
    decreases n - k,
{
    if k + 1 < n {
        lemma_take_n_entries_fails_after(s, k, (n - 1) as nat);
    }
    if take_n_entries(s, k) matches Ok((_, rest)) && take_entry(rest) is Err {
        assert(settings_read(s, k + 1) == k);
        assert(settings_read(s, n) == k);
        assert(settings_read(s, n + 1) == settings_read(s, n));
    }
}

} // verus!
