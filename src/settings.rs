use vstd::prelude::*;

use crate::hierarchy::{
    leaf_at, lemma_split_injective, sorted_deep, split_dots, split_key, tidy, ModSettingsGroup,
};
use crate::envelope::{compress_file, decompress_file, envelope_of, unwrapped};
use crate::error::SettingsError;
use crate::ext::{
    fits_u32, lemma_u32_round_trip, lemma_u64_round_trip, read_u64, str32_bytes, str_eq, take_u64,
    u32_bytes, u64_bytes, write_u64, Endianness,
};
use crate::modsettings::{
    entry_bytes, entry_encodable, lemma_bad_current_tag, lemma_bad_next_tag, lemma_entry_round_trip,
    lemma_take_entry_shrinks, payload_bytes, take_entry, type_tag, value_encodable, ModSetting,
    ModSettingPair, PairView, SettingValue,
};

verus! {

/// A store entry as the contracts see it: key and pair.
pub type EntryView = (Seq<char>, PairView);

/// Whether no two entries of `s` share a key.
pub open spec fn keys_unique(s: Seq<EntryView>) -> bool {
    forall|i: int, j: int| 0 <= i < j < s.len() ==> #[trigger] s[i].0 != #[trigger] s[j].0
}

/// The mapping that inserting the entries of `s` in order leaves: a later
/// entry overwrites an earlier one with the same key.
pub open spec fn entries_map(s: Seq<EntryView>) -> Map<Seq<char>, PairView>
    decreases s.len(),
{
    if s.len() == 0 {
        Map::empty()
    } else {
        entries_map(s.drop_last()).insert(s.last().0, s.last().1)
    }
}

/// The entries of `s` written one after another.
pub open spec fn entries_bytes(s: Seq<EntryView>) -> Seq<u8>
    decreases s.len(),
{
    if s.len() == 0 {
        Seq::empty()
    } else {
        entries_bytes(s.drop_last()) + entry_bytes(s.last().0, s.last().1)
    }
}

/// Whether every entry of `s` can be written.
pub open spec fn entries_encodable(s: Seq<EntryView>) -> bool {
    forall|i: int| 0 <= i < s.len() ==> entry_encodable(#[trigger] s[i].0, s[i].1)
}

/// The decompressed payload of a settings file holding the entries `s`:
/// their count as a big-endian `u64`, then the entries.
pub open spec fn store_payload(s: Seq<EntryView>) -> Seq<u8> {
    u64_bytes(s.len() as u64, Endianness::Big) + entries_bytes(s)
}

/// Reads entries off `s` until it is used up.
pub open spec fn take_entries(s: Seq<u8>) -> Result<Seq<EntryView>, SettingsError>
    decreases s.len(),
{
    if s.len() == 0 {
        Ok(Seq::empty())
    } else {
        match take_entry(s) {
            Err(e) => Err(e),
            Ok((entry, rest)) => if rest.len() < s.len() {
                match take_entries(rest) {
                    Err(e) => Err(e),
                    Ok(es) => Ok(seq![entry] + es),
                }
            } else {
                // An entry always takes at least its twelve bytes of lengths and tags.
                Err(SettingsError::ShortRead)
            },
        }
    }
}

/// Reads a decompressed settings payload: the declared count, then entries
/// until the payload is used up; the two numbers must agree.
pub open spec fn parse_store(payload: Seq<u8>) -> Result<Map<Seq<char>, PairView>, SettingsError> {
    match take_u64(payload, Endianness::Big) {
        Err(e) => Err(e),
        Ok((expected, body)) => match take_entries(body) {
            Err(e) => Err(e),
            Ok(es) => if es.len() == expected {
                Ok(entries_map(es))
            } else {
                Err(SettingsError::EntryCountMismatch { expected, found: es.len() as u64 })
            },
        },
    }
}

/// Reads a settings file of `file_size` bytes whose content is `data`.
pub open spec fn store_loaded(data: Seq<u8>, file_size: int) -> Result<
    Map<Seq<char>, PairView>,
    SettingsError,
> {
    match unwrapped(data, file_size) {
        Err(e) => Err(e),
        Ok(payload) => parse_store(payload),
    }
}

/// The part of a settings file where reading stopped.
#[derive(Debug, Clone, Copy, PartialEq, Eq, Structural)]
pub enum SettingsSection {
    /// The compression envelope around the payload.
    Envelope,
    /// The declared number of entries.
    Count,
    /// The entry with this index, counting from 0.
    Entry(u64),
}

/// A failed read of a settings file: what went wrong, and where.
#[derive(Debug, Clone, Copy, PartialEq, Eq, Structural)]
pub struct LoadError {
    pub section: SettingsSection,
    pub error: SettingsError,
}

/// How many entries are read off `s` before reading stops.
pub open spec fn entries_read(s: Seq<u8>) -> nat
    decreases s.len(),
{
    if s.len() == 0 {
        0
    } else {
        match take_entry(s) {
            Err(_) => 0,
            Ok((_, rest)) => if rest.len() < s.len() {
                1 + entries_read(rest)
            } else {
                0
            },
        }
    }
}

/// Where reading a settings file of `file_size` bytes whose content is
/// `data` stops, where it fails.
pub open spec fn failed_section(data: Seq<u8>, file_size: int) -> SettingsSection {
    match unwrapped(data, file_size) {
        Err(_) => SettingsSection::Envelope,
        Ok(payload) => match take_u64(payload, Endianness::Big) {
            Err(_) => SettingsSection::Count,
            Ok((_, body)) => match take_entries(body) {
                Err(_) => SettingsSection::Entry(entries_read(body) as u64),
                Ok(_) => SettingsSection::Count,
            },
        },
    }
}

/// The segment paths of the keys of `m`.
pub open spec fn key_paths(m: Map<Seq<char>, PairView>) -> Set<Seq<Seq<char>>> {
    Set::new(|p: Seq<Seq<char>>| exists|k: Seq<char>| m.contains_key(k) && split_dots(k) == p)
}

/// Prepends `done` to a successful read of further entries.
pub open spec fn after(done: Seq<EntryView>, r: Result<Seq<EntryView>, SettingsError>) -> Result<
    Seq<EntryView>,
    SettingsError,
> {
    match r {
        Err(e) => Err(e),
        Ok(es) => Ok(done + es),
    }
}

proof fn lemma_entries_map_contains(s: Seq<EntryView>, k: Seq<char>)
    ensures
        entries_map(s).contains_key(k) <==> exists|i: int| 0 <= i < s.len() && s[i].0 == k,
    decreases s.len(),
{
    if s.len() > 0 {
        lemma_entries_map_contains(s.drop_last(), k);
        if entries_map(s).contains_key(k) && k != s.last().0 {
            let i = choose|i: int| 0 <= i < s.len() - 1 && s.drop_last()[i].0 == k;
            assert(s[i].0 == k);
        }
        if exists|i: int| 0 <= i < s.len() && s[i].0 == k {
            let i = choose|i: int| 0 <= i < s.len() && s[i].0 == k;
            if i < s.len() - 1 {
                assert(s.drop_last()[i].0 == k);
            }
        }
    }
}

proof fn lemma_entries_map_value(s: Seq<EntryView>, i: int)
    requires
        keys_unique(s),
        0 <= i < s.len(),
    ensures
        entries_map(s).contains_key(s[i].0),
        entries_map(s)[s[i].0] == s[i].1,
    decreases s.len(),
{
    if i < s.len() - 1 {
        let t = s.drop_last();
        assert(t[i] == s[i]);
        assert(keys_unique(t)) by {
            assert forall|a: int, b: int| 0 <= a < b < t.len() implies #[trigger] t[a].0
                != #[trigger] t[b].0 by {
                assert(s[a] == t[a] && s[b] == t[b]);
            }
        }
        lemma_entries_map_value(t, i);
        assert(s[i].0 != s[s.len() - 1].0);
    }
}

proof fn lemma_entries_map_update(s: Seq<EntryView>, i: int, v: PairView)
    requires
        keys_unique(s),
        0 <= i < s.len(),
    ensures
        entries_map(s.update(i, (s[i].0, v))) == entries_map(s).insert(s[i].0, v),
        keys_unique(s.update(i, (s[i].0, v))),
{
    let t = s.update(i, (s[i].0, v));
    assert(keys_unique(t)) by {
        assert forall|a: int, b: int| 0 <= a < b < t.len() implies #[trigger] t[a].0
            != #[trigger] t[b].0 by {
            assert(t[a].0 == s[a].0 && t[b].0 == s[b].0);
        }
    }
    let m = entries_map(s).insert(s[i].0, v);
    assert forall|k: Seq<char>| #[trigger] entries_map(t).contains_key(k) <==> m.contains_key(k) by {
        lemma_entries_map_contains(t, k);
        lemma_entries_map_contains(s, k);
        if exists|j: int| 0 <= j < s.len() && s[j].0 == k {
            let j = choose|j: int| 0 <= j < s.len() && s[j].0 == k;
            assert(t[j].0 == k);
        }
        if exists|j: int| 0 <= j < t.len() && t[j].0 == k {
            let j = choose|j: int| 0 <= j < t.len() && t[j].0 == k;
            assert(s[j].0 == k);
        }
    }
    assert forall|k: Seq<char>| #[trigger] entries_map(t).contains_key(k) implies entries_map(t)[k]
        == m[k] by {
        lemma_entries_map_contains(t, k);
        let j = choose|j: int| 0 <= j < t.len() && t[j].0 == k;
        lemma_entries_map_value(t, j);
        if j != i {
            lemma_entries_map_value(s, j);
        }
    }
    assert(entries_map(t) =~= m);
}

proof fn lemma_push_unique(s: Seq<EntryView>, e: EntryView)
    requires
        keys_unique(s),
        forall|i: int| 0 <= i < s.len() ==> s[i].0 != e.0,
    ensures
        keys_unique(s.push(e)),
        entries_map(s.push(e)) == entries_map(s).insert(e.0, e.1),
{
    let t = s.push(e);
    assert(t.drop_last() =~= s);
    assert forall|a: int, b: int| 0 <= a < b < t.len() implies #[trigger] t[a].0
        != #[trigger] t[b].0 by {
        if b < s.len() {
            assert(t[a] == s[a] && t[b] == s[b]);
        }
    }
}

proof fn lemma_entries_bytes_push(s: Seq<EntryView>, e: EntryView)
    ensures
        entries_bytes(s.push(e)) == entries_bytes(s) + entry_bytes(e.0, e.1),
        entries_map(s.push(e)) == entries_map(s).insert(e.0, e.1),
{
    assert(s.push(e).drop_last() =~= s);
}

/// Entries written by `entries_bytes` read back as the same entries.
pub proof fn lemma_entries_round_trip(s: Seq<EntryView>)
    requires
        entries_encodable(s),
    ensures
        take_entries(entries_bytes(s)) == Ok::<Seq<EntryView>, SettingsError>(s),
{
    lemma_entries_then(s, Seq::empty());
    assert(entries_bytes(s) + Seq::<u8>::empty() =~= entries_bytes(s));
    assert(s + Seq::<EntryView>::empty() =~= s);
}

/// Reading well-formed entries followed by other bytes gives those entries,
/// then whatever reading the other bytes gives.
pub proof fn lemma_entries_then(s: Seq<EntryView>, t: Seq<u8>)
    requires
        entries_encodable(s),
    ensures
        take_entries(entries_bytes(s) + t) == after(s, take_entries(t)),
    decreases s.len(),
{
    if s.len() == 0 {
        assert(entries_bytes(s) + t =~= t);
        match take_entries(t) {
            Err(_) => {},
            Ok(es) => assert(s + es =~= es),
        }
    } else {
        let first = s[0];
        let tail = s.drop_first();
        assert(entries_encodable(tail)) by {
            assert forall|i: int| 0 <= i < tail.len() implies entry_encodable(
                #[trigger] tail[i].0,
                tail[i].1,
            ) by {
                assert(tail[i] == s[i + 1]);
            }
        }
        assert(seq![first] + tail =~= s);
        lemma_entries_bytes_front(first, tail);
        let rest = entries_bytes(tail) + t;
        assert(entries_bytes(s) + t =~= entry_bytes(first.0, first.1) + rest);
        lemma_entry_round_trip(first.0, first.1, rest);
        lemma_take_entry_shrinks(entry_bytes(first.0, first.1) + rest);
        lemma_entries_then(tail, t);
        match take_entries(t) {
            Err(_) => {},
            Ok(es) => {
                assert(seq![first] + (tail + es) =~= s + es);
            },
        }
    }
}

/// An entry that cannot be read, after any number of well-formed ones,
/// fails the whole payload with that entry's error.
pub proof fn lemma_bad_entry_rejected(count: u64, s: Seq<EntryView>, bad: Seq<u8>)
    requires
        entries_encodable(s),
        bad.len() > 0,
        take_entry(bad) is Err,
    ensures
        parse_store(u64_bytes(count, Endianness::Big) + entries_bytes(s) + bad) == Err::<
            Map<Seq<char>, PairView>,
            SettingsError,
        >(take_entry(bad)->Err_0),
{
    lemma_entries_then(s, bad);
    lemma_u64_round_trip(count, Endianness::Big, entries_bytes(s) + bad);
    assert(u64_bytes(count, Endianness::Big) + entries_bytes(s) + bad =~= u64_bytes(
        count,
        Endianness::Big,
    ) + (entries_bytes(s) + bad));
}

/// A current-value type tag of 4 or more, in an entry after any number of
/// well-formed ones, fails the payload with `InvalidTypeId`.
pub proof fn lemma_bad_current_tag_in_store(
    count: u64,
    s: Seq<EntryView>,
    key: Seq<char>,
    tag: u32,
    next: u32,
    rest: Seq<u8>,
)
    requires
        entries_encodable(s),
        fits_u32(key),
        tag >= 4,
    ensures
        parse_store(
            u64_bytes(count, Endianness::Big) + entries_bytes(s) + (str32_bytes(key, Endianness::Big)
                + u32_bytes(tag, Endianness::Big) + u32_bytes(next, Endianness::Big) + rest),
        ) == Err::<Map<Seq<char>, PairView>, SettingsError>(SettingsError::InvalidTypeId(tag)),
{
    let bad = str32_bytes(key, Endianness::Big) + u32_bytes(tag, Endianness::Big) + u32_bytes(
        next,
        Endianness::Big,
    ) + rest;
    lemma_bad_current_tag(key, tag, next, rest);
    lemma_u32_round_trip(tag, Endianness::Big, Seq::empty());
    lemma_bad_entry_rejected(count, s, bad);
}

/// A next-value type tag of 4 or more, in an entry after any number of
/// well-formed ones and after a well-formed current value, fails the
/// payload with `InvalidTypeId`.
pub proof fn lemma_bad_next_tag_in_store(
    count: u64,
    s: Seq<EntryView>,
    key: Seq<char>,
    current: SettingValue,
    tag: u32,
    rest: Seq<u8>,
)
    requires
        entries_encodable(s),
        fits_u32(key),
        value_encodable(current),
        tag >= 4,
    ensures
        parse_store(
            u64_bytes(count, Endianness::Big) + entries_bytes(s) + (str32_bytes(key, Endianness::Big)
                + u32_bytes(type_tag(current), Endianness::Big) + u32_bytes(tag, Endianness::Big)
                + payload_bytes(current) + rest),
        ) == Err::<Map<Seq<char>, PairView>, SettingsError>(SettingsError::InvalidTypeId(tag)),
{
    let bad = str32_bytes(key, Endianness::Big) + u32_bytes(type_tag(current), Endianness::Big)
        + u32_bytes(tag, Endianness::Big) + payload_bytes(current) + rest;
    lemma_bad_next_tag(key, current, tag, rest);
    lemma_u32_round_trip(tag, Endianness::Big, Seq::empty());
    lemma_bad_entry_rejected(count, s, bad);
}

proof fn lemma_entries_bytes_front(first: EntryView, tail: Seq<EntryView>)
    ensures
        entries_bytes(seq![first] + tail) == entry_bytes(first.0, first.1) + entries_bytes(tail),
    decreases tail.len(),
{
    let s = seq![first] + tail;
    let eb = entry_bytes(first.0, first.1);
    if tail.len() == 0 {
        assert(s.drop_last() =~= Seq::<EntryView>::empty());
        assert(s.last() == first);
        assert(entries_bytes(Seq::<EntryView>::empty()) == Seq::<u8>::empty());
        assert(entries_bytes(s) == entries_bytes(s.drop_last()) + eb);
        assert(entries_bytes(tail) == Seq::<u8>::empty());
        assert(Seq::<u8>::empty() + eb =~= eb + Seq::<u8>::empty());
    } else {
        let t = tail.drop_last();
        let x = tail.last();
        let ex = entry_bytes(x.0, x.1);
        assert(s.drop_last() =~= seq![first] + t);
        assert(s.last() == x);
        lemma_entries_bytes_front(first, t);
        assert(entries_bytes(s) == entries_bytes(s.drop_last()) + ex);
        assert(entries_bytes(tail) == entries_bytes(t) + ex);
        assert(eb + entries_bytes(t) + ex =~= eb + (entries_bytes(t) + ex));
    }
}

/// A store's payload reads back as the same mapping, and declares its own
/// number of entries.
pub proof fn lemma_store_round_trip(s: Seq<EntryView>)
    requires
        entries_encodable(s),
        s.len() <= u64::MAX,
    ensures
        store_payload(s).take(8) == u64_bytes(s.len() as u64, Endianness::Big),
        parse_store(store_payload(s)) == Ok::<Map<Seq<char>, PairView>, SettingsError>(
            entries_map(s),
        ),
{
    lemma_u64_round_trip(s.len() as u64, Endianness::Big, entries_bytes(s));
    assert(store_payload(s).take(8) =~= u64_bytes(s.len() as u64, Endianness::Big));
    lemma_entries_round_trip(s);
}

/// A payload whose declared count differs from the number of entries that
/// follow it is refused with `EntryCountMismatch`.
pub proof fn lemma_tampered_count_rejected(s: Seq<EntryView>, count: u64)
    requires
        entries_encodable(s),
        count != s.len(),
        s.len() <= u64::MAX,
    ensures
        parse_store(u64_bytes(count, Endianness::Big) + entries_bytes(s)) == Err::<
            Map<Seq<char>, PairView>,
            SettingsError,
        >(SettingsError::EntryCountMismatch { expected: count, found: s.len() as u64 }),
{
    lemma_u64_round_trip(count, Endianness::Big, entries_bytes(s));
    lemma_entries_round_trip(s);
}

/// The game's settings: a mapping from dotted keys to a current and a next value.
#[derive(Debug)]
pub struct ModSettings {
    entries: Vec<ModSetting>,
}

impl ModSettings {
    /// The entries in their stored order.
    pub closed spec fn entries_view(&self) -> Seq<EntryView> {
        self.entries@.map_values(|m: ModSetting| (m.key@, m.values@))
    }

    #[verifier::type_invariant]
    closed spec fn inv(&self) -> bool {
        keys_unique(self.entries_view())
    }

    /// Whether every key and string value fits its length prefix.
    pub open spec fn encodable(&self) -> bool {
        entries_encodable(self.entries_view())
    }

    /// An empty store.
    pub fn new() -> (r: ModSettings)
        ensures
            r@ == Map::<Seq<char>, PairView>::empty(),
            r.entries_view().len() == 0,
    {
        let r = ModSettings { entries: Vec::new() };
        assert(r.entries_view() =~= Seq::empty());
        r
    }

    /// The mapping is the one the entries give when inserted in order.
    pub proof fn lemma_view_is_entries_map(&self)
        ensures
            self@ == entries_map(self.entries_view()),
    {
    }

    /// A copy of this store, entries in the same order.
    pub fn duplicate(&self) -> (r: ModSettings)
        ensures
            r@ == self@,
            r.entries_view() == self.entries_view(),
    {
        proof {
            use_type_invariant(self);
        }
        let mut entries: Vec<ModSetting> = Vec::new();
        let mut i: usize = 0;
        while i < self.entries.len()
            invariant
                i <= self.entries@.len(),
                entries@.map_values(|m: ModSetting| (m.key@, m.values@)) == self.entries_view().take(
                    i as int,
                ),
            decreases self.entries@.len() - i,
        {
            let e = &self.entries[i];
            let ghost before = entries@.map_values(|m: ModSetting| (m.key@, m.values@));
            entries.push(ModSetting { key: e.key.clone(), values: e.values.duplicate() });
            proof {
                assert(self.entries_view()[i as int] == (e.key@, e.values@));
                assert(entries@.map_values(|m: ModSetting| (m.key@, m.values@)) =~= before.push((e.key@, e.values@)));
                assert(self.entries_view().take(i + 1) =~= self.entries_view().take(i as int).push(self.entries_view()[i as int]));
                assert(entries@.map_values(|m: ModSetting| (m.key@, m.values@)) =~= self.entries_view().take(i + 1));
            }
            i = i + 1;
        }
        proof {
            assert(self.entries_view().take(i as int) =~= self.entries_view());
        }
        ModSettings { entries }
    }

    /// The entries in their stored order.
    pub fn entries(&self) -> (r: &Vec<ModSetting>)
        ensures
            r@.map_values(|m: ModSetting| (m.key@, m.values@)) == self.entries_view(),
    {
        &self.entries
    }

    /// How many keys the store holds.
    pub fn len(&self) -> (r: usize)
        ensures
            r == self@.len(),
            r == self.entries_view().len(),
    {
        proof {
            use_type_invariant(self);
            self.lemma_view_len();
        }
        self.entries.len()
    }

    proof fn lemma_view_len(&self)
        requires
            keys_unique(self.entries_view()),
        ensures
            self@.len() == self.entries_view().len(),
            self@.dom().finite(),
    {
        lemma_unique_map_len(self.entries_view());
    }

    /// The index of `key`'s entry, if it has one.
    fn find(&self, key: &str) -> (r: Option<usize>)
        ensures
            match r {
                Some(i) => i < self.entries_view().len() && self.entries_view()[i as int].0
                    == key@,
                None => forall|i: int|
                    0 <= i < self.entries_view().len() ==> self.entries_view()[i].0 != key@,
            },
    {
        let mut i: usize = 0;
        while i < self.entries.len()
            invariant
                i <= self.entries@.len(),
                forall|j: int| 0 <= j < i ==> self.entries_view()[j].0 != key@,
            decreases self.entries@.len() - i,
        {
            if str_eq(self.entries[i].key.as_str(), key) {
                return Some(i);
            }
            i = i + 1;
        }
        None
    }

    /// The pair stored under `key`.
    pub fn get(&self, key: &str) -> (r: Option<&ModSettingPair>)
        ensures
            match r {
                Some(p) => self@.contains_key(key@) && self@[key@] == p@,
                None => !self@.contains_key(key@),
            },
    {
        proof {
            use_type_invariant(self);
            lemma_entries_map_contains(self.entries_view(), key@);
        }
        match self.find(key) {
            Some(i) => {
                proof {
                    lemma_entries_map_value(self.entries_view(), i as int);
                }
                Some(&self.entries[i].values)
            },
            None => None,
        }
    }

    /// Stores `values` under `key`, replacing what was there.
    pub fn insert(&mut self, key: String, values: ModSettingPair)
        ensures
            final(self)@ == old(self)@.insert(key@, values@),
    {
        proof {
            use_type_invariant(&*self);
        }
        let found = self.find(key.as_str());
        let ghost before = self.entries_view();
        let mut entries: Vec<ModSetting> = Vec::new();
        std::mem::swap(&mut self.entries, &mut entries);
        let entry = ModSetting { key, values };
        let ghost e = (entry.key@, entry.values@);
        match found {
            Some(i) => {
                entries.set(i, entry);
                proof {
                    lemma_entries_map_update(before, i as int, e.1);
                }
            },
            None => {
                entries.push(entry);
                proof {
                    lemma_push_unique(before, e);
                }
            },
        }
        proof {
            let now = entries@.map_values(|m: ModSetting| (m.key@, m.values@));
            match found {
                Some(i) => assert(now =~= before.update(i as int, e)),
                None => assert(now =~= before.push(e)),
            }
        }
        *self = ModSettings { entries };
    }

    /// Reads a settings file of `file_size` bytes whose content is `data`.
    pub fn load(data: &[u8], file_size: usize) -> (r: Result<ModSettings, LoadError>)
        ensures
            match store_loaded(data@, file_size as int) {
                Ok(m) => r matches Ok(s) && s@ == m,
                Err(e) => r matches Err(x) && x.error == e && x.section == failed_section(
                    data@,
                    file_size as int,
                ),
            },
    {
        let payload = match decompress_file(data, file_size) {
            Ok(p) => p,
            Err(error) => return Err(LoadError { section: SettingsSection::Envelope, error }),
        };
        let (expected, start) = match read_u64(payload.as_slice(), 0, Endianness::Big) {
            Ok(x) => x,
            Err(error) => {
                proof {
                    assert(payload@.skip(0) =~= payload@);
                }
                return Err(LoadError { section: SettingsSection::Count, error });
            },
        };
        proof {
            assert(payload@.skip(0) =~= payload@);
        }
        let ghost body = payload@.skip(8);
        let mut settings = ModSettings::new();
        let mut found: u64 = 0;
        let mut pos: usize = start;
        let ghost mut done: Seq<EntryView> = Seq::empty();
        proof {
            assert(done + Seq::<EntryView>::empty() =~= done);
            assert(body == payload@.skip(pos as int));
            assert(unwrapped(data@, file_size as int) == Ok::<Seq<u8>, SettingsError>(payload@));
        }
        while pos < payload.len()
            invariant
                8 <= pos <= payload@.len(),
                found == done.len(),
                done.len() <= pos,
                body == payload@.skip(8),
                unwrapped(data@, file_size as int) == Ok::<Seq<u8>, SettingsError>(payload@),
                take_u64(payload@, Endianness::Big) == Ok::<(u64, Seq<u8>), SettingsError>((expected, body)),
                settings@ == entries_map(done),
                take_entries(body) == after(done, take_entries(payload@.skip(pos as int))),
                entries_read(body) == done.len() + entries_read(payload@.skip(pos as int)),
            decreases payload@.len() - pos,
        {
            let ghost s = payload@.skip(pos as int);
            proof {
                lemma_take_entry_shrinks(s);
            }
            let (setting, next) = match ModSetting::load(payload.as_slice(), pos) {
                Ok(loaded) => loaded,
                Err(e) => {
                    proof {
                        assert(take_entries(s) == Err::<Seq<EntryView>, SettingsError>(e));
                        assert(take_entries(body) == Err::<Seq<EntryView>, SettingsError>(e));
                        assert(take_u64(payload@, Endianness::Big) == Ok::<(u64, Seq<u8>), SettingsError>((expected, body)));
                        assert(parse_store(payload@) == Err::<Map<Seq<char>, PairView>, SettingsError>(e));
                        assert(entries_read(s) == 0);
                    }
                    return Err(LoadError { section: SettingsSection::Entry(found), error: e });
                },
            };
            proof {
                let e = (setting.key@, setting.values@);
                let rest = payload@.skip(next as int);
                match take_entries(rest) {
                    Err(_) => {},
                    Ok(es) => {
                        assert(done + (seq![e] + es) =~= done.push(e) + es);
                    },
                }
                lemma_entries_bytes_push(done, e);
                done = done.push(e);
            }
            settings.insert(setting.key, setting.values);
            found = found + 1;
            pos = next;
        }
        proof {
            assert(payload@.skip(pos as int) =~= Seq::<u8>::empty());
            assert(done + Seq::<EntryView>::empty() =~= done);
        }
        if found != expected {
            return Err(
                LoadError {
                    section: SettingsSection::Count,
                    error: SettingsError::EntryCountMismatch { expected, found },
                },
            );
        }
        Ok(settings)
    }

    /// The decompressed payload of this store's settings file.
    pub fn payload(&self) -> (r: Result<Vec<u8>, SettingsError>)
        ensures
            r is Ok <==> self.encodable(),
            r matches Ok(b) ==> b@ == store_payload(self.entries_view()),
            r matches Ok(b) ==> b@.take(8) == u64_bytes(self@.len() as u64, Endianness::Big),
            r is Err ==> r == Err::<Vec<u8>, SettingsError>(SettingsError::LengthOverflow),
    {
        proof {
            use_type_invariant(self);
            self.lemma_view_len();
            assert(store_payload(self.entries_view()).take(8) =~= u64_bytes(
                self.entries_view().len() as u64,
                Endianness::Big,
            ));
        }
        let mut buf: Vec<u8> = Vec::new();
        write_u64(&mut buf, self.entries.len() as u64, Endianness::Big);
        let mut i: usize = 0;
        while i < self.entries.len()
            invariant
                i <= self.entries@.len(),
                buf@ == u64_bytes(self.entries@.len() as u64, Endianness::Big) + entries_bytes(
                    self.entries_view().take(i as int),
                ),
                entries_encodable(self.entries_view().take(i as int)),
            decreases self.entries@.len() - i,
        {
            let ghost before = buf@;
            let r = self.entries[i].save(&mut buf);
            if r.is_err() {
                assert(!entry_encodable(self.entries_view()[i as int].0, self.entries_view()[i as int].1));
                return Err(SettingsError::LengthOverflow);
            }
            proof {
                let v = self.entries_view();
                assert(v.take(i + 1) =~= v.take(i as int).push(v[i as int]));
                lemma_entries_bytes_push(v.take(i as int), v[i as int]);
                assert(buf@ =~= u64_bytes(self.entries@.len() as u64, Endianness::Big) + entries_bytes(v.take(i + 1)));
            }
            i = i + 1;
        }
        proof {
            assert(self.entries_view().take(i as int) =~= self.entries_view());
        }
        Ok(buf)
    }

    /// Writes this store as a settings file. Fails where a string is too long
    /// for its length prefix or the payload too long for the envelope; what it
    /// writes reads back as this store.
    pub fn save(&self) -> (r: Result<Vec<u8>, SettingsError>)
        ensures
            r is Ok <==> self.encodable() && store_payload(self.entries_view()).len() <= u32::MAX,
            r matches Ok(out) ==> out@ == envelope_of(store_payload(self.entries_view())),
            r matches Ok(out) ==> unwrapped(out@, out@.len() as int) == Ok::<Seq<u8>, SettingsError>(
                store_payload(self.entries_view()),
            ),
            r matches Ok(out) ==> store_loaded(out@, out@.len() as int) == Ok::<
                Map<Seq<char>, PairView>,
                SettingsError,
            >(self@),
            r is Err ==> r == Err::<Vec<u8>, SettingsError>(SettingsError::LengthOverflow),
    {
        proof {
            use_type_invariant(self);
        }
        let buf = self.payload()?;
        let out = compress_file(buf.as_slice())?;
        let n = self.entries.len();
        proof {
            assert(self.entries_view().len() == n);
            assert(n <= u64::MAX);
            lemma_store_round_trip(self.entries_view());
        }
        Ok(out)
    }

    /// The settings as a tree: each key split at its dots, groups for all
    /// segments but the last, a setting (not included) for the last one, and
    /// every group's children in name order. No group holds two children of
    /// one name and kind, and every group and setting lies on some key's path.
    pub fn grouped(&self) -> (r: ModSettingsGroup)
        ensures
            sorted_deep(r@),
            tidy(r@, Seq::empty(), key_paths(self@)),
            forall|k: Seq<char>|
                #[trigger] self@.contains_key(k) ==> leaf_at(r@, split_dots(k)) == Some(
                    (self@[k], false),
                ),
            forall|p: Seq<Seq<char>>|
                #[trigger] leaf_at(r@, p) is Some ==> exists|k: Seq<char>|
                    self@.contains_key(k) && split_dots(k) == p,
    {
        proof {
            use_type_invariant(self);
        }
        let ghost ev = self.entries_view();
        let ghost paths = key_paths(self@);
        let mut tree = ModSettingsGroup(Vec::new());
        proof {
            assert(tree@ =~= Seq::empty());
        }
        let mut i: usize = 0;
        while i < self.entries.len()
            invariant
                i <= ev.len(),
                ev == self.entries_view(),
                keys_unique(ev),
                sorted_deep(tree@),
                paths == key_paths(self@),
                tidy(tree@, Seq::empty(), paths),
                forall|j: int|
                    0 <= j < i ==> #[trigger] leaf_at(tree@, split_dots(ev[j].0)) == Some(
                        (ev[j].1, false),
                    ),
                forall|p: Seq<Seq<char>>|
                    #[trigger] leaf_at(tree@, p) is Some ==> exists|j: int|
                        0 <= j < i && split_dots(ev[j].0) == p,
            decreases ev.len() - i,
        {
            let entry = &self.entries[i];
            let segments = split_key(entry.key.as_str());
            proof {
                assert(segments@.map_values(|s: String| s@).skip(0) =~= segments@.map_values(
                    |s: String| s@,
                ));
                assert(ev[i as int] == (entry.key@, entry.values@));
                crate::hierarchy::lemma_split_nonempty(entry.key@);
                assert(segments@.map_values(|s: String| s@).take(0) =~= Seq::<Seq<char>>::empty());
                lemma_entries_map_value(ev, i as int);
                assert(paths.contains(split_dots(entry.key@)));
            }
            let ghost before = tree@;
            tree.insert_path(&segments, 0, entry.values.duplicate(), Ghost(paths));
            proof {
                assert forall|j: int| 0 <= j < i + 1 implies #[trigger] leaf_at(
                    tree@,
                    split_dots(ev[j].0),
                ) == Some((ev[j].1, false)) by {
                    if j < i {
                        assert(ev[j].0 != ev[i as int].0);
                        lemma_split_injective(ev[j].0, ev[i as int].0);
                    }
                }
                assert forall|p: Seq<Seq<char>>| #[trigger] leaf_at(tree@, p) is Some implies exists|
                    j: int,
                | 0 <= j < i + 1 && split_dots(ev[j].0) == p by {
                    if p != split_dots(ev[i as int].0) {
                        assert(leaf_at(before, p) is Some);
                    }
                }
            }
            i = i + 1;
        }
        proof {
            assert forall|k: Seq<char>| #[trigger] self@.contains_key(k) implies leaf_at(
                tree@,
                split_dots(k),
            ) == Some((self@[k], false)) by {
                lemma_entries_map_contains(ev, k);
                let j = choose|j: int| 0 <= j < ev.len() && ev[j].0 == k;
                lemma_entries_map_value(ev, j);
            }
            assert forall|p: Seq<Seq<char>>| #[trigger] leaf_at(tree@, p) is Some implies exists|
                k: Seq<char>,
            | self@.contains_key(k) && split_dots(k) == p by {
                let j = choose|j: int| 0 <= j < ev.len() && split_dots(ev[j].0) == p;
                lemma_entries_map_value(ev, j);
            }
        }
        tree
    }
}

proof fn lemma_unique_map_len(s: Seq<EntryView>)
    requires
        keys_unique(s),
    ensures
        entries_map(s).len() == s.len(),
        entries_map(s).dom().finite(),
    decreases s.len(),
{
    if s.len() > 0 {
        let t = s.drop_last();
        assert(keys_unique(t)) by {
            assert forall|a: int, b: int| 0 <= a < b < t.len() implies #[trigger] t[a].0
                != #[trigger] t[b].0 by {
                assert(s[a] == t[a] && s[b] == t[b]);
            }
        }
        lemma_unique_map_len(t);
        lemma_entries_map_contains(t, s.last().0);
        if entries_map(t).contains_key(s.last().0) {
            let i = choose|i: int| 0 <= i < t.len() && t[i].0 == s.last().0;
            assert(s[i].0 == s[s.len() - 1].0);
        }
    }
}

impl View for ModSettings {
    type V = Map<Seq<char>, PairView>;

    closed spec fn view(&self) -> Map<Seq<char>, PairView> {
        entries_map(self.entries_view())
    }
}

} // verus!
