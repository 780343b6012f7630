use vstd::prelude::*;

use crate::error::SettingsError;
use crate::ext::{
    fits_u32, lemma_str32_round_trip, lemma_u32_round_trip, lemma_u64_round_trip, read_matches,
    read_str32, read_u32, read_u64, str32_bytes, take_str32, take_u32, take_u64, u32_bytes,
    u64_bytes, write_str32, write_u32, write_u64, Endianness,
};

verus! {

/// A setting value as the contracts see it.
pub enum SettingValue {
    Empty,
    Bool(bool),
    /// The bit pattern of an IEEE-754 double.
    Number(u64),
    Text(Seq<char>),
}

/// The current and the next value of a setting, as the contracts see them.
pub struct PairView {
    pub current: SettingValue,
    pub next: SettingValue,
}

/// A typed setting value. A number is held as the bit pattern of its
/// IEEE-754 double, which is exactly what the file stores.
#[derive(Debug, Clone)]
pub enum ModSettingValue {
    /// Type tag 0.
    Empty,
    /// Type tag 1.
    Bool(bool),
    /// Type tag 2.
    Number(u64),
    /// Type tag 3.
    String(String),
}

/// The value a setting has now and the one it takes on the next load.
#[derive(Debug, Clone)]
pub struct ModSettingPair {
    pub current: ModSettingValue,
    pub next: ModSettingValue,
}

/// One keyed entry of a settings file.
#[derive(Debug, Clone)]
pub struct ModSetting {
    pub key: String,
    pub values: ModSettingPair,
}

impl View for ModSettingValue {
    type V = SettingValue;

    open spec fn view(&self) -> SettingValue {
        match self {
            ModSettingValue::Empty => SettingValue::Empty,
            ModSettingValue::Bool(b) => SettingValue::Bool(*b),
            ModSettingValue::Number(bits) => SettingValue::Number(*bits),
            ModSettingValue::String(s) => SettingValue::Text(s@),
        }
    }
}

impl View for ModSettingPair {
    type V = PairView;

    open spec fn view(&self) -> PairView {
        PairView { current: self.current@, next: self.next@ }
    }
}

/// The wire tag of a value's type.
pub open spec fn type_tag(v: SettingValue) -> u32 {
    match v {
        SettingValue::Empty => 0,
        SettingValue::Bool(_) => 1,
        SettingValue::Number(_) => 2,
        SettingValue::Text(_) => 3,
    }
}

/// Whether a value can be written: a string's bytes must fit a four-byte length.
pub open spec fn value_encodable(v: SettingValue) -> bool {
    match v {
        SettingValue::Text(t) => fits_u32(t),
        _ => true,
    }
}

/// Whether both values of a pair can be written.
pub open spec fn pair_encodable(p: PairView) -> bool {
    value_encodable(p.current) && value_encodable(p.next)
}

/// Whether an entry can be written.
pub open spec fn entry_encodable(key: Seq<char>, p: PairView) -> bool {
    fits_u32(key) && pair_encodable(p)
}

/// The payload bytes of a value, without its type tag.
pub open spec fn payload_bytes(v: SettingValue) -> Seq<u8> {
    match v {
        SettingValue::Empty => Seq::empty(),
        SettingValue::Bool(b) => u32_bytes(if b { 1 } else { 0 }, Endianness::Big),
        SettingValue::Number(bits) => u64_bytes(bits, Endianness::Big),
        SettingValue::Text(t) => str32_bytes(t, Endianness::Big),
    }
}

/// Reads the payload of a value of type `tag` off the front of `s`.
pub open spec fn take_value(s: Seq<u8>, tag: u32) -> Result<(SettingValue, Seq<u8>), SettingsError> {
    if tag == 0 {
        Ok((SettingValue::Empty, s))
    } else if tag == 1 {
        match take_u32(s, Endianness::Big) {
            Err(e) => Err(e),
            Ok((v, rest)) => if v == 0 {
                Ok((SettingValue::Bool(false), rest))
            } else if v == 1 {
                Ok((SettingValue::Bool(true), rest))
            } else {
                Err(SettingsError::InvalidBoolEncoding(v))
            },
        }
    } else if tag == 2 {
        match take_u64(s, Endianness::Big) {
            Err(e) => Err(e),
            Ok((v, rest)) => Ok((SettingValue::Number(v), rest)),
        }
    } else if tag == 3 {
        match take_str32(s, Endianness::Big) {
            Err(e) => Err(e),
            Ok((t, rest)) => Ok((SettingValue::Text(t), rest)),
        }
    } else {
        Err(SettingsError::InvalidTypeId(tag))
    }
}

/// The bytes of one entry: key, both type tags, then both payloads.
#[verifier::opaque]
pub open spec fn entry_bytes(key: Seq<char>, p: PairView) -> Seq<u8> {
    str32_bytes(key, Endianness::Big) + u32_bytes(type_tag(p.current), Endianness::Big)
        + u32_bytes(type_tag(p.next), Endianness::Big) + payload_bytes(p.current) + payload_bytes(
        p.next,
    )
}

/// Reads one entry off the front of `s`.
#[verifier::opaque]
pub open spec fn take_entry(s: Seq<u8>) -> Result<((Seq<char>, PairView), Seq<u8>), SettingsError> {
    match take_str32(s, Endianness::Big) {
        Err(e) => Err(e),
        Ok((key, s1)) => match take_u32(s1, Endianness::Big) {
            Err(e) => Err(e),
            Ok((ct, s2)) => match take_u32(s2, Endianness::Big) {
                Err(e) => Err(e),
                Ok((nt, s3)) => match take_value(s3, ct) {
                    Err(e) => Err(e),
                    Ok((cur, s4)) => match take_value(s4, nt) {
                        Err(e) => Err(e),
                        Ok((next, s5)) => Ok(((key, PairView { current: cur, next }), s5)),
                    },
                },
            },
        },
    }
}

/// A value payload reads back, under its own type tag, as the same value.
pub proof fn lemma_value_round_trip(v: SettingValue, rest: Seq<u8>)
    requires
        value_encodable(v),
    ensures
        take_value(payload_bytes(v) + rest, type_tag(v)) == Ok::<
            (SettingValue, Seq<u8>),
            SettingsError,
        >((v, rest)),
{
    match v {
        SettingValue::Empty => {
            assert(payload_bytes(v) + rest =~= rest);
        },
        SettingValue::Bool(b) => {
            lemma_u32_round_trip(if b { 1 } else { 0 }, Endianness::Big, rest);
        },
        SettingValue::Number(bits) => {
            lemma_u64_round_trip(bits, Endianness::Big, rest);
        },
        SettingValue::Text(t) => {
            lemma_str32_round_trip(t, Endianness::Big, rest);
        },
    }
}

/// An entry written by `entry_bytes` reads back as the same key and pair,
/// leaving the bytes that followed it.
pub proof fn lemma_entry_round_trip(key: Seq<char>, p: PairView, rest: Seq<u8>)
    requires
        entry_encodable(key, p),
    ensures
        take_entry(entry_bytes(key, p) + rest) == Ok::<
            ((Seq<char>, PairView), Seq<u8>),
            SettingsError,
        >(((key, p), rest)),
{
    reveal(entry_bytes);
    reveal(take_entry);
    let e = Endianness::Big;
    let s4 = payload_bytes(p.next) + rest;
    let s3 = payload_bytes(p.current) + s4;
    let s2 = u32_bytes(type_tag(p.next), e) + s3;
    let s1 = u32_bytes(type_tag(p.current), e) + s2;
    assert(entry_bytes(key, p) + rest =~= str32_bytes(key, e) + s1);
    lemma_str32_round_trip(key, e, s1);
    lemma_u32_round_trip(type_tag(p.current), e, s2);
    lemma_u32_round_trip(type_tag(p.next), e, s3);
    lemma_value_round_trip(p.current, s4);
    lemma_value_round_trip(p.next, rest);
}

/// An entry always takes at least its twelve bytes of lengths and tags.
pub proof fn lemma_take_entry_shrinks(s: Seq<u8>)
    ensures
        take_entry(s) matches Ok((_, rest)) ==> rest.len() + 12 <= s.len(),
{
    reveal(take_entry);
}

/// A current-value type tag of 4 or more is refused with `InvalidTypeId`.
pub proof fn lemma_bad_current_tag(key: Seq<char>, current: u32, next: u32, rest: Seq<u8>)
    requires
        fits_u32(key),
        current >= 4,
    ensures
        take_entry(
            str32_bytes(key, Endianness::Big) + u32_bytes(current, Endianness::Big) + u32_bytes(
                next,
                Endianness::Big,
            ) + rest,
        ) == Err::<((Seq<char>, PairView), Seq<u8>), SettingsError>(
            SettingsError::InvalidTypeId(current),
        ),
{
    reveal(take_entry);
    let e = Endianness::Big;
    let s2 = u32_bytes(next, e) + rest;
    let s1 = u32_bytes(current, e) + s2;
    assert(str32_bytes(key, e) + u32_bytes(current, e) + u32_bytes(next, e) + rest
        =~= str32_bytes(key, e) + s1);
    lemma_str32_round_trip(key, e, s1);
    lemma_u32_round_trip(current, e, s2);
    lemma_u32_round_trip(next, e, rest);
}

/// A next-value type tag of 4 or more, after a well-formed current value,
/// is refused with `InvalidTypeId`.
pub proof fn lemma_bad_next_tag(key: Seq<char>, current: SettingValue, next: u32, rest: Seq<u8>)
    requires
        fits_u32(key),
        value_encodable(current),
        next >= 4,
    ensures
        take_entry(
            str32_bytes(key, Endianness::Big) + u32_bytes(type_tag(current), Endianness::Big)
                + u32_bytes(next, Endianness::Big) + payload_bytes(current) + rest,
        ) == Err::<((Seq<char>, PairView), Seq<u8>), SettingsError>(
            SettingsError::InvalidTypeId(next),
        ),
{
    reveal(take_entry);
    let e = Endianness::Big;
    let s3 = payload_bytes(current) + rest;
    let s2 = u32_bytes(next, e) + s3;
    let s1 = u32_bytes(type_tag(current), e) + s2;
    assert(str32_bytes(key, e) + u32_bytes(type_tag(current), e) + u32_bytes(next, e)
        + payload_bytes(current) + rest =~= str32_bytes(key, e) + s1);
    lemma_str32_round_trip(key, e, s1);
    lemma_u32_round_trip(type_tag(current), e, s2);
    lemma_u32_round_trip(next, e, s3);
    lemma_value_round_trip(current, rest);
}

impl ModSettingValue {
    /// Reads the payload of a value whose type tag is `setting_type` at `pos`.
    pub fn load(data: &[u8], pos: usize, setting_type: u32) -> (r: Result<
        (ModSettingValue, usize),
        SettingsError,
    >)
        requires
            pos <= data@.len(),
        ensures
            match r {
                Ok((v, p)) => pos <= p <= data@.len() && take_value(
                    data@.skip(pos as int),
                    setting_type,
                ) == Ok::<(SettingValue, Seq<u8>), SettingsError>((v@, data@.skip(p as int))),
                Err(e) => take_value(data@.skip(pos as int), setting_type) == Err::<
                    (SettingValue, Seq<u8>),
                    SettingsError,
                >(e),
            },
    {
        if setting_type == 0 {
            Ok((ModSettingValue::Empty, pos))
        } else if setting_type == 1 {
            let (v, p) = read_u32(data, pos, Endianness::Big)?;
            if v == 0 {
                Ok((ModSettingValue::Bool(false), p))
            } else if v == 1 {
                Ok((ModSettingValue::Bool(true), p))
            } else {
                Err(SettingsError::InvalidBoolEncoding(v))
            }
        } else if setting_type == 2 {
            let (v, p) = read_u64(data, pos, Endianness::Big)?;
            Ok((ModSettingValue::Number(v), p))
        } else if setting_type == 3 {
            let (s, p) = read_str32(data, pos, Endianness::Big)?;
            Ok((ModSettingValue::String(s), p))
        } else {
            Err(SettingsError::InvalidTypeId(setting_type))
        }
    }

    /// A copy of this value.
    pub fn duplicate(&self) -> (r: ModSettingValue)
        ensures
            r@ == self@,
    {
        match self {
            ModSettingValue::Empty => ModSettingValue::Empty,
            ModSettingValue::Bool(b) => ModSettingValue::Bool(*b),
            ModSettingValue::Number(bits) => ModSettingValue::Number(*bits),
            ModSettingValue::String(s) => ModSettingValue::String(s.clone()),
        }
    }

    /// The wire tag of this value's type.
    pub fn type_int(&self) -> (r: u32)
        ensures
            r == type_tag(self@),
    {
        match self {
            ModSettingValue::Empty => 0,
            ModSettingValue::Bool(_) => 1,
            ModSettingValue::Number(_) => 2,
            ModSettingValue::String(_) => 3,
        }
    }

    /// Appends this value's payload; its type tag is written by the caller.
    pub fn save(&self, out: &mut Vec<u8>) -> (r: Result<(), SettingsError>)
        ensures
            r is Ok <==> value_encodable(self@),
            r is Ok ==> final(out)@ == old(out)@ + payload_bytes(self@),
            r is Err ==> r == Err::<(), SettingsError>(SettingsError::LengthOverflow),
    {
        match self {
            ModSettingValue::Empty => {
                assert(out@ =~= old(out)@ + payload_bytes(self@));
                Ok(())
            },
            ModSettingValue::Bool(v) => {
                write_u32(
                    out,
                    if *v {
                        1
                    } else {
                        0
                    },
                    Endianness::Big,
                );
                Ok(())
            },
            ModSettingValue::Number(v) => {
                write_u64(out, *v, Endianness::Big);
                Ok(())
            },
            ModSettingValue::String(v) => write_str32(out, v.as_str(), Endianness::Big),
        }
    }
}

impl ModSettingPair {
    /// A copy of this pair.
    pub fn duplicate(&self) -> (r: ModSettingPair)
        ensures
            r@ == self@,
    {
        ModSettingPair { current: self.current.duplicate(), next: self.next.duplicate() }
    }
}

impl ModSetting {
    /// Reads one entry at `pos`: key, both type tags, then both values.
    pub fn load(data: &[u8], pos: usize) -> (r: Result<(ModSetting, usize), SettingsError>)
        requires
            pos <= data@.len(),
        ensures
            match r {
                Ok((m, p)) => pos <= p <= data@.len() && take_entry(data@.skip(pos as int))
                    == Ok::<((Seq<char>, PairView), Seq<u8>), SettingsError>(
                    ((m.key@, m.values@), data@.skip(p as int)),
                ),
                Err(e) => take_entry(data@.skip(pos as int)) == Err::<
                    ((Seq<char>, PairView), Seq<u8>),
                    SettingsError,
                >(e),
            },
    {
        reveal(take_entry);
        let (key, after_key) = read_str32(data, pos, Endianness::Big)?;
        let (current_type, after_current_tag) = read_u32(data, after_key, Endianness::Big)?;
        let (next_type, after_next_tag) = read_u32(data, after_current_tag, Endianness::Big)?;
        let (current, after_current) = ModSettingValue::load(data, after_next_tag, current_type)?;
        let (next, after_next) = ModSettingValue::load(data, after_current, next_type)?;
        Ok((ModSetting { key, values: ModSettingPair { current, next } }, after_next))
    }

    /// Appends this entry in its wire form.
    pub fn save(&self, out: &mut Vec<u8>) -> (r: Result<(), SettingsError>)
        ensures
            r is Ok <==> entry_encodable(self.key@, self.values@),
            r is Ok ==> final(out)@ == old(out)@ + entry_bytes(self.key@, self.values@),
            r is Err ==> r == Err::<(), SettingsError>(SettingsError::LengthOverflow),
    {
        reveal(entry_bytes);
        write_str32(out, self.key.as_str(), Endianness::Big)?;
        write_u32(out, self.values.current.type_int(), Endianness::Big);
        write_u32(out, self.values.next.type_int(), Endianness::Big);
        self.values.current.save(out)?;
        self.values.next.save(out)?;
        assert(out@ =~= old(out)@ + entry_bytes(self.key@, self.values@));
        Ok(())
    }
}

} // verus!
