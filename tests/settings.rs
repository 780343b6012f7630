use mod_manager::error::SettingsError;
use mod_manager::modsettings::{ModSettingPair, ModSettingValue};
use mod_manager::settings::{LoadError, ModSettings, SettingsSection};

fn pair(current: ModSettingValue, next: ModSettingValue) -> ModSettingPair {
    ModSettingPair { current, next }
}

fn same_value(a: &ModSettingValue, b: &ModSettingValue) -> bool {
    match (a, b) {
        (ModSettingValue::Empty, ModSettingValue::Empty) => true,
        (ModSettingValue::Bool(x), ModSettingValue::Bool(y)) => x == y,
        (ModSettingValue::Number(x), ModSettingValue::Number(y)) => {
            f64::from_bits(*x) == f64::from_bits(*y)
        }
        (ModSettingValue::String(x), ModSettingValue::String(y)) => x == y,
        _ => false,
    }
}

fn same_store(a: &ModSettings, b: &ModSettings) -> bool {
    a.len() == b.len()
        && a.entries().iter().all(|e| match b.get(&e.key) {
            Some(p) => same_value(&p.current, &e.values.current) && same_value(&p.next, &e.values.next),
            None => false,
        })
}

#[test]
fn settings() {
    let mut map = ModSettings::new();
    map.insert(
        "\0\0\u{1}.K\u{2000}𐀀\u{80}ࠀ\0𐁀\0\0\u{80}\0\u{1}\u{1}ࠁ\u{2}".to_string(),
        ModSettingPair {
            current: ModSettingValue::Bool(false),
            next: ModSettingValue::Bool(false),
        },
    );
    let buffer = map.save().expect("Saving must work");
    let len = buffer.len();
    ModSettings::load(&buffer, len).expect("Loading must work");
}

fn sample_store() -> ModSettings {
    let mut s = ModSettings::new();
    s.insert("a.b.c".to_string(), pair(ModSettingValue::Number(1.5f64.to_bits()), ModSettingValue::Empty));
    s.insert("a.b.d".to_string(), pair(ModSettingValue::Bool(true), ModSettingValue::Bool(false)));
    s.insert(
        "mod.name".to_string(),
        pair(ModSettingValue::String("hello".to_string()), ModSettingValue::String("wörld".to_string())),
    );
    s.insert("x".to_string(), pair(ModSettingValue::Number((-0.0f64).to_bits()), ModSettingValue::Number(f64::MAX.to_bits())));
    s
}

#[test]
fn store_round_trip() {
    let s = sample_store();
    let bytes = s.save().unwrap();
    let loaded = ModSettings::load(&bytes, bytes.len()).unwrap();
    assert!(same_store(&s, &loaded));
    assert_eq!(loaded.len(), 4);
}

#[test]
fn store_round_trip_many_entries() {
    let mut s = ModSettings::new();
    let mut x: u64 = 99;
    for i in 0..200u32 {
        x = x.wrapping_mul(6364136223846793005).wrapping_add(1442695040888963407);
        let v = match i % 4 {
            0 => ModSettingValue::Empty,
            1 => ModSettingValue::Bool(x & 1 == 1),
            2 => ModSettingValue::Number(((x >> 11) as f64).to_bits()),
            _ => ModSettingValue::String(format!("v{}", x % 1000)),
        };
        s.insert(format!("group{}.key{}", i % 7, i), pair(v.clone(), v));
    }
    let bytes = s.save().unwrap();
    let loaded = ModSettings::load(&bytes, bytes.len()).unwrap();
    assert!(same_store(&s, &loaded));
}

#[test]
fn store_insert_overwrites() {
    let mut s = ModSettings::new();
    s.insert("k".to_string(), pair(ModSettingValue::Bool(true), ModSettingValue::Empty));
    s.insert("k".to_string(), pair(ModSettingValue::Bool(false), ModSettingValue::Empty));
    assert_eq!(s.len(), 1);
    assert!(matches!(s.get("k").unwrap().current, ModSettingValue::Bool(false)));
    assert!(s.get("missing").is_none());
}

#[test]
fn store_declares_entry_count() {
    let s = sample_store();
    let payload = s.payload().unwrap();
    assert_eq!(&payload[0..8], &4u64.to_be_bytes());
}

/// A settings file around `payload`, stored without compression.
fn raw_file(payload: &[u8]) -> Vec<u8> {
    let mut out = Vec::new();
    out.extend_from_slice(&(payload.len() as u32).to_le_bytes());
    out.extend_from_slice(&(payload.len() as u32).to_le_bytes());
    out.extend_from_slice(payload);
    out
}

#[test]
fn store_tampered_count_is_rejected() {
    let s = sample_store();
    let mut payload = s.payload().unwrap();
    payload[0..8].copy_from_slice(&5u64.to_be_bytes());
    let file = raw_file(&payload);
    let r = ModSettings::load(&file, file.len());
    assert_eq!(
        r.unwrap_err(),
        LoadError {
            section: SettingsSection::Count,
            error: SettingsError::EntryCountMismatch { expected: 5, found: 4 },
        }
    );
}

fn entry(key: &str, current_tag: u32, next_tag: u32, values: &[u8]) -> Vec<u8> {
    let mut e = Vec::new();
    e.extend_from_slice(&(key.len() as u32).to_be_bytes());
    e.extend_from_slice(key.as_bytes());
    e.extend_from_slice(&current_tag.to_be_bytes());
    e.extend_from_slice(&next_tag.to_be_bytes());
    e.extend_from_slice(values);
    e
}

#[test]
fn store_bad_current_tag_is_rejected() {
    let mut payload = 1u64.to_be_bytes().to_vec();
    payload.extend(entry("k", 4, 0, &[]));
    let file = raw_file(&payload);
    assert_eq!(
        ModSettings::load(&file, file.len()).unwrap_err(),
        LoadError { section: SettingsSection::Entry(0), error: SettingsError::InvalidTypeId(4) }
    );
}

#[test]
fn store_bad_next_tag_is_rejected() {
    let mut payload = 2u64.to_be_bytes().to_vec();
    payload.extend(entry("ok", 0, 0, &[]));
    payload.extend(entry("k", 1, 7, &1u32.to_be_bytes()));
    let file = raw_file(&payload);
    assert_eq!(
        ModSettings::load(&file, file.len()).unwrap_err(),
        LoadError { section: SettingsSection::Entry(1), error: SettingsError::InvalidTypeId(7) }
    );
}

#[test]
fn store_bad_bool_is_rejected() {
    let mut payload = 1u64.to_be_bytes().to_vec();
    payload.extend(entry("k", 1, 0, &2u32.to_be_bytes()));
    let file = raw_file(&payload);
    assert_eq!(
        ModSettings::load(&file, file.len()).unwrap_err().error,
        SettingsError::InvalidBoolEncoding(2)
    );
}

#[test]
fn store_bad_utf8_is_rejected() {
    let mut payload = 1u64.to_be_bytes().to_vec();
    let mut e = Vec::new();
    e.extend_from_slice(&2u32.to_be_bytes());
    e.extend_from_slice(&[0xff, 0xfe]);
    e.extend_from_slice(&0u32.to_be_bytes());
    e.extend_from_slice(&0u32.to_be_bytes());
    payload.extend(e);
    let file = raw_file(&payload);
    assert_eq!(ModSettings::load(&file, file.len()).unwrap_err().error, SettingsError::Utf8DecodeError);
}

#[test]
fn store_truncated_entry_is_short_read() {
    let mut payload = 1u64.to_be_bytes().to_vec();
    payload.extend(entry("k", 2, 0, &[1, 2, 3]));
    let file = raw_file(&payload);
    assert_eq!(
        ModSettings::load(&file, file.len()).unwrap_err(),
        LoadError { section: SettingsSection::Entry(0), error: SettingsError::ShortRead }
    );
}

#[test]
fn store_value_encoding_is_big_endian() {
    let mut s = ModSettings::new();
    s.insert("n".to_string(), pair(ModSettingValue::Number(2.0f64.to_bits()), ModSettingValue::Bool(true)));
    let payload = s.payload().unwrap();
    let mut expected = 1u64.to_be_bytes().to_vec();
    let mut values = 2.0f64.to_bits().to_be_bytes().to_vec();
    values.extend_from_slice(&1u32.to_be_bytes());
    expected.extend(entry("n", 2, 1, &values));
    assert_eq!(payload, expected);
}

#[test]
fn value_tags() {
    assert_eq!(ModSettingValue::Empty.type_int(), 0);
    assert_eq!(ModSettingValue::Bool(true).type_int(), 1);
    assert_eq!(ModSettingValue::Number(0).type_int(), 2);
    assert_eq!(ModSettingValue::String(String::new()).type_int(), 3);
}

#[test]
fn store_envelope_errors_are_located() {
    let s = sample_store();
    let bytes = s.save().unwrap();
    let err = ModSettings::load(&bytes, bytes.len() + 3).unwrap_err();
    assert_eq!(err.section, SettingsSection::Envelope);
    assert!(matches!(err.error, SettingsError::CorruptHeader { .. }));
    let file = raw_file(&[0, 0, 0]);
    assert_eq!(
        ModSettings::load(&file, file.len()).unwrap_err(),
        LoadError { section: SettingsSection::Count, error: SettingsError::ShortRead }
    );
}
