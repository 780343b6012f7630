use vstd::bytes::{
    lemma_auto_spec_u32_to_from_le_bytes, lemma_auto_spec_u64_to_from_le_bytes,
    spec_u32_from_le_bytes, spec_u32_to_le_bytes, spec_u64_from_le_bytes, spec_u64_to_le_bytes,
    u32_from_le_bytes, u32_to_le_bytes, u64_from_le_bytes, u64_to_le_bytes,
};
use vstd::prelude::*;
use vstd::slice::{slice_subrange, slice_to_vec};
use vstd::utf8::{decode_utf8, encode_utf8, valid_utf8};

use crate::error::SettingsError;

verus! {

broadcast use vstd::utf8::encode_utf8_valid_utf8, vstd::utf8::encode_utf8_decode_utf8;

/// Byte order of a fixed-width integer field.
#[derive(Debug, Clone, Copy, PartialEq, Eq, Structural)]
pub enum Endianness {
    Little,
    Big,
}

/// The four bytes of `v` in byte order `e`.
pub open spec fn u32_bytes(v: u32, e: Endianness) -> Seq<u8> {
    let b = spec_u32_to_le_bytes(v);
    match e {
        Endianness::Little => b,
        Endianness::Big => seq![b[3], b[2], b[1], b[0]],
    }
}

/// The eight bytes of `v` in byte order `e`.
pub open spec fn u64_bytes(v: u64, e: Endianness) -> Seq<u8> {
    let b = spec_u64_to_le_bytes(v);
    match e {
        Endianness::Little => b,
        Endianness::Big => seq![b[7], b[6], b[5], b[4], b[3], b[2], b[1], b[0]],
    }
}

/// The integer held by four bytes `b` in byte order `e`.
pub open spec fn u32_from(b: Seq<u8>, e: Endianness) -> u32 {
    match e {
        Endianness::Little => spec_u32_from_le_bytes(b),
        Endianness::Big => spec_u32_from_le_bytes(seq![b[3], b[2], b[1], b[0]]),
    }
}

/// The integer held by eight bytes `b` in byte order `e`.
pub open spec fn u64_from(b: Seq<u8>, e: Endianness) -> u64 {
    match e {
        Endianness::Little => spec_u64_from_le_bytes(b),
        Endianness::Big => spec_u64_from_le_bytes(
            seq![b[7], b[6], b[5], b[4], b[3], b[2], b[1], b[0]],
        ),
    }
}

/// Reads a four-byte integer off the front of `s`, giving it and the bytes after it.
pub open spec fn take_u32(s: Seq<u8>, e: Endianness) -> Result<(u32, Seq<u8>), SettingsError> {
    if s.len() < 4 {
        Err(SettingsError::ShortRead)
    } else {
        Ok((u32_from(s.take(4), e), s.skip(4)))
    }
}

/// Reads an eight-byte integer off the front of `s`, giving it and the bytes after it.
pub open spec fn take_u64(s: Seq<u8>, e: Endianness) -> Result<(u64, Seq<u8>), SettingsError> {
    if s.len() < 8 {
        Err(SettingsError::ShortRead)
    } else {
        Ok((u64_from(s.take(8), e), s.skip(8)))
    }
}

/// Reads `n` bytes of UTF-8 text off the front of `s`.
pub open spec fn take_text(s: Seq<u8>, n: int) -> Result<(Seq<char>, Seq<u8>), SettingsError> {
    if s.len() < n {
        Err(SettingsError::ShortRead)
    } else if !valid_utf8(s.take(n)) {
        Err(SettingsError::Utf8DecodeError)
    } else {
        Ok((decode_utf8(s.take(n)), s.skip(n)))
    }
}

/// Reads a string with a four-byte length prefix off the front of `s`.
pub open spec fn take_str32(s: Seq<u8>, e: Endianness) -> Result<(Seq<char>, Seq<u8>), SettingsError> {
    match take_u32(s, e) {
        Err(err) => Err(err),
        Ok((n, rest)) => take_text(rest, n as int),
    }
}

/// Reads a string with an eight-byte length prefix off the front of `s`.
pub open spec fn take_str64(s: Seq<u8>, e: Endianness) -> Result<(Seq<char>, Seq<u8>), SettingsError> {
    match take_u64(s, e) {
        Err(err) => Err(err),
        Ok((n, rest)) => take_text(rest, n as int),
    }
}

/// A string written with a four-byte length prefix.
pub open spec fn str32_bytes(t: Seq<char>, e: Endianness) -> Seq<u8> {
    u32_bytes(encode_utf8(t).len() as u32, e) + encode_utf8(t)
}

/// A string written with an eight-byte length prefix.
pub open spec fn str64_bytes(t: Seq<char>, e: Endianness) -> Seq<u8> {
    u64_bytes(encode_utf8(t).len() as u64, e) + encode_utf8(t)
}

/// Whether a string's UTF-8 form fits a four-byte length prefix.
pub open spec fn fits_u32(t: Seq<char>) -> bool {
    encode_utf8(t).len() <= u32::MAX
}

/// Whether a string's UTF-8 form fits an eight-byte length prefix.
pub open spec fn fits_u64(t: Seq<char>) -> bool {
    encode_utf8(t).len() <= u64::MAX
}

/// Ties an executable read at `pos` to the spec reader applied to the bytes from `pos` on.
pub open spec fn read_matches<T>(
    r: Result<(T, usize), SettingsError>,
    spec_r: Result<(T, Seq<u8>), SettingsError>,
    data: Seq<u8>,
    pos: int,
) -> bool {
    match r {
        Ok((v, p)) => pos <= p <= data.len() && spec_r == Ok::<(T, Seq<u8>), SettingsError>(
            (v, data.skip(p as int)),
        ),
        Err(err) => spec_r == Err::<(T, Seq<u8>), SettingsError>(err),
    }
}

/// As `read_matches`, for a read that yields a `String`.
pub open spec fn read_str_matches(
    r: Result<(String, usize), SettingsError>,
    spec_r: Result<(Seq<char>, Seq<u8>), SettingsError>,
    data: Seq<u8>,
    pos: int,
) -> bool {
    match r {
        Ok((v, p)) => pos <= p <= data.len() && spec_r == Ok::<(Seq<char>, Seq<u8>), SettingsError>(
            (v@, data.skip(p as int)),
        ),
        Err(err) => spec_r == Err::<(Seq<char>, Seq<u8>), SettingsError>(err),
    }
}

/// Four bytes written by `u32_bytes` read back as the same integer.
pub proof fn lemma_u32_round_trip(v: u32, e: Endianness, rest: Seq<u8>)
    ensures
        u32_bytes(v, e).len() == 4,
        take_u32(u32_bytes(v, e) + rest, e) == Ok::<(u32, Seq<u8>), SettingsError>((v, rest)),
{
    lemma_auto_spec_u32_to_from_le_bytes();
    let b = spec_u32_to_le_bytes(v);
    let s = u32_bytes(v, e) + rest;
    assert(s.take(4) =~= u32_bytes(v, e));
    assert(s.skip(4) =~= rest);
    if e == Endianness::Big {
        assert(seq![s[3], s[2], s[1], s[0]] =~= b);
    }
}

/// Eight bytes written by `u64_bytes` read back as the same integer.
pub proof fn lemma_u64_round_trip(v: u64, e: Endianness, rest: Seq<u8>)
    ensures
        u64_bytes(v, e).len() == 8,
        take_u64(u64_bytes(v, e) + rest, e) == Ok::<(u64, Seq<u8>), SettingsError>((v, rest)),
{
    lemma_auto_spec_u64_to_from_le_bytes();
    let b = spec_u64_to_le_bytes(v);
    let s = u64_bytes(v, e) + rest;
    assert(s.take(8) =~= u64_bytes(v, e));
    assert(s.skip(8) =~= rest);
    if e == Endianness::Big {
        assert(seq![s[7], s[6], s[5], s[4], s[3], s[2], s[1], s[0]] =~= b);
    }
}

proof fn lemma_text_round_trip(t: Seq<char>, rest: Seq<u8>)
    ensures
        take_text(encode_utf8(t) + rest, encode_utf8(t).len() as int) == Ok::<
            (Seq<char>, Seq<u8>),
            SettingsError,
        >((t, rest)),
{
    let b = encode_utf8(t);
    assert((b + rest).take(b.len() as int) =~= b);
    assert((b + rest).skip(b.len() as int) =~= rest);
}

/// A string written with a four-byte length prefix reads back as the same characters.
pub proof fn lemma_str32_round_trip(t: Seq<char>, e: Endianness, rest: Seq<u8>)
    requires
        fits_u32(t),
    ensures
        take_str32(str32_bytes(t, e) + rest, e) == Ok::<(Seq<char>, Seq<u8>), SettingsError>(
            (t, rest),
        ),
{
    let b = encode_utf8(t);
    lemma_u32_round_trip(b.len() as u32, e, b + rest);
    assert(str32_bytes(t, e) + rest =~= u32_bytes(b.len() as u32, e) + (b + rest));
    lemma_text_round_trip(t, rest);
}

/// A string written with an eight-byte length prefix reads back as the same characters.
pub proof fn lemma_str64_round_trip(t: Seq<char>, e: Endianness, rest: Seq<u8>)
    requires
        fits_u64(t),
    ensures
        take_str64(str64_bytes(t, e) + rest, e) == Ok::<(Seq<char>, Seq<u8>), SettingsError>(
            (t, rest),
        ),
{
    let b = encode_utf8(t);
    lemma_u64_round_trip(b.len() as u64, e, b + rest);
    assert(str64_bytes(t, e) + rest =~= u64_bytes(b.len() as u64, e) + (b + rest));
    lemma_text_round_trip(t, rest);
}

/// Reads a four-byte integer at `pos`.
pub fn read_u32(data: &[u8], pos: usize, e: Endianness) -> (r: Result<(u32, usize), SettingsError>)
    requires
        pos <= data@.len(),
    ensures
        read_matches(r, take_u32(data@.skip(pos as int), e), data@, pos as int),
{
    if data.len() - pos < 4 {
        return Err(SettingsError::ShortRead);
    }
    let mut b: Vec<u8> = Vec::new();
    match e {
        Endianness::Little => {
            b.push(data[pos]);
            b.push(data[pos + 1]);
            b.push(data[pos + 2]);
            b.push(data[pos + 3]);
        },
        Endianness::Big => {
            b.push(data[pos + 3]);
            b.push(data[pos + 2]);
            b.push(data[pos + 1]);
            b.push(data[pos]);
        },
    }
    let v = u32_from_le_bytes(b.as_slice());
    proof {
        let s = data@.skip(pos as int);
        let h = s.take(4);
        match e {
            Endianness::Little => assert(b@ =~= h),
            Endianness::Big => assert(b@ =~= seq![h[3], h[2], h[1], h[0]]),
        }
        assert(s.skip(4) =~= data@.skip(pos + 4));
    }
    Ok((v, pos + 4))
}

/// Reads an eight-byte integer at `pos`.
pub fn read_u64(data: &[u8], pos: usize, e: Endianness) -> (r: Result<(u64, usize), SettingsError>)
    requires
        pos <= data@.len(),
    ensures
        read_matches(r, take_u64(data@.skip(pos as int), e), data@, pos as int),
{
    if data.len() - pos < 8 {
        return Err(SettingsError::ShortRead);
    }
    let mut b: Vec<u8> = Vec::new();
    let mut i: usize = 0;
    while i < 8
        invariant
            i <= 8,
            pos + 8 <= data.len(),
            b@.len() == i,
            forall|k: int|
                0 <= k < i ==> #[trigger] b@[k] == match e {
                    Endianness::Little => data@[pos + k],
                    Endianness::Big => data@[pos + 7 - k],
                },
        decreases 8 - i,
    {
        match e {
            Endianness::Little => b.push(data[pos + i]),
            Endianness::Big => b.push(data[pos + 7 - i]),
        }
        i = i + 1;
    }
    let v = u64_from_le_bytes(b.as_slice());
    proof {
        let s = data@.skip(pos as int);
        let h = s.take(8);
        match e {
            Endianness::Little => assert(b@ =~= h),
            Endianness::Big => assert(b@ =~= seq![h[7], h[6], h[5], h[4], h[3], h[2], h[1], h[0]]),
        }
        assert(s.skip(8) =~= data@.skip(pos + 8));
    }
    Ok((v, pos + 8))
}

/// Relies on `String::from_utf8`: it accepts exactly the valid UTF-8 byte
/// strings, and the string it returns holds the characters those bytes encode.
#[verifier::external_body]
fn string_from_utf8(bytes: Vec<u8>) -> (r: Option<String>)
    ensures
        r is Some <==> valid_utf8(bytes@),
        r matches Some(s) ==> s@ == decode_utf8(bytes@),
{
    String::from_utf8(bytes).ok()
}

/// Reads `n` bytes of UTF-8 text at `pos`.
pub fn read_text(data: &[u8], pos: usize, n: u64) -> (r: Result<(String, usize), SettingsError>)
    requires
        pos <= data@.len(),
    ensures
        read_str_matches(r, take_text(data@.skip(pos as int), n as int), data@, pos as int),
{
    if n > (data.len() - pos) as u64 {
        return Err(SettingsError::ShortRead);
    }
    let end = pos + n as usize;
    let bytes = slice_to_vec(slice_subrange(data, pos, end));
    proof {
        let s = data@.skip(pos as int);
        assert(bytes@ =~= s.take(n as int));
        assert(s.skip(n as int) =~= data@.skip(end as int));
    }
    match string_from_utf8(bytes) {
        Some(text) => Ok((text, end)),
        None => Err(SettingsError::Utf8DecodeError),
    }
}

/// Reads a string with a four-byte length prefix at `pos`.
pub fn read_str32(data: &[u8], pos: usize, e: Endianness) -> (r: Result<(String, usize), SettingsError>)
    requires
        pos <= data@.len(),
    ensures
        read_str_matches(r, take_str32(data@.skip(pos as int), e), data@, pos as int),
{
    let (n, p) = read_u32(data, pos, e)?;
    read_text(data, p, n as u64)
}

/// Reads a string with an eight-byte length prefix at `pos`.
pub fn read_str64(data: &[u8], pos: usize, e: Endianness) -> (r: Result<(String, usize), SettingsError>)
    requires
        pos <= data@.len(),
    ensures
        read_str_matches(r, take_str64(data@.skip(pos as int), e), data@, pos as int),
{
    let (n, p) = read_u64(data, pos, e)?;
    read_text(data, p, n)
}

/// Appends the four bytes of `v` in byte order `e`.
pub fn write_u32(out: &mut Vec<u8>, v: u32, e: Endianness)
    ensures
        final(out)@ == old(out)@ + u32_bytes(v, e),
{
    let b = u32_to_le_bytes(v);
    match e {
        Endianness::Little => {
            out.push(b[0]);
            out.push(b[1]);
            out.push(b[2]);
            out.push(b[3]);
        },
        Endianness::Big => {
            out.push(b[3]);
            out.push(b[2]);
            out.push(b[1]);
            out.push(b[0]);
        },
    }
    assert(out@ =~= old(out)@ + u32_bytes(v, e));
}

/// Appends the eight bytes of `v` in byte order `e`.
pub fn write_u64(out: &mut Vec<u8>, v: u64, e: Endianness)
    ensures
        final(out)@ == old(out)@ + u64_bytes(v, e),
{
    let b = u64_to_le_bytes(v);
    let mut i: usize = 0;
    while i < 8
        invariant
            i <= 8,
            b@ == spec_u64_to_le_bytes(v),
            b@.len() == 8,
            out@ == old(out)@ + u64_bytes(v, e).take(i as int),
        decreases 8 - i,
    {
        match e {
            Endianness::Little => out.push(b[i]),
            Endianness::Big => out.push(b[7 - i]),
        }
        proof {
            assert(u64_bytes(v, e).take(i + 1) =~= u64_bytes(v, e).take(i as int).push(
                u64_bytes(v, e)[i as int],
            ));
        }
        i = i + 1;
    }
    assert(u64_bytes(v, e).take(8) =~= u64_bytes(v, e));
}

/// Appends every byte of `bytes`.
pub fn write_all(out: &mut Vec<u8>, bytes: &[u8])
    ensures
        final(out)@ == old(out)@ + bytes@,
{
    let mut i: usize = 0;
    while i < bytes.len()
        invariant
            i <= bytes@.len(),
            out@ == old(out)@ + bytes@.take(i as int),
        decreases bytes@.len() - i,
    {
        out.push(bytes[i]);
        proof {
            assert(bytes@.take(i + 1) =~= bytes@.take(i as int).push(bytes@[i as int]));
        }
        i = i + 1;
    }
    assert(bytes@.take(bytes@.len() as int) =~= bytes@);
}

/// Appends `s` with a four-byte length prefix; fails, leaving `out` as it
/// was, where its UTF-8 form is longer than a four-byte length can say.
pub fn write_str32(out: &mut Vec<u8>, s: &str, e: Endianness) -> (r: Result<(), SettingsError>)
    ensures
        r is Ok <==> fits_u32(s@),
        r is Ok ==> final(out)@ == old(out)@ + str32_bytes(s@, e),
        r is Err ==> r == Err::<(), SettingsError>(SettingsError::LengthOverflow) && final(out)@
            == old(out)@,
{
    let bytes = s.as_bytes();
    if bytes.len() > u32::MAX as usize {
        return Err(SettingsError::LengthOverflow);
    }
    write_u32(out, bytes.len() as u32, e);
    write_all(out, bytes);
    assert(out@ =~= old(out)@ + str32_bytes(s@, e));
    Ok(())
}

/// Appends `s` with an eight-byte length prefix.
pub fn write_str64(out: &mut Vec<u8>, s: &str, e: Endianness)
    ensures
        final(out)@ == old(out)@ + str64_bytes(s@, e),
        fits_u64(s@),
{
    let bytes = s.as_bytes();
    write_u64(out, bytes.len() as u64, e);
    write_all(out, bytes);
    assert(out@ =~= old(out)@ + str64_bytes(s@, e));
}

/// Whether two strings hold the same characters, decided on their UTF-8 bytes.
pub fn str_eq(a: &str, b: &str) -> (r: bool)
    ensures
        r == (a@ == b@),
{
    let x = a.as_bytes();
    let y = b.as_bytes();
    proof {
        vstd::utf8::encode_utf8_decode_utf8(a@);
        vstd::utf8::encode_utf8_decode_utf8(b@);
        assert(a@ == b@ ==> x@ == y@);
        assert(x@ == y@ ==> a@ == b@);
    }
    if x.len() != y.len() {
        return false;
    }
    let mut i: usize = 0;
    while i < x.len()
        invariant
            i <= x@.len(),
            x@.len() == y@.len(),
            a@ == b@ ==> x@ == y@,
            x@ == y@ ==> a@ == b@,
            forall|k: int| 0 <= k < i ==> x@[k] == y@[k],
        decreases x@.len() - i,
    {
        if x[i] != y[i] {
            return false;
        }
        i = i + 1;
    }
    assert(x@ =~= y@);
    true
}

/// An in-memory byte buffer: writing appends, reading takes from the front.
pub struct ByteVec(pub Vec<u8>);

impl ByteVec {
    /// Takes up to `max` bytes off the front of the buffer.
    pub fn read(&mut self, max: usize) -> (r: Vec<u8>)
        ensures
            r@.len() == if max < old(self).0@.len() { max as int } else { old(self).0@.len() as int },
            old(self).0@ == r@ + final(self).0@,
    {
        let n = if max < self.0.len() { max } else { self.0.len() };
        let mut head = self.0.split_off(n);
        std::mem::swap(&mut self.0, &mut head);
        head
    }

    /// Appends all of `buf`, giving how many bytes were written.
    pub fn write(&mut self, buf: &[u8]) -> (r: usize)
        ensures
            r == buf@.len(),
            final(self).0@ == old(self).0@ + buf@,
    {
        write_all(&mut self.0, buf);
        buf.len()
    }

    /// Nothing is held back, so there is nothing to flush.
    pub fn flush(&mut self)
        ensures
            final(self).0@ == old(self).0@,
    {
    }
}

} // verus!
