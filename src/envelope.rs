use vstd::prelude::*;
use vstd::slice::{slice_subrange, slice_to_vec};

use crate::error::SettingsError;
use crate::ext::{lemma_u32_round_trip, read_u32, take_u32, u32_bytes, write_all, write_u32, Endianness};

verus! {

/// The smallest input the block compressor accepts.
pub const MIN_BLOCK: usize = 16;

/// The largest buffer length the block compressor's C interface can be given.
pub const MAX_BLOCK: usize = 0x7fff_ffff;

/// What FastLZ's block compressor makes of `input`.
pub uninterp spec fn fastlz_compressed(input: Seq<u8>) -> Seq<u8>;

/// What FastLZ's block decompressor makes of a complete block `input` (see
/// `block_complete`) with room for `max_len` bytes.
pub uninterp spec fn fastlz_decompressed(input: Seq<u8>, max_len: nat) -> Seq<u8>;

/// The level a FastLZ block is written at: the top three bits of its first
/// byte hold the level less one.
pub open spec fn level_bits(s: Seq<u8>) -> u8 {
    s[0] >> 5u8
}

/// Just past the extra length bytes of a level-2 match that start at `k`:
/// bytes of 255 continue the length, the first other byte ends it; `None`
/// where the block ends first.
pub open spec fn length_run_end(s: Seq<u8>, k: int) -> Option<int>
    decreases s.len() - k,
{
    if k < 0 || k >= s.len() {
        None
    } else if s[k] != 255 {
        Some(k + 1)
    } else {
        length_run_end(s, k + 1)
    }
}

/// Just past the operand bytes of a match instruction with control byte
/// `ctrl` whose operands start at `i` (an extra length byte or run where the
/// three length bits are all set, then the distance byte, and at level 2 two
/// more distance bytes after a distance byte of 255 with all five distance
/// bits set); `None` where the block ends first.
pub open spec fn match_end(s: Seq<u8>, i: int, ctrl: u8, level: u8) -> Option<int> {
    if level == 0 {
        let j = if ctrl >> 5u8 == 7 {
            i + 1
        } else {
            i
        };
        if j + 1 <= s.len() {
            Some(j + 1)
        } else {
            None
        }
    } else {
        let k = if ctrl >> 5u8 == 7 {
            length_run_end(s, i)
        } else {
            Some(i)
        };
        match k {
            None => None,
            Some(k) => if k < 0 || k + 1 > s.len() {
                None
            } else if s[k] == 255 && ctrl & 31u8 == 31 {
                if k + 3 <= s.len() {
                    Some(k + 3)
                } else {
                    None
                }
            } else {
                Some(k + 1)
            },
        }
    }
}

/// Whether the instructions of a block, from the one with control byte
/// `ctrl` whose operands start at `i` to the end, have all their operand
/// bytes inside the block. A literal run that overflows the block is
/// refused by the decompressor before it reads it, so it counts as complete.
pub open spec fn instructions_complete(s: Seq<u8>, i: int, ctrl: u8, level: u8) -> bool
    decreases s.len() - i,
{
    if i < 0 || i > s.len() {
        false
    } else if ctrl < 32 {
        let j = i + ctrl + 1;
        if j < s.len() {
            instructions_complete(s, j + 1, s[j], level)
        } else {
            true
        }
    } else {
        match match_end(s, i, ctrl, level) {
            None => false,
            Some(j) => if j <= i {
                false
            } else if j < s.len() {
                instructions_complete(s, j + 1, s[j], level)
            } else {
                true
            },
        }
    }
}

/// Whether the FastLZ decompressor reads only inside block `s`: the block is
/// not empty, and at levels 1 and 2 every instruction is complete (at other
/// levels the decompressor stops after the first byte). The first
/// instruction is a literal run whose control byte is the first byte's low
/// five bits.
pub open spec fn block_complete(s: Seq<u8>) -> bool {
    s.len() > 0 && (level_bits(s) > 1 || instructions_complete(s, 1, s[0] & 31u8, level_bits(s)))
}

/// Just past the operand bytes of a match instruction.
fn match_end_exec(s: &[u8], i: usize, ctrl: u8, level: u8) -> (r: Option<usize>)
    requires
        i <= s@.len(),
    ensures
        match r {
            Some(j) => match_end(s@, i as int, ctrl, level) == Some(j as int),
            None => match_end(s@, i as int, ctrl, level) is None,
        },
{
    if level == 0 {
        if ctrl >> 5 == 7 {
            if i < s.len() && s.len() - i >= 2 {
                Some(i + 2)
            } else {
                None
            }
        } else if i < s.len() {
            Some(i + 1)
        } else {
            None
        }
    } else {
        let k = if ctrl >> 5 == 7 {
            let mut k = i;
            while k < s.len() && s[k] == 255
                invariant
                    i <= k <= s@.len(),
                    length_run_end(s@, i as int) == length_run_end(s@, k as int),
                decreases s@.len() - k,
            {
                k = k + 1;
            }
            if k >= s.len() {
                return None;
            }
            k + 1
        } else {
            i
        };
        if k >= s.len() {
            None
        } else if s[k] == 255 && ctrl & 31 == 31 {
            if s.len() - k >= 3 {
                Some(k + 3)
            } else {
                None
            }
        } else {
            Some(k + 1)
        }
    }
}

/// Whether the FastLZ decompressor reads only inside block `s`.
pub fn block_complete_exec(s: &[u8]) -> (r: bool)
    ensures
        r == block_complete(s@),
{
    if s.len() == 0 {
        return false;
    }
    let level = s[0] >> 5;
    if level > 1 {
        return true;
    }
    let mut ctrl: u8 = s[0] & 31;
    let mut i: usize = 1;
    loop
        invariant
            1 <= i <= s@.len(),
            level == level_bits(s@),
            level <= 1,
            block_complete(s@) == instructions_complete(s@, i as int, ctrl, level),
        decreases s@.len() - i,
    {
        if ctrl < 32 {
            if (ctrl as usize) + 1 < s.len() - i {
                let j = i + ctrl as usize + 1;
                ctrl = s[j];
                i = j + 1;
            } else {
                return true;
            }
        } else {
            match match_end_exec(s, i, ctrl, level) {
                None => {
                    return false;
                },
                Some(j) => {
                    if j <= i {
                        return false;
                    } else if j < s.len() {
                        ctrl = s[j];
                        i = j + 1;
                    } else {
                        return true;
                    }
                },
            }
        }
    }
}

/// Relies on `fastlz::compress`: given an output buffer of at least twice the
/// input and at least 128 bytes (the crate asks for 5% more and 66 bytes), it
/// always returns `Ok` with the compressed block inside that buffer, and
/// FastLZ is lossless, so decompressing a complete block with room for the
/// input's length gives the input back.
#[verifier::external_body]
fn fastlz_compress_block(input: &[u8], capacity: usize) -> (r: Vec<u8>)
    requires
        MIN_BLOCK <= input@.len() <= MAX_BLOCK,
        capacity >= 2 * input@.len(),
        capacity >= 128,
    ensures
        r@ == fastlz_compressed(input@),
        r@.len() <= capacity,
        block_complete(r@) ==> fastlz_decompressed(r@, input@.len()) == input@,
{
    let mut output = vec![0u8; capacity];
    match fastlz::compress(input, &mut output) {
        Ok(block) => block.to_vec(),
        Err(()) => Vec::new(),
    }
}

/// Relies on `fastlz::decompress`: it writes at most `max_len` bytes and
/// returns the bytes written, none where the decompressor meets an
/// instruction that does not fit the output or a literal run that overflows
/// the block. Its C code does not bound the operand bytes of a match
/// instruction by the block (and reads the first byte unconditionally), so it
/// is only given blocks whose instructions are complete; there it reads
/// nothing outside the block and the zeroed output buffer.
#[verifier::external_body]
fn fastlz_decompress_block(input: &[u8], max_len: usize) -> (r: Vec<u8>)
    requires
        block_complete(input@),
        input@.len() <= MAX_BLOCK,
        max_len <= MAX_BLOCK,
    ensures
        r@ == fastlz_decompressed(input@, max_len as nat),
        r@.len() <= max_len,
{
    let mut output = vec![0u8; max_len];
    match fastlz::decompress(input, &mut output) {
        Ok(block) => block.to_vec(),
        Err(()) => Vec::new(),
    }
}

/// The header of an envelope: stored size, then original size, both little-endian.
pub open spec fn header_bytes(stored: u32, original: u32) -> Seq<u8> {
    u32_bytes(stored, Endianness::Little) + u32_bytes(original, Endianness::Little)
}

/// The envelope around `buf`, given what the compressor returned for it.
/// The compressed block is used only where it is non-empty, shorter than
/// `buf` and complete; otherwise `buf` is stored as it is.
pub open spec fn framed(buf: Seq<u8>, compressed: Option<Seq<u8>>) -> Seq<u8> {
    match compressed {
        Some(c) if 0 < c.len() < buf.len() && block_complete(c) => header_bytes(
            c.len() as u32,
            buf.len() as u32,
        ) + c,
        _ => header_bytes(buf.len() as u32, buf.len() as u32) + buf,
    }
}

/// Turns the payload of an envelope back into the bytes it holds.
pub open spec fn unpacked(payload: Seq<u8>, original: u32) -> Result<Seq<u8>, SettingsError> {
    if payload.len() == original {
        Ok(payload)
    } else if !block_complete(payload) || payload.len() > MAX_BLOCK || original > MAX_BLOCK {
        Err(SettingsError::DecompressionFailed)
    } else {
        decompressed_result(fastlz_decompressed(payload, original as nat), original)
    }
}

/// Accepts a decompressor's output only where it has exactly the recorded size.
pub open spec fn decompressed_result(out: Seq<u8>, original: u32) -> Result<Seq<u8>, SettingsError> {
    if out.len() == original {
        Ok(out)
    } else {
        Err(SettingsError::DecompressionFailed)
    }
}

/// Opens an envelope read from a file of `file_size` bytes whose content is `data`.
pub open spec fn unwrapped(data: Seq<u8>, file_size: int) -> Result<Seq<u8>, SettingsError> {
    match take_u32(data, Endianness::Little) {
        Err(e) => Err(e),
        Ok((stored, s1)) => if stored + 8 != file_size {
            Err(SettingsError::CorruptHeader { declared: (stored + 8) as u64, actual: file_size as u64 })
        } else {
            match take_u32(s1, Endianness::Little) {
                Err(e) => Err(e),
                Ok((original, s2)) => if s2.len() < stored {
                    Err(SettingsError::ShortRead)
                } else {
                    unpacked(s2.take(stored as int), original)
                },
            }
        },
    }
}

/// Checks a decompressor's output against the size the header records.
pub fn check_decompressed(out: Vec<u8>, original: u32) -> (r: Result<Vec<u8>, SettingsError>)
    ensures
        match decompressed_result(out@, original) {
            Ok(b) => r matches Ok(v) && v@ == b,
            Err(e) => r == Err::<Vec<u8>, SettingsError>(e),
        },
{
    if out.len() as u64 == original as u64 {
        Ok(out)
    } else {
        Err(SettingsError::DecompressionFailed)
    }
}

/// Reads an envelope: a file of `file_size` bytes whose content is `data`.
pub fn decompress_file(data: &[u8], file_size: usize) -> (r: Result<Vec<u8>, SettingsError>)
    ensures
        match unwrapped(data@, file_size as int) {
            Ok(b) => r matches Ok(v) && v@ == b,
            Err(e) => r == Err::<Vec<u8>, SettingsError>(e),
        },
{
    let (stored, after_stored) = read_u32(data, 0, Endianness::Little)?;
    proof {
        assert(data@.skip(0) =~= data@);
    }
    if stored as u64 + 8 != file_size as u64 {
        return Err(
            SettingsError::CorruptHeader { declared: stored as u64 + 8, actual: file_size as u64 },
        );
    }
    let (original, after_original) = read_u32(data, after_stored, Endianness::Little)?;
    if ((data.len() - after_original) as u64) < stored as u64 {
        return Err(SettingsError::ShortRead);
    }
    let end = after_original + stored as usize;
    let payload = slice_to_vec(slice_subrange(data, after_original, end));
    proof {
        assert(payload@ =~= data@.skip(after_original as int).take(stored as int));
    }
    if stored == original {
        return Ok(payload);
    }
    if !block_complete_exec(payload.as_slice()) || payload.len() > MAX_BLOCK || original as u64
        > MAX_BLOCK as u64 {
        return Err(SettingsError::DecompressionFailed);
    }
    let out = fastlz_decompress_block(payload.as_slice(), original as usize);
    check_decompressed(out, original)
}

/// Frames `buf` in an envelope, given what the compressor returned for it.
pub fn frame(buf: &[u8], compressed: Option<Vec<u8>>) -> (r: Vec<u8>)
    requires
        buf@.len() <= u32::MAX,
    ensures
        r@ == framed(buf@, match compressed {
            Some(c) => Some(c@),
            None => None,
        }),
{
    let mut out: Vec<u8> = Vec::new();
    match compressed {
        Some(c) => {
            if 0 < c.len() && c.len() < buf.len() && block_complete_exec(c.as_slice()) {
                write_u32(&mut out, c.len() as u32, Endianness::Little);
                write_u32(&mut out, buf.len() as u32, Endianness::Little);
                write_all(&mut out, c.as_slice());
                assert(out@ =~= framed(buf@, Some(c@)));
                return out;
            }
        },
        None => {},
    }
    write_u32(&mut out, buf.len() as u32, Endianness::Little);
    write_u32(&mut out, buf.len() as u32, Endianness::Little);
    write_all(&mut out, buf);
    assert(out@ =~= header_bytes(buf@.len() as u32, buf@.len() as u32) + buf@);
    out
}

/// An envelope written around `buf`, with or without the compressed block,
/// opens back to `buf`.
pub proof fn lemma_framed_round_trip(buf: Seq<u8>, c: Seq<u8>, use_block: bool)
    requires
        buf.len() <= u32::MAX,
        use_block ==> buf.len() <= MAX_BLOCK,
        use_block && block_complete(c) ==> fastlz_decompressed(c, buf.len()) == buf,
    ensures
        ({
            let f = framed(buf, if use_block { Some(c) } else { None });
            unwrapped(f, f.len() as int) == Ok::<Seq<u8>, SettingsError>(buf)
        }),
{
    let compressed = if use_block { Some(c) } else { None };
    let f = framed(buf, compressed);
    let (stored, payload) = if use_block && 0 < c.len() < buf.len() && block_complete(c) {
        (c.len() as u32, c)
    } else {
        (buf.len() as u32, buf)
    };
    let original = buf.len() as u32;
    assert(f =~= u32_bytes(stored, Endianness::Little) + (u32_bytes(original, Endianness::Little)
        + payload));
    lemma_u32_round_trip(stored, Endianness::Little, u32_bytes(original, Endianness::Little) + payload);
    lemma_u32_round_trip(original, Endianness::Little, payload);
    assert(payload.take(stored as int) =~= payload);
}

/// What the compressor is asked for on `buf`: a block where `buf` has a
/// length the block compressor takes, nothing otherwise.
pub open spec fn compressed_for(buf: Seq<u8>) -> Option<Seq<u8>> {
    if MIN_BLOCK <= buf.len() <= MAX_BLOCK {
        Some(fastlz_compressed(buf))
    } else {
        None
    }
}

/// The envelope written around `buf`.
pub open spec fn envelope_of(buf: Seq<u8>) -> Seq<u8> {
    framed(buf, compressed_for(buf))
}

/// Wraps `buf` in an envelope. Compression is attempted wherever the block
/// compressor takes the length, and the block is kept where it is smaller.
/// Fails only where `buf` is too long for the header's four-byte sizes.
pub fn compress_file(buf: &[u8]) -> (r: Result<Vec<u8>, SettingsError>)
    ensures
        r is Ok <==> buf@.len() <= u32::MAX,
        r is Err ==> r == Err::<Vec<u8>, SettingsError>(SettingsError::LengthOverflow),
        r matches Ok(out) ==> out@ == envelope_of(buf@),
        r matches Ok(out) ==> unwrapped(out@, out@.len() as int) == Ok::<Seq<u8>, SettingsError>(
            buf@,
        ),
{
    if buf.len() as u64 > u32::MAX as u64 {
        return Err(SettingsError::LengthOverflow);
    }
    if buf.len() < MIN_BLOCK || buf.len() > MAX_BLOCK {
        proof {
            lemma_framed_round_trip(buf@, Seq::empty(), false);
        }
        return Ok(frame(buf, None));
    }
    let capacity = if buf.len() > 64 {
        2 * buf.len()
    } else {
        128
    };
    let c = fastlz_compress_block(buf, capacity);
    proof {
        lemma_framed_round_trip(buf@, c@, true);
    }
    Ok(frame(buf, Some(c)))
}

} // verus!
