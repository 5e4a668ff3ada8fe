//! LZW: every string of bytes seen once is given a code, and the input
//! is written as the codes of the longest strings known.
//!
//! Codes are 16 bits wide, least significant byte first. Codes below 256
//! stand for single bytes. When the codes run out, both sides forget
//! every string but the single bytes.

use std::collections::HashMap;
use vstd::prelude::*;
use crate::bufio::ByteWriter;
use crate::bufio::BufferedWrite;
use crate::bufio::get_u16;
use crate::bufio::put_bytes;
use crate::bufio::u16_at;
use crate::bufio::u16_bytes;
use crate::error::DecodeError;
use crate::error::prefixed_ok;

verus! {

broadcast use vstd::std_specs::hash::group_hash_axioms;

/// The code that is never given out: at this count the dictionary is
/// emptied.
pub const MAX_CODE: u16 = 65535;

/// The dictionary key of a known string followed by one byte.
pub open spec fn key(code: int, byte: u8) -> u32 {
    (code * 256 + byte) as u32
}

/// The codes for `data` from `pos` on, where `cur` is the code of the
/// longest known string that ends just before `pos`, `dict` maps a known
/// string and a byte to the code of the longer string, and `next` is the
/// next free code.
pub open spec fn compressed_from(
    dict: Map<u32, u16>,
    next: u16,
    cur: u16,
    data: Seq<u8>,
    pos: int,
) -> Seq<u8>
    decreases data.len() - pos,
{
    if pos >= data.len() {
        u16_bytes(cur)
    } else {
        let k = key(cur as int, data[pos]);
        if dict.contains_key(k) {
            compressed_from(dict, next, dict[k], data, pos + 1)
        } else if next + 1 >= MAX_CODE {
            u16_bytes(cur) + compressed_from(Map::empty(), 256, data[pos] as u16, data, pos + 1)
        } else {
            u16_bytes(cur) + compressed_from(
                dict.insert(k, next),
                (next + 1) as u16,
                data[pos] as u16,
                data,
                pos + 1,
            )
        }
    }
}

/// The LZW codes for `data`; none for no data.
pub open spec fn compressed(data: Seq<u8>) -> Seq<u8> {
    if data.len() == 0 {
        Seq::empty()
    } else {
        compressed_from(Map::empty(), 256, data[0] as u16, data, 1)
    }
}

/// Compresses `input` with LZW.
pub fn lzw_compress(input: &[u8]) -> (out: Vec<u8>)
    ensures
        out@ == compressed(input@),
{
    let mut file_out = ByteWriter::new();
    if input.len() == 0 {
        return file_out.into_bytes();
    }
    let mut dict_code: u16 = 256;
    let mut dict: HashMap<u32, u16> = HashMap::new();
    let mut cur: u16 = input[0] as u16;
    let mut pos: usize = 1;
    while pos < input.len()
        invariant
            1 <= pos <= input@.len(),
            256 <= dict_code < MAX_CODE,
            compressed(input@) == file_out.written() + compressed_from(
                dict@,
                dict_code,
                cur,
                input@,
                pos as int,
            ),
        decreases input@.len() - pos,
    {
        let byte: u8 = input[pos];
        let k: u32 = (cur as u32) * 256 + (byte as u32);
        let ghost written = file_out.written();
        let ghost before = compressed_from(dict@, dict_code, cur, input@, pos as int);
        match dict.get(&k) {
            Some(code) => {
                cur = *code;
            },
            None => {
                file_out.write_u16(cur);
                dict.insert(k, dict_code);
                dict_code += 1;
                cur = byte as u16;
                if dict_code >= MAX_CODE {
                    dict_code = 256;
                    dict.clear();
                }
                proof {
                    let after = compressed_from(dict@, dict_code, cur, input@, pos + 1);
                    assert(written + before =~= file_out.written() + after);
                }
            },
        }
        pos += 1;
    }
    file_out.write_u16(cur);
    file_out.into_bytes()
}

/// The string a code stands for: a single byte below 256, an entry of
/// the dictionary from there.
pub open spec fn string_of(entries: Seq<Seq<u8>>, code: u16) -> Seq<u8> {
    if code < 256 {
        seq![code as u8]
    } else {
        entries[code - 256]
    }
}

/// The entries kept after one more has been added: none at all when the
/// codes have run out.
pub open spec fn grown(entries: Seq<Seq<u8>>, entry: Seq<u8>) -> Seq<Seq<u8>> {
    if 256 + entries.len() + 1 >= MAX_CODE {
        Seq::empty()
    } else {
        entries.push(entry)
    }
}

/// What the codes of `input` from `pos` on stand for, where `entries`
/// are the strings with codes from 256 up and `prev` is what the last
/// code stood for. A code with no string yet stands for `prev` followed
/// by its own first byte, provided it is the next free code and there is
/// a `prev`; any other unknown code is invalid. A single byte left over
/// at the end is a code cut short.
pub open spec fn decompressed_from(
    entries: Seq<Seq<u8>>,
    prev: Seq<u8>,
    input: Seq<u8>,
    pos: int,
) -> Result<Seq<u8>, DecodeError>
    decreases input.len() - pos,
{
    if pos >= input.len() {
        Ok(Seq::empty())
    } else if pos + 1 >= input.len() {
        Err(DecodeError::UnexpectedEof)
    } else {
        let code = u16_at(input, pos);
        if code >= 256 + entries.len() {
            if code == 256 + entries.len() && prev.len() > 0 {
                let string = prev.push(prev[0]);
                prefixed_ok(string, decompressed_from(grown(entries, string), string, input, pos + 2))
            } else {
                Err(DecodeError::InvalidData)
            }
        } else {
            let string = string_of(entries, code);
            if prev.len() > 0 {
                prefixed_ok(
                    string,
                    decompressed_from(grown(entries, prev.push(string[0])), string, input, pos + 2),
                )
            } else {
                prefixed_ok(string, decompressed_from(entries, string, input, pos + 2))
            }
        }
    }
}

/// What the LZW codes `input` stand for.
pub open spec fn decompressed(input: Seq<u8>) -> Result<Seq<u8>, DecodeError> {
    decompressed_from(Seq::empty(), Seq::empty(), input, 0)
}

/// The strings of the entries, as sequences.
pub open spec fn strings(entries: Seq<Vec<u8>>) -> Seq<Seq<u8>> {
    entries.map_values(|e: Vec<u8>| e@)
}

/// Decompresses the LZW codes `input`.
pub fn lzw_decompress(input: &[u8]) -> (r: Result<Vec<u8>, DecodeError>)
    ensures
        match decompressed(input@) {
            Ok(data) => r is Ok && r->Ok_0@ == data,
            Err(e) => r == Err::<Vec<u8>, DecodeError>(e),
        },
{
    let mut out: Vec<u8> = Vec::new();
    let mut entries: Vec<Vec<u8>> = Vec::new();
    let mut prev_string: Vec<u8> = Vec::new();
    let mut pos: usize = 0;
    proof {
        assert(strings(entries@) =~= Seq::<Seq<u8>>::empty());
        let whole = decompressed(input@);
        if whole is Ok {
            assert(out@ + whole->Ok_0 =~= whole->Ok_0);
        }
    }
    while pos < input.len()
        invariant
            pos <= input@.len(),
            256 + entries@.len() < MAX_CODE,
            forall|i: int| 0 <= i < entries@.len() ==> (#[trigger] entries@[i])@.len() >= 1,
            decompressed(input@) == prefixed_ok(
                out@,
                decompressed_from(strings(entries@), prev_string@, input@, pos as int),
            ),
        decreases input@.len() - pos,
    {
        if input.len() - pos < 2 {
            return Err(DecodeError::UnexpectedEof);
        }
        let code: u16 = get_u16(input, pos);
        let known: usize = 256 + entries.len();
        let ghost before = strings(entries@);
        let ghost written = out@;
        let string: Vec<u8>;
        if (code as usize) >= known {
            if (code as usize) != known || prev_string.len() == 0 {
                return Err(DecodeError::InvalidData);
            }
            let first: u8 = prev_string[0];
            prev_string.push(first);
            string = prev_string.clone();
            assert(string@ =~= prev_string@);
            add_entry(&mut entries, prev_string);
        } else {
            if code < 256 {
                let mut single: Vec<u8> = Vec::new();
                single.push(code as u8);
                string = single;
            } else {
                string = entries[(code as usize) - 256].clone();
                assert(string@ =~= before[code - 256]);
            }
            assert(string@ =~= string_of(before, code));
            if prev_string.len() > 0 {
                prev_string.push(string[0]);
                add_entry(&mut entries, prev_string);
            }
        }
        put_bytes(&mut out, string.as_slice());
        proof {
            let rest = decompressed_from(strings(entries@), string@, input@, pos + 2);
            if rest is Ok {
                assert(written + (string@ + rest->Ok_0) =~= out@ + rest->Ok_0);
            }
        }
        prev_string = string;
        pos += 2;
    }
    proof {
        assert(out@ + Seq::<u8>::empty() =~= out@);
    }
    Ok(out)
}

/// Adds `entry` to the dictionary, or empties the dictionary if the
/// codes have run out.
fn add_entry(entries: &mut Vec<Vec<u8>>, entry: Vec<u8>)
    requires
        256 + old(entries)@.len() < MAX_CODE,
        entry@.len() >= 1,
        forall|i: int| 0 <= i < old(entries)@.len() ==> (#[trigger] old(entries)@[i])@.len() >= 1,
    ensures
        strings(final(entries)@) =~= grown(strings(old(entries)@), entry@),
        256 + final(entries)@.len() < MAX_CODE,
        forall|i: int|
            0 <= i < final(entries)@.len() ==> (#[trigger] final(entries)@[i])@.len() >= 1,
{
    if 256 + entries.len() + 1 >= MAX_CODE as usize {
        entries.clear();
    } else {
        entries.push(entry);
    }
}

} // verus!
