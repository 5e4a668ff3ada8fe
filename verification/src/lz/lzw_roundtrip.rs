//! Why LZW decompression undoes compression: the decoder builds the
//! encoder's dictionary one code behind it, and the one string it may
//! lack is the last string followed by its own first byte.

use vstd::prelude::*;
use crate::bufio::lemma_u16_bytes_value;
use crate::bufio::u16_at;
use crate::bufio::u16_bytes;
use crate::error::DecodeError;
use crate::lz::lzw::compressed;
use crate::lz::lzw::compressed_from;
use crate::lz::lzw::decompressed;
use crate::lz::lzw::decompressed_from;
use crate::lz::lzw::grown;
use crate::lz::lzw::key;
use crate::error::prefixed_ok;
use crate::lz::lzw::string_of;
use crate::lz::lzw::MAX_CODE;

verus! {

/// Decoding from a position is decoding what follows it.
pub proof fn lemma_decode_skip(entries: Seq<Seq<u8>>, prev: Seq<u8>, input: Seq<u8>, pos: int)
    requires
        0 <= pos <= input.len(),
    ensures
        decompressed_from(entries, prev, input, pos) == decompressed_from(
            entries,
            prev,
            input.skip(pos),
            0,
        ),
    decreases input.len() - pos,
{
    let rest = input.skip(pos);
    if pos + 1 < input.len() {
        let code = u16_at(input, pos);
        assert(rest[0] == input[pos] && rest[1] == input[pos + 1]);
        assert(u16_at(rest, 0) == code);
        assert(rest.skip(2) =~= input.skip(pos + 2));
        if code >= 256 + entries.len() {
            if code == 256 + entries.len() && prev.len() > 0 {
                let string = prev.push(prev[0]);
                lemma_decode_skip(grown(entries, string), string, input, pos + 2);
                lemma_decode_skip(grown(entries, string), string, rest, 2);
            }
        } else {
            let string = string_of(entries, code);
            if prev.len() > 0 {
                let next = grown(entries, prev.push(string[0]));
                lemma_decode_skip(next, string, input, pos + 2);
                lemma_decode_skip(next, string, rest, 2);
            } else {
                lemma_decode_skip(entries, string, input, pos + 2);
                lemma_decode_skip(entries, string, rest, 2);
            }
        }
    }
}

/// The encoder's dictionary `dict` holds the strings `strings` under the
/// codes from 256 up: every key is a known string and a byte, and leads
/// to the code of that string followed by that byte.
pub open spec fn holds(dict: Map<u32, u16>, strings: Seq<Seq<u8>>, next: u16) -> bool {
    &&& next == 256 + strings.len()
    &&& next < MAX_CODE
    &&& forall|k: int| 0 <= k < strings.len() ==> (#[trigger] strings[k]).len() >= 1
    &&& forall|k: u32| #[trigger]
        dict.contains_key(k) ==> {
            &&& k / 256 < next
            &&& 256 <= dict[k] < next
            &&& string_of(strings, dict[k]) == string_of(strings, (k / 256) as u16).push(
                (k % 256) as u8,
            )
        }
}

/// How far the decoder, with entries `entries` and last string `prev`,
/// is behind an encoder with strings `strings` and current code `cur`:
/// at the start neither knows anything; later the decoder lacks the
/// encoder's last string, which is `prev` and the first byte of the
/// current string; just after the encoder has emptied its dictionary,
/// the decoder's is full.
pub open spec fn behind(strings: Seq<Seq<u8>>, entries: Seq<Seq<u8>>, prev: Seq<u8>, cur: u16) -> bool {
    &&& forall|k: int| 0 <= k < entries.len() ==> (#[trigger] entries[k]).len() >= 1
    &&& if strings.len() >= 1 {
        &&& entries =~= strings.drop_last()
        &&& prev.len() >= 1
        &&& strings.last() == prev.push(string_of(strings, cur)[0])
    } else if prev.len() == 0 {
        entries.len() == 0
    } else {
        entries.len() == MAX_CODE - 257
    }
}

/// Decoding the code the encoder writes gives the encoder's current
/// string.
pub proof fn lemma_decode_code(
    strings: Seq<Seq<u8>>,
    entries: Seq<Seq<u8>>,
    prev: Seq<u8>,
    cur: u16,
    rest: Seq<u8>,
)
    requires
        behind(strings, entries, prev, cur),
        cur < 256 + strings.len(),
        256 + strings.len() < MAX_CODE,
        forall|k: int| 0 <= k < strings.len() ==> (#[trigger] strings[k]).len() >= 1,
    ensures
        decompressed_from(entries, prev, u16_bytes(cur) + rest, 0) == prefixed_ok(
            string_of(strings, cur),
            decompressed_from(
                if prev.len() == 0 {
                    entries
                } else if strings.len() >= 1 {
                    strings
                } else {
                    Seq::empty()
                },
                string_of(strings, cur),
                rest,
                0,
            ),
        ),
        string_of(strings, cur).len() >= 1,
{
    let input = u16_bytes(cur) + rest;
    lemma_u16_bytes_value(cur);
    assert(input[0] == u16_bytes(cur)[0] && input[1] == u16_bytes(cur)[1]);
    assert(u16_at(input, 0) == cur);
    assert(input.skip(2) =~= rest);
    let string = string_of(strings, cur);
    if cur >= 256 {
        assert(strings[cur - 256].len() >= 1);
    }
    if cur >= 256 + entries.len() {
        let made = prev.push(prev[0]);
        assert(strings.last() == strings[cur - 256]);
        assert(string[0] == prev[0]);
        assert(made =~= string);
        assert(grown(entries, made) =~= strings);
        lemma_decode_skip(strings, string, input, 2);
    } else {
        if cur >= 256 {
            assert(entries[cur - 256] == strings[cur - 256]);
        }
        assert(string_of(entries, cur) == string);
        if prev.len() > 0 {
            let next = grown(entries, prev.push(string[0]));
            if strings.len() >= 1 {
                assert(next =~= strings);
            } else {
                assert(next =~= Seq::<Seq<u8>>::empty());
            }
            lemma_decode_skip(next, string, input, 2);
        } else {
            lemma_decode_skip(entries, string, input, 2);
        }
    }
}

/// Decoding the codes for what is left of the data gives the encoder's
/// current string and what is left of the data.
pub proof fn lemma_round_trip_from(
    dict: Map<u32, u16>,
    strings: Seq<Seq<u8>>,
    next: u16,
    cur: u16,
    entries: Seq<Seq<u8>>,
    prev: Seq<u8>,
    data: Seq<u8>,
    pos: int,
)
    requires
        holds(dict, strings, next),
        cur < next,
        behind(strings, entries, prev, cur),
        0 <= pos <= data.len(),
    ensures
        decompressed_from(entries, prev, compressed_from(dict, next, cur, data, pos), 0) == Ok::<
            Seq<u8>,
            DecodeError,
        >(string_of(strings, cur) + data.skip(pos)),
    decreases data.len() - pos,
{
    let string = string_of(strings, cur);
    if pos >= data.len() {
        let none = Seq::<u8>::empty();
        lemma_decode_code(strings, entries, prev, cur, none);
        assert(compressed_from(dict, next, cur, data, pos) =~= u16_bytes(cur) + none);
        assert(string + none =~= string + data.skip(pos));
    } else {
        let byte = data[pos];
        let k = key(cur as int, byte);
        assert(k / 256 == cur && k % 256 == byte);
        assert(data.skip(pos) =~= seq![byte] + data.skip(pos + 1));
        if dict.contains_key(k) {
            let longer = dict[k];
            assert(string_of(strings, longer) == string.push(byte));
            if cur >= 256 {
                assert(strings[cur - 256].len() >= 1);
            }
            assert(string_of(strings, longer)[0] == string[0]);
            lemma_round_trip_from(dict, strings, next, longer, entries, prev, data, pos + 1);
            assert(string.push(byte) + data.skip(pos + 1) =~= string + data.skip(pos));
        } else {
            let follow = byte as u16;
            let made = string.push(byte);
            let tail = if next + 1 >= MAX_CODE {
                compressed_from(Map::empty(), 256, follow, data, pos + 1)
            } else {
                compressed_from(dict.insert(k, next), (next + 1) as u16, follow, data, pos + 1)
            };
            assert(compressed_from(dict, next, cur, data, pos) =~= u16_bytes(cur) + tail);
            lemma_decode_code(strings, entries, prev, cur, tail);
            let caught_up = if prev.len() == 0 {
                entries
            } else if strings.len() >= 1 {
                strings
            } else {
                Seq::empty()
            };
            if next + 1 >= MAX_CODE {
                let none = Seq::<Seq<u8>>::empty();
                assert(holds(Map::empty(), none, 256));
                assert(behind(none, caught_up, string, follow));
                lemma_round_trip_from(Map::empty(), none, 256, follow, caught_up, string, data, pos + 1);
                assert(string_of(none, follow) =~= seq![byte]);
            } else {
                let more = strings.push(made);
                let wider = dict.insert(k, next);
                assert forall|c: u16| c < next implies #[trigger] string_of(more, c) == string_of(
                    strings,
                    c,
                ) by {}
                assert(string_of(more, next) == made);
                assert forall|x: u32| #[trigger] wider.contains_key(x) implies {
                    &&& x / 256 < next + 1
                    &&& 256 <= wider[x] < next + 1
                    &&& string_of(more, wider[x]) == string_of(more, (x / 256) as u16).push(
                        (x % 256) as u8,
                    )
                } by {
                    if x != k {
                        assert(dict.contains_key(x));
                        assert(string_of(more, dict[x]) == string_of(strings, dict[x]));
                        assert(string_of(more, (x / 256) as u16) == string_of(
                            strings,
                            (x / 256) as u16,
                        ));
                    } else {
                        assert(string_of(more, cur) == string);
                    }
                }
                assert(holds(wider, more, (next + 1) as u16));
                assert(string_of(more, follow) =~= seq![byte]);
                assert(more.drop_last() =~= strings);
                assert(caught_up =~= strings);
                assert(behind(more, caught_up, string, follow));
                lemma_round_trip_from(
                    wider,
                    more,
                    (next + 1) as u16,
                    follow,
                    caught_up,
                    string,
                    data,
                    pos + 1,
                );
            }
            assert(string + (seq![byte] + data.skip(pos + 1)) =~= string + data.skip(pos));
        }
    }
}

/// Decompressing what compression produced gives back the data.
pub proof fn lemma_round_trip(data: Seq<u8>)
    ensures
        decompressed(compressed(data)) == Ok::<Seq<u8>, DecodeError>(data),
{
    let none = Seq::<Seq<u8>>::empty();
    if data.len() > 0 {
        assert(holds(Map::empty(), none, 256));
        lemma_round_trip_from(Map::empty(), none, 256, data[0] as u16, none, Seq::empty(), data, 1);
        assert(string_of(none, data[0] as u16) + data.skip(1) =~= data);
    } else {
        assert(data =~= Seq::<u8>::empty());
    }
}

} // verus!
