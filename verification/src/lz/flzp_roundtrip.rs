//! Why FLZP decompression undoes compression: the decoder's memory is the
//! encoder's as it was before the match the encoder is still making, and
//! every symbol the encoder writes brings it up to date.

use vstd::prelude::*;
use crate::error::DecodeError;
use crate::lz::flzp::after_block;
use crate::lz::flzp::after_match;
use crate::lz::flzp::block_body;
use crate::lz::flzp::block_map;
use crate::lz::flzp::block_size;
use crate::lz::flzp::compressed;
use crate::lz::flzp::compressed_from;
use crate::lz::flzp::decompressed;
use crate::lz::flzp::decompressed_from;
use crate::lz::flzp::lemma_block_size_bounds;
use crate::lz::flzp::lemma_mark_others;
use crate::lz::flzp::lemma_symbols_nonempty;
use crate::lz::flzp::lemma_symbols_unmarked;
use crate::lz::flzp::lemma_symbols_len;
use crate::lz::flzp::mark;
use crate::lz::flzp::marked;
use crate::lz::flzp::match_bytes;
use crate::lz::flzp::meaning;
use crate::lz::flzp::no_marks;
use crate::error::prefixed_ok;
use crate::lz::flzp::symbols;
use crate::lz::flzp::BufferModel;
use crate::lz::flzp::BUF_SIZE;
use crate::lz::flzp::MAX_BLOCK;
use crate::lz::flzp::MIN_LENGTHS;

verus! {

/// Decoding from a position is decoding what follows it.
pub proof fn lemma_decode_skip(m: BufferModel, input: Seq<u8>, pos: int, dec: Option<Seq<u8>>)
    requires
        0 <= pos <= input.len(),
    ensures
        decompressed_from(m, input, pos, dec) == decompressed_from(m, input.skip(pos), 0, dec),
    decreases input.len() - pos,
{
    let rest = input.skip(pos);
    if pos < input.len() {
        match dec {
            None => {
                if pos + 32 <= input.len() {
                    let map = Some(input.subrange(pos, pos + 32));
                    assert(rest.subrange(0, 32) =~= input.subrange(pos, pos + 32));
                    lemma_decode_skip(m, input, pos + 32, map);
                    lemma_decode_skip(m, rest, 32, map);
                    assert(rest.skip(32) =~= input.skip(pos + 32));
                }
            },
            Some(map) => {
                let byte = input[pos];
                assert(rest[0] == byte);
                assert(rest.skip(1) =~= input.skip(pos + 1));
                if marked(map, byte as int) {
                    lemma_decode_skip(m.update(byte), input, pos + 1, dec);
                    lemma_decode_skip(m.update(byte), rest, 1, dec);
                } else if meaning(map, byte as int) == 0 {
                    lemma_decode_skip(m, input, pos + 1, None);
                    lemma_decode_skip(m, rest, 1, None);
                } else {
                    let start = m.ht[m.hash] as int;
                    let d = meaning(map, byte as int);
                    let next = after_match(m, start, 0, d);
                    lemma_decode_skip(next, input, pos + 1, dec);
                    lemma_decode_skip(next, rest, 1, dec);
                }
            },
        }
    }
}

/// The `k`th symbol is an unmarked value, and stands for `k`.
pub proof fn lemma_symbols_index(dec: Seq<u8>, n: int, k: int)
    requires
        0 <= n <= 256,
        0 <= k < symbols(dec, n).len(),
    ensures
        symbols(dec, n)[k] < n,
        !marked(dec, symbols(dec, n)[k] as int),
        meaning(dec, symbols(dec, n)[k] as int) == k,
    decreases n,
{
    if n > 0 {
        lemma_symbols_len(dec, n - 1);
        if marked(dec, n - 1) {
            lemma_symbols_index(dec, n - 1, k);
        } else if k < symbols(dec, n - 1).len() {
            lemma_symbols_index(dec, n - 1, k);
        }
    }
}

/// The map of a block marks every byte of the block.
pub proof fn lemma_block_map_marks(
    data: Seq<u8>,
    pos: int,
    dec: Seq<u8>,
    max_len: int,
    size: int,
    k: int,
)
    requires
        dec.len() == 32,
        0 <= size,
        0 <= pos,
        pos + size <= data.len(),
        0 <= k < block_size(data, pos, dec, max_len, size),
        k < size ==> marked(dec, data[pos + k] as int),
    ensures
        marked(block_map(data, pos, dec, max_len, size), data[pos + k] as int),
    decreases data.len() - pos - size,
{
    if max_len > MIN_LENGTHS && size < MAX_BLOCK && pos + size < data.len() {
        let byte = data[pos + size] as int;
        let next = mark(dec, byte);
        if !marked(dec, byte) {
            crate::lz::flzp::lemma_mark_fits(dec[byte / 8], byte % 8);
            lemma_mark_others(dec, byte, data[pos + k] as int);
            lemma_mark_others(dec, byte, byte);
        }
        lemma_block_map_marks(
            data,
            pos,
            next,
            if marked(dec, byte) {
                max_len
            } else {
                max_len - 1
            },
            size + 1,
            k,
        );
    }
}

/// `m` with the match in the making of `d`: a decoder's view of an
/// encoder's memory.
pub open spec fn seen_by(m: BufferModel, d: BufferModel) -> BufferModel {
    BufferModel { m_pos: d.m_pos, m_len: d.m_len, ..m }
}

/// A match of one byte more is the match and the byte that follows it.
pub proof fn lemma_match_grows(m: BufferModel, start: int, i: int, d: int)
    requires
        0 <= i <= d,
    ensures
        after_match(m, start, i, d + 1) == after_match(m, start, i, d).update(
            after_match(m, start, i, d).buf[(start + d) % (BUF_SIZE as int)],
        ),
        match_bytes(m, start, i, d + 1) =~= match_bytes(m, start, i, d).push(
            after_match(m, start, i, d).buf[(start + d) % (BUF_SIZE as int)],
        ),
        match_bytes(m, start, i, d).len() == d - i,
    decreases d - i,
{
    if i < d {
        let byte = m.buf[(start + i) % (BUF_SIZE as int)];
        lemma_match_grows(m.update(byte), start, i + 1, d);
    } else {
        let byte = m.buf[(start + d) % (BUF_SIZE as int)];
        assert(after_match(m.update(byte), start, d + 1, d + 1) == m.update(byte));
        assert(match_bytes(m.update(byte), start, d + 1, d + 1) =~= Seq::<u8>::empty());
    }
}

/// Taking bytes in keeps the memory well-formed.
pub proof fn lemma_after_match_wf(m: BufferModel, start: int, i: int, d: int)
    requires
        m.wf(),
    ensures
        after_match(m, start, i, d).wf(),
        after_match(m, start, i, d).m_pos == m.m_pos,
        after_match(m, start, i, d).m_len == m.m_len,
    decreases d - i,
{
    if i < d {
        lemma_after_match_wf(m.update(m.buf[(start + i) % (BUF_SIZE as int)]), start, i + 1, d);
    }
}

/// The decoder `d` is as far as the encoder `e` was before the match it
/// is making, and that match is what the last bytes of the block before
/// byte `i` are.
pub open spec fn in_step(e: BufferModel, d: BufferModel, data: Seq<u8>, pos: int, i: int) -> bool {
    &&& e.wf()
    &&& d.wf()
    &&& 0 <= e.m_len <= i
    &&& if e.m_len == 0 {
        seen_by(e, d) == d
    } else {
        &&& e.m_pos == d.ht[d.hash]
        &&& after_match(d, e.m_pos, 0, e.m_len) == seen_by(e, d)
        &&& match_bytes(d, e.m_pos, 0, e.m_len) =~= data.subrange(pos + i - e.m_len, pos + i)
    }
}

/// Decoding the symbol of the match in the making brings the decoder up
/// to date.
pub proof fn lemma_decode_match_symbol(
    e: BufferModel,
    d: BufferModel,
    data: Seq<u8>,
    pos: int,
    i: int,
    dec: Seq<u8>,
    rest: Seq<u8>,
)
    requires
        in_step(e, d, data, pos, i),
        0 <= pos,
        pos + i <= data.len(),
        dec.len() == 32,
        e.m_len < symbols(dec, 256).len(),
        forall|k: int| 0 <= k < i ==> marked(dec, #[trigger] data[pos + k] as int),
    ensures
        decompressed_from(d, e.match_symbol(symbols(dec, 256)) + rest, 0, Some(dec)) == prefixed_ok(
            data.subrange(pos + i - e.m_len, pos + i),
            decompressed_from(seen_by(e, d), rest, 0, Some(dec)),
        ),
        seen_by(e, d).wf(),
{
    let enc = symbols(dec, 256);
    let len = e.m_len;
    let pending = data.subrange(pos + i - len, pos + i);
    let up = seen_by(e, d);
    let after = decompressed_from(up, rest, 0, Some(dec));
    if len == 0 {
        assert(e.match_symbol(enc) + rest =~= rest);
        if after is Ok {
            assert(pending + after->Ok_0 =~= after->Ok_0);
        }
    } else {
        let input = e.match_symbol(enc) + rest;
        assert(input.skip(1) =~= rest);
        lemma_match_grows(d, e.m_pos, 0, 0);
        lemma_after_match_wf(d, e.m_pos, 0, len);
        if len == 1 {
            let byte = e.buf[(e.p + BUF_SIZE - 1) % (BUF_SIZE as int)];
            assert(input[0] == byte);
            let first = d.buf[e.m_pos % (BUF_SIZE as int)];
            assert(match_bytes(d, e.m_pos, 0, 1) =~= seq![first]);
            assert(after_match(d, e.m_pos, 0, 1) == d.update(first));
            assert(pending[0] == data[pos + i - 1]);
            assert(first == data[pos + i - 1]);
            assert(byte == first);
            assert(marked(dec, data[pos + (i - 1)] as int));
            lemma_decode_skip(d.update(byte), input, 1, Some(dec));
        } else {
            lemma_symbols_index(dec, 256, len);
            assert(input[0] == enc[len]);
            lemma_decode_skip(after_match(d, e.m_pos, 0, len), input, 1, Some(dec));
        }
    }
}

/// A byte that goes on with the match leaves the decoder where it is.
pub proof fn lemma_step_extends(
    e: BufferModel,
    d: BufferModel,
    data: Seq<u8>,
    pos: int,
    i: int,
    max_len: int,
)
    requires
        in_step(e, d, data, pos, i),
        0 <= pos,
        pos + i < data.len(),
        max_len <= 255,
        e.extends(data[pos + i], max_len),
    ensures
        in_step(e.compress(data[pos + i], max_len), d, data, pos, i + 1),
        e.compress(data[pos + i], max_len).m_len == e.m_len + 1,
{
    let byte = data[pos + i];
    let len = e.m_len;
    let start = if len == 0 { e.ht[e.hash] as int } else { e.m_pos };
    lemma_match_grows(d, start, 0, len);
    lemma_after_match_wf(d, start, 0, len);
    assert(after_match(d, start, 0, 0) == d);
    assert(data.subrange(pos + i - len, pos + i).push(byte) =~= data.subrange(
        pos + i - len,
        pos + i + 1,
    ));
}

/// A byte that starts a match finds the decoder brought up to date.
pub proof fn lemma_step_match(
    e: BufferModel,
    d: BufferModel,
    data: Seq<u8>,
    pos: int,
    i: int,
    max_len: int,
)
    requires
        e.wf(),
        d.wf(),
        seen_by(e, d) == d,
        0 <= pos,
        0 <= i,
        pos + i < data.len(),
        1 <= max_len <= 255,
        e.buf[e.ht[e.hash] as int] == data[pos + i],
    ensures
        in_step(
            BufferModel { m_pos: e.ht[e.hash] as int, m_len: 1, ..e }.update(data[pos + i]),
            d,
            data,
            pos,
            i + 1,
        ),
{
    let byte = data[pos + i];
    let fresh = e.ht[e.hash] as int;
    lemma_match_grows(d, fresh, 0, 0);
    assert(after_match(d, fresh, 0, 0) == d);
    assert(match_bytes(d, fresh, 0, 1) =~= seq![byte]);
    assert(data.subrange(pos + i, pos + i + 1) =~= seq![byte]);
}

/// Decoding what is written for the rest of a block gives the rest of
/// the block, and leaves the decoder where the encoder is.
pub open spec fn decoded_block(
    e: BufferModel,
    d: BufferModel,
    data: Seq<u8>,
    pos: int,
    size: int,
    i: int,
    dec: Seq<u8>,
    rest: Seq<u8>,
) -> bool {
    let enc = symbols(dec, 256);
    let end = after_block(e, data, pos, size, i, enc);
    &&& decompressed_from(d, block_body(e, data, pos, size, i, enc) + rest, 0, Some(dec))
        == prefixed_ok(
        data.subrange(pos + i - e.m_len, pos + size),
        decompressed_from(seen_by(end, d), rest, 0, None),
    )
    &&& seen_by(end, d).wf()
    &&& end.wf()
    &&& end.m_len == 0
}

/// The end of a block: the symbol of the match in the making, if any,
/// and the symbol that ends the block.
pub proof fn lemma_decode_block_end(
    e: BufferModel,
    d: BufferModel,
    data: Seq<u8>,
    pos: int,
    size: int,
    i: int,
    dec: Seq<u8>,
    rest: Seq<u8>,
)
    requires
        in_step(e, d, data, pos, i),
        0 <= pos,
        0 <= i <= size,
        pos + size <= data.len(),
        dec.len() == 32,
        MIN_LENGTHS < symbols(dec, 256).len(),
        e.m_len < symbols(dec, 256).len(),
        forall|k: int| 0 <= k < size ==> marked(dec, #[trigger] data[pos + k] as int),
        i == size,
    ensures
        decoded_block(e, d, data, pos, size, i, dec, rest),
{
    let enc = symbols(dec, 256);
    let up = seen_by(e, d);
    let tail = seq![enc[0]] + rest;
    lemma_symbols_len(dec, 256);
    assert(block_body(e, data, pos, size, i, enc) + rest =~= e.match_symbol(enc) + tail);
    lemma_decode_match_symbol(e, d, data, pos, i, dec, tail);
    lemma_symbols_index(dec, 256, 0);
    assert(tail.skip(1) =~= rest);
    lemma_decode_skip(up, tail, 1, None);
    assert(seen_by(after_block(e, data, pos, size, i, enc), d) == up);
}

/// A byte that goes on with the match: nothing is written.
pub proof fn lemma_decode_block_extends(
    e: BufferModel,
    d: BufferModel,
    data: Seq<u8>,
    pos: int,
    size: int,
    i: int,
    dec: Seq<u8>,
    rest: Seq<u8>,
)
    requires
        in_step(e, d, data, pos, i),
        0 <= pos,
        0 <= i <= size,
        pos + size <= data.len(),
        dec.len() == 32,
        MIN_LENGTHS < symbols(dec, 256).len(),
        e.m_len < symbols(dec, 256).len(),
        forall|k: int| 0 <= k < size ==> marked(dec, #[trigger] data[pos + k] as int),
        i < size,
        e.extends(data[pos + i], symbols(dec, 256).len() - 1),
    ensures
        decoded_block(e, d, data, pos, size, i, dec, rest),
    decreases size - i, 0int,
{
    let enc = symbols(dec, 256);
    let max_len = enc.len() - 1;
    let byte = data[pos + i];
    let next = e.compress(byte, max_len);
    let body = block_body(next, data, pos, size, i + 1, enc);
    lemma_symbols_len(dec, 256);
    assert(block_body(e, data, pos, size, i, enc) + rest =~= body + rest);
    lemma_step_extends(e, d, data, pos, i, max_len);
    lemma_decode_block(next, d, data, pos, size, i + 1, dec, rest);
}

/// A byte that starts a match: the symbol of the match before it is
/// written.
pub proof fn lemma_decode_block_match(
    e: BufferModel,
    d: BufferModel,
    data: Seq<u8>,
    pos: int,
    size: int,
    i: int,
    dec: Seq<u8>,
    rest: Seq<u8>,
)
    requires
        in_step(e, d, data, pos, i),
        0 <= pos,
        0 <= i <= size,
        pos + size <= data.len(),
        dec.len() == 32,
        MIN_LENGTHS < symbols(dec, 256).len(),
        e.m_len < symbols(dec, 256).len(),
        forall|k: int| 0 <= k < size ==> marked(dec, #[trigger] data[pos + k] as int),
        i < size,
        !e.extends(data[pos + i], symbols(dec, 256).len() - 1),
        e.buf[e.ht[e.hash] as int] == data[pos + i],
    ensures
        decoded_block(e, d, data, pos, size, i, dec, rest),
    decreases size - i, 0int,
{
    let enc = symbols(dec, 256);
    let max_len = enc.len() - 1;
    let len = e.m_len;
    let up = seen_by(e, d);
    let byte = data[pos + i];
    let next = e.compress(byte, max_len);
    let body = block_body(next, data, pos, size, i + 1, enc);
    let pending = data.subrange(pos + i - len, pos + i);
    let fresh = e.ht[e.hash] as int;
    let plain = BufferModel { m_len: 0, ..e };
    lemma_symbols_len(dec, 256);
    assert(block_body(e, data, pos, size, i, enc) + rest =~= e.match_symbol(enc) + (body + rest));
    lemma_decode_match_symbol(e, d, data, pos, i, dec, body + rest);
    assert(seen_by(plain, up) == up);
    lemma_step_match(plain, up, data, pos, i, max_len);
    assert(next == BufferModel { m_pos: fresh, m_len: 1, ..plain }.update(byte));
    lemma_decode_block(next, up, data, pos, size, i + 1, dec, rest);
    lemma_join_three(
        pending,
        data.subrange(pos + i, pos + size),
        data.subrange(pos + i - len, pos + size),
        decompressed_from(
            seen_by(after_block(next, data, pos, size, i + 1, enc), up),
            rest,
            0,
            None,
        ),
    );
}

/// A byte that stands for itself: the symbol of the match before it and
/// the byte are written.
pub proof fn lemma_decode_block_literal(
    e: BufferModel,
    d: BufferModel,
    data: Seq<u8>,
    pos: int,
    size: int,
    i: int,
    dec: Seq<u8>,
    rest: Seq<u8>,
)
    requires
        in_step(e, d, data, pos, i),
        0 <= pos,
        0 <= i <= size,
        pos + size <= data.len(),
        dec.len() == 32,
        MIN_LENGTHS < symbols(dec, 256).len(),
        e.m_len < symbols(dec, 256).len(),
        forall|k: int| 0 <= k < size ==> marked(dec, #[trigger] data[pos + k] as int),
        i < size,
        !e.extends(data[pos + i], symbols(dec, 256).len() - 1),
        e.buf[e.ht[e.hash] as int] != data[pos + i],
    ensures
        decoded_block(e, d, data, pos, size, i, dec, rest),
    decreases size - i, 0int,
{
    let enc = symbols(dec, 256);
    let max_len = enc.len() - 1;
    let len = e.m_len;
    let up = seen_by(e, d);
    let byte = data[pos + i];
    let next = e.compress(byte, max_len);
    let body = block_body(next, data, pos, size, i + 1, enc);
    let pending = data.subrange(pos + i - len, pos + i);
    let input = seq![byte] + (body + rest);
    lemma_symbols_len(dec, 256);
    assert(block_body(e, data, pos, size, i, enc) + rest =~= e.match_symbol(enc) + input);
    lemma_decode_match_symbol(e, d, data, pos, i, dec, input);
    assert(input.skip(1) =~= body + rest);
    assert(marked(dec, data[pos + i] as int));
    let literal = up.update(byte);
    lemma_decode_skip(literal, input, 1, Some(dec));
    assert(seen_by(next, literal) == literal);
    lemma_decode_block(next, literal, data, pos, size, i + 1, dec, rest);
    let after = decompressed_from(
        seen_by(after_block(next, data, pos, size, i + 1, enc), literal),
        rest,
        0,
        None,
    );
    lemma_join_three(
        seq![byte],
        data.subrange(pos + i + 1, pos + size),
        data.subrange(pos + i, pos + size),
        after,
    );
    lemma_join_three(
        pending,
        data.subrange(pos + i, pos + size),
        data.subrange(pos + i - len, pos + size),
        after,
    );
}

/// Decoding what is written for the rest of a block gives the rest of
/// the block, and leaves the decoder where the encoder is.
pub proof fn lemma_decode_block(
    e: BufferModel,
    d: BufferModel,
    data: Seq<u8>,
    pos: int,
    size: int,
    i: int,
    dec: Seq<u8>,
    rest: Seq<u8>,
)
    requires
        in_step(e, d, data, pos, i),
        0 <= pos,
        0 <= i <= size,
        pos + size <= data.len(),
        dec.len() == 32,
        MIN_LENGTHS < symbols(dec, 256).len(),
        e.m_len < symbols(dec, 256).len(),
        forall|k: int| 0 <= k < size ==> marked(dec, #[trigger] data[pos + k] as int),
    ensures
        decoded_block(e, d, data, pos, size, i, dec, rest),
    decreases size - i, 1int,
{
    if i >= size {
        lemma_decode_block_end(e, d, data, pos, size, i, dec, rest);
    } else if e.extends(data[pos + i], symbols(dec, 256).len() - 1) {
        lemma_decode_block_extends(e, d, data, pos, size, i, dec, rest);
    } else if e.buf[e.ht[e.hash] as int] == data[pos + i] {
        lemma_decode_block_match(e, d, data, pos, size, i, dec, rest);
    } else {
        lemma_decode_block_literal(e, d, data, pos, size, i, dec, rest);
    }
}

/// Bytes in front of bytes in front of what follows.
pub proof fn lemma_join_three(
    a: Seq<u8>,
    b: Seq<u8>,
    ab: Seq<u8>,
    after: Result<Seq<u8>, DecodeError>,
)
    requires
        a + b =~= ab,
    ensures
        prefixed_ok(a, prefixed_ok(b, after)) == prefixed_ok(ab, after),
{
    if after is Ok {
        assert(a + (b + after->Ok_0) =~= ab + after->Ok_0);
    }
}

/// Decoding the stream for what is left of the data gives what is left
/// of the data.
pub proof fn lemma_round_trip_from(e: BufferModel, d: BufferModel, data: Seq<u8>, pos: int)
    requires
        e.wf(),
        d.wf(),
        e.m_len == 0,
        seen_by(e, d) == d,
        0 <= pos <= data.len(),
    ensures
        decompressed_from(d, compressed_from(e, data, pos), 0, None) == Ok::<Seq<u8>, DecodeError>(
            data.skip(pos),
        ),
    decreases data.len() - pos,
{
    let size = block_size(data, pos, no_marks(), 255, 0);
    lemma_block_size_bounds(data, pos, no_marks(), 255, 0);
    if pos < data.len() {
        let first = data[pos] as int;
        lemma_block_size_bounds(
            data,
            pos,
            mark(no_marks(), first),
            if marked(no_marks(), first) {
                255
            } else {
                254
            },
            1,
        );
    }
    if size < 1 {
        assert(data.skip(pos) =~= Seq::<u8>::empty());
    } else {
        let dec = block_map(data, pos, no_marks(), 255, 0);
        let enc = symbols(dec, 256);
        let next = after_block(e, data, pos, size, 0, enc);
        let tail = compressed_from(next, data, pos + size);
        let body = block_body(e, data, pos, size, 0, enc);
        let input = compressed_from(e, data, pos);
        lemma_symbols_unmarked(256);
        lemma_symbols_nonempty(data, pos, no_marks(), 255, 0);
        assert forall|k: int| 0 <= k < size implies marked(dec, #[trigger] data[pos + k] as int) by {
            lemma_block_map_marks(data, pos, no_marks(), 255, 0, k);
        }
        assert(input =~= dec + (body + tail));
        assert(input.subrange(0, 32) =~= dec);
        assert(input.skip(32) =~= body + tail);
        lemma_decode_skip(d, input, 32, Some(dec));
        lemma_decode_block(e, d, data, pos, size, 0, dec, tail);
        let up = seen_by(next, d);
        lemma_round_trip_from(next, up, data, pos + size);
        assert(data.subrange(pos, pos + size) + data.skip(pos + size) =~= data.skip(pos));
    }
}

/// Decompressing what compression produced gives back the data.
pub proof fn lemma_round_trip(data: Seq<u8>)
    ensures
        decompressed(compressed(data)) == Ok::<Seq<u8>, DecodeError>(data),
{
    lemma_round_trip_from(BufferModel::fresh(), BufferModel::fresh(), data, 0);
    assert(data.skip(0) =~= data);
}

} // verus!
