//! The round-trip law: decoding the encoding of an array gives it back.
//!
//! The proof walks the encoded stream cell by cell and row by row,
//! replaying the decoder's scan: every encoded cell is a run of bytes
//! below `CELL_SEP`, so the scan stops exactly on the separators the
//! encoder wrote, and each value segment reads back as the cell it came
//! from.

use vstd::prelude::*;
use vstd::utf8::char_is_scalar;
use vstd::utf8::decode_utf8_encode_utf8;
use vstd::utf8::encode_scalar;
use vstd::utf8::encode_utf8;
use vstd::utf8::encode_utf8_decode_utf8;
use vstd::utf8::encode_utf8_valid_utf8;
use vstd::utf8::is_scalar;
use vstd::utf8::valid_utf8;
use crate::format::CELL_SEP;
use crate::format::DecodeError;
use crate::format::EMPTY_MARKER;
use crate::format::NULL_MARKER;
use crate::format::ROW_SEP;
use crate::format::SpecArray;
use crate::format::SpecCell;
use crate::format::SpecRow;
use crate::format::dec_cell;
use crate::format::dec_from;
use crate::format::decoded;
use crate::format::enc_array;
use crate::format::enc_cell;
use crate::format::enc_row;
use crate::format::lemma_sep_from;
use crate::format::lemma_sep_from_is;
use crate::format::sep_from;

verus! {

/// Every byte of a scalar's UTF-8 encoding lies below `EMPTY_MARKER`:
/// leading bytes reach at most `0xF7` and continuation bytes at most
/// `0xBF`, so text bytes can never collide with the reserved range.
proof fn lemma_encode_scalar_low(s: u32)
    requires
        is_scalar(s),
    ensures
        1 <= encode_scalar(s).len() <= 4,
        forall|i: int| 0 <= i < encode_scalar(s).len() ==> encode_scalar(s)[i] < EMPTY_MARKER,
{
    assert(((s & 0x7F) as u8) < 0xFC) by (bit_vector);
    assert((0xC0u8 | (((s >> 6) & 0x1F) as u8)) < 0xFC) by (bit_vector);
    assert((0xE0u8 | (((s >> 12) & 0x0F) as u8)) < 0xFC) by (bit_vector);
    assert((0xF0u8 | (((s >> 18) & 0x7) as u8)) < 0xFC) by (bit_vector);
    assert((0x80u8 | ((s & 0x3F) as u8)) < 0xFC) by (bit_vector);
    assert((0x80u8 | (((s >> 6) & 0x3F) as u8)) < 0xFC) by (bit_vector);
    assert((0x80u8 | (((s >> 12) & 0x3F) as u8)) < 0xFC) by (bit_vector);
}

/// Every byte of a UTF-8 encoded text lies below `EMPTY_MARKER`, and a
/// non-empty text encodes to at least one byte.
proof fn lemma_encode_utf8_low(cs: Seq<char>)
    ensures
        forall|i: int| 0 <= i < encode_utf8(cs).len() ==> encode_utf8(cs)[i] < EMPTY_MARKER,
        cs.len() > 0 ==> encode_utf8(cs).len() > 0,
    decreases cs.len(),
{
    if cs.len() > 0 {
        char_is_scalar(cs[0]);
        lemma_encode_scalar_low(cs[0] as u32);
        lemma_encode_utf8_low(cs.drop_first());
        let head = encode_scalar(cs[0] as u32);
        let tail = encode_utf8(cs.drop_first());
        assert(encode_utf8(cs) == head + tail);
        assert forall|i: int| 0 <= i < encode_utf8(cs).len() implies encode_utf8(cs)[i]
            < EMPTY_MARKER by {
            if i < head.len() {
                assert((head + tail)[i] == head[i]);
            } else {
                assert((head + tail)[i] == tail[i - head.len()]);
            }
        }
    }
}

/// An encoded cell is never empty and never contains a separator byte.
proof fn lemma_enc_cell_low(c: SpecCell)
    ensures
        1 <= enc_cell(c).len(),
        forall|i: int| 0 <= i < enc_cell(c).len() ==> enc_cell(c)[i] < CELL_SEP,
{
    match c {
        Option::None => {},
        Option::Some(cs) => {
            if cs.len() > 0 {
                lemma_encode_utf8_low(cs);
            }
        },
    }
}

/// Reading back an encoded cell yields the cell it came from.
proof fn lemma_dec_cell_enc(c: SpecCell)
    ensures
        dec_cell(enc_cell(c)) == Result::<SpecCell, DecodeError>::Ok(c),
{
    match c {
        Option::None => {},
        Option::Some(cs) => {
            if cs.len() == 0 {
                assert(cs =~= Seq::<char>::empty());
            } else {
                lemma_encode_utf8_low(cs);
                encode_utf8_valid_utf8(cs);
                encode_utf8_decode_utf8(cs);
            }
        },
    }
}

/// Splitting a known chunk of the stream around one separator byte.
proof fn lemma_split_chunk(b: Seq<u8>, pos: int, x: Seq<u8>, m: u8, y: Seq<u8>)
    requires
        0 <= pos,
        pos + x.len() + 1 + y.len() <= b.len(),
        b.subrange(pos, pos + x.len() + 1 + y.len()) == x + seq![m] + y,
    ensures
        b.subrange(pos, pos + x.len() as int) == x,
        b[pos + x.len()] == m,
        b.subrange(pos + x.len() + 1, pos + x.len() + 1 + y.len()) == y,
{
    let whole = b.subrange(pos, pos + x.len() + 1 + y.len());
    assert(b.subrange(pos, pos + x.len() as int) =~= x) by {
        assert forall|i: int| 0 <= i < x.len() implies b[pos + i] == x[i] by {
            assert(whole[i] == (x + seq![m] + y)[i]);
        }
    }
    assert(whole[x.len() as int] == (x + seq![m] + y)[x.len() as int]);
    assert(b.subrange(pos + x.len() + 1, pos + x.len() + 1 + y.len()) =~= y) by {
        assert forall|i: int| 0 <= i < y.len() implies b[pos + x.len() + 1 + i] == y[i] by {
            assert(whole[x.len() + 1 + i] == (x + seq![m] + y)[x.len() + 1 + i]);
        }
    }
}

/// The scan, standing before one encoded cell whose end meets a separator
/// or the end of the stream, consumes exactly that cell and appends it to
/// the current row.
proof fn lemma_dec_from_cell(
    b: Seq<u8>,
    pos: int,
    at_row_start: bool,
    row: SpecRow,
    acc: SpecArray,
    c: SpecCell,
)
    requires
        0 <= pos,
        pos + enc_cell(c).len() <= b.len(),
        b.subrange(pos, pos + enc_cell(c).len()) == enc_cell(c),
        pos + enc_cell(c).len() == b.len() || b[pos + enc_cell(c).len()] >= CELL_SEP,
    ensures
        dec_from(b, pos, at_row_start, row, acc) == (if pos + enc_cell(c).len() == b.len() {
            Result::<SpecArray, DecodeError>::Ok(acc.push(row.push(c)))
        } else if b[pos + enc_cell(c).len()] == ROW_SEP {
            dec_from(b, pos + enc_cell(c).len() + 1, true, Seq::empty(), acc.push(row.push(c)))
        } else {
            dec_from(b, pos + enc_cell(c).len() + 1, false, row.push(c), acc)
        }),
{
    let end = pos + enc_cell(c).len();
    lemma_enc_cell_low(c);
    assert forall|i: int| pos <= i < end implies b[i] < CELL_SEP by {
        assert(b.subrange(pos, end)[i - pos] == enc_cell(c)[i - pos]);
    }
    lemma_sep_from_is(b, pos, end);
    lemma_dec_cell_enc(c);
}

/// The scan, standing at the start of an encoded non-empty row whose end
/// meets a row separator or the end of the stream, consumes the whole row.
proof fn lemma_dec_from_row(
    b: Seq<u8>,
    pos: int,
    at_row_start: bool,
    row: SpecRow,
    acc: SpecArray,
    cells: SpecRow,
)
    requires
        cells.len() >= 1,
        0 <= pos,
        pos + enc_row(cells).len() <= b.len(),
        b.subrange(pos, pos + enc_row(cells).len()) == enc_row(cells),
        pos + enc_row(cells).len() == b.len() || b[pos + enc_row(cells).len()] == ROW_SEP,
    ensures
        dec_from(b, pos, at_row_start, row, acc) == (if pos + enc_row(cells).len() == b.len() {
            Result::<SpecArray, DecodeError>::Ok(acc.push(row + cells))
        } else {
            dec_from(b, pos + enc_row(cells).len() + 1, true, Seq::empty(), acc.push(row + cells))
        }),
    decreases cells.len(),
{
    if cells.len() == 1 {
        assert(enc_row(cells) == enc_cell(cells[0]));
        lemma_dec_from_cell(b, pos, at_row_start, row, acc, cells[0]);
        assert(row.push(cells[0]) =~= row + cells);
    } else {
        let c0 = cells[0];
        let rest = cells.drop_first();
        assert(enc_row(cells) == enc_cell(c0) + seq![CELL_SEP] + enc_row(rest));
        lemma_split_chunk(b, pos, enc_cell(c0), CELL_SEP, enc_row(rest));
        lemma_dec_from_cell(b, pos, at_row_start, row, acc, c0);
        lemma_dec_from_row(b, pos + enc_cell(c0).len() + 1, false, row.push(c0), acc, rest);
        assert(row.push(c0) + rest =~= row + cells);
    }
}

/// The scan, standing at the start of the encoding of the remaining rows,
/// which runs to the end of the stream, consumes them all and flushes the
/// last one.
proof fn lemma_dec_from_rows(b: Seq<u8>, pos: int, acc: SpecArray, t: SpecArray)
    requires
        t.len() >= 1,
        0 <= pos <= b.len(),
        b.subrange(pos, b.len() as int) == enc_array(t),
    ensures
        dec_from(b, pos, true, Seq::empty(), acc) == Result::<SpecArray, DecodeError>::Ok(acc + t),
    decreases t.len(),
{
    let r0 = t[0];
    if t.len() == 1 {
        assert(enc_array(t) == enc_row(r0));
        if r0.len() == 0 {
            assert(pos == b.len());
            assert(b.subrange(pos, pos) =~= Seq::<u8>::empty());
            assert(r0 =~= Seq::<SpecCell>::empty());
            assert(acc.push(r0) =~= acc + t);
        } else {
            lemma_dec_from_row(b, pos, true, Seq::empty(), acc, r0);
            assert(Seq::<SpecCell>::empty() + r0 =~= r0);
            assert(acc.push(r0) =~= acc + t);
        }
    } else {
        let rest = t.drop_first();
        assert(enc_array(t) == enc_row(r0) + seq![ROW_SEP] + enc_array(rest));
        lemma_split_chunk(b, pos, enc_row(r0), ROW_SEP, enc_array(rest));
        let mid = pos + enc_row(r0).len();
        assert(b.subrange(mid + 1, b.len() as int) =~= enc_array(rest));
        if r0.len() == 0 {
            assert(b[pos] == ROW_SEP);
            assert(b.subrange(pos, pos) =~= Seq::<u8>::empty());
            assert(r0 =~= Seq::<SpecCell>::empty());
            lemma_dec_from_rows(b, pos + 1, acc.push(r0), rest);
        } else {
            lemma_dec_from_row(b, pos, true, Seq::empty(), acc, r0);
            assert(Seq::<SpecCell>::empty() + r0 =~= r0);
            lemma_dec_from_rows(b, mid + 1, acc.push(r0), rest);
        }
        assert(acc.push(r0) + rest =~= acc + t);
    }
}

/// The bytes still ahead of the scan when the cells `rem` of the current
/// row and the rows `rest` remain to be read.
spec fn enc_rest(rem: SpecRow, rest: SpecArray) -> Seq<u8> {
    if rest.len() == 0 {
        enc_row(rem)
    } else {
        enc_row(rem) + seq![ROW_SEP] + enc_array(rest)
    }
}

/// A non-empty array's encoding, read as its first row followed by the rest.
proof fn lemma_enc_array_head(u: SpecArray)
    requires
        u.len() >= 1,
    ensures
        enc_array(u) == enc_rest(u[0], u.drop_first()),
{
}

/// A segment the decoder reads as a cell is that cell's encoding.
proof fn lemma_dec_cell_sound(g: Seq<u8>, c: SpecCell)
    requires
        g.len() >= 1,
        dec_cell(g) == Result::<SpecCell, DecodeError>::Ok(c),
    ensures
        enc_cell(c) == g,
{
    if g.len() == 1 && g[0] == NULL_MARKER {
    } else if g.len() == 1 && g[0] == EMPTY_MARKER {
    } else {
        assert(valid_utf8(g));
        decode_utf8_encode_utf8(g);
    }
}

/// A scan that ends in a full array read exactly the bytes that encode
/// what it still had to read: the rest of the current row, and the rows
/// after it.
proof fn lemma_dec_from_sound(
    b: Seq<u8>,
    pos: int,
    at_row_start: bool,
    row: SpecRow,
    acc: SpecArray,
    t: SpecArray,
)
    requires
        0 <= pos <= b.len(),
        dec_from(b, pos, at_row_start, row, acc) == Result::<SpecArray, DecodeError>::Ok(t),
    ensures
        t.len() >= acc.len() + 1,
        t.subrange(0, acc.len() as int) == acc,
        row.len() <= t[acc.len() as int].len(),
        t[acc.len() as int].subrange(0, row.len() as int) == row,
        b.subrange(pos, b.len() as int) == enc_rest(
            t[acc.len() as int].skip(row.len() as int),
            t.skip(acc.len() as int + 1),
        ),
        !at_row_start ==> t[acc.len() as int].skip(row.len() as int).len() >= 1,
    decreases b.len() - pos,
{
    lemma_sep_from(b, pos);
    let sep = sep_from(b, pos);
    let g = b.subrange(pos, sep);
    let n = acc.len() as int;
    if g.len() == 0 {
        assert(sep == pos);
        if sep == b.len() {
            assert(t == acc.push(row));
            assert(t.subrange(0, n) =~= acc);
            assert(t[n] == row);
            assert(t[n].subrange(0, row.len() as int) =~= row);
            assert(t[n].skip(row.len() as int) =~= Seq::<SpecCell>::empty());
            assert(t.skip(n + 1) =~= Seq::<Seq<SpecCell>>::empty());
            assert(b.subrange(pos, b.len() as int) =~= Seq::<u8>::empty());
        } else {
            assert(b[sep] == ROW_SEP);
            lemma_dec_from_sound(b, pos + 1, true, Seq::empty(), acc.push(row), t);
            assert(t.subrange(0, n + 1).subrange(0, n) =~= t.subrange(0, n));
            assert(t.subrange(0, n) =~= acc);
            assert(t[n] == t.subrange(0, n + 1)[n]);
            assert(t[n] == row);
            assert(t[n].subrange(0, row.len() as int) =~= row);
            assert(t[n].skip(row.len() as int) =~= Seq::<SpecCell>::empty());
            let rest = t.skip(n + 1);
            assert(rest.len() >= 1);
            assert(rest[0] == t[n + 1]);
            assert(rest[0].skip(0) =~= t[n + 1].skip(0));
            assert(t[n + 1].skip(0) =~= t[n + 1]);
            assert(t.skip(n + 2) =~= rest.drop_first());
            lemma_enc_array_head(rest);
            assert(b.subrange(pos, b.len() as int) =~= seq![ROW_SEP] + b.subrange(
                pos + 1,
                b.len() as int,
            ));
            assert(enc_rest(Seq::<SpecCell>::empty(), rest) =~= seq![ROW_SEP] + enc_array(rest));
            assert(b.subrange(pos, b.len() as int) =~= enc_rest(Seq::<SpecCell>::empty(), rest));
        }
    } else {
        let c = dec_cell(g)->Ok_0;
        assert(dec_cell(g) == Result::<SpecCell, DecodeError>::Ok(c));
        lemma_dec_cell_sound(g, c);
        if sep == b.len() {
            assert(t == acc.push(row.push(c)));
            assert(t.subrange(0, n) =~= acc);
            assert(t[n] == row.push(c));
            assert(t[n].subrange(0, row.len() as int) =~= row);
            assert(t[n].skip(row.len() as int) =~= seq![c]);
            assert(t.skip(n + 1) =~= Seq::<Seq<SpecCell>>::empty());
            assert(enc_row(seq![c]) == enc_cell(c));
            assert(b.subrange(pos, b.len() as int) == g);
        } else if b[sep] == ROW_SEP {
            lemma_dec_from_sound(b, sep + 1, true, Seq::empty(), acc.push(row.push(c)), t);
            assert(t.subrange(0, n + 1).subrange(0, n) =~= t.subrange(0, n));
            assert(t.subrange(0, n) =~= acc);
            assert(t[n] == t.subrange(0, n + 1)[n]);
            assert(t[n] == row.push(c));
            assert(t[n].subrange(0, row.len() as int) =~= row);
            assert(t[n].skip(row.len() as int) =~= seq![c]);
            let rest = t.skip(n + 1);
            assert(rest.len() >= 1);
            assert(rest[0] == t[n + 1]);
            assert(rest[0].skip(0) =~= t[n + 1]);
            assert(t.skip(n + 2) =~= rest.drop_first());
            lemma_enc_array_head(rest);
            assert(enc_row(seq![c]) == enc_cell(c));
            assert(b.subrange(pos, b.len() as int) =~= g + seq![ROW_SEP] + b.subrange(
                sep + 1,
                b.len() as int,
            ));
            assert(enc_rest(seq![c], rest) =~= g + seq![ROW_SEP] + enc_array(rest));
            assert(b.subrange(pos, b.len() as int) =~= enc_rest(seq![c], rest));
        } else {
            lemma_dec_from_sound(b, sep + 1, false, row.push(c), acc, t);
            assert(t.subrange(0, n) == acc);
            let cur = t[n];
            assert(cur.subrange(0, row.len() as int + 1) == row.push(c));
            assert(cur.subrange(0, row.len() as int) =~= row);
            assert(cur.subrange(0, row.len() as int + 1)[row.len() as int] == c);
            assert(cur[row.len() as int] == c);
            let rem2 = cur.skip(row.len() as int + 1);
            let rem = cur.skip(row.len() as int);
            assert(rem2.len() >= 1);
            assert(rem =~= seq![c] + rem2);
            assert(rem[0] == c);
            assert(rem.drop_first() =~= rem2);
            assert(enc_row(rem) == enc_cell(c) + seq![CELL_SEP] + enc_row(rem2));
            let rest = t.skip(n + 1);
            assert(b.subrange(pos, b.len() as int) =~= g + seq![CELL_SEP] + b.subrange(
                sep + 1,
                b.len() as int,
            ));
            assert(enc_rest(rem, rest) =~= g + seq![CELL_SEP] + enc_rest(rem2, rest));
            assert(b.subrange(pos, b.len() as int) =~= enc_rest(rem, rest));
        }
    }
}

/// Conversely, every stream the decoder accepts is exactly the encoding
/// of the array it returns, which always has at least one row: the format
/// is self-delimiting, and no accepted stream is ambiguous.
pub proof fn lemma_decoded_is_encoding(b: Seq<u8>, t: SpecArray)
    requires
        decoded(b) == Result::<SpecArray, DecodeError>::Ok(t),
    ensures
        t.len() >= 1,
        enc_array(t) == b,
{
    lemma_dec_from_sound(b, 0, true, Seq::empty(), Seq::empty(), t);
    assert(t[0].skip(0) =~= t[0]);
    assert(t.skip(1) =~= t.drop_first());
    lemma_enc_array_head(t);
    assert(b.subrange(0, b.len() as int) =~= b);
}

/// Round trip: the stream the encoder writes for an array with at least
/// one row decodes back to exactly that array. An array with zero rows is
/// the one exception of the format: it encodes to the empty stream, which
/// decodes to a single row with zero cells.
pub proof fn lemma_round_trip(t: SpecArray)
    requires
        t.len() >= 1,
    ensures
        decoded(enc_array(t)) == Result::<SpecArray, DecodeError>::Ok(t),
{
    let b = enc_array(t);
    assert(b.subrange(0, b.len() as int) =~= b);
    lemma_dec_from_rows(b, 0, Seq::empty(), t);
    assert(Seq::<Seq<SpecCell>>::empty() + t =~= t);
}

/// No two different arrays with at least one row share an encoding.
pub proof fn lemma_encode_injective(t1: SpecArray, t2: SpecArray)
    requires
        t1.len() >= 1,
        t2.len() >= 1,
        enc_array(t1) == enc_array(t2),
    ensures
        t1 == t2,
{
    lemma_round_trip(t1);
    lemma_round_trip(t2);
}

} // verus!
