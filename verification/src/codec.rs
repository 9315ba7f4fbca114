//! Executable encoder and decoder, verified against the model in `format`.

use vstd::prelude::*;
use vstd::utf8::encode_utf8_decode_utf8;
use vstd::utf8::valid_utf8;
use crate::format::CELL_SEP;
use crate::format::DecodeError;
use crate::format::EMPTY_MARKER;
use crate::format::NULL_MARKER;
use crate::format::ROW_SEP;
use crate::format::SpecCell;
use crate::format::dec_cell;
use crate::format::dec_from;
use crate::format::decoded;
use crate::format::enc_array;
use crate::format::enc_row;
use crate::format::lemma_enc_array_push;
use crate::format::lemma_enc_row_push;
use crate::format::lemma_sep_from_is;
use crate::format::view_array;
use crate::format::view_cell;
use crate::format::view_row;

verus! {

/// Relies on `String::from_utf8`: it returns the string carrying exactly
/// the given bytes when they are valid UTF-8, and an error otherwise.
#[verifier::external_body]
fn bytes_to_string(b: Vec<u8>) -> (r: Option<String>)
    ensures
        r is Some <==> valid_utf8(b@),
        r matches Some(s) ==> vstd::utf8::encode_utf8(s@) == b@,
{
    String::from_utf8(b).ok()
}

/// Turns one non-empty value segment into a cell, exactly as the model's
/// `dec_cell` reads it.
fn decode_cell(seg: Vec<u8>) -> (r: Result<Option<String>, DecodeError>)
    requires
        seg@.len() >= 1,
    ensures
        r matches Ok(c) ==> dec_cell(seg@) == Result::<SpecCell, DecodeError>::Ok(view_cell(c)),
        r matches Err(e) ==> dec_cell(seg@) == Result::<SpecCell, DecodeError>::Err(e),
{
    if seg.len() == 1 && seg[0] == NULL_MARKER {
        Ok(None)
    } else if seg.len() == 1 && seg[0] == EMPTY_MARKER {
        Ok(Some(String::new()))
    } else {
        match bytes_to_string(seg) {
            Some(s) => {
                proof {
                    encode_utf8_decode_utf8(s@);
                }
                Ok(Some(s))
            },
            None => Err(DecodeError::InvalidEncoding),
        }
    }
}

/// Serializes a jagged array of optional strings: rows joined by `ROW_SEP`,
/// cells joined by `CELL_SEP`, a null cell as `NULL_MARKER`, an empty text
/// cell as `EMPTY_MARKER`, non-empty text as its raw UTF-8 bytes. There is
/// no escaping, no header, and no trailing separator; an array with zero
/// rows serializes to the empty stream.
pub fn encode_bsv(jagged_array: &Vec<Vec<Option<String>>>) -> (r: Vec<u8>)
    ensures
        r@ == enc_array(view_array(jagged_array@)),
{
    let ghost t = view_array(jagged_array@);
    let mut out: Vec<u8> = Vec::new();
    let mut i: usize = 0;
    while i < jagged_array.len()
        invariant
            i <= jagged_array.len(),
            t == view_array(jagged_array@),
            out@ == enc_array(t.subrange(0, i as int)),
        decreases jagged_array.len() - i,
    {
        if i > 0 {
            out.push(ROW_SEP);
        }
        let row: &Vec<Option<String>> = &jagged_array[i];
        let ghost rv = view_row(row@);
        let ghost row_base = out@;
        let mut j: usize = 0;
        while j < row.len()
            invariant
                j <= row.len(),
                rv == view_row(row@),
                rv.len() == row@.len(),
                out@ == row_base + enc_row(rv.subrange(0, j as int)),
            decreases row.len() - j,
        {
            if j > 0 {
                out.push(CELL_SEP);
            }
            match &row[j] {
                None => {
                    out.push(NULL_MARKER);
                },
                Some(s) => {
                    if s.as_str().is_empty() {
                        out.push(EMPTY_MARKER);
                    } else {
                        let bs: &[u8] = s.as_str().as_bytes();
                        let ghost cell_base = out@;
                        let mut k: usize = 0;
                        while k < bs.len()
                            invariant
                                k <= bs@.len(),
                                out@ == cell_base + bs@.subrange(0, k as int),
                            decreases bs@.len() - k,
                        {
                            out.push(bs[k]);
                            proof {
                                assert(bs@.subrange(0, (k + 1) as int) =~= bs@.subrange(
                                    0,
                                    k as int,
                                ).push(bs@[k as int]));
                            }
                            k += 1;
                        }
                        proof {
                            assert(bs@.subrange(0, bs@.len() as int) =~= bs@);
                        }
                    }
                },
            }
            proof {
                assert(rv[j as int] == view_cell(row@[j as int]));
                lemma_enc_row_push(rv.subrange(0, j as int), rv[j as int]);
                assert(rv.subrange(0, (j + 1) as int) =~= rv.subrange(0, j as int).push(
                    rv[j as int],
                ));
                assert(out@ =~= row_base + enc_row(rv.subrange(0, (j + 1) as int)));
            }
            j += 1;
        }
        proof {
            assert(rv.subrange(0, rv.len() as int) =~= rv);
            assert(t[i as int] == rv);
            lemma_enc_array_push(t.subrange(0, i as int), rv);
            assert(t.subrange(0, (i + 1) as int) =~= t.subrange(0, i as int).push(rv));
            assert(out@ =~= enc_array(t.subrange(0, (i + 1) as int)));
        }
        i += 1;
    }
    proof {
        assert(t.subrange(0, t.len() as int) =~= t);
    }
    out
}

/// Deserializes a byte stream, scanning once from left to right: bytes
/// `>= CELL_SEP` end the current value segment, `ROW_SEP` also ends the
/// current row, and the trailing row is always flushed, so the empty stream
/// yields one row with zero cells. Returns `DecodeError::InvalidEncoding`
/// when a text segment is not valid UTF-8 and `DecodeError::InvalidStructure`
/// when a zero-length segment stands next to a cell separator; the result
/// is exactly what the model's `decoded` reads.
pub fn decode_bsv(bytes: Vec<u8>) -> (r: Result<Vec<Vec<Option<String>>>, DecodeError>)
    ensures
        r matches Ok(v) ==> decoded(bytes@) matches Ok(x) && view_array(v@) == x,
        r matches Err(e) ==> decoded(bytes@) matches Err(e2) && e == e2,
{
    let ghost b = bytes@;
    let mut rows: Vec<Vec<Option<String>>> = Vec::new();
    let mut row: Vec<Option<String>> = Vec::new();
    let mut pos: usize = 0;
    let mut at_row_start: bool = true;
    proof {
        assert(view_row(row@) =~= Seq::<SpecCell>::empty());
        assert(view_array(rows@) =~= Seq::<Seq<SpecCell>>::empty());
    }
    loop
        invariant
            pos <= bytes.len(),
            b == bytes@,
            decoded(b) == dec_from(b, pos as int, at_row_start, view_row(row@), view_array(rows@)),
        decreases bytes@.len() - pos,
    {
        // Scan forward to the next separator byte or the end of the stream.
        let mut j: usize = pos;
        while j < bytes.len() && bytes[j] < CELL_SEP
            invariant
                pos <= j <= bytes.len(),
                b == bytes@,
                forall|q: int| pos <= q < j ==> b[q] < CELL_SEP,
            decreases bytes@.len() - j,
        {
            j += 1;
        }
        let sep = j;
        proof {
            lemma_sep_from_is(b, pos as int, sep as int);
        }
        // Copy out the value segment between the previous delimiter and this one.
        let mut seg: Vec<u8> = Vec::new();
        let mut k: usize = pos;
        while k < sep
            invariant
                pos <= k <= sep <= bytes.len(),
                b == bytes@,
                seg@ == b.subrange(pos as int, k as int),
            decreases sep - k,
        {
            seg.push(bytes[k]);
            proof {
                assert(b.subrange(pos as int, (k + 1) as int) =~= b.subrange(
                    pos as int,
                    k as int,
                ).push(b[k as int]));
            }
            k += 1;
        }
        if seg.len() == 0 {
            if at_row_start && (sep == bytes.len() || bytes[sep] == ROW_SEP) {
                if sep == bytes.len() {
                    let ghost old_rows = rows@;
                    let ghost rowv = row@;
                    rows.push(row);
                    proof {
                        assert(view_array(rows@) =~= view_array(old_rows).push(view_row(rowv)));
                    }
                    return Ok(rows);
                } else {
                    let ghost old_rows = rows@;
                    let ghost rowv = row@;
                    rows.push(row);
                    row = Vec::new();
                    proof {
                        assert(view_array(rows@) =~= view_array(old_rows).push(view_row(rowv)));
                        assert(view_row(row@) =~= Seq::<SpecCell>::empty());
                    }
                    pos = sep + 1;
                    at_row_start = true;
                }
            } else {
                return Err(DecodeError::InvalidStructure);
            }
        } else {
            let cell: Option<String>;
            match decode_cell(seg) {
                Ok(c) => {
                    cell = c;
                },
                Err(e) => {
                    return Err(e);
                },
            }
            let ghost old_row = row@;
            row.push(cell);
            proof {
                assert(view_row(row@) =~= view_row(old_row).push(view_cell(cell)));
            }
            if sep == bytes.len() {
                let ghost old_rows = rows@;
                let ghost rowv = row@;
                rows.push(row);
                proof {
                    assert(view_array(rows@) =~= view_array(old_rows).push(view_row(rowv)));
                }
                return Ok(rows);
            } else if bytes[sep] == ROW_SEP {
                let ghost old_rows = rows@;
                let ghost rowv = row@;
                rows.push(row);
                row = Vec::new();
                proof {
                    assert(view_array(rows@) =~= view_array(old_rows).push(view_row(rowv)));
                    assert(view_row(row@) =~= Seq::<SpecCell>::empty());
                }
                pos = sep + 1;
                at_row_start = true;
            } else {
                pos = sep + 1;
                at_row_start = false;
            }
        }
    }
}

} // verus!
