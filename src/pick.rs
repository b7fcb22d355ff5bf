//! The composition: select rows, then render the selected fields of each.
use vstd::prelude::*;
use vstd::string::*;
use vstd::utf8::*;
use crate::fields::{fields_between, filtered_line, render, whitespace_runs};
use crate::rows::islice;
use crate::slice::{Slice, SpecError, slice_from_spec, slice_window, spec_slice};

verus! {

/// What one line (by its characters) becomes under the column slice `cols`.
pub open spec fn line_output(line: Seq<char>, cols: Slice) -> Option<Seq<char>> {
    let bytes = encode_utf8(line);
    render(fields_between(whitespace_runs(line), bytes.len() as int), bytes, cols)
}

/// The outputs of `rows` under `cols`, in order, leaving out the rows in which
/// no field is selected.
pub open spec fn outputs(rows: Seq<Seq<char>>, cols: Slice) -> Seq<Seq<char>>
    decreases rows.len(),
{
    if rows.len() == 0 {
        Seq::empty()
    } else {
        let rest = outputs(rows.drop_last(), cols);
        match line_output(rows.last(), cols) {
            Some(o) => rest.push(o),
            None => rest,
        }
    }
}

pub open spec fn strings_view(v: Seq<String>) -> Seq<Seq<char>> {
    Seq::new(v.len(), |k: int| v[k]@)
}

/// The lines that the row slice `rows` and the column slice `cols` pick from
/// `lines`, with negative row bounds resolved against `line_count` when it is
/// known.
pub open spec fn picked(lines: Seq<Seq<char>>, rows: Slice, cols: Slice, line_count: Option<usize>) -> Seq<Seq<char>> {
    let w = slice_window(lines.len() as int, rows, line_count);
    outputs(lines.subrange(w.0, w.1), cols)
}

/// Renders the fields that `cols` selects in each of `rows`, leaving out the
/// rows in which none is selected.
pub fn filter_rows(rows: Vec<String>, cols: Slice) -> (r: Vec<String>)
    ensures
        strings_view(r@) == outputs(strings_view(rows@), cols),
{
    let ghost all = strings_view(rows@);
    let mut out: Vec<String> = Vec::new();
    let mut i: usize = 0;
    while i < rows.len()
        invariant
            i <= rows@.len(),
            all == strings_view(rows@),
            strings_view(out@) == outputs(all.subrange(0, i as int), cols),
        decreases rows@.len() - i,
    {
        let line = rows[i].as_str();
        let ghost prev = all.subrange(0, i as int);
        assert(all.subrange(0, i + 1).drop_last() =~= prev);
        assert(all.subrange(0, i + 1).last() == rows@[i as int]@);
        let ghost before = strings_view(out@);
        match filtered_line(line, cols) {
            Some(o) => {
                out.push(o);
                assert(strings_view(out@) =~= before.push(o@));
            },
            None => {
                assert(strings_view(out@) =~= before);
            },
        }
        i = i + 1;
    }
    assert(all.subrange(0, i as int) =~= all);
    out
}

/// Picks from `lines` the rows that `row_spec` selects and, within each, the
/// fields that `col_spec` selects. Negative row bounds are resolved against
/// `line_count` when it is given, and otherwise against the number of lines.
/// Fails when either specification is malformed, the row specification first.
pub fn pick(lines: Vec<String>, row_spec: &str, col_spec: &str, line_count: Option<usize>) -> (r: Result<Vec<String>, SpecError>)
    ensures
        match (spec_slice(row_spec.spec_bytes()), spec_slice(col_spec.spec_bytes())) {
            (Ok(rows), Ok(cols)) => r is Ok && strings_view(r->Ok_0@) == picked(strings_view(lines@), rows, cols, line_count),
            (Err(e), _) => r == Err::<Vec<String>, SpecError>(e),
            (Ok(_), Err(e)) => r == Err::<Vec<String>, SpecError>(e),
        },
{
    let rows = match slice_from_spec(row_spec) {
        Ok(s) => s,
        Err(e) => return Err(e),
    };
    let cols = match slice_from_spec(col_spec) {
        Ok(s) => s,
        Err(e) => return Err(e),
    };
    let ghost all = lines@;
    let selected = islice(lines, rows, line_count);
    let ghost w = slice_window(all.len() as int, rows, line_count);
    assert(strings_view(selected@) =~= strings_view(all).subrange(w.0, w.1));
    Ok(filter_rows(selected, cols))
}

} // verus!
