//! The whole run: from the text of a table, the selected columns and a
//! filter block to the text of the projected and filtered table.

use crate::error::{outcome, CsvError, Failure};
use crate::filter::{parse_filters, valid_filters, Filter};
use crate::header::{
    find_missing, first_missing, positions, project, project_columns, projection,
};
use crate::row::{
    columns, judge_row, lemma_first_beyond, lemma_first_beyond_member, lemma_row_verdict,
    read_positions, resolve_filters, resolves, row_result,
};
use crate::text::{
    comma, fields, from_chars, join, line_break, lines, push_char, push_chars, split_fields,
    split_lines, to_chars, views,
};
use vstd::prelude::*;

verus! {

/// A table: rows of fields, the first of which is the header.
pub type Table = Seq<Seq<Seq<char>>>;

/// The table that a text holds: the fields of each of its lines.
pub open spec fn read_table(csv: Seq<char>) -> Table {
    lines(csv).map_values(|line: Seq<char>| fields(line))
}

/// The rows that are put out, projected to the columns `cols`, when the
/// rows `body` are judged one after the other. The first row that fails is
/// the failure of them all.
pub open spec fn select_rows(
    body: Table,
    filters: Seq<Filter>,
    headers: Seq<Seq<char>>,
    cols: Seq<int>,
) -> Result<Table, Failure>
    decreases body.len(),
{
    if body.len() == 0 {
        Ok(Seq::empty())
    } else {
        match select_rows(body.drop_last(), filters, headers, cols) {
            Err(e) => Err(e),
            Ok(kept) => match row_result(filters, headers, cols, body.last()) {
                Err(e) => Err(e),
                Ok(true) => Ok(kept.push(project(body.last(), cols))),
                Ok(false) => Ok(kept),
            },
        }
    }
}

/// The table that is put out when the columns called `wanted` are selected
/// from `table` and its rows are held against `filters`.
///
/// This fails with `HeaderNotFound` on the first wanted column that the
/// header does not name, or else on the first filter whose column it does
/// not name. Otherwise the result is a table: first the names of the wanted
/// columns in the order of the header, then the rows that satisfy the
/// filters, each projected to those columns, unless a row fails as
/// `row_result` says.
pub open spec fn select_table(table: Table, wanted: Seq<Seq<char>>, filters: Seq<Filter>) -> Result<
    Table,
    Failure,
>
    recommends
        table.len() > 0,
{
    let headers = table[0];
    match first_missing(wanted, headers) {
        Some(name) => Err(Failure::HeaderNotFound(name)),
        None => match first_missing(columns(filters), headers) {
            Some(name) => Err(Failure::HeaderNotFound(name)),
            None => {
                let cols = projection(headers, wanted);
                match select_rows(table.drop_first(), filters, headers, cols) {
                    Err(e) => Err(e),
                    Ok(kept) => Ok(seq![project(headers, cols)] + kept),
                }
            },
        },
    }
}

/// The text of one row: its fields with commas between them.
pub open spec fn render_row(row: Seq<Seq<char>>) -> Seq<char> {
    join(row, comma())
}

/// The texts of the rows of a table.
pub open spec fn row_texts(table: Table) -> Seq<Seq<char>> {
    table.map_values(|row: Seq<Seq<char>>| render_row(row))
}

/// The text of a table: its rows with line feeds between them, and none at
/// the end.
pub open spec fn render(table: Table) -> Seq<char> {
    join(row_texts(table), line_break())
}

/// What a run puts out.
///
/// The first line of `csv` is the header; without any line the run fails
/// with `NoHeaders`. `selected` holds the names of the wanted columns with
/// commas between them, `filter_block` one filter on each line; lines that
/// denote no filter are passed over. The result is the text of the table
/// that `select_table` gives, or its failure.
///
/// Three cases at the edge follow from this. The empty selection names one
/// column, the one without a name, and fails unless the header has such a
/// column. A name that the header holds several times resolves to its
/// first column, so that the later columns of that name put out what the
/// first one holds. A row may be shorter or longer than the header: it
/// fails only if a field has to be read that it does not have.
pub open spec fn transform(csv: Seq<char>, selected: Seq<char>, filter_block: Seq<char>) -> Result<
    Seq<char>,
    Failure,
> {
    let table = read_table(csv);
    if table.len() == 0 {
        Err(Failure::NoHeaders)
    } else {
        match select_table(table, fields(selected), valid_filters(filter_block)) {
            Err(e) => Err(e),
            Ok(result) => Ok(render(result)),
        }
    }
}

/// A failure among the first `n` rows is the failure of all rows.
pub proof fn lemma_select_rows_failure(
    body: Table,
    filters: Seq<Filter>,
    headers: Seq<Seq<char>>,
    cols: Seq<int>,
    n: int,
)
    requires
        0 <= n <= body.len(),
        select_rows(body.take(n), filters, headers, cols) is Err,
    ensures
        select_rows(body, filters, headers, cols) == select_rows(
            body.take(n),
            filters,
            headers,
            cols,
        ),
    decreases body.len() - n,
{
    if n == body.len() {
        assert(body.take(n) =~= body);
    } else {
        assert(body.take(n + 1).drop_last() =~= body.take(n));
        lemma_select_rows_failure(body, filters, headers, cols, n + 1);
    }
}

/// A table with one more row has one more line.
pub proof fn lemma_render_push(table: Table, row: Seq<Seq<char>>)
    requires
        table.len() > 0,
    ensures
        render(table.push(row)) == render(table) + line_break() + render_row(row),
{
    assert(row_texts(table.push(row)).drop_last() =~= row_texts(table));
}

/// Appends the fields of `row` in the columns `cols` to `out`, with commas
/// between them.
fn push_row(out: &mut String, row: &[&[char]], cols: &[usize])
    requires
        forall|k: int| 0 <= k < cols@.len() ==> #[trigger] cols@[k] < row@.len(),
    ensures
        final(out)@ == old(out)@ + render_row(project(views(row@), positions(cols@))),
{
    let ghost before = out@;
    let ghost picked = project(views(row@), positions(cols@));
    let mut k: usize = 0;
    assert(picked.take(0) =~= Seq::<Seq<char>>::empty());
    assert(before + Seq::<char>::empty() =~= before);
    while k < cols.len()
        invariant
            k <= cols@.len(),
            before == old(out)@,
            picked == project(views(row@), positions(cols@)),
            forall|j: int| 0 <= j < cols@.len() ==> #[trigger] cols@[j] < row@.len(),
            out@ == before + join(picked.take(k as int), comma()),
        decreases cols@.len() - k,
    {
        let ghost so_far = join(picked.take(k as int), comma());
        if k > 0 {
            push_char(out, ',');
        }
        push_chars(out, row[cols[k]]);
        proof {
            let next = picked.take(k + 1);
            assert(next.drop_last() =~= picked.take(k as int));
            assert(next.last() == row@[cols@[k as int] as int]@);
            if k > 0 {
                assert(out@ =~= before + (so_far + comma() + next.last()));
            } else {
                assert(out@ =~= before + next.last());
            }
        }
        k += 1;
    }
    assert(picked.take(cols@.len() as int) =~= picked);
}

/// Projects and filters a table.
///
/// `csv_data` is the text of the table, `selected_columns` the names of the
/// columns to put out, with commas between them, and
/// `row_filter_definitions` a filter block with one filter on each line.
/// The result is the text of the new table: the selected columns in the
/// order of the header, the rows that satisfy the filters, fields joined by
/// commas and rows by line feeds, with no line feed at the end. Where there
/// is no table, the result is the reason: no header, a selected or filtered
/// column that the header does not name, or a row without a field that had
/// to be read. All of this is exactly as `transform` says.
pub fn process_csv_impl(
    csv_data: &str,
    selected_columns: &str,
    row_filter_definitions: &str,
) -> (r: Result<String, CsvError>)
    ensures
        outcome(r) == transform(csv_data@, selected_columns@, row_filter_definitions@),
{
    let text = to_chars(csv_data);
    let all = split_lines(text.as_slice());
    if all.len() == 0 {
        return Err(CsvError::NoHeaders);
    }
    let headers = split_fields(all[0]);
    let selected = to_chars(selected_columns);
    let wanted = split_fields(selected.as_slice());
    let block = to_chars(row_filter_definitions);
    let filters = parse_filters(block.as_slice());
    let ghost heads = views(headers@);
    let ghost conditions = views(filters@);
    let ghost body = read_table(csv_data@).drop_first();
    assert(views(all@)[0] == all@[0]@);
    match find_missing(wanted.as_slice(), headers.as_slice()) {
        Some(k) => {
            return Err(CsvError::HeaderNotFound(from_chars(wanted[k])));
        },
        None => {},
    }
    let resolved = match resolve_filters(filters.as_slice(), headers.as_slice()) {
        Ok(resolved) => resolved,
        Err(e) => {
            return Err(e);
        },
    };
    let cols = project_columns(headers.as_slice(), wanted.as_slice());
    let ghost places = positions(cols@);
    let ghost top = project(heads, places);
    let mut out = String::new();
    push_row(&mut out, headers.as_slice(), cols.as_slice());
    let ghost mut kept: Table = Seq::empty();
    proof {
        assert(body.take(0) =~= Seq::<Seq<Seq<char>>>::empty());
        assert(row_texts(seq![top] + kept) =~= seq![render_row(top)]);
        assert(out@ =~= render_row(top));
    }
    let mut i: usize = 1;
    while i < all.len()
        invariant
            1 <= i <= all@.len(),
            views(all@) == lines(csv_data@),
            body == read_table(csv_data@).drop_first(),
            heads == views(headers@),
            resolves(views(resolved@), conditions, heads),
            places == positions(cols@),
            top == project(heads, places),
            forall|k: int| 0 <= k < cols@.len() ==> #[trigger] cols@[k] < headers@.len(),
            forall|k: int|
                0 <= k < resolved@.len() ==> (#[trigger] resolved@[k]).index < headers@.len(),
            select_rows(body.take(i - 1), conditions, heads, places) == Ok::<_, Failure>(kept),
            out@ == render(seq![top] + kept),
            transform(csv_data@, selected_columns@, row_filter_definitions@) == match select_rows(
                body,
                conditions,
                heads,
                places,
            ) {
                Err(e) => Err(e),
                Ok(rows) => Ok(render(seq![top] + rows)),
            },
        decreases all@.len() - i,
    {
        let row = split_fields(all[i]);
        proof {
            assert(body.take(i as int).drop_last() =~= body.take(i - 1));
            assert(body.take(i as int).last() == fields(views(all@)[i as int]));
            assert(views(all@)[i as int] == all@[i as int]@);
        }
        proof {
            lemma_row_verdict(views(resolved@), conditions, heads, places, views(row@));
        }
        match judge_row(resolved.as_slice(), cols.as_slice(), row.as_slice()) {
            Err(c) => {
                proof {
                    lemma_first_beyond_member(read_positions(views(resolved@)), row@.len() as int);
                    lemma_first_beyond_member(places, row@.len() as int);
                    lemma_select_rows_failure(body, conditions, heads, places, i as int);
                }
                return Err(CsvError::FieldNotFound(from_chars(headers[c])));
            },
            Ok(false) => {},
            Ok(true) => {
                proof {
                    lemma_first_beyond(places, row@.len() as int);
                    assert forall|k: int| 0 <= k < cols@.len() implies #[trigger] cols@[k]
                        < row@.len() by {
                        assert(places[k] == cols@[k]);
                    }
                    lemma_render_push(seq![top] + kept, project(views(row@), places));
                    assert((seq![top] + kept).push(project(views(row@), places)) =~= seq![top]
                        + kept.push(project(views(row@), places)));
                    kept = kept.push(project(views(row@), places));
                }
                push_char(&mut out, '\n');
                push_row(&mut out, row.as_slice(), cols.as_slice());
                assert(out@ =~= render(seq![top] + kept));
            },
        }
        i += 1;
    }
    assert(body.take(all@.len() - 1) =~= body);
    Ok(out)
}

} // verus!
