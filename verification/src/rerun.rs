//! Running the engine on what it has put out.

use crate::error::Failure;
use crate::filter::{valid_filters, Filter};
use crate::header::{
    column_index, first_missing, lemma_column_index_prefix, lemma_first_missing, lemma_projection,
    project, projection,
};
use crate::lemmas::{
    is_field, is_row, lemma_fields, lemma_lines_join, lemma_lines_pieces, lemma_row_text,
    lemma_split_pieces,
};
use crate::row::{
    columns, filter_positions, group_passes, holds, lemma_first_beyond, row_passes, row_result,
};
use crate::text::{fields, join, line_break, lines, strip_carriage_return};
use crate::transform::{
    read_table, render, render_row, row_texts, select_rows, select_table, transform, Table,
};
use vstd::prelude::*;

verus! {

/// Whether a table can be written as text and read back: it has a row, its
/// rows have at least one field each, its fields are trimmed and free of
/// commas and line feeds, and its last row is not the empty text.
pub open spec fn is_table(table: Table) -> bool {
    &&& table.len() >= 1
    &&& forall|r: int| 0 <= r < table.len() ==> is_row(#[trigger] table[r])
    &&& render_row(table.last()).len() > 0
}

/// Reading the text of a table gives the table again.
pub proof fn table_is_read_back(table: Table)
    requires
        is_table(table),
    ensures
        read_table(render(table)) == table,
{
    let texts = row_texts(table);
    assert forall|r: int| 0 <= r < texts.len() implies !(#[trigger] texts[r]).contains('\n')
        && strip_carriage_return(texts[r]) == texts[r] && fields(texts[r]) == table[r] by {
        lemma_row_text(table[r]);
    }
    lemma_lines_join(texts);
    assert(read_table(render(table)) =~= table);
}

/// A run on the text of a table selects from that table.
pub proof fn run_reads_the_table(table: Table, selected: Seq<char>, filter_block: Seq<char>)
    requires
        is_table(table),
    ensures
        transform(render(table), selected, filter_block) == match select_table(
            table,
            fields(selected),
            valid_filters(filter_block),
        ) {
            Err(e) => Err::<Seq<char>, Failure>(e),
            Ok(result) => Ok(render(result)),
        },
{
    table_is_read_back(table);
}

/// The text of a table whose last row is the empty text is empty or ends
/// with a line feed.
proof fn lemma_render_end(table: Table)
    requires
        table.len() >= 1,
        render_row(table.last()).len() == 0,
    ensures
        render(table).len() == 0 || render(table).last() == '\n',
{
    let texts = row_texts(table);
    assert(texts.last() == render_row(table.last()));
    if texts.len() > 1 {
        let front = join(texts.drop_last(), line_break());
        assert(render(table) =~= front + line_break());
        assert(line_break()[0] == '\n');
    }
}

/// Every row that is put out is the projection of a row that was kept.
proof fn lemma_kept_rows(
    body: Table,
    filters: Seq<Filter>,
    headers: Seq<Seq<char>>,
    cols: Seq<int>,
)
    requires
        select_rows(body, filters, headers, cols) is Ok,
    ensures
        forall|r: int|
            0 <= r < select_rows(body, filters, headers, cols)->Ok_0.len() ==> exists|i: int|
                0 <= i < body.len() && row_result(filters, headers, cols, #[trigger] body[i])
                    == Ok::<bool, Failure>(true) && (#[trigger] select_rows(
                    body,
                    filters,
                    headers,
                    cols,
                )->Ok_0[r]) == project(body[i], cols),
    decreases body.len(),
{
    if body.len() > 0 {
        let init = body.drop_last();
        lemma_kept_rows(init, filters, headers, cols);
        let before = select_rows(init, filters, headers, cols)->Ok_0;
        let kept = select_rows(body, filters, headers, cols)->Ok_0;
        assert forall|r: int| 0 <= r < kept.len() implies exists|i: int|
            0 <= i < body.len() && row_result(filters, headers, cols, #[trigger] body[i])
                == Ok::<bool, Failure>(true) && (#[trigger] kept[r]) == project(body[i], cols) by {
            if r < before.len() {
                assert(kept[r] == before[r]);
                let i = choose|i: int|
                    0 <= i < init.len() && row_result(filters, headers, cols, #[trigger] init[i])
                        == Ok::<bool, Failure>(true) && before[r] == project(init[i], cols);
                assert(body[i] == init[i]);
            } else {
                let i = body.len() - 1;
                assert(body[i] == body.last());
            }
        }
    }
}

/// Rows that are kept as they are when they are judged again are all put
/// out again.
proof fn lemma_rows_again(
    kept: Table,
    filters: Seq<Filter>,
    headers: Seq<Seq<char>>,
    cols: Seq<int>,
)
    requires
        forall|r: int|
            0 <= r < kept.len() ==> {
                &&& row_result(filters, headers, cols, #[trigger] kept[r]) == Ok::<bool, Failure>(
                    true,
                )
                &&& project(kept[r], cols) == kept[r]
            },
    ensures
        select_rows(kept, filters, headers, cols) == Ok::<Table, Failure>(kept),
    decreases kept.len(),
{
    if kept.len() > 0 {
        let init = kept.drop_last();
        assert forall|r: int| 0 <= r < init.len() implies {
            &&& row_result(filters, headers, cols, #[trigger] init[r]) == Ok::<bool, Failure>(true)
            &&& project(init[r], cols) == init[r]
        } by {
            assert(init[r] == kept[r]);
        }
        lemma_rows_again(init, filters, headers, cols);
        assert(kept.last() == kept[kept.len() - 1]);
        assert(init.push(kept.last()) =~= kept);
    } else {
        assert(kept =~= Seq::empty());
    }
}

/// In the header that is put out, a name resolves to the place of the
/// column that it resolves to in the header that was read.
proof fn lemma_transfer(headers: Seq<Seq<char>>, wanted: Seq<Seq<char>>, name: Seq<char>)
    requires
        project(headers, projection(headers, wanted)).contains(name),
    ensures
        ({
            let cols = projection(headers, wanted);
            let top = project(headers, cols);
            &&& column_index(top, name) matches Some(q)
            &&& 0 <= q < cols.len()
            &&& column_index(headers, name) == Some(cols[q])
        }),
{
    let cols = projection(headers, wanted);
    let top = project(headers, cols);
    top.index_of_first_ensures(name);
    lemma_projection(headers, wanted);
    let q = column_index(top, name)->0;
    assert(top[q] == headers[cols[q]]);
}

/// Where every column is wanted, every place of the header is put out, as
/// the place that its name resolves to.
proof fn lemma_projection_of_all(top: Seq<Seq<char>>, wanted: Seq<Seq<char>>)
    requires
        forall|q: int| 0 <= q < top.len() ==> wanted.contains(#[trigger] top[q]),
    ensures
        projection(top, wanted).len() == top.len(),
        forall|q: int|
            0 <= q < top.len() ==> column_index(top, top[q]) == Some(
                #[trigger] projection(top, wanted)[q],
            ),
    decreases top.len(),
{
    if top.len() > 0 {
        let init = top.drop_last();
        let n = top.len() - 1;
        assert(init =~= top.take(n));
        assert forall|q: int| 0 <= q < init.len() implies wanted.contains(#[trigger] init[q]) by {
            assert(init[q] == top[q]);
        }
        lemma_projection_of_all(init, wanted);
        assert(top[n] == top.last());
        top.index_of_first_ensures(top.last());
        assert forall|q: int| 0 <= q < top.len() implies column_index(top, top[q]) == Some(
            #[trigger] projection(top, wanted)[q],
        ) by {
            if q < n {
                assert(init[q] == top[q]);
                assert(init.contains(init[q]));
                lemma_column_index_prefix(top, n, init[q]);
                assert(projection(top, wanted)[q] == projection(init, wanted)[q]);
            }
        }
    }
}

/// A projected row is projected to itself when the engine runs on the
/// header that it has put out.
proof fn lemma_project_again(row: Seq<Seq<char>>, headers: Seq<Seq<char>>, wanted: Seq<Seq<char>>)
    ensures
        ({
            let cols = projection(headers, wanted);
            let top = project(headers, cols);
            let again = projection(top, wanted);
            &&& again.len() == cols.len()
            &&& forall|q: int| 0 <= q < again.len() ==> 0 <= #[trigger] again[q] < cols.len()
            &&& project(project(row, cols), again) == project(row, cols)
        }),
{
    let cols = projection(headers, wanted);
    let top = project(headers, cols);
    let again = projection(top, wanted);
    lemma_projection(headers, wanted);
    assert forall|q: int| 0 <= q < top.len() implies wanted.contains(#[trigger] top[q]) by {
        assert(top[q] == headers[cols[q]]);
    }
    lemma_projection_of_all(top, wanted);
    assert forall|q: int| 0 <= q < again.len() implies 0 <= #[trigger] again[q] < cols.len()
        && cols[again[q]] == cols[q] by {
        assert(top.contains(top[q]));
        lemma_transfer(headers, wanted, top[q]);
        assert(top[q] == headers[cols[q]]);
    }
    assert(project(project(row, cols), again) =~= project(row, cols));
}

/// A row that was kept is kept as it is when the engine runs on what it has
/// put out, if the header that was put out still names the column of every
/// filter.
proof fn lemma_row_stays(
    row: Seq<Seq<char>>,
    filters: Seq<Filter>,
    headers: Seq<Seq<char>>,
    wanted: Seq<Seq<char>>,
)
    requires
        first_missing(
            columns(filters),
            project(headers, projection(headers, wanted)),
        ) is None,
        row_result(filters, headers, projection(headers, wanted), row) == Ok::<bool, Failure>(
            true,
        ),
    ensures
        ({
            let cols = projection(headers, wanted);
            let top = project(headers, cols);
            let again = projection(top, wanted);
            &&& row_result(filters, top, again, project(row, cols)) == Ok::<bool, Failure>(true)
            &&& project(project(row, cols), again) == project(row, cols)
        }),
{
    let cols = projection(headers, wanted);
    let top = project(headers, cols);
    let again = projection(top, wanted);
    let kept = project(row, cols);
    lemma_project_again(row, headers, wanted);
    lemma_first_missing(columns(filters), top);
    let reads = filter_positions(filters, top);
    assert forall|k: int| 0 <= k < filters.len() implies top.contains(
        (#[trigger] filters[k]).column,
    ) by {
        assert(columns(filters)[k] == filters[k].column);
    }
    assert forall|k: int| 0 <= k < reads.len() implies reads[k] < kept.len() by {
        lemma_transfer(headers, wanted, filters[k].column);
    }
    lemma_first_beyond(reads, kept.len() as int);
    lemma_first_beyond(again, kept.len() as int);
    assert(row_passes(filters, row, headers));
    assert forall|i: int| 0 <= i < filters.len() implies group_passes(
        filters,
        (#[trigger] filters[i]).column,
        kept,
        top,
    ) by {
        assert(group_passes(filters, filters[i].column, row, headers));
        let j = choose|j: int|
            0 <= j < filters.len() && (#[trigger] filters[j]).column == filters[i].column && holds(
                filters[j],
                row,
                headers,
            );
        lemma_transfer(headers, wanted, filters[j].column);
        let q = column_index(top, filters[j].column)->0;
        assert(kept[q] == row[cols[q]]);
        assert(holds(filters[j], kept, top));
    }
}

/// To select from a table that was selected with the same columns and
/// filters changes nothing, unless a filter names a column that was not
/// put out: then the first such filter makes the second selection fail.
pub proof fn selected_table_is_stable(
    table: Table,
    wanted: Seq<Seq<char>>,
    filters: Seq<Filter>,
    result: Table,
)
    requires
        select_table(table, wanted, filters) == Ok::<Table, Failure>(result),
    ensures
        select_table(result, wanted, filters) == match first_missing(columns(filters), result[0]) {
            Some(name) => Err::<Table, Failure>(Failure::HeaderNotFound(name)),
            None => Ok(result),
        },
{
    let headers = table[0];
    let cols = projection(headers, wanted);
    let top = project(headers, cols);
    let body = table.drop_first();
    let kept = select_rows(body, filters, headers, cols)->Ok_0;
    let again = projection(top, wanted);
    assert(result == seq![top] + kept);
    assert(result[0] == top);
    assert(result.drop_first() =~= kept);
    lemma_first_missing(wanted, headers);
    lemma_projection(headers, wanted);
    assert forall|k: int| 0 <= k < wanted.len() implies top.contains(#[trigger] wanted[k]) by {
        assert(headers.contains(wanted[k]));
        assert(wanted.contains(wanted[k]));
        let q = choose|q: int| 0 <= q < cols.len() && headers[#[trigger] cols[q]] == wanted[k];
        assert(top[q] == wanted[k]);
    }
    lemma_first_missing(wanted, top);
    if first_missing(columns(filters), top) is None {
        lemma_kept_rows(body, filters, headers, cols);
        assert forall|r: int| 0 <= r < kept.len() implies {
            &&& row_result(filters, top, again, #[trigger] kept[r]) == Ok::<bool, Failure>(true)
            &&& project(kept[r], again) == kept[r]
        } by {
            let i = choose|i: int|
                0 <= i < body.len() && row_result(filters, headers, cols, #[trigger] body[i])
                    == Ok::<bool, Failure>(true) && kept[r] == project(body[i], cols);
            lemma_row_stays(body[i], filters, headers, wanted);
        }
        lemma_rows_again(kept, filters, top, again);
        lemma_project_again(headers, headers, wanted);
    }
}

/// What is selected from the table of a text, with a selection that was
/// read from a text, has rows with at least one field each, and fields that
/// are trimmed and free of commas and line feeds.
proof fn lemma_selected_rows_are_clean(
    csv: Seq<char>,
    selected: Seq<char>,
    filters: Seq<Filter>,
    result: Table,
)
    requires
        read_table(csv).len() > 0,
        select_table(read_table(csv), fields(selected), filters) == Ok::<Table, Failure>(result),
    ensures
        result.len() >= 1,
        forall|r: int| 0 <= r < result.len() ==> is_row(#[trigger] result[r]),
{
    let table = read_table(csv);
    let headers = table[0];
    let wanted = fields(selected);
    let cols = projection(headers, wanted);
    let top = project(headers, cols);
    let body = table.drop_first();
    let kept = select_rows(body, filters, headers, cols)->Ok_0;
    assert(result == seq![top] + kept);
    lemma_lines_pieces(csv);
    assert forall|r: int| 0 <= r < table.len() implies is_row(#[trigger] table[r]) by {
        lemma_fields(lines(csv)[r]);
    }
    lemma_split_pieces(selected, ',');
    lemma_first_missing(wanted, headers);
    lemma_projection(headers, wanted);
    assert(cols.len() >= 1) by {
        assert(headers.contains(wanted[0]));
        assert(wanted.contains(wanted[0]));
    }
    assert(is_row(top)) by {
        assert forall|k: int| 0 <= k < top.len() implies is_field(#[trigger] top[k]) by {
            assert(top[k] == headers[cols[k]]);
        }
    }
    lemma_kept_rows(body, filters, headers, cols);
    assert forall|r: int| 0 <= r < result.len() implies is_row(#[trigger] result[r]) by {
        if r > 0 {
            let i = choose|i: int|
                0 <= i < body.len() && row_result(filters, headers, cols, #[trigger] body[i])
                    == Ok::<bool, Failure>(true) && kept[r - 1] == project(body[i], cols);
            let row = body[i];
            assert(row == table[i + 1]);
            lemma_first_beyond(cols, row.len() as int);
            assert forall|k: int| 0 <= k < kept[r - 1].len() implies is_field(
                #[trigger] kept[r - 1][k],
            ) by {
                assert(kept[r - 1][k] == row[cols[k]]);
            }
            assert(result[r] == kept[r - 1]);
        }
    }
}

/// The header that a run puts out: the names of the selected columns in the
/// order of the header of `csv`.
pub open spec fn header_put_out(csv: Seq<char>, selected: Seq<char>) -> Seq<Seq<char>> {
    let headers = read_table(csv)[0];
    project(headers, projection(headers, fields(selected)))
}

/// What the engine does with what it has put out: it puts out the same
/// again, unless a filter names a column that was not put out, in which
/// case the first such filter makes the second run fail.
///
/// This holds where the text that was put out is not empty and does not end
/// with a line feed. It ends with one only if the last row that was put out
/// is the empty text; read again, such a row is taken for the end of the
/// text and lost.
pub proof fn rerun_repeats_or_misses_a_column(
    csv: Seq<char>,
    selected: Seq<char>,
    filter_block: Seq<char>,
    out: Seq<char>,
)
    requires
        transform(csv, selected, filter_block) == Ok::<Seq<char>, Failure>(out),
        out.len() > 0,
        out.last() != '\n',
    ensures
        transform(out, selected, filter_block) == match first_missing(
            columns(valid_filters(filter_block)),
            header_put_out(csv, selected),
        ) {
            Some(name) => Err::<Seq<char>, Failure>(Failure::HeaderNotFound(name)),
            None => Ok(out),
        },
{
    let wanted = fields(selected);
    let filters = valid_filters(filter_block);
    let result = select_table(read_table(csv), wanted, filters)->Ok_0;
    assert(out == render(result));
    lemma_selected_rows_are_clean(csv, selected, filters, result);
    if render_row(result.last()).len() == 0 {
        lemma_render_end(result);
    }
    table_is_read_back(result);
    selected_table_is_stable(read_table(csv), wanted, filters, result);
}

/// Running the engine on what it has put out changes nothing.
///
/// This holds where the second run succeeds, that is, where the header
/// that was put out still names the column of every filter, and where the
/// text that was put out does not end with a line feed (see
/// `rerun_repeats_or_misses_a_column`).
pub proof fn transform_is_idempotent(
    csv: Seq<char>,
    selected: Seq<char>,
    filter_block: Seq<char>,
    out: Seq<char>,
)
    requires
        transform(csv, selected, filter_block) == Ok::<Seq<char>, Failure>(out),
        transform(out, selected, filter_block) is Ok,
        out.len() == 0 || out.last() != '\n',
    ensures
        transform(out, selected, filter_block) == Ok::<Seq<char>, Failure>(out),
{
    if out.len() > 0 {
        rerun_repeats_or_misses_a_column(csv, selected, filter_block, out);
    } else {
        assert(lines(out) =~= Seq::empty());
    }
}

} // verus!
