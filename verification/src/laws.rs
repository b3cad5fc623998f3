//! What holds of every run of the engine.

use crate::error::Failure;
use crate::filter::{
    operator_of, parse_filter, parsed_lines, valid_filters, valid_lines, Filter, Operator,
};
use crate::header::{
    column_index, lemma_first_missing, lemma_projection, project, projection,
};
use crate::lemmas::{is_trimmed, lemma_find_char, lemma_split_append, lemma_trim_fixed};
use crate::row::{group_passes, holds, row_passes};
use crate::text::{fields, find, lemma_find, less, line_break, occurs_at, split};
use crate::transform::{read_table, select_rows, transform, Table};
use vstd::prelude::*;

verus! {

/// The columns that are put out depend on which names are selected, not on
/// the order in which they are written nor on how often.
pub proof fn projection_ignores_order(
    headers: Seq<Seq<char>>,
    first: Seq<Seq<char>>,
    second: Seq<Seq<char>>,
)
    requires
        forall|name: Seq<char>| first.contains(name) == second.contains(name),
    ensures
        projection(headers, first) == projection(headers, second),
    decreases headers.len(),
{
    if headers.len() > 0 {
        projection_ignores_order(headers.drop_last(), first, second);
    }
}

/// The names of the columns that are put out are the names of the header
/// that are selected, in the order of the header.
pub proof fn projection_follows_header(headers: Seq<Seq<char>>, wanted: Seq<Seq<char>>)
    ensures
        project(headers, projection(headers, wanted)) == headers.filter(
            |name: Seq<char>| wanted.contains(name),
        ),
    decreases headers.len(),
{
    let pick = |name: Seq<char>| wanted.contains(name);
    reveal(Seq::filter);
    if headers.len() > 0 {
        let init = headers.drop_last();
        projection_follows_header(init, wanted);
        lemma_projection(init, wanted);
        lemma_projection(headers, wanted);
        let before = projection(init, wanted);
        assert forall|k: int| 0 <= k < before.len() implies project(init, before)[k] == project(
            headers,
            projection(headers, wanted),
        )[k] by {
            assert(init[before[k]] == headers[before[k]]);
        }
        if wanted.contains(headers.last()) {
            headers.index_of_first_ensures(headers.last());
            assert(headers[headers.len() - 1] == headers.last());
            assert(project(headers, projection(headers, wanted)) =~= project(init, before).push(
                headers.last(),
            ));
        } else {
            assert(project(headers, projection(headers, wanted)) =~= project(init, before));
        }
    } else {
        assert(project(headers, projection(headers, wanted)) =~= headers.filter(pick));
    }
}

/// Where no two columns share a name, the columns that are put out stand in
/// the order of their positions in the header.
pub proof fn projection_is_increasing(headers: Seq<Seq<char>>, wanted: Seq<Seq<char>>)
    requires
        headers.no_duplicates(),
    ensures
        forall|a: int, b: int|
            0 <= a < b < projection(headers, wanted).len() ==> projection(headers, wanted)[a]
                < projection(headers, wanted)[b],
    decreases headers.len(),
{
    if headers.len() > 0 {
        let init = headers.drop_last();
        let n = headers.len() - 1;
        assert forall|i: int, j: int| 0 <= i < init.len() && 0 <= j < init.len() && i != j implies init[i]
            != init[j] by {
            assert(init[i] == headers[i] && init[j] == headers[j]);
        }
        projection_is_increasing(init, wanted);
        lemma_projection(init, wanted);
        headers.index_of_first_ensures(headers.last());
        assert(headers[n] == headers.last());
        assert(column_index(headers, headers.last()) == Some(n));
    }
}

/// A run that succeeds gives the same result for every way of writing the
/// same selection of columns.
pub proof fn selection_order_is_irrelevant(
    csv: Seq<char>,
    first: Seq<char>,
    second: Seq<char>,
    filter_block: Seq<char>,
)
    requires
        forall|name: Seq<char>| fields(first).contains(name) == fields(second).contains(name),
        transform(csv, first, filter_block) is Ok,
    ensures
        transform(csv, second, filter_block) == transform(csv, first, filter_block),
{
    let headers = read_table(csv)[0];
    lemma_first_missing(fields(first), headers);
    lemma_first_missing(fields(second), headers);
    projection_ignores_order(headers, fields(first), fields(second));
    assert forall|k: int| 0 <= k < fields(second).len() implies headers.contains(
        #[trigger] fields(second)[k],
    ) by {
        let name = fields(second)[k];
        assert(fields(second).contains(name));
        let j = choose|j: int| 0 <= j < fields(first).len() && fields(first)[j] == name;
        assert(headers.contains(fields(first)[j]));
    }
}

/// Two filters on the same column are alternatives: a row satisfies the
/// pair if it satisfies one of them.
pub proof fn filters_on_one_column_are_alternatives(
    first: Filter,
    second: Filter,
    row: Seq<Seq<char>>,
    headers: Seq<Seq<char>>,
)
    requires
        first.column == second.column,
    ensures
        row_passes(seq![first, second], row, headers) == (holds(first, row, headers) || holds(
            second,
            row,
            headers,
        )),
{
    let pair = seq![first, second];
    assert(pair[0] == first && pair[1] == second);
    if holds(first, row, headers) || holds(second, row, headers) {
        let j = if holds(first, row, headers) {
            0int
        } else {
            1int
        };
        assert(pair[j].column == first.column && holds(pair[j], row, headers));
        assert forall|i: int| 0 <= i < pair.len() implies group_passes(
            pair,
            (#[trigger] pair[i]).column,
            row,
            headers,
        ) by {
            assert(pair[i].column == pair[j].column);
        }
    }
    if row_passes(pair, row, headers) {
        assert(group_passes(pair, pair[0].column, row, headers));
    }
}

/// Two filters on different columns must both hold: a row satisfies the
/// pair only if it satisfies each of them.
pub proof fn filters_on_two_columns_must_both_hold(
    first: Filter,
    second: Filter,
    row: Seq<Seq<char>>,
    headers: Seq<Seq<char>>,
)
    requires
        first.column != second.column,
    ensures
        row_passes(seq![first, second], row, headers) == (holds(first, row, headers) && holds(
            second,
            row,
            headers,
        )),
{
    let pair = seq![first, second];
    assert(pair[0] == first && pair[1] == second);
    if holds(first, row, headers) && holds(second, row, headers) {
        assert forall|i: int| 0 <= i < pair.len() implies group_passes(
            pair,
            (#[trigger] pair[i]).column,
            row,
            headers,
        ) by {
            assert(pair[i].column == pair[i].column && holds(pair[i], row, headers));
        }
    }
    if row_passes(pair, row, headers) {
        assert(group_passes(pair, pair[0].column, row, headers));
        assert(group_passes(pair, pair[1].column, row, headers));
    }
}

/// A row satisfies a list of filters exactly if, for every column that one
/// of them names, it satisfies at least one of the filters on that column.
pub proof fn row_passes_by_column(
    filters: Seq<Filter>,
    row: Seq<Seq<char>>,
    headers: Seq<Seq<char>>,
)
    ensures
        row_passes(filters, row, headers) <==> forall|column: Seq<char>|
            #![trigger group_passes(filters, column, row, headers)]
            (exists|i: int| 0 <= i < filters.len() && (#[trigger] filters[i]).column == column)
                ==> group_passes(filters, column, row, headers),
{
    if row_passes(filters, row, headers) {
        assert forall|column: Seq<char>|
            #![trigger group_passes(filters, column, row, headers)]
            (exists|i: int|
                0 <= i < filters.len() && (#[trigger] filters[i]).column
                    == column) implies group_passes(filters, column, row, headers) by {
            let i = choose|i: int| 0 <= i < filters.len() && (#[trigger] filters[i]).column == column;
            assert(group_passes(filters, filters[i].column, row, headers));
        }
    }
}

/// Of the rows of a selection that succeeds, exactly those that satisfy the
/// filters are put out, in their order, each projected to the columns.
pub proof fn kept_rows_are_the_passing_rows(
    body: Table,
    filters: Seq<Filter>,
    headers: Seq<Seq<char>>,
    cols: Seq<int>,
)
    requires
        select_rows(body, filters, headers, cols) is Ok,
    ensures
        select_rows(body, filters, headers, cols) == Ok::<Table, Failure>(
            body.filter(|row: Seq<Seq<char>>| row_passes(filters, row, headers)).map_values(
                |row: Seq<Seq<char>>| project(row, cols),
            ),
        ),
    decreases body.len(),
{
    let pass = |row: Seq<Seq<char>>| row_passes(filters, row, headers);
    let pick = |row: Seq<Seq<char>>| project(row, cols);
    reveal(Seq::filter);
    if body.len() > 0 {
        let init = body.drop_last();
        kept_rows_are_the_passing_rows(init, filters, headers, cols);
        let kept = init.filter(pass);
        if row_passes(filters, body.last(), headers) {
            assert(body.filter(pass) == kept.push(body.last()));
            assert(body.filter(pass).map_values(pick) =~= kept.map_values(pick).push(
                project(body.last(), cols),
            ));
        } else {
            assert(body.filter(pass) == kept);
        }
    } else {
        assert(body.filter(pass).map_values(pick) =~= Seq::empty());
    }
}

/// The filters of the lines that denote one are the filters of all lines:
/// to pass over the other lines first changes nothing.
pub proof fn kept_lines_hold_all_filters(lines: Seq<Seq<char>>)
    ensures
        parsed_lines(valid_lines(lines)) == parsed_lines(lines),
        forall|k: int|
            0 <= k < valid_lines(lines).len() ==> parse_filter(
                #[trigger] valid_lines(lines)[k],
            ) is Some,
    decreases lines.len(),
{
    if lines.len() > 0 {
        let init = lines.drop_last();
        kept_lines_hold_all_filters(init);
        if parse_filter(lines.last()) is Some {
            assert(valid_lines(lines).drop_last() =~= valid_lines(init));
        }
    }
}

/// Different characters have different code points.
proof fn lemma_code_points_differ(a: char, b: char)
    requires
        a != b,
    ensures
        (a as u32) != (b as u32),
{
}

/// Of two texts, exactly one of three holds: the first comes before the
/// second, they are the same, or the second comes before the first.
pub proof fn order_is_total(a: Seq<char>, b: Seq<char>)
    ensures
        less(a, b) || a == b || less(b, a),
        !(less(a, b) && a == b),
        !(less(a, b) && less(b, a)),
        !(a == b && less(b, a)),
    decreases a.len(),
{
    if a.len() > 0 && b.len() > 0 {
        if a[0] == b[0] {
            order_is_total(a.drop_first(), b.drop_first());
            if a.drop_first() == b.drop_first() {
                assert(a =~= seq![a[0]] + a.drop_first());
                assert(b =~= seq![b[0]] + b.drop_first());
            }
        } else {
            lemma_code_points_differ(a[0], b[0]);
        }
    } else if a.len() == 0 && b.len() == 0 {
        assert(a =~= b);
    }
}

/// `<=` is `<` or `=`, `>=` is `>` or `=`, and `!=` is `<` or `>`.
pub proof fn operators_agree(left: Seq<char>, right: Seq<char>)
    ensures
        Operator::LessOrEqual.accepts(left, right) == (Operator::Less.accepts(left, right)
            || Operator::Equal.accepts(left, right)),
        Operator::GreaterOrEqual.accepts(left, right) == (Operator::Greater.accepts(left, right)
            || Operator::Equal.accepts(left, right)),
        Operator::NotEqual.accepts(left, right) == (Operator::Less.accepts(left, right)
            || Operator::Greater.accepts(left, right)),
        Operator::NotEqual.accepts(left, right) == !Operator::Equal.accepts(left, right),
{
    order_is_total(left, right);
}

/// The characters that the symbols of the operators are made of.
pub open spec fn is_operator_char(c: char) -> bool {
    c == '<' || c == '>' || c == '=' || c == '!'
}

/// Whether `s` can stand in a filter as a column or as a value and be read
/// back as it is: it is not empty, it is trimmed, and it holds none of the
/// characters of the operators.
pub open spec fn is_plain(s: Seq<char>) -> bool {
    &&& s.len() > 0
    &&& is_trimmed(s)
    &&& forall|i: int| 0 <= i < s.len() ==> !is_operator_char(#[trigger] s[i])
}

/// Between two plain texts, a pattern made of operator characters occurs
/// exactly where it occurs in what stands between them.
proof fn lemma_occurs_between(
    column: Seq<char>,
    sym: Seq<char>,
    value: Seq<char>,
    pat: Seq<char>,
    j: int,
)
    requires
        is_plain(column),
        is_plain(value),
        pat.len() > 0,
        forall|k: int| 0 <= k < pat.len() ==> is_operator_char(#[trigger] pat[k]),
    ensures
        occurs_at(column + sym + value, pat, j) == occurs_at(sym, pat, j - column.len()),
{
    let s = column + sym + value;
    let n = column.len() as int;
    if occurs_at(s, pat, j) {
        let found = s.subrange(j, j + pat.len());
        let last = j + pat.len() - 1;
        assert(found[0] == pat[0] && found[pat.len() - 1] == pat[pat.len() - 1]);
        assert(is_operator_char(s[j]) && is_operator_char(s[last]));
        if j < n {
            assert(s[j] == column[j]);
        }
        if j >= n + sym.len() {
            assert(s[j] == value[j - n - sym.len()]);
        }
        if last < n {
            assert(s[last] == column[last]);
        }
        if last >= n + sym.len() {
            assert(s[last] == value[last - n - sym.len()]);
        }
        assert(sym.subrange(j - n, j - n + pat.len()) =~= found);
    }
    if occurs_at(sym, pat, j - n) {
        assert(s.subrange(j, j + pat.len()) =~= sym.subrange(j - n, j - n + pat.len()));
    }
}

/// Between two plain texts, a pattern made of operator characters is found
/// exactly if it is found in what stands between them, and at the
/// corresponding place.
proof fn lemma_find_between(column: Seq<char>, sym: Seq<char>, value: Seq<char>, pat: Seq<char>)
    requires
        is_plain(column),
        is_plain(value),
        pat.len() > 0,
        forall|k: int| 0 <= k < pat.len() ==> is_operator_char(#[trigger] pat[k]),
    ensures
        find(column + sym + value, pat) == match find(sym, pat) {
            Some(k) => Some(column.len() + k),
            None => None,
        },
{
    let s = column + sym + value;
    let n = column.len() as int;
    lemma_find(s, pat);
    lemma_find(sym, pat);
    assert forall|j: int| occurs_at(s, pat, j) == occurs_at(sym, pat, j - n) by {
        lemma_occurs_between(column, sym, value, pat, j);
    }
    match find(sym, pat) {
        Some(k) => {
            assert(occurs_at(s, pat, n + k));
            assert forall|j: int| 0 <= j < n + k implies !occurs_at(s, pat, j) by {
                assert(!occurs_at(sym, pat, j - n));
            }
        },
        None => {},
    }
}

/// A filter that is written as a plain column, the symbol of an operator
/// and a plain value is read back as that column, operator and value.
pub proof fn written_filter_is_read_back(column: Seq<char>, op: Operator, value: Seq<char>)
    requires
        is_plain(column),
        is_plain(value),
    ensures
        parse_filter(column + op.symbol() + value) == Some(Filter { column, op, value }),
{
    let sym = op.symbol();
    let s = column + sym + value;
    let n = column.len() as int;
    lemma_symbols(op);
    lemma_find_between(column, sym, value, Operator::LessOrEqual.symbol());
    lemma_find_between(column, sym, value, Operator::GreaterOrEqual.symbol());
    lemma_find_between(column, sym, value, Operator::NotEqual.symbol());
    lemma_find_between(column, sym, value, Operator::Equal.symbol());
    lemma_find_between(column, sym, value, Operator::Less.symbol());
    lemma_find_between(column, sym, value, Operator::Greater.symbol());
    assert(operator_of(s) == Some(op));
    assert(find(s, sym) == Some(n));
    assert(s.take(n) =~= column);
    assert(s.skip(n + sym.len()) =~= value);
    assert(find(value, sym) is None) by {
        lemma_find(value, sym);
        if find(value, sym) is Some {
            let j = find(value, sym)->0;
            assert(value.subrange(j, j + sym.len())[0] == sym[0]);
            assert(is_operator_char(value[j]));
        }
    }
    assert(split(value, sym) =~= seq![value]);
    assert(split(s, sym) =~= seq![column] + split(value, sym));
    assert(split(s, sym) =~= seq![column, value]);
    lemma_trim_fixed(column);
    lemma_trim_fixed(value);
}

/// Which symbols are found in the symbol of an operator, and where.
proof fn lemma_symbols(op: Operator)
    ensures
        forall|k: int| 0 <= k < op.symbol().len() ==> is_operator_char(#[trigger] op.symbol()[k]),
        find(op.symbol(), op.symbol()) == Some(0int),
        find(op.symbol(), Operator::LessOrEqual.symbol()) is Some <==> op == Operator::LessOrEqual,
        find(op.symbol(), Operator::GreaterOrEqual.symbol()) is Some <==> op
            == Operator::GreaterOrEqual,
        find(op.symbol(), Operator::NotEqual.symbol()) is Some <==> op == Operator::NotEqual,
        find(op.symbol(), Operator::Equal.symbol()) is Some <==> (op == Operator::LessOrEqual || op
            == Operator::GreaterOrEqual || op == Operator::NotEqual || op == Operator::Equal),
        find(op.symbol(), Operator::Less.symbol()) is Some <==> (op == Operator::LessOrEqual || op
            == Operator::Less),
{
    let sym = op.symbol();
    lemma_find(sym, sym);
    assert(occurs_at(sym, sym, 0)) by {
        assert(sym.subrange(0, sym.len() as int) =~= sym);
    }
    lemma_pair_in_symbol(sym, '<', '=');
    lemma_pair_in_symbol(sym, '>', '=');
    lemma_pair_in_symbol(sym, '!', '=');
    lemma_find_char(sym, '=');
    lemma_find_char(sym, '<');
    match op {
        Operator::LessOrEqual => {
            assert(sym[1] == '=' && sym[0] == '<');
        },
        Operator::GreaterOrEqual => {
            assert(sym[1] == '=' && sym[0] == '>');
            assert(!sym.contains('<'));
        },
        Operator::NotEqual => {
            assert(sym[1] == '=' && sym[0] == '!');
            assert(!sym.contains('<'));
        },
        Operator::Equal => {
            assert(sym[0] == '=');
            assert(!sym.contains('<'));
        },
        Operator::Less => {
            assert(sym[0] == '<');
            assert(!sym.contains('='));
        },
        Operator::Greater => {
            assert(sym[0] == '>');
            assert(!sym.contains('='));
            assert(!sym.contains('<'));
        },
    }
}

/// A pattern of two characters is found in a text of at most two
/// characters only if it is that text.
proof fn lemma_pair_in_symbol(sym: Seq<char>, a: char, b: char)
    requires
        sym.len() <= 2,
    ensures
        find(sym, seq![a, b]) is Some <==> sym == seq![a, b],
{
    let pat = seq![a, b];
    lemma_find(sym, pat);
    if find(sym, pat) is Some {
        let j = find(sym, pat)->0;
        assert(sym.subrange(j, j + 2) =~= sym);
    }
    if sym == pat {
        assert(sym.subrange(0, 2) =~= pat);
        assert(occurs_at(sym, pat, 0));
    }
}

/// A text has no operator exactly if it holds none of the characters `<`,
/// `>` and `=`, and such a text denotes no filter.
pub proof fn text_without_operator_is_no_filter(line: Seq<char>)
    ensures
        operator_of(line) is None <==> !line.contains('<') && !line.contains('>')
            && !line.contains('='),
        operator_of(line) is None ==> parse_filter(line) is None,
{
    lemma_find_char(line, '<');
    lemma_find_char(line, '>');
    lemma_find_char(line, '=');
    lemma_pair_needs_equals_sign(line, '<');
    lemma_pair_needs_equals_sign(line, '>');
    lemma_pair_needs_equals_sign(line, '!');
    assert(Operator::Less.symbol() =~= seq!['<']);
    assert(Operator::Greater.symbol() =~= seq!['>']);
    assert(Operator::Equal.symbol() =~= seq!['=']);
}

/// A symbol of two characters occurs only in a text that holds `=`.
proof fn lemma_pair_needs_equals_sign(s: Seq<char>, a: char)
    ensures
        find(s, seq![a, '=']) is Some ==> s.contains('='),
{
    let pat = seq![a, '='];
    lemma_find(s, pat);
    if find(s, pat) is Some {
        let j = find(s, pat)->0;
        assert(s.subrange(j, j + 2)[1] == pat[1]);
        assert(s[j + 1] == '=');
    }
}

/// A line that denotes no filter changes nothing: the run goes as if the
/// filter block ended before it.
pub proof fn malformed_filter_changes_nothing(
    csv: Seq<char>,
    selected: Seq<char>,
    block: Seq<char>,
    line: Seq<char>,
)
    requires
        !line.contains('\n'),
        parse_filter(line) is None,
    ensures
        valid_filters(block + line_break() + line) == valid_filters(block),
        transform(csv, selected, block + line_break() + line) == transform(csv, selected, block),
{
    lemma_split_append(block, '\n', line);
    let all = split(block, line_break()).push(line);
    assert(all.drop_last() =~= split(block, line_break()));
}

/// A selected column that the header does not name makes the run fail, and
/// the failure names such a column.
pub proof fn unknown_selected_column_fails(
    csv: Seq<char>,
    selected: Seq<char>,
    filter_block: Seq<char>,
    k: int,
)
    requires
        read_table(csv).len() > 0,
        0 <= k < fields(selected).len(),
        !read_table(csv)[0].contains(fields(selected)[k]),
    ensures
        transform(csv, selected, filter_block) matches Err(Failure::HeaderNotFound(name))
            && fields(selected).contains(name) && !read_table(csv)[0].contains(name),
{
    lemma_first_missing(fields(selected), read_table(csv)[0]);
}

} // verus!
