//! Judging one row: filters on the same column are alternatives, and the
//! columns that have filters must all be satisfied.

use crate::error::{outcome, CsvError, Failure};
use crate::filter::{parse_lines, parsed_lines, Filter, Operator, ParsedFilter};
use crate::header::{column_index, find_column, first_missing, positions};
use crate::text::{from_chars, to_chars, views};
use vstd::prelude::*;

verus! {

/// The columns that the filters name, filter by filter.
pub open spec fn columns(filters: Seq<Filter>) -> Seq<Seq<char>> {
    Seq::new(filters.len(), |k: int| filters[k].column)
}

/// The positions that the columns of the filters resolve to, filter by
/// filter.
pub open spec fn filter_positions(filters: Seq<Filter>, headers: Seq<Seq<char>>) -> Seq<int> {
    Seq::new(filters.len(), |k: int| column_index(headers, filters[k].column)->0)
}

/// Whether the row satisfies the one filter `f`.
pub open spec fn holds(f: Filter, row: Seq<Seq<char>>, headers: Seq<Seq<char>>) -> bool {
    f.op.accepts(row[column_index(headers, f.column)->0], f.value)
}

/// Whether the row satisfies the filters on `column`: at least one of them
/// holds.
pub open spec fn group_passes(
    filters: Seq<Filter>,
    column: Seq<char>,
    row: Seq<Seq<char>>,
    headers: Seq<Seq<char>>,
) -> bool {
    exists|j: int|
        0 <= j < filters.len() && (#[trigger] filters[j]).column == column && holds(
            filters[j],
            row,
            headers,
        )
}

/// Whether the row satisfies the filters: the filters on each column that
/// has any are satisfied. Without filters every row does.
pub open spec fn row_passes(
    filters: Seq<Filter>,
    row: Seq<Seq<char>>,
    headers: Seq<Seq<char>>,
) -> bool {
    forall|i: int|
        0 <= i < filters.len() ==> group_passes(
            filters,
            (#[trigger] filters[i]).column,
            row,
            headers,
        )
}

/// The first of `cols` that is no position in a row of `len` fields.
pub open spec fn first_beyond(cols: Seq<int>, len: int) -> Option<int>
    decreases cols.len(),
{
    if cols.len() == 0 {
        None
    } else if cols[0] >= len {
        Some(cols[0])
    } else {
        first_beyond(cols.drop_first(), len)
    }
}

/// What becomes of a row when the columns `cols` are put out. The row fails
/// if it has no field in the column of some filter; the first such filter
/// names the column. Otherwise it is dropped (`Ok(false)`) if it does not
/// satisfy the filters. Otherwise it fails if it has no field in one of the
/// columns `cols`, the first of which names the column, and is kept
/// (`Ok(true)`) if it has them all.
pub open spec fn row_result(
    filters: Seq<Filter>,
    headers: Seq<Seq<char>>,
    cols: Seq<int>,
    row: Seq<Seq<char>>,
) -> Result<bool, Failure> {
    match first_beyond(filter_positions(filters, headers), row.len() as int) {
        Some(c) => Err(Failure::FieldNotFound(headers[c])),
        None => if !row_passes(filters, row, headers) {
            Ok(false)
        } else {
            match first_beyond(cols, row.len() as int) {
                Some(c) => Err(Failure::FieldNotFound(headers[c])),
                None => Ok(true),
            }
        },
    }
}

/// Whether a row satisfies the filters. This fails if the column of a
/// filter is not in the header (the first such filter names it), or else if
/// the row has no field in the column of a filter.
pub open spec fn evaluate(
    filters: Seq<Filter>,
    row: Seq<Seq<char>>,
    headers: Seq<Seq<char>>,
) -> Result<bool, Failure> {
    match first_missing(columns(filters), headers) {
        Some(name) => Err(Failure::HeaderNotFound(name)),
        None => row_result(filters, headers, Seq::empty(), row),
    }
}

/// A filter whose column has been found in a header.
pub struct ResolvedFilter<'a> {
    /// The position of the column.
    pub index: usize,
    pub op: Operator,
    pub value: &'a [char],
}

/// A resolved filter as the rows see it.
pub ghost struct Resolved {
    pub index: int,
    pub op: Operator,
    pub value: Seq<char>,
}

impl<'a> View for ResolvedFilter<'a> {
    type V = Resolved;

    open spec fn view(&self) -> Resolved {
        Resolved { index: self.index as int, op: self.op, value: self.value@ }
    }
}

/// Whether `resolved` holds the filters `filters`, each with the position
/// of its column in `headers`.
pub open spec fn resolves(
    resolved: Seq<Resolved>,
    filters: Seq<Filter>,
    headers: Seq<Seq<char>>,
) -> bool {
    &&& resolved.len() == filters.len()
    &&& forall|k: int|
        0 <= k < filters.len() ==> {
            &&& column_index(headers, (#[trigger] filters[k]).column) == Some(resolved[k].index)
            &&& resolved[k].op == filters[k].op
            &&& resolved[k].value == filters[k].value
        }
}

/// Whether one of the filters on the column at `index` holds of the row.
pub open spec fn position_passes(resolved: Seq<Resolved>, index: int, row: Seq<Seq<char>>) -> bool {
    exists|j: int|
        0 <= j < resolved.len() && (#[trigger] resolved[j]).index == index && resolved[j].op.accepts(
            row[resolved[j].index],
            resolved[j].value,
        )
}

/// On resolved filters, columns are told apart by their positions.
pub proof fn lemma_resolved_groups(
    resolved: Seq<Resolved>,
    filters: Seq<Filter>,
    headers: Seq<Seq<char>>,
    row: Seq<Seq<char>>,
    i: int,
)
    requires
        resolves(resolved, filters, headers),
        0 <= i < filters.len(),
    ensures
        position_passes(resolved, resolved[i].index, row) == group_passes(
            filters,
            filters[i].column,
            row,
            headers,
        ),
{
    headers.index_of_first_ensures(filters[i].column);
    if position_passes(resolved, resolved[i].index, row) {
        let j = choose|j: int|
            0 <= j < resolved.len() && (#[trigger] resolved[j]).index == resolved[i].index
                && resolved[j].op.accepts(row[resolved[j].index], resolved[j].value);
        headers.index_of_first_ensures(filters[j].column);
        assert(filters[j].column == filters[i].column);
        assert(holds(filters[j], row, headers));
    }
    if group_passes(filters, filters[i].column, row, headers) {
        let j = choose|j: int|
            0 <= j < filters.len() && (#[trigger] filters[j]).column == filters[i].column && holds(
                filters[j],
                row,
                headers,
            );
        assert(resolved[j].index == resolved[i].index);
        assert(resolved[j].op.accepts(row[resolved[j].index], resolved[j].value));
    }
}

/// Finds the column of every filter in the header. This fails at the first
/// filter whose column the header does not name.
pub fn resolve_filters<'a>(filters: &[ParsedFilter<'a>], headers: &[&[char]]) -> (r: Result<
    Vec<ResolvedFilter<'a>>,
    CsvError,
>)
    ensures
        match r {
            Ok(resolved) => first_missing(columns(views(filters@)), views(headers@)) is None
                && resolves(views(resolved@), views(filters@), views(headers@)) && forall|k: int|
                0 <= k < resolved@.len() ==> (#[trigger] resolved@[k]).index < headers@.len(),
            Err(e) => first_missing(columns(views(filters@)), views(headers@)) matches Some(name)
                && e@ == Failure::HeaderNotFound(name),
        },
{
    let ghost all = views(filters@);
    let ghost names = columns(all);
    let ghost heads = views(headers@);
    let mut resolved: Vec<ResolvedFilter<'a>> = Vec::new();
    let mut k: usize = 0;
    assert(names.skip(0) =~= names);
    while k < filters.len()
        invariant
            k <= filters@.len(),
            all == views(filters@),
            names == columns(all),
            heads == views(headers@),
            first_missing(names, heads) == first_missing(names.skip(k as int), heads),
            resolved@.len() == k,
            forall|j: int| 0 <= j < k ==> (#[trigger] resolved@[j]).index < headers@.len(),
            forall|j: int|
                0 <= j < k ==> {
                    &&& column_index(heads, (#[trigger] all[j]).column) == Some(
                        resolved@[j].index as int,
                    )
                    &&& resolved@[j].op == all[j].op
                    &&& resolved@[j].value@ == all[j].value
                },
        decreases filters@.len() - k,
    {
        proof {
            heads.index_of_first_ensures(names[k as int]);
            assert(names.skip(k as int)[0] == names[k as int]);
            assert(names.skip(k as int).drop_first() =~= names.skip(k + 1));
        }
        match find_column(headers, filters[k].column) {
            Some(index) => {
                resolved.push(
                    ResolvedFilter { index, op: filters[k].op, value: filters[k].value },
                );
            },
            None => {
                return Err(CsvError::HeaderNotFound(from_chars(filters[k].column)));
            },
        }
        k += 1;
    }
    Ok(resolved)
}

/// The positions that the filters read, filter by filter.
pub open spec fn read_positions(resolved: Seq<Resolved>) -> Seq<int> {
    Seq::new(resolved.len(), |j: int| resolved[j].index)
}

/// The position that the first filter reads whose column is no position in
/// a row of `len` fields.
pub fn find_unreadable(resolved: &[ResolvedFilter<'_>], len: usize) -> (r: Option<usize>)
    ensures
        match r {
            Some(c) => first_beyond(read_positions(views(resolved@)), len as int) == Some(
                c as int,
            ),
            None => first_beyond(read_positions(views(resolved@)), len as int) is None
                && forall|j: int| 0 <= j < resolved@.len() ==> (#[trigger] resolved@[j]).index < len,
        },
{
    let ghost all = read_positions(views(resolved@));
    let mut k: usize = 0;
    assert(all.skip(0) =~= all);
    while k < resolved.len()
        invariant
            k <= resolved@.len(),
            all == read_positions(views(resolved@)),
            first_beyond(all, len as int) == first_beyond(all.skip(k as int), len as int),
            forall|j: int| 0 <= j < k ==> (#[trigger] resolved@[j]).index < len,
        decreases resolved@.len() - k,
    {
        proof {
            assert(all.skip(k as int)[0] == all[k as int]);
            assert(all.skip(k as int).drop_first() =~= all.skip(k + 1));
        }
        if resolved[k].index >= len {
            return Some(resolved[k].index);
        }
        k += 1;
    }
    None
}

/// The first of `cols` that is no position in a row of `len` fields.
pub fn find_beyond(cols: &[usize], len: usize) -> (r: Option<usize>)
    ensures
        match r {
            Some(c) => first_beyond(positions(cols@), len as int) == Some(c as int),
            None => first_beyond(positions(cols@), len as int) is None && forall|j: int|
                0 <= j < cols@.len() ==> #[trigger] cols@[j] < len,
        },
{
    let ghost all = positions(cols@);
    let mut k: usize = 0;
    assert(all.skip(0) =~= all);
    while k < cols.len()
        invariant
            k <= cols@.len(),
            all == positions(cols@),
            first_beyond(all, len as int) == first_beyond(all.skip(k as int), len as int),
            forall|j: int| 0 <= j < k ==> #[trigger] cols@[j] < len,
        decreases cols@.len() - k,
    {
        proof {
            assert(all.skip(k as int)[0] == all[k as int]);
            assert(all.skip(k as int).drop_first() =~= all.skip(k + 1));
        }
        if cols[k] >= len {
            return Some(cols[k]);
        }
        k += 1;
    }
    None
}

/// Whether the row satisfies the resolved filters.
fn passes(resolved: &[ResolvedFilter<'_>], row: &[&[char]]) -> (r: bool)
    requires
        forall|j: int| 0 <= j < resolved@.len() ==> (#[trigger] resolved@[j]).index < row@.len(),
    ensures
        r == passes_all(views(resolved@), views(row@)),
{
    let ghost rs = views(resolved@);
    let ghost fields = views(row@);
    let mut i: usize = 0;
    while i < resolved.len()
        invariant
            i <= resolved@.len(),
            rs == views(resolved@),
            fields == views(row@),
            forall|j: int|
                0 <= j < resolved@.len() ==> (#[trigger] resolved@[j]).index < row@.len(),
            forall|a: int| 0 <= a < i ==> position_passes(rs, (#[trigger] rs[a]).index, fields),
        decreases resolved@.len() - i,
    {
        let target = resolved[i].index;
        let mut found = false;
        let mut j: usize = 0;
        while j < resolved.len() && !found
            invariant
                j <= resolved@.len(),
                rs == views(resolved@),
                fields == views(row@),
                forall|b: int|
                    0 <= b < resolved@.len() ==> (#[trigger] resolved@[b]).index < row@.len(),
                found ==> position_passes(rs, target as int, fields),
                !found ==> forall|b: int|
                    0 <= b < j ==> !((#[trigger] rs[b]).index == target && rs[b].op.accepts(
                        fields[rs[b].index],
                        rs[b].value,
                    )),
            decreases resolved@.len() - j + if found { 0int } else { 1int },
        {
            let f = &resolved[j];
            assert(resolved@[j as int].index < row@.len());
            if f.index == target && f.op.test(row[f.index], f.value) {
                assert(rs[j as int].index == target && rs[j as int].op.accepts(
                    fields[rs[j as int].index],
                    rs[j as int].value,
                ));
                found = true;
            } else {
                j += 1;
            }
        }
        if !found {
            assert(!position_passes(rs, rs[i as int].index, fields));
            return false;
        }
        i += 1;
    }
    true
}

/// What `first_beyond` finds is one of the positions.
pub proof fn lemma_first_beyond_member(cols: Seq<int>, len: int)
    ensures
        first_beyond(cols, len) matches Some(c) ==> exists|k: int|
            0 <= k < cols.len() && cols[k] == c,
    decreases cols.len(),
{
    if cols.len() > 0 {
        if cols[0] >= len {
            assert(cols[0] == cols[0]);
        } else {
            let rest = cols.drop_first();
            lemma_first_beyond_member(rest, len);
            if first_beyond(rest, len) is Some {
                let k = choose|k: int| 0 <= k < rest.len() && rest[k] == first_beyond(rest, len)->0;
                assert(cols[k + 1] == rest[k]);
            }
        }
    }
}

/// `first_beyond` finds nothing exactly if every position is one of the
/// row.
pub proof fn lemma_first_beyond(cols: Seq<int>, len: int)
    ensures
        first_beyond(cols, len) is None <==> forall|k: int|
            0 <= k < cols.len() ==> cols[k] < len,
    decreases cols.len(),
{
    if cols.len() > 0 {
        let rest = cols.drop_first();
        lemma_first_beyond(rest, len);
        if first_beyond(cols, len) is None {
            assert forall|k: int| 0 <= k < cols.len() implies cols[k] < len by {
                if k > 0 {
                    assert(cols[k] == rest[k - 1]);
                }
            }
        }
        if forall|k: int| 0 <= k < cols.len() ==> cols[k] < len {
            assert forall|k: int| 0 <= k < rest.len() implies rest[k] < len by {
                assert(rest[k] == cols[k + 1]);
            }
        }
    }
}

/// Whether the row satisfies the resolved filters: for every filter, one of
/// the filters on the same column holds.
pub open spec fn passes_all(resolved: Seq<Resolved>, row: Seq<Seq<char>>) -> bool {
    forall|i: int|
        0 <= i < resolved.len() ==> position_passes(resolved, (#[trigger] resolved[i]).index, row)
}

/// What becomes of a row under resolved filters when the columns `cols` are
/// put out: `row_result` in terms of positions. A failure gives the
/// position of the column in which the row has no field.
pub open spec fn row_verdict(resolved: Seq<Resolved>, cols: Seq<int>, row: Seq<Seq<char>>) -> Result<
    bool,
    int,
> {
    match first_beyond(read_positions(resolved), row.len() as int) {
        Some(c) => Err(c),
        None => if !passes_all(resolved, row) {
            Ok(false)
        } else {
            match first_beyond(cols, row.len() as int) {
                Some(c) => Err(c),
                None => Ok(true),
            }
        },
    }
}

/// The verdict on resolved filters is the result on the filters that they
/// resolve: the same answer, or the failure that names the column at the
/// position of the verdict.
pub proof fn lemma_row_verdict(
    resolved: Seq<Resolved>,
    filters: Seq<Filter>,
    headers: Seq<Seq<char>>,
    cols: Seq<int>,
    row: Seq<Seq<char>>,
)
    requires
        resolves(resolved, filters, headers),
    ensures
        row_result(filters, headers, cols, row) == match row_verdict(resolved, cols, row) {
            Ok(keep) => Ok::<bool, Failure>(keep),
            Err(c) => Err(Failure::FieldNotFound(headers[c])),
        },
{
    assert(filter_positions(filters, headers) =~= read_positions(resolved));
    assert forall|i: int| 0 <= i < filters.len() implies position_passes(
        resolved,
        resolved[i].index,
        row,
    ) == group_passes(filters, (#[trigger] filters[i]).column, row, headers) by {
        lemma_resolved_groups(resolved, filters, headers, row, i);
    }
    if passes_all(resolved, row) {
        assert forall|i: int| 0 <= i < filters.len() implies group_passes(
            filters,
            (#[trigger] filters[i]).column,
            row,
            headers,
        ) by {
            assert(position_passes(resolved, resolved[i].index, row));
        }
    } else {
        let i = choose|i: int|
            0 <= i < resolved.len() && !position_passes(
                resolved,
                (#[trigger] resolved[i]).index,
                row,
            );
        assert(!group_passes(filters, filters[i].column, row, headers));
    }
}

/// Judges a row: whether it is kept when the columns `cols` are put out.
/// An error gives the position of the column in which the row has no field.
pub fn judge_row(resolved: &[ResolvedFilter<'_>], cols: &[usize], row: &[&[char]]) -> (r: Result<
    bool,
    usize,
>)
    ensures
        match r {
            Ok(keep) => row_verdict(views(resolved@), positions(cols@), views(row@)) == Ok::<
                bool,
                int,
            >(keep),
            Err(c) => row_verdict(views(resolved@), positions(cols@), views(row@)) == Err::<
                bool,
                int,
            >(c as int),
        },
{
    match find_unreadable(resolved, row.len()) {
        Some(c) => {
            return Err(c);
        },
        None => {},
    }
    if !passes(resolved, row) {
        return Ok(false);
    }
    match find_beyond(cols, row.len()) {
        Some(c) => Err(c),
        None => Ok(true),
    }
}

/// The characters of each text of `items`.
pub fn chars_of_each(items: &[&str]) -> (out: Vec<Vec<char>>)
    ensures
        views(out@) == views(items@),
{
    let mut out: Vec<Vec<char>> = Vec::new();
    let mut k: usize = 0;
    while k < items.len()
        invariant
            k <= items@.len(),
            out@.len() == k,
            forall|j: int| 0 <= j < k ==> (#[trigger] out@[j])@ == items@[j]@,
        decreases items@.len() - k,
    {
        out.push(to_chars(items[k]));
        k += 1;
    }
    assert(views(out@) =~= views(items@));
    out
}

/// The texts of `items`, borrowed.
pub fn borrow_each<'a>(items: &'a Vec<Vec<char>>) -> (out: Vec<&'a [char]>)
    ensures
        views(out@) == views(items@),
{
    let mut out: Vec<&'a [char]> = Vec::new();
    let mut k: usize = 0;
    while k < items.len()
        invariant
            k <= items@.len(),
            out@.len() == k,
            forall|j: int| 0 <= j < k ==> (#[trigger] out@[j])@ == items@[j]@,
        decreases items@.len() - k,
    {
        out.push(items[k].as_slice());
        k += 1;
    }
    assert(views(out@) =~= views(items@));
    out
}

/// Whether the row `record` satisfies the filters. The fields of the row
/// stand in the order of `headers`, and a column is looked up in `headers`
/// by its name. Texts among `filters` that denote no filter are passed
/// over. Filters on the same column are alternatives; the columns that have
/// filters must all be satisfied.
///
/// This fails with `HeaderNotFound` if the column of a filter is not among
/// `headers`, and else with `FieldNotFound` if the row has no field in the
/// column of a filter; the first such filter names the column.
pub fn apply_filters(record: &[&str], filters: &[&str], headers: &[&str]) -> (r: Result<
    bool,
    CsvError,
>)
    ensures
        outcome(r) == evaluate(
            parsed_lines(views(filters@)),
            views(record@),
            views(headers@),
        ),
{
    let header_chars = chars_of_each(headers);
    let heads = borrow_each(&header_chars);
    let record_chars = chars_of_each(record);
    let row = borrow_each(&record_chars);
    let filter_chars = chars_of_each(filters);
    let lines = borrow_each(&filter_chars);
    let parsed = parse_lines(lines.as_slice());
    let resolved = match resolve_filters(parsed.as_slice(), heads.as_slice()) {
        Ok(resolved) => resolved,
        Err(e) => { return Err(e); },
    };
    let none: Vec<usize> = Vec::new();
    assert(positions(none@) =~= Seq::<int>::empty());
    proof {
        lemma_row_verdict(
            views(resolved@),
            views(parsed@),
            views(heads@),
            positions(none@),
            views(row@),
        );
    }
    match judge_row(resolved.as_slice(), none.as_slice(), row.as_slice()) {
        Ok(keep) => Ok(keep),
        Err(c) => {
            proof {
                lemma_first_beyond_member(read_positions(views(resolved@)), row@.len() as int);
            }
            Err(CsvError::FieldNotFound(from_chars(heads[c])))
        },
    }
}

} // verus!
