//! Row filters: one comparison of a column with a fixed value, written as
//! `<column><operator><value>`.

use crate::text::{
    contains, find_from, is_less, lemma_find, lemma_split_len, less, line_break, pieces, same_text,
    split, split_bounds, split_slice, to_chars, trim, trim_bounds, views,
};
use vstd::prelude::*;
use vstd::slice::slice_subrange;
use vstd::string::*;

verus! {

/// The six comparisons, in the order in which a filter text is searched for
/// their symbols: the two-character symbols come before the characters they
/// are made of.
#[derive(Clone, Copy, Debug, PartialEq, Eq)]
pub enum Operator {
    LessOrEqual,
    GreaterOrEqual,
    NotEqual,
    Equal,
    Less,
    Greater,
}

impl Operator {
    /// The text that stands for the operator in a filter.
    pub open spec fn symbol(self) -> Seq<char> {
        match self {
            Operator::LessOrEqual => seq!['<', '='],
            Operator::GreaterOrEqual => seq!['>', '='],
            Operator::NotEqual => seq!['!', '='],
            Operator::Equal => seq!['='],
            Operator::Less => seq!['<'],
            Operator::Greater => seq!['>'],
        }
    }

    /// Whether `left <operator> right` holds, in lexicographic order.
    pub open spec fn accepts(self, left: Seq<char>, right: Seq<char>) -> bool {
        match self {
            Operator::LessOrEqual => !less(right, left),
            Operator::GreaterOrEqual => !less(left, right),
            Operator::NotEqual => left != right,
            Operator::Equal => left == right,
            Operator::Less => less(left, right),
            Operator::Greater => less(right, left),
        }
    }

    /// The characters of the operator's symbol.
    pub fn symbol_chars(&self) -> (sym: Vec<char>)
        ensures
            sym@ == self.symbol(),
    {
        let sym = match self {
            Operator::LessOrEqual => vec!['<', '='],
            Operator::GreaterOrEqual => vec!['>', '='],
            Operator::NotEqual => vec!['!', '='],
            Operator::Equal => vec!['='],
            Operator::Less => vec!['<'],
            Operator::Greater => vec!['>'],
        };
        assert(sym@ =~= self.symbol());
        sym
    }

    /// Whether `left <operator> right` holds.
    pub fn test(&self, left: &[char], right: &[char]) -> (r: bool)
        ensures
            r == self.accepts(left@, right@),
    {
        match self {
            Operator::LessOrEqual => !is_less(right, left),
            Operator::GreaterOrEqual => !is_less(left, right),
            Operator::NotEqual => !same_text(left, right),
            Operator::Equal => same_text(left, right),
            Operator::Less => is_less(left, right),
            Operator::Greater => is_less(right, left),
        }
    }
}

/// The operator of a filter text: the first, in the order of `Operator`,
/// whose symbol occurs in it.
pub open spec fn operator_of(s: Seq<char>) -> Option<Operator> {
    if contains(s, Operator::LessOrEqual.symbol()) {
        Some(Operator::LessOrEqual)
    } else if contains(s, Operator::GreaterOrEqual.symbol()) {
        Some(Operator::GreaterOrEqual)
    } else if contains(s, Operator::NotEqual.symbol()) {
        Some(Operator::NotEqual)
    } else if contains(s, Operator::Equal.symbol()) {
        Some(Operator::Equal)
    } else if contains(s, Operator::Less.symbol()) {
        Some(Operator::Less)
    } else if contains(s, Operator::Greater.symbol()) {
        Some(Operator::Greater)
    } else {
        None
    }
}

/// A filter as the rows see it.
pub ghost struct Filter {
    /// The name of the column whose value is compared.
    pub column: Seq<char>,
    pub op: Operator,
    /// The value that the column is compared with.
    pub value: Seq<char>,
}

/// The filter that a text denotes. The text holds the symbol of its operator
/// exactly once; what stands before it, trimmed, is the column, what stands
/// after it, trimmed, the value, and neither is empty. Any other text
/// denotes no filter.
pub open spec fn parse_filter(s: Seq<char>) -> Option<Filter> {
    match operator_of(s) {
        None => None,
        Some(op) => {
            let parts = split(s, op.symbol());
            if parts.len() == 2 && trim(parts[0]).len() > 0 && trim(parts[1]).len() > 0 {
                Some(Filter { column: trim(parts[0]), op, value: trim(parts[1]) })
            } else {
                None
            }
        },
    }
}

/// Whether the symbol of `op` occurs in `s`.
fn holds_symbol(s: &[char], op: Operator) -> (r: bool)
    ensures
        r == contains(s@, op.symbol()),
{
    let sym = op.symbol_chars();
    assert(s@.skip(0) =~= s@);
    find_from(s, sym.as_slice(), 0).is_some()
}

/// The operator of the filter text `s`.
pub fn detect_operator(s: &[char]) -> (r: Option<Operator>)
    ensures
        r == operator_of(s@),
{
    if holds_symbol(s, Operator::LessOrEqual) {
        Some(Operator::LessOrEqual)
    } else if holds_symbol(s, Operator::GreaterOrEqual) {
        Some(Operator::GreaterOrEqual)
    } else if holds_symbol(s, Operator::NotEqual) {
        Some(Operator::NotEqual)
    } else if holds_symbol(s, Operator::Equal) {
        Some(Operator::Equal)
    } else if holds_symbol(s, Operator::Less) {
        Some(Operator::Less)
    } else if holds_symbol(s, Operator::Greater) {
        Some(Operator::Greater)
    } else {
        None
    }
}

/// Where the parts of a filter stand in its text.
pub struct FilterBounds {
    pub column: (usize, usize),
    pub op: Operator,
    pub value: (usize, usize),
}

impl FilterBounds {
    /// Whether both index pairs bound a part of a text of `len` characters.
    pub open spec fn within(self, len: nat) -> bool {
        &&& self.column.0 <= self.column.1 <= len
        &&& self.value.0 <= self.value.1 <= len
    }

    /// The filter that the bounds cut out of `s`.
    pub open spec fn cut(self, s: Seq<char>) -> Filter {
        Filter {
            column: s.subrange(self.column.0 as int, self.column.1 as int),
            op: self.op,
            value: s.subrange(self.value.0 as int, self.value.1 as int),
        }
    }
}

/// Parses the filter text `s` and says where its column and value stand.
pub fn parse_bounds(s: &[char]) -> (r: Option<FilterBounds>)
    ensures
        match r {
            Some(b) => b.within(s@.len()) && parse_filter(s@) == Some(b.cut(s@)),
            None => parse_filter(s@) is None,
        },
{
    let op = match detect_operator(s) {
        Some(op) => op,
        None => { return None; },
    };
    let sym = op.symbol_chars();
    let n = s.len();
    let m = sym.len();
    assert(s@.skip(0) =~= s@);
    let i = match find_from(s, sym.as_slice(), 0) {
        Some(i) => i,
        None => { return None; },
    };
    let ghost rest = s@.skip(i + m);
    proof {
        lemma_find(s@, sym@);
        lemma_find(rest, sym@);
        assert(s@.take(i as int) =~= s@.subrange(0, i as int));
        assert(rest =~= s@.subrange(i + m, n as int));
    }
    proof {
        lemma_split_len(rest, sym@);
        assert(split(s@, sym@) =~= seq![s@.take(i as int)] + split(rest, sym@));
    }
    if find_from(s, sym.as_slice(), i + m).is_some() {
        return None;
    }
    assert(split(s@, sym@) =~= seq![s@.take(i as int), rest]);
    let (a, b) = trim_bounds(s, 0, i);
    let (c, d) = trim_bounds(s, i + m, n);
    if a == b || c == d {
        return None;
    }
    Some(FilterBounds { column: (a, b), op, value: (c, d) })
}

/// The texts among `lines` that denote a filter, in their order.
pub open spec fn valid_lines(lines: Seq<Seq<char>>) -> Seq<Seq<char>>
    decreases lines.len(),
{
    if lines.len() == 0 {
        Seq::empty()
    } else if parse_filter(lines.last()) is Some {
        valid_lines(lines.drop_last()).push(lines.last())
    } else {
        valid_lines(lines.drop_last())
    }
}

/// The filters that the texts among `lines` denote, in their order.
pub open spec fn parsed_lines(lines: Seq<Seq<char>>) -> Seq<Filter>
    decreases lines.len(),
{
    if lines.len() == 0 {
        Seq::empty()
    } else {
        match parse_filter(lines.last()) {
            Some(f) => parsed_lines(lines.drop_last()).push(f),
            None => parsed_lines(lines.drop_last()),
        }
    }
}

/// The filters of a filter block, which holds one filter text on each line.
/// Lines that denote no filter are passed over.
pub open spec fn valid_filters(block: Seq<char>) -> Seq<Filter> {
    parsed_lines(split(block, line_break()))
}

/// A filter whose column and value are parts of the text it was read from.
pub struct ParsedFilter<'a> {
    pub column: &'a [char],
    pub op: Operator,
    pub value: &'a [char],
}

impl<'a> View for ParsedFilter<'a> {
    type V = Filter;

    open spec fn view(&self) -> Filter {
        Filter { column: self.column@, op: self.op, value: self.value@ }
    }
}

/// Splits a filter text into its column and its value, both trimmed.
/// Returns `None` for a text that denotes no filter.
pub fn split_filter<'a>(filter: &'a str) -> (r: Option<Vec<&'a str>>)
    ensures
        match r {
            Some(parts) => parse_filter(filter@) matches Some(f) && views(parts@) == seq![
                f.column,
                f.value,
            ],
            None => parse_filter(filter@) is None,
        },
{
    let chars = to_chars(filter);
    match parse_bounds(chars.as_slice()) {
        None => None,
        Some(b) => {
            let column = filter.substring_char(b.column.0, b.column.1);
            let value = filter.substring_char(b.value.0, b.value.1);
            let parts = vec![column, value];
            assert(views(parts@) =~= seq![column@, value@]);
            Some(parts)
        },
    }
}

/// The lines of a filter block that denote a filter, in their order and as
/// they stand in the block.
pub fn remove_invalid_filters<'a>(filters: &'a str) -> (kept: Vec<&'a str>)
    ensures
        views(kept@) == valid_lines(split(filters@, line_break())),
{
    let chars = to_chars(filters);
    let pat: Vec<char> = vec!['\n'];
    assert(pat@ =~= line_break());
    let ranges = split_bounds(chars.as_slice(), pat.as_slice());
    let ghost all = split(filters@, line_break());
    let mut kept: Vec<&'a str> = Vec::new();
    let mut k: usize = 0;
    while k < ranges.len()
        invariant
            k <= ranges@.len(),
            chars@ == filters@,
            all == pieces(chars@, ranges@),
            forall|j: int|
                0 <= j < ranges@.len() ==> (#[trigger] ranges@[j]).0 <= ranges@[j].1
                    <= chars@.len(),
            views(kept@) == valid_lines(all.take(k as int)),
        decreases ranges@.len() - k,
    {
        let (lo, hi) = ranges[k];
        let line = slice_subrange(chars.as_slice(), lo, hi);
        let ghost before = kept@;
        proof {
            assert(all.take(k + 1).drop_last() =~= all.take(k as int));
            assert(all.take(k + 1).last() == line@);
        }
        if parse_bounds(line).is_some() {
            kept.push(filters.substring_char(lo, hi));
            assert(views(kept@) =~= views(before).push(line@));
        }
        k += 1;
    }
    assert(all.take(ranges@.len() as int) =~= all);
    kept
}

/// The texts among `lines` that are not empty and denote no filter, in
/// their order. These are the lines of a filter block that deserve a
/// diagnostic; an empty line stands for no filter at all.
pub open spec fn rejected_lines(lines: Seq<Seq<char>>) -> Seq<Seq<char>>
    decreases lines.len(),
{
    if lines.len() == 0 {
        Seq::empty()
    } else if lines.last().len() > 0 && parse_filter(lines.last()) is None {
        rejected_lines(lines.drop_last()).push(lines.last())
    } else {
        rejected_lines(lines.drop_last())
    }
}

/// The lines of a filter block that are not empty and denote no filter, in
/// their order and as they stand in the block.
pub fn rejected_filters<'a>(filters: &'a str) -> (rejected: Vec<&'a str>)
    ensures
        views(rejected@) == rejected_lines(split(filters@, line_break())),
{
    let chars = to_chars(filters);
    let pat: Vec<char> = vec!['\n'];
    assert(pat@ =~= line_break());
    let ranges = split_bounds(chars.as_slice(), pat.as_slice());
    let ghost all = split(filters@, line_break());
    let mut rejected: Vec<&'a str> = Vec::new();
    let mut k: usize = 0;
    while k < ranges.len()
        invariant
            k <= ranges@.len(),
            chars@ == filters@,
            all == pieces(chars@, ranges@),
            forall|j: int|
                0 <= j < ranges@.len() ==> (#[trigger] ranges@[j]).0 <= ranges@[j].1
                    <= chars@.len(),
            views(rejected@) == rejected_lines(all.take(k as int)),
        decreases ranges@.len() - k,
    {
        let (lo, hi) = ranges[k];
        let line = slice_subrange(chars.as_slice(), lo, hi);
        let ghost before = rejected@;
        proof {
            assert(all.take(k + 1).drop_last() =~= all.take(k as int));
            assert(all.take(k + 1).last() == line@);
        }
        if lo < hi && parse_bounds(line).is_none() {
            rejected.push(filters.substring_char(lo, hi));
            assert(views(rejected@) =~= views(before).push(line@));
        }
        k += 1;
    }
    assert(all.take(ranges@.len() as int) =~= all);
    rejected
}

/// The filters that the texts among `lines` denote.
pub fn parse_lines<'a>(lines: &[&'a [char]]) -> (filters: Vec<ParsedFilter<'a>>)
    ensures
        views(filters@) == parsed_lines(views(lines@)),
{
    let ghost all = views(lines@);
    let mut filters: Vec<ParsedFilter<'a>> = Vec::new();
    let mut k: usize = 0;
    while k < lines.len()
        invariant
            k <= lines@.len(),
            all == views(lines@),
            views(filters@) == parsed_lines(all.take(k as int)),
        decreases lines@.len() - k,
    {
        let line = lines[k];
        let ghost before = filters@;
        proof {
            assert(all.take(k + 1).drop_last() =~= all.take(k as int));
            assert(all.take(k + 1).last() == line@);
        }
        match parse_bounds(line) {
            Some(b) => {
                let f = ParsedFilter {
                    column: slice_subrange(line, b.column.0, b.column.1),
                    op: b.op,
                    value: slice_subrange(line, b.value.0, b.value.1),
                };
                filters.push(f);
                assert(views(filters@) =~= views(before).push(b.cut(line@)));
            },
            None => {},
        }
        k += 1;
    }
    assert(all.take(lines@.len() as int) =~= all);
    filters
}

/// The filters of a filter block.
pub fn parse_filters<'a>(block: &'a [char]) -> (filters: Vec<ParsedFilter<'a>>)
    ensures
        views(filters@) == valid_filters(block@),
{
    let pat: Vec<char> = vec!['\n'];
    assert(pat@ =~= line_break());
    let lines = split_slice(block, pat.as_slice());
    parse_lines(lines.as_slice())
}

} // verus!
