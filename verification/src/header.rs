//! The header row: finding a column by its name, and choosing the columns
//! that are put out.

use crate::text::{same_text, views};
use vstd::prelude::*;

verus! {

/// The position of the column called `name`: the first one, where several
/// columns share the name.
pub open spec fn column_index(headers: Seq<Seq<char>>, name: Seq<char>) -> Option<int> {
    headers.index_of_first(name)
}

/// The first of `names` that no column is called, if there is one.
pub open spec fn first_missing(names: Seq<Seq<char>>, headers: Seq<Seq<char>>) -> Option<
    Seq<char>,
>
    decreases names.len(),
{
    if names.len() == 0 {
        None
    } else if !headers.contains(names[0]) {
        Some(names[0])
    } else {
        first_missing(names.drop_first(), headers)
    }
}

/// The columns that are put out, as positions in the header. They follow the
/// header, whatever the order of `wanted`: every position whose name is
/// wanted contributes the position that its name resolves to.
pub open spec fn projection(headers: Seq<Seq<char>>, wanted: Seq<Seq<char>>) -> Seq<int>
    decreases headers.len(),
{
    if headers.len() == 0 {
        Seq::empty()
    } else if wanted.contains(headers.last()) {
        projection(headers.drop_last(), wanted).push(column_index(headers, headers.last())->0)
    } else {
        projection(headers.drop_last(), wanted)
    }
}

/// The fields of `row` in the columns `cols`.
pub open spec fn project(row: Seq<Seq<char>>, cols: Seq<int>) -> Seq<Seq<char>> {
    Seq::new(cols.len(), |k: int| row[cols[k]])
}

/// Positions as mathematical integers.
pub open spec fn positions(cols: Seq<usize>) -> Seq<int> {
    Seq::new(cols.len(), |k: int| cols[k] as int)
}

/// The position of the column called `name`.
pub fn find_column(headers: &[&[char]], name: &[char]) -> (r: Option<usize>)
    ensures
        match r {
            Some(i) => i < headers@.len() && column_index(views(headers@), name@) == Some(
                i as int,
            ),
            None => column_index(views(headers@), name@) is None,
        },
{
    let ghost names = views(headers@);
    let mut i: usize = 0;
    while i < headers.len()
        invariant
            i <= headers@.len(),
            names == views(headers@),
            forall|j: int| 0 <= j < i ==> names[j] != name@,
        decreases headers@.len() - i,
    {
        if same_text(headers[i], name) {
            proof {
                assert(names[i as int] == name@);
                names.index_of_first_ensures(name@);
            }
            return Some(i);
        }
        i += 1;
    }
    proof {
        names.index_of_first_ensures(name@);
    }
    None
}

/// A name resolves within a prefix of the header to the position it
/// resolves to in the whole header, once the prefix holds it.
pub proof fn lemma_column_index_prefix(headers: Seq<Seq<char>>, n: int, name: Seq<char>)
    requires
        0 <= n <= headers.len(),
        headers.take(n).contains(name),
    ensures
        column_index(headers.take(n), name) == column_index(headers, name),
{
    let prefix = headers.take(n);
    prefix.index_of_first_ensures(name);
    headers.index_of_first_ensures(name);
    let i = prefix.index_of_first(name)->0;
    assert(headers[i] == prefix[i]);
    let j = headers.index_of_first(name)->0;
    if j < i {
        assert(prefix[j] == headers[j]);
    }
}

/// `first_missing` finds nothing exactly if the header names every one of
/// `names`; what it finds is one of `names` that the header does not name.
pub proof fn lemma_first_missing(names: Seq<Seq<char>>, headers: Seq<Seq<char>>)
    ensures
        first_missing(names, headers) is None <==> forall|k: int|
            0 <= k < names.len() ==> headers.contains(#[trigger] names[k]),
        first_missing(names, headers) matches Some(name) ==> names.contains(name)
            && !headers.contains(name),
    decreases names.len(),
{
    if names.len() > 0 {
        let rest = names.drop_first();
        lemma_first_missing(rest, headers);
        if headers.contains(names[0]) {
            if first_missing(rest, headers) is None {
                assert forall|k: int| 0 <= k < names.len() implies headers.contains(
                    #[trigger] names[k],
                ) by {
                    if k > 0 {
                        assert(names[k] == rest[k - 1]);
                    }
                }
            } else {
                let name = first_missing(rest, headers)->0;
                let j = choose|j: int| 0 <= j < rest.len() && rest[j] == name;
                assert(names[j + 1] == name);
            }
        } else {
            assert(names[0] == names[0]);
        }
    }
}

/// What the projection holds: positions of the header, each the one that
/// its name resolves to, each of a wanted name; and every wanted name of
/// the header is among them.
pub proof fn lemma_projection(headers: Seq<Seq<char>>, wanted: Seq<Seq<char>>)
    ensures
        forall|k: int|
            0 <= k < projection(headers, wanted).len() ==> {
                let c = #[trigger] projection(headers, wanted)[k];
                &&& 0 <= c < headers.len()
                &&& column_index(headers, headers[c]) == Some(c)
                &&& wanted.contains(headers[c])
            },
        forall|name: Seq<char>|
            wanted.contains(name) && #[trigger] headers.contains(name) ==> exists|k: int|
                0 <= k < projection(headers, wanted).len() && headers[#[trigger] projection(
                    headers,
                    wanted,
                )[k]] == name,
    decreases headers.len(),
{
    if headers.len() > 0 {
        let init = headers.drop_last();
        let cols = projection(headers, wanted);
        let before = projection(init, wanted);
        let n = headers.len() - 1;
        assert(init =~= headers.take(n));
        lemma_projection(init, wanted);
        headers.index_of_first_ensures(headers.last());
        assert(headers.contains(headers.last())) by {
            assert(headers[n] == headers.last());
        }
        assert forall|k: int| 0 <= k < cols.len() implies ({
            let c = #[trigger] cols[k];
            &&& 0 <= c < headers.len()
            &&& column_index(headers, headers[c]) == Some(c)
            &&& wanted.contains(headers[c])
        }) by {
            if k < before.len() {
                let c = before[k];
                assert(cols[k] == c);
                assert(init[c] == headers[c]);
                assert(init.contains(init[c]));
                lemma_column_index_prefix(headers, n, init[c]);
            }
        }
        assert forall|name: Seq<char>|
            wanted.contains(name) && #[trigger] headers.contains(name) implies exists|k: int|
            0 <= k < cols.len() && headers[#[trigger] cols[k]] == name by {
            if init.contains(name) {
                let k = choose|k: int| 0 <= k < before.len() && init[#[trigger] before[k]] == name;
                assert(cols[k] == before[k]);
                assert(init[before[k]] == headers[before[k]]);
            } else {
                let j = choose|j: int| 0 <= j < headers.len() && headers[j] == name;
                if j < n {
                    assert(init[j] == name);
                }
                assert(headers.last() == name);
                let k = cols.len() - 1;
                assert(cols[k] == column_index(headers, name)->0);
            }
        }
    }
}

/// The first of `names` that no column is called: its place in `names`.
pub fn find_missing(names: &[&[char]], headers: &[&[char]]) -> (r: Option<usize>)
    ensures
        match r {
            Some(k) => k < names@.len() && first_missing(views(names@), views(headers@))
                == Some(names@[k as int]@),
            None => first_missing(views(names@), views(headers@)) is None,
        },
{
    let ghost all = views(names@);
    let ghost heads = views(headers@);
    let mut k: usize = 0;
    assert(all.skip(0) =~= all);
    while k < names.len()
        invariant
            k <= names@.len(),
            all == views(names@),
            heads == views(headers@),
            first_missing(all, heads) == first_missing(all.skip(k as int), heads),
        decreases names@.len() - k,
    {
        let found = find_column(headers, names[k]);
        proof {
            heads.index_of_first_ensures(all[k as int]);
            assert(all.skip(k as int)[0] == all[k as int]);
            assert(all.skip(k as int).drop_first() =~= all.skip(k + 1));
        }
        if found.is_none() {
            return Some(k);
        }
        k += 1;
    }
    None
}

/// The columns that are put out when the columns called `wanted` are
/// selected, in the order of the header.
pub fn project_columns(headers: &[&[char]], wanted: &[&[char]]) -> (cols: Vec<usize>)
    ensures
        positions(cols@) == projection(views(headers@), views(wanted@)),
        forall|k: int| 0 <= k < cols@.len() ==> #[trigger] cols@[k] < headers@.len(),
{
    let ghost heads = views(headers@);
    let ghost names = views(wanted@);
    let mut cols: Vec<usize> = Vec::new();
    let mut p: usize = 0;
    while p < headers.len()
        invariant
            p <= headers@.len(),
            heads == views(headers@),
            names == views(wanted@),
            positions(cols@) == projection(heads.take(p as int), names),
            forall|k: int| 0 <= k < cols@.len() ==> #[trigger] cols@[k] < headers@.len(),
        decreases headers@.len() - p,
    {
        let ghost before = cols@;
        let ghost prefix = heads.take(p + 1);
        proof {
            assert(prefix.drop_last() =~= heads.take(p as int));
            assert(prefix.last() == heads[p as int]);
            names.index_of_first_ensures(heads[p as int]);
        }
        if find_column(wanted, headers[p]).is_some() {
            proof {
                assert(prefix[p as int] == heads[p as int]);
                lemma_column_index_prefix(heads, p + 1, heads[p as int]);
            }
            match find_column(headers, headers[p]) {
                Some(c) => {
                    cols.push(c);
                    assert(positions(cols@) =~= positions(before).push(c as int));
                },
                None => {
                    proof {
                        heads.index_of_first_ensures(heads[p as int]);
                        assert(heads.contains(heads[p as int]));
                    }
                },
            }
        }
        p += 1;
    }
    assert(heads.take(headers@.len() as int) =~= heads);
    cols
}

} // verus!
