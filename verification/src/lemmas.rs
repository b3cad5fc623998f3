//! Facts about trimming, splitting and joining that the laws of the engine
//! rest on.

use crate::text::{
    comma, contains, fields, find, is_whitespace, join, lemma_find, lemma_find_first, line_break,
    lines, occurs_at, split, strip_carriage_return, trim, trim_end, trim_start,
};
use vstd::prelude::*;

verus! {

/// Whether `s` neither begins nor ends with whitespace.
pub open spec fn is_trimmed(s: Seq<char>) -> bool {
    s.len() == 0 || (!is_whitespace(s[0]) && !is_whitespace(s[s.len() - 1]))
}

/// A pattern of one character stands where that character stands.
pub proof fn lemma_occurs_char(s: Seq<char>, c: char, i: int)
    ensures
        occurs_at(s, seq![c], i) == (0 <= i < s.len() && s[i] == c),
{
    if 0 <= i < s.len() {
        assert(s.subrange(i, i + 1)[0] == s[i]);
        if s[i] == c {
            assert(s.subrange(i, i + 1) =~= seq![c]);
        }
    }
}

/// A text holds a pattern of one character exactly if it holds the
/// character, and `find` gives the character's first place.
pub proof fn lemma_find_char(s: Seq<char>, c: char)
    ensures
        contains(s, seq![c]) == s.contains(c),
        find(s, seq![c]) matches Some(i) ==> 0 <= i < s.len() && s[i] == c && !s.take(i).contains(
            c,
        ),
{
    lemma_find(s, seq![c]);
    assert forall|j: int| occurs_at(s, seq![c], j) == (0 <= j < s.len() && s[j] == c) by {
        lemma_occurs_char(s, c, j);
    }
    match find(s, seq![c]) {
        Some(i) => {
            assert(s[i] == c);
            if s.take(i).contains(c) {
                let j = choose|j: int| 0 <= j < s.take(i).len() && s.take(i)[j] == c;
                assert(occurs_at(s, seq![c], j));
            }
        },
        None => {
            if s.contains(c) {
                let j = choose|j: int| 0 <= j < s.len() && s[j] == c;
                assert(occurs_at(s, seq![c], j));
            }
        },
    }
}

/// What trimming leaves is a part of the text, and it is trimmed.
pub proof fn lemma_trim_start(s: Seq<char>)
    ensures
        trim_start(s).len() <= s.len(),
        trim_start(s) == s.skip(s.len() - trim_start(s).len()),
        trim_start(s).len() > 0 ==> !is_whitespace(trim_start(s)[0]),
    decreases s.len(),
{
    if s.len() > 0 && is_whitespace(s.first()) {
        let rest = s.drop_first();
        lemma_trim_start(rest);
        assert(rest.skip(rest.len() - trim_start(rest).len()) =~= s.skip(
            s.len() - trim_start(rest).len(),
        ));
    } else {
        assert(s.skip(0) =~= s);
    }
}

/// What trimming leaves is a part of the text, and it is trimmed.
pub proof fn lemma_trim_end(s: Seq<char>)
    ensures
        trim_end(s).len() <= s.len(),
        trim_end(s) == s.take(trim_end(s).len() as int),
        trim_end(s).len() > 0 ==> !is_whitespace(trim_end(s)[trim_end(s).len() - 1]),
    decreases s.len(),
{
    if s.len() > 0 && is_whitespace(s.last()) {
        let rest = s.drop_last();
        lemma_trim_end(rest);
        assert(rest.take(trim_end(rest).len() as int) =~= s.take(trim_end(rest).len() as int));
    } else {
        assert(s.take(s.len() as int) =~= s);
    }
}

/// A trimmed text is trimmed, and holds no character that the text did not
/// hold.
pub proof fn lemma_trim(s: Seq<char>)
    ensures
        is_trimmed(trim(s)),
        forall|c: char| trim(s).contains(c) ==> s.contains(c),
{
    let front = trim_start(s);
    let both = trim_end(front);
    lemma_trim_start(s);
    lemma_trim_end(front);
    if both.len() > 0 {
        assert(both[0] == front[0]);
    }
    assert forall|c: char| both.contains(c) implies s.contains(c) by {
        let j = choose|j: int| 0 <= j < both.len() && both[j] == c;
        assert(front[j] == c);
        assert(s[s.len() - front.len() + j] == c);
    }
}

/// Trimming changes nothing in a trimmed text.
pub proof fn lemma_trim_fixed(s: Seq<char>)
    requires
        is_trimmed(s),
    ensures
        trim(s) == s,
{
}

/// A text without the separator is its own single piece.
pub proof fn lemma_split_plain(s: Seq<char>, c: char)
    requires
        !s.contains(c),
    ensures
        split(s, seq![c]) == seq![s],
{
    lemma_find_char(s, c);
}

/// The pieces of a text hold no separator, and no character that the text
/// does not hold.
pub proof fn lemma_split_pieces(s: Seq<char>, c: char)
    ensures
        split(s, seq![c]).len() >= 1,
        forall|k: int|
            0 <= k < split(s, seq![c]).len() ==> !(#[trigger] split(s, seq![c])[k]).contains(c),
        forall|k: int, x: char|
            0 <= k < split(s, seq![c]).len() && (#[trigger] split(s, seq![c])[k]).contains(x)
                ==> #[trigger] s.contains(x),
    decreases s.len(),
{
    let pat = seq![c];
    lemma_find(s, pat);
    lemma_find_char(s, c);
    match find(s, pat) {
        Some(i) => {
            let head = s.take(i);
            let rest = s.skip(i + 1);
            lemma_split_pieces(rest, c);
            let all = split(s, pat);
            assert(all =~= seq![head] + split(rest, pat));
            assert forall|k: int| 0 <= k < all.len() implies !(#[trigger] all[k]).contains(c) by {
                if k > 0 {
                    assert(all[k] == split(rest, pat)[k - 1]);
                }
            }
            assert forall|k: int, x: char|
                0 <= k < all.len() && (#[trigger] all[k]).contains(x) implies #[trigger] s.contains(
                x,
            ) by {
                if k > 0 {
                    assert(all[k] == split(rest, pat)[k - 1]);
                    assert(rest.contains(x));
                    let j = choose|j: int| 0 <= j < rest.len() && rest[j] == x;
                    assert(s[i + 1 + j] == x);
                } else {
                    let j = choose|j: int| 0 <= j < head.len() && head[j] == x;
                    assert(s[j] == x);
                }
            }
        },
        None => {},
    }
}

/// Behind a separator, a text without one is one more piece.
pub proof fn lemma_split_append(a: Seq<char>, c: char, b: Seq<char>)
    requires
        !b.contains(c),
    ensures
        split(a + seq![c] + b, seq![c]) == split(a, seq![c]).push(b),
    decreases a.len(),
{
    let pat = seq![c];
    let whole = a + pat + b;
    lemma_find(a, pat);
    lemma_find_char(a, c);
    assert forall|j: int| occurs_at(whole, pat, j) == (0 <= j < whole.len() && whole[j] == c) by {
        lemma_occurs_char(whole, c, j);
    }
    assert forall|j: int| occurs_at(a, pat, j) == (0 <= j < a.len() && a[j] == c) by {
        lemma_occurs_char(a, c, j);
    }
    match find(a, pat) {
        Some(i) => {
            assert(whole[i] == a[i]);
            assert forall|j: int| 0 <= j < i implies !occurs_at(whole, pat, j) by {
                assert(whole[j] == a[j]);
            }
            lemma_find_first(whole, pat, i);
            let rest = a.skip(i + 1);
            lemma_split_append(rest, c, b);
            assert(whole.skip(i + 1) =~= rest + pat + b);
            assert(whole.take(i) =~= a.take(i));
            assert(seq![a.take(i)] + split(rest, pat).push(b) =~= (seq![a.take(i)] + split(
                rest,
                pat,
            )).push(b));
        },
        None => {
            assert(whole[a.len() as int] == c);
            assert forall|j: int| 0 <= j < a.len() implies !occurs_at(whole, pat, j) by {
                assert(whole[j] == a[j]);
            }
            lemma_find_first(whole, pat, a.len() as int);
            assert(whole.take(a.len() as int) =~= a);
            assert(whole.skip(a.len() as int + 1) =~= b);
            lemma_split_plain(b, c);
            assert(seq![a] + seq![b] =~= seq![a].push(b));
        },
    }
}

/// Splitting undoes joining, where no part holds the separator.
pub proof fn lemma_split_join(parts: Seq<Seq<char>>, c: char)
    requires
        parts.len() >= 1,
        forall|k: int| 0 <= k < parts.len() ==> !(#[trigger] parts[k]).contains(c),
    ensures
        split(join(parts, seq![c]), seq![c]) == parts,
    decreases parts.len(),
{
    if parts.len() == 1 {
        lemma_split_plain(parts[0], c);
        assert(parts =~= seq![parts[0]]);
    } else {
        let init = parts.drop_last();
        assert forall|k: int| 0 <= k < init.len() implies !(#[trigger] init[k]).contains(c) by {
            assert(init[k] == parts[k]);
        }
        lemma_split_join(init, c);
        lemma_split_append(join(init, seq![c]), c, parts.last());
        assert(init.push(parts.last()) =~= parts);
    }
}

/// A joined text begins with its first part.
pub proof fn lemma_join_first(parts: Seq<Seq<char>>, sep: Seq<char>)
    requires
        parts.len() >= 2,
    ensures
        join(parts, sep) == parts[0] + sep + join(parts.drop_first(), sep),
    decreases parts.len(),
{
    let init = parts.drop_last();
    let tail = parts.drop_first();
    if parts.len() == 2 {
        assert(join(init, sep) == parts[0]);
        assert(join(tail, sep) == parts[1]);
    } else {
        lemma_join_first(init, sep);
        assert(init.drop_first() =~= tail.drop_last());
        assert(join(tail, sep) == join(tail.drop_last(), sep) + sep + tail.last());
        assert(parts[0] + sep + join(init.drop_first(), sep) + sep + parts.last() =~= parts[0]
            + sep + (join(tail.drop_last(), sep) + sep + tail.last()));
    }
}

/// No line holds a line feed.
pub proof fn lemma_lines_pieces(s: Seq<char>)
    ensures
        forall|k: int| 0 <= k < lines(s).len() ==> !(#[trigger] lines(s)[k]).contains('\n'),
    decreases s.len(),
{
    if s.len() > 0 {
        lemma_find(s, line_break());
        lemma_find_char(s, '\n');
        match find(s, line_break()) {
            Some(i) => {
                let rest = s.skip(i + 1);
                let head = strip_carriage_return(s.take(i));
                lemma_lines_pieces(rest);
                let all = lines(s);
                assert(all =~= seq![head] + lines(rest));
                assert forall|k: int| 0 <= k < all.len() implies !(#[trigger] all[k]).contains(
                    '\n',
                ) by {
                    if k > 0 {
                        assert(all[k] == lines(rest)[k - 1]);
                    } else if head.contains('\n') {
                        let j = choose|j: int| 0 <= j < head.len() && head[j] == '\n';
                        assert(s.take(i)[j] == '\n');
                    }
                }
            },
            None => {},
        }
    }
}

/// Reading the lines undoes joining them, where no line holds a line feed
/// or ends with a carriage return, and the last line is not empty.
pub proof fn lemma_lines_join(ls: Seq<Seq<char>>)
    requires
        ls.len() >= 1,
        ls.last().len() > 0,
        forall|k: int| 0 <= k < ls.len() ==> !(#[trigger] ls[k]).contains('\n'),
        forall|k: int|
            0 <= k < ls.len() ==> strip_carriage_return(#[trigger] ls[k]) == ls[k],
    ensures
        lines(join(ls, line_break())) == ls,
    decreases ls.len(),
{
    let pat = line_break();
    if ls.len() == 1 {
        lemma_find_char(ls[0], '\n');
        assert(ls =~= seq![ls[0]]);
    } else {
        let tail = ls.drop_first();
        let whole = join(ls, pat);
        lemma_join_first(ls, pat);
        assert forall|k: int| 0 <= k < tail.len() implies !(#[trigger] tail[k]).contains('\n')
            && strip_carriage_return(tail[k]) == tail[k] by {
            assert(tail[k] == ls[k + 1]);
        }
        lemma_lines_join(tail);
        let a = ls[0];
        let b = join(tail, pat);
        assert(whole == a + pat + b);
        assert forall|j: int| occurs_at(whole, pat, j) == (0 <= j < whole.len() && whole[j]
            == '\n') by {
            lemma_occurs_char(whole, '\n', j);
        }
        assert(whole[a.len() as int] == '\n');
        assert forall|j: int| 0 <= j < a.len() implies !occurs_at(whole, pat, j) by {
            assert(whole[j] == a[j]);
        }
        lemma_find_first(whole, pat, a.len() as int);
        assert(whole.take(a.len() as int) =~= a);
        assert(whole.skip(a.len() as int + 1) =~= b);
        assert(seq![a] + tail =~= ls);
    }
}

/// What a field of a table is: trimmed, and free of commas and line feeds.
pub open spec fn is_field(f: Seq<char>) -> bool {
    is_trimmed(f) && !f.contains(',') && !f.contains('\n')
}

/// What a row of a table is: at least one field.
pub open spec fn is_row(row: Seq<Seq<char>>) -> bool {
    row.len() >= 1 && forall|k: int| 0 <= k < row.len() ==> is_field(#[trigger] row[k])
}

/// The fields of a line are a row.
pub proof fn lemma_fields(line: Seq<char>)
    requires
        !line.contains('\n'),
    ensures
        is_row(fields(line)),
{
    let parts = split(line, comma());
    lemma_split_pieces(line, ',');
    assert forall|k: int| 0 <= k < fields(line).len() implies is_field(
        #[trigger] fields(line)[k],
    ) by {
        lemma_trim(parts[k]);
        assert(!parts[k].contains(','));
        if parts[k].contains('\n') {
            assert(line.contains('\n'));
        }
    }
}

/// A joined text holds only what its parts and the separator hold.
pub proof fn lemma_join_chars(parts: Seq<Seq<char>>, sep: Seq<char>, x: char)
    requires
        !sep.contains(x),
        forall|k: int| 0 <= k < parts.len() ==> !(#[trigger] parts[k]).contains(x),
    ensures
        !join(parts, sep).contains(x),
    decreases parts.len(),
{
    let whole = join(parts, sep);
    if parts.len() == 0 {
    } else if parts.len() == 1 {
    } else {
        let init = parts.drop_last();
        assert forall|k: int| 0 <= k < init.len() implies !(#[trigger] init[k]).contains(x) by {
            assert(init[k] == parts[k]);
        }
        lemma_join_chars(init, sep, x);
        let front = join(init, sep);
        if whole.contains(x) {
            let j = choose|j: int| 0 <= j < whole.len() && whole[j] == x;
            if j < front.len() {
                assert(front[j] == x);
            } else if j < front.len() + sep.len() {
                assert(sep[j - front.len()] == x);
            } else {
                assert(parts.last()[j - front.len() - sep.len()] == x);
            }
        }
    }
}

/// The text of a row holds no line feed and ends with no carriage return,
/// and its fields are the row again.
pub proof fn lemma_row_text(row: Seq<Seq<char>>)
    requires
        is_row(row),
    ensures
        !join(row, comma()).contains('\n'),
        strip_carriage_return(join(row, comma())) == join(row, comma()),
        fields(join(row, comma())) == row,
{
    let text = join(row, comma());
    assert(comma()[0] == ',');
    assert(!comma().contains('\n'));
    lemma_join_chars(row, comma(), '\n');
    lemma_split_join(row, ',');
    assert forall|k: int| 0 <= k < row.len() implies trim(#[trigger] row[k]) == row[k] by {
        lemma_trim_fixed(row[k]);
    }
    assert(fields(text) =~= row);
    if text.len() > 0 && text.last() == '\r' {
        let last = row.last();
        assert(is_field(last));
        if row.len() == 1 {
            assert(text == last);
        } else {
            if last.len() > 0 {
                assert(text.last() == last[last.len() - 1]);
            } else {
                assert(text.last() == ',');
            }
        }
    }
}

} // verus!
