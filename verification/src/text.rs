//! Character-sequence primitives: whitespace, trimming, searching, splitting,
//! joining and lexicographic order, each as a spec function over `Seq<char>`
//! and as executable code over `&[char]`.

use vstd::prelude::*;
use vstd::slice::slice_subrange;
use vstd::string::*;

verus! {

/// The characters with the Unicode property `White_Space`.
pub open spec fn is_whitespace(c: char) -> bool {
    let u = c as u32;
    ||| 0x09 <= u <= 0x0D
    ||| u == 0x20
    ||| u == 0x85
    ||| u == 0xA0
    ||| u == 0x1680
    ||| 0x2000 <= u <= 0x200A
    ||| u == 0x2028
    ||| u == 0x2029
    ||| u == 0x202F
    ||| u == 0x205F
    ||| u == 0x3000
}

/// `s` without its leading whitespace.
pub open spec fn trim_start(s: Seq<char>) -> Seq<char>
    decreases s.len(),
{
    if s.len() > 0 && is_whitespace(s.first()) {
        trim_start(s.drop_first())
    } else {
        s
    }
}

/// `s` without its trailing whitespace.
pub open spec fn trim_end(s: Seq<char>) -> Seq<char>
    decreases s.len(),
{
    if s.len() > 0 && is_whitespace(s.last()) {
        trim_end(s.drop_last())
    } else {
        s
    }
}

/// `s` without its leading and trailing whitespace.
pub open spec fn trim(s: Seq<char>) -> Seq<char> {
    trim_end(trim_start(s))
}

/// Whether `c` is a whitespace character.
pub fn char_is_whitespace(c: char) -> (r: bool)
    ensures
        r == is_whitespace(c),
{
    let u: u32 = c as u32;
    (0x09 <= u && u <= 0x0D) || u == 0x20 || u == 0x85 || u == 0xA0 || u == 0x1680 || (0x2000 <= u
        && u <= 0x200A) || u == 0x2028 || u == 0x2029 || u == 0x202F || u == 0x205F || u == 0x3000
}

/// The bounds of the trimmed part of `s[lo..hi]`.
pub fn trim_bounds(s: &[char], lo: usize, hi: usize) -> (r: (usize, usize))
    requires
        lo <= hi <= s@.len(),
    ensures
        lo <= r.0 <= r.1 <= hi,
        s@.subrange(r.0 as int, r.1 as int) == trim(s@.subrange(lo as int, hi as int)),
{
    let mut a: usize = lo;
    while a < hi && char_is_whitespace(s[a])
        invariant
            lo <= a <= hi <= s@.len(),
            trim_start(s@.subrange(lo as int, hi as int)) == trim_start(
                s@.subrange(a as int, hi as int),
            ),
        decreases hi - a,
    {
        assert(s@.subrange(a as int, hi as int).drop_first() =~= s@.subrange(a + 1, hi as int));
        a += 1;
    }
    let mut b: usize = hi;
    while b > a && char_is_whitespace(s[b - 1])
        invariant
            a <= b <= hi <= s@.len(),
            trim_end(s@.subrange(a as int, hi as int)) == trim_end(s@.subrange(a as int, b as int)),
        decreases b - a,
    {
        assert(s@.subrange(a as int, b as int).drop_last() =~= s@.subrange(a as int, b - 1));
        b -= 1;
    }
    (a, b)
}

/// `s` without its leading and trailing whitespace.
pub fn trim_slice<'a>(s: &'a [char]) -> (t: &'a [char])
    ensures
        t@ == trim(s@),
{
    let (a, b) = trim_bounds(s, 0, s.len());
    assert(s@.subrange(0, s@.len() as int) =~= s@);
    slice_subrange(s, a, b)
}

/// Whether `pat` stands in `s` at index `i`.
pub open spec fn occurs_at(s: Seq<char>, pat: Seq<char>, i: int) -> bool {
    &&& 0 <= i
    &&& i + pat.len() <= s.len()
    &&& s.subrange(i, i + pat.len()) == pat
}

/// The index of the first occurrence of the non-empty pattern `pat` in `s`.
/// An empty pattern occurs nowhere.
pub open spec fn find(s: Seq<char>, pat: Seq<char>) -> Option<int>
    decreases s.len(),
{
    if pat.len() > 0 && pat.is_prefix_of(s) {
        Some(0)
    } else if s.len() == 0 {
        None
    } else {
        match find(s.drop_first(), pat) {
            Some(i) => Some(i + 1),
            None => None,
        }
    }
}

/// Whether the pattern `pat` occurs in `s`.
pub open spec fn contains(s: Seq<char>, pat: Seq<char>) -> bool {
    find(s, pat) is Some
}

/// `find` returns the least index at which the pattern stands, and `None`
/// exactly when it stands nowhere.
pub proof fn lemma_find(s: Seq<char>, pat: Seq<char>)
    ensures
        match find(s, pat) {
            Some(i) => pat.len() > 0 && occurs_at(s, pat, i) && forall|j: int|
                0 <= j < i ==> !occurs_at(s, pat, j),
            None => pat.len() == 0 || forall|j: int| !occurs_at(s, pat, j),
        },
    decreases s.len(),
{
    if pat.len() > 0 && pat.is_prefix_of(s) {
    } else if s.len() == 0 {
    } else {
        let rest = s.drop_first();
        lemma_find(rest, pat);
        assert forall|j: int| 0 <= j implies occurs_at(s, pat, j + 1) == occurs_at(rest, pat, j) by {
            if j + pat.len() <= rest.len() {
                assert(rest.subrange(j, j + pat.len()) =~= s.subrange(j + 1, j + 1 + pat.len()));
            }
        }
        match find(rest, pat) {
            Some(i) => {
                assert forall|j: int| 0 <= j < i + 1 implies !occurs_at(s, pat, j) by {
                    if j > 0 {
                        assert(occurs_at(s, pat, (j - 1) + 1) == occurs_at(rest, pat, j - 1));
                    }
                }
            },
            None => {
                if pat.len() > 0 {
                    assert forall|j: int| !occurs_at(s, pat, j) by {
                        if j > 0 {
                            assert(occurs_at(s, pat, (j - 1) + 1) == occurs_at(rest, pat, j - 1));
                        }
                    }
                }
            },
        }
    }
}

/// The least occurrence is what `find` returns.
pub proof fn lemma_find_first(s: Seq<char>, pat: Seq<char>, i: int)
    requires
        pat.len() > 0,
        occurs_at(s, pat, i),
        forall|j: int| 0 <= j < i ==> !occurs_at(s, pat, j),
    ensures
        find(s, pat) == Some(i),
{
    lemma_find(s, pat);
}

/// Without an occurrence `find` returns `None`.
pub proof fn lemma_find_none(s: Seq<char>, pat: Seq<char>)
    requires
        forall|j: int| !occurs_at(s, pat, j),
    ensures
        find(s, pat) is None,
{
    lemma_find(s, pat);
}

/// Whether `pat` stands in `s` at index `i`.
pub fn matches_at(s: &[char], pat: &[char], i: usize) -> (r: bool)
    requires
        i + pat@.len() <= s@.len(),
    ensures
        r == occurs_at(s@, pat@, i as int),
{
    let n = s.len();
    let mut k: usize = 0;
    while k < pat.len()
        invariant
            k <= pat@.len(),
            i + pat@.len() <= s@.len() == n,
            forall|j: int| 0 <= j < k ==> s@[i + j] == pat@[j],
        decreases pat@.len() - k,
    {
        if s[i + k] != pat[k] {
            assert(s@.subrange(i as int, i + pat@.len())[k as int] != pat@[k as int]);
            return false;
        }
        k += 1;
    }
    assert(s@.subrange(i as int, i + pat@.len()) =~= pat@);
    true
}

/// The first occurrence of `pat` in `s` at or after `from`.
pub fn find_from(s: &[char], pat: &[char], from: usize) -> (r: Option<usize>)
    requires
        from <= s@.len(),
    ensures
        match r {
            Some(i) => from <= i && i + pat@.len() <= s@.len() && find(
                s@.skip(from as int),
                pat@,
            ) == Some(i - from),
            None => find(s@.skip(from as int), pat@) is None,
        },
{
    let n = s.len();
    let m = pat.len();
    let ghost tail = s@.skip(from as int);
    if m == 0 || m > n - from {
        proof {
            lemma_find(tail, pat@);
        }
        return None;
    }
    let mut i: usize = from;
    while i <= n - m
        invariant
            from <= i,
            0 < m <= n - from,
            n == s@.len(),
            m == pat@.len(),
            tail == s@.skip(from as int),
            forall|j: int| 0 <= j < i - from ==> !occurs_at(tail, pat@, j),
        decreases n - i,
    {
        proof {
            if i + m <= n {
                assert(tail.subrange(i - from, i - from + m) =~= s@.subrange(i as int, i + m));
            }
        }
        if matches_at(s, pat, i) {
            proof {
                lemma_find_first(tail, pat@, i - from);
            }
            return Some(i);
        }
        i += 1;
    }
    proof {
        lemma_find_none(tail, pat@);
    }
    None
}

/// The pieces of `s` between the occurrences of the separator `pat`, found
/// from left to right without overlap. There is always at least one piece;
/// with `n` occurrences there are `n + 1`.
pub open spec fn split(s: Seq<char>, pat: Seq<char>) -> Seq<Seq<char>>
    decreases s.len(),
    via split_terminates
{
    match find(s, pat) {
        Some(i) => seq![s.take(i)] + split(s.skip(i + pat.len()), pat),
        None => seq![s],
    }
}

#[via_fn]
proof fn split_terminates(s: Seq<char>, pat: Seq<char>) {
    lemma_find(s, pat);
}

/// A text splits into at least one piece, and into exactly one if the
/// separator does not occur in it.
pub proof fn lemma_split_len(s: Seq<char>, pat: Seq<char>)
    ensures
        split(s, pat).len() >= 1,
        (split(s, pat).len() == 1) == !contains(s, pat),
{
    match find(s, pat) {
        Some(i) => {
            let rest = s.skip(i + pat.len());
            assert(split(rest, pat).len() >= 1) by {
                match find(rest, pat) {
                    Some(j) => {},
                    None => {},
                }
            }
        },
        None => {},
    }
}

/// `parts` written one after the other with `sep` between neighbours.
pub open spec fn join(parts: Seq<Seq<char>>, sep: Seq<char>) -> Seq<char>
    decreases parts.len(),
{
    if parts.len() == 0 {
        Seq::empty()
    } else if parts.len() == 1 {
        parts[0]
    } else {
        join(parts.drop_last(), sep) + sep + parts.last()
    }
}

/// The view of every item of a sequence.
pub open spec fn views<T: View>(items: Seq<T>) -> Seq<T::V> {
    Seq::new(items.len(), |i: int| items[i]@)
}

/// The parts of `s` that the index pairs of `ranges` bound.
pub open spec fn pieces(s: Seq<char>, ranges: Seq<(usize, usize)>) -> Seq<Seq<char>> {
    Seq::new(ranges.len(), |k: int| s.subrange(ranges[k].0 as int, ranges[k].1 as int))
}

/// The bounds of the pieces of `s` between the occurrences of `pat`.
pub fn split_bounds(s: &[char], pat: &[char]) -> (ranges: Vec<(usize, usize)>)
    ensures
        pieces(s@, ranges@) == split(s@, pat@),
        forall|k: int|
            0 <= k < ranges@.len() ==> (#[trigger] ranges@[k]).0 <= ranges@[k].1 <= s@.len(),
{
    let n = s.len();
    let m = pat.len();
    let mut ranges: Vec<(usize, usize)> = Vec::new();
    let mut start: usize = 0;
    assert(s@.skip(0) =~= s@);
    loop
        invariant
            start <= n == s@.len(),
            m == pat@.len(),
            split(s@, pat@) == pieces(s@, ranges@) + split(s@.skip(start as int), pat@),
            forall|k: int|
                0 <= k < ranges@.len() ==> (#[trigger] ranges@[k]).0 <= ranges@[k].1 <= s@.len(),
        decreases n - start,
    {
        let ghost tail = s@.skip(start as int);
        let ghost before = ranges@;
        proof {
            lemma_find(tail, pat@);
        }
        match find_from(s, pat, start) {
            Some(i) => {
                ranges.push((start, i));
                proof {
                    assert(tail.take(i - start) =~= s@.subrange(start as int, i as int));
                    assert(tail.skip(i - start + m) =~= s@.skip(i + m));
                    assert(pieces(s@, ranges@) =~= pieces(s@, before) + seq![
                        s@.subrange(start as int, i as int),
                    ]);
                }
                start = i + m;
            },
            None => {
                ranges.push((start, n));
                proof {
                    assert(tail =~= s@.subrange(start as int, n as int));
                    assert(pieces(s@, ranges@) =~= pieces(s@, before) + seq![tail]);
                }
                return ranges;
            },
        }
    }
}

/// The pieces of `s` between the occurrences of `pat`.
pub fn split_slice<'a>(s: &'a [char], pat: &[char]) -> (parts: Vec<&'a [char]>)
    ensures
        views(parts@) == split(s@, pat@),
{
    let ranges = split_bounds(s, pat);
    let mut parts: Vec<&'a [char]> = Vec::new();
    let mut k: usize = 0;
    while k < ranges.len()
        invariant
            k <= ranges@.len(),
            parts@.len() == k,
            forall|j: int|
                0 <= j < ranges@.len() ==> (#[trigger] ranges@[j]).0 <= ranges@[j].1 <= s@.len(),
            forall|j: int|
                0 <= j < k ==> (#[trigger] parts@[j])@ == s@.subrange(
                    ranges@[j].0 as int,
                    ranges@[j].1 as int,
                ),
        decreases ranges@.len() - k,
    {
        let (lo, hi) = ranges[k];
        parts.push(slice_subrange(s, lo, hi));
        k += 1;
    }
    assert(views(parts@) =~= pieces(s@, ranges@));
    parts
}

/// The separator between lines.
pub open spec fn line_break() -> Seq<char> {
    seq!['\n']
}

/// The separator between the fields of a line.
pub open spec fn comma() -> Seq<char> {
    seq![',']
}

/// `line` without one trailing carriage return.
pub open spec fn strip_carriage_return(line: Seq<char>) -> Seq<char> {
    if line.len() > 0 && line.last() == '\r' {
        line.drop_last()
    } else {
        line
    }
}

/// The lines of `s`. A line ends at a line feed, or at a carriage return
/// directly before one; the end of the text ends the last line, so a final
/// line feed adds no empty line, and the empty text has no line at all.
pub open spec fn lines(s: Seq<char>) -> Seq<Seq<char>>
    decreases s.len(),
    via lines_terminates
{
    if s.len() == 0 {
        Seq::empty()
    } else {
        match find(s, line_break()) {
            Some(i) => seq![strip_carriage_return(s.take(i))] + lines(s.skip(i + 1)),
            None => seq![s],
        }
    }
}

#[via_fn]
proof fn lines_terminates(s: Seq<char>) {
    lemma_find(s, line_break());
}

/// The fields of a line: its pieces between commas, each one trimmed.
pub open spec fn fields(line: Seq<char>) -> Seq<Seq<char>> {
    split(line, comma()).map_values(|piece: Seq<char>| trim(piece))
}

/// The lines of `s`.
pub fn split_lines<'a>(s: &'a [char]) -> (out: Vec<&'a [char]>)
    ensures
        views(out@) == lines(s@),
{
    let n = s.len();
    let pat: Vec<char> = vec!['\n'];
    assert(pat@ =~= line_break());
    let mut out: Vec<&'a [char]> = Vec::new();
    let mut start: usize = 0;
    assert(s@.skip(0) =~= s@);
    while start < n
        invariant
            start <= n == s@.len(),
            pat@ == line_break(),
            lines(s@) == views(out@) + lines(s@.skip(start as int)),
        decreases n - start,
    {
        let ghost tail = s@.skip(start as int);
        let ghost before = out@;
        proof {
            lemma_find(tail, pat@);
        }
        match find_from(s, pat.as_slice(), start) {
            Some(i) => {
                let end = if i > start && s[i - 1] == '\r' {
                    i - 1
                } else {
                    i
                };
                out.push(slice_subrange(s, start, end));
                proof {
                    assert(tail.take(i - start) =~= s@.subrange(start as int, i as int));
                    assert(tail.skip(i - start + 1) =~= s@.skip(i + 1));
                    assert(strip_carriage_return(s@.subrange(start as int, i as int))
                        =~= s@.subrange(start as int, end as int));
                    assert(views(out@) =~= views(before) + seq![
                        s@.subrange(start as int, end as int),
                    ]);
                }
                start = i + 1;
            },
            None => {
                out.push(slice_subrange(s, start, n));
                proof {
                    assert(tail =~= s@.subrange(start as int, n as int));
                    assert(views(out@) =~= views(before) + seq![tail]);
                    assert(s@.skip(n as int) =~= Seq::<char>::empty());
                }
                start = n;
            },
        }
    }
    proof {
        assert(s@.skip(n as int).len() == 0);
        assert(views(out@) + Seq::<Seq<char>>::empty() =~= views(out@));
    }
    out
}

/// The fields of `line`.
pub fn split_fields<'a>(line: &'a [char]) -> (out: Vec<&'a [char]>)
    ensures
        views(out@) == fields(line@),
{
    let pat: Vec<char> = vec![','];
    assert(pat@ =~= comma());
    let ranges = split_bounds(line, pat.as_slice());
    let mut out: Vec<&'a [char]> = Vec::new();
    let mut k: usize = 0;
    while k < ranges.len()
        invariant
            k <= ranges@.len(),
            out@.len() == k,
            forall|j: int|
                0 <= j < ranges@.len() ==> (#[trigger] ranges@[j]).0 <= ranges@[j].1
                    <= line@.len(),
            forall|j: int|
                0 <= j < k ==> (#[trigger] out@[j])@ == trim(
                    line@.subrange(ranges@[j].0 as int, ranges@[j].1 as int),
                ),
        decreases ranges@.len() - k,
    {
        let (lo, hi) = ranges[k];
        let (a, b) = trim_bounds(line, lo, hi);
        out.push(slice_subrange(line, a, b));
        k += 1;
    }
    assert(views(out@) =~= pieces(line@, ranges@).map_values(|piece: Seq<char>| trim(piece)));
    out
}

/// Whether `a` comes strictly before `b` in lexicographic order, characters
/// compared by code point. A proper prefix comes before the longer text.
pub open spec fn less(a: Seq<char>, b: Seq<char>) -> bool
    decreases a.len(),
{
    if b.len() == 0 {
        false
    } else if a.len() == 0 {
        true
    } else if a[0] != b[0] {
        (a[0] as u32) < (b[0] as u32)
    } else {
        less(a.drop_first(), b.drop_first())
    }
}

/// Whether `a` and `b` hold the same characters.
pub fn same_text(a: &[char], b: &[char]) -> (r: bool)
    ensures
        r == (a@ == b@),
{
    if a.len() != b.len() {
        return false;
    }
    let mut i: usize = 0;
    while i < a.len()
        invariant
            i <= a@.len() == b@.len(),
            forall|j: int| 0 <= j < i ==> a@[j] == b@[j],
        decreases a@.len() - i,
    {
        if a[i] != b[i] {
            return false;
        }
        i += 1;
    }
    assert(a@ =~= b@);
    true
}

/// Whether `a` comes strictly before `b` in lexicographic order.
pub fn is_less(a: &[char], b: &[char]) -> (r: bool)
    ensures
        r == less(a@, b@),
{
    let mut i: usize = 0;
    assert(a@.skip(0) =~= a@ && b@.skip(0) =~= b@);
    while i < a.len() && i < b.len()
        invariant
            i <= a@.len(),
            i <= b@.len(),
            less(a@, b@) == less(a@.skip(i as int), b@.skip(i as int)),
        decreases a@.len() - i,
    {
        let ghost x = a@.skip(i as int);
        let ghost y = b@.skip(i as int);
        assert(x[0] == a@[i as int] && y[0] == b@[i as int]);
        let ca: char = a[i];
        let cb: char = b[i];
        if ca != cb {
            return (ca as u32) < (cb as u32);
        }
        assert(x.drop_first() =~= a@.skip(i + 1));
        assert(y.drop_first() =~= b@.skip(i + 1));
        i += 1;
    }
    i < b.len()
}

/// Appends `c` to `out`, by `String::push`, which adds exactly that
/// character at the end.
#[verifier::external_body]
pub(crate) fn push_char(out: &mut String, c: char)
    ensures
        final(out)@ == old(out)@.push(c),
{
    out.push(c)
}

/// The characters of `s`.
pub fn to_chars(s: &str) -> (v: Vec<char>)
    ensures
        v@ == s@,
{
    let mut v: Vec<char> = Vec::new();
    for c in it: s.chars()
        invariant
            it.seq() == s@,
            v@ == s@.take(it.index()),
    {
        v.push(c);
    }
    assert(s@.take(s@.len() as int) =~= s@);
    v
}

/// Appends the characters of `s` to `out`.
pub fn push_chars(out: &mut String, s: &[char])
    ensures
        final(out)@ == old(out)@ + s@,
{
    let ghost before = out@;
    let mut i: usize = 0;
    while i < s.len()
        invariant
            i <= s@.len(),
            out@ == before + s@.take(i as int),
        decreases s@.len() - i,
    {
        push_char(out, s[i]);
        assert(s@.take(i + 1) =~= s@.take(i as int).push(s@[i as int]));
        i += 1;
    }
    assert(s@.take(s@.len() as int) =~= s@);
}

/// The text made of the characters of `s`.
pub fn from_chars(s: &[char]) -> (out: String)
    ensures
        out@ == s@,
{
    let mut out = String::new();
    push_chars(&mut out, s);
    out
}

} // verus!
