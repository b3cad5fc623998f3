use libcsv::text::{
    char_is_whitespace, find_from, from_chars, is_less, matches_at, push_chars, same_text,
    split_bounds, split_fields, split_lines, split_slice, to_chars, trim_bounds, trim_slice,
};

fn chars(s: &str) -> Vec<char> {
    s.chars().collect()
}

fn texts(parts: &[&[char]]) -> Vec<String> {
    parts.iter().map(|p| p.iter().collect()).collect()
}

#[test]
fn whitespace_is_what_the_standard_library_calls_whitespace() {
    let mut code: u32 = 0;
    while code <= 0x10FFFF {
        if let Some(c) = char::from_u32(code) {
            assert_eq!(char_is_whitespace(c), c.is_whitespace(), "U+{:04X}", code);
        }
        code += 1;
    }
}

#[test]
fn trim_is_what_the_standard_library_trims() {
    for s in [
        "",
        " ",
        "a",
        "  a  ",
        "\t\r\n a b \u{00A0}\u{3000}",
        "\u{2003}x\u{2003}y\u{2003}",
        "no-space",
        "   ",
        " \u{FEFF} ",
    ] {
        let v = chars(s);
        let t: String = trim_slice(&v).iter().collect();
        assert_eq!(t, s.trim(), "{:?}", s);
    }
}

#[test]
fn trim_bounds_of_a_part() {
    let v = chars("ab,  cd  ,ef");
    assert_eq!(trim_bounds(&v, 3, 9), (5, 7));
    assert_eq!(trim_bounds(&v, 0, 2), (0, 2));
    assert_eq!(trim_bounds(&v, 3, 5), (5, 5));
    assert_eq!(trim_bounds(&v, 4, 4), (4, 4));
}

#[test]
fn find_gives_the_first_occurrence() {
    let v = chars("a<=b<=c");
    let pat = chars("<=");
    assert_eq!(find_from(&v, &pat, 0), Some(1));
    assert_eq!(find_from(&v, &pat, 1), Some(1));
    assert_eq!(find_from(&v, &pat, 2), Some(4));
    assert_eq!(find_from(&v, &pat, 5), None);
    assert_eq!(find_from(&v, &pat, 7), None);
    assert_eq!(find_from(&v, &chars(""), 0), None);
    assert_eq!(find_from(&v, &chars("a<=b<=c!"), 0), None);
    assert!(matches_at(&v, &pat, 4));
    assert!(!matches_at(&v, &pat, 2));
}

#[test]
fn split_is_what_the_standard_library_splits() {
    for (s, pat) in [
        ("a,b,c", ","),
        ("", ","),
        (",", ","),
        (",,", ","),
        ("a,", ","),
        (",a", ","),
        ("abc", ","),
        ("a<=b", "<="),
        ("a<=b<=c", "<="),
        ("<=<=", "<="),
        ("a<b=c", "<="),
        ("aaa", "aa"),
        ("aaaa", "aa"),
        ("x\ny\n", "\n"),
    ] {
        let v = chars(s);
        let p = chars(pat);
        let got = texts(&split_slice(&v, &p));
        let want: Vec<String> = s.split(pat).map(|x| x.to_string()).collect();
        assert_eq!(got, want, "{:?} by {:?}", s, pat);
    }
}

#[test]
fn split_by_an_empty_separator_gives_the_whole_text() {
    let v = chars("abc");
    assert_eq!(texts(&split_slice(&v, &[])), vec!["abc"]);
}

#[test]
fn split_bounds_are_the_places_of_the_pieces() {
    let v = chars("ab,,c");
    assert_eq!(split_bounds(&v, &[',']), vec![(0, 2), (3, 3), (4, 5)]);
}

#[test]
fn lines_are_what_the_standard_library_reads() {
    for s in [
        "",
        "\n",
        "a",
        "a\n",
        "a\nb",
        "a\n\nb",
        "a\r\nb\r\n",
        "a\r",
        "a\r\r\nb",
        "\r\n",
        "\n\n",
        "a\n\r",
        "h1,h2\n1,2\n",
    ] {
        let v = chars(s);
        let got = texts(&split_lines(&v));
        let want: Vec<String> = s.lines().map(|x| x.to_string()).collect();
        assert_eq!(got, want, "{:?}", s);
    }
}

#[test]
fn fields_are_the_trimmed_pieces_between_commas() {
    let v = chars(" a , b c,,d\r");
    assert_eq!(texts(&split_fields(&v)), vec!["a", "b c", "", "d"]);
    let empty = chars("");
    assert_eq!(texts(&split_fields(&empty)), vec![""]);
}

#[test]
fn order_is_that_of_the_standard_library() {
    let samples = [
        "", "a", "b", "ab", "abc", "abd", "B", "9", "10", "100", "é", "z", "\u{10000}", "\u{FFFF}",
        "日本", "日", " ",
    ];
    for a in samples {
        for b in samples {
            let x = chars(a);
            let y = chars(b);
            assert_eq!(is_less(&x, &y), a < b, "{:?} < {:?}", a, b);
            assert_eq!(same_text(&x, &y), a == b, "{:?} == {:?}", a, b);
        }
    }
}

#[test]
fn nine_is_not_less_than_ten() {
    assert!(!is_less(&chars("9"), &chars("10")));
    assert!(is_less(&chars("10"), &chars("9")));
}

#[test]
fn characters_go_to_text_and_back() {
    for s in ["", "abc", "a,b\nc", "größe 名前 \u{1F600}"] {
        let v = to_chars(s);
        assert_eq!(v, chars(s));
        assert_eq!(from_chars(&v), s);
    }
}

#[test]
fn push_chars_appends() {
    let mut out = String::from("ab");
    push_chars(&mut out, &chars("cé"));
    assert_eq!(out, "abcé");
    push_chars(&mut out, &[]);
    assert_eq!(out, "abcé");
}

/// A small deterministic generator of texts over a fixed alphabet.
fn sample_texts(alphabet: &[char], count: usize, max_len: usize) -> Vec<String> {
    let mut state: u64 = 0x2545_F491_4F6C_DD1D;
    let mut next = move || {
        state = state
            .wrapping_mul(6364136223846793005)
            .wrapping_add(1442695040888963407);
        (state >> 33) as usize
    };
    let mut out = Vec::new();
    let mut n = 0;
    while n < count {
        let len = next() % (max_len + 1);
        let mut s = String::new();
        let mut k = 0;
        while k < len {
            s.push(alphabet[next() % alphabet.len()]);
            k += 1;
        }
        out.push(s);
        n += 1;
    }
    out
}

#[test]
fn generated_texts_are_split_as_by_the_standard_library() {
    let alphabet = ['a', ',', '<', '=', '>', '!', '\n', ' '];
    for s in sample_texts(&alphabet, 3000, 9) {
        let v = chars(&s);
        for pat in [",", "<=", ">=", "!=", "=", "<", ">", "\n", "aa", "=="] {
            let p = chars(pat);
            let got = texts(&split_slice(&v, &p));
            let want: Vec<String> = s.split(pat).map(|x| x.to_string()).collect();
            assert_eq!(got, want, "{:?} by {:?}", s, pat);
            assert_eq!(find_from(&v, &p, 0), s.find(pat).map(|b| s[..b].chars().count()));
        }
    }
}

#[test]
fn generated_texts_are_read_and_trimmed_as_by_the_standard_library() {
    let alphabet = ['a', 'b', '\n', '\r', ' ', '\t', ',', '\u{00A0}', 'é'];
    for s in sample_texts(&alphabet, 5000, 10) {
        let v = chars(&s);
        let got = texts(&split_lines(&v));
        let want: Vec<String> = s.lines().map(|x| x.to_string()).collect();
        assert_eq!(got, want, "{:?}", s);
        let t: String = trim_slice(&v).iter().collect();
        assert_eq!(t, s.trim(), "{:?}", s);
        let got = texts(&split_fields(&v));
        let want: Vec<String> = s.split(',').map(|x| x.trim().to_string()).collect();
        assert_eq!(got, want, "{:?}", s);
    }
}

#[test]
fn generated_texts_are_ordered_as_by_the_standard_library() {
    let alphabet = ['a', 'b', '1', '9', 'é', '\u{10000}', '\u{FFFF}'];
    let samples = sample_texts(&alphabet, 120, 4);
    for a in &samples {
        for b in &samples {
            let x = chars(a);
            let y = chars(b);
            assert_eq!(is_less(&x, &y), a < b, "{:?} < {:?}", a, b);
            assert_eq!(same_text(&x, &y), a == b, "{:?} == {:?}", a, b);
        }
    }
}
