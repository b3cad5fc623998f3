use libcsv::filter::parse_filters;
use libcsv::header::{find_column, find_missing, project_columns};
use libcsv::row::{find_beyond, judge_row, resolve_filters};
use libcsv::{apply_filters, CsvError};

const HEADERS: [&str; 3] = ["header1", "header2", "header3"];

fn chars(s: &str) -> Vec<char> {
    s.chars().collect()
}

#[test]
fn no_filters_let_every_row_pass() {
    assert_eq!(apply_filters(&["1", "2", "3"], &[], &HEADERS), Ok(true));
    assert_eq!(apply_filters(&[], &[], &HEADERS), Ok(true));
}

#[test]
fn filters_on_one_column_are_alternatives() {
    let filters = ["header1=1", "header1=4"];
    assert_eq!(apply_filters(&["1", "2", "3"], &filters, &HEADERS), Ok(true));
    assert_eq!(apply_filters(&["4", "5", "6"], &filters, &HEADERS), Ok(true));
    assert_eq!(apply_filters(&["7", "8", "9"], &filters, &HEADERS), Ok(false));
}

#[test]
fn filters_on_different_columns_must_all_hold() {
    let filters = ["header1>6", "header2<9", "header3=9"];
    assert_eq!(apply_filters(&["7", "8", "9"], &filters, &HEADERS), Ok(true));
    assert_eq!(apply_filters(&["7", "9", "9"], &filters, &HEADERS), Ok(false));
    assert_eq!(apply_filters(&["6", "8", "9"], &filters, &HEADERS), Ok(false));
    assert_eq!(apply_filters(&["7", "8", "8"], &filters, &HEADERS), Ok(false));
}

#[test]
fn groups_are_formed_whatever_the_order_of_the_filters() {
    let filters = ["header1!=1", "header3=4", "header1=8", "header2>=3", "header3<=9"];
    assert_eq!(apply_filters(&["1", "2", "3"], &filters, &HEADERS), Ok(false));
    assert_eq!(apply_filters(&["4", "5", "6"], &filters, &HEADERS), Ok(true));
    assert_eq!(apply_filters(&["7", "8", "9"], &filters, &HEADERS), Ok(true));
}

#[test]
fn each_operator_on_a_row() {
    let row = ["5", "b", ""];
    assert_eq!(apply_filters(&row, &["header1=5"], &HEADERS), Ok(true));
    assert_eq!(apply_filters(&row, &["header1=6"], &HEADERS), Ok(false));
    assert_eq!(apply_filters(&row, &["header1!=6"], &HEADERS), Ok(true));
    assert_eq!(apply_filters(&row, &["header1!=5"], &HEADERS), Ok(false));
    assert_eq!(apply_filters(&row, &["header1<6"], &HEADERS), Ok(true));
    assert_eq!(apply_filters(&row, &["header1<5"], &HEADERS), Ok(false));
    assert_eq!(apply_filters(&row, &["header1>4"], &HEADERS), Ok(true));
    assert_eq!(apply_filters(&row, &["header1>5"], &HEADERS), Ok(false));
    assert_eq!(apply_filters(&row, &["header1<=5"], &HEADERS), Ok(true));
    assert_eq!(apply_filters(&row, &["header1<=4"], &HEADERS), Ok(false));
    assert_eq!(apply_filters(&row, &["header1>=5"], &HEADERS), Ok(true));
    assert_eq!(apply_filters(&row, &["header1>=6"], &HEADERS), Ok(false));
    assert_eq!(apply_filters(&row, &["header3<a"], &HEADERS), Ok(true));
}

#[test]
fn comparison_is_lexicographic() {
    assert_eq!(apply_filters(&["9", "0", "0"], &["header1<10"], &HEADERS), Ok(false));
    assert_eq!(apply_filters(&["9", "0", "0"], &["header1>10"], &HEADERS), Ok(true));
    assert_eq!(apply_filters(&["10", "0", "0"], &["header1<9"], &HEADERS), Ok(true));
    assert_eq!(apply_filters(&["abc", "0", "0"], &["header1<abd"], &HEADERS), Ok(true));
    assert_eq!(apply_filters(&["ab", "0", "0"], &["header1<abc"], &HEADERS), Ok(true));
}

#[test]
fn malformed_filters_are_passed_over() {
    let filters = ["header1=7", "header2-8", "", "header3=9=9"];
    assert_eq!(apply_filters(&["7", "0", "0"], &filters, &HEADERS), Ok(true));
    assert_eq!(apply_filters(&["8", "8", "9"], &filters, &HEADERS), Ok(false));
}

#[test]
fn a_filter_on_an_unknown_column_fails() {
    assert_eq!(
        apply_filters(&["1", "2", "3"], &["header1=7", "nonexistent=8", "other=1"], &HEADERS),
        Err(CsvError::HeaderNotFound("nonexistent".to_string()))
    );
    // The header is searched before any field is read.
    assert_eq!(
        apply_filters(&[], &["header1=7", "nonexistent=8"], &HEADERS),
        Err(CsvError::HeaderNotFound("nonexistent".to_string()))
    );
}

#[test]
fn a_row_without_the_field_of_a_filter_fails() {
    assert_eq!(
        apply_filters(&["1"], &["header1=2", "header3=3", "header2=1"], &HEADERS),
        Err(CsvError::FieldNotFound("header3".to_string()))
    );
    assert_eq!(apply_filters(&["1"], &["header1=1"], &HEADERS), Ok(true));
}

#[test]
fn a_repeated_name_resolves_to_its_first_column() {
    let headers = ["a", "b", "a"];
    assert_eq!(apply_filters(&["1", "2", "3"], &["a=1"], &headers), Ok(true));
    assert_eq!(apply_filters(&["1", "2", "3"], &["a=3"], &headers), Ok(false));
}

#[test]
fn columns_are_found_by_name() {
    let names = [chars("a"), chars("b"), chars("a"), chars("")];
    let headers: Vec<&[char]> = names.iter().map(|n| n.as_slice()).collect();
    assert_eq!(find_column(&headers, &chars("a")), Some(0));
    assert_eq!(find_column(&headers, &chars("b")), Some(1));
    assert_eq!(find_column(&headers, &chars("")), Some(3));
    assert_eq!(find_column(&headers, &chars("c")), None);
    assert_eq!(find_column(&[], &chars("a")), None);
}

#[test]
fn the_first_missing_name_is_found() {
    let names = [chars("a"), chars("b"), chars("c")];
    let headers: Vec<&[char]> = names.iter().map(|n| n.as_slice()).collect();
    let asked = [chars("b"), chars("x"), chars("a"), chars("y")];
    let wanted: Vec<&[char]> = asked.iter().map(|n| n.as_slice()).collect();
    assert_eq!(find_missing(&wanted, &headers), Some(1));
    assert_eq!(find_missing(&wanted[..1], &headers), None);
    assert_eq!(find_missing(&[], &headers), None);
}

#[test]
fn projection_follows_the_header() {
    let names = [chars("a"), chars("b"), chars("c")];
    let headers: Vec<&[char]> = names.iter().map(|n| n.as_slice()).collect();
    let asked = [chars("c"), chars("a")];
    let wanted: Vec<&[char]> = asked.iter().map(|n| n.as_slice()).collect();
    assert_eq!(project_columns(&headers, &wanted), vec![0, 2]);
    let twice = [chars("c"), chars("c"), chars("b"), chars("x")];
    let wanted: Vec<&[char]> = twice.iter().map(|n| n.as_slice()).collect();
    assert_eq!(project_columns(&headers, &wanted), vec![1, 2]);
    assert_eq!(project_columns(&headers, &[]), Vec::<usize>::new());
}

#[test]
fn projection_of_a_repeated_name_is_its_first_column() {
    let names = [chars("a"), chars("b"), chars("a")];
    let headers: Vec<&[char]> = names.iter().map(|n| n.as_slice()).collect();
    let asked = [chars("a")];
    let wanted: Vec<&[char]> = asked.iter().map(|n| n.as_slice()).collect();
    assert_eq!(project_columns(&headers, &wanted), vec![0, 0]);
}

#[test]
fn resolved_filters_judge_many_rows() {
    let names = [chars("a"), chars("b"), chars("c")];
    let headers: Vec<&[char]> = names.iter().map(|n| n.as_slice()).collect();
    let block = chars("c>=2\na=1\nnonsense\na=4");
    let filters = parse_filters(&block);
    let resolved = resolve_filters(&filters, &headers).unwrap();
    assert_eq!(resolved.len(), 3);
    assert_eq!(resolved[0].index, 2);
    assert_eq!(resolved[1].index, 0);
    assert_eq!(resolved[2].index, 0);

    let cols = [0usize, 1];
    let judge = |fields: &[&str]| {
        let owned: Vec<Vec<char>> = fields.iter().map(|f| chars(f)).collect();
        let row: Vec<&[char]> = owned.iter().map(|f| f.as_slice()).collect();
        judge_row(&resolved, &cols, &row)
    };
    assert_eq!(judge(&["1", "x", "2"]), Ok(true));
    assert_eq!(judge(&["4", "x", "3"]), Ok(true));
    assert_eq!(judge(&["4", "x", "1"]), Ok(false));
    assert_eq!(judge(&["2", "x", "3"]), Ok(false));
    // The first filter reads the third column.
    assert_eq!(judge(&["1", "x"]), Err(2));
    assert_eq!(judge(&[]), Err(2));
}

#[test]
fn a_kept_row_must_have_the_columns_that_are_put_out() {
    let names = [chars("a"), chars("b"), chars("c")];
    let headers: Vec<&[char]> = names.iter().map(|n| n.as_slice()).collect();
    let block = chars("a=1");
    let filters = parse_filters(&block);
    let resolved = resolve_filters(&filters, &headers).unwrap();
    let one = chars("1");
    let two = chars("2");
    assert_eq!(judge_row(&resolved, &[0, 2, 1], &[&one[..]]), Err(2));
    assert_eq!(judge_row(&resolved, &[0, 2, 1], &[&two[..]]), Ok(false));
    assert_eq!(judge_row(&resolved, &[0], &[&one[..]]), Ok(true));
}

#[test]
fn resolving_fails_at_the_first_unknown_column() {
    let names = [chars("a"), chars("b")];
    let headers: Vec<&[char]> = names.iter().map(|n| n.as_slice()).collect();
    let block = chars("a=1\nx=2\ny=3");
    let filters = parse_filters(&block);
    match resolve_filters(&filters, &headers) {
        Err(e) => assert_eq!(e, CsvError::HeaderNotFound("x".to_string())),
        Ok(_) => panic!("the column x is not in the header"),
    }
}

#[test]
fn the_first_position_beyond_a_row_is_found() {
    assert_eq!(find_beyond(&[0, 3, 1, 5], 3), Some(3));
    assert_eq!(find_beyond(&[0, 3, 1, 5], 6), None);
    assert_eq!(find_beyond(&[0, 3, 1, 5], 0), Some(0));
    assert_eq!(find_beyond(&[], 0), None);
}
