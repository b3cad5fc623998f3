use libcsv::{process_csv_impl, CsvError};

const CSV_DATA: &str = "header1,header2,header3\n1,2,3\n4,5,6\n7,8,9";

fn run(csv: &str, selected: &str, filters: &str) -> String {
    process_csv_impl(csv, selected, filters).unwrap()
}

#[test]
fn selected_columns_come_out_in_header_order() {
    assert_eq!(run("a,b,c\n1,2,3", "c,a", ""), "a,c\n1,3");
    assert_eq!(run("a,b,c\n1,2,3", "a,c", ""), "a,c\n1,3");
    assert_eq!(run("a,b,c\n1,2,3", "c,a,c,a", ""), "a,c\n1,3");
}

#[test]
fn two_columns_with_an_equal_filter() {
    assert_eq!(
        run(CSV_DATA, "header3,header1", "header2=2"),
        "header1,header3\n1,3"
    );
}

#[test]
fn three_filters_on_three_columns() {
    assert_eq!(
        run(
            CSV_DATA,
            "header1,header2,header3",
            "header1>6\nheader2<9\nheader3=9"
        ),
        "header1,header2,header3\n7,8,9"
    );
}

#[test]
fn alternatives_within_columns_and_all_columns_required() {
    assert_eq!(
        run(
            CSV_DATA,
            "header3,header1,header2",
            "header1!=1\nheader1=8\nheader2>=3\nheader3=4\nheader3<=9"
        ),
        "header1,header2,header3\n4,5,6\n7,8,9"
    );
}

#[test]
fn two_equal_filters_on_one_column_keep_either_value() {
    assert_eq!(
        run("x,y\n1,a\n2,b\n4,c\n5,d", "x,y", "x=1\nx=4"),
        "x,y\n1,a\n4,c"
    );
}

#[test]
fn a_filter_without_operator_is_dropped() {
    assert_eq!(
        run(CSV_DATA, "header3,header2", "header1=7\nheader2-8"),
        "header2,header3\n8,9"
    );
    assert_eq!(
        run(CSV_DATA, "header1", "header2-8"),
        "header1\n1\n4\n7"
    );
}

#[test]
fn a_selected_column_that_is_missing_fails_the_run() {
    assert_eq!(
        process_csv_impl(CSV_DATA, "header1,nonexistent,alsomissing", ""),
        Err(CsvError::HeaderNotFound("nonexistent".to_string()))
    );
}

#[test]
fn a_missing_selected_column_is_reported_before_a_missing_filter_column() {
    assert_eq!(
        process_csv_impl(CSV_DATA, "nope", "missing=1"),
        Err(CsvError::HeaderNotFound("nope".to_string()))
    );
}

#[test]
fn a_filter_on_a_missing_column_fails_even_without_rows() {
    assert_eq!(
        process_csv_impl("header1,header2", "header1", "nonexistent=8"),
        Err(CsvError::HeaderNotFound("nonexistent".to_string()))
    );
    assert_eq!(
        process_csv_impl(CSV_DATA, "header1", "header1=0\nnonexistent=8"),
        Err(CsvError::HeaderNotFound("nonexistent".to_string()))
    );
}

#[test]
fn comparison_is_on_text_not_on_numbers() {
    assert_eq!(run("n\n9\n10\n100\n2", "n", "n<10"), "n");
    assert_eq!(run("n\n9\n10\n100\n2", "n", "n>10"), "n\n9\n100\n2");
    assert_eq!(run("n\n9\n10\n100\n2", "n", "n<=10"), "n\n10");
}

#[test]
fn input_without_a_line_has_no_header() {
    assert_eq!(process_csv_impl("", "a", ""), Err(CsvError::NoHeaders));
    assert_eq!(process_csv_impl("", "", ""), Err(CsvError::NoHeaders));
}

#[test]
fn header_alone_gives_the_header() {
    assert_eq!(run("a,b,c", "b", ""), "b");
    assert_eq!(run("a,b,c\n", "c,b", "a=1"), "b,c");
}

#[test]
fn a_final_line_feed_adds_no_row() {
    assert_eq!(run("a,b\n1,2\n3,4\n", "a,b", ""), "a,b\n1,2\n3,4");
}

#[test]
fn carriage_returns_at_line_ends_are_dropped() {
    assert_eq!(run("a,b\r\n1,2\r\n3,4\r\n", "b", "a=3"), "b\n4");
    assert_eq!(run("a,b\r\n1,2\r", "a,b", ""), "a,b\n1,2");
}

#[test]
fn fields_names_and_filters_are_trimmed() {
    assert_eq!(
        run(" a , b \n 1 ,  2\n3 , 4 ", " b ,a", " a = 3 "),
        "a,b\n3,4"
    );
}

#[test]
fn an_empty_selection_selects_the_column_without_name() {
    assert_eq!(
        process_csv_impl(CSV_DATA, "", ""),
        Err(CsvError::HeaderNotFound("".to_string()))
    );
    assert_eq!(run(",a\n1,2\n3,4", "", ""), "\n1\n3");
    assert_eq!(run("a,,b\n1,2,3", "b,", ""), ",b\n2,3");
}

#[test]
fn a_repeated_header_name_is_read_from_its_first_column() {
    assert_eq!(run("a,b,a\n1,2,3", "a", ""), "a,a\n1,1");
    assert_eq!(run("a,b,a\n1,2,3\n3,2,1", "a,b", "a=3"), "a,b,a\n3,2,3");
}

#[test]
fn rows_may_be_longer_than_the_header() {
    assert_eq!(run("a,b\n1,2,3,4\n5,6", "b", ""), "b\n2\n6");
}

#[test]
fn a_short_row_is_fine_where_nothing_beyond_it_is_read() {
    assert_eq!(run("a,b,c\n1\n2,3", "a", "a>0"), "a\n1\n2");
    // A row that the filters drop is not projected.
    assert_eq!(run("a,b,c\n1\n2,3,4", "c", "a=2"), "c\n4");
}

#[test]
fn a_row_without_a_filtered_field_fails_the_run() {
    assert_eq!(
        process_csv_impl("a,b,c\n1,2,3\n4", "a", "a=4\nc=3\nb=2"),
        Err(CsvError::FieldNotFound("c".to_string()))
    );
}

#[test]
fn a_kept_row_without_a_selected_field_fails_the_run() {
    assert_eq!(
        process_csv_impl("a,b,c\n1,2,3\n4", "c,a,b", "a=4"),
        Err(CsvError::FieldNotFound("b".to_string()))
    );
    assert_eq!(
        process_csv_impl("a,b\n1,2\n\n3,4", "a,b", ""),
        Err(CsvError::FieldNotFound("b".to_string()))
    );
}

#[test]
fn an_empty_line_is_a_row_of_one_empty_field() {
    assert_eq!(run("a,b\n1,2\n\n3,4", "a", ""), "a\n1\n\n3");
}

#[test]
fn text_beyond_ascii_passes_through() {
    assert_eq!(
        run("名前,größe\n太郎,zwölf\n花子,elf", "größe,名前", "名前!=太郎"),
        "名前,größe\n花子,elf"
    );
}

#[test]
fn running_again_on_the_result_changes_nothing() {
    let cases = [
        ("header3,header1", "header1!=1"),
        ("header1,header2,header3", "header1>6\nheader2<9\nheader3=9"),
        ("header2", "header2>=5\nheader2=2"),
        ("header3,header1,header2", ""),
    ];
    for (selected, filters) in cases {
        let once = run(CSV_DATA, selected, filters);
        let twice = run(&once, selected, filters);
        assert_eq!(twice, once, "{:?} {:?}", selected, filters);
    }
    let once = run("a,b,a\n 1 ,2,3\r\n3,2,1\n", "b,a", "a>0");
    assert_eq!(run(&once, "b,a", "a>0"), once);
}

#[test]
fn a_result_that_ends_with_an_empty_row_loses_it_when_read_again() {
    let once = run("a,b\n1,2\n,3", "a", "");
    assert_eq!(once, "a\n1\n");
    assert_eq!(run(&once, "a", ""), "a\n1");
}

#[test]
fn the_order_of_the_selection_is_irrelevant() {
    let filters = "header1!=1\nheader2>=3";
    let a = run(CSV_DATA, "header1,header2,header3", filters);
    let b = run(CSV_DATA, "header3,header2,header1", filters);
    let c = run(CSV_DATA, "header2 , header3,header1,header2", filters);
    assert_eq!(a, b);
    assert_eq!(a, c);
}

#[test]
fn a_malformed_line_at_the_end_of_the_filters_changes_nothing() {
    for bad in ["header2-8", "", "header1=1=1", "=", "header1"] {
        let with = process_csv_impl(CSV_DATA, "header1", &format!("header1>1\n{}", bad));
        let without = process_csv_impl(CSV_DATA, "header1", "header1>1");
        assert_eq!(with, without, "{:?}", bad);
    }
}

#[test]
fn only_rows_that_pass_every_group_are_kept() {
    let csv = "k,v\na,1\nb,2\nc,3\na,4\nb,5";
    assert_eq!(run(csv, "k,v", "k=a\nk=b\nv>1"), "k,v\nb,2\na,4\nb,5");
    // Two filters on `v` are alternatives, so together they hold of every row.
    assert_eq!(
        run(csv, "k,v", "k=a\nk=b\nv>1\nv<5"),
        "k,v\na,1\nb,2\na,4\nb,5"
    );
    assert_eq!(run(csv, "v", "k=z"), "v");
}
