use columns::{parse_column_range, separate_args, ColumnRange};

#[test]
fn parse_single_column() {
    assert_eq!(
        Some(ColumnRange { start: 1, end: 1 }),
        parse_column_range("1")
    );
    assert_eq!(
        Some(ColumnRange { start: -2, end: -2 }),
        parse_column_range("-2")
    );
}

#[test]
fn parse_multiple_columns() {
    assert_eq!(
        Some(ColumnRange { start: 1, end: 7 }),
        parse_column_range("1:7")
    );
    assert_eq!(
        Some(ColumnRange { start: -6, end: -2 }),
        parse_column_range("-6:-2")
    );
    assert_eq!(
        Some(ColumnRange { start: 3, end: -2 }),
        parse_column_range("3:-2")
    );
}

#[test]
fn rejected() {
    assert_eq!(None, parse_column_range("a"));
    assert_eq!(None, parse_column_range("1.2"));
    assert_eq!(None, parse_column_range("1:a"));
    assert_eq!(None, parse_column_range("1:2-"));
    assert_eq!(None, parse_column_range(":2"));
    assert_eq!(None, parse_column_range("1:"));
}

#[test]
fn single_column_extremes() {
    assert_eq!(
        Some(ColumnRange { start: isize::MAX, end: isize::MAX }),
        parse_column_range(&isize::MAX.to_string())
    );
    assert_eq!(
        Some(ColumnRange { start: isize::MIN, end: isize::MIN }),
        parse_column_range(&isize::MIN.to_string())
    );
    assert_eq!(
        Some(ColumnRange { start: 0, end: 0 }),
        parse_column_range("-0")
    );
    assert_eq!(
        Some(ColumnRange { start: 5, end: 5 }),
        parse_column_range("+5")
    );
    assert_eq!(
        Some(ColumnRange { start: 12, end: 12 }),
        parse_column_range("0012")
    );
}

#[test]
fn pair_extremes() {
    let token = format!("{}:{}", isize::MAX, isize::MIN);
    assert_eq!(
        Some(ColumnRange { start: isize::MAX, end: isize::MIN }),
        parse_column_range(&token)
    );
    assert_eq!(
        Some(ColumnRange { start: 9, end: 2 }),
        parse_column_range("9:2")
    );
    assert_eq!(
        Some(ColumnRange { start: -1, end: -3 }),
        parse_column_range("-1:-3")
    );
}

#[test]
fn rejected_forms() {
    assert_eq!(None, parse_column_range(""));
    assert_eq!(None, parse_column_range("-"));
    assert_eq!(None, parse_column_range("+"));
    assert_eq!(None, parse_column_range(":"));
    assert_eq!(None, parse_column_range("+1:2"));
    assert_eq!(None, parse_column_range("1:+2"));
    assert_eq!(None, parse_column_range("1:2:3"));
    assert_eq!(None, parse_column_range(" 1"));
    assert_eq!(None, parse_column_range("1 "));
    assert_eq!(None, parse_column_range("--1"));
    assert_eq!(None, parse_column_range("1:-"));
    assert_eq!(None, parse_column_range("\u{663}"));
    assert_eq!(None, parse_column_range("\u{663}:1"));
}

#[test]
fn out_of_range_numbers_rejected() {
    assert_eq!(None, parse_column_range("99999999999999999999"));
    assert_eq!(None, parse_column_range("-99999999999999999999"));
    assert_eq!(None, parse_column_range("99999999999999999999:1"));
    assert_eq!(None, parse_column_range("1:-99999999999999999999"));
    let just_over = format!("{}", (isize::MAX as i128) + 1);
    assert_eq!(None, parse_column_range(&just_over));
}

#[test]
fn no_args() {
    let (columns, filenames) = separate_args(vec![]);
    assert_eq!(Vec::<ColumnRange>::new(), columns);
    assert_eq!(Vec::<String>::new(), filenames);
}

#[test]
fn columns_then_files() {
    let (actual_columns, actual_filenames) = separate_args(vec![
        String::from("1"),
        String::from("4:-2"),
        String::from("foo"),
        String::from("bar"),
        String::from("baz"),
    ]);
    let expected_columns = vec![
        ColumnRange { start: 1, end: 1 },
        ColumnRange { start: 4, end: -2 },
    ];
    assert_eq!(expected_columns, actual_columns);
    let expected_filenames = vec![
        String::from("foo"),
        String::from("bar"),
        String::from("baz"),
    ];
    assert_eq!(expected_filenames, actual_filenames);
}

#[test]
fn mixed_columns_and_files() {
    let (actual_columns, actual_filenames) = separate_args(vec![
        String::from("4:-2"),
        String::from("foo"),
        String::from("bar"),
        String::from("1"),
        String::from("baz"),
    ]);
    let expected_columns = vec![ColumnRange { start: 4, end: -2 }];
    assert_eq!(expected_columns, actual_columns);
    let expected_filenames = vec![
        String::from("foo"),
        String::from("bar"),
        String::from("1"),
        String::from("baz"),
    ];
    assert_eq!(expected_filenames, actual_filenames);
}

#[test]
fn only_columns() {
    let (columns, filenames) = separate_args(vec![String::from("2"), String::from("-1:1")]);
    assert_eq!(
        vec![
            ColumnRange { start: 2, end: 2 },
            ColumnRange { start: -1, end: 1 }
        ],
        columns
    );
    assert_eq!(Vec::<String>::new(), filenames);
}

#[test]
fn only_files() {
    let (columns, filenames) = separate_args(vec![String::from("-"), String::from("3")]);
    assert_eq!(Vec::<ColumnRange>::new(), columns);
    assert_eq!(vec![String::from("-"), String::from("3")], filenames);
}
