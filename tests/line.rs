use columns::{format_fields, join_fields, setup, ColumnRange, LineFormat, SetupError};

fn prepare(delimiter: &str, separator: &str, args: &[&str]) -> (LineFormat, Vec<String>) {
    let args: Vec<String> = args.iter().map(|a| a.to_string()).collect();
    match setup(delimiter, separator.to_string(), args) {
        Ok(prepared) => prepared,
        Err(_) => panic!("setup failed"),
    }
}

const FILE1: [&str; 3] = ["This is file 1.", "", "It is not very interesting."];
const EMPTY_COLUMNS_LINE: &str = "  empty  column  before  after  ";

#[test]
fn expected_columns() {
    let (format, names) = prepare("\\s+", " ", &["1", "testdata/file1"]);
    assert_eq!(vec![String::from("testdata/file1")], names);
    let output: Vec<String> = FILE1.iter().map(|l| format.format_line(l)).collect();
    assert_eq!(
        vec![String::from("This"), String::from(""), String::from("It")],
        output
    );
}

#[test]
fn empty_columns() {
    let (format, _) = prepare("\\s+", " ", &["1", "-1", "testdata/file_with_empty_columns"]);
    assert_eq!("empty after", format.format_line(EMPTY_COLUMNS_LINE));
}

#[test]
fn change_delimiter() {
    let (format, _) = prepare("before", " ", &["1", "testdata/file_with_empty_columns"]);
    assert_eq!("  empty  column  ", format.format_line(EMPTY_COLUMNS_LINE));
}

#[test]
fn change_separator() {
    let (format, _) = prepare(
        "\\s+",
        "ASDF",
        &["1", "-1", "testdata/file_with_empty_columns"],
    );
    assert_eq!("emptyASDFafter", format.format_line(EMPTY_COLUMNS_LINE));
}

#[test]
fn no_columns() {
    let args = vec![String::from("testdata/file1")];
    assert!(matches!(
        setup("\\s+", String::from(" "), args),
        Err(SetupError::NoColumns)
    ));
    assert!(matches!(
        setup("\\s+", String::from(" "), vec![]),
        Err(SetupError::NoColumns)
    ));
}

#[test]
fn bad_delimiter() {
    let args = vec![String::from("1")];
    assert!(matches!(
        setup("(", String::from(" "), args),
        Err(SetupError::BadDelimiter(_))
    ));
}

#[test]
fn whole_line_and_split_fields() {
    let (format, names) = prepare(",", "|", &["0", "2:1", "-"]);
    assert_eq!(vec![String::from("-")], names);
    assert_eq!("a,,b|b|a", format.format_line("a,,b"));
    assert_eq!("", format.format_line(""));
}

#[test]
fn fields_from_given_pieces() {
    let ranges = [ColumnRange { start: -1, end: 1 }];
    let pieces = vec!["", "x", "", "y", ""];
    assert_eq!("y-x y-x", format_fields("x y", &pieces, &ranges, "-"));
    assert_eq!("", format_fields("", &vec![], &[ColumnRange { start: 1, end: 3 }], "-"));
}

#[test]
fn join_with_separator() {
    assert_eq!("", join_fields(&vec![], ", "));
    assert_eq!("a", join_fields(&vec!["a"], ", "));
    assert_eq!("a, , c", join_fields(&vec!["a", "", "c"], ", "));
}
