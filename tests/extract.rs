use columns::{extract_columns, ColumnRange};

#[test]
fn single_column() {
    let expected = vec!["asdf"];
    let column_ranges = [ColumnRange { start: 1, end: 1 }];
    let columns = ["ignored", "asdf", "ignored"];
    let actual = extract_columns(&column_ranges, &columns);
    assert_eq!(expected, actual);
}

#[test]
fn out_of_bounds_column() {
    let expected: Vec<&str> = vec![];
    let column_ranges = [ColumnRange { start: 7, end: 7 }];
    let columns = ["ignored", "ignored", "ignored"];
    let actual = extract_columns(&column_ranges, &columns);
    assert_eq!(expected, actual);
}

#[test]
fn single_range() {
    let expected = vec!["two", "three", "four"];
    let column_ranges = [ColumnRange { start: 2, end: 4 }];
    let columns = ["zero", "one", "two", "three", "four", "five"];
    let actual = extract_columns(&column_ranges, &columns);
    assert_eq!(expected, actual);
}

#[test]
fn partially_out_of_bounds_range() {
    let expected = vec!["two", "three", "four", "five"];
    let column_ranges = [ColumnRange { start: 2, end: 6 }];
    let columns = ["zero", "one", "two", "three", "four", "five"];
    let actual = extract_columns(&column_ranges, &columns);
    assert_eq!(expected, actual);
}

#[test]
fn negative_index() {
    let expected = vec!["four", "five", "zero", "one", "two", "three"];
    let column_ranges = [ColumnRange { start: -2, end: 3 }];
    let columns = ["zero", "one", "two", "three", "four", "five"];
    let actual = extract_columns(&column_ranges, &columns);
    assert_eq!(expected, actual);
}

#[test]
fn overlapping_ranges() {
    let expected = vec![
        "two", "three", "four", "one", "two", "three", "four", "five",
    ];
    let column_ranges = [
        ColumnRange { start: 2, end: 4 },
        ColumnRange { start: 1, end: 5 },
    ];
    let columns = ["zero", "one", "two", "three", "four", "five"];
    let actual = extract_columns(&column_ranges, &columns);
    assert_eq!(expected, actual);
}

#[test]
fn really_out_of_bounds_indices() {
    let column_ranges = [ColumnRange {
        start: -20,
        end: 20,
    }];
    let columns = ["zero", "one", "two", "three", "four", "five"];
    let expected = vec![
        "zero", "one", "two", "three", "four", "five", "zero", "one", "two", "three", "four",
        "five",
    ];
    let actual = extract_columns(&column_ranges, &columns);
    assert_eq!(expected, actual);
}

#[test]
fn reversed_indices() {
    let expected = vec!["four", "three", "two"];
    let column_ranges = [ColumnRange { start: 4, end: 2 }];
    let columns = ["zero", "one", "two", "three", "four", "five"];
    let actual = extract_columns(&column_ranges, &columns);
    assert_eq!(expected, actual);
}

#[test]
fn reversed_negative_range() {
    let column_ranges = [ColumnRange { start: -1, end: -3 }];
    let columns = ["zero", "one", "two", "three", "four", "five"];
    assert_eq!(vec!["five", "four", "three"], extract_columns(&column_ranges, &columns));
}

#[test]
fn no_ranges_no_fields() {
    let columns = ["zero", "one"];
    assert_eq!(Vec::<&str>::new(), extract_columns(&[], &columns));
    let none: [&str; 0] = [];
    let column_ranges = [ColumnRange { start: -1, end: 1 }];
    assert_eq!(Vec::<&str>::new(), extract_columns(&column_ranges, &none));
}

#[test]
fn repeated_ranges_repeat_fields() {
    let column_ranges = [
        ColumnRange { start: 0, end: 0 },
        ColumnRange { start: 0, end: 0 },
    ];
    let columns = ["whole line", "whole", "line"];
    assert_eq!(
        vec!["whole line", "whole line"],
        extract_columns(&column_ranges, &columns)
    );
}

#[test]
fn extreme_bounds_skip_quietly() {
    let column_ranges = [
        ColumnRange { start: isize::MAX, end: isize::MAX },
        ColumnRange { start: isize::MIN, end: isize::MIN },
        ColumnRange { start: isize::MAX - 1, end: isize::MAX },
        ColumnRange { start: isize::MIN + 1, end: isize::MIN },
    ];
    let columns = ["zero", "one"];
    assert_eq!(Vec::<&str>::new(), extract_columns(&column_ranges, &columns));
}

#[test]
fn huge_ranges_finish() {
    let columns = ["a", "b", "c"];
    let column_ranges = [ColumnRange { start: 1, end: isize::MAX }];
    assert_eq!(vec!["b", "c"], extract_columns(&column_ranges, &columns));
    let column_ranges = [ColumnRange { start: isize::MAX, end: isize::MIN }];
    assert_eq!(
        vec!["c", "b", "a", "c", "b", "a"],
        extract_columns(&column_ranges, &columns)
    );
    let column_ranges = [ColumnRange { start: isize::MIN, end: -2 }];
    assert_eq!(vec!["a", "b"], extract_columns(&column_ranges, &columns));
}
