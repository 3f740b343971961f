use flowshop::table::{parse_table, TableError};

#[test]
fn plain_rows() {
    assert_eq!(parse_table("1,2\n3,4\n").unwrap(), vec![vec![1, 2], vec![3, 4]]);
    assert_eq!(parse_table("1,2\n3,4").unwrap(), vec![vec![1, 2], vec![3, 4]]);
}

#[test]
fn comments_blanks_and_spaces() {
    let text = "# header\n\n 5 , 6 \r\n,,\n  # note\n7,8";
    assert_eq!(parse_table(text).unwrap(), vec![vec![5, 6], vec![7, 8]]);
}

#[test]
fn signs_and_limits() {
    assert_eq!(parse_table("+5,-7").unwrap(), vec![vec![5, -7]]);
    assert_eq!(parse_table("-2147483648,2147483647").unwrap(), vec![vec![i32::MIN, i32::MAX]]);
    assert_eq!(
        parse_table("2147483648").unwrap_err(),
        TableError::InvalidNumber { line: 1, cell: "2147483648".to_string() }
    );
    assert_eq!(parse_table("-").unwrap_err(), TableError::InvalidNumber { line: 1, cell: "-".to_string() });
    assert_eq!(
        parse_table("99999999999999999999").unwrap_err(),
        TableError::InvalidNumber { line: 1, cell: "99999999999999999999".to_string() }
    );
}

#[test]
fn invalid_cell_reports_line_and_text() {
    assert_eq!(
        parse_table("1,2\n3, x1 \n").unwrap_err(),
        TableError::InvalidNumber { line: 2, cell: "x1".to_string() }
    );
    assert_eq!(parse_table("#c\n\n1,a").unwrap_err(), TableError::InvalidNumber { line: 3, cell: "a".to_string() });
    assert_eq!(parse_table("1,,2").unwrap_err(), TableError::InvalidNumber { line: 1, cell: "".to_string() });
}

#[test]
fn no_data() {
    assert_eq!(parse_table("").unwrap_err(), TableError::NoData);
    assert_eq!(parse_table("# only\n\n , \n").unwrap_err(), TableError::NoData);
}

#[test]
fn ragged_rows_are_read_as_they_are() {
    assert_eq!(parse_table("1,2\n3").unwrap(), vec![vec![1, 2], vec![3]]);
}

#[test]
fn table_messages() {
    assert_eq!(
        TableError::InvalidNumber { line: 2, cell: "x".to_string() }.message(),
        "Ошибка в строке 2: не удалось распарсить \"x\" как число"
    );
    assert_eq!(TableError::NoData.message(), "Данные в файле не найдены");
}
