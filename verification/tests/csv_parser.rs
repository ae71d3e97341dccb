use juneau::calendar::CalendarDate;
use juneau::csv_parser::{classify_field, parse_csv_file, parse_records, parse_row, FieldKind, ParseError, RowData};
use juneau::date_text::DateError;

fn numbers(row: &RowData) -> Vec<f64> {
    row.values
        .iter()
        .map(|text| std::str::from_utf8(text).expect("a literal is text").parse().expect("a literal is a number"))
        .collect()
}

fn record(fields: &[&str]) -> Vec<Vec<u8>> {
    fields.iter().map(|f| f.as_bytes().to_vec()).collect()
}

fn midnight(year: i32, month: u8, day: u8) -> i64 {
    CalendarDate::new(year, month, day).expect("the date exists").unix_timestamp()
}

#[test]
fn a_day_the_next_month_lacks_gives_no_entry() {
    let dataset = parse_csv_file(b"01/31/2023,10,20").expect("the file is well-formed");
    assert_eq!(dataset.len(), 1);
    assert_eq!(dataset[0].timestamps.len(), 1);
    assert_eq!(numbers(&dataset[0]), vec![10.0]);
    assert_eq!(dataset[0].timestamps, vec![1_675_123_200]);
    assert_eq!(dataset[0].values, vec![b"10".to_vec()]);
}

#[test]
fn an_empty_field_ends_the_row() {
    let dataset = parse_csv_file(b"03/01/2024,5,,7").expect("the file is well-formed");
    assert_eq!(dataset.len(), 1);
    assert_eq!(numbers(&dataset[0]), vec![5.0]);
    assert_eq!(dataset[0].timestamps, vec![1_709_251_200]);
}

#[test]
fn what_follows_an_empty_field_is_not_read() {
    let dataset = parse_csv_file(b"03/01/2024,5,,not a number,\xff\n").expect("nothing after the gap is read");
    assert_eq!(numbers(&dataset[0]), vec![5.0]);
    let dataset = parse_csv_file(b"03/01/2024,,5,6\n").expect("the file is well-formed");
    assert_eq!(dataset.len(), 1);
    assert!(dataset[0].timestamps.is_empty() && dataset[0].values.is_empty());
}

#[test]
fn a_leap_day_resolves_in_leap_years_only() {
    let line = format!("02/29/2024{}", ",1".repeat(49));
    let dataset = parse_csv_file(line.as_bytes()).expect("the file is well-formed");
    let row = &dataset[0];
    assert_eq!(row.timestamps.len(), 46);
    assert_eq!(row.timestamps[0], 1_709_164_800);
    assert_eq!(row.timestamps[11], midnight(2025, 1, 29));
    assert_eq!(row.timestamps[12], midnight(2025, 3, 29));
    assert_eq!(row.timestamps[45], midnight(2028, 2, 29));
    for year in [2025, 2026, 2027] {
        assert!(!row.timestamps.contains(&midnight(year, 2, 28)));
        assert!(!row.timestamps.contains(&midnight(year, 3, 1)));
    }
    let dataset = parse_csv_file(b"02/29/2024,0,1,2,3,4,5,6,7,8,9,10,11,12").expect("the file is well-formed");
    assert_eq!(dataset[0].timestamps.len(), 12);
    assert_eq!(dataset[0].timestamps[11], midnight(2025, 1, 29));
    assert_eq!(numbers(&dataset[0]), vec![0.0, 1.0, 2.0, 3.0, 4.0, 5.0, 6.0, 7.0, 8.0, 9.0, 10.0, 11.0]);
}

#[test]
fn blank_lines_give_no_rows() {
    let dataset = parse_csv_file(b"\n\n01/15/2023,1,2\n\n\r\n02/15/2023,3\n\n\n").expect("the file is well-formed");
    assert_eq!(dataset.len(), 2);
    assert_eq!(numbers(&dataset[0]), vec![1.0, 2.0]);
    assert_eq!(numbers(&dataset[1]), vec![3.0]);
    assert_eq!(dataset[0].timestamps, vec![midnight(2023, 1, 15), midnight(2023, 2, 15)]);
    assert_eq!(dataset[1].timestamps, vec![midnight(2023, 2, 15)]);
    assert_eq!(parse_csv_file(b""), Ok(vec![]));
    assert_eq!(parse_csv_file(b"\n\n\n"), Ok(vec![]));
}

#[test]
fn month_thirteen_fails_the_whole_file() {
    assert_eq!(parse_csv_file(b"13/01/2024,5"), Err(ParseError::Date(DateError::InvalidMonth)));
    assert_eq!(
        parse_csv_file(b"01/01/2024,5\n13/01/2024,5\n02/01/2024,6\n"),
        Err(ParseError::Date(DateError::InvalidMonth))
    );
}

#[test]
fn reading_twice_gives_the_same_dataset() {
    let files: [&[u8]; 5] = [
        b"01/31/2023,10,20\n03/01/2024,5,,7\n",
        b"02/29/2024,1,2,3,4,5,6,7,8,9,10,11,12,13\n",
        b"13/01/2024,5",
        b"01/01/2024,abc",
        b"",
    ];
    for file in files {
        assert_eq!(parse_csv_file(file), parse_csv_file(file));
    }
}

#[test]
fn every_row_has_as_many_timestamps_as_values() {
    let file = b"01/31/2023,1,2,3,4,5,6,7,8,9,10,11,12,13,14\n02/29/2024,1,2,3\n06/30/2020\n12/01/1999,1,,3\n";
    let dataset = parse_csv_file(file).expect("the file is well-formed");
    assert_eq!(dataset.len(), 4);
    for row in &dataset {
        assert_eq!(row.timestamps.len(), row.values.len());
    }
    assert_eq!(dataset[0].timestamps.len(), 8);
    assert_eq!(numbers(&dataset[0]), vec![1.0, 3.0, 5.0, 7.0, 8.0, 10.0, 12.0, 13.0]);
    assert_eq!(dataset[2], RowData { timestamps: vec![], values: vec![] });
}

#[test]
fn timestamps_increase_along_a_row() {
    let line = format!("01/31/1999{}", ",0.5".repeat(400));
    let dataset = parse_csv_file(line.as_bytes()).expect("the file is well-formed");
    let row = &dataset[0];
    assert_eq!(row.timestamps.len(), 233);
    for pair in row.timestamps.windows(2) {
        assert!(pair[0] < pair[1]);
    }
}

#[test]
fn rows_keep_the_order_of_the_file() {
    let dataset = parse_csv_file(b"03/01/2024,3\n01/01/2024,1\n02/01/2024,2\n").expect("the file is well-formed");
    assert_eq!(
        dataset,
        vec![
            RowData { timestamps: vec![midnight(2024, 3, 1)], values: vec![b"3".to_vec()] },
            RowData { timestamps: vec![midnight(2024, 1, 1)], values: vec![b"1".to_vec()] },
            RowData { timestamps: vec![midnight(2024, 2, 1)], values: vec![b"2".to_vec()] },
        ]
    );
}

#[test]
fn rows_may_differ_in_width() {
    let dataset = parse_csv_file(b"01/01/2024\n01/01/2024,1\n01/01/2024,1,2,3\n").expect("the file is well-formed");
    assert_eq!(dataset.iter().map(|row| row.values.len()).collect::<Vec<_>>(), vec![0, 1, 3]);
}

#[test]
fn the_first_line_is_data() {
    let dataset = parse_csv_file(b"01/01/2024,1\n02/01/2024,2\n").expect("the file is well-formed");
    assert_eq!(dataset.len(), 2);
    assert_eq!(parse_csv_file(b"date,value\n01/01/2024,1\n"), Err(ParseError::Date(DateError::Format)));
}

#[test]
fn quoted_fields_are_unquoted() {
    let dataset = parse_csv_file(b"\"01/31/2023\",\"10\",\"2\"\"0\"\n").map_err(|e| e);
    assert_eq!(dataset, Err(ParseError::NumericParse { text: b"2\"0".to_vec() }));
    let dataset = parse_csv_file(b"\"01/31/2023\",\"10\"\r\n").expect("the file is well-formed");
    assert_eq!(dataset, vec![RowData { timestamps: vec![1_675_123_200], values: vec![b"10".to_vec()] }]);
    assert_eq!(parse_csv_file(b"01/31/2023,\"1,5\"\n"), Err(ParseError::NumericParse { text: b"1,5".to_vec() }));
}

#[test]
fn a_field_that_is_no_number_fails_with_its_text() {
    assert_eq!(parse_csv_file(b"01/01/2024,abc"), Err(ParseError::NumericParse { text: b"abc".to_vec() }));
    assert_eq!(parse_csv_file(b"01/01/2024,1,2x,3"), Err(ParseError::NumericParse { text: b"2x".to_vec() }));
    assert_eq!(parse_csv_file(b"01/01/2024, 1"), Err(ParseError::NumericParse { text: b" 1".to_vec() }));
    assert_eq!(parse_csv_file(b"01/31/2023,1,x"), Err(ParseError::NumericParse { text: b"x".to_vec() }));
}

#[test]
fn a_field_that_is_no_text_is_malformed() {
    assert_eq!(parse_csv_file(b"01/01/2024,\xff"), Err(ParseError::MalformedRecord));
    assert_eq!(parse_csv_file(b"\xff/01/2024,1"), Err(ParseError::MalformedRecord));
    assert_eq!(parse_csv_file(b"01/01/2024,1\xc3"), Err(ParseError::MalformedRecord));
    assert_eq!(parse_csv_file(b"01/01/2024,\xed\xa0\x80"), Err(ParseError::MalformedRecord));
    assert_eq!(
        parse_csv_file("01/01/2024,\u{e9}".as_bytes()),
        Err(ParseError::NumericParse { text: "\u{e9}".as_bytes().to_vec() })
    );
}

#[test]
fn a_bad_date_fails_the_file() {
    assert_eq!(parse_csv_file(b"2024-01-01,1"), Err(ParseError::Date(DateError::Format)));
    assert_eq!(parse_csv_file(b",1"), Err(ParseError::Date(DateError::Format)));
    assert_eq!(parse_csv_file(b"02/30/2024,1"), Err(ParseError::Date(DateError::InvalidDate)));
    assert_eq!(parse_csv_file(b"00/10/2024,1"), Err(ParseError::Date(DateError::InvalidMonth)));
}

#[test]
fn the_first_failure_in_reading_order_is_reported() {
    assert_eq!(
        parse_csv_file(b"01/01/2024,1,bad\n13/01/2024,1\n"),
        Err(ParseError::NumericParse { text: b"bad".to_vec() })
    );
    assert_eq!(
        parse_csv_file(b"13/01/2024,bad\n01/01/2024,worse\n"),
        Err(ParseError::Date(DateError::InvalidMonth))
    );
    assert_eq!(parse_csv_file(b"01/01/2024,\xff,bad\n"), Err(ParseError::MalformedRecord));
    assert_eq!(parse_csv_file(b"01/01/2024,bad,\xff\n"), Err(ParseError::NumericParse { text: b"bad".to_vec() }));
}

#[test]
fn a_value_is_checked_even_where_its_day_does_not_exist() {
    assert_eq!(parse_csv_file(b"01/31/2023,1,bad"), Err(ParseError::NumericParse { text: b"bad".to_vec() }));
    let dataset = parse_csv_file(b"01/31/2023,1,2,3").expect("the file is well-formed");
    assert_eq!(numbers(&dataset[0]), vec![1.0, 3.0]);
    assert_eq!(dataset[0].timestamps, vec![midnight(2023, 1, 31), midnight(2023, 3, 31)]);
}

#[test]
fn values_are_kept_as_written() {
    let dataset = parse_csv_file(b"01/01/2024,1.50,-2e3,+.5,inf,NaN").expect("the file is well-formed");
    let texts: Vec<&[u8]> = dataset[0].values.iter().map(|v| v.as_slice()).collect();
    assert_eq!(texts, vec![&b"1.50"[..], b"-2e3", b"+.5", b"inf", b"NaN"]);
    let read = numbers(&dataset[0]);
    assert_eq!(read[..3], [1.5, -2000.0, 0.5]);
    assert!(read[3].is_infinite() && read[4].is_nan());
}

#[test]
fn months_beyond_the_last_year_give_no_entry() {
    let dataset = parse_csv_file(b"11/15/9999,1,2,3,4").expect("the file is well-formed");
    assert_eq!(dataset[0].timestamps, vec![midnight(9999, 11, 15), midnight(9999, 12, 15)]);
    assert_eq!(numbers(&dataset[0]), vec![1.0, 2.0]);
}

#[test]
fn parse_row_needs_a_first_field() {
    assert_eq!(parse_row(&vec![]), Err(ParseError::MissingDateColumn));
    assert_eq!(parse_row(&record(&[""])), Err(ParseError::Date(DateError::Format)));
    assert_eq!(parse_row(&record(&["01/31/2023"])), Ok(RowData { timestamps: vec![], values: vec![] }));
}

#[test]
fn parse_row_reads_one_record() {
    assert_eq!(
        parse_row(&record(&["01/31/2023", "10", "20"])),
        Ok(RowData { timestamps: vec![1_675_123_200], values: vec![b"10".to_vec()] })
    );
    assert_eq!(
        parse_row(&record(&["03/01/2024", "5", "", "7"])),
        Ok(RowData { timestamps: vec![1_709_251_200], values: vec![b"5".to_vec()] })
    );
    assert_eq!(parse_row(&record(&["13/01/2024", "5"])), Err(ParseError::Date(DateError::InvalidMonth)));
    assert_eq!(parse_row(&vec![b"01/31/2023".to_vec(), vec![0xff]]), Err(ParseError::MalformedRecord));
}

#[test]
fn parse_records_skips_records_without_fields() {
    let records = vec![vec![], record(&["01/15/2023", "1"]), vec![], vec![], record(&["02/15/2023", "2", "3"])];
    let dataset = parse_records(&records).expect("the records are well-formed");
    assert_eq!(dataset.len(), 2);
    assert_eq!(dataset[0].timestamps, vec![midnight(2023, 1, 15)]);
    assert_eq!(dataset[1].timestamps, vec![midnight(2023, 2, 15), midnight(2023, 3, 15)]);
    assert_eq!(parse_records(&vec![]), Ok(vec![]));
    assert_eq!(parse_records(&vec![vec![], vec![]]), Ok(vec![]));
}

#[test]
fn parse_records_fails_on_the_first_bad_record() {
    let records = vec![record(&["01/15/2023", "1"]), record(&["01/15/2023", "x"]), record(&["nonsense"])];
    assert_eq!(parse_records(&records), Err(ParseError::NumericParse { text: b"x".to_vec() }));
    let records = vec![record(&["nonsense"]), record(&["01/15/2023", "x"])];
    assert_eq!(parse_records(&records), Err(ParseError::Date(DateError::Format)));
}

#[test]
fn classify_field_sorts_fields() {
    assert_eq!(classify_field(b""), FieldKind::Blank);
    assert_eq!(classify_field(b"\xff"), FieldKind::Malformed);
    assert_eq!(classify_field(b"1\x80"), FieldKind::Malformed);
    assert_eq!(classify_field(b"abc"), FieldKind::NotNumeric);
    assert_eq!(classify_field(" ".as_bytes()), FieldKind::NotNumeric);
    assert_eq!(classify_field(b"1.5"), FieldKind::Value);
    assert_eq!(classify_field(b"-inf"), FieldKind::Value);
}
