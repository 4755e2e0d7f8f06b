use qdplot::dataset::DataSet;
use qdplot::error::DatasetError;
use qdplot::table::read_number;
use qdplot::text::{chars_of, clean_chars, is_space_char, split_chars, string_of};

fn chars(text: &str) -> Vec<char> {
    text.chars().collect()
}

fn read(text: &str, places: u8) -> Option<Option<i32>> {
    read_number(&chars(text), places)
}

fn point(x: i32, y: i32) -> (Option<i32>, Option<i32>) {
    (Some(x), Some(y))
}

#[test]
fn dataset_csv() {
    let text = r#"
         , A , B , "C"
        -1  , 0 , 1 , 3
        -5  , 1 , -2, 4
    "#
    .trim();
    let dataset = DataSet::from_csv(text, 0).unwrap();
    assert!(dataset.len() == 3);
}

#[test]
fn each_column_is_a_series() {
    let text = ",A,B,\"C\"\n-1,0,1,3\n-5,1,-2,4";
    let dataset = DataSet::from_csv(text, 0).unwrap();
    let series = dataset.series();
    assert_eq!(series.len(), 3);
    assert_eq!(series[0].label, "A");
    assert_eq!(series[1].label, "B");
    assert_eq!(series[2].label, "C");
    assert_eq!(series[0].points, vec![point(-1, 0), point(-5, 1)]);
    assert_eq!(series[1].points, vec![point(-1, 1), point(-5, -2)]);
    assert_eq!(series[2].points, vec![point(-1, 3), point(-5, 4)]);
}

#[test]
fn numbers_are_read_to_the_given_places() {
    let text = "t,a\n0.5,1.25\n1,-0.001\n";
    let dataset = DataSet::from_csv(text, 3).unwrap();
    assert_eq!(dataset.series()[0].points, vec![point(500, 1250), point(1000, -1)]);
    let dataset = DataSet::from_csv(text, 1).unwrap();
    assert_eq!(dataset.series()[0].points, vec![point(5, 12), point(10, 0)]);
}

#[test]
fn a_text_without_a_line_has_no_data() {
    assert!(matches!(DataSet::from_csv("", 0), Err(DatasetError::NoData)));
    assert_eq!(DataSet::from_csv("\n", 0).unwrap().len(), 0);
    assert_eq!(DataSet::from_csv(",A,B", 0).unwrap().len(), 0);
    assert_eq!(DataSet::from_csv(",A,B\n", 0).unwrap().len(), 0);
}

#[test]
fn a_field_that_is_no_number_is_invalid() {
    match DataSet::from_csv(",A\n1,2\n3, x4 \n5,6", 0) {
        Err(DatasetError::InvalidData(text)) => assert_eq!(text, "cannot read \"x4\" as a number"),
        _ => panic!("the field x4 is no number"),
    }
    match DataSet::from_csv(",A\n1,2\n\n5,6", 0) {
        Err(DatasetError::InvalidData(text)) => assert_eq!(text, "cannot read \"\" as a number"),
        _ => panic!("an empty line has an empty first field"),
    }
    match DataSet::from_csv(",A\n1e3,2\n", 0) {
        Err(DatasetError::InvalidData(text)) => assert_eq!(text, "cannot read \"1e3\" as a number"),
        _ => panic!("an exponent is not read"),
    }
    let e = DataSet::from_csv(",A\n1,2.5.1\n", 2).unwrap_err();
    assert_eq!(e.to_string(), "Data Error: Invalid Data: cannot read \"2.5.1\" as a number");
}

#[test]
fn the_first_invalid_field_is_reported() {
    match DataSet::from_csv(",A,B\n1,2,b\nx,y,z", 0) {
        Err(DatasetError::InvalidData(text)) => assert_eq!(text, "cannot read \"b\" as a number"),
        _ => panic!("the field b comes first"),
    }
    match DataSet::from_csv(",A,B\nx,y,z", 0) {
        Err(DatasetError::InvalidData(text)) => assert_eq!(text, "cannot read \"x\" as a number"),
        _ => panic!("the field x comes first"),
    }
}

#[test]
fn fields_beyond_the_labels_are_not_read() {
    let dataset = DataSet::from_csv(",A\n1,2,junk\n3,4", 0).unwrap();
    assert_eq!(dataset.series()[0].points, vec![point(1, 2), point(3, 4)]);
}

#[test]
fn a_short_row_gives_points_to_the_first_labels() {
    let dataset = DataSet::from_csv(",A,B\n1,2\n3,4,5\n6", 0).unwrap();
    let series = dataset.series();
    assert_eq!(series[0].points, vec![point(1, 2), point(3, 4)]);
    assert_eq!(series[1].points, vec![point(3, 5)]);
}

#[test]
fn columns_of_one_label_share_a_series() {
    let dataset = DataSet::from_csv(",A,B,A\n1,2,3,4", 0).unwrap();
    let series = dataset.series();
    assert_eq!(series.len(), 2);
    assert_eq!(series[0].points, vec![point(1, 2), point(1, 4)]);
    assert_eq!(series[1].points, vec![point(1, 3)]);
}

#[test]
fn missing_values_are_kept_as_missing() {
    let dataset = DataSet::from_csv(",A,B\nnan,1,NaN\n2,NAN,3", 0).unwrap();
    let series = dataset.series();
    assert_eq!(series[0].points, vec![(None, Some(1)), (Some(2), None)]);
    assert_eq!(series[1].points, vec![(None, None), point(2, 3)]);
}

#[test]
fn quotes_and_space_do_not_count() {
    let dataset = DataSet::from_csv(" idx ,\t\" A b \" \r\n \"1\" , \"2\"\t\r\n", 0).unwrap();
    let series = dataset.series();
    assert_eq!(series.len(), 1);
    assert_eq!(series[0].label, "A b");
    assert_eq!(series[0].points, vec![point(1, 2)]);
}

#[test]
fn whole_numbers() {
    assert_eq!(read("0", 0), Some(Some(0)));
    assert_eq!(read("42", 0), Some(Some(42)));
    assert_eq!(read("-42", 0), Some(Some(-42)));
    assert_eq!(read("+42", 0), Some(Some(42)));
    assert_eq!(read("007", 0), Some(Some(7)));
    assert_eq!(read("42", 2), Some(Some(4200)));
}

#[test]
fn decimal_places() {
    assert_eq!(read("0.1", 3), Some(Some(100)));
    assert_eq!(read("-0.5", 3), Some(Some(-500)));
    assert_eq!(read("1.23456", 3), Some(Some(1234)));
    assert_eq!(read("1.9999", 0), Some(Some(1)));
    assert_eq!(read("-1.9999", 2), Some(Some(-199)));
    assert_eq!(read(".5", 1), Some(Some(5)));
    assert_eq!(read("5.", 1), Some(Some(50)));
    assert_eq!(read("3.14", 9), None);
    assert_eq!(read("2.000000001", 9), Some(Some(2000000001)));
}

#[test]
fn the_size_of_a_number_is_limited() {
    assert_eq!(read("2147483647", 0), Some(Some(i32::MAX)));
    assert_eq!(read("2147483648", 0), None);
    assert_eq!(read("-2147483648", 0), Some(Some(i32::MIN)));
    assert_eq!(read("-2147483649", 0), None);
    assert_eq!(read("214748.3647", 4), Some(Some(i32::MAX)));
    assert_eq!(read("214748.3648", 4), None);
    assert_eq!(read("99999999999999999999999999", 0), None);
    assert_eq!(read("0.99999999999999999999999999", 2), Some(Some(99)));
}

#[test]
fn what_is_no_number() {
    for text in ["", "-", "+", ".", "-.", "1e3", "abc", "1.2.3", "1,5", "--1", "1-", " 1", "inf", "0x10", "na", "nane"] {
        assert_eq!(read(text, 2), None);
    }
}

#[test]
fn nan_is_a_missing_value() {
    for text in ["nan", "NaN", "NAN", "nAn", "+nan", "-NaN"] {
        assert_eq!(read(text, 2), Some(None));
    }
}

#[test]
fn pieces_between_separators() {
    let pieces = split_chars(&chars("a,b,,c,"), ',');
    let texts: Vec<String> = pieces.iter().map(string_of).collect();
    assert_eq!(texts, vec!["a", "b", "", "c", ""]);
    assert_eq!(split_chars(&chars(""), ','), vec![Vec::<char>::new()]);
    assert_eq!(split_chars(&chars("abc"), ','), vec![chars("abc")]);
}

#[test]
fn cleaning_a_field() {
    assert_eq!(string_of(&clean_chars(&chars("  \"a b\"\t"))), "a b");
    assert_eq!(string_of(&clean_chars(&chars("\" \""))), "");
    assert_eq!(string_of(&clean_chars(&chars("a\"b\"c"))), "abc");
    assert_eq!(string_of(&clean_chars(&chars(""))), "");
    assert_eq!(string_of(&clean_chars(&chars(" \u{a0}x\u{3000} "))), "x");
    assert_eq!(string_of(&clean_chars(&chars("x y"))), "x y");
}

#[test]
fn white_space_is_what_trim_takes_for_it() {
    for code in 0..0x3100u32 {
        if let Some(c) = char::from_u32(code) {
            assert_eq!(is_space_char(c), c.is_whitespace());
        }
    }
}

#[test]
fn characters_of_a_text() {
    assert_eq!(chars_of("h\u{e9}llo"), chars("h\u{e9}llo"));
    assert_eq!(string_of(&chars("h\u{e9}llo")), "h\u{e9}llo");
    assert!(chars_of("").is_empty());
}
