use fcars_report::csv::{lines, nonblank_lines, parse_csv_dataset, parse_record, trim};

fn s(text: &str) -> String {
    text.to_string()
}

fn texts(items: &[&str]) -> Vec<String> {
    items.iter().map(|t| s(t)).collect()
}

#[test]
fn lines_match_str_lines() {
    for text in ["", "a", "a\n", "a\nb", "a\r\nb\r\n", "\n", "\n\n", "a\r", "a\r\r\n", "x\ny\n\nz"] {
        let expected: Vec<String> = text.lines().map(|l| l.to_string()).collect();
        assert_eq!(lines(text), expected, "{text:?}");
    }
}

#[test]
fn trim_matches_str_trim() {
    for text in ["", "  a  ", "\t a b \r\n", "\u{a0}x\u{3000}", "\u{2009}y", "z\u{200b}", "  "] {
        assert_eq!(trim(text), text.trim(), "{text:?}");
    }
}

#[test]
fn parse_record_trims_each_field() {
    assert_eq!(parse_record(" a , b,c "), texts(&["a", "b", "c"]));
    assert_eq!(parse_record(""), texts(&[""]));
    assert_eq!(parse_record("a,,b,"), texts(&["a", "", "b", ""]));
}

#[test]
fn nonblank_lines_skip_blank_lines() {
    assert_eq!(nonblank_lines("a\n  \n\nb\n \t\n"), texts(&["a", "b"]));
}

#[test]
fn parse_csv_dataset_reads_objects_and_rows() {
    let raw = "Id,Outlook,Play\n\nd1, Sunny ,No\nd2,Rainy,Yes\n";
    let d = parse_csv_dataset(raw, "Play", Some("Id")).unwrap();
    assert_eq!(d.objects, texts(&["d1", "d2"]));
    assert_eq!(d.attributes, texts(&["Outlook", "Play"]));
    assert_eq!(d.class_attribute, "Play");
    assert_eq!(
        d.data,
        vec![
            vec![(s("Outlook"), s("Sunny")), (s("Play"), s("No"))],
            vec![(s("Outlook"), s("Rainy")), (s("Play"), s("Yes"))],
        ]
    );
}

#[test]
fn parse_csv_dataset_names_objects_without_object_column() {
    let d = parse_csv_dataset("a,c\n1,x\n2,y\n", "c", None).unwrap();
    assert_eq!(d.objects, texts(&["obj1", "obj2"]));
    assert_eq!(d.attributes, texts(&["a", "c"]));
}

#[test]
fn parse_csv_dataset_later_duplicate_header_wins() {
    let d = parse_csv_dataset("a,a,c\n1,2,x\n", "c", None).unwrap();
    assert_eq!(d.data[0], vec![(s("a"), s("2")), (s("c"), s("x"))]);
    assert_eq!(d.attributes, texts(&["a", "a", "c"]));
}

#[test]
fn parse_csv_dataset_rejects_too_few_lines() {
    assert_eq!(
        parse_csv_dataset("a,c\n\n", "c", None).err().unwrap(),
        "Input file must contain a header row and at least one data row."
    );
}

#[test]
fn parse_csv_dataset_rejects_missing_class_column() {
    assert_eq!(
        parse_csv_dataset("a,c\n1,2\n", "Play", None).err().unwrap(),
        "Class attribute 'Play' is not present in the header."
    );
}

#[test]
fn parse_csv_dataset_rejects_missing_object_column() {
    assert_eq!(
        parse_csv_dataset("a,c\n1,2\n", "c", Some("Id")).err().unwrap(),
        "Object column 'Id' is not present in the header."
    );
}

#[test]
fn parse_csv_dataset_rejects_object_column_equal_to_class() {
    assert_eq!(
        parse_csv_dataset("a,c\n1,2\n", "c", Some("c")).err().unwrap(),
        "The object column cannot be the same as the class column."
    );
}

#[test]
fn parse_csv_dataset_rejects_rows_with_wrong_field_count() {
    assert_eq!(
        parse_csv_dataset("a,c\n1,2\n3\n4,5,6\n", "c", None).err().unwrap(),
        "Row 3 has 1 field(s), expected 2. The parser expects a simple CSV file without quoted commas."
    );
}

#[test]
fn parse_record_gives_back_joined_fields() {
    let fields = texts(&["Outlook", "Sunny", "", "a b", "x"]);
    assert_eq!(parse_record(&fields.join(",")), fields);
    let single = texts(&["only"]);
    assert_eq!(parse_record(&single.join(",")), single);
}

#[test]
fn parse_record_has_one_field_more_than_commas() {
    for line in ["", "a", ",", "a,,b", " , , ", "a,b,c,d,"] {
        assert_eq!(parse_record(line).len(), line.matches(',').count() + 1, "{line:?}");
    }
}

#[test]
fn parse_csv_dataset_names_each_attribute_once_per_row() {
    let raw = "A,B,A,Class\n1,2,3,yes\n";
    let d = parse_csv_dataset(raw, "Class", None).unwrap();
    assert_eq!(d.data.len(), 1);
    assert_eq!(d.data[0], vec![(s("A"), s("3")), (s("B"), s("2")), (s("Class"), s("yes"))]);
}
