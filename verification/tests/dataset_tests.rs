use fcars_report::dataset::{
    attribute_values, cell, class_values, descriptive_attributes, filter_dataset_by_classes,
    majority_class, most_frequent_values, row_value, summarize_class_values, summarize_dataset,
    unique_value_count, NominalDataset,
};

fn s(text: &str) -> String {
    text.to_string()
}

fn texts(items: &[&str]) -> Vec<String> {
    items.iter().map(|t| s(t)).collect()
}

fn row(entries: &[(&str, &str)]) -> Vec<(String, String)> {
    entries.iter().map(|(a, v)| (s(a), s(v))).collect()
}

fn weather() -> NominalDataset {
    NominalDataset::new(
        texts(&["o2", "o6", "o9", "o10", "o13"]),
        texts(&["Outlook", "Temperature", "Humidity", "Windy", "Play"]),
        s("Play"),
        vec![
            row(&[("Outlook", "Sunny"), ("Temperature", "Hot"), ("Humidity", "High"), ("Windy", "True"), ("Play", "No")]),
            row(&[("Outlook", "Rainy"), ("Temperature", "Cool"), ("Humidity", "Normal"), ("Windy", "True"), ("Play", "No")]),
            row(&[("Outlook", "Sunny"), ("Temperature", "Cool"), ("Humidity", "Normal"), ("Windy", "False"), ("Play", "Yes")]),
            row(&[("Outlook", "Rainy"), ("Temperature", "Mild"), ("Humidity", "Normal"), ("Windy", "False"), ("Play", "Yes")]),
            row(&[("Outlook", "Overcast"), ("Temperature", "Hot"), ("Humidity", "Normal"), ("Windy", "False"), ("Play", "Yes")]),
        ],
    )
}

#[test]
fn row_value_reads_the_first_entry() {
    let r = row(&[("a", "1"), ("b", "2"), ("a", "3")]);
    assert_eq!(row_value(&r, "a"), Some(&s("1")));
    assert_eq!(row_value(&r, "b"), Some(&s("2")));
    assert_eq!(row_value(&r, "c"), None);
}

#[test]
fn cell_shows_question_mark_for_missing_values() {
    let r = row(&[("a", "1")]);
    assert_eq!(cell(&r, "a"), "1");
    assert_eq!(cell(&r, "b"), "?");
}

#[test]
fn descriptive_attributes_leave_out_the_class() {
    let d = weather();
    assert_eq!(
        descriptive_attributes(&d.attributes, &d.class_attribute),
        texts(&["Outlook", "Temperature", "Humidity", "Windy"])
    );
}

#[test]
fn class_values_follow_the_extent() {
    let d = weather();
    assert_eq!(class_values(&d, &vec![4, 0, 2]), texts(&["Yes", "No", "Yes"]));
    assert_eq!(class_values(&d, &vec![]), Vec::<String>::new());
}

#[test]
fn summarize_class_values_sorts_by_count_then_name() {
    let values = texts(&["b", "a", "c", "b", "c", "d"]);
    let d = summarize_class_values(&values);
    assert_eq!(d, vec![(s("b"), 2), (s("c"), 2), (s("a"), 1), (s("d"), 1)]);
    let total: usize = d.iter().map(|(_, c)| c).sum();
    assert_eq!(total, values.len());
    assert!(summarize_class_values(&vec![]).is_empty());
}

#[test]
fn majority_class_takes_the_top_count() {
    assert_eq!(majority_class(&texts(&["No", "Yes", "Yes"])), Some((s("Yes"), 2)));
    assert_eq!(majority_class(&texts(&["Yes", "No"])), Some((s("No"), 1)));
    assert_eq!(majority_class(&vec![]), None);
}

#[test]
fn most_frequent_values_list_all_ties_by_name() {
    let d = weather();
    assert_eq!(most_frequent_values(&d, "Outlook"), texts(&["Rainy", "Sunny"]));
    assert_eq!(most_frequent_values(&d, "Humidity"), texts(&["Normal"]));
    assert_eq!(most_frequent_values(&d, "Missing"), Vec::<String>::new());
}

#[test]
fn attribute_values_skip_rows_without_the_attribute() {
    let d = NominalDataset::new(
        texts(&["x", "y"]),
        texts(&["a", "c"]),
        s("c"),
        vec![row(&[("a", "1"), ("c", "k")]), row(&[("c", "k")])],
    );
    assert_eq!(attribute_values(&d, "a"), texts(&["1"]));
    assert_eq!(unique_value_count(&d, "a"), 1);
    assert_eq!(unique_value_count(&weather(), "Outlook"), 3);
}

#[test]
fn filter_keeps_objects_of_the_given_classes() {
    let d = weather();
    let f = filter_dataset_by_classes(&d, &texts(&["No"]));
    assert_eq!(f.objects, texts(&["o2", "o6"]));
    assert_eq!(f.data.len(), 2);
    assert_eq!(f.data[1], d.data[1]);
    assert_eq!(f.attributes, d.attributes);
    assert_eq!(f.class_attribute, "Play");
    let none = filter_dataset_by_classes(&d, &texts(&["Maybe"]));
    assert!(none.objects.is_empty());
}

#[test]
fn summarize_dataset_counts_values() {
    let d = weather();
    let summary = summarize_dataset(&d);
    assert_eq!(summary.objects, 5);
    assert_eq!(summary.descriptive_attributes, 4);
    assert_eq!(summary.class_attribute, "Play");
    assert_eq!(
        summary.attribute_unique_values,
        vec![(s("Outlook"), 3), (s("Temperature"), 3), (s("Humidity"), 2), (s("Windy"), 2)]
    );
    assert_eq!(summary.class_distribution, vec![(s("Yes"), 3), (s("No"), 2)]);
}
