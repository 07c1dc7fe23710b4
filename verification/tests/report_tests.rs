use fcars_report::cnc::{AttributeGain, CncBpResult, CncConcept, CncResult};
use fcars_report::dataset::NominalDataset;
use fcars_report::html::{escape_text, join_with, render_page, write_page};
use fcars_report::report::{
    build_cnc_bp_report_page, build_cnc_report_page, build_concept_view, build_concepts,
    build_dataset_section_view, build_information_gain_rows, render_cnc_bp_report_html,
    render_cnc_report_html,
};
use fcars_report::view::LabelValue;

fn s(text: &str) -> String {
    text.to_string()
}

fn row(entries: &[(&str, &str)]) -> Vec<(String, String)> {
    entries.iter().map(|(a, v)| (s(a), s(v))).collect()
}

fn create_weather_dataset() -> NominalDataset {
    let objects = vec![s("o2"), s("o6"), s("o9"), s("o10"), s("o13")];
    let attributes = vec![s("Outlook"), s("Temperature"), s("Humidity"), s("Windy"), s("Play")];
    let data = vec![
        row(&[("Outlook", "Sunny"), ("Temperature", "Hot"), ("Humidity", "High"), ("Windy", "True"), ("Play", "No")]),
        row(&[("Outlook", "Rainy"), ("Temperature", "Cool"), ("Humidity", "Normal"), ("Windy", "True"), ("Play", "No")]),
        row(&[("Outlook", "Sunny"), ("Temperature", "Cool"), ("Humidity", "Normal"), ("Windy", "False"), ("Play", "Yes")]),
        row(&[("Outlook", "Rainy"), ("Temperature", "Mild"), ("Humidity", "Normal"), ("Windy", "False"), ("Play", "Yes")]),
        row(&[("Outlook", "Overcast"), ("Temperature", "Hot"), ("Humidity", "Normal"), ("Windy", "False"), ("Play", "Yes")]),
    ];
    NominalDataset::new(objects, attributes, s("Play"), data)
}

/// The information gain of each attribute of the weather dataset, in millionths.
fn weather_gains() -> Vec<AttributeGain> {
    vec![
        AttributeGain { attribute: s("Outlook"), gain_micros: 170951 },
        AttributeGain { attribute: s("Temperature"), gain_micros: 170951 },
        AttributeGain { attribute: s("Humidity"), gain_micros: 321928 },
        AttributeGain { attribute: s("Windy"), gain_micros: 970951 },
    ]
}

/// What CNC selects on the weather dataset: the attribute `Windy`, with one
/// concept per value.
fn weather_cnc() -> CncResult {
    CncResult {
        pertinent_attrs: vec![s("Windy")],
        concepts: vec![
            CncConcept {
                pertinent_attribute: s("Windy"),
                attribute_value: s("False"),
                extent: vec![2, 3, 4],
                intent: row(&[("Windy", "False"), ("Humidity", "Normal")]),
            },
            CncConcept {
                pertinent_attribute: s("Windy"),
                attribute_value: s("True"),
                extent: vec![0, 1],
                intent: row(&[("Windy", "True")]),
            },
        ],
    }
}

/// What CNC-BP keeping one minority class selects on the weather dataset.
fn weather_cnc_bp() -> CncBpResult {
    CncBpResult {
        minority_classes: vec![s("No")],
        original_size: 5,
        filtered_size: 2,
        cnc_result: CncResult {
            pertinent_attrs: vec![s("Windy")],
            concepts: vec![CncConcept {
                pertinent_attribute: s("Windy"),
                attribute_value: s("True"),
                extent: vec![0, 1],
                intent: row(&[("Windy", "True")]),
            }],
        },
    }
}

#[test]
fn cnc_report_template_renders_information_gain() {
    let dataset = create_weather_dataset();
    let results = weather_cnc();
    let html = render_cnc_report_html(&dataset, &results, &weather_gains(), Some("Weather")).unwrap();

    assert!(html.contains("Information Gain"));
    assert!(html.contains("Windy"));
    assert!(html.contains("Concept 1"));
}

#[test]
fn cnc_bp_report_template_renders_filter_section() {
    let dataset = create_weather_dataset();
    let results = weather_cnc_bp();
    let html = render_cnc_bp_report_html(&dataset, &results, &weather_gains(), Some("Weather BP")).unwrap();

    assert!(html.contains("Minority-Class Filter"));
    assert!(html.contains("Filtered Dataset"));
    assert!(html.contains("Concept 1"));
}

fn pairs(rows: &[LabelValue]) -> Vec<(String, String)> {
    rows.iter().map(|r| (r.label.clone(), r.value.clone())).collect()
}

fn texts(items: &[&str]) -> Vec<String> {
    items.iter().map(|t| s(t)).collect()
}

#[test]
fn dataset_section_describes_the_dataset() {
    let dataset = create_weather_dataset();
    let section = build_dataset_section_view("Dataset", &dataset);
    assert_eq!(section.heading, "Dataset");
    assert_eq!(
        pairs(&section.overview_rows),
        vec![
            (s("Objects"), s("5")),
            (s("Descriptive attributes"), s("4")),
            (s("Class attribute"), s("Play")),
        ]
    );
    assert_eq!(
        section.context_headers,
        texts(&["Object", "Outlook", "Temperature", "Humidity", "Windy", "Play"])
    );
    assert_eq!(section.context_rows.len(), 5);
    assert_eq!(section.context_rows[0], texts(&["o2", "Sunny", "Hot", "High", "True", "No"]));
    assert_eq!(
        pairs(&section.attribute_rows),
        vec![(s("Outlook"), s("3")), (s("Temperature"), s("3")), (s("Humidity"), s("2")), (s("Windy"), s("2"))]
    );
    let dist: Vec<(String, usize, String)> = section
        .class_distribution
        .iter()
        .map(|c| (c.name.clone(), c.count, c.percentage.clone()))
        .collect();
    assert_eq!(dist, vec![(s("Yes"), 3, s("60.0%")), (s("No"), 2, s("40.0%"))]);
}

#[test]
fn dataset_section_marks_missing_values() {
    let dataset = NominalDataset::new(
        texts(&["x"]),
        texts(&["a", "b", "c"]),
        s("c"),
        vec![row(&[("a", "1")])],
    );
    let section = build_dataset_section_view("D", &dataset);
    assert_eq!(section.context_rows[0], texts(&["x", "1", "?", "?"]));
    let dist: Vec<(String, usize, String)> = section
        .class_distribution
        .iter()
        .map(|c| (c.name.clone(), c.count, c.percentage.clone()))
        .collect();
    assert_eq!(dist, vec![(s("?"), 1, s("100.0%"))]);
}

#[test]
fn information_gain_rows_mark_pertinent_attributes() {
    let dataset = create_weather_dataset();
    let rows = build_information_gain_rows(&dataset, &weather_gains(), &texts(&["Windy"]));
    assert_eq!(rows.len(), 4);
    assert_eq!(rows[0].attribute, "Outlook");
    assert_eq!(rows[0].gain, "0.170951");
    assert!(!rows[0].chosen);
    assert_eq!(rows[0].most_frequent_values, texts(&["Rainy", "Sunny"]));
    assert_eq!(rows[1].most_frequent_values, texts(&["Cool", "Hot"]));
    assert_eq!(rows[3].attribute, "Windy");
    assert_eq!(rows[3].gain, "0.970951");
    assert!(rows[3].chosen);
    assert_eq!(rows[3].most_frequent_values, texts(&["False"]));
}

#[test]
fn concept_view_summarizes_the_concept() {
    let dataset = create_weather_dataset();
    let results = weather_cnc();
    let view = build_concept_view(0, &dataset, &results.concepts[0], 4);
    assert_eq!(view.title, "Concept 1");
    assert_eq!(
        pairs(&view.summary_rows),
        vec![
            (s("Pertinent attribute"), s("Windy")),
            (s("Chosen value"), s("False")),
            (s("Extent size"), s("3/5 (60.0%)")),
            (s("Intent size"), s("2/4 (50.0%)")),
        ]
    );
    assert_eq!(view.extent_objects, texts(&["o9", "o10", "o13"]));
    assert_eq!(
        pairs(&view.intent_rows),
        vec![(s("Humidity"), s("Normal")), (s("Windy"), s("False"))]
    );
    assert_eq!(view.class_distribution.len(), 1);
    assert_eq!(view.class_distribution[0].name, "Yes");
    assert_eq!(view.class_distribution[0].percentage, "100.0%");
    assert_eq!(view.majority_summary, "Yes (3/3, 100.0%)");
}

#[test]
fn concept_view_of_an_empty_extent_has_no_majority() {
    let dataset = create_weather_dataset();
    let concept = CncConcept {
        pertinent_attribute: s("Windy"),
        attribute_value: s("Maybe"),
        extent: vec![],
        intent: vec![],
    };
    let view = build_concept_view(6, &dataset, &concept, 0);
    assert_eq!(view.title, "Concept 7");
    assert_eq!(view.summary_rows[2].value, "0/5 (0.0%)");
    assert_eq!(view.summary_rows[3].value, "0/0 (0.0%)");
    assert_eq!(view.majority_summary, "");
    assert!(view.class_distribution.is_empty());
}

#[test]
fn concepts_are_numbered_from_one() {
    let dataset = create_weather_dataset();
    let views = build_concepts(&dataset, &weather_cnc());
    let titles: Vec<String> = views.iter().map(|v| v.title.clone()).collect();
    assert_eq!(titles, texts(&["Concept 1", "Concept 2"]));
    assert_eq!(views[1].majority_summary, "No (2/2, 100.0%)");
}

#[test]
fn cnc_page_uses_the_default_title_and_counts_concepts() {
    let dataset = create_weather_dataset();
    let page = build_cnc_report_page(&dataset, &weather_cnc(), &weather_gains(), None);
    assert_eq!(page.title, "CNC Report");
    assert_eq!(page.lead, "Formal Concept Analysis report for a nominal dataset classified with CNC.");
    assert!(page.filter_rows.is_empty());
    assert_eq!(page.dataset_sections.len(), 1);
    assert_eq!(page.concept_count, 2);
    assert_eq!(page.concepts.len(), 2);
}

#[test]
fn cnc_bp_page_shows_the_filter() {
    let dataset = create_weather_dataset();
    let mut bp = weather_cnc_bp();
    bp.minority_classes = texts(&["Yes", "No"]);
    bp.filtered_size = 5;
    let page = build_cnc_bp_report_page(&dataset, &bp, &weather_gains(), None);
    assert_eq!(page.title, "CNC-BP Report");
    assert_eq!(
        pairs(&page.filter_rows),
        vec![
            (s("Original objects"), s("5")),
            (s("Filtered objects"), s("5")),
            (s("Minority classes kept"), s("No, Yes")),
        ]
    );
    let headings: Vec<String> = page.dataset_sections.iter().map(|d| d.heading.clone()).collect();
    assert_eq!(headings, texts(&["Original Dataset", "Filtered Dataset"]));
}

#[test]
fn cnc_bp_page_describes_the_filtered_dataset() {
    let dataset = create_weather_dataset();
    let page = build_cnc_bp_report_page(&dataset, &weather_cnc_bp(), &weather_gains(), Some("T"));
    let filtered = &page.dataset_sections[1];
    assert_eq!(filtered.context_rows.len(), 2);
    assert_eq!(filtered.overview_rows[0].value, "2");
    assert_eq!(page.concepts[0].summary_rows[2].value, "2/2 (100.0%)");
    assert_eq!(page.concepts[0].extent_objects, texts(&["o2", "o6"]));
    assert_eq!(page.information_gain_rows.len(), 4);
}

#[test]
fn escape_text_escapes_markup_characters() {
    assert_eq!(escape_text(&s("a<b>&\"c'")).unwrap(), "a&#60;b&#62;&#38;&#34;c&#39;");
    assert_eq!(escape_text(&s("plain é")).unwrap(), "plain é");
}

#[test]
fn join_with_separates_texts() {
    assert_eq!(join_with(&texts(&["a", "b", "c"]), ", "), "a, b, c");
    assert_eq!(join_with(&texts(&["a"]), ", "), "a");
    assert_eq!(join_with(&vec![], ", "), "");
}

#[test]
fn rendered_report_escapes_data() {
    let mut dataset = create_weather_dataset();
    dataset.objects[0] = s("<o2>");
    let results = weather_cnc();
    let html = render_cnc_report_html(&dataset, &results, &weather_gains(), Some("A & B")).unwrap();
    assert!(html.contains("<title>A &#38; B</title>"));
    assert!(html.contains("<td>&#60;o2&#62;</td>"));
    assert!(!html.contains("<o2>"));
    assert!(html.contains("<h2>Concepts (2)</h2>"));
    assert!(!html.contains("Minority-Class Filter"));
}

#[test]
fn render_page_is_layout_of_escaped_page() {
    let dataset = create_weather_dataset();
    let page = build_cnc_report_page(&dataset, &weather_cnc(), &weather_gains(), Some("W"));
    let html = render_page(&page).unwrap();
    assert_eq!(html, write_page(&page));
    assert!(html.starts_with("<!DOCTYPE html>\n"));
    assert!(html.ends_with("</body>\n</html>\n"));
    assert!(html.contains("<tr><td>Windy</td><td>0.970951</td><td>yes</td><td>False</td></tr>"));
    assert!(html.contains("<tr><th>Extent size</th><td>3/5 (60.0%)</td></tr>"));
}

#[test]
fn bp_report_ignores_minority_class_order() {
    let dataset = create_weather_dataset();
    let mut first = weather_cnc_bp();
    first.minority_classes = vec![s("No"), s("Yes")];
    first.filtered_size = 5;
    first.cnc_result.concepts.clear();
    let mut second = weather_cnc_bp();
    second.minority_classes = vec![s("Yes"), s("No")];
    second.filtered_size = 5;
    second.cnc_result.concepts.clear();
    let a = render_cnc_bp_report_html(&dataset, &first, &weather_gains(), None).unwrap();
    let b = render_cnc_bp_report_html(&dataset, &second, &weather_gains(), None).unwrap();
    assert_eq!(a, b);
    assert!(a.contains("No, Yes"));
}

#[test]
fn no_title_renders_as_default_title() {
    let dataset = create_weather_dataset();
    let results = weather_cnc();
    let a = render_cnc_report_html(&dataset, &results, &weather_gains(), None).unwrap();
    let b = render_cnc_report_html(&dataset, &results, &weather_gains(), Some("CNC Report")).unwrap();
    assert_eq!(a, b);
    let bp = weather_cnc_bp();
    let c = render_cnc_bp_report_html(&dataset, &bp, &weather_gains(), None).unwrap();
    let d = render_cnc_bp_report_html(&dataset, &bp, &weather_gains(), Some("CNC-BP Report")).unwrap();
    assert_eq!(c, d);
}
