use fcars_report::cli::{
    default_title, next_arg, parse_args, parse_usize, report_title, usage, Config, ParsedArgs,
};

fn s(text: &str) -> String {
    text.to_string()
}

fn args(items: &[&str]) -> Vec<String> {
    items.iter().map(|t| s(t)).collect()
}

fn run_config(items: &[&str]) -> Config {
    match parse_args(args(items)) {
        Ok(ParsedArgs::Run(c)) => c,
        Ok(ParsedArgs::Help) => panic!("asked for help"),
        Err(e) => panic!("{e}"),
    }
}

fn error_of(items: &[&str]) -> String {
    match parse_args(args(items)) {
        Err(e) => e,
        Ok(_) => panic!("accepted"),
    }
}

#[test]
fn usage_lists_the_options() {
    let u = usage();
    assert!(u.starts_with("Usage:\n"));
    assert!(u.contains("--object-column <name>"));
    assert!(u.contains("--bp <n>"));
    assert!(u.ends_with("--output target/reports/weather.html"));
}

#[test]
fn no_arguments_give_the_usage() {
    assert_eq!(error_of(&[]), usage());
}

#[test]
fn help_anywhere_asks_for_help() {
    assert!(matches!(parse_args(args(&["data.csv", "--bogus", "-h"])), Ok(ParsedArgs::Help)));
    assert!(matches!(parse_args(args(&["--help"])), Ok(ParsedArgs::Help)));
}

#[test]
fn full_command_line_is_read() {
    let c = run_config(&[
        "data/weather.csv", "--class", "Play", "--object-column", "Id", "--output", "out.html",
        "--bp", "+2",
    ]);
    assert_eq!(c.input_path, "data/weather.csv");
    assert_eq!(c.output_path, "out.html");
    assert_eq!(c.class_attribute, "Play");
    assert_eq!(c.object_column, Some(s("Id")));
    assert_eq!(c.bp, Some(2));
}

#[test]
fn later_options_override_earlier_ones() {
    let c = run_config(&["d.csv", "--class", "A", "--output", "o", "--class", "B"]);
    assert_eq!(c.class_attribute, "B");
    assert_eq!(c.object_column, None);
    assert_eq!(c.bp, None);
}

#[test]
fn missing_value_is_reported() {
    assert_eq!(error_of(&["d.csv", "--class"]), format!("Missing value for --class.\n\n{}", usage()));
}

#[test]
fn invalid_bp_is_reported() {
    assert_eq!(
        error_of(&["d.csv", "--bp", "two"]),
        "Invalid value 'two' for --bp. Expected a positive integer."
    );
    assert_eq!(
        error_of(&["d.csv", "--bp", "-1"]),
        "Invalid value '-1' for --bp. Expected a positive integer."
    );
}

#[test]
fn zero_bp_is_refused() {
    assert_eq!(error_of(&["d.csv", "--bp", "0"]), "--bp must be strictly positive.");
}

#[test]
fn unknown_argument_is_reported() {
    assert_eq!(error_of(&["d.csv", "--fast"]), format!("Unknown argument '--fast'.\n\n{}", usage()));
}

#[test]
fn missing_output_and_class_are_reported() {
    assert_eq!(
        error_of(&["d.csv", "--class", "Play"]),
        format!("Missing required --output option.\n\n{}", usage())
    );
    assert_eq!(
        error_of(&["d.csv", "--output", "o.html"]),
        format!("Missing required --class option.\n\n{}", usage())
    );
}

#[test]
fn next_arg_reads_or_reports() {
    let a = args(&["x", "y"]);
    assert_eq!(next_arg(&a, 1, "--class"), Ok(s("y")));
    assert_eq!(next_arg(&a, 2, "--class"), Err(format!("Missing value for --class.\n\n{}", usage())));
}

#[test]
fn parse_usize_matches_str_parse() {
    for text in ["0", "7", "+12", "", "+", "-0", "1a", " 1", "18446744073709551615", "18446744073709551616", "007"] {
        assert_eq!(parse_usize(text), text.parse::<usize>().ok(), "{text:?}");
    }
}

#[test]
fn report_title_names_the_stem() {
    assert_eq!(report_title(Some(s("weather")), None), "CNC Report - weather");
    assert_eq!(report_title(Some(s("weather")), Some(1)), "CNC-BP Report - weather (1 minority class)");
    assert_eq!(report_title(None, Some(3)), "CNC-BP Report - dataset (3 minority classes)");
}

#[test]
fn default_title_takes_the_file_stem() {
    let mut c = run_config(&["data/weather.csv", "--class", "Play", "--output", "o.html"]);
    assert_eq!(default_title(&c), "CNC Report - weather");
    c.bp = Some(2);
    assert_eq!(default_title(&c), "CNC-BP Report - weather (2 minority classes)");
    c.input_path = s("archive.tar.gz");
    c.bp = None;
    assert_eq!(default_title(&c), "CNC Report - archive.tar");
    c.input_path = s("..");
    assert_eq!(default_title(&c), "CNC Report - dataset");
}
