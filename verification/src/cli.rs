//! The command line of the report tool: its options, their checks and
//! messages, the usage text and the default title of a report.

use vstd::prelude::*;

use crate::csv::text_chars;
use crate::text::{decimal, decimal_string, digit_char, text_eq};

verus! {

broadcast use vstd::string::group_string_axioms;

/// What the command line asks for: the CSV file to read, the HTML file to
/// write, the class column, the optional object column and, for CNC-BP, the
/// number of minority classes to keep.
pub struct Config {
    pub input_path: String,
    pub output_path: String,
    pub class_attribute: String,
    pub object_column: Option<String>,
    pub bp: Option<usize>,
}

/// The outcome of reading the command line: show the usage, or run.
pub enum ParsedArgs {
    Help,
    Run(Config),
}

/// A configuration as mathematical values.
pub struct ConfigModel {
    pub input_path: Seq<char>,
    pub output_path: Seq<char>,
    pub class_attribute: Seq<char>,
    pub object_column: Option<Seq<char>>,
    pub bp: Option<usize>,
}

/// The outcome of reading the command line as mathematical values.
pub enum ParsedModel {
    Help,
    Run(ConfigModel),
}

impl View for Config {
    type V = ConfigModel;

    open spec fn view(&self) -> ConfigModel {
        ConfigModel {
            input_path: self.input_path@,
            output_path: self.output_path@,
            class_attribute: self.class_attribute@,
            object_column: self.object_column.deep_view(),
            bp: self.bp,
        }
    }
}

impl View for ParsedArgs {
    type V = ParsedModel;

    open spec fn view(&self) -> ParsedModel {
        match self {
            ParsedArgs::Help => ParsedModel::Help,
            ParsedArgs::Run(c) => ParsedModel::Run(c@),
        }
    }
}

/// The usage text.
pub open spec fn usage_text() -> Seq<char> {
    "Usage:\n  cargo run --bin cnc_report -- <input-file.csv> --class <class-column> --output <report.html> [options]\n\nOptions:\n  --object-column <name>   Column used as object identifier. If omitted, obj1, obj2, ... are generated.\n  --bp <n>                 Run CNC-BP instead of CNC, keeping the n most minority classes.\n  --help                   Show this help message.\n\nNotes:\n  The input parser expects a simple CSV file with a header row and without quoted commas inside values.\n\nExample:\n  cargo run --bin cnc_report -- data/weather.csv --class Play --object-column Id --output target/reports/weather.html"@
}

/// The usage text of the command line.
pub fn usage() -> (r: String)
    ensures
        r@ == usage_text(),
{
    String::from_str(
        "Usage:\n  cargo run --bin cnc_report -- <input-file.csv> --class <class-column> --output <report.html> [options]\n\nOptions:\n  --object-column <name>   Column used as object identifier. If omitted, obj1, obj2, ... are generated.\n  --bp <n>                 Run CNC-BP instead of CNC, keeping the n most minority classes.\n  --help                   Show this help message.\n\nNotes:\n  The input parser expects a simple CSV file with a header row and without quoted commas inside values.\n\nExample:\n  cargo run --bin cnc_report -- data/weather.csv --class Play --object-column Id --output target/reports/weather.html",
    )
}

/// The decimal value of a sequence of digits.
pub open spec fn digits_value(d: Seq<char>) -> nat
    decreases d.len(),
{
    if d.len() == 0 {
        0
    } else {
        digits_value(d.drop_last()) * 10 + ((d.last() as u32) - 48) as nat
    }
}

/// Every character of `d` is an ASCII digit.
pub open spec fn all_digits(d: Seq<char>) -> bool {
    forall|i: int| 0 <= i < d.len() ==> '0' <= #[trigger] d[i] <= '9'
}

/// The value of `s` as `str::parse::<usize>` reads it: an optional `+`
/// followed by at least one digit, at most `usize::MAX`.
pub open spec fn parsed_usize(s: Seq<char>) -> Option<usize> {
    let d = if s.len() > 0 && s[0] == '+' {
        s.drop_first()
    } else {
        s
    };
    if d.len() == 0 || !all_digits(d) || digits_value(d) > usize::MAX {
        None
    } else {
        Some(digits_value(d) as usize)
    }
}

proof fn lemma_digits_value_prefix(d: Seq<char>, k: int)
    requires
        0 <= k <= d.len(),
    ensures
        digits_value(d.take(k)) <= digits_value(d),
    decreases d.len() - k,
{
    if k < d.len() {
        assert(d.drop_last().take(k) =~= d.take(k));
        lemma_digits_value_prefix(d.drop_last(), k);
        assert(d.take(d.len() as int) =~= d);
    } else {
        assert(d.take(k) =~= d);
    }
}

/// Reads an unsigned integer as `str::parse::<usize>` does.
pub fn parse_usize(s: &str) -> (r: Option<usize>)
    ensures
        r == parsed_usize(s@),
{
    let v = text_chars(s);
    let start: usize = if v.len() > 0 && v[0] == '+' {
        1
    } else {
        0
    };
    let ghost d = if s@.len() > 0 && s@[0] == '+' {
        s@.drop_first()
    } else {
        s@
    };
    assert(d =~= v@.subrange(start as int, v.len() as int));
    if start == v.len() {
        return None;
    }
    let mut acc: usize = 0;
    let mut k: usize = start;
    while k < v.len()
        invariant
            start <= k <= v.len(),
            v@ == s@,
            d == (if s@.len() > 0 && s@[0] == '+' {
                s@.drop_first()
            } else {
                s@
            }),
            d == v@.subrange(start as int, v.len() as int),
            all_digits(d.take(k - start)),
            acc == digits_value(d.take(k - start)),
        decreases v.len() - k,
    {
        let c = v[k];
        assert(d[k - start] == c);
        assert(d.take(k - start + 1).drop_last() =~= d.take(k - start));
        assert(d.take(k - start + 1).last() == c);
        if !('0' <= c && c <= '9') {
            assert(!all_digits(d));
            return None;
        }
        let digit = (c as u32 - 48) as usize;
        assert(digits_value(d.take(k - start + 1)) == acc * 10 + digit);
        match acc.checked_mul(10) {
            Some(x) => match x.checked_add(digit) {
                Some(y) => {
                    acc = y;
                },
                None => {
                    proof {
                        lemma_digits_value_prefix(d, k - start + 1);
                    }
                    return None;
                },
            },
            None => {
                proof {
                    lemma_digits_value_prefix(d, k - start + 1);
                }
                return None;
            },
        }
        assert(all_digits(d.take(k - start + 1)));
        k = k + 1;
    }
    assert(d.take(v.len() - start) =~= d);
    Some(acc)
}


/// The options read so far.
pub struct OptionsModel {
    pub output: Option<Seq<char>>,
    pub class: Option<Seq<char>>,
    pub object_column: Option<Seq<char>>,
    pub bp: Option<usize>,
}

/// The message for an option given without its value.
pub open spec fn missing_value_message(flag: Seq<char>) -> Seq<char> {
    "Missing value for "@ + flag + ".\n\n"@ + usage_text()
}

/// The message for a value of `--bp` that is not a number.
pub open spec fn invalid_bp_message(value: Seq<char>) -> Seq<char> {
    "Invalid value '"@ + value + "' for --bp. Expected a positive integer."@
}

/// The message for an argument that is no option.
pub open spec fn unknown_argument_message(arg: Seq<char>) -> Seq<char> {
    "Unknown argument '"@ + arg + "'.\n\n"@ + usage_text()
}

/// Reads the options from `args[index]` on, each with its value; a later
/// option overrides an earlier one.
pub open spec fn scan_options(args: Seq<Seq<char>>, index: int, st: OptionsModel) -> Result<
    OptionsModel,
    Seq<char>,
>
    decreases args.len() - index,
{
    if index < 0 || index >= args.len() {
        Ok(st)
    } else {
        let a = args[index];
        if a == "--output"@ || a == "--class"@ || a == "--object-column"@ || a == "--bp"@ {
            if index + 1 >= args.len() {
                Err(missing_value_message(a))
            } else {
                let v = args[index + 1];
                if a == "--output"@ {
                    scan_options(args, index + 2, OptionsModel { output: Some(v), ..st })
                } else if a == "--class"@ {
                    scan_options(args, index + 2, OptionsModel { class: Some(v), ..st })
                } else if a == "--object-column"@ {
                    scan_options(args, index + 2, OptionsModel { object_column: Some(v), ..st })
                } else {
                    match parsed_usize(v) {
                        None => Err(invalid_bp_message(v)),
                        Some(n) => if n == 0 {
                            Err("--bp must be strictly positive."@)
                        } else {
                            scan_options(args, index + 2, OptionsModel { bp: Some(n), ..st })
                        },
                    }
                }
            }
        } else {
            Err(unknown_argument_message(a))
        }
    }
}

/// Some argument asks for help.
pub open spec fn asks_for_help(args: Seq<Seq<char>>) -> bool {
    exists|i: int| 0 <= i < args.len() && (args[i] == "--help"@ || args[i] == "-h"@)
}

/// What the command line `args` asks for: no arguments give the usage as an
/// error; `--help` or `-h` anywhere asks for help; otherwise the first
/// argument is the input file, options follow, and `--output` and `--class`
/// are required.
pub open spec fn parsed_args(args: Seq<Seq<char>>) -> Result<ParsedModel, Seq<char>> {
    if args.len() == 0 {
        Err(usage_text())
    } else if asks_for_help(args) {
        Ok(ParsedModel::Help)
    } else {
        match scan_options(
            args,
            1,
            OptionsModel { output: None, class: None, object_column: None, bp: None },
        ) {
            Err(e) => Err(e),
            Ok(st) => match st.output {
                None => Err("Missing required --output option.\n\n"@ + usage_text()),
                Some(output) => match st.class {
                    None => Err("Missing required --class option.\n\n"@ + usage_text()),
                    Some(class) => Ok(
                        ParsedModel::Run(
                            ConfigModel {
                                input_path: args[0],
                                output_path: output,
                                class_attribute: class,
                                object_column: st.object_column,
                                bp: st.bp,
                            },
                        ),
                    ),
                },
            },
        }
    }
}

/// The argument at `index`, or the message that `flag` lacks its value.
pub fn next_arg(args: &Vec<String>, index: usize, flag: &str) -> (r: Result<String, String>)
    ensures
        index < args.len() ==> (r matches Ok(v) && v@ == args@[index as int]@),
        index >= args.len() ==> (r matches Err(e) && e@ == missing_value_message(flag@)),
{
    if index < args.len() {
        Ok(args[index].clone())
    } else {
        let mut m = String::from_str("Missing value for ");
        m.append(flag);
        m.append(".\n\n");
        let u = usage();
        m.append(u.as_str());
        Err(m)
    }
}

fn help_requested(args: &Vec<String>) -> (r: bool)
    ensures
        r == asks_for_help(args.deep_view()),
{
    let ghost av = args.deep_view();
    let mut i: usize = 0;
    while i < args.len()
        invariant
            av == args.deep_view(),
            i <= args.len(),
            forall|k: int| 0 <= k < i ==> !(av[k] == "--help"@ || av[k] == "-h"@),
        decreases args.len() - i,
    {
        if text_eq(args[i].as_str(), "--help") || text_eq(args[i].as_str(), "-h") {
            assert(av[i as int] == args[i as int]@);
            return true;
        }
        i = i + 1;
    }
    false
}

/// Reads the command line.
pub fn parse_args(args: Vec<String>) -> (r: Result<ParsedArgs, String>)
    ensures
        match r {
            Ok(p) => parsed_args(args.deep_view()) == Ok::<ParsedModel, Seq<char>>(p@),
            Err(e) => parsed_args(args.deep_view()) == Err::<ParsedModel, Seq<char>>(e@),
        },
{
    let ghost av = args.deep_view();
    if args.len() == 0 {
        return Err(usage());
    }
    if help_requested(&args) {
        return Ok(ParsedArgs::Help);
    }
    let input_path = args[0].clone();
    let mut output_path: Option<String> = None;
    let mut class_attribute: Option<String> = None;
    let mut object_column: Option<String> = None;
    let mut bp: Option<usize> = None;
    let ghost start = OptionsModel { output: None, class: None, object_column: None, bp: None };
    let mut index: usize = 1;
    while index < args.len()
        invariant
            av == args.deep_view(),
            av.len() > 0,
            !asks_for_help(av),
            input_path@ == av[0],
            start == (OptionsModel { output: None, class: None, object_column: None, bp: None }),
            1 <= index,
            scan_options(av, 1, start) == scan_options(
                av,
                index as int,
                OptionsModel {
                    output: output_path.deep_view(),
                    class: class_attribute.deep_view(),
                    object_column: object_column.deep_view(),
                    bp: bp,
                },
            ),
        decreases args.len() - index,
    {
        let ghost st = OptionsModel {
            output: output_path.deep_view(),
            class: class_attribute.deep_view(),
            object_column: object_column.deep_view(),
            bp: bp,
        };
        let a = args[index].as_str();
        assert(av[index as int] == a@);
        if text_eq(a, "--output") {
            let v = next_arg(&args, index + 1, "--output")?;
            output_path = Some(v);
        } else if text_eq(a, "--class") {
            let v = next_arg(&args, index + 1, "--class")?;
            class_attribute = Some(v);
        } else if text_eq(a, "--object-column") {
            let v = next_arg(&args, index + 1, "--object-column")?;
            object_column = Some(v);
        } else if text_eq(a, "--bp") {
            let value = next_arg(&args, index + 1, "--bp")?;
            match parse_usize(value.as_str()) {
                None => {
                    let mut m = String::from_str("Invalid value '");
                    m.append(value.as_str());
                    m.append("' for --bp. Expected a positive integer.");
                    return Err(m);
                },
                Some(parsed) => {
                    if parsed == 0 {
                        return Err(String::from_str("--bp must be strictly positive."));
                    }
                    bp = Some(parsed);
                },
            }
        } else {
            let mut m = String::from_str("Unknown argument '");
            m.append(a);
            m.append("'.\n\n");
            let u = usage();
            m.append(u.as_str());
            return Err(m);
        }
        index = index + 2;
    }
    let ghost fin = OptionsModel {
        output: output_path.deep_view(),
        class: class_attribute.deep_view(),
        object_column: object_column.deep_view(),
        bp: bp,
    };
    assert(scan_options(av, index as int, fin) == Ok::<OptionsModel, Seq<char>>(fin));
    let output_path = match output_path {
        Some(o) => o,
        None => {
            let mut m = String::from_str("Missing required --output option.\n\n");
            let u = usage();
            m.append(u.as_str());
            return Err(m);
        },
    };
    let class_attribute = match class_attribute {
        Some(c) => c,
        None => {
            let mut m = String::from_str("Missing required --class option.\n\n");
            let u = usage();
            m.append(u.as_str());
            return Err(m);
        },
    };
    let config = Config { input_path, output_path, class_attribute, object_column, bp };
    Ok(ParsedArgs::Run(config))
}


/// What `std::path::Path::file_stem` gives for the path `path`, as a string
/// (the final component without its extension), if the path has a file name.
pub uninterp spec fn path_file_stem(path: Seq<char>) -> Option<Seq<char>>;

/// The stem of the file that `path` names, by `std::path::Path::file_stem`
/// (the stem of a path given as a string is valid Unicode, so `to_str`
/// keeps it). The contract only names the result: it equals
/// `path_file_stem` of the path; the rules of `Path` for components and
/// extensions are not restated.
#[verifier::external_body]
fn file_stem(path: &str) -> (r: Option<String>)
    ensures
        r.deep_view() == path_file_stem(path@),
{
    match std::path::Path::new(path).file_stem() {
        Some(stem) => match stem.to_str() {
            Some(text) => Some(text.to_string()),
            None => None,
        },
        None => None,
    }
}

/// The title of a report on the file with stem `stem` (`dataset` when there
/// is none): `CNC Report - <stem>`, or for CNC-BP keeping `n` classes
/// `CNC-BP Report - <stem> (<n> minority class)`, `classes` when `n` is not 1.
pub open spec fn title_text(stem: Option<Seq<char>>, bp: Option<usize>) -> Seq<char> {
    let s = match stem {
        Some(t) => t,
        None => "dataset"@,
    };
    match bp {
        Some(n) => "CNC-BP Report - "@ + s + " ("@ + decimal(n as nat) + " minority class"@ + (if n
            == 1 {
            Seq::<char>::empty()
        } else {
            "es"@
        }) + ")"@,
        None => "CNC Report - "@ + s,
    }
}

/// The title of a report on the file with stem `stem`.
pub fn report_title(stem: Option<String>, bp: Option<usize>) -> (r: String)
    ensures
        r@ == title_text(stem.deep_view(), bp),
{
    let s = match stem {
        Some(t) => t,
        None => String::from_str("dataset"),
    };
    match bp {
        Some(n) => {
            let mut t = String::from_str("CNC-BP Report - ");
            t.append(s.as_str());
            t.append(" (");
            let d = decimal_string(n as u128);
            t.append(d.as_str());
            t.append(" minority class");
            if n != 1 {
                t.append("es");
            }
            t.append(")");
            t
        },
        None => {
            let mut t = String::from_str("CNC Report - ");
            t.append(s.as_str());
            t
        },
    }
}

/// The default title of the report that `config` asks for, after the stem of
/// its input file.
pub fn default_title(config: &Config) -> (r: String)
    ensures
        r@ == title_text(path_file_stem(config.input_path@), config.bp),
{
    let stem = file_stem(config.input_path.as_str());
    report_title(stem, config.bp)
}

proof fn lemma_digit_char(d: nat)
    requires
        d < 10,
    ensures
        '0' <= digit_char(d) <= '9',
        (digit_char(d) as u32) - 48 == d,
{
}

/// The decimal notation of a number is a nonempty string of digits whose
/// value is the number.
pub proof fn lemma_decimal_digits(n: nat)
    ensures
        all_digits(decimal(n)),
        digits_value(decimal(n)) == n,
        decimal(n).len() > 0,
    decreases n,
{
    if n < 10 {
        lemma_digit_char(n);
        assert(decimal(n).drop_last() =~= Seq::<char>::empty());
        assert(decimal(n).last() == digit_char(n));
        assert(digits_value(Seq::<char>::empty()) == 0);
        assert(digits_value(decimal(n)) == digits_value(decimal(n).drop_last()) * 10 + ((decimal(n).last() as u32) - 48) as nat);
        assert(digits_value(decimal(n)) == n);
    } else {
        lemma_decimal_digits(n / 10);
        lemma_digit_char(n % 10);
        let p = decimal(n / 10);
        let q = decimal(n);
        assert(q.drop_last() =~= p);
        assert(q.last() == digit_char(n % 10));
        assert(digits_value(q) == digits_value(p) * 10 + ((q.last() as u32) - 48) as nat);
        assert((n / 10) * 10 + n % 10 == n);
        assert forall|i: int| 0 <= i < q.len() implies '0' <= #[trigger] q[i] <= '9' by {
            if i < p.len() {
                assert(q[i] == p[i]);
            }
        }
    }
}

/// Reading back a number written in decimal gives the number: the option
/// values that the command line reads are those that `to_string` writes.
pub proof fn lemma_parse_decimal_round_trip(n: usize)
    ensures
        parsed_usize(decimal(n as nat)) == Some(n),
{
    lemma_decimal_digits(n as nat);
    let d = decimal(n as nat);
    assert('0' <= d[0] <= '9');
}

proof fn lemma_scan_keeps_bp_positive(args: Seq<Seq<char>>, index: int, st: OptionsModel)
    requires
        st.bp != Some(0usize),
    ensures
        scan_options(args, index, st) matches Ok(r) ==> r.bp != Some(0usize),
    decreases args.len() - index,
{
    if 0 <= index < args.len() && index + 1 < args.len() {
        let a = args[index];
        let v = args[index + 1];
        if a == "--output"@ {
            lemma_scan_keeps_bp_positive(args, index + 2, OptionsModel { output: Some(v), ..st });
        } else if a == "--class"@ {
            lemma_scan_keeps_bp_positive(args, index + 2, OptionsModel { class: Some(v), ..st });
        } else if a == "--object-column"@ {
            lemma_scan_keeps_bp_positive(
                args,
                index + 2,
                OptionsModel { object_column: Some(v), ..st },
            );
        } else if a == "--bp"@ {
            if let Some(n) = parsed_usize(v) {
                if n != 0 {
                    lemma_scan_keeps_bp_positive(args, index + 2, OptionsModel { bp: Some(n), ..st });
                }
            }
        }
    }
}

/// A command line that runs the tool names its input, output and class
/// column, and never asks CNC-BP to keep zero classes; one that asks for
/// help has some argument `--help` or `-h`.
pub proof fn lemma_parsed_args_consistent(args: Seq<Seq<char>>)
    ensures
        parsed_args(args) matches Ok(ParsedModel::Run(c)) ==> c.bp != Some(0usize) && c.input_path
            == args[0] && !asks_for_help(args),
        parsed_args(args) matches Ok(ParsedModel::Help) ==> asks_for_help(args),
{
    lemma_scan_keeps_bp_positive(
        args,
        1,
        OptionsModel { output: None, class: None, object_column: None, bp: None },
    );
}

/// A command line that names its input, its class column and its output and
/// asks CNC-BP to keep `n` classes runs with `n` kept for every positive `n`,
/// written as `to_string` writes it; only `0` is refused, as not strictly
/// positive. (No argument may ask for help, which takes precedence.)
pub proof fn lemma_bp_positive_kept(input: Seq<char>, class: Seq<char>, output: Seq<char>, n: usize)
    requires
        input != "--help"@ && input != "-h"@,
        class != "--help"@ && class != "-h"@,
        output != "--help"@ && output != "-h"@,
    ensures
        n > 0 ==> parsed_args(
            seq![input, "--class"@, class, "--output"@, output, "--bp"@, decimal(n as nat)],
        ) == Ok::<ParsedModel, Seq<char>>(
            ParsedModel::Run(
                ConfigModel {
                    input_path: input,
                    output_path: output,
                    class_attribute: class,
                    object_column: None,
                    bp: Some(n),
                },
            ),
        ),
        n == 0 ==> parsed_args(
            seq![input, "--class"@, class, "--output"@, output, "--bp"@, decimal(n as nat)],
        ) == Err::<ParsedModel, Seq<char>>("--bp must be strictly positive."@),
{
    reveal_strlit("--help");
    reveal_strlit("-h");
    reveal_strlit("--class");
    reveal_strlit("--output");
    reveal_strlit("--bp");
    reveal_strlit("--object-column");
    lemma_parse_decimal_round_trip(n);
    lemma_decimal_digits(n as nat);
    let d = decimal(n as nat);
    let args = seq![input, "--class"@, class, "--output"@, output, "--bp"@, d];
    assert('0' <= d[0] <= '9');
    assert(d != "--help"@ && d != "-h"@) by {
        assert("--help"@[0] == '-');
        assert("-h"@[0] == '-');
    }
    assert("--class"@ != "--help"@ && "--class"@ != "-h"@ && "--output"@ != "--help"@ && "--output"@
        != "-h"@ && "--bp"@ != "--help"@ && "--bp"@ != "-h"@) by {
        assert("--class"@.len() != "--help"@.len());
        assert("--class"@.len() != "-h"@.len());
        assert("--output"@[2] != "--help"@[2]);
        assert("--output"@.len() != "-h"@.len());
        assert("--bp"@.len() != "--help"@.len());
        assert("--bp"@.len() != "-h"@.len());
    }
    assert(!asks_for_help(args)) by {
        assert forall|i: int| 0 <= i < args.len() implies !(args[i] == "--help"@ || args[i] == "-h"@) by {
            assert(args[0] == input && args[1] == "--class"@ && args[2] == class && args[3]
                == "--output"@ && args[4] == output && args[5] == "--bp"@ && args[6] == d);
        }
    }
    assert("--class"@ != "--output"@ && "--class"@ != "--object-column"@ && "--class"@ != "--bp"@) by {
        assert("--class"@[2] != "--output"@[2]);
        assert("--class"@[2] != "--object-column"@[2]);
        assert("--class"@.len() != "--bp"@.len());
    }
    assert("--output"@ != "--object-column"@ && "--output"@ != "--bp"@) by {
        assert("--output"@.len() != "--object-column"@.len());
        assert("--output"@.len() != "--bp"@.len());
    }
    assert("--bp"@ != "--object-column"@) by {
        assert("--bp"@.len() != "--object-column"@.len());
    }
    let st0 = OptionsModel { output: None, class: None, object_column: None, bp: None };
    let st1 = OptionsModel { class: Some(class), ..st0 };
    let st2 = OptionsModel { output: Some(output), ..st1 };
    assert(args[1] == "--class"@ && args[2] == class);
    assert(scan_options(args, 1, st0) == scan_options(args, 3, st1));
    assert(args[3] == "--output"@ && args[4] == output);
    assert(scan_options(args, 3, st1) == scan_options(args, 5, st2));
    assert(args[5] == "--bp"@ && args[6] == d);
    if n > 0 {
        let st3 = OptionsModel { bp: Some(n), ..st2 };
        assert(scan_options(args, 5, st2) == scan_options(args, 7, st3));
        assert(scan_options(args, 7, st3) == Ok::<OptionsModel, Seq<char>>(st3));
    } else {
        assert(scan_options(args, 5, st2) == Err::<OptionsModel, Seq<char>>("--bp must be strictly positive."@));
    }
}

} // verus!
