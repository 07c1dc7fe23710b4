# fcars_report

A verified library that turns a nominal dataset and the concepts found on it by
CNC or CNC-BP into an HTML report, written in Verus.

- `src/dataset.rs`: the nominal dataset, its class distribution, most frequent
  values, filtering by classes and summaries.
- `src/csv.rs`: reading a dataset from the text of a simple CSV file.
- `src/cnc.rs`: the results of CNC and CNC-BP that a report presents.
- `src/view.rs`, `src/report.rs`: the view of a report page and how it is built.
- `src/html.rs`: the HTML of a page, with every text escaped by askama.
- `src/text.rs`, `src/sorting.rs`: number formatting and ordering of texts.
- `src/binary64.rs`: the binary64 arithmetic of a percentage share (convert,
  divide, multiply by 100, round to one decimal), carried out exactly in
  integers.
- `src/cli.rs`: the command line of the report tool and its default title.

Every function states its behaviour in `requires` / `ensures` and is proved by
Verus, except three small trusted wrappers whose contracts Verus takes on
trust: `escape_html` (askama's HTML escaper), `push_char` (`String::push`) and
`file_stem` (`Path::file_stem`). `tests/` runs the library on concrete values.
