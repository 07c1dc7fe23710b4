//! The HTML of a report page: every text escaped for HTML, laid out in
//! sections and tables.

use askama::filters::Escaper;
use vstd::prelude::*;

use crate::text::{decimal, decimal_string};
use crate::view::{
    ConceptView, ConceptViewModel, CountShareValue, DatasetSectionView, GainRowModel,
    InformationGainRowView, LabelValue, PageModel, ReportPageView, SectionModel,
};

verus! {

#[verifier::external_type_specification]
#[verifier::external_body]
pub struct ExAskamaError(askama::Error);

/// What HTML escaping writes for one character: `"`, `&`, `'`, `<` and `>`
/// become numeric character references; every other character stays.
pub open spec fn escape_char(c: char) -> Seq<char> {
    if c == '"' {
        seq!['&', '#', '3', '4', ';']
    } else if c == '&' {
        seq!['&', '#', '3', '8', ';']
    } else if c == '\'' {
        seq!['&', '#', '3', '9', ';']
    } else if c == '<' {
        seq!['&', '#', '6', '0', ';']
    } else if c == '>' {
        seq!['&', '#', '6', '2', ';']
    } else {
        seq![c]
    }
}

/// `s` escaped for HTML, character by character.
pub open spec fn html_escaped(s: Seq<char>) -> Seq<char>
    decreases s.len(),
{
    if s.len() == 0 {
        Seq::empty()
    } else {
        html_escaped(s.drop_last()) + escape_char(s.last())
    }
}

/// Escapes `text` for HTML with askama's `Html` escaper
/// (`askama::filters::Html::write_escaped_str`), writing into a new `String`.
/// The escaper writes each character of `text` in turn, replacing `"`, `&`,
/// `'`, `<` and `>` by `&#34;`, `&#38;`, `&#39;`, `&#60;` and `&#62;`; the
/// contract claims that what it wrote is exactly that. The escaper reports an
/// error only when its destination does, and the destination here is a
/// `String`, whose `fmt::Write` never returns an error (std's documentation of
/// `fmt::format` says so), so the contract also claims success. The `Err` arm
/// only converts askama's error type.
#[verifier::external_body]
fn escape_html(text: &str) -> (r: Result<String, askama::Error>)
    ensures
        r is Ok,
        r matches Ok(s) ==> s@ == html_escaped(text@),
{
    let mut out = String::new();
    match askama::filters::Html.write_escaped_str(&mut out, text) {
        Ok(()) => Ok(out),
        Err(e) => Err(askama::Error::from(e)),
    }
}

/// Why a report could not be rendered.
#[derive(Debug)]
pub enum RenderError {
    /// Escaping a text for HTML failed with askama's error.
    Escape(askama::Error),
}

/// Escapes `text` for HTML.
pub fn escape_text(text: &String) -> (r: Result<String, RenderError>)
    ensures
        r is Ok,
        r matches Ok(s) ==> s@ == html_escaped(text@),
{
    match escape_html(text.as_str()) {
        Ok(s) => Ok(s),
        Err(e) => Err(RenderError::Escape(e)),
    }
}

/// Escaped text holds no character that opens or closes markup or quotes
/// an attribute value: no `<`, `>`, `"` or `'`.
pub proof fn lemma_escaped_has_no_markup(s: Seq<char>)
    ensures
        forall|i: int|
            0 <= i < html_escaped(s).len() ==> #[trigger] html_escaped(s)[i] != '<'
                && html_escaped(s)[i] != '>' && html_escaped(s)[i] != '"' && html_escaped(s)[i]
                != '\'',
    decreases s.len(),
{
    if s.len() > 0 {
        lemma_escaped_has_no_markup(s.drop_last());
        let a = html_escaped(s.drop_last());
        let b = escape_char(s.last());
        assert forall|i: int| 0 <= i < html_escaped(s).len() implies #[trigger] html_escaped(s)[i]
            != '<' && html_escaped(s)[i] != '>' && html_escaped(s)[i] != '"' && html_escaped(s)[i]
            != '\'' by {
            if i < a.len() {
                assert(html_escaped(s)[i] == a[i]);
            } else {
                assert(html_escaped(s)[i] == b[i - a.len()]);
            }
        }
    }
}

/// Text without any of `"`, `&`, `'`, `<` and `>` is left as it is.
pub proof fn lemma_escape_plain_text(s: Seq<char>)
    requires
        forall|i: int|
            0 <= i < s.len() ==> #[trigger] s[i] != '"' && s[i] != '&' && s[i] != '\'' && s[i]
                != '<' && s[i] != '>',
    ensures
        html_escaped(s) == s,
    decreases s.len(),
{
    if s.len() > 0 {
        lemma_escape_plain_text(s.drop_last());
        assert(s.last() == s[s.len() - 1]);
        assert(s =~= s.drop_last().push(s.last()));
    }
}

/// Each text of `s` escaped.
pub open spec fn escape_texts(s: Seq<Seq<char>>) -> Seq<Seq<char>> {
    s.map_values(|t: Seq<char>| html_escaped(t))
}

/// Both texts of each labelled value escaped.
pub open spec fn escape_pairs(s: Seq<(Seq<char>, Seq<char>)>) -> Seq<(Seq<char>, Seq<char>)> {
    s.map_values(|p: (Seq<char>, Seq<char>)| (html_escaped(p.0), html_escaped(p.1)))
}

/// The texts of each count-and-share row escaped.
pub open spec fn escape_shares(s: Seq<(Seq<char>, usize, Seq<char>)>) -> Seq<(Seq<char>, usize, Seq<char>)> {
    s.map_values(|p: (Seq<char>, usize, Seq<char>)| (html_escaped(p.0), p.1, html_escaped(p.2)))
}

/// A dataset section with every text escaped.
pub open spec fn escape_section(m: SectionModel) -> SectionModel {
    SectionModel {
        heading: html_escaped(m.heading),
        overview_rows: escape_pairs(m.overview_rows),
        context_headers: escape_texts(m.context_headers),
        context_rows: m.context_rows.map_values(|row: Seq<Seq<char>>| escape_texts(row)),
        attribute_rows: escape_pairs(m.attribute_rows),
        class_distribution: escape_shares(m.class_distribution),
    }
}

/// A row of the information gain table with every text escaped.
pub open spec fn escape_gain_row(m: GainRowModel) -> GainRowModel {
    GainRowModel {
        attribute: html_escaped(m.attribute),
        gain: html_escaped(m.gain),
        chosen: m.chosen,
        most_frequent_values: escape_texts(m.most_frequent_values),
    }
}

/// A concept section with every text escaped.
pub open spec fn escape_concept(m: ConceptViewModel) -> ConceptViewModel {
    ConceptViewModel {
        title: html_escaped(m.title),
        summary_rows: escape_pairs(m.summary_rows),
        extent_objects: escape_texts(m.extent_objects),
        intent_rows: escape_pairs(m.intent_rows),
        class_distribution: escape_shares(m.class_distribution),
        majority_summary: html_escaped(m.majority_summary),
    }
}

/// A page with every text escaped.
pub open spec fn escape_page(m: PageModel) -> PageModel {
    PageModel {
        title: html_escaped(m.title),
        lead: html_escaped(m.lead),
        filter_rows: escape_pairs(m.filter_rows),
        dataset_sections: m.dataset_sections.map_values(|s: SectionModel| escape_section(s)),
        information_gain_rows: m.information_gain_rows.map_values(
            |g: GainRowModel| escape_gain_row(g),
        ),
        concept_count: m.concept_count,
        concepts: m.concepts.map_values(|c: ConceptViewModel| escape_concept(c)),
    }
}

fn escape_text_list(list: &Vec<String>) -> (r: Result<Vec<String>, RenderError>)
    ensures
        r is Ok,
        r matches Ok(v) ==> v.deep_view() == escape_texts(list.deep_view()),
{
    let mut r: Vec<String> = Vec::new();
    let mut i: usize = 0;
    while i < list.len()
        invariant
            i <= list.len(),
            r.deep_view() =~= escape_texts(list.deep_view().take(i as int)),
        decreases list.len() - i,
    {
        let ghost before = r.deep_view();
        let e = escape_text(&list[i])?;
        r.push(e);
        assert(r.deep_view() =~= before.push(html_escaped(list.deep_view()[i as int])));
        i = i + 1;
    }
    assert(list.deep_view().take(list.len() as int) =~= list.deep_view());
    Ok(r)
}

fn escape_label_values(list: &Vec<LabelValue>) -> (r: Result<Vec<LabelValue>, RenderError>)
    ensures
        r is Ok,
        r matches Ok(v) ==> v.deep_view() == escape_pairs(list.deep_view()),
{
    let mut r: Vec<LabelValue> = Vec::new();
    let mut i: usize = 0;
    while i < list.len()
        invariant
            i <= list.len(),
            r.deep_view() =~= escape_pairs(list.deep_view().take(i as int)),
        decreases list.len() - i,
    {
        let ghost before = r.deep_view();
        let label = escape_text(&list[i].label)?;
        let value = escape_text(&list[i].value)?;
        r.push(LabelValue { label, value });
        assert(r.deep_view() =~= before.push(
            (html_escaped(list.deep_view()[i as int].0), html_escaped(list.deep_view()[i as int].1)),
        ));
        i = i + 1;
    }
    assert(list.deep_view().take(list.len() as int) =~= list.deep_view());
    Ok(r)
}

fn escape_count_shares(list: &Vec<CountShareValue>) -> (r: Result<Vec<CountShareValue>, RenderError>)
    ensures
        r is Ok,
        r matches Ok(v) ==> v.deep_view() == escape_shares(list.deep_view()),
{
    let mut r: Vec<CountShareValue> = Vec::new();
    let mut i: usize = 0;
    while i < list.len()
        invariant
            i <= list.len(),
            r.deep_view() =~= escape_shares(list.deep_view().take(i as int)),
        decreases list.len() - i,
    {
        let ghost before = r.deep_view();
        let name = escape_text(&list[i].name)?;
        let percentage = escape_text(&list[i].percentage)?;
        r.push(CountShareValue { name, count: list[i].count, percentage });
        assert(r.deep_view() =~= before.push(
            (
                html_escaped(list.deep_view()[i as int].0),
                list.deep_view()[i as int].1,
                html_escaped(list.deep_view()[i as int].2),
            ),
        ));
        i = i + 1;
    }
    assert(list.deep_view().take(list.len() as int) =~= list.deep_view());
    Ok(r)
}

fn escape_section_view(s: &DatasetSectionView) -> (r: Result<DatasetSectionView, RenderError>)
    ensures
        r is Ok,
        r matches Ok(v) ==> v.deep_view() == escape_section(s.deep_view()),
{
    let mut rows: Vec<Vec<String>> = Vec::new();
    let mut i: usize = 0;
    while i < s.context_rows.len()
        invariant
            i <= s.context_rows.len(),
            rows.deep_view() =~= s.context_rows.deep_view().take(i as int).map_values(
                |row: Seq<Seq<char>>| escape_texts(row),
            ),
        decreases s.context_rows.len() - i,
    {
        let ghost before = rows.deep_view();
        let row = escape_text_list(&s.context_rows[i])?;
        rows.push(row);
        assert(rows.deep_view() =~= before.push(escape_texts(s.context_rows.deep_view()[i as int])));
        i = i + 1;
    }
    assert(s.context_rows.deep_view().take(s.context_rows.len() as int) =~= s.context_rows.deep_view());
    let r = DatasetSectionView {
        heading: escape_text(&s.heading)?,
        overview_rows: escape_label_values(&s.overview_rows)?,
        context_headers: escape_text_list(&s.context_headers)?,
        context_rows: rows,
        attribute_rows: escape_label_values(&s.attribute_rows)?,
        class_distribution: escape_count_shares(&s.class_distribution)?,
    };
    Ok(r)
}

fn escape_gain_row_view(g: &InformationGainRowView) -> (r: Result<InformationGainRowView, RenderError>)
    ensures
        r is Ok,
        r matches Ok(v) ==> v.deep_view() == escape_gain_row(g.deep_view()),
{
    Ok(InformationGainRowView {
        attribute: escape_text(&g.attribute)?,
        gain: escape_text(&g.gain)?,
        chosen: g.chosen,
        most_frequent_values: escape_text_list(&g.most_frequent_values)?,
    })
}

fn escape_concept_view(c: &ConceptView) -> (r: Result<ConceptView, RenderError>)
    ensures
        r is Ok,
        r matches Ok(v) ==> v.deep_view() == escape_concept(c.deep_view()),
{
    Ok(ConceptView {
        title: escape_text(&c.title)?,
        summary_rows: escape_label_values(&c.summary_rows)?,
        extent_objects: escape_text_list(&c.extent_objects)?,
        intent_rows: escape_label_values(&c.intent_rows)?,
        class_distribution: escape_count_shares(&c.class_distribution)?,
        majority_summary: escape_text(&c.majority_summary)?,
    })
}

/// The page with every text escaped for HTML.
pub fn escape_page_view(p: &ReportPageView) -> (r: Result<ReportPageView, RenderError>)
    ensures
        r is Ok,
        r matches Ok(v) ==> v.deep_view() == escape_page(p.deep_view()),
{
    let mut sections: Vec<DatasetSectionView> = Vec::new();
    let mut i: usize = 0;
    while i < p.dataset_sections.len()
        invariant
            i <= p.dataset_sections.len(),
            sections.deep_view() =~= p.dataset_sections.deep_view().take(i as int).map_values(
                |s: SectionModel| escape_section(s),
            ),
        decreases p.dataset_sections.len() - i,
    {
        let ghost before = sections.deep_view();
        let s = escape_section_view(&p.dataset_sections[i])?;
        sections.push(s);
        assert(sections.deep_view() =~= before.push(
            escape_section(p.dataset_sections.deep_view()[i as int]),
        ));
        i = i + 1;
    }
    assert(p.dataset_sections.deep_view().take(p.dataset_sections.len() as int)
        =~= p.dataset_sections.deep_view());
    let mut gains: Vec<InformationGainRowView> = Vec::new();
    let mut j: usize = 0;
    while j < p.information_gain_rows.len()
        invariant
            j <= p.information_gain_rows.len(),
            gains.deep_view() =~= p.information_gain_rows.deep_view().take(j as int).map_values(
                |g: GainRowModel| escape_gain_row(g),
            ),
        decreases p.information_gain_rows.len() - j,
    {
        let ghost before = gains.deep_view();
        let g = escape_gain_row_view(&p.information_gain_rows[j])?;
        gains.push(g);
        assert(gains.deep_view() =~= before.push(
            escape_gain_row(p.information_gain_rows.deep_view()[j as int]),
        ));
        j = j + 1;
    }
    assert(p.information_gain_rows.deep_view().take(p.information_gain_rows.len() as int)
        =~= p.information_gain_rows.deep_view());
    let mut concepts: Vec<ConceptView> = Vec::new();
    let mut k: usize = 0;
    while k < p.concepts.len()
        invariant
            k <= p.concepts.len(),
            concepts.deep_view() =~= p.concepts.deep_view().take(k as int).map_values(
                |c: ConceptViewModel| escape_concept(c),
            ),
        decreases p.concepts.len() - k,
    {
        let ghost before = concepts.deep_view();
        let c = escape_concept_view(&p.concepts[k])?;
        concepts.push(c);
        assert(concepts.deep_view() =~= before.push(escape_concept(p.concepts.deep_view()[k as int])));
        k = k + 1;
    }
    assert(p.concepts.deep_view().take(p.concepts.len() as int) =~= p.concepts.deep_view());
    let r = ReportPageView {
        title: escape_text(&p.title)?,
        lead: escape_text(&p.lead)?,
        filter_rows: escape_label_values(&p.filter_rows)?,
        dataset_sections: sections,
        information_gain_rows: gains,
        concept_count: p.concept_count,
        concepts,
    };
    assert(r.deep_view() =~= escape_page(p.deep_view()));
    Ok(r)
}


/// Each text of `s` between `open` and `close`, one after the other.
pub open spec fn wrapped(open: Seq<char>, close: Seq<char>, s: Seq<Seq<char>>) -> Seq<char>
    decreases s.len(),
{
    if s.len() == 0 {
        Seq::empty()
    } else {
        wrapped(open, close, s.drop_last()) + open + s.last() + close
    }
}

/// The texts of `s` separated by `sep`.
pub open spec fn join_texts(s: Seq<Seq<char>>, sep: Seq<char>) -> Seq<char>
    decreases s.len(),
{
    if s.len() == 0 {
        Seq::empty()
    } else if s.len() == 1 {
        s[0]
    } else {
        join_texts(s.drop_last(), sep) + sep + s.last()
    }
}

/// A table row of a label and its value.
pub open spec fn pair_row(p: (Seq<char>, Seq<char>)) -> Seq<char> {
    "<tr><th>"@ + p.0 + "</th><td>"@ + p.1 + "</td></tr>\n"@
}

/// The table rows of labelled values.
pub open spec fn pair_rows(s: Seq<(Seq<char>, Seq<char>)>) -> Seq<char>
    decreases s.len(),
{
    if s.len() == 0 {
        Seq::empty()
    } else {
        pair_rows(s.drop_last()) + pair_row(s.last())
    }
}

/// A table of labelled values.
pub open spec fn pairs_table(s: Seq<(Seq<char>, Seq<char>)>) -> Seq<char> {
    "<table>\n"@ + pair_rows(s) + "</table>\n"@
}

/// A table row of a value, its count and its share.
pub open spec fn share_row(p: (Seq<char>, usize, Seq<char>)) -> Seq<char> {
    "<tr><td>"@ + p.0 + "</td><td>"@ + decimal(p.1 as nat) + "</td><td>"@ + p.2 + "</td></tr>\n"@
}

/// The table rows of a distribution.
pub open spec fn share_rows_html(s: Seq<(Seq<char>, usize, Seq<char>)>) -> Seq<char>
    decreases s.len(),
{
    if s.len() == 0 {
        Seq::empty()
    } else {
        share_rows_html(s.drop_last()) + share_row(s.last())
    }
}

/// A table of a class distribution.
pub open spec fn shares_table(s: Seq<(Seq<char>, usize, Seq<char>)>) -> Seq<char> {
    "<table>\n<tr><th>Class</th><th>Count</th><th>Share</th></tr>\n"@ + share_rows_html(s)
        + "</table>\n"@
}

/// The rows of a formal context.
pub open spec fn context_rows_html(rows: Seq<Seq<Seq<char>>>) -> Seq<char>
    decreases rows.len(),
{
    if rows.len() == 0 {
        Seq::empty()
    } else {
        context_rows_html(rows.drop_last()) + "<tr>"@ + wrapped("<td>"@, "</td>"@, rows.last())
            + "</tr>\n"@
    }
}

/// The HTML of a dataset section.
pub open spec fn section_html(m: SectionModel) -> Seq<char> {
    "<section class=\"dataset\">\n<h2>"@ + m.heading + "</h2>\n<h3>Overview</h3>\n"@ + pairs_table(
        m.overview_rows,
    ) + "<h3>Formal Context</h3>\n<table>\n<tr>"@ + wrapped("<th>"@, "</th>"@, m.context_headers)
        + "</tr>\n"@ + context_rows_html(m.context_rows) + "</table>\n<h3>Attribute Values</h3>\n"@
        + pairs_table(m.attribute_rows) + "<h3>Class Distribution</h3>\n"@ + shares_table(
        m.class_distribution,
    ) + "</section>\n"@
}

/// The HTML of the dataset sections.
pub open spec fn sections_html(s: Seq<SectionModel>) -> Seq<char>
    decreases s.len(),
{
    if s.len() == 0 {
        Seq::empty()
    } else {
        sections_html(s.drop_last()) + section_html(s.last())
    }
}

/// A row of the information gain table.
pub open spec fn gain_row_html(g: GainRowModel) -> Seq<char> {
    "<tr><td>"@ + g.attribute + "</td><td>"@ + g.gain + "</td><td>"@ + (if g.chosen {
        "yes"@
    } else {
        "no"@
    }) + "</td><td>"@ + join_texts(g.most_frequent_values, ", "@) + "</td></tr>\n"@
}

/// The rows of the information gain table.
pub open spec fn gain_rows_html(s: Seq<GainRowModel>) -> Seq<char>
    decreases s.len(),
{
    if s.len() == 0 {
        Seq::empty()
    } else {
        gain_rows_html(s.drop_last()) + gain_row_html(s.last())
    }
}

/// The majority line of a concept, if it has one.
pub open spec fn majority_html(m: Seq<char>) -> Seq<char> {
    if m.len() == 0 {
        Seq::empty()
    } else {
        "<p class=\"majority\">Majority class: "@ + m + "</p>\n"@
    }
}

/// The HTML of a concept section.
pub open spec fn concept_html(c: ConceptViewModel) -> Seq<char> {
    "<article class=\"concept\">\n<h3>"@ + c.title + "</h3>\n"@ + pairs_table(c.summary_rows)
        + "<h4>Extent</h4>\n<ul>\n"@ + wrapped("<li>"@, "</li>\n"@, c.extent_objects)
        + "</ul>\n<h4>Intent</h4>\n"@ + pairs_table(c.intent_rows) + "<h4>Class Distribution</h4>\n"@
        + shares_table(c.class_distribution) + majority_html(c.majority_summary) + "</article>\n"@
}

/// The HTML of the concept sections.
pub open spec fn concepts_html(s: Seq<ConceptViewModel>) -> Seq<char>
    decreases s.len(),
{
    if s.len() == 0 {
        Seq::empty()
    } else {
        concepts_html(s.drop_last()) + concept_html(s.last())
    }
}

/// The filter section, shown when there are filter rows.
pub open spec fn filter_html(rows: Seq<(Seq<char>, Seq<char>)>) -> Seq<char> {
    if rows.len() == 0 {
        Seq::empty()
    } else {
        "<section class=\"filter\">\n<h2>Minority-Class Filter</h2>\n"@ + pairs_table(rows)
            + "</section>\n"@
    }
}

/// The head of a page and its title and lead.
pub open spec fn head_html(title: Seq<char>, lead: Seq<char>) -> Seq<char> {
    "<!DOCTYPE html>\n<html lang=\"en\">\n<head>\n<meta charset=\"utf-8\">\n<title>"@ + title
        + "</title>\n</head>\n<body>\n<h1>"@ + title + "</h1>\n<p class=\"lead\">"@ + lead
        + "</p>\n"@
}

/// The information gain section.
pub open spec fn gains_html(rows: Seq<GainRowModel>) -> Seq<char> {
    "<section class=\"information-gain\">\n<h2>Information Gain</h2>\n<table>\n<tr><th>Attribute</th><th>Gain</th><th>Chosen</th><th>Most Frequent Values</th></tr>\n"@
        + gain_rows_html(rows) + "</table>\n</section>\n"@
}

/// The concepts section, headed by the number of concepts.
pub open spec fn concepts_section_html(count: nat, concepts: Seq<ConceptViewModel>) -> Seq<char> {
    "<section class=\"concepts\">\n<h2>Concepts ("@ + decimal(count) + ")</h2>\n"@ + concepts_html(
        concepts,
    ) + "</section>\n"@
}

/// The layout of a page whose texts are already escaped.
pub open spec fn page_layout(p: PageModel) -> Seq<char> {
    head_html(p.title, p.lead) + filter_html(p.filter_rows) + sections_html(p.dataset_sections)
        + gains_html(p.information_gain_rows) + concepts_section_html(p.concept_count, p.concepts)
        + "</body>\n</html>\n"@
}

/// The HTML of a report page: its layout with every text escaped.
pub open spec fn report_html(p: PageModel) -> Seq<char> {
    page_layout(escape_page(p))
}

/// `needle` occurs in `hay`.
pub open spec fn contains_text(hay: Seq<char>, needle: Seq<char>) -> bool {
    exists|i: int| 0 <= i && i + needle.len() <= hay.len() && #[trigger] hay.subrange(i, i + needle.len()) == needle
}

proof fn lemma_contains_middle(a: Seq<char>, b: Seq<char>, c: Seq<char>)
    ensures
        contains_text(a + b + c, b),
{
    assert((a + b + c).subrange(a.len() as int, (a.len() + b.len()) as int) =~= b);
}

/// The opening of the information gain section.
pub open spec fn gains_heading() -> Seq<char> {
    "<section class=\"information-gain\">\n<h2>Information Gain</h2>\n<table>\n<tr><th>Attribute</th><th>Gain</th><th>Chosen</th><th>Most Frequent Values</th></tr>\n"@
}

/// The opening of the minority-class filter section.
pub open spec fn filter_heading() -> Seq<char> {
    "<section class=\"filter\">\n<h2>Minority-Class Filter</h2>\n"@
}

proof fn lemma_head_literal_split()
    ensures
        "<!DOCTYPE html>\n<html lang=\"en\">\n<head>\n<meta charset=\"utf-8\">\n<title>"@
            == "<!DOCTYPE html>\n<html lang=\"en\">\n<head>\n<meta charset=\"utf-8\">\n"@
            + "<title>"@,
        "</title>\n</head>\n<body>\n<h1>"@ == "</title>"@ + "\n</head>\n<body>\n<h1>"@,
{
    reveal_strlit("<!DOCTYPE html>\n<html lang=\"en\">\n<head>\n<meta charset=\"utf-8\">\n<title>");
    reveal_strlit("<!DOCTYPE html>\n<html lang=\"en\">\n<head>\n<meta charset=\"utf-8\">\n");
    reveal_strlit("<title>");
    reveal_strlit("</title>\n</head>\n<body>\n<h1>");
    reveal_strlit("</title>");
    reveal_strlit("\n</head>\n<body>\n<h1>");
    assert("<!DOCTYPE html>\n<html lang=\"en\">\n<head>\n<meta charset=\"utf-8\">\n<title>"@
        =~= "<!DOCTYPE html>\n<html lang=\"en\">\n<head>\n<meta charset=\"utf-8\">\n"@
        + "<title>"@);
    assert("</title>\n</head>\n<body>\n<h1>"@ =~= "</title>"@ + "\n</head>\n<body>\n<h1>"@);
}

proof fn lemma_concepts_literal_split()
    ensures
        "<section class=\"concepts\">\n<h2>Concepts ("@ == "<section class=\"concepts\">\n"@
            + "<h2>Concepts ("@,
{
    reveal_strlit("<section class=\"concepts\">\n<h2>Concepts (");
    reveal_strlit("<section class=\"concepts\">\n");
    reveal_strlit("<h2>Concepts (");
    assert("<section class=\"concepts\">\n<h2>Concepts ("@ =~= "<section class=\"concepts\">\n"@
        + "<h2>Concepts ("@);
}

/// Every report shows the information gain section.
pub proof fn lemma_report_shows_information_gain(p: PageModel)
    ensures
        contains_text(report_html(p), gains_heading()),
{
    let e = escape_page(p);
    let before = head_html(e.title, e.lead) + filter_html(e.filter_rows) + sections_html(
        e.dataset_sections,
    );
    let after = gain_rows_html(e.information_gain_rows) + "</table>\n</section>\n"@
        + concepts_section_html(e.concept_count, e.concepts) + "</body>\n</html>\n"@;
    assert(report_html(p) =~= before + gains_heading() + after);
    lemma_contains_middle(before, gains_heading(), after);
}

/// A report with filter rows shows the minority-class filter section.
pub proof fn lemma_report_shows_filter(p: PageModel)
    requires
        p.filter_rows.len() > 0,
    ensures
        contains_text(report_html(p), filter_heading()),
{
    let e = escape_page(p);
    let before = head_html(e.title, e.lead);
    let after = pairs_table(e.filter_rows) + "</section>\n"@ + sections_html(e.dataset_sections)
        + gains_html(e.information_gain_rows) + concepts_section_html(e.concept_count, e.concepts)
        + "</body>\n</html>\n"@;
    assert(report_html(p) =~= before + filter_heading() + after);
    lemma_contains_middle(before, filter_heading(), after);
}

proof fn lemma_head_split(title: Seq<char>, lead: Seq<char>)
    ensures
        head_html(title, lead) == "<!DOCTYPE html>\n<html lang=\"en\">\n<head>\n<meta charset=\"utf-8\">\n"@
            + ("<title>"@ + title + "</title>"@) + ("\n</head>\n<body>\n<h1>"@ + title
            + "</h1>\n<p class=\"lead\">"@ + lead + "</p>\n"@),
{
    lemma_head_literal_split();
    assert(head_html(title, lead) =~= "<!DOCTYPE html>\n<html lang=\"en\">\n<head>\n<meta charset=\"utf-8\">\n"@
        + ("<title>"@ + title + "</title>"@) + ("\n</head>\n<body>\n<h1>"@ + title
        + "</h1>\n<p class=\"lead\">"@ + lead + "</p>\n"@));
}

/// The escaped title of a report stands in its title element.
#[verifier::spinoff_prover]
#[verifier::rlimit(40)]
pub proof fn lemma_report_shows_title(p: PageModel)
    ensures
        contains_text(report_html(p), "<title>"@ + html_escaped(p.title) + "</title>"@),
{
    let e = escape_page(p);
    let t = "<title>"@ + e.title + "</title>"@;
    let before = "<!DOCTYPE html>\n<html lang=\"en\">\n<head>\n<meta charset=\"utf-8\">\n"@;
    let head_rest = "\n</head>\n<body>\n<h1>"@ + e.title + "</h1>\n<p class=\"lead\">"@ + e.lead
        + "</p>\n"@;
    lemma_head_split(e.title, e.lead);
    let rest = filter_html(e.filter_rows) + sections_html(e.dataset_sections) + gains_html(
        e.information_gain_rows,
    ) + concepts_section_html(e.concept_count, e.concepts) + "</body>\n</html>\n"@;
    assert(report_html(p) =~= head_html(e.title, e.lead) + rest);
    assert(report_html(p) =~= before + t + (head_rest + rest));
    lemma_contains_middle(before, t, head_rest + rest);
}

/// A report states the number of its concepts.
pub proof fn lemma_report_shows_concept_count(p: PageModel)
    ensures
        contains_text(report_html(p), "<h2>Concepts ("@ + decimal(p.concept_count) + ")</h2>\n"@),
{
    let e = escape_page(p);
    lemma_concepts_literal_split();
    let c = "<h2>Concepts ("@ + decimal(e.concept_count) + ")</h2>\n"@;
    let before = head_html(e.title, e.lead) + filter_html(e.filter_rows) + sections_html(
        e.dataset_sections,
    ) + gains_html(e.information_gain_rows) + "<section class=\"concepts\">\n"@;
    let after = concepts_html(e.concepts) + "</section>\n"@ + "</body>\n</html>\n"@;
    assert(report_html(p) =~= before + c + after);
    lemma_contains_middle(before, c, after);
}

fn write_wrapped(out: &mut String, open: &str, close: &str, s: &Vec<String>)
    ensures
        final(out)@ == old(out)@ + wrapped(open@, close@, s.deep_view()),
{
    let ghost start = out@;
    let ghost sv = s.deep_view();
    let mut i: usize = 0;
    while i < s.len()
        invariant
            sv == s.deep_view(),
            i <= s.len(),
            out@ == start + wrapped(open@, close@, sv.take(i as int)),
        decreases s.len() - i,
    {
        assert(sv.take(i + 1).drop_last() =~= sv.take(i as int));
        out.append(open);
        out.append(s[i].as_str());
        out.append(close);
        assert(out@ =~= start + wrapped(open@, close@, sv.take(i + 1)));
        i = i + 1;
    }
    assert(sv.take(s.len() as int) =~= sv);
}

fn write_joined(out: &mut String, s: &Vec<String>, sep: &str)
    ensures
        final(out)@ == old(out)@ + join_texts(s.deep_view(), sep@),
{
    let ghost start = out@;
    let ghost sv = s.deep_view();
    let mut i: usize = 0;
    while i < s.len()
        invariant
            sv == s.deep_view(),
            i <= s.len(),
            out@ == start + join_texts(sv.take(i as int), sep@),
        decreases s.len() - i,
    {
        assert(sv.take(i + 1).drop_last() =~= sv.take(i as int));
        if i > 0 {
            out.append(sep);
        }
        out.append(s[i].as_str());
        assert(out@ =~= start + join_texts(sv.take(i + 1), sep@));
        i = i + 1;
    }
    assert(sv.take(s.len() as int) =~= sv);
}

fn write_pairs_table(out: &mut String, rows: &Vec<LabelValue>)
    ensures
        final(out)@ == old(out)@ + pairs_table(rows.deep_view()),
{
    let ghost start = out@;
    let ghost rv = rows.deep_view();
    out.append("<table>\n");
    let ghost mid = out@;
    let mut i: usize = 0;
    while i < rows.len()
        invariant
            rv == rows.deep_view(),
            i <= rows.len(),
            out@ == mid + pair_rows(rv.take(i as int)),
        decreases rows.len() - i,
    {
        assert(rv.take(i + 1).drop_last() =~= rv.take(i as int));
        out.append("<tr><th>");
        out.append(rows[i].label.as_str());
        out.append("</th><td>");
        out.append(rows[i].value.as_str());
        out.append("</td></tr>\n");
        assert(out@ =~= mid + pair_rows(rv.take(i + 1)));
        i = i + 1;
    }
    assert(rv.take(rows.len() as int) =~= rv);
    out.append("</table>\n");
    assert(out@ =~= start + pairs_table(rv));
}

fn write_shares_table(out: &mut String, rows: &Vec<CountShareValue>)
    ensures
        final(out)@ == old(out)@ + shares_table(rows.deep_view()),
{
    let ghost start = out@;
    let ghost rv = rows.deep_view();
    out.append("<table>\n<tr><th>Class</th><th>Count</th><th>Share</th></tr>\n");
    let ghost mid = out@;
    let mut i: usize = 0;
    while i < rows.len()
        invariant
            rv == rows.deep_view(),
            i <= rows.len(),
            out@ == mid + share_rows_html(rv.take(i as int)),
        decreases rows.len() - i,
    {
        assert(rv.take(i + 1).drop_last() =~= rv.take(i as int));
        out.append("<tr><td>");
        out.append(rows[i].name.as_str());
        out.append("</td><td>");
        let count = decimal_string(rows[i].count as u128);
        out.append(count.as_str());
        out.append("</td><td>");
        out.append(rows[i].percentage.as_str());
        out.append("</td></tr>\n");
        assert(out@ =~= mid + share_rows_html(rv.take(i + 1)));
        i = i + 1;
    }
    assert(rv.take(rows.len() as int) =~= rv);
    out.append("</table>\n");
    assert(out@ =~= start + shares_table(rv));
}

fn write_section(out: &mut String, m: &DatasetSectionView)
    ensures
        final(out)@ == old(out)@ + section_html(m.deep_view()),
{
    let ghost start = out@;
    let ghost rows = m.context_rows.deep_view();
    out.append("<section class=\"dataset\">\n<h2>");
    out.append(m.heading.as_str());
    out.append("</h2>\n<h3>Overview</h3>\n");
    write_pairs_table(out, &m.overview_rows);
    out.append("<h3>Formal Context</h3>\n<table>\n<tr>");
    write_wrapped(out, "<th>", "</th>", &m.context_headers);
    out.append("</tr>\n");
    let ghost mid = out@;
    let mut i: usize = 0;
    while i < m.context_rows.len()
        invariant
            rows == m.context_rows.deep_view(),
            i <= m.context_rows.len(),
            out@ == mid + context_rows_html(rows.take(i as int)),
        decreases m.context_rows.len() - i,
    {
        assert(rows.take(i + 1).drop_last() =~= rows.take(i as int));
        out.append("<tr>");
        write_wrapped(out, "<td>", "</td>", &m.context_rows[i]);
        out.append("</tr>\n");
        assert(out@ =~= mid + context_rows_html(rows.take(i + 1)));
        i = i + 1;
    }
    assert(rows.take(m.context_rows.len() as int) =~= rows);
    out.append("</table>\n<h3>Attribute Values</h3>\n");
    write_pairs_table(out, &m.attribute_rows);
    out.append("<h3>Class Distribution</h3>\n");
    write_shares_table(out, &m.class_distribution);
    out.append("</section>\n");
    assert(out@ =~= start + section_html(m.deep_view()));
}

fn write_gain_row(out: &mut String, g: &InformationGainRowView)
    ensures
        final(out)@ == old(out)@ + gain_row_html(g.deep_view()),
{
    let ghost start = out@;
    out.append("<tr><td>");
    out.append(g.attribute.as_str());
    out.append("</td><td>");
    out.append(g.gain.as_str());
    out.append("</td><td>");
    if g.chosen {
        out.append("yes");
    } else {
        out.append("no");
    }
    out.append("</td><td>");
    write_joined(out, &g.most_frequent_values, ", ");
    out.append("</td></tr>\n");
    assert(out@ =~= start + gain_row_html(g.deep_view()));
}

fn write_concept(out: &mut String, c: &ConceptView)
    ensures
        final(out)@ == old(out)@ + concept_html(c.deep_view()),
{
    let ghost start = out@;
    out.append("<article class=\"concept\">\n<h3>");
    out.append(c.title.as_str());
    out.append("</h3>\n");
    write_pairs_table(out, &c.summary_rows);
    out.append("<h4>Extent</h4>\n<ul>\n");
    write_wrapped(out, "<li>", "</li>\n", &c.extent_objects);
    out.append("</ul>\n<h4>Intent</h4>\n");
    write_pairs_table(out, &c.intent_rows);
    out.append("<h4>Class Distribution</h4>\n");
    write_shares_table(out, &c.class_distribution);
    if c.majority_summary.as_str().unicode_len() > 0 {
        out.append("<p class=\"majority\">Majority class: ");
        out.append(c.majority_summary.as_str());
        out.append("</p>\n");
    }
    out.append("</article>\n");
    assert(out@ =~= start + concept_html(c.deep_view()));
}

fn write_head(out: &mut String, title: &String, lead: &String)
    ensures
        final(out)@ == old(out)@ + head_html(title@, lead@),
{
    let ghost start = out@;
    out.append("<!DOCTYPE html>\n<html lang=\"en\">\n<head>\n<meta charset=\"utf-8\">\n<title>");
    out.append(title.as_str());
    out.append("</title>\n</head>\n<body>\n<h1>");
    out.append(title.as_str());
    out.append("</h1>\n<p class=\"lead\">");
    out.append(lead.as_str());
    out.append("</p>\n");
    assert(out@ =~= start + head_html(title@, lead@));
}

fn write_filter(out: &mut String, rows: &Vec<LabelValue>)
    ensures
        final(out)@ == old(out)@ + filter_html(rows.deep_view()),
{
    let ghost start = out@;
    if rows.len() > 0 {
        out.append("<section class=\"filter\">\n<h2>Minority-Class Filter</h2>\n");
        write_pairs_table(out, rows);
        out.append("</section>\n");
        assert(out@ =~= start + filter_html(rows.deep_view()));
    } else {
        assert(out@ =~= start + filter_html(rows.deep_view()));
    }
}

fn write_sections(out: &mut String, sections: &Vec<DatasetSectionView>)
    ensures
        final(out)@ == old(out)@ + sections_html(sections.deep_view()),
{
    let ghost start = out@;
    let ghost m = sections.deep_view();
    let mut i: usize = 0;
    while i < sections.len()
        invariant
            m == sections.deep_view(),
            i <= sections.len(),
            out@ == start + sections_html(m.take(i as int)),
        decreases sections.len() - i,
    {
        assert(m.take(i + 1).drop_last() =~= m.take(i as int));
        write_section(out, &sections[i]);
        assert(out@ =~= start + sections_html(m.take(i + 1)));
        i = i + 1;
    }
    assert(m.take(sections.len() as int) =~= m);
}

fn write_gains(out: &mut String, rows: &Vec<InformationGainRowView>)
    ensures
        final(out)@ == old(out)@ + gains_html(rows.deep_view()),
{
    let ghost start = out@;
    let ghost m = rows.deep_view();
    out.append(
        "<section class=\"information-gain\">\n<h2>Information Gain</h2>\n<table>\n<tr><th>Attribute</th><th>Gain</th><th>Chosen</th><th>Most Frequent Values</th></tr>\n",
    );
    let ghost mid = out@;
    let mut j: usize = 0;
    while j < rows.len()
        invariant
            m == rows.deep_view(),
            j <= rows.len(),
            out@ == mid + gain_rows_html(m.take(j as int)),
        decreases rows.len() - j,
    {
        assert(m.take(j + 1).drop_last() =~= m.take(j as int));
        write_gain_row(out, &rows[j]);
        assert(out@ =~= mid + gain_rows_html(m.take(j + 1)));
        j = j + 1;
    }
    assert(m.take(rows.len() as int) =~= m);
    out.append("</table>\n</section>\n");
    assert(out@ =~= start + gains_html(m));
}

fn write_concepts(out: &mut String, count: usize, concepts: &Vec<ConceptView>)
    ensures
        final(out)@ == old(out)@ + concepts_section_html(count as nat, concepts.deep_view()),
{
    let ghost start = out@;
    let ghost m = concepts.deep_view();
    out.append("<section class=\"concepts\">\n<h2>Concepts (");
    let number = decimal_string(count as u128);
    out.append(number.as_str());
    out.append(")</h2>\n");
    let ghost mid = out@;
    let mut k: usize = 0;
    while k < concepts.len()
        invariant
            m == concepts.deep_view(),
            k <= concepts.len(),
            out@ == mid + concepts_html(m.take(k as int)),
        decreases concepts.len() - k,
    {
        assert(m.take(k + 1).drop_last() =~= m.take(k as int));
        write_concept(out, &concepts[k]);
        assert(out@ =~= mid + concepts_html(m.take(k + 1)));
        k = k + 1;
    }
    assert(m.take(concepts.len() as int) =~= m);
    out.append("</section>\n");
    assert(out@ =~= start + concepts_section_html(count as nat, m));
}

/// Lays out a page whose texts are already escaped.
pub fn write_page(p: &ReportPageView) -> (r: String)
    ensures
        r@ == page_layout(p.deep_view()),
{
    let mut out = String::new();
    write_head(&mut out, &p.title, &p.lead);
    write_filter(&mut out, &p.filter_rows);
    write_sections(&mut out, &p.dataset_sections);
    write_gains(&mut out, &p.information_gain_rows);
    write_concepts(&mut out, p.concept_count, &p.concepts);
    out.append("</body>\n</html>\n");
    assert(out@ =~= page_layout(p.deep_view()));
    out
}

/// The texts of `list` separated by `sep`.
pub fn join_with(list: &Vec<String>, sep: &str) -> (r: String)
    ensures
        r@ == join_texts(list.deep_view(), sep@),
{
    let mut out = String::new();
    write_joined(&mut out, list, sep);
    assert(out@ =~= join_texts(list.deep_view(), sep@));
    out
}

/// Renders a page as HTML: every text escaped, then laid out.
pub fn render_page(p: &ReportPageView) -> (r: Result<String, RenderError>)
    ensures
        r is Ok,
        r matches Ok(h) ==> h@ == report_html(p.deep_view()),
{
    let escaped = escape_page_view(p)?;
    Ok(write_page(&escaped))
}

} // verus!
