//! The reports: from a dataset and what CNC or CNC-BP found in it to the
//! values each section shows, and from those to HTML.

use vstd::prelude::*;

use crate::cnc::{concepts_fit, AttributeGain, CncBpResult, CncConcept, CncResult, ConceptModel};
use crate::dataset::{
    all_class_values, cell, class_values, descriptive_attributes, distinct_count, distribution,
    filter_dataset_by_classes, filtered, majority, majority_class, most_frequent, count_of, dist_lt,
    most_frequent_values, summarize_dataset, summarize_class_values, DatasetModel, NominalDataset,
    cell_text,
};
use crate::sorting::{lemma_sorted_no_duplicates, sort_distinct, strictly_sorted, Ranked};
use crate::text::{lemma_text_before_irreflexive, lemma_text_before_total, lemma_text_before_transitive, text_before, text_less, decimal, decimal_string, fixed6_string, fixed6_text, format_percentage, percent_text};
use crate::html::{join_texts, join_with, render_page, report_html, RenderError};
use crate::view::{
    ConceptView, ConceptViewModel, CountShareValue, DatasetSectionView, GainRowModel,
    InformationGainRowView, LabelValue, PageModel, ReportPageView, SectionModel,
};

verus! {

/// Each value of a distribution with its count and its share of `total`.
pub open spec fn share_rows(d: Seq<(Seq<char>, usize)>, total: nat) -> Seq<(Seq<char>, usize, Seq<char>)> {
    d.map_values(|p: (Seq<char>, usize)| (p.0, p.1, percent_text(p.1 as nat, total)))
}

/// The row of the formal context for object `i`: its name, its value of each
/// descriptive attribute and its class value (`?` where its row holds none).
pub open spec fn context_row(ds: DatasetModel, i: int) -> Seq<Seq<char>> {
    seq![ds.objects[i]] + ds.descriptive_attributes().map_values(
        |a: Seq<char>| cell_text(ds.data[i], a),
    ) + seq![cell_text(ds.data[i], ds.class_attribute)]
}

/// The section that describes `ds` under `heading`.
pub open spec fn section_model(heading: Seq<char>, ds: DatasetModel) -> SectionModel {
    let desc = ds.descriptive_attributes();
    SectionModel {
        heading: heading,
        overview_rows: seq![
            ("Objects"@, decimal(ds.objects.len())),
            ("Descriptive attributes"@, decimal(desc.len())),
            ("Class attribute"@, ds.class_attribute),
        ],
        context_headers: seq!["Object"@] + desc + seq![ds.class_attribute],
        context_rows: Seq::new(ds.objects.len(), |i: int| context_row(ds, i)),
        attribute_rows: desc.map_values(
            |a: Seq<char>| (a, decimal(distinct_count(ds.attribute_values(a)))),
        ),
        class_distribution: share_rows(distribution(ds.all_class_values()), ds.objects.len()),
    }
}

/// The formal context of a dataset section has one row per object, and each
/// row has one cell per header: the object, each descriptive attribute, and
/// the class.
pub proof fn lemma_section_shape(heading: Seq<char>, ds: DatasetModel)
    ensures
        section_model(heading, ds).context_rows.len() == ds.objects.len(),
        section_model(heading, ds).context_headers.len() == ds.descriptive_attributes().len() + 2,
        forall|i: int|
            0 <= i < ds.objects.len() ==> (#[trigger] section_model(heading, ds).context_rows[i]).len()
                == section_model(heading, ds).context_headers.len(),
        section_model(heading, ds).attribute_rows.len() == ds.descriptive_attributes().len(),
{
}

/// Row `i` of the formal context describes object `i` and no other: its
/// name, its value of each descriptive attribute in header order, and its
/// class value, `?` standing for a value its row does not hold.
pub proof fn lemma_context_row_describes_object(heading: Seq<char>, ds: DatasetModel, i: int)
    requires
        0 <= i < ds.objects.len(),
    ensures
        section_model(heading, ds).context_rows[i].len() == ds.descriptive_attributes().len() + 2,
        section_model(heading, ds).context_rows[i][0] == ds.objects[i],
        forall|j: int|
            0 <= j < ds.descriptive_attributes().len() ==> #[trigger] section_model(
                heading,
                ds,
            ).context_rows[i][j + 1] == cell_text(ds.data[i], ds.descriptive_attributes()[j]),
        section_model(heading, ds).context_rows[i][ds.descriptive_attributes().len() + 1int]
            == ds.class_of(i),
        section_model(heading, ds).context_headers[ds.descriptive_attributes().len() + 1int]
            == ds.class_attribute,
{
    let desc = ds.descriptive_attributes();
    let row = section_model(heading, ds).context_rows[i];
    assert(row == context_row(ds, i));
    assert forall|j: int| 0 <= j < desc.len() implies #[trigger] section_model(heading, ds).context_rows[i][j
        + 1] == cell_text(ds.data[i], desc[j]) by {
        assert(row[j + 1] == desc.map_values(|a: Seq<char>| cell_text(ds.data[i], a))[j]);
    }
}

fn label_value(label: &str, value: String) -> (r: LabelValue)
    ensures
        r.deep_view() == (label@, value@),
{
    LabelValue { label: String::from_str(label), value }
}

/// Each entry of a distribution with its share of `total`.
fn build_share_rows(d: &Vec<(String, usize)>, total: usize) -> (r: Vec<CountShareValue>)
    ensures
        r.deep_view() == share_rows(d.deep_view(), total as nat),
{
    let ghost dv = d.deep_view();
    let mut r: Vec<CountShareValue> = Vec::new();
    let mut i: usize = 0;
    while i < d.len()
        invariant
            dv == d.deep_view(),
            i <= d.len(),
            r.deep_view() =~= share_rows(dv.take(i as int), total as nat),
        decreases d.len() - i,
    {
        let ghost before = r.deep_view();
        let row = CountShareValue {
            name: d[i].0.clone(),
            count: d[i].1,
            percentage: format_percentage(d[i].1, total),
        };
        r.push(row);
        assert(r.deep_view() =~= before.push(
            (dv[i as int].0, dv[i as int].1, percent_text(dv[i as int].1 as nat, total as nat)),
        ));
        i = i + 1;
    }
    assert(dv.take(d.len() as int) =~= dv);
    r
}

/// The values of a row for the given attributes, `?` where it holds none.
fn row_cells(row: &Vec<(String, String)>, attrs: &Vec<String>) -> (r: Vec<String>)
    ensures
        r.deep_view() == attrs.deep_view().map_values(
            |a: Seq<char>| cell_text(row.deep_view(), a),
        ),
{
    let ghost av = attrs.deep_view();
    let mut r: Vec<String> = Vec::new();
    let mut i: usize = 0;
    while i < attrs.len()
        invariant
            av == attrs.deep_view(),
            i <= attrs.len(),
            r.deep_view() =~= av.take(i as int).map_values(
                |a: Seq<char>| cell_text(row.deep_view(), a),
            ),
        decreases attrs.len() - i,
    {
        let ghost before = r.deep_view();
        let c = cell(row, attrs[i].as_str());
        r.push(c);
        assert(r.deep_view() =~= before.push(cell_text(row.deep_view(), av[i as int])));
        i = i + 1;
    }
    assert(av.take(attrs.len() as int) =~= av);
    r
}

/// Builds the section that describes `dataset` under `heading`: an overview,
/// the formal context (one row per object), the number of values of each
/// descriptive attribute and the class distribution.
pub fn build_dataset_section_view(heading: &str, dataset: &NominalDataset) -> (r: DatasetSectionView)
    requires
        dataset@.well_formed(),
    ensures
        r.deep_view() == section_model(heading@, dataset@),
{
    let ghost ds = dataset@;
    let summary = summarize_dataset(dataset);
    let descriptive = descriptive_attributes(&dataset.attributes, &dataset.class_attribute);
    let ghost desc = descriptive.deep_view();

    let mut context_headers: Vec<String> = Vec::new();
    context_headers.push(String::from_str("Object"));
    let mut i: usize = 0;
    while i < descriptive.len()
        invariant
            desc == descriptive.deep_view(),
            i <= descriptive.len(),
            context_headers.deep_view() =~= seq!["Object"@] + desc.take(i as int),
        decreases descriptive.len() - i,
    {
        let ghost before = context_headers.deep_view();
        context_headers.push(descriptive[i].clone());
        assert(context_headers.deep_view() =~= before.push(desc[i as int]));
        i = i + 1;
    }
    let ghost before_class = context_headers.deep_view();
    context_headers.push(summary.class_attribute.clone());
    assert(desc.take(descriptive.len() as int) =~= desc);
    assert(context_headers.deep_view() =~= before_class.push(ds.class_attribute));

    let mut context_rows: Vec<Vec<String>> = Vec::new();
    let mut j: usize = 0;
    while j < dataset.objects.len()
        invariant
            ds == dataset@,
            ds.well_formed(),
            desc == descriptive.deep_view(),
            desc == ds.descriptive_attributes(),
            j <= dataset.objects.len(),
            context_rows.deep_view() =~= Seq::new(j as nat, |k: int| context_row(ds, k)),
        decreases dataset.objects.len() - j,
    {
        let mut row: Vec<String> = Vec::new();
        row.push(dataset.objects[j].clone());
        let cells = row_cells(&dataset.data[j], &descriptive);
        let mut k: usize = 0;
        assert(ds.data[j as int] == dataset.data[j as int].deep_view());
        while k < cells.len()
            invariant
                ds == dataset@,
                ds.well_formed(),
                j < dataset.objects.len(),
                k <= cells.len(),
                row.deep_view() =~= seq![ds.objects[j as int]] + cells.deep_view().take(k as int),
            decreases cells.len() - k,
        {
            let ghost b = row.deep_view();
            row.push(cells[k].clone());
            assert(row.deep_view() =~= b.push(cells.deep_view()[k as int]));
            k = k + 1;
        }
        assert(cells.deep_view().take(cells.len() as int) =~= cells.deep_view());
        let ghost b2 = row.deep_view();
        row.push(cell(&dataset.data[j], dataset.class_attribute.as_str()));
        assert(row.deep_view() =~= b2.push(cell_text(ds.data[j as int], ds.class_attribute)));
        assert(row.deep_view() =~= context_row(ds, j as int));
        let ghost before_rows = context_rows.deep_view();
        context_rows.push(row);
        assert(context_rows.deep_view() =~= before_rows.push(context_row(ds, j as int)));
        j = j + 1;
    }

    let mut attribute_rows: Vec<LabelValue> = Vec::new();
    let mut a: usize = 0;
    while a < summary.attribute_unique_values.len()
        invariant
            a <= summary.attribute_unique_values.len(),
            summary.attribute_unique_values.len() == desc.len(),
            desc == ds.descriptive_attributes(),
            ds == dataset@,
            forall|k: int|
                0 <= k < summary.attribute_unique_values.len() ==> #[trigger] summary.attribute_unique_values.deep_view()[k].0
                    == desc[k] && summary.attribute_unique_values.deep_view()[k].1
                    == distinct_count(ds.attribute_values(desc[k])),
            attribute_rows.deep_view() =~= desc.take(a as int).map_values(
                |x: Seq<char>| (x, decimal(distinct_count(ds.attribute_values(x)))),
            ),
        decreases summary.attribute_unique_values.len() - a,
    {
        let ghost b = attribute_rows.deep_view();
        let entry = &summary.attribute_unique_values[a];
        assert(summary.attribute_unique_values.deep_view()[a as int] == (entry.0@, entry.1));
        assert(summary.attribute_unique_values.deep_view()[a as int].0 == desc[a as int]);
        attribute_rows.push(
            LabelValue { label: entry.0.clone(), value: decimal_string(entry.1 as u128) },
        );
        assert(attribute_rows.deep_view() =~= b.push(
            (desc[a as int], decimal(distinct_count(ds.attribute_values(desc[a as int])))),
        ));
        a = a + 1;
    }
    assert(desc.take(desc.len() as int) =~= desc);

    let mut overview_rows: Vec<LabelValue> = Vec::new();
    overview_rows.push(label_value("Objects", decimal_string(summary.objects as u128)));
    overview_rows.push(
        label_value("Descriptive attributes", decimal_string(summary.descriptive_attributes as u128)),
    );
    overview_rows.push(label_value("Class attribute", summary.class_attribute.clone()));

    let class_distribution = build_share_rows(&summary.class_distribution, summary.objects);
    let r = DatasetSectionView {
        heading: String::from_str(heading),
        overview_rows,
        context_headers,
        context_rows,
        attribute_rows,
        class_distribution,
    };
    assert(r.deep_view().overview_rows =~= section_model(heading@, ds).overview_rows);
    assert(r.deep_view().context_rows =~= section_model(heading@, ds).context_rows);
    assert(r.deep_view().context_headers =~= section_model(heading@, ds).context_headers);
    assert(r.deep_view().attribute_rows =~= section_model(heading@, ds).attribute_rows);
    assert(r.deep_view().class_distribution =~= section_model(heading@, ds).class_distribution);
    assert(r.deep_view().heading =~= section_model(heading@, ds).heading);
    r
}


/// The rows of the information gain table: for each attribute its gain with
/// six decimals, whether it is one of the pertinent attributes, and its most
/// frequent values in `ds`.
pub open spec fn gain_rows_model(
    ds: DatasetModel,
    gains: Seq<(Seq<char>, u64)>,
    pertinent: Seq<Seq<char>>,
) -> Seq<GainRowModel> {
    gains.map_values(
        |g: (Seq<char>, u64)|
            GainRowModel {
                attribute: g.0,
                gain: fixed6_text(g.1 as nat),
                chosen: pertinent.contains(g.0),
                most_frequent_values: most_frequent(ds.attribute_values(g.0)),
            },
    )
}

/// Builds the rows of the information gain table.
pub fn build_information_gain_rows(
    dataset: &NominalDataset,
    gains: &Vec<AttributeGain>,
    pertinent_attributes: &Vec<String>,
) -> (r: Vec<InformationGainRowView>)
    ensures
        r.deep_view() == gain_rows_model(dataset@, gains.deep_view(), pertinent_attributes.deep_view()),
{
    let ghost gv = gains.deep_view();
    let ghost pv = pertinent_attributes.deep_view();
    let mut r: Vec<InformationGainRowView> = Vec::new();
    let mut i: usize = 0;
    while i < gains.len()
        invariant
            gv == gains.deep_view(),
            pv == pertinent_attributes.deep_view(),
            i <= gains.len(),
            r.deep_view() =~= gain_rows_model(dataset@, gv.take(i as int), pv),
        decreases gains.len() - i,
    {
        let gain = &gains[i];
        let ghost before = r.deep_view();
        let row = InformationGainRowView {
            attribute: gain.attribute.clone(),
            gain: fixed6_string(gain.gain_micros),
            chosen: crate::dataset::text_in(pertinent_attributes, gain.attribute.as_str()),
            most_frequent_values: most_frequent_values(dataset, gain.attribute.as_str()),
        };
        r.push(row);
        assert(r.deep_view() =~= before.push(gain_rows_model(dataset@, seq![gv[i as int]], pv)[0]));
        assert(gv.take(i + 1) =~= gv.take(i as int).push(gv[i as int]));
        i = i + 1;
    }
    assert(gv.take(gains.len() as int) =~= gv);
    r
}

/// The order of attribute-value pairs: by attribute, then by value.
pub open spec fn pair_lt() -> spec_fn((Seq<char>, Seq<char>), (Seq<char>, Seq<char>)) -> bool {
    |a: (Seq<char>, Seq<char>), b: (Seq<char>, Seq<char>)|
        text_before(a.0, b.0) || (a.0 == b.0 && text_before(a.1, b.1))
}

impl Ranked for (String, String) {
    open spec fn rank_lt() -> spec_fn((Seq<char>, Seq<char>), (Seq<char>, Seq<char>)) -> bool {
        pair_lt()
    }

    proof fn lemma_rank_order() {
        let lt = pair_lt();
        assert forall|x: (Seq<char>, Seq<char>)| !#[trigger] lt(x, x) by {
            lemma_text_before_irreflexive(x.0);
            lemma_text_before_irreflexive(x.1);
        }
        assert forall|x: (Seq<char>, Seq<char>), y: (Seq<char>, Seq<char>), z: (Seq<char>, Seq<char>)|
            #[trigger] lt(x, y) && #[trigger] lt(y, z) implies lt(x, z) by {
            if text_before(x.0, y.0) && text_before(y.0, z.0) {
                lemma_text_before_transitive(x.0, y.0, z.0);
            }
            if x.0 == y.0 && y.0 == z.0 {
                lemma_text_before_irreflexive(x.0);
                lemma_text_before_transitive(x.1, y.1, z.1);
            }
        }
        assert forall|x: (Seq<char>, Seq<char>), y: (Seq<char>, Seq<char>)| x != y implies #[trigger] lt(
            x,
            y,
        ) || lt(y, x) by {
            if x.0 != y.0 {
                lemma_text_before_total(x.0, y.0);
            } else {
                lemma_text_before_total(x.1, y.1);
            }
        }
    }

    fn ranks_before(&self, other: &Self) -> (r: bool) {
        text_less(self.0.as_str(), other.0.as_str()) || (self.0 == other.0 && text_less(
            self.1.as_str(),
            other.1.as_str(),
        ))
    }
}

/// The intent of a concept sorted by attribute.
pub open spec fn sorted_intent(intent: Seq<(Seq<char>, Seq<char>)>) -> Seq<(Seq<char>, Seq<char>)> {
    choose|s: Seq<(Seq<char>, Seq<char>)>|
        strictly_sorted(s, pair_lt()) && s.to_set() == intent.to_set()
}

/// `count` out of `total`, such as `2/5 (40.0%)`.
pub open spec fn ratio_text(count: nat, total: nat) -> Seq<char> {
    decimal(count) + "/"@ + decimal(total) + " ("@ + percent_text(count, total) + ")"@
}

/// The majority class of `values` out of `n`, such as `Yes (3/5, 60.0%)`,
/// or nothing when there are no values.
pub open spec fn majority_text(values: Seq<Seq<char>>, n: nat) -> Seq<char> {
    match majority(values) {
        None => Seq::empty(),
        Some(p) => p.0 + " ("@ + decimal(p.1 as nat) + "/"@ + decimal(n) + ", "@ + percent_text(
            p.1 as nat,
            n,
        ) + ")"@,
    }
}

/// The section that describes concept number `index` (from zero) of `ds`,
/// where `ds` has `descriptive_count` descriptive attributes.
pub open spec fn concept_model(
    index: nat,
    ds: DatasetModel,
    c: ConceptModel,
    descriptive_count: nat,
) -> ConceptViewModel {
    let values = ds.class_values(c.extent);
    ConceptViewModel {
        title: "Concept "@ + decimal(index + 1),
        summary_rows: seq![
            ("Pertinent attribute"@, c.pertinent_attribute),
            ("Chosen value"@, c.attribute_value),
            ("Extent size"@, ratio_text(c.extent.len(), ds.objects.len())),
            ("Intent size"@, ratio_text(c.intent.len(), descriptive_count)),
        ],
        extent_objects: c.extent.map_values(|i: usize| ds.objects[i as int]),
        intent_rows: sorted_intent(c.intent),
        class_distribution: share_rows(distribution(values), c.extent.len()),
        majority_summary: majority_text(values, c.extent.len()),
    }
}

/// The majority summary of a concept with objects names a class value that
/// occurs among the class values of its extent at least as often as any
/// other (the first by name among equally frequent ones), with how often it
/// occurs, out of how many objects the extent has, and that share of the
/// extent in percent; each row of the concept's class distribution is a
/// class value of the extent with its number of occurrences and that share
/// of the extent.
pub proof fn lemma_majority_summary(index: nat, ds: DatasetModel, c: ConceptModel, descriptive_count: nat)
    requires
        0 < c.extent.len() <= usize::MAX,
    ensures
        exists|v: Seq<char>|
            #![trigger ds.class_values(c.extent).contains(v)]
            {
                let values = ds.class_values(c.extent);
                let k = count_of(values, v);
                &&& values.contains(v)
                &&& forall|w: Seq<char>|
                    #[trigger] values.contains(w) ==> count_of(values, w) <= k
                &&& forall|w: Seq<char>|
                    #[trigger] values.contains(w) && count_of(values, w) == k && w != v
                        ==> text_before(v, w)
                &&& concept_model(index, ds, c, descriptive_count).majority_summary == v + " ("@
                    + decimal(k) + "/"@ + decimal(c.extent.len()) + ", "@ + percent_text(
                    k,
                    c.extent.len(),
                ) + ")"@
            },
        forall|j: int|
            0 <= j < concept_model(index, ds, c, descriptive_count).class_distribution.len() ==> {
                let row = #[trigger] concept_model(index, ds, c, descriptive_count).class_distribution[j];
                &&& ds.class_values(c.extent).contains(row.0)
                &&& row.1 == count_of(ds.class_values(c.extent), row.0)
                &&& row.2 == percent_text(row.1 as nat, c.extent.len())
            },
{
    let values = ds.class_values(c.extent);
    crate::dataset::lemma_distribution_exists(values);
    let d = distribution(values);
    <(String, usize) as Ranked>::lemma_rank_order();
    assert(values.contains(values[0]));
    crate::dataset::lemma_count_of_le(values, values[0]);
    let p0 = (values[0], count_of(values, values[0]) as usize);
    assert(d.to_set().contains(p0));
    assert(d.len() > 0);
    let top = d[0];
    assert(d.to_set().contains(top));
    let v = top.0;
    let k = count_of(values, v);
    assert(values.contains(v) && top.1 == k);
    assert forall|w: Seq<char>| #[trigger] values.contains(w) implies count_of(values, w) <= k && (
    count_of(values, w) == k && w != v ==> text_before(v, w)) by {
        crate::dataset::lemma_count_of_le(values, w);
        let pw = (w, count_of(values, w) as usize);
        assert(d.to_set().contains(pw));
        let j = choose|j: int| 0 <= j < d.len() && d[j] == pw;
        if j > 0 {
            assert((dist_lt())(d[0], d[j]));
        }
    }
    assert(majority(values) == Some(top));
    let rows = concept_model(index, ds, c, descriptive_count).class_distribution;
    assert forall|j: int| 0 <= j < rows.len() implies {
        let row = #[trigger] rows[j];
        &&& values.contains(row.0)
        &&& row.1 == count_of(values, row.0)
        &&& row.2 == percent_text(row.1 as nat, c.extent.len())
    } by {
        assert(d.to_set().contains(d[j]));
    }
}

fn ratio_string(count: usize, total: usize) -> (r: String)
    ensures
        r@ == ratio_text(count as nat, total as nat),
{
    let mut s = decimal_string(count as u128);
    s.append("/");
    let t = decimal_string(total as u128);
    s.append(t.as_str());
    s.append(" (");
    let p = format_percentage(count, total);
    s.append(p.as_str());
    s.append(")");
    s
}

/// Builds the section that describes concept number `index` (from zero).
pub fn build_concept_view(
    index: usize,
    dataset: &NominalDataset,
    concept: &CncConcept,
    descriptive_attribute_count: usize,
) -> (r: ConceptView)
    requires
        dataset@.well_formed(),
        concept.deep_view().fits(dataset@.objects.len()),
        index < usize::MAX,
    ensures
        r.deep_view() == concept_model(
            index as nat,
            dataset@,
            concept.deep_view(),
            descriptive_attribute_count as nat,
        ),
        forall|i: int, j: int|
            0 <= i < j < r.intent_rows.len() ==> text_before(
                #[trigger] r.intent_rows.deep_view()[i].0,
                #[trigger] r.intent_rows.deep_view()[j].0,
            ),
{
    let ghost ds = dataset@;
    let ghost c = concept.deep_view();
    let mut extent_objects: Vec<String> = Vec::new();
    let mut k: usize = 0;
    while k < concept.extent.len()
        invariant
            ds == dataset@,
            c == concept.deep_view(),
            c.fits(ds.objects.len()),
            k <= concept.extent.len(),
            extent_objects.deep_view() =~= c.extent.take(k as int).map_values(
                |i: usize| ds.objects[i as int],
            ),
        decreases concept.extent.len() - k,
    {
        let ghost before = extent_objects.deep_view();
        extent_objects.push(dataset.objects[concept.extent[k]].clone());
        assert(extent_objects.deep_view() =~= before.push(ds.objects[c.extent[k as int] as int]));
        k = k + 1;
    }
    assert(c.extent.take(concept.extent.len() as int) =~= c.extent);

    let values = class_values(dataset, &concept.extent);
    let distribution_entries = summarize_class_values(&values);
    let class_distribution = build_share_rows(&distribution_entries, concept.extent.len());

    let majority_summary = match majority_class(&values) {
        None => String::new(),
        Some((name, count)) => {
            let mut s = name;
            s.append(" (");
            let c1 = decimal_string(count as u128);
            s.append(c1.as_str());
            s.append("/");
            let c2 = decimal_string(concept.extent.len() as u128);
            s.append(c2.as_str());
            s.append(", ");
            let p = format_percentage(count, concept.extent.len());
            s.append(p.as_str());
            s.append(")");
            s
        },
    };

    let mut entries: Vec<(String, String)> = Vec::new();
    let mut e: usize = 0;
    while e < concept.intent.len()
        invariant
            c == concept.deep_view(),
            e <= concept.intent.len(),
            entries.deep_view() =~= c.intent.take(e as int),
        decreases concept.intent.len() - e,
    {
        let ghost before = entries.deep_view();
        entries.push((concept.intent[e].0.clone(), concept.intent[e].1.clone()));
        assert(entries.deep_view() =~= before.push(c.intent[e as int]));
        e = e + 1;
    }
    assert(c.intent.take(concept.intent.len() as int) =~= c.intent);
    assert(entries.deep_view().no_duplicates()) by {
        assert forall|i: int, j: int|
            0 <= i < c.intent.len() && 0 <= j < c.intent.len() && i != j implies c.intent[i]
            != c.intent[j] by {
            assert(c.intent[i].0 != c.intent[j].0);
        }
    }
    let sorted = sort_distinct(entries);
    proof {
        <(String, String) as Ranked>::lemma_rank_order();
        let s = sorted_intent(c.intent);
        assert(strictly_sorted(s, pair_lt()) && s.to_set() == c.intent.to_set());
        crate::sorting::lemma_sorted_unique(s, sorted.deep_view(), pair_lt());
    }
    let mut intent_rows: Vec<LabelValue> = Vec::new();
    let mut q: usize = 0;
    while q < sorted.len()
        invariant
            q <= sorted.len(),
            intent_rows.deep_view() =~= sorted.deep_view().take(q as int),
        decreases sorted.len() - q,
    {
        let ghost before = intent_rows.deep_view();
        intent_rows.push(LabelValue { label: sorted[q].0.clone(), value: sorted[q].1.clone() });
        assert(intent_rows.deep_view() =~= before.push(sorted.deep_view()[q as int]));
        q = q + 1;
    }
    assert(sorted.deep_view().take(sorted.len() as int) =~= sorted.deep_view());
    proof {
        let sv = sorted.deep_view();
        assert forall|i: int, j: int| 0 <= i < j < sv.len() implies text_before(sv[i].0, sv[j].0) by {
            assert(pair_lt()(sv[i], sv[j]));
            if sv[i].0 == sv[j].0 {
                assert(sv.to_set().contains(sv[i]));
                assert(sv.to_set().contains(sv[j]));
                assert(c.intent.to_set().contains(sv[i]));
                assert(c.intent.to_set().contains(sv[j]));
                let a = choose|a: int| 0 <= a < c.intent.len() && c.intent[a] == sv[i];
                let b = choose|b: int| 0 <= b < c.intent.len() && c.intent[b] == sv[j];
                lemma_sorted_no_duplicates(sv, pair_lt());
                assert(sv[i] != sv[j]);
                assert(a != b);
            }
        }
    }

    let mut title = String::from_str("Concept ");
    let number = decimal_string(index as u128 + 1);
    title.append(number.as_str());

    let mut summary_rows: Vec<LabelValue> = Vec::new();
    summary_rows.push(label_value("Pertinent attribute", concept.pertinent_attribute.clone()));
    summary_rows.push(label_value("Chosen value", concept.attribute_value.clone()));
    summary_rows.push(
        label_value("Extent size", ratio_string(concept.extent.len(), dataset.objects.len())),
    );
    summary_rows.push(
        label_value("Intent size", ratio_string(concept.intent.len(), descriptive_attribute_count)),
    );

    let r = ConceptView {
        title,
        summary_rows,
        extent_objects,
        intent_rows,
        class_distribution,
        majority_summary,
    };
    let ghost m = concept_model(index as nat, ds, c, descriptive_attribute_count as nat);
    assert(r.deep_view().summary_rows =~= m.summary_rows);
    assert(r.deep_view().title =~= m.title);
    assert(r.deep_view().majority_summary =~= m.majority_summary);
    assert(r.intent_rows.deep_view() == sorted.deep_view());
    r
}

/// Builds the section of each concept, numbered from one.
pub fn build_concepts(dataset: &NominalDataset, results: &CncResult) -> (r: Vec<ConceptView>)
    requires
        dataset@.well_formed(),
        concepts_fit(results.concepts.deep_view(), dataset@.objects.len()),
    ensures
        r.deep_view() == Seq::new(
            results.concepts.len() as nat,
            |i: int|
                concept_model(
                    i as nat,
                    dataset@,
                    results.concepts.deep_view()[i],
                    dataset@.descriptive_attributes().len(),
                ),
        ),
{
    let descriptive = descriptive_attributes(&dataset.attributes, &dataset.class_attribute);
    let count = descriptive.len();
    let ghost cs = results.concepts.deep_view();
    let mut r: Vec<ConceptView> = Vec::new();
    let mut i: usize = 0;
    while i < results.concepts.len()
        invariant
            cs == results.concepts.deep_view(),
            dataset@.well_formed(),
            concepts_fit(cs, dataset@.objects.len()),
            count == dataset@.descriptive_attributes().len(),
            i <= results.concepts.len(),
            r.deep_view() =~= Seq::new(
                i as nat,
                |k: int| concept_model(k as nat, dataset@, cs[k], count as nat),
            ),
        decreases results.concepts.len() - i,
    {
        assert(cs[i as int] == results.concepts[i as int].deep_view());
        assert(cs[i as int].fits(dataset@.objects.len()));
        let ghost before = r.deep_view();
        let v = build_concept_view(i, dataset, &results.concepts[i], count);
        r.push(v);
        assert(r.deep_view() =~= before.push(concept_model(i as nat, dataset@, cs[i as int], count as nat)));
        i = i + 1;
    }
    r
}


/// The concept sections of `concepts` in `ds`, numbered from one.
pub open spec fn concepts_model(ds: DatasetModel, concepts: Seq<ConceptModel>) -> Seq<ConceptViewModel> {
    Seq::new(
        concepts.len(),
        |i: int| concept_model(i as nat, ds, concepts[i], ds.descriptive_attributes().len()),
    )
}

/// The lead paragraph of a CNC report.
pub open spec fn cnc_lead() -> Seq<char> {
    "Formal Concept Analysis report for a nominal dataset classified with CNC."@
}

/// The lead paragraph of a CNC-BP report.
pub open spec fn cnc_bp_lead() -> Seq<char> {
    "Formal Concept Analysis report for CNC-BP. Pertinent attributes are selected on the original dataset, then concepts are computed on the minority-class subset."@
}

/// The title of a report: the one given, or the default.
pub open spec fn title_or(title: Option<&str>, default: Seq<char>) -> Seq<char> {
    match title {
        Some(t) => t@,
        None => default,
    }
}

/// The page of a CNC report on `ds`: the dataset section, the information
/// gain table (attributes marked when pertinent) and the concepts.
pub open spec fn cnc_report_page(
    ds: DatasetModel,
    pertinent: Seq<Seq<char>>,
    concepts: Seq<ConceptModel>,
    gains: Seq<(Seq<char>, u64)>,
    title: Seq<char>,
) -> PageModel {
    PageModel {
        title: title,
        lead: cnc_lead(),
        filter_rows: Seq::empty(),
        dataset_sections: seq![section_model("Dataset"@, ds)],
        information_gain_rows: gain_rows_model(ds, gains, pertinent),
        concept_count: concepts.len(),
        concepts: concepts_model(ds, concepts),
    }
}

/// `s` sorted by the order of strings.
pub open spec fn sorted_texts(s: Seq<Seq<char>>) -> Seq<Seq<char>> {
    choose|t: Seq<Seq<char>>|
        strictly_sorted(t, <String as Ranked>::rank_lt()) && t.to_set() == s.to_set()
}

/// The page of a CNC-BP report on `ds`: the filter (sizes before and after,
/// the minority classes kept, sorted and separated by commas), the sections
/// of the original and of the filtered dataset, the information gain table on
/// the original dataset, and the concepts, which lie in the filtered dataset.
pub open spec fn cnc_bp_report_page(
    ds: DatasetModel,
    minority_classes: Seq<Seq<char>>,
    original_size: nat,
    filtered_size: nat,
    pertinent: Seq<Seq<char>>,
    concepts: Seq<ConceptModel>,
    gains: Seq<(Seq<char>, u64)>,
    title: Seq<char>,
) -> PageModel {
    let f = filtered(ds, minority_classes);
    PageModel {
        title: title,
        lead: cnc_bp_lead(),
        filter_rows: seq![
            ("Original objects"@, decimal(original_size)),
            ("Filtered objects"@, decimal(filtered_size)),
            ("Minority classes kept"@, join_texts(sorted_texts(minority_classes), ", "@)),
        ],
        dataset_sections: seq![
            section_model("Original Dataset"@, ds),
            section_model("Filtered Dataset"@, f),
        ],
        information_gain_rows: gain_rows_model(ds, gains, pertinent),
        concept_count: concepts.len(),
        concepts: concepts_model(f, concepts),
    }
}

/// The CNC-BP page does not depend on the order in which the minority
/// classes are given: two lists of the same classes give the same page.
pub proof fn lemma_bp_page_ignores_class_order(
    ds: DatasetModel,
    m1: Seq<Seq<char>>,
    m2: Seq<Seq<char>>,
    original_size: nat,
    filtered_size: nat,
    pertinent: Seq<Seq<char>>,
    concepts: Seq<ConceptModel>,
    gains: Seq<(Seq<char>, u64)>,
    title: Seq<char>,
)
    requires
        m1.to_set() == m2.to_set(),
    ensures
        cnc_bp_report_page(ds, m1, original_size, filtered_size, pertinent, concepts, gains, title)
            == cnc_bp_report_page(ds, m2, original_size, filtered_size, pertinent, concepts, gains, title),
        report_html(cnc_bp_report_page(ds, m1, original_size, filtered_size, pertinent, concepts, gains, title))
            == report_html(cnc_bp_report_page(ds, m2, original_size, filtered_size, pertinent, concepts, gains, title)),
{
    crate::dataset::lemma_filtered_same_classes(ds, m1, m2);
    assert(sorted_texts(m1) == sorted_texts(m2));
}

/// The filter section of a CNC-BP page shows the number of objects before
/// filtering and the number after it, so the two differ whenever the filter
/// removed objects; each agrees with the object count of its dataset section
/// when the sizes are those of the datasets.
pub proof fn lemma_bp_filter_shows_sizes(
    ds: DatasetModel,
    minority_classes: Seq<Seq<char>>,
    original_size: nat,
    filtered_size: nat,
    pertinent: Seq<Seq<char>>,
    concepts: Seq<ConceptModel>,
    gains: Seq<(Seq<char>, u64)>,
    title: Seq<char>,
)
    ensures
        cnc_bp_report_page(ds, minority_classes, original_size, filtered_size, pertinent, concepts, gains, title).filter_rows[0]
            == ("Original objects"@, decimal(original_size)),
        cnc_bp_report_page(ds, minority_classes, original_size, filtered_size, pertinent, concepts, gains, title).filter_rows[1]
            == ("Filtered objects"@, decimal(filtered_size)),
        original_size != filtered_size ==> cnc_bp_report_page(ds, minority_classes, original_size, filtered_size, pertinent, concepts, gains, title).filter_rows[0].1
            != cnc_bp_report_page(ds, minority_classes, original_size, filtered_size, pertinent, concepts, gains, title).filter_rows[1].1,
        original_size == ds.objects.len() ==> cnc_bp_report_page(ds, minority_classes, original_size, filtered_size, pertinent, concepts, gains, title).filter_rows[0].1
            == cnc_bp_report_page(ds, minority_classes, original_size, filtered_size, pertinent, concepts, gains, title).dataset_sections[0].overview_rows[0].1,
        filtered_size == filtered(ds, minority_classes).objects.len() ==> cnc_bp_report_page(ds, minority_classes, original_size, filtered_size, pertinent, concepts, gains, title).filter_rows[1].1
            == cnc_bp_report_page(ds, minority_classes, original_size, filtered_size, pertinent, concepts, gains, title).dataset_sections[1].overview_rows[0].1,
{
    crate::cli::lemma_decimal_digits(original_size);
    crate::cli::lemma_decimal_digits(filtered_size);
}

/// Rendering with no title gives the same HTML as rendering with the default
/// title, for CNC and for CNC-BP reports.
pub proof fn lemma_no_title_is_default_title(
    ds: DatasetModel,
    minority_classes: Seq<Seq<char>>,
    original_size: nat,
    filtered_size: nat,
    pertinent: Seq<Seq<char>>,
    concepts: Seq<ConceptModel>,
    gains: Seq<(Seq<char>, u64)>,
)
    ensures
        report_html(cnc_report_page(ds, pertinent, concepts, gains, title_or(None, "CNC Report"@)))
            == report_html(
            cnc_report_page(ds, pertinent, concepts, gains, title_or(Some("CNC Report"), "CNC Report"@)),
        ),
        report_html(
            cnc_bp_report_page(
                ds,
                minority_classes,
                original_size,
                filtered_size,
                pertinent,
                concepts,
                gains,
                title_or(None, "CNC-BP Report"@),
            ),
        ) == report_html(
            cnc_bp_report_page(
                ds,
                minority_classes,
                original_size,
                filtered_size,
                pertinent,
                concepts,
                gains,
                title_or(Some("CNC-BP Report"), "CNC-BP Report"@),
            ),
        ),
{
}

fn title_text(title: Option<&str>, default: &str) -> (r: String)
    ensures
        r@ == title_or(title, default@),
{
    match title {
        Some(t) => String::from_str(t),
        None => String::from_str(default),
    }
}

/// Builds the page of a CNC report.
pub fn build_cnc_report_page(
    dataset: &NominalDataset,
    results: &CncResult,
    gains: &Vec<AttributeGain>,
    title: Option<&str>,
) -> (r: ReportPageView)
    requires
        dataset@.well_formed(),
        concepts_fit(results.concepts.deep_view(), dataset@.objects.len()),
    ensures
        r.deep_view() == cnc_report_page(
            dataset@,
            results.pertinent_attrs.deep_view(),
            results.concepts.deep_view(),
            gains.deep_view(),
            title_or(title, "CNC Report"@),
        ),
{
    let mut sections: Vec<DatasetSectionView> = Vec::new();
    sections.push(build_dataset_section_view("Dataset", dataset));
    let r = ReportPageView {
        title: title_text(title, "CNC Report"),
        lead: String::from_str(
            "Formal Concept Analysis report for a nominal dataset classified with CNC.",
        ),
        filter_rows: Vec::new(),
        dataset_sections: sections,
        information_gain_rows: build_information_gain_rows(dataset, gains, &results.pertinent_attrs),
        concept_count: results.concepts.len(),
        concepts: build_concepts(dataset, results),
    };
    let ghost m = cnc_report_page(
        dataset@,
        results.pertinent_attrs.deep_view(),
        results.concepts.deep_view(),
        gains.deep_view(),
        title_or(title, "CNC Report"@),
    );
    assert(r.deep_view().filter_rows =~= m.filter_rows);
    assert(r.deep_view().dataset_sections =~= m.dataset_sections);
    assert(r.deep_view().concepts =~= m.concepts);
    r
}

/// Renders the HTML report of a CNC run on `dataset`: the dataset, the
/// information gain of each attribute (`gains`, in the order given), and the
/// concepts; `title` defaults to `CNC Report`.
pub fn render_cnc_report_html(
    dataset: &NominalDataset,
    results: &CncResult,
    gains: &Vec<AttributeGain>,
    title: Option<&str>,
) -> (r: Result<String, RenderError>)
    requires
        dataset@.well_formed(),
        concepts_fit(results.concepts.deep_view(), dataset@.objects.len()),
    ensures
        r is Ok,
        r matches Ok(h) ==> h@ == report_html(
            cnc_report_page(
                dataset@,
                results.pertinent_attrs.deep_view(),
                results.concepts.deep_view(),
                gains.deep_view(),
                title_or(title, "CNC Report"@),
            ),
        ),
{
    let page = build_cnc_report_page(dataset, results, gains, title);
    render_page(&page)
}

/// Builds the page of a CNC-BP report.
pub fn build_cnc_bp_report_page(
    dataset: &NominalDataset,
    bp_result: &CncBpResult,
    gains: &Vec<AttributeGain>,
    title: Option<&str>,
) -> (r: ReportPageView)
    requires
        dataset@.well_formed(),
        bp_result.minority_classes.deep_view().no_duplicates(),
        concepts_fit(
            bp_result.cnc_result.concepts.deep_view(),
            filtered(dataset@, bp_result.minority_classes.deep_view()).objects.len(),
        ),
    ensures
        r.deep_view() == cnc_bp_report_page(
            dataset@,
            bp_result.minority_classes.deep_view(),
            bp_result.original_size as nat,
            bp_result.filtered_size as nat,
            bp_result.cnc_result.pertinent_attrs.deep_view(),
            bp_result.cnc_result.concepts.deep_view(),
            gains.deep_view(),
            title_or(title, "CNC-BP Report"@),
        ),
{
    let filtered_dataset = filter_dataset_by_classes(dataset, &bp_result.minority_classes);
    let classes = crate::dataset::copy_texts(&bp_result.minority_classes);
    let minority_classes = sort_distinct(classes);
    proof {
        let mv = bp_result.minority_classes.deep_view();
        <String as Ranked>::lemma_rank_order();
        let s = sorted_texts(mv);
        assert(strictly_sorted(s, <String as Ranked>::rank_lt()) && s.to_set() == mv.to_set());
        crate::sorting::lemma_sorted_unique(
            s,
            minority_classes.deep_view(),
            <String as Ranked>::rank_lt(),
        );
    }

    let mut filter_rows: Vec<LabelValue> = Vec::new();
    filter_rows.push(label_value("Original objects", decimal_string(bp_result.original_size as u128)));
    filter_rows.push(label_value("Filtered objects", decimal_string(bp_result.filtered_size as u128)));
    filter_rows.push(label_value("Minority classes kept", join_with(&minority_classes, ", ")));

    let mut sections: Vec<DatasetSectionView> = Vec::new();
    sections.push(build_dataset_section_view("Original Dataset", dataset));
    sections.push(build_dataset_section_view("Filtered Dataset", &filtered_dataset));

    let r = ReportPageView {
        title: title_text(title, "CNC-BP Report"),
        lead: String::from_str(
            "Formal Concept Analysis report for CNC-BP. Pertinent attributes are selected on the original dataset, then concepts are computed on the minority-class subset.",
        ),
        filter_rows,
        dataset_sections: sections,
        information_gain_rows: build_information_gain_rows(
            dataset,
            gains,
            &bp_result.cnc_result.pertinent_attrs,
        ),
        concept_count: bp_result.cnc_result.concepts.len(),
        concepts: build_concepts(&filtered_dataset, &bp_result.cnc_result),
    };
    let ghost m = cnc_bp_report_page(
        dataset@,
        bp_result.minority_classes.deep_view(),
        bp_result.original_size as nat,
        bp_result.filtered_size as nat,
        bp_result.cnc_result.pertinent_attrs.deep_view(),
        bp_result.cnc_result.concepts.deep_view(),
        gains.deep_view(),
        title_or(title, "CNC-BP Report"@),
    );
    assert(r.deep_view().filter_rows =~= m.filter_rows);
    assert(r.deep_view().dataset_sections =~= m.dataset_sections);
    assert(r.deep_view().concepts =~= m.concepts);
    r
}

/// Renders the HTML report of a CNC-BP run on `dataset`: the minority-class
/// filter, the original and the filtered dataset, the information gain of
/// each attribute of the original dataset (`gains`, in the order given), and
/// the concepts found in the filtered dataset; `title` defaults to
/// `CNC-BP Report`.
pub fn render_cnc_bp_report_html(
    dataset: &NominalDataset,
    bp_result: &CncBpResult,
    gains: &Vec<AttributeGain>,
    title: Option<&str>,
) -> (r: Result<String, RenderError>)
    requires
        dataset@.well_formed(),
        bp_result.minority_classes.deep_view().no_duplicates(),
        concepts_fit(
            bp_result.cnc_result.concepts.deep_view(),
            filtered(dataset@, bp_result.minority_classes.deep_view()).objects.len(),
        ),
    ensures
        r is Ok,
        r matches Ok(h) ==> h@ == report_html(
            cnc_bp_report_page(
                dataset@,
                bp_result.minority_classes.deep_view(),
                bp_result.original_size as nat,
                bp_result.filtered_size as nat,
                bp_result.cnc_result.pertinent_attrs.deep_view(),
                bp_result.cnc_result.concepts.deep_view(),
                gains.deep_view(),
                title_or(title, "CNC-BP Report"@),
            ),
        ),
{
    let page = build_cnc_bp_report_page(dataset, bp_result, gains, title);
    render_page(&page)
}

} // verus!
