//! The values that a report shows, section by section, and their models.

use vstd::prelude::*;

verus! {

/// A labelled value.
pub struct LabelValue {
    pub label: String,
    pub value: String,
}

/// A value with its count and its share in percent.
pub struct CountShareValue {
    pub name: String,
    pub count: usize,
    pub percentage: String,
}

/// The section that describes one dataset.
pub struct DatasetSectionView {
    pub heading: String,
    pub overview_rows: Vec<LabelValue>,
    pub context_headers: Vec<String>,
    pub context_rows: Vec<Vec<String>>,
    pub attribute_rows: Vec<LabelValue>,
    pub class_distribution: Vec<CountShareValue>,
}

/// One row of the information gain table.
pub struct InformationGainRowView {
    pub attribute: String,
    pub gain: String,
    pub chosen: bool,
    pub most_frequent_values: Vec<String>,
}

/// The section that describes one concept.
pub struct ConceptView {
    pub title: String,
    pub summary_rows: Vec<LabelValue>,
    pub extent_objects: Vec<String>,
    pub intent_rows: Vec<LabelValue>,
    pub class_distribution: Vec<CountShareValue>,
    pub majority_summary: String,
}

/// A whole report page.
pub struct ReportPageView {
    pub title: String,
    pub lead: String,
    pub filter_rows: Vec<LabelValue>,
    pub dataset_sections: Vec<DatasetSectionView>,
    pub information_gain_rows: Vec<InformationGainRowView>,
    pub concept_count: usize,
    pub concepts: Vec<ConceptView>,
}

/// A dataset section as mathematical values.
pub struct SectionModel {
    pub heading: Seq<char>,
    pub overview_rows: Seq<(Seq<char>, Seq<char>)>,
    pub context_headers: Seq<Seq<char>>,
    pub context_rows: Seq<Seq<Seq<char>>>,
    pub attribute_rows: Seq<(Seq<char>, Seq<char>)>,
    pub class_distribution: Seq<(Seq<char>, usize, Seq<char>)>,
}

/// A row of the information gain table as mathematical values.
pub struct GainRowModel {
    pub attribute: Seq<char>,
    pub gain: Seq<char>,
    pub chosen: bool,
    pub most_frequent_values: Seq<Seq<char>>,
}

/// A concept section as mathematical values.
pub struct ConceptViewModel {
    pub title: Seq<char>,
    pub summary_rows: Seq<(Seq<char>, Seq<char>)>,
    pub extent_objects: Seq<Seq<char>>,
    pub intent_rows: Seq<(Seq<char>, Seq<char>)>,
    pub class_distribution: Seq<(Seq<char>, usize, Seq<char>)>,
    pub majority_summary: Seq<char>,
}

/// A report page as mathematical values.
pub struct PageModel {
    pub title: Seq<char>,
    pub lead: Seq<char>,
    pub filter_rows: Seq<(Seq<char>, Seq<char>)>,
    pub dataset_sections: Seq<SectionModel>,
    pub information_gain_rows: Seq<GainRowModel>,
    pub concept_count: nat,
    pub concepts: Seq<ConceptViewModel>,
}

impl DeepView for LabelValue {
    type V = (Seq<char>, Seq<char>);

    open spec fn deep_view(&self) -> (Seq<char>, Seq<char>) {
        (self.label@, self.value@)
    }
}

impl DeepView for CountShareValue {
    type V = (Seq<char>, usize, Seq<char>);

    open spec fn deep_view(&self) -> (Seq<char>, usize, Seq<char>) {
        (self.name@, self.count, self.percentage@)
    }
}

impl DeepView for DatasetSectionView {
    type V = SectionModel;

    open spec fn deep_view(&self) -> SectionModel {
        SectionModel {
            heading: self.heading@,
            overview_rows: self.overview_rows.deep_view(),
            context_headers: self.context_headers.deep_view(),
            context_rows: self.context_rows.deep_view(),
            attribute_rows: self.attribute_rows.deep_view(),
            class_distribution: self.class_distribution.deep_view(),
        }
    }
}

impl DeepView for InformationGainRowView {
    type V = GainRowModel;

    open spec fn deep_view(&self) -> GainRowModel {
        GainRowModel {
            attribute: self.attribute@,
            gain: self.gain@,
            chosen: self.chosen,
            most_frequent_values: self.most_frequent_values.deep_view(),
        }
    }
}

impl DeepView for ConceptView {
    type V = ConceptViewModel;

    open spec fn deep_view(&self) -> ConceptViewModel {
        ConceptViewModel {
            title: self.title@,
            summary_rows: self.summary_rows.deep_view(),
            extent_objects: self.extent_objects.deep_view(),
            intent_rows: self.intent_rows.deep_view(),
            class_distribution: self.class_distribution.deep_view(),
            majority_summary: self.majority_summary@,
        }
    }
}

impl DeepView for ReportPageView {
    type V = PageModel;

    open spec fn deep_view(&self) -> PageModel {
        PageModel {
            title: self.title@,
            lead: self.lead@,
            filter_rows: self.filter_rows.deep_view(),
            dataset_sections: self.dataset_sections.deep_view(),
            information_gain_rows: self.information_gain_rows.deep_view(),
            concept_count: self.concept_count as nat,
            concepts: self.concepts.deep_view(),
        }
    }
}

} // verus!
