//! What the CNC and CNC-BP classifiers hand to the reports: the pertinent
//! attributes, the concepts they selected, the minority-class filter, and the
//! information gain of each attribute.

use vstd::prelude::*;

verus! {

/// A formal concept that CNC selected: the pertinent attribute and the value
/// chosen for it, the objects of the concept (indices into the dataset) and
/// its intent (attribute-value pairs).
pub struct CncConcept {
    pub pertinent_attribute: String,
    pub attribute_value: String,
    pub extent: Vec<usize>,
    pub intent: Vec<(String, String)>,
}

/// What CNC found: the pertinent attributes and the concepts.
pub struct CncResult {
    pub pertinent_attrs: Vec<String>,
    pub concepts: Vec<CncConcept>,
}

/// What CNC-BP found: the minority classes it kept, the sizes of the dataset
/// before and after the filter, and the CNC result on the filtered dataset.
pub struct CncBpResult {
    pub minority_classes: Vec<String>,
    pub original_size: usize,
    pub filtered_size: usize,
    pub cnc_result: CncResult,
}

/// The information gain of an attribute, in millionths of a bit.
pub struct AttributeGain {
    pub attribute: String,
    pub gain_micros: u64,
}

/// A concept as mathematical values.
pub struct ConceptModel {
    pub pertinent_attribute: Seq<char>,
    pub attribute_value: Seq<char>,
    pub extent: Seq<usize>,
    pub intent: Seq<(Seq<char>, Seq<char>)>,
}

impl DeepView for CncConcept {
    type V = ConceptModel;

    open spec fn deep_view(&self) -> ConceptModel {
        ConceptModel {
            pertinent_attribute: self.pertinent_attribute@,
            attribute_value: self.attribute_value@,
            extent: self.extent@,
            intent: self.intent.deep_view(),
        }
    }
}

impl DeepView for AttributeGain {
    type V = (Seq<char>, u64);

    open spec fn deep_view(&self) -> (Seq<char>, u64) {
        (self.attribute@, self.gain_micros)
    }
}

impl ConceptModel {
    /// The concept's objects lie in a dataset of `n` objects, and its intent
    /// names each attribute once.
    pub open spec fn fits(self, n: nat) -> bool {
        &&& forall|k: int| 0 <= k < self.extent.len() ==> self.extent[k] < n
        &&& forall|i: int, j: int|
            0 <= i < self.intent.len() && 0 <= j < self.intent.len() && i != j
                ==> self.intent[i].0 != self.intent[j].0
    }
}

/// Every concept of `concepts` fits a dataset of `n` objects.
pub open spec fn concepts_fit(concepts: Seq<ConceptModel>, n: nat) -> bool {
    forall|i: int| 0 <= i < concepts.len() ==> #[trigger] concepts[i].fits(n)
}

} // verus!
