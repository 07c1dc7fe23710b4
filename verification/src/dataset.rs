//! Nominal datasets and the statistics that the reports show of them:
//! attribute values, class values, value distributions and the majority class.

use vstd::prelude::*;

use crate::sorting::{lemma_sorted_unique, sort_distinct, strict_total_order, strictly_sorted, Ranked};
use crate::text::{lemma_text_before_irreflexive, lemma_text_before_total, lemma_text_before_transitive, text_before, text_eq, text_less};

verus! {

/// A row as attribute-value entries; the first entry of an attribute gives its value.
pub type RowModel = Seq<(Seq<char>, Seq<char>)>;

/// The value that `row` holds for `key`, if it holds one.
pub open spec fn lookup(row: RowModel, key: Seq<char>) -> Option<Seq<char>>
    decreases row.len(),
{
    if row.len() == 0 {
        None
    } else if row[0].0 == key {
        Some(row[0].1)
    } else {
        lookup(row.drop_first(), key)
    }
}

/// The text shown for a value that a row does not hold.
pub open spec fn unknown_text() -> Seq<char> {
    seq!['?']
}

/// The value of `key` in `row`, or `?` when the row holds none.
pub open spec fn cell_text(row: RowModel, key: Seq<char>) -> Seq<char> {
    match lookup(row, key) {
        Some(v) => v,
        None => unknown_text(),
    }
}

/// `s` without the elements equal to `x`, in their order.
pub open spec fn remove_all(s: Seq<Seq<char>>, x: Seq<char>) -> Seq<Seq<char>>
    decreases s.len(),
{
    if s.len() == 0 {
        s
    } else {
        let r = remove_all(s.drop_last(), x);
        if s.last() == x {
            r
        } else {
            r.push(s.last())
        }
    }
}

/// How many elements of `s` equal `v`.
pub open spec fn count_of(s: Seq<Seq<char>>, v: Seq<char>) -> nat
    decreases s.len(),
{
    if s.len() == 0 {
        0
    } else {
        count_of(s.drop_last(), v) + if s.last() == v { 1nat } else { 0nat }
    }
}

/// The values that the rows hold for `attr`, in row order, skipping rows
/// that hold none.
pub open spec fn present_values(rows: Seq<RowModel>, attr: Seq<char>) -> Seq<Seq<char>>
    decreases rows.len(),
{
    if rows.len() == 0 {
        Seq::empty()
    } else {
        let r = present_values(rows.drop_last(), attr);
        match lookup(rows.last(), attr) {
            Some(v) => r.push(v),
            None => r,
        }
    }
}

/// A dataset of nominal attributes: named objects, the attribute names,
/// the class attribute, and one row of attribute values per object.
pub struct NominalDataset {
    pub objects: Vec<String>,
    pub attributes: Vec<String>,
    pub class_attribute: String,
    pub data: Vec<Vec<(String, String)>>,
}

/// What a dataset holds, as mathematical values.
pub struct DatasetModel {
    pub objects: Seq<Seq<char>>,
    pub attributes: Seq<Seq<char>>,
    pub class_attribute: Seq<char>,
    pub data: Seq<RowModel>,
}

impl View for NominalDataset {
    type V = DatasetModel;

    open spec fn view(&self) -> DatasetModel {
        DatasetModel {
            objects: self.objects.deep_view(),
            attributes: self.attributes.deep_view(),
            class_attribute: self.class_attribute@,
            data: self.data.deep_view(),
        }
    }
}

/// No attribute has two entries in `row`.
pub open spec fn distinct_keys(row: RowModel) -> bool {
    forall|a: int, b: int|
        #![trigger row[a], row[b]]
        0 <= a < b < row.len() ==> row[a].0 != row[b].0
}

impl DatasetModel {
    /// Each object has its row (exactly one: the statistics read every
    /// row, and filtering keeps each object with its row), and each row names
    /// each attribute at most once.
    pub open spec fn well_formed(self) -> bool {
        &&& self.data.len() == self.objects.len()
        &&& forall|i: int| 0 <= i < self.data.len() ==> distinct_keys(#[trigger] self.data[i])
    }

    /// The attributes other than the class attribute, in order.
    pub open spec fn descriptive_attributes(self) -> Seq<Seq<char>> {
        remove_all(self.attributes, self.class_attribute)
    }

    /// The class value of object `i`, or `?`.
    pub open spec fn class_of(self, i: int) -> Seq<char> {
        cell_text(self.data[i], self.class_attribute)
    }

    /// The class values of the objects of `extent`, in its order.
    pub open spec fn class_values(self, extent: Seq<usize>) -> Seq<Seq<char>> {
        extent.map_values(|i: usize| self.class_of(i as int))
    }

    /// The class values of all objects, in order.
    pub open spec fn all_class_values(self) -> Seq<Seq<char>> {
        Seq::new(self.objects.len(), |i: int| self.class_of(i))
    }

    /// The values that the rows hold for `attr`.
    pub open spec fn attribute_values(self, attr: Seq<char>) -> Seq<Seq<char>> {
        present_values(self.data, attr)
    }
}

impl NominalDataset {
    /// Makes a dataset of its parts.
    pub fn new(
        objects: Vec<String>,
        attributes: Vec<String>,
        class_attribute: String,
        data: Vec<Vec<(String, String)>>,
    ) -> (r: NominalDataset)
        ensures
            r.objects == objects,
            r.attributes == attributes,
            r.class_attribute == class_attribute,
            r.data == data,
    {
        NominalDataset { objects, attributes, class_attribute, data }
    }
}

/// The value that `row` holds for `key`, if any.
pub fn row_value<'a>(row: &'a Vec<(String, String)>, key: &str) -> (r: Option<&'a String>)
    ensures
        match r {
            Some(v) => lookup(row.deep_view(), key@) == Some(v@),
            None => lookup(row.deep_view(), key@) is None,
        },
{
    let ghost rv = row.deep_view();
    let mut i: usize = 0;
    assert(rv.skip(0) =~= rv);
    while i < row.len()
        invariant
            rv == row.deep_view(),
            i <= row.len(),
            lookup(rv, key@) == lookup(rv.skip(i as int), key@),
        decreases row.len() - i,
    {
        assert(rv[i as int] == (row[i as int].0@, row[i as int].1@));
        if text_eq(row[i].0.as_str(), key) {
            return Some(&row[i].1);
        }
        assert(rv.skip(i as int).drop_first() =~= rv.skip(i + 1));
        i = i + 1;
    }
    None
}

/// The value of `key` in `row`, or `?`.
pub fn cell(row: &Vec<(String, String)>, key: &str) -> (r: String)
    ensures
        r@ == cell_text(row.deep_view(), key@),
{
    match row_value(row, key) {
        Some(v) => v.clone(),
        None => {
            proof {
                reveal_strlit("?");
            }
            String::from_str("?")
        },
    }
}

/// The attributes of `attributes` other than `class_attribute`, in order.
pub fn descriptive_attributes(attributes: &Vec<String>, class_attribute: &String) -> (r: Vec<String>)
    ensures
        r.deep_view() == remove_all(attributes.deep_view(), class_attribute@),
{
    let ghost av = attributes.deep_view();
    let mut r: Vec<String> = Vec::new();
    let mut i: usize = 0;
    while i < attributes.len()
        invariant
            av == attributes.deep_view(),
            i <= attributes.len(),
            r.deep_view() == remove_all(av.take(i as int), class_attribute@),
        decreases attributes.len() - i,
    {
        assert(av.take(i + 1).drop_last() =~= av.take(i as int));
        if attributes[i] != *class_attribute {
            r.push(attributes[i].clone());
        }
        assert(r.deep_view() =~= remove_all(av.take(i + 1), class_attribute@));
        i = i + 1;
    }
    assert(av.take(attributes.len() as int) =~= av);
    r
}

/// The class values of the objects of `extent`, in its order (`?` for an
/// object whose row holds no class value).
pub fn class_values(dataset: &NominalDataset, extent: &Vec<usize>) -> (r: Vec<String>)
    requires
        forall|k: int| 0 <= k < extent.len() ==> extent[k] < dataset.data.len(),
    ensures
        r.deep_view() == dataset@.class_values(extent@),
{
    let mut r: Vec<String> = Vec::new();
    let mut k: usize = 0;
    while k < extent.len()
        invariant
            k <= extent.len(),
            forall|j: int| 0 <= j < extent.len() ==> extent[j] < dataset.data.len(),
            r.deep_view() =~= dataset@.class_values(extent@.take(k as int)),
        decreases extent.len() - k,
    {
        let c = cell(&dataset.data[extent[k]], dataset.class_attribute.as_str());
        assert(dataset@.data[extent[k as int] as int] == dataset.data[extent[k as int] as int].deep_view());
        assert(c@ == dataset@.class_of(extent[k as int] as int));
        let ghost before = r.deep_view();
        r.push(c);
        assert(r.deep_view() =~= before.push(c@));
        assert(r.deep_view() =~= dataset@.class_values(extent@.take(k + 1)));
        k = k + 1;
    }
    assert(extent@.take(extent.len() as int) =~= extent@);
    r
}


/// The order of a value distribution: higher counts first, equal counts by
/// value name.
pub open spec fn dist_lt() -> spec_fn((Seq<char>, usize), (Seq<char>, usize)) -> bool {
    |a: (Seq<char>, usize), b: (Seq<char>, usize)| a.1 > b.1 || (a.1 == b.1 && text_before(a.0, b.0))
}

/// `d` lists each value of `values` once with its number of occurrences,
/// highest count first and equal counts by value name.
pub open spec fn is_distribution_of(values: Seq<Seq<char>>, d: Seq<(Seq<char>, usize)>) -> bool {
    &&& strictly_sorted(d, dist_lt())
    &&& d.to_set() == Set::new(
        |p: (Seq<char>, usize)| values.contains(p.0) && p.1 == count_of(values, p.0),
    )
}

/// The distribution of `values` (there is exactly one, see
/// `lemma_distribution_unique`).
pub open spec fn distribution(values: Seq<Seq<char>>) -> Seq<(Seq<char>, usize)> {
    choose|d: Seq<(Seq<char>, usize)>| is_distribution_of(values, d)
}

/// A value of the distribution with the highest count (ties to the first
/// name), or none for no values.
pub open spec fn majority(values: Seq<Seq<char>>) -> Option<(Seq<char>, usize)> {
    if values.len() == 0 {
        None
    } else {
        Some(distribution(values)[0])
    }
}

impl Ranked for (String, usize) {
    open spec fn rank_lt() -> spec_fn((Seq<char>, usize), (Seq<char>, usize)) -> bool {
        dist_lt()
    }

    proof fn lemma_rank_order() {
        let lt = dist_lt();
        assert forall|x: (Seq<char>, usize)| !#[trigger] lt(x, x) by {
            lemma_text_before_irreflexive(x.0);
        }
        assert forall|x: (Seq<char>, usize), y: (Seq<char>, usize), z: (Seq<char>, usize)|
            #[trigger] lt(x, y) && #[trigger] lt(y, z) implies lt(x, z) by {
            if x.1 == y.1 && y.1 == z.1 {
                lemma_text_before_transitive(x.0, y.0, z.0);
            }
        }
        assert forall|x: (Seq<char>, usize), y: (Seq<char>, usize)| x != y implies #[trigger] lt(
            x,
            y,
        ) || lt(y, x) by {
            if x.1 == y.1 {
                lemma_text_before_total(x.0, y.0);
            }
        }
    }

    fn ranks_before(&self, other: &Self) -> (r: bool) {
        self.1 > other.1 || (self.1 == other.1 && text_less(self.0.as_str(), other.0.as_str()))
    }
}

/// A value occurs in a sequence at most as often as the sequence is long.
pub proof fn lemma_count_of_le(s: Seq<Seq<char>>, v: Seq<char>)
    ensures
        count_of(s, v) <= s.len(),
    decreases s.len(),
{
    if s.len() > 0 {
        lemma_count_of_le(s.drop_last(), v);
    }
}

proof fn lemma_count_of_positive(s: Seq<Seq<char>>, v: Seq<char>)
    ensures
        s.contains(v) <==> count_of(s, v) > 0,
    decreases s.len(),
{
    if s.len() > 0 {
        lemma_count_of_positive(s.drop_last(), v);
        if s.drop_last().contains(v) {
            let i = choose|i: int| 0 <= i < s.drop_last().len() && s.drop_last()[i] == v;
            assert(s[i] == v);
        }
        if s.contains(v) && s.last() != v {
            let i = choose|i: int| 0 <= i < s.len() && s[i] == v;
            assert(s.drop_last()[i] == v);
        }
    }
}

/// The sum of the counts of a distribution.
pub open spec fn count_total(d: Seq<(Seq<char>, usize)>) -> nat
    decreases d.len(),
{
    if d.len() == 0 {
        0
    } else {
        count_total(d.drop_last()) + d.last().1 as nat
    }
}

/// The sum, over `names`, of the occurrences of each name in `values`.
pub open spec fn sum_counts(names: Seq<Seq<char>>, values: Seq<Seq<char>>) -> nat
    decreases names.len(),
{
    if names.len() == 0 {
        0
    } else {
        sum_counts(names.drop_last(), values) + count_of(values, names.last())
    }
}

proof fn lemma_sum_counts_push(names: Seq<Seq<char>>, values: Seq<Seq<char>>, x: Seq<char>)
    requires
        names.no_duplicates(),
    ensures
        sum_counts(names, values.push(x)) == sum_counts(names, values) + if names.contains(x) {
            1nat
        } else {
            0nat
        },
    decreases names.len(),
{
    if names.len() > 0 {
        let p = names.drop_last();
        assert(p.no_duplicates());
        lemma_sum_counts_push(p, values, x);
        assert(values.push(x).drop_last() =~= values);
        if names.last() == x {
            if p.contains(x) {
                let j = choose|j: int| 0 <= j < p.len() && p[j] == x;
                assert(names[j] == names[names.len() - 1]);
            }
        } else {
            if names.contains(x) {
                let j = choose|j: int| 0 <= j < names.len() && names[j] == x;
                assert(p[j] == x);
            }
            if p.contains(x) {
                let j = choose|j: int| 0 <= j < p.len() && p[j] == x;
                assert(names[j] == x);
            }
        }
    }
}

proof fn lemma_sum_counts_all(names: Seq<Seq<char>>, values: Seq<Seq<char>>)
    requires
        names.no_duplicates(),
        forall|i: int| 0 <= i < values.len() ==> names.contains(#[trigger] values[i]),
    ensures
        sum_counts(names, values) == values.len(),
    decreases values.len(),
{
    if values.len() == 0 {
        lemma_sum_counts_zero(names, values);
    } else {
        let p = values.drop_last();
        assert forall|i: int| 0 <= i < p.len() implies names.contains(#[trigger] p[i]) by {
            assert(values[i] == p[i]);
        }
        lemma_sum_counts_all(names, p);
        assert(p.push(values.last()) =~= values);
        assert(names.contains(values[values.len() - 1]));
        lemma_sum_counts_push(names, p, values.last());
    }
}

proof fn lemma_sum_counts_zero(names: Seq<Seq<char>>, values: Seq<Seq<char>>)
    requires
        values.len() == 0,
    ensures
        sum_counts(names, values) == 0,
    decreases names.len(),
{
    if names.len() > 0 {
        lemma_sum_counts_zero(names.drop_last(), values);
    }
}

proof fn lemma_count_total_as_sum(d: Seq<(Seq<char>, usize)>, values: Seq<Seq<char>>)
    requires
        forall|i: int| 0 <= i < d.len() ==> #[trigger] d[i].1 == count_of(values, d[i].0),
    ensures
        count_total(d) == sum_counts(d.map_values(|p: (Seq<char>, usize)| p.0), values),
    decreases d.len(),
{
    if d.len() > 0 {
        let p = d.drop_last();
        assert forall|i: int| 0 <= i < p.len() implies #[trigger] p[i].1 == count_of(values, p[i].0) by {
            assert(d[i] == p[i]);
        }
        lemma_count_total_as_sum(p, values);
        let names = d.map_values(|q: (Seq<char>, usize)| q.0);
        assert(names.drop_last() =~= p.map_values(|q: (Seq<char>, usize)| q.0));
        assert(d[d.len() - 1].1 == count_of(values, d[d.len() - 1].0));
    }
}

/// The counts of a distribution add up to the number of values: every value
/// is counted once.
pub proof fn lemma_distribution_total(values: Seq<Seq<char>>, d: Seq<(Seq<char>, usize)>)
    requires
        is_distribution_of(values, d),
        values.len() <= usize::MAX,
    ensures
        count_total(d) == values.len(),
{
    <(String, usize) as Ranked>::lemma_rank_order();
    let names = d.map_values(|p: (Seq<char>, usize)| p.0);
    assert forall|i: int| 0 <= i < d.len() implies #[trigger] d[i].1 == count_of(values, d[i].0) by {
        assert(d.to_set().contains(d[i]));
    }
    assert forall|i: int, j: int| 0 <= i < names.len() && 0 <= j < names.len() && i != j implies names[i]
        != names[j] by {
        if i < j {
            assert((dist_lt())(d[i], d[j]));
        } else {
            assert((dist_lt())(d[j], d[i]));
        }
        if names[i] == names[j] {
            assert(d[i].1 == d[j].1);
            lemma_text_before_irreflexive(d[i].0);
        }
    }
    assert forall|i: int| 0 <= i < values.len() implies names.contains(#[trigger] values[i]) by {
        let v = values[i];
        assert(values.contains(v));
        lemma_count_of_le(values, v);
        let p = (v, count_of(values, v) as usize);
        assert(d.to_set().contains(p));
        let k = choose|k: int| 0 <= k < d.len() && d[k] == p;
        assert(names[k] == v);
    }
    lemma_count_total_as_sum(d, values);
    lemma_sum_counts_all(names, values);
}

/// There is exactly one distribution of a sequence of values.
pub proof fn lemma_distribution_unique(values: Seq<Seq<char>>, d: Seq<(Seq<char>, usize)>)
    requires
        is_distribution_of(values, d),
    ensures
        distribution(values) == d,
{
    let e = distribution(values);
    assert(is_distribution_of(values, e));
    <(String, usize) as Ranked>::lemma_rank_order();
    lemma_sorted_unique(e, d, dist_lt());
}

/// The values of `s`, each once, in order of first occurrence.
spec fn first_occurrences(s: Seq<Seq<char>>) -> Seq<Seq<char>>
    decreases s.len(),
{
    if s.len() == 0 {
        s
    } else {
        let r = first_occurrences(s.drop_last());
        if r.contains(s.last()) {
            r
        } else {
            r.push(s.last())
        }
    }
}

proof fn lemma_first_occurrences(s: Seq<Seq<char>>)
    ensures
        first_occurrences(s).no_duplicates(),
        forall|v: Seq<char>| #[trigger] first_occurrences(s).contains(v) <==> s.contains(v),
    decreases s.len(),
{
    if s.len() > 0 {
        let p = s.drop_last();
        let x = s.last();
        lemma_first_occurrences(p);
        let r = first_occurrences(p);
        assert(s =~= p.push(x));
        assert forall|v: Seq<char>| s.contains(v) <==> (p.contains(v) || v == x) by {
            if s.contains(v) {
                let i = choose|i: int| 0 <= i < s.len() && s[i] == v;
                if i < s.len() - 1 {
                    assert(p[i] == v);
                }
            }
            if p.contains(v) {
                let i = choose|i: int| 0 <= i < p.len() && p[i] == v;
                assert(s[i] == v);
            }
            if v == x {
                assert(s[s.len() - 1] == v);
            }
        }
        if !r.contains(x) {
            let q = r.push(x);
            assert forall|v: Seq<char>| q.contains(v) <==> (r.contains(v) || v == x) by {
                if q.contains(v) {
                    let i = choose|i: int| 0 <= i < q.len() && q[i] == v;
                    if i < r.len() {
                        assert(r[i] == v);
                    }
                }
                if r.contains(v) {
                    let i = choose|i: int| 0 <= i < r.len() && r[i] == v;
                    assert(q[i] == v);
                }
                if v == x {
                    assert(q[r.len() as int] == v);
                }
            }
            assert forall|i: int, j: int| 0 <= i < q.len() && 0 <= j < q.len() && i != j implies q[i]
                != q[j] by {
                if i < r.len() && j < r.len() {
                    assert(q[i] == r[i] && q[j] == r[j]);
                } else if i < r.len() {
                    assert(q[i] == r[i]);
                    assert(r.contains(r[i]));
                } else if j < r.len() {
                    assert(q[j] == r[j]);
                    assert(r.contains(r[j]));
                }
            }
        }
    }
}

/// Every sequence of values that `Vec` can hold has a distribution.
pub proof fn lemma_distribution_exists(values: Seq<Seq<char>>)
    requires
        values.len() <= usize::MAX,
    ensures
        is_distribution_of(values, distribution(values)),
{
    let u = first_occurrences(values);
    lemma_first_occurrences(values);
    let ps = u.map_values(|v: Seq<char>| (v, count_of(values, v) as usize));
    assert(ps.no_duplicates()) by {
        assert forall|i: int, j: int| 0 <= i < ps.len() && 0 <= j < ps.len() && i != j implies ps[i]
            != ps[j] by {
            assert(ps[i].0 == u[i] && ps[j].0 == u[j]);
        }
    }
    <(String, usize) as Ranked>::lemma_rank_order();
    let lt = dist_lt();
    let leq = |a: (Seq<char>, usize), b: (Seq<char>, usize)| a == b || lt(a, b);
    assert(vstd::relations::total_ordering(leq)) by {
        assert forall|x: (Seq<char>, usize), y: (Seq<char>, usize)| #[trigger] leq(x, y) && #[trigger] leq(
            y,
            x,
        ) implies x == y by {
            if x != y {
                assert(lt(x, y) && lt(y, x));
                assert(lt(x, x));
            }
        }
        assert forall|x: (Seq<char>, usize), y: (Seq<char>, usize), z: (Seq<char>, usize)| #[trigger] leq(
            x,
            y,
        ) && #[trigger] leq(y, z) implies leq(x, z) by {
            if x != y && y != z {
                assert(lt(x, y) && lt(y, z));
            }
        }
        assert forall|x: (Seq<char>, usize), y: (Seq<char>, usize)| #[trigger] leq(x, y) || #[trigger] leq(
            y,
            x,
        ) by {
            if x != y {
                assert(lt(x, y) || lt(y, x));
            }
        }
    }
    ps.lemma_sort_by_ensures(leq);
    let d = ps.sort_by(leq);
    ps.lemma_multiset_has_no_duplicates();
    assert(ps.to_multiset() =~= d.to_multiset());
    d.lemma_multiset_has_no_duplicates_conv();
    assert(strictly_sorted(d, lt)) by {
        assert forall|i: int, j: int| 0 <= i < j < d.len() implies #[trigger] lt(d[i], d[j]) by {
            assert(leq(d[i], d[j]));
        }
    }
    assert forall|p: (Seq<char>, usize)| d.to_set().contains(p) <==> (values.contains(p.0) && p.1
        == count_of(values, p.0)) by {
        assert(d.to_set().contains(p) <==> d.contains(p));
        assert(d.contains(p) <==> d.to_multiset().contains(p)) by {
            d.to_multiset_ensures();
        }
        assert(ps.contains(p) <==> ps.to_multiset().contains(p)) by {
            ps.to_multiset_ensures();
        }
        if ps.contains(p) {
            let i = choose|i: int| 0 <= i < ps.len() && ps[i] == p;
            assert(u.contains(u[i]));
            lemma_count_of_le(values, u[i]);
        }
        if values.contains(p.0) && p.1 == count_of(values, p.0) {
            assert(u.contains(p.0));
            let i = choose|i: int| 0 <= i < u.len() && u[i] == p.0;
            lemma_count_of_le(values, p.0);
            assert(ps[i] == p);
        }
    }
    assert(d.to_set() =~= Set::new(
        |p: (Seq<char>, usize)| values.contains(p.0) && p.1 == count_of(values, p.0),
    ));
    assert(is_distribution_of(values, d));
}

/// Counts the occurrences of each value, listing values in order of first
/// occurrence.
fn count_occurrences(values: &Vec<String>) -> (r: Vec<(String, usize)>)
    ensures
        r.deep_view().no_duplicates(),
        r.deep_view().to_set() == Set::new(
            |p: (Seq<char>, usize)|
                values.deep_view().contains(p.0) && p.1 == count_of(values.deep_view(), p.0),
        ),
{
    let ghost vv = values.deep_view();
    let mut acc: Vec<(String, usize)> = Vec::new();
    let mut i: usize = 0;
    while i < values.len()
        invariant
            vv == values.deep_view(),
            i <= values.len(),
            forall|j: int|
                0 <= j < acc.len() ==> (#[trigger] acc.deep_view()[j]).1 == count_of(
                    vv.take(i as int),
                    acc.deep_view()[j].0,
                ) && vv.take(i as int).contains(acc.deep_view()[j].0),
            forall|v: Seq<char>|
                #[trigger] vv.take(i as int).contains(v) ==> exists|j: int|
                    0 <= j < acc.len() && #[trigger] acc.deep_view()[j].0 == v,
            forall|j: int, k: int|
                0 <= j < acc.len() && 0 <= k < acc.len() && j != k ==> acc.deep_view()[j].0
                    != acc.deep_view()[k].0,
        decreases values.len() - i,
    {
        let ghost prefix = vv.take(i as int);
        let ghost next = vv.take(i + 1);
        assert(next.drop_last() =~= prefix);
        assert(next.last() == vv[i as int]);
        let ghost old_acc = acc.deep_view();
        let mut j: usize = 0;
        while j < acc.len()
            invariant
                acc.deep_view() == old_acc,
                j <= acc.len(),
                forall|k: int| 0 <= k < j ==> old_acc[k].0 != vv[i as int],
                vv == values.deep_view(),
                i < values.len(),
            ensures
                j <= acc.len(),
                j < acc.len() ==> old_acc[j as int].0 == vv[i as int],
                forall|k: int| 0 <= k < j ==> old_acc[k].0 != vv[i as int],
            decreases acc.len() - j,
        {
            if acc[j].0 == values[i] {
                break;
            }
            j = j + 1;
        }
        proof {
            lemma_count_of_le(prefix, vv[i as int]);
        }
        if j < acc.len() {
            let name = acc[j].0.clone();
            let c = acc[j].1;
            assert(old_acc[j as int] == (acc[j as int].0@, acc[j as int].1));
            assert(c == count_of(prefix, vv[i as int]));
            acc.set(j, (name, c + 1));
        } else {
            proof {
                if prefix.contains(vv[i as int]) {
                    let w = choose|w: int| 0 <= w < acc.len() && #[trigger] acc.deep_view()[w].0 == vv[i as int];
                    assert(false);
                }
                lemma_count_of_positive(prefix, vv[i as int]);
            }
            acc.push((values[i].clone(), 1));
        }
        let ghost new_acc = acc.deep_view();
        assert forall|k: int|
            0 <= k < acc.len() implies #[trigger] new_acc[k].1 == count_of(next, new_acc[k].0)
            && next.contains(new_acc[k].0) by {
            if k < old_acc.len() {
                assert(new_acc[k].0 == old_acc[k].0);
                let ok = old_acc[k];
                assert(prefix.contains(ok.0));
                let w = choose|w: int| 0 <= w < prefix.len() && prefix[w] == old_acc[k].0;
                assert(next[w] == old_acc[k].0);
            } else {
                assert(next[i as int] == vv[i as int]);
            }
        }
        assert forall|v: Seq<char>| next.contains(v) implies exists|k: int|
            0 <= k < acc.len() && #[trigger] acc.deep_view()[k].0 == v by {
            let w = choose|w: int| 0 <= w < next.len() && next[w] == v;
            if w < i {
                assert(prefix[w] == v);
                assert(prefix.contains(v));
                let k = choose|k: int| 0 <= k < old_acc.len() && #[trigger] old_acc[k].0 == v;
                assert(new_acc[k].0 == v);
            } else {
                if j < old_acc.len() {
                    assert(new_acc[j as int].0 == v);
                } else {
                    assert(new_acc[old_acc.len() as int].0 == v);
                }
            }
        }
        assert forall|a: int, b: int|
            0 <= a < acc.len() && 0 <= b < acc.len() && a != b implies new_acc[a].0 != new_acc[b].0 by {
            if a < old_acc.len() && b < old_acc.len() {
                assert(new_acc[a].0 == old_acc[a].0);
                assert(new_acc[b].0 == old_acc[b].0);
            } else if a < old_acc.len() {
                assert(new_acc[a].0 == old_acc[a].0);
            } else {
                assert(new_acc[b].0 == old_acc[b].0);
            }
        }
        i = i + 1;
    }
    assert(vv.take(values.len() as int) =~= vv);
    let ghost av = acc.deep_view();
    assert forall|a: int, b: int| 0 <= a < av.len() && 0 <= b < av.len() && a != b implies av[a]
        != av[b] by {
        assert(av[a].0 != av[b].0);
    }
    assert forall|p: (Seq<char>, usize)|
        av.to_set().contains(p) <==> (vv.contains(p.0) && p.1 == count_of(vv, p.0)) by {
        if av.to_set().contains(p) {
            let k = choose|k: int| 0 <= k < av.len() && av[k] == p;
            assert(av[k].1 == count_of(vv, av[k].0));
        }
        if vv.contains(p.0) && p.1 == count_of(vv, p.0) {
            let k = choose|k: int| 0 <= k < av.len() && #[trigger] av[k].0 == p.0;
            assert(av[k].1 == count_of(vv, av[k].0));
            assert(av[k] == p);
        }
    }
    assert(av.to_set() =~= Set::new(
        |p: (Seq<char>, usize)| vv.contains(p.0) && p.1 == count_of(vv, p.0),
    ));
    acc
}

/// The distribution of `values`: each value once with its number of
/// occurrences, highest count first, equal counts by value name.
pub fn summarize_class_values(values: &Vec<String>) -> (r: Vec<(String, usize)>)
    ensures
        r.deep_view() == distribution(values.deep_view()),
        is_distribution_of(values.deep_view(), r.deep_view()),
{
    let counted = count_occurrences(values);
    let r = sort_distinct(counted);
    proof {
        lemma_distribution_unique(values.deep_view(), r.deep_view());
    }
    r
}


/// The names of the entries of `d` whose count is `c`, in order.
pub open spec fn names_with_count(d: Seq<(Seq<char>, usize)>, c: usize) -> Seq<Seq<char>>
    decreases d.len(),
{
    if d.len() == 0 {
        Seq::empty()
    } else {
        let r = names_with_count(d.drop_last(), c);
        if d.last().1 == c {
            r.push(d.last().0)
        } else {
            r
        }
    }
}

/// The values that occur most often in `values`, by name.
pub open spec fn most_frequent(values: Seq<Seq<char>>) -> Seq<Seq<char>> {
    let d = distribution(values);
    if d.len() == 0 {
        Seq::empty()
    } else {
        names_with_count(d, d[0].1)
    }
}

/// The number of different values in `values`.
pub open spec fn distinct_count(values: Seq<Seq<char>>) -> nat {
    values.to_set().len()
}

proof fn lemma_distribution_nonempty(values: Seq<Seq<char>>, d: Seq<(Seq<char>, usize)>)
    requires
        is_distribution_of(values, d),
        values.len() > 0,
        values.len() <= usize::MAX,
    ensures
        d.len() > 0,
{
    let p = (values[0], count_of(values, values[0]) as usize);
    lemma_count_of_le(values, values[0]);
    assert(values.contains(values[0]));
    assert(d.to_set().contains(p));
}

proof fn lemma_distribution_len(values: Seq<Seq<char>>, d: Seq<(Seq<char>, usize)>)
    requires
        is_distribution_of(values, d),
        values.len() <= usize::MAX,
    ensures
        d.len() == distinct_count(values),
{
    <(String, usize) as Ranked>::lemma_rank_order();
    let names = d.map_values(|p: (Seq<char>, usize)| p.0);
    assert forall|i: int, j: int| 0 <= i < names.len() && 0 <= j < names.len() && i != j implies names[i]
        != names[j] by {
        assert(d.to_set().contains(d[i]));
        assert(d.to_set().contains(d[j]));
        if i < j {
            assert((dist_lt())(d[i], d[j]));
        } else {
            assert((dist_lt())(d[j], d[i]));
        }
        if names[i] == names[j] {
            assert(d[i].1 == d[j].1);
            lemma_text_before_irreflexive(d[i].0);
        }
    }
    names.unique_seq_to_set();
    assert forall|v: Seq<char>| names.to_set().contains(v) <==> values.to_set().contains(v) by {
        if names.to_set().contains(v) {
            let i = choose|i: int| 0 <= i < names.len() && names[i] == v;
            assert(d.to_set().contains(d[i]));
        }
        if values.to_set().contains(v) {
            lemma_count_of_le(values, v);
            let p = (v, count_of(values, v) as usize);
            assert(d.to_set().contains(p));
            let i = choose|i: int| 0 <= i < d.len() && d[i] == p;
            assert(names[i] == v);
        }
    }
    assert(names.to_set() =~= values.to_set());
}

/// The most frequent value of `values` with its count (ties go to the value
/// that comes first by name), or `None` when there are no values.
pub fn majority_class(values: &Vec<String>) -> (r: Option<(String, usize)>)
    ensures
        r.deep_view() == majority(values.deep_view()),
{
    if values.len() == 0 {
        return None;
    }
    let d = summarize_class_values(values);
    proof {
        lemma_distribution_nonempty(values.deep_view(), d.deep_view());
    }
    let first = (d[0].0.clone(), d[0].1);
    assert(first.deep_view() == d.deep_view()[0]);
    Some(first)
}

/// The values that the rows of `dataset` hold for `attr`, in row order.
pub fn attribute_values(dataset: &NominalDataset, attr: &str) -> (r: Vec<String>)
    ensures
        r.deep_view() == dataset@.attribute_values(attr@),
{
    let ghost rows = dataset@.data;
    let mut r: Vec<String> = Vec::new();
    let mut i: usize = 0;
    while i < dataset.data.len()
        invariant
            rows == dataset@.data,
            i <= dataset.data.len(),
            r.deep_view() == present_values(rows.take(i as int), attr@),
        decreases dataset.data.len() - i,
    {
        assert(rows.take(i + 1).drop_last() =~= rows.take(i as int));
        assert(rows[i as int] == dataset.data[i as int].deep_view());
        let ghost before = r.deep_view();
        match row_value(&dataset.data[i], attr) {
            Some(v) => {
                r.push(v.clone());
                assert(r.deep_view() =~= before.push(v@));
            },
            None => {},
        }
        i = i + 1;
    }
    assert(rows.take(dataset.data.len() as int) =~= rows);
    r
}

/// The values that the rows of `dataset` hold most often for `attr`, by name.
pub fn most_frequent_values(dataset: &NominalDataset, attr: &str) -> (r: Vec<String>)
    ensures
        r.deep_view() == most_frequent(dataset@.attribute_values(attr@)),
{
    let values = attribute_values(dataset, attr);
    let d = summarize_class_values(&values);
    let mut r: Vec<String> = Vec::new();
    if d.len() == 0 {
        assert(r.deep_view() =~= Seq::<Seq<char>>::empty());
        return r;
    }
    let top = d[0].1;
    let ghost dv = d.deep_view();
    let mut i: usize = 0;
    while i < d.len()
        invariant
            dv == d.deep_view(),
            dv.len() > 0,
            top == dv[0].1,
            i <= d.len(),
            r.deep_view() == names_with_count(dv.take(i as int), top),
        decreases d.len() - i,
    {
        assert(dv.take(i + 1).drop_last() =~= dv.take(i as int));
        let ghost before = r.deep_view();
        if d[i].1 == top {
            r.push(d[i].0.clone());
            assert(r.deep_view() =~= before.push(dv[i as int].0));
        }
        i = i + 1;
    }
    assert(dv.take(d.len() as int) =~= dv);
    r
}

/// The number of different values that the rows of `dataset` hold for `attr`.
pub fn unique_value_count(dataset: &NominalDataset, attr: &str) -> (r: usize)
    ensures
        r == distinct_count(dataset@.attribute_values(attr@)),
{
    let values = attribute_values(dataset, attr);
    let d = summarize_class_values(&values);
    let n = values.len();
    proof {
        assert(values.deep_view().len() == n);
        lemma_distribution_len(values.deep_view(), d.deep_view());
    }
    d.len()
}


/// The indices below `n` of the objects whose class value is one of `classes`.
pub open spec fn kept_indices(ds: DatasetModel, classes: Seq<Seq<char>>, n: nat) -> Seq<int>
    decreases n,
{
    if n == 0 {
        Seq::empty()
    } else {
        let r = kept_indices(ds, classes, (n - 1) as nat);
        if classes.contains(ds.class_of(n - 1)) {
            r.push(n - 1)
        } else {
            r
        }
    }
}

/// `ds` restricted to the objects whose class value is one of `classes`,
/// in their order; attributes and class attribute unchanged.
pub open spec fn filtered(ds: DatasetModel, classes: Seq<Seq<char>>) -> DatasetModel {
    let kept = kept_indices(ds, classes, ds.objects.len());
    DatasetModel {
        objects: kept.map_values(|i: int| ds.objects[i]),
        attributes: ds.attributes,
        class_attribute: ds.class_attribute,
        data: kept.map_values(|i: int| ds.data[i]),
    }
}

proof fn lemma_kept_indices_bounded(ds: DatasetModel, classes: Seq<Seq<char>>, n: nat)
    ensures
        kept_indices(ds, classes, n).len() <= n,
        forall|k: int|
            0 <= k < kept_indices(ds, classes, n).len() ==> 0 <= #[trigger] kept_indices(
                ds,
                classes,
                n,
            )[k] < n,
    decreases n,
{
    if n > 0 {
        lemma_kept_indices_bounded(ds, classes, (n - 1) as nat);
    }
}

proof fn lemma_kept_indices_props(ds: DatasetModel, classes: Seq<Seq<char>>, n: nat)
    ensures
        forall|k: int|
            0 <= k < kept_indices(ds, classes, n).len() ==> 0 <= #[trigger] kept_indices(
                ds,
                classes,
                n,
            )[k] < n && classes.contains(ds.class_of(kept_indices(ds, classes, n)[k])),
        forall|j: int|
            0 <= j < n && #[trigger] classes.contains(ds.class_of(j)) ==> kept_indices(
                ds,
                classes,
                n,
            ).contains(j),
    decreases n,
{
    if n > 0 {
        lemma_kept_indices_props(ds, classes, (n - 1) as nat);
        let p = kept_indices(ds, classes, (n - 1) as nat);
        let q = kept_indices(ds, classes, n);
        assert forall|k: int| 0 <= k < q.len() implies 0 <= #[trigger] q[k] < n && classes.contains(
            ds.class_of(q[k]),
        ) by {
            if k < p.len() {
                assert(q[k] == p[k]);
            }
        }
        assert forall|j: int| 0 <= j < n && #[trigger] classes.contains(ds.class_of(j)) implies q.contains(
            j,
        ) by {
            if j < n - 1 {
                let w = choose|w: int| 0 <= w < p.len() && p[w] == j;
                assert(q[w] == j);
            } else {
                assert(q[q.len() - 1] == j);
            }
        }
    }
}

proof fn lemma_kept_indices_same_classes(ds: DatasetModel, c1: Seq<Seq<char>>, c2: Seq<Seq<char>>, n: nat)
    requires
        c1.to_set() == c2.to_set(),
    ensures
        kept_indices(ds, c1, n) == kept_indices(ds, c2, n),
    decreases n,
{
    if n > 0 {
        lemma_kept_indices_same_classes(ds, c1, c2, (n - 1) as nat);
        let x = ds.class_of(n - 1);
        assert(c1.contains(x) == c1.to_set().contains(x));
        assert(c2.contains(x) == c2.to_set().contains(x));
    }
}

/// Filtering depends only on which classes are kept, not on their order
/// or on repeats among them.
pub proof fn lemma_filtered_same_classes(ds: DatasetModel, c1: Seq<Seq<char>>, c2: Seq<Seq<char>>)
    requires
        c1.to_set() == c2.to_set(),
    ensures
        filtered(ds, c1) == filtered(ds, c2),
{
    lemma_kept_indices_same_classes(ds, c1, c2, ds.objects.len());
}

/// The filtered dataset is well formed, keeps the attributes, and holds
/// exactly the objects (with their rows) whose class value is one of the
/// given classes.
pub proof fn lemma_filtered_classes(ds: DatasetModel, classes: Seq<Seq<char>>)
    requires
        ds.well_formed(),
    ensures
        filtered(ds, classes).well_formed(),
        filtered(ds, classes).attributes == ds.attributes,
        filtered(ds, classes).class_attribute == ds.class_attribute,
        filtered(ds, classes).objects.len() <= ds.objects.len(),
        forall|i: int|
            0 <= i < filtered(ds, classes).objects.len() ==> classes.contains(
                #[trigger] filtered(ds, classes).class_of(i),
            ),
        forall|j: int|
            0 <= j < ds.objects.len() && #[trigger] classes.contains(ds.class_of(j)) ==> exists|i: int|
                0 <= i < filtered(ds, classes).objects.len() && filtered(ds, classes).objects[i]
                    == ds.objects[j] && filtered(ds, classes).data[i] == ds.data[j],
{
    let n = ds.objects.len();
    let kept = kept_indices(ds, classes, n);
    let f = filtered(ds, classes);
    lemma_kept_indices_props(ds, classes, n);
    lemma_kept_indices_bounded(ds, classes, n);
    assert forall|i: int| 0 <= i < f.objects.len() implies classes.contains(
        #[trigger] f.class_of(i),
    ) by {
        assert(f.data[i] == ds.data[kept[i]]);
        assert(f.class_of(i) == ds.class_of(kept[i]));
    }
    assert forall|i: int| 0 <= i < f.data.len() implies distinct_keys(#[trigger] f.data[i]) by {
        assert(f.data[i] == ds.data[kept[i]]);
    }
    assert forall|j: int| 0 <= j < n && #[trigger] classes.contains(ds.class_of(j)) implies exists|i: int|
        0 <= i < f.objects.len() && f.objects[i] == ds.objects[j] && f.data[i] == ds.data[j] by {
        let i = choose|i: int| 0 <= i < kept.len() && kept[i] == j;
        assert(f.objects[i] == ds.objects[j]);
        assert(f.data[i] == ds.data[j]);
    }
}

/// Tells whether `x` is one of `list`.
pub fn text_in(list: &Vec<String>, x: &str) -> (r: bool)
    ensures
        r == list.deep_view().contains(x@),
{
    let ghost lv = list.deep_view();
    let mut i: usize = 0;
    while i < list.len()
        invariant
            lv == list.deep_view(),
            i <= list.len(),
            forall|k: int| 0 <= k < i ==> lv[k] != x@,
        decreases list.len() - i,
    {
        if text_eq(list[i].as_str(), x) {
            assert(lv[i as int] == x@);
            return true;
        }
        i = i + 1;
    }
    false
}

/// A copy of a row.
pub fn copy_row(row: &Vec<(String, String)>) -> (r: Vec<(String, String)>)
    ensures
        r.deep_view() == row.deep_view(),
{
    let mut r: Vec<(String, String)> = Vec::new();
    let mut i: usize = 0;
    while i < row.len()
        invariant
            i <= row.len(),
            r.deep_view() =~= row.deep_view().take(i as int),
        decreases row.len() - i,
    {
        let ghost before = r.deep_view();
        r.push((row[i].0.clone(), row[i].1.clone()));
        assert(r.deep_view() =~= before.push(row.deep_view()[i as int]));
        i = i + 1;
    }
    assert(row.deep_view().take(row.len() as int) =~= row.deep_view());
    r
}

/// A copy of a list of strings.
pub fn copy_texts(list: &Vec<String>) -> (r: Vec<String>)
    ensures
        r.deep_view() == list.deep_view(),
{
    let mut r: Vec<String> = Vec::new();
    let mut i: usize = 0;
    while i < list.len()
        invariant
            i <= list.len(),
            r.deep_view() =~= list.deep_view().take(i as int),
        decreases list.len() - i,
    {
        let ghost before = r.deep_view();
        r.push(list[i].clone());
        assert(r.deep_view() =~= before.push(list.deep_view()[i as int]));
        i = i + 1;
    }
    assert(list.deep_view().take(list.len() as int) =~= list.deep_view());
    r
}

/// The objects of `dataset` whose class value is one of `classes`, with their
/// rows, in their order.
pub fn filter_dataset_by_classes(dataset: &NominalDataset, classes: &Vec<String>) -> (r:
    NominalDataset)
    requires
        dataset@.well_formed(),
    ensures
        r@ == filtered(dataset@, classes.deep_view()),
        r@.well_formed(),
{
    let ghost ds = dataset@;
    let ghost cv = classes.deep_view();
    let mut objects: Vec<String> = Vec::new();
    let mut data: Vec<Vec<(String, String)>> = Vec::new();
    let mut i: usize = 0;
    while i < dataset.objects.len()
        invariant
            ds == dataset@,
            cv == classes.deep_view(),
            ds.well_formed(),
            i <= dataset.objects.len(),
            objects.deep_view() =~= kept_indices(ds, cv, i as nat).map_values(|k: int| ds.objects[k]),
            data.deep_view() =~= kept_indices(ds, cv, i as nat).map_values(|k: int| ds.data[k]),
        decreases dataset.objects.len() - i,
    {
        let class = cell(&dataset.data[i], dataset.class_attribute.as_str());
        assert(ds.data[i as int] == dataset.data[i as int].deep_view());
        assert(class@ == ds.class_of(i as int));
        if text_in(classes, class.as_str()) {
            let ghost ob = objects.deep_view();
            let ghost db = data.deep_view();
            objects.push(dataset.objects[i].clone());
            data.push(copy_row(&dataset.data[i]));
            assert(objects.deep_view() =~= ob.push(ds.objects[i as int]));
            assert(data.deep_view() =~= db.push(ds.data[i as int]));
        }
        i = i + 1;
    }
    let r = NominalDataset {
        objects,
        attributes: copy_texts(&dataset.attributes),
        class_attribute: dataset.class_attribute.clone(),
        data,
    };
    assert(r@.objects =~= filtered(ds, cv).objects);
    assert(r@.data =~= filtered(ds, cv).data);
    proof {
        lemma_filtered_classes(ds, cv);
    }
    r
}

/// The class values of all objects of `dataset`, in order.
pub fn all_class_values(dataset: &NominalDataset) -> (r: Vec<String>)
    requires
        dataset@.well_formed(),
    ensures
        r.deep_view() == dataset@.all_class_values(),
{
    let ghost ds = dataset@;
    let mut r: Vec<String> = Vec::new();
    let mut i: usize = 0;
    while i < dataset.objects.len()
        invariant
            ds == dataset@,
            ds.well_formed(),
            i <= dataset.objects.len(),
            r.deep_view() =~= Seq::new(i as nat, |k: int| ds.class_of(k)),
        decreases dataset.objects.len() - i,
    {
        let c = cell(&dataset.data[i], dataset.class_attribute.as_str());
        assert(ds.data[i as int] == dataset.data[i as int].deep_view());
        let ghost before = r.deep_view();
        r.push(c);
        assert(r.deep_view() =~= before.push(ds.class_of(i as int)));
        i = i + 1;
    }
    r
}

/// What a dataset summary states: the number of objects and of descriptive
/// attributes, the class attribute, the number of different values of each
/// descriptive attribute, and the distribution of the class values.
pub struct DatasetSummary {
    pub objects: usize,
    pub descriptive_attributes: usize,
    pub class_attribute: String,
    pub attribute_unique_values: Vec<(String, usize)>,
    pub class_distribution: Vec<(String, usize)>,
}

/// Summarizes `dataset`.
pub fn summarize_dataset(dataset: &NominalDataset) -> (r: DatasetSummary)
    requires
        dataset@.well_formed(),
    ensures
        r.objects == dataset@.objects.len(),
        r.descriptive_attributes == dataset@.descriptive_attributes().len(),
        r.class_attribute@ == dataset@.class_attribute,
        r.attribute_unique_values.len() == dataset@.descriptive_attributes().len(),
        forall|k: int|
            0 <= k < r.attribute_unique_values.len() ==> #[trigger] r.attribute_unique_values.deep_view()[k].0
                == dataset@.descriptive_attributes()[k]
                && r.attribute_unique_values.deep_view()[k].1 == distinct_count(
                dataset@.attribute_values(dataset@.descriptive_attributes()[k]),
            ),
        r.class_distribution.deep_view() == distribution(dataset@.all_class_values()),
{
    let ghost ds = dataset@;
    let descriptive = descriptive_attributes(&dataset.attributes, &dataset.class_attribute);
    let ghost dv = descriptive.deep_view();
    let mut unique: Vec<(String, usize)> = Vec::new();
    let mut i: usize = 0;
    while i < descriptive.len()
        invariant
            ds == dataset@,
            dv == descriptive.deep_view(),
            dv == ds.descriptive_attributes(),
            i <= descriptive.len(),
            unique.len() == i,
            forall|k: int|
                0 <= k < i ==> #[trigger] unique.deep_view()[k].0 == dv[k]
                    && unique.deep_view()[k].1 == distinct_count(ds.attribute_values(dv[k])),
        decreases descriptive.len() - i,
    {
        let n = unique_value_count(dataset, descriptive[i].as_str());
        let ghost before = unique.deep_view();
        unique.push((descriptive[i].clone(), n));
        assert(unique.deep_view() =~= before.push((dv[i as int], n)));
        i = i + 1;
    }
    let classes = all_class_values(dataset);
    DatasetSummary {
        objects: dataset.objects.len(),
        descriptive_attributes: descriptive.len(),
        class_attribute: dataset.class_attribute.clone(),
        attribute_unique_values: unique,
        class_distribution: summarize_class_values(&classes),
    }
}

} // verus!
