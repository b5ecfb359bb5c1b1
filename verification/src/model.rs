//! What a registry holds, as mathematics and as data.
//!
//! The mathematical side is a sequence of [`FamilyView`]s: the contracts of
//! the whole crate are stated over it. The data side is [`MetricFamily`] and
//! [`Metric`], plain records that a snapshot hands out for reading.

use vstd::prelude::*;

verus! {

/// One counter of a family: the values of its labels, in the order of the
/// family's label keys, and how far it has counted.
pub struct MetricView {
    pub labels: Seq<Seq<char>>,
    pub value: u64,
}

/// One named metric with its help text, its label keys and the counters that
/// have come into being so far, in the order in which they did.
pub struct FamilyView {
    pub name: Seq<char>,
    pub help: Seq<char>,
    pub label_keys: Seq<Seq<char>>,
    pub metrics: Seq<MetricView>,
}

impl FamilyView {
    /// A counter for this tuple of label values exists.
    pub open spec fn has_labels(self, labels: Seq<Seq<char>>) -> bool {
        exists|j: int| 0 <= j < self.metrics.len() && (#[trigger] self.metrics[j]).labels == labels
    }

    /// Every counter has one value per label key, and no two counters have
    /// the same tuple of values.
    pub open spec fn well_formed(self) -> bool {
        &&& forall|j: int|
            0 <= j < self.metrics.len() ==> (#[trigger] self.metrics[j]).labels.len()
                == self.label_keys.len()
        &&& forall|j: int, k: int|
            #![trigger self.metrics[j], self.metrics[k]]
            0 <= j < k < self.metrics.len() ==> self.metrics[j].labels != self.metrics[k].labels
    }
}

/// A metric of this name is among the families.
pub open spec fn name_taken(families: Seq<FamilyView>, name: Seq<char>) -> bool {
    exists|i: int| 0 <= i < families.len() && (#[trigger] families[i]).name == name
}

/// Every family is well formed and no two families share a name.
pub open spec fn well_formed(families: Seq<FamilyView>) -> bool {
    &&& forall|i: int| 0 <= i < families.len() ==> (#[trigger] families[i]).well_formed()
    &&& forall|i: int, j: int|
        #![trigger families[i], families[j]]
        0 <= i < j < families.len() ==> families[i].name != families[j].name
}

/// What is reported for the counter of `name` with the label values
/// `labels`: its value, or nothing where no such counter exists.
pub open spec fn reported(families: Seq<FamilyView>, name: Seq<char>, labels: Seq<Seq<char>>)
    -> Option<u64> {
    if exists|i: int, j: int| is_at(families, name, labels, i, j) {
        let (i, j) = choose|i: int, j: int| is_at(families, name, labels, i, j);
        Some(families[i].metrics[j].value)
    } else {
        None
    }
}

/// The counter of `name` with the label values `labels` is the `j`-th of the
/// `i`-th family.
pub open spec fn is_at(
    families: Seq<FamilyView>,
    name: Seq<char>,
    labels: Seq<Seq<char>>,
    i: int,
    j: int,
) -> bool {
    &&& 0 <= i < families.len()
    &&& 0 <= j < families[i].metrics.len()
    &&& families[i].name == name
    &&& families[i].metrics[j].labels == labels
}

/// The texts of a sequence of strings.
pub open spec fn texts(strings: Seq<String>) -> Seq<Seq<char>> {
    Seq::new(strings.len(), |i: int| strings[i]@)
}

/// The texts of a sequence of string slices.
pub open spec fn slice_texts(strings: Seq<&str>) -> Seq<Seq<char>> {
    Seq::new(strings.len(), |i: int| strings[i]@)
}

/// One counter as a snapshot holds it.
pub struct Metric {
    pub labels: Vec<String>,
    pub value: u64,
}

/// One metric family as a snapshot holds it.
pub struct MetricFamily {
    pub name: String,
    pub help: String,
    pub label_keys: Vec<String>,
    pub metrics: Vec<Metric>,
}

impl View for Metric {
    type V = MetricView;

    open spec fn view(&self) -> MetricView {
        MetricView { labels: texts(self.labels@), value: self.value }
    }
}

/// The views of a sequence of counters.
pub open spec fn metric_views(metrics: Seq<Metric>) -> Seq<MetricView> {
    Seq::new(metrics.len(), |j: int| metrics[j]@)
}

impl View for MetricFamily {
    type V = FamilyView;

    open spec fn view(&self) -> FamilyView {
        FamilyView {
            name: self.name@,
            help: self.help@,
            label_keys: texts(self.label_keys@),
            metrics: metric_views(self.metrics@),
        }
    }
}

/// The views of a sequence of families.
pub open spec fn family_views(families: Seq<MetricFamily>) -> Seq<FamilyView> {
    Seq::new(families.len(), |i: int| families[i]@)
}

/// In well-formed families a counter is found at one place only, so what is
/// reported for it is the value at that place.
pub proof fn lemma_reported_at(
    families: Seq<FamilyView>,
    name: Seq<char>,
    labels: Seq<Seq<char>>,
    i: int,
    j: int,
)
    requires
        well_formed(families),
        is_at(families, name, labels, i, j),
    ensures
        reported(families, name, labels) == Some(families[i].metrics[j].value),
{
    let (i2, j2) = choose|i2: int, j2: int| is_at(families, name, labels, i2, j2);
    assert(is_at(families, name, labels, i2, j2));
    if i2 != i {
        if i2 < i {
            assert(families[i2].name != families[i].name);
        } else {
            assert(families[i].name != families[i2].name);
        }
    }
    assert(families[i].well_formed());
    if j2 != j {
        if j2 < j {
            assert(families[i].metrics[j2].labels != families[i].metrics[j].labels);
        } else {
            assert(families[i].metrics[j].labels != families[i].metrics[j2].labels);
        }
    }
}

} // verus!
