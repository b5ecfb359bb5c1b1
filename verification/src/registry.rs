//! The registry: named counters, plain and labeled, that only ever count up.
//!
//! A registry is built once and handed to whoever counts and to whoever
//! serves the scrapes. Families appear in the order in which they were
//! registered, the counters of a family in the order in which their label
//! tuples were first used. Nothing is ever removed.

use crate::model::{
    family_views, is_at, lemma_reported_at, metric_views, name_taken, reported, slice_texts, texts,
    well_formed, FamilyView, Metric, MetricFamily, MetricView,
};
use vstd::prelude::*;

verus! {

/// Names a registered family of labeled counters.
#[derive(Clone, Copy, Debug, PartialEq, Eq, Structural)]
pub struct FamilyHandle {
    pub family: usize,
}

/// Names one counter: a family and the place of the counter in it.
#[derive(Clone, Copy, Debug, PartialEq, Eq, Structural)]
pub struct CounterHandle {
    pub family: usize,
    pub metric: usize,
}

/// Why a registry turned a request down. Each is a mistake of the program
/// that holds the registry, which is expected to stop on it.
#[derive(Clone, Copy, Debug, PartialEq, Eq, Structural)]
pub enum RegistryError {
    /// A metric of that name is registered already.
    AlreadyRegistered,
    /// The number of label values differs from the number of label keys.
    ArityMismatch,
    /// The handle names no family of this registry.
    UnknownFamily,
    /// The handle names no counter of this registry.
    UnknownCounter,
}

/// The families with a new plain counter at the end: no label keys, and one
/// counter that stands at zero.
pub open spec fn with_counter(families: Seq<FamilyView>, name: Seq<char>, help: Seq<char>) -> Seq<
    FamilyView,
> {
    families.push(
        FamilyView {
            name,
            help,
            label_keys: Seq::empty(),
            metrics: seq![MetricView { labels: Seq::empty(), value: 0 }],
        },
    )
}

/// The families with a new labeled family at the end, which has no counter yet.
pub open spec fn with_family(
    families: Seq<FamilyView>,
    name: Seq<char>,
    help: Seq<char>,
    label_keys: Seq<Seq<char>>,
) -> Seq<FamilyView> {
    families.push(FamilyView { name, help, label_keys, metrics: Seq::empty() })
}

/// The families with a new counter for `labels`, at zero, at the end of family `f`.
pub open spec fn materialized(families: Seq<FamilyView>, f: int, labels: Seq<Seq<char>>) -> Seq<
    FamilyView,
>
    recommends
        0 <= f < families.len(),
{
    families.update(
        f,
        FamilyView {
            metrics: families[f].metrics.push(MetricView { labels, value: 0 }),
            ..families[f]
        },
    )
}

/// The sum of the two, or the largest value of a counter where the sum is beyond it.
pub open spec fn saturating_sum(value: u64, amount: u64) -> u64 {
    if value + amount > u64::MAX {
        u64::MAX
    } else {
        (value + amount) as u64
    }
}

/// The handle names a counter among the families.
pub open spec fn has_counter(families: Seq<FamilyView>, counter: CounterHandle) -> bool {
    &&& counter.family < families.len()
    &&& counter.metric < families[counter.family as int].metrics.len()
}

/// How far the counter has counted.
pub open spec fn value_at(families: Seq<FamilyView>, counter: CounterHandle) -> u64
    recommends
        has_counter(families, counter),
{
    families[counter.family as int].metrics[counter.metric as int].value
}

/// The families with the value of `counter` set to `value`, and everything
/// else as it was.
pub open spec fn with_value(families: Seq<FamilyView>, counter: CounterHandle, value: u64) -> Seq<
    FamilyView,
>
    recommends
        has_counter(families, counter),
{
    let family = families[counter.family as int];
    let metric = family.metrics[counter.metric as int];
    families.update(
        counter.family as int,
        FamilyView {
            metrics: family.metrics.update(counter.metric as int, MetricView { value, ..metric }),
            ..family
        },
    )
}

/// The families after `counter` has counted `amount` more: that one value
/// has grown, everything else is as it was.
pub open spec fn incremented(families: Seq<FamilyView>, counter: CounterHandle, amount: u64) -> Seq<
    FamilyView,
>
    recommends
        has_counter(families, counter),
{
    with_value(families, counter, saturating_sum(value_at(families, counter), amount))
}

/// The handle names a counter before and after, of the same family name
/// and the same label values, and the counter has not gone down.
pub open spec fn same_counter(
    before: Seq<FamilyView>,
    after: Seq<FamilyView>,
    counter: CounterHandle,
) -> bool {
    &&& has_counter(before, counter)
    &&& has_counter(after, counter)
    &&& after[counter.family as int].name == before[counter.family as int].name
    &&& after[counter.family as int].label_keys == before[counter.family as int].label_keys
    &&& after[counter.family as int].metrics[counter.metric as int].labels
        == before[counter.family as int].metrics[counter.metric as int].labels
    &&& value_at(after, counter) >= value_at(before, counter)
}

/// The families after `counter` has counted each of `amounts` in turn.
pub open spec fn counted(families: Seq<FamilyView>, counter: CounterHandle, amounts: Seq<u64>) -> Seq<
    FamilyView,
>
    recommends
        has_counter(families, counter),
    decreases amounts.len(),
{
    if amounts.len() == 0 {
        families
    } else {
        incremented(counted(families, counter, amounts.drop_last()), counter, amounts.last())
    }
}

/// The sum of the amounts.
pub open spec fn total(amounts: Seq<u64>) -> nat
    decreases amounts.len(),
{
    if amounts.len() == 0 {
        0
    } else {
        total(amounts.drop_last()) + amounts.last() as nat
    }
}

/// `n`, or the largest value of a counter where `n` is beyond it.
pub open spec fn capped(n: int) -> u64 {
    if n > u64::MAX {
        u64::MAX
    } else {
        n as u64
    }
}

/// Why `with_labels` turns a request down, if it does.
pub open spec fn with_labels_error(
    families: Seq<FamilyView>,
    family: FamilyHandle,
    labels: Seq<Seq<char>>,
) -> Option<RegistryError> {
    if family.family >= families.len() {
        Some(RegistryError::UnknownFamily)
    } else if labels.len() != families[family.family as int].label_keys.len() {
        Some(RegistryError::ArityMismatch)
    } else {
        None
    }
}

/// A point-in-time copy of what a registry held, for reading only.
pub struct Snapshot {
    families: Vec<MetricFamily>,
}

impl View for Snapshot {
    type V = Seq<FamilyView>;

    closed spec fn view(&self) -> Seq<FamilyView> {
        family_views(self.families@)
    }
}

impl Snapshot {
    #[verifier::type_invariant]
    spec fn inv(self) -> bool {
        well_formed(family_views(self.families@))
    }

    /// The families of the snapshot, for reading.
    pub fn families(&self) -> (families: &Vec<MetricFamily>)
        ensures
            family_views(families@) == self@,
            well_formed(self@),
    {
        proof {
            use_type_invariant(self);
        }
        &self.families
    }

    /// What the snapshot reports for the counter of `name` with the label
    /// values `labels`: its value, or nothing where there is no such counter.
    pub fn value_of(&self, name: &str, labels: &[&str]) -> (value: Option<u64>)
        ensures
            value == reported(self@, name@, slice_texts(labels@)),
    {
        proof {
            use_type_invariant(self);
        }
        let name = name.to_owned();
        let labels = owned_texts(labels);
        let ghost views = family_views(self.families@);
        match find_name(&self.families, &name) {
            Some(i) => match find_labels(&self.families[i].metrics, &labels) {
                Some(j) => {
                    proof {
                        assert(is_at(views, name@, texts(labels@), i as int, j as int));
                        lemma_reported_at(views, name@, texts(labels@), i as int, j as int);
                    }
                    Some(self.families[i].metrics[j].value)
                },
                None => {
                    proof {
                        if exists|a: int, b: int| is_at(views, name@, texts(labels@), a, b) {
                            let (a, b) = choose|a: int, b: int|
                                is_at(views, name@, texts(labels@), a, b);
                            if a < i {
                                assert(views[a].name != views[i as int].name);
                            } else if i < a {
                                assert(views[i as int].name != views[a].name);
                            }
                            assert(metric_views(self.families@[i as int].metrics@)[b].labels
                                == texts(labels@));
                        }
                    }
                    None
                },
            },
            None => {
                proof {
                    if exists|a: int, b: int| is_at(views, name@, texts(labels@), a, b) {
                        let (a, b) = choose|a: int, b: int|
                            is_at(views, name@, texts(labels@), a, b);
                        assert(views[a].name == name@);
                    }
                }
                None
            },
        }
    }
}

/// The counters of one process.
pub struct Registry {
    families: Vec<MetricFamily>,
}

impl View for Registry {
    type V = Seq<FamilyView>;

    closed spec fn view(&self) -> Seq<FamilyView> {
        family_views(self.families@)
    }
}

fn same_texts(left: &Vec<String>, right: &Vec<String>) -> (same: bool)
    ensures
        same == (texts(left@) == texts(right@)),
{
    if left.len() != right.len() {
        assert(texts(left@).len() != texts(right@).len());
        return false;
    }
    let mut i: usize = 0;
    while i < left.len()
        invariant
            i <= left.len(),
            left.len() == right.len(),
            forall|k: int| 0 <= k < i ==> left@[k]@ == right@[k]@,
        decreases left.len() - i,
    {
        if left[i] != right[i] {
            assert(texts(left@)[i as int] != texts(right@)[i as int]);
            return false;
        }
        i += 1;
    }
    assert(texts(left@) =~= texts(right@));
    true
}

fn owned_texts(items: &[&str]) -> (owned: Vec<String>)
    ensures
        texts(owned@) == slice_texts(items@),
{
    let mut owned: Vec<String> = Vec::new();
    let mut i: usize = 0;
    while i < items.len()
        invariant
            i <= items.len(),
            owned.len() == i,
            forall|k: int| 0 <= k < i ==> owned@[k]@ == items@[k]@,
        decreases items.len() - i,
    {
        owned.push(items[i].to_owned());
        i += 1;
    }
    assert(texts(owned@) =~= slice_texts(items@));
    owned
}

fn copy_texts(items: &Vec<String>) -> (copy: Vec<String>)
    ensures
        texts(copy@) == texts(items@),
{
    let mut copy: Vec<String> = Vec::new();
    let mut i: usize = 0;
    while i < items.len()
        invariant
            i <= items.len(),
            copy.len() == i,
            forall|k: int| 0 <= k < i ==> copy@[k]@ == items@[k]@,
        decreases items.len() - i,
    {
        copy.push(items[i].clone());
        i += 1;
    }
    assert(texts(copy@) =~= texts(items@));
    copy
}

fn copy_family(family: &MetricFamily) -> (copy: MetricFamily)
    ensures
        copy@ == family@,
{
    let mut metrics: Vec<Metric> = Vec::new();
    let mut j: usize = 0;
    while j < family.metrics.len()
        invariant
            j <= family.metrics.len(),
            metrics.len() == j,
            forall|k: int| 0 <= k < j ==> metrics@[k]@ == family.metrics@[k]@,
        decreases family.metrics.len() - j,
    {
        let metric = &family.metrics[j];
        metrics.push(Metric { labels: copy_texts(&metric.labels), value: metric.value });
        j += 1;
    }
    assert(metric_views(metrics@) =~= metric_views(family.metrics@));
    MetricFamily {
        name: family.name.clone(),
        help: family.help.clone(),
        label_keys: copy_texts(&family.label_keys),
        metrics,
    }
}

fn find_name(families: &Vec<MetricFamily>, name: &String) -> (found: Option<usize>)
    ensures
        found matches Some(i) ==> i < families.len() && families@[i as int]@.name == name@,
        found is Some <==> name_taken(family_views(families@), name@),
{
    let mut i: usize = 0;
    while i < families.len()
        invariant
            i <= families.len(),
            forall|k: int| 0 <= k < i ==> (#[trigger] family_views(families@)[k]).name != name@,
        decreases families.len() - i,
    {
        if families[i].name == *name {
            assert(family_views(families@)[i as int].name == name@);
            return Some(i);
        }
        i += 1;
    }
    None
}

fn find_labels(metrics: &Vec<Metric>, labels: &Vec<String>) -> (found: Option<usize>)
    ensures
        found matches Some(j) ==> j < metrics.len() && metrics@[j as int]@.labels == texts(
            labels@,
        ),
        found is None ==> forall|k: int|
            0 <= k < metrics.len() ==> (#[trigger] metric_views(metrics@)[k]).labels != texts(
                labels@,
            ),
{
    let mut j: usize = 0;
    while j < metrics.len()
        invariant
            j <= metrics.len(),
            forall|k: int|
                0 <= k < j ==> (#[trigger] metric_views(metrics@)[k]).labels != texts(labels@),
        decreases metrics.len() - j,
    {
        if same_texts(&metrics[j].labels, labels) {
            return Some(j);
        }
        j += 1;
    }
    None
}

impl Registry {
    #[verifier::type_invariant]
    spec fn inv(self) -> bool {
        well_formed(family_views(self.families@))
    }

    /// A registry with nothing registered.
    pub fn new() -> (registry: Registry)
        ensures
            registry@ == Seq::<FamilyView>::empty(),
            well_formed(registry@),
    {
        let registry = Registry { families: Vec::new() };
        assert(registry@ =~= Seq::<FamilyView>::empty());
        registry
    }

    /// Registers a plain counter, which starts at zero.
    ///
    /// A name that is taken is turned down and nothing changes.
    pub fn register_counter(&mut self, name: &str, help: &str) -> (res: Result<
        CounterHandle,
        RegistryError,
    >)
        ensures
            well_formed(final(self)@),
            name_taken(old(self)@, name@) ==> res == Err::<CounterHandle, RegistryError>(
                RegistryError::AlreadyRegistered,
            ) && final(self)@ == old(self)@,
            !name_taken(old(self)@, name@) ==> res == Ok::<CounterHandle, RegistryError>(
                CounterHandle { family: old(self)@.len() as usize, metric: 0 },
            ) && final(self)@ == with_counter(old(self)@, name@, help@),
    {
        proof {
            use_type_invariant(&*self);
        }
        let name = name.to_owned();
        if find_name(&self.families, &name).is_some() {
            return Err(RegistryError::AlreadyRegistered);
        }
        let index = self.families.len();
        let mut metrics: Vec<Metric> = Vec::new();
        metrics.push(Metric { labels: Vec::new(), value: 0 });
        let family = MetricFamily { name, help: help.to_owned(), label_keys: Vec::new(), metrics };
        proof {
            assert(family@.label_keys =~= Seq::<Seq<char>>::empty());
            assert(family@.metrics =~= seq![MetricView { labels: Seq::empty(), value: 0 }]);
            assert(family@.well_formed());
            assert(family_views(self.families@.push(family)) =~= with_counter(
                family_views(self.families@),
                name@,
                help@,
            ));
        }
        self.push_family(family);
        Ok(CounterHandle { family: index, metric: 0 })
    }

    /// Registers a family of labeled counters. The order of the label keys
    /// is the order in which label values are given and written from then on.
    /// The family has no counter until a tuple of label values is first used.
    ///
    /// A name that is taken is turned down and nothing changes.
    pub fn register_counter_family(&mut self, name: &str, help: &str, label_keys: &[&str]) -> (res:
        Result<FamilyHandle, RegistryError>)
        ensures
            well_formed(final(self)@),
            name_taken(old(self)@, name@) ==> res == Err::<FamilyHandle, RegistryError>(
                RegistryError::AlreadyRegistered,
            ) && final(self)@ == old(self)@,
            !name_taken(old(self)@, name@) ==> res == Ok::<FamilyHandle, RegistryError>(
                FamilyHandle { family: old(self)@.len() as usize },
            ) && final(self)@ == with_family(
                old(self)@,
                name@,
                help@,
                slice_texts(label_keys@),
            ),
    {
        proof {
            use_type_invariant(&*self);
        }
        let name = name.to_owned();
        if find_name(&self.families, &name).is_some() {
            return Err(RegistryError::AlreadyRegistered);
        }
        let index = self.families.len();
        let family = MetricFamily {
            name,
            help: help.to_owned(),
            label_keys: owned_texts(label_keys),
            metrics: Vec::new(),
        };
        proof {
            assert(family@.metrics =~= Seq::<MetricView>::empty());
            assert(family@.well_formed());
            assert(family_views(self.families@.push(family)) =~= with_family(
                family_views(self.families@),
                name@,
                help@,
                slice_texts(label_keys@),
            ));
        }
        self.push_family(family);
        Ok(FamilyHandle { family: index })
    }

    fn push_family(&mut self, family: MetricFamily)
        requires
            family@.well_formed(),
            !name_taken(old(self)@, family@.name),
        ensures
            final(self)@ == family_views(old(self).families@.push(family)),
            final(self).families@ == old(self).families@.push(family),
    {
        proof {
            use_type_invariant(&*self);
        }
        let mut families: Vec<MetricFamily> = Vec::new();
        std::mem::swap(&mut self.families, &mut families);
        let ghost before = family_views(families@);
        families.push(family);
        proof {
            let after = family_views(families@);
            assert forall|i: int| 0 <= i < after.len() implies (#[trigger] after[i]).well_formed() by {
                if i < before.len() {
                    assert(after[i] == before[i]);
                }
            }
            assert forall|i: int, j: int| 0 <= i < j < after.len() implies after[i].name
                != after[j].name by {
                assert(after[i] == before[i]);
                if j < before.len() {
                    assert(after[j] == before[j]);
                }
            }
        }
        self.families = families;
    }

    /// The counter of a family for one tuple of label values, in the order
    /// of the family's label keys. The first use of a tuple brings its
    /// counter into being, at zero; every later use names that same counter.
    ///
    /// A handle that names no family of this registry, or a tuple with
    /// another number of values than the family has keys, is turned down and
    /// nothing changes.
    pub fn with_labels(&mut self, family: FamilyHandle, values: &[&str]) -> (res: Result<
        CounterHandle,
        RegistryError,
    >)
        ensures
            well_formed(final(self)@),
            with_labels_error(old(self)@, family, slice_texts(values@)) matches Some(e) ==> res
                == Err::<CounterHandle, RegistryError>(e) && final(self)@ == old(self)@,
            with_labels_error(old(self)@, family, slice_texts(values@)) is None ==> {
                let f = family.family as int;
                &&& res matches Ok(counter)
                &&& counter.family == family.family
                &&& has_counter(final(self)@, counter)
                &&& final(self)@[f].metrics[counter.metric as int].labels == slice_texts(values@)
                &&& final(self)@ == if old(self)@[f].has_labels(slice_texts(values@)) {
                    old(self)@
                } else {
                    materialized(old(self)@, f, slice_texts(values@))
                }
                &&& !old(self)@[f].has_labels(slice_texts(values@)) ==> counter.metric == old(
                    self,
                )@[f].metrics.len() && final(self)@[f].metrics[counter.metric as int].value == 0
            },
    {
        proof {
            use_type_invariant(&*self);
        }
        let f = family.family;
        if f >= self.families.len() {
            return Err(RegistryError::UnknownFamily);
        }
        if values.len() != self.families[f].label_keys.len() {
            return Err(RegistryError::ArityMismatch);
        }
        let labels = owned_texts(values);
        let ghost before = family_views(self.families@);
        match find_labels(&self.families[f].metrics, &labels) {
            Some(j) => {
                assert(before[f as int].metrics[j as int].labels == slice_texts(values@));
                Ok(CounterHandle { family: f, metric: j })
            },
            None => {
                assert(!before[f as int].has_labels(slice_texts(values@)));
                let j = self.families[f].metrics.len();
                let mut families: Vec<MetricFamily> = Vec::new();
                std::mem::swap(&mut self.families, &mut families);
                families[f].metrics.push(Metric { labels, value: 0 });
                proof {
                    let after = family_views(families@);
                    let target = materialized(before, f as int, slice_texts(values@));
                    assert(after[f as int].metrics =~= target[f as int].metrics);
                    assert(after =~= target);
                    assert(before[f as int].well_formed());
                    assert forall|i: int| 0 <= i < after.len() implies (
                    #[trigger] after[i]).well_formed() by {
                        if i != f {
                            assert(after[i] == before[i]);
                        } else {
                            assert forall|a: int, b: int|
                                0 <= a < b < after[i].metrics.len() implies after[i].metrics[a].labels
                                != after[i].metrics[b].labels by {
                                assert(after[i].metrics[a] == before[i].metrics[a]);
                                if b < before[i].metrics.len() {
                                    assert(after[i].metrics[b] == before[i].metrics[b]);
                                }
                            }
                            assert forall|a: int| 0 <= a < after[i].metrics.len() implies (
                            #[trigger] after[i].metrics[a]).labels.len()
                                == after[i].label_keys.len() by {
                                if a < before[i].metrics.len() {
                                    assert(after[i].metrics[a] == before[i].metrics[a]);
                                }
                            }
                        }
                    }
                    assert forall|a: int, b: int| 0 <= a < b < after.len() implies after[a].name
                        != after[b].name by {
                        assert(after[a].name == before[a].name);
                        assert(after[b].name == before[b].name);
                    }
                }
                self.families = families;
                Ok(CounterHandle { family: f, metric: j })
            },
        }
    }

    /// Counts one more on a counter.
    pub fn increment(&mut self, counter: CounterHandle) -> (res: Result<(), RegistryError>)
        ensures
            well_formed(final(self)@),
            has_counter(old(self)@, counter) ==> res is Ok && final(self)@ == incremented(
                old(self)@,
                counter,
                1,
            ),
            !has_counter(old(self)@, counter) ==> res == Err::<(), RegistryError>(
                RegistryError::UnknownCounter,
            ) && final(self)@ == old(self)@,
    {
        self.increment_by(counter, 1)
    }

    /// Counts `amount` more on a counter. A counter that would pass the
    /// largest 64-bit value stays at it: it never goes down.
    ///
    /// A handle that names no counter of this registry is turned down and
    /// nothing changes.
    pub fn increment_by(&mut self, counter: CounterHandle, amount: u64) -> (res: Result<
        (),
        RegistryError,
    >)
        ensures
            well_formed(final(self)@),
            has_counter(old(self)@, counter) ==> res is Ok && final(self)@ == incremented(
                old(self)@,
                counter,
                amount,
            ),
            !has_counter(old(self)@, counter) ==> res == Err::<(), RegistryError>(
                RegistryError::UnknownCounter,
            ) && final(self)@ == old(self)@,
    {
        proof {
            use_type_invariant(&*self);
        }
        let f = counter.family;
        let m = counter.metric;
        if f >= self.families.len() {
            return Err(RegistryError::UnknownCounter);
        }
        if m >= self.families[f].metrics.len() {
            return Err(RegistryError::UnknownCounter);
        }
        let ghost before = family_views(self.families@);
        let value = self.families[f].metrics[m].value;
        let sum = if amount > u64::MAX - value {
            u64::MAX
        } else {
            value + amount
        };
        let mut families: Vec<MetricFamily> = Vec::new();
        std::mem::swap(&mut self.families, &mut families);
        families[f].metrics[m].value = sum;
        proof {
            let after = family_views(families@);
            let target = incremented(before, counter, amount);
            assert(after[f as int].metrics =~= target[f as int].metrics);
            assert(after =~= target);
            lemma_incremented_well_formed(before, counter, amount);
        }
        self.families = families;
        Ok(())
    }

    /// How far a counter has counted, or nothing where the handle names no
    /// counter of this registry.
    pub fn value(&self, counter: CounterHandle) -> (value: Option<u64>)
        ensures
            has_counter(self@, counter) ==> value == Some(
                self@[counter.family as int].metrics[counter.metric as int].value,
            ),
            !has_counter(self@, counter) ==> value is None,
    {
        if counter.family >= self.families.len() {
            return None;
        }
        let family = &self.families[counter.family];
        if counter.metric >= family.metrics.len() {
            return None;
        }
        Some(family.metrics[counter.metric].value)
    }

    /// A copy of everything registered, as it stands now.
    pub fn gather(&self) -> (snapshot: Snapshot)
        ensures
            snapshot@ == self@,
            well_formed(snapshot@),
    {
        proof {
            use_type_invariant(self);
        }
        let mut families: Vec<MetricFamily> = Vec::new();
        let mut i: usize = 0;
        while i < self.families.len()
            invariant
                i <= self.families.len(),
                families.len() == i,
                forall|k: int| 0 <= k < i ==> families@[k]@ == self.families@[k]@,
            decreases self.families.len() - i,
        {
            families.push(copy_family(&self.families[i]));
            i += 1;
        }
        assert(family_views(families@) =~= family_views(self.families@));
        Snapshot { families }
    }
}

/// Counting keeps the families well formed: no name and no label tuple changes.
pub proof fn lemma_incremented_well_formed(
    families: Seq<FamilyView>,
    counter: CounterHandle,
    amount: u64,
)
    requires
        well_formed(families),
        has_counter(families, counter),
    ensures
        well_formed(incremented(families, counter, amount)),
{
    let after = incremented(families, counter, amount);
    let f = counter.family as int;
    assert(families[f].well_formed());
    assert forall|i: int| 0 <= i < after.len() implies (#[trigger] after[i]).well_formed() by {
        if i != f {
            assert(after[i] == families[i]);
            assert(families[i].well_formed());
        } else {
            assert forall|a: int, b: int| 0 <= a < b < after[i].metrics.len() implies after[i].metrics[a].labels
                != after[i].metrics[b].labels by {
                assert(after[i].metrics[a].labels == families[i].metrics[a].labels);
                assert(after[i].metrics[b].labels == families[i].metrics[b].labels);
            }
            assert forall|a: int| 0 <= a < after[i].metrics.len() implies (
            #[trigger] after[i].metrics[a]).labels.len() == after[i].label_keys.len() by {
                assert(after[i].metrics[a].labels == families[i].metrics[a].labels);
            }
        }
    }
    assert forall|a: int, b: int| 0 <= a < b < after.len() implies after[a].name
        != after[b].name by {
        assert(after[a].name == families[a].name);
        assert(after[b].name == families[b].name);
    }
}

/// No update is lost: after any sequence of increments a counter stands at
/// what it stood at before plus the sum of the amounts, or at the largest
/// value where that is beyond it, and nothing else has changed.
pub proof fn lemma_increments_add_up(
    families: Seq<FamilyView>,
    counter: CounterHandle,
    amounts: Seq<u64>,
)
    requires
        has_counter(families, counter),
    ensures
        has_counter(counted(families, counter, amounts), counter),
        counted(families, counter, amounts) == with_value(
            families,
            counter,
            capped(value_at(families, counter) + total(amounts)),
        ),
        value_at(counted(families, counter, amounts), counter) == capped(
            value_at(families, counter) + total(amounts),
        ),
    decreases amounts.len(),
{
    let f = counter.family as int;
    let m = counter.metric as int;
    if amounts.len() == 0 {
        let same = with_value(families, counter, value_at(families, counter));
        assert(same[f].metrics =~= families[f].metrics);
        assert(same =~= families);
    } else {
        let earlier = counted(families, counter, amounts.drop_last());
        lemma_increments_add_up(families, counter, amounts.drop_last());
        let after = counted(families, counter, amounts);
        let target = with_value(
            families,
            counter,
            capped(value_at(families, counter) + total(amounts)),
        );
        assert(after[f].metrics =~= target[f].metrics);
        assert(after =~= target);
    }
}

/// After `times` increments by one a counter that stood at zero stands at
/// `times`, as long as that is a 64-bit value.
pub proof fn lemma_increments_are_counted(
    families: Seq<FamilyView>,
    counter: CounterHandle,
    times: nat,
)
    requires
        has_counter(families, counter),
        value_at(families, counter) == 0,
        times <= u64::MAX,
    ensures
        value_at(counted(families, counter, Seq::new(times, |i: int| 1u64)), counter) == times,
{
    let ones = Seq::new(times, |i: int| 1u64);
    lemma_total_of_ones(times);
    lemma_increments_add_up(families, counter, ones);
}

/// `times` ones add up to `times`.
pub proof fn lemma_total_of_ones(times: nat)
    ensures
        total(Seq::new(times, |i: int| 1u64)) == times,
    decreases times,
{
    if times > 0 {
        let ones = Seq::new(times, |i: int| 1u64);
        assert(ones.drop_last() =~= Seq::new((times - 1) as nat, |i: int| 1u64));
        lemma_total_of_ones((times - 1) as nat);
    }
}

/// A counter never goes down, whatever is counted on it.
pub proof fn lemma_counter_never_goes_down(
    families: Seq<FamilyView>,
    counter: CounterHandle,
    amounts: Seq<u64>,
)
    requires
        has_counter(families, counter),
    ensures
        value_at(counted(families, counter, amounts), counter) >= value_at(families, counter),
{
    lemma_increments_add_up(families, counter, amounts);
}

/// A counter, once it exists, stays: registering, using labels and counting
/// keep every handle good, and keep the name and the label values it stands
/// for.
pub proof fn lemma_counters_persist(
    families: Seq<FamilyView>,
    counter: CounterHandle,
    name: Seq<char>,
    help: Seq<char>,
    label_keys: Seq<Seq<char>>,
    family: FamilyHandle,
    labels: Seq<Seq<char>>,
    other: CounterHandle,
    amount: u64,
)
    requires
        has_counter(families, counter),
        family.family < families.len(),
        has_counter(families, other),
    ensures
        same_counter(families, with_counter(families, name, help), counter),
        same_counter(families, with_family(families, name, help, label_keys), counter),
        same_counter(families, materialized(families, family.family as int, labels), counter),
        same_counter(families, incremented(families, other, amount), counter),
        other != counter ==> value_at(incremented(families, other, amount), counter) == value_at(
            families,
            counter,
        ),
        value_at(with_counter(families, name, help), counter) == value_at(families, counter),
        value_at(with_family(families, name, help, label_keys), counter) == value_at(
            families,
            counter,
        ),
        value_at(materialized(families, family.family as int, labels), counter) == value_at(
            families,
            counter,
        ),
{
}

/// Counting on one counter changes what is reported for no other: not for
/// another label tuple of the same family, and not for another family.
pub proof fn lemma_increment_leaves_others(
    families: Seq<FamilyView>,
    counter: CounterHandle,
    amount: u64,
    name: Seq<char>,
    labels: Seq<Seq<char>>,
)
    requires
        well_formed(families),
        has_counter(families, counter),
        !(families[counter.family as int].name == name && families[counter.family as int].metrics[counter.metric as int].labels
            == labels),
    ensures
        reported(incremented(families, counter, amount), name, labels) == reported(
            families,
            name,
            labels,
        ),
{
    let after = incremented(families, counter, amount);
    lemma_incremented_well_formed(families, counter, amount);
    assert forall|i: int, j: int|
        is_at(after, name, labels, i, j) == is_at(families, name, labels, i, j) by {
        if 0 <= i < families.len() && 0 <= j < families[i].metrics.len() {
            assert(after[i].name == families[i].name);
            assert(after[i].metrics[j].labels == families[i].metrics[j].labels);
        }
    }
    if exists|i: int, j: int| is_at(families, name, labels, i, j) {
        let (i, j) = choose|i: int, j: int| is_at(families, name, labels, i, j);
        assert(is_at(after, name, labels, i, j));
        lemma_reported_at(families, name, labels, i, j);
        lemma_reported_at(after, name, labels, i, j);
        assert(after[i].metrics[j].value == families[i].metrics[j].value);
    }
}

/// A label tuple that was never used has no counter: nothing is reported for
/// it, which is not the same as zero.
pub proof fn lemma_unused_labels_are_absent(
    families: Seq<FamilyView>,
    family: FamilyHandle,
    labels: Seq<Seq<char>>,
)
    requires
        well_formed(families),
        family.family < families.len(),
        !families[family.family as int].has_labels(labels),
    ensures
        reported(families, families[family.family as int].name, labels) is None,
{
    let f = family.family as int;
    let name = families[f].name;
    if exists|i: int, j: int| is_at(families, name, labels, i, j) {
        let (i, j) = choose|i: int, j: int| is_at(families, name, labels, i, j);
        if i < f {
            assert(families[i].name != families[f].name);
        } else if f < i {
            assert(families[f].name != families[i].name);
        }
        assert(families[f].metrics[j].labels == labels);
    }
}

/// A family that was just registered reports nothing, whatever the labels.
pub proof fn lemma_new_family_reports_nothing(
    families: Seq<FamilyView>,
    name: Seq<char>,
    help: Seq<char>,
    label_keys: Seq<Seq<char>>,
    labels: Seq<Seq<char>>,
)
    requires
        well_formed(families),
        !name_taken(families, name),
    ensures
        well_formed(with_family(families, name, help, label_keys)),
        reported(with_family(families, name, help, label_keys), name, labels) is None,
{
    let after = with_family(families, name, help, label_keys);
    assert forall|i: int| 0 <= i < after.len() implies (#[trigger] after[i]).well_formed() by {
        if i < families.len() {
            assert(after[i] == families[i]);
        }
    }
    assert forall|i: int, j: int| 0 <= i < j < after.len() implies after[i].name
        != after[j].name by {
        assert(after[i] == families[i]);
        if j < families.len() {
            assert(after[j] == families[j]);
        }
    }
    let f = FamilyHandle { family: families.len() as usize };
    if exists|i: int, j: int| is_at(after, name, labels, i, j) {
        let (i, j) = choose|i: int, j: int| is_at(after, name, labels, i, j);
        if i < families.len() {
            assert(after[i] == families[i]);
        }
    }
}

/// Once a name is registered it is taken: registering it again, as a plain
/// counter or as a family, is turned down.
pub proof fn lemma_registered_name_is_taken(
    families: Seq<FamilyView>,
    name: Seq<char>,
    help: Seq<char>,
    label_keys: Seq<Seq<char>>,
)
    ensures
        name_taken(with_counter(families, name, help), name),
        name_taken(with_family(families, name, help, label_keys), name),
{
    let n = families.len() as int;
    assert(with_counter(families, name, help)[n].name == name);
    assert(with_family(families, name, help, label_keys)[n].name == name);
}

} // verus!
