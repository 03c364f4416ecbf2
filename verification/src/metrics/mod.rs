//! The metric kinds and their definitions.
use vstd::prelude::*;
use std::marker::PhantomData;
use crate::registry::{Registry, RegisterError, register_outcome, new_entry, metric_key};
use crate::tags::{TextOrder, compare_text, normal_tags, tags_text};

pub mod counter;
pub mod gauge;
pub mod histogram;

verus! {

/// The kinds of metric a registry holds.
#[derive(Clone, Copy, Debug, PartialEq, Eq, Structural)]
pub enum MetricKind {
    Counter,
    Gauge,
    Histogram,
}

/// A kind of metric: how a fresh one is made and which kind it is.
pub trait Metric: Sized {
    /// The kind of this metric.
    const KIND: MetricKind;

    /// A fresh metric with nothing recorded.
    fn must() -> Self;
}

/// A list of tags given for a metric, as (key, value) pairs.
pub trait Tags<'a> {
    /// The pairs.
    spec fn tag_pairs(&self) -> Seq<(&'a str, &'a str)>;

    /// The pairs.
    fn tags(&self) -> (r: &'a [(&'a str, &'a str)])
        ensures
            r@ == self.tag_pairs(),
    ;
}

impl<'a> Tags<'a> for &'a [(&'a str, &'a str)] {
    open spec fn tag_pairs(&self) -> Seq<(&'a str, &'a str)> {
        self@
    }

    fn tags(&self) -> (r: &'a [(&'a str, &'a str)]) {
        *self
    }
}

/// Every key of `tags` is one of `keys`.
pub open spec fn tags_known(keys: Seq<Seq<char>>, tags: Seq<(&str, &str)>) -> bool {
    forall|i: int| 0 <= i < tags.len() ==> keys.contains(#[trigger] tags[i].0@)
}

/// What a check of `tags` against `keys` answers: nothing where every key
/// is known, else the position of the first unknown key.
pub open spec fn first_unknown(keys: Seq<Seq<char>>, tags: Seq<(&str, &str)>, r: Option<usize>) -> bool {
    match r {
        None => tags_known(keys, tags),
        Some(i) => i < tags.len() && !keys.contains(tags[i as int].0@) && tags_known(
            keys,
            tags.take(i as int),
        ),
    }
}

/// The tag keys that a metric takes.
pub trait TagSchema {
    /// How the tags of the metric are given.
    type Input<'a>: Tags<'a>;

    /// The keys.
    spec fn key_text(&self) -> Seq<Seq<char>>;

    /// The keys.
    fn tag_keys(&self) -> (keys: &'static [&'static str])
        ensures
            keys@.map_values(|k: &str| k@) == self.key_text(),
    ;

    /// Checks that every key of `tags` is one of the keys: nothing where
    /// they are, else the position of the first that is not.
    fn validate(&self, tags: &Self::Input<'_>) -> (invalid: Option<usize>)
        ensures
            first_unknown(self.key_text(), tags.tag_pairs(), invalid),
    ;
}

/// Whether `key` is one of `keys`.
fn key_known(keys: &[&str], key: &str) -> (r: bool)
    ensures
        r == keys@.map_values(|k: &str| k@).contains(key@),
{
    let ghost text = keys@.map_values(|k: &str| k@);
    let mut i: usize = 0;
    while i < keys.len()
        invariant
            0 <= i <= keys@.len(),
            text == keys@.map_values(|k: &str| k@),
            forall|j: int| 0 <= j < i ==> text[j] != key@,
        decreases keys@.len() - i,
    {
        if matches!(compare_text(keys[i], key), TextOrder::Same) {
            assert(text[i as int] == key@);
            return true;
        }
        i += 1;
    }
    assert forall|j: int| 0 <= j < text.len() implies text[j] != key@ by {}
    false
}

impl TagSchema for &'static [&'static str] {
    type Input<'a> = &'a [(&'a str, &'a str)];

    open spec fn key_text(&self) -> Seq<Seq<char>> {
        self@.map_values(|k: &str| k@)
    }

    fn tag_keys(&self) -> (keys: &'static [&'static str]) {
        *self
    }

    fn validate(&self, tags: &Self::Input<'_>) -> (invalid: Option<usize>) {
        let pairs = tags.tags();
        let mut i: usize = 0;
        while i < pairs.len()
            invariant
                0 <= i <= pairs@.len(),
                pairs@ == tags.tag_pairs(),
                tags_known(self.key_text(), pairs@.take(i as int)),
            decreases pairs@.len() - i,
        {
            let (key, _value) = pairs[i];
            if !key_known(*self, key) {
                return Some(i);
            }
            assert(pairs@.take(i + 1) =~= pairs@.take(i as int).push(pairs@[i as int]));
            i += 1;
        }
        assert(pairs@.take(pairs@.len() as int) =~= pairs@);
        None
    }
}

/// The definition of a metric: its name and the keys of its tags. The
/// metric itself is found in, or added to, a registry by its name and tags.
pub struct MetricDef<M, T = &'static [&'static str]> {
    name: &'static str,
    tags: T,
    _kind: PhantomData<M>,
}

impl<M, T> MetricDef<M, T> where M: Metric, T: TagSchema {
    /// The name of the metric.
    pub closed spec fn name_text(&self) -> Seq<char> {
        self.name@
    }

    /// The keys of the metric's tags.
    pub closed spec fn schema(&self) -> T {
        self.tags
    }

    /// The definition of the metric `name` with the tag keys `tags`.
    pub fn new(name: &'static str, tags: T) -> (d: Self)
        ensures
            d.name_text() == name@,
            d.schema() == tags,
    {
        Self { name, tags, _kind: PhantomData }
    }

    /// The name of the metric.
    pub fn name(&self) -> (r: &'static str)
        ensures
            r@ == self.name_text(),
    {
        self.name
    }

    /// The keys of the metric's tags.
    pub fn tag_keys(&self) -> (keys: &'static [&'static str])
        ensures
            keys@.map_values(|k: &str| k@) == self.schema().key_text(),
    {
        self.tags.tag_keys()
    }

    /// Checks `tags` against the keys of the metric: nothing where every key
    /// is known, else the position of the first that is not.
    pub fn validate(&self, tags: &T::Input<'_>) -> (invalid: Option<usize>)
        ensures
            first_unknown(self.schema().key_text(), tags.tag_pairs(), invalid),
    {
        self.tags.validate(tags)
    }

    /// Finds, or adds, the metric with these tags in `registry`: where no
    /// metric has its name and tags, `fresh` is kept and handed back; where
    /// one has them, that one is handed back if it is of this metric's kind,
    /// and it is an error if not.
    pub fn must_with_registry<'r, S>(&self, registry: &'r mut Registry<S>, tags: T::Input<'_>, fresh: S) -> (r:
        Result<&'r S, RegisterError>)
        requires
            tags_known(self.schema().key_text(), tags.tag_pairs()),
        ensures
            register_outcome(
                old(registry)@,
                final(registry)@,
                metric_key(self.name_text(), tags_text(tags.tag_pairs())),
                new_entry(self.name_text(), normal_tags(tags_text(tags.tag_pairs())), M::KIND, fresh),
                r,
            ),
    {
        let invalid = self.tags.validate(&tags);
        assert(invalid is None);
        registry.register(self.name, tags.tags(), M::KIND, fresh)
    }
}

} // verus!
