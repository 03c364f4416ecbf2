//! The registry: every metric of a process, keyed by a hash of its name and
//! of the normal form of its tags, so that asking again for a metric with
//! the same name and tags, in any order and with repeats, finds the same one.
use vstd::prelude::*;
use std::collections::HashMap;
use smallvec::SmallVec;
use twox_hash::XxHash64;
use vstd::utf8::encode_utf8;
use crate::metrics::MetricKind;
use vstd::std_specs::iter::IteratorSpec;
use crate::tags::{TagText, normal_tags, owned_tags_text, tags_text, normalize_tags, same_tags, lemma_normal_tags_same};

verus! {

broadcast use vstd::std_specs::hash::group_hash_axioms;

/// The seed of the hash that identifies a metric.
pub const MID_SEED: u64 = 0xdeadbeef;

/// The 64-bit xxHash of `data` with `seed`.
pub uninterp spec fn xxhash64(seed: u64, data: Seq<u8>) -> u64;

/// `twox_hash::XxHash64::oneshot`: the 64-bit xxHash of `data` with
/// `seed`, which depends on these two alone.
#[verifier::external_body]
fn xxhash64_oneshot(seed: u64, data: &[u8]) -> (r: u64)
    ensures
        r == xxhash64(seed, data@),
{
    XxHash64::oneshot(seed, data)
}

/// How a string is fed to a hash: its UTF-8 bytes, then `0xff`.
pub open spec fn text_bytes(s: Seq<char>) -> Seq<u8> {
    encode_utf8(s).push(0xffu8)
}

/// The `k` lowest bytes of `n`, lowest first.
pub open spec fn le_bytes(n: nat, k: nat) -> Seq<u8>
    decreases k,
{
    if k == 0 {
        Seq::empty()
    } else {
        seq![(n % 256) as u8] + le_bytes(n / 256, (k - 1) as nat)
    }
}

/// How a tag list is fed to a hash: each key and value in turn.
pub open spec fn tags_bytes(t: Seq<TagText>) -> Seq<u8>
    decreases t.len(),
{
    if t.len() == 0 {
        Seq::empty()
    } else {
        tags_bytes(t.drop_last()) + text_bytes(t.last().0) + text_bytes(t.last().1)
    }
}

/// The bytes that identify a metric: its name, the number of its tags as
/// eight little-endian bytes, then its tags, as the `Hash` impls of `str`
/// and of slices feed them to a hasher on a 64-bit little-endian machine.
pub open spec fn identity_bytes(name: Seq<char>, tags: Seq<TagText>) -> Seq<u8> {
    text_bytes(name) + le_bytes(tags.len(), 8) + tags_bytes(tags)
}

/// The id of the metric with `name` and the tag list `tags`: the hash of the
/// name and of the normal form of the tags.
pub open spec fn metric_key(name: Seq<char>, tags: Seq<TagText>) -> u64 {
    xxhash64(MID_SEED, identity_bytes(name, normal_tags(tags)))
}

/// Appends the bytes of `s`, then `0xff`.
fn push_text(out: &mut Vec<u8>, s: &str)
    ensures
        final(out)@ == old(out)@ + text_bytes(s@),
{
    let bytes = s.as_bytes();
    let ghost start = out@;
    let mut i: usize = 0;
    while i < bytes.len()
        invariant
            0 <= i <= bytes@.len(),
            bytes@ == encode_utf8(s@),
            out@ == start + bytes@.take(i as int),
        decreases bytes@.len() - i,
    {
        out.push(bytes[i]);
        assert(bytes@.take(i + 1) =~= bytes@.take(i as int).push(bytes@[i as int]));
        i += 1;
    }
    assert(bytes@.take(bytes@.len() as int) =~= bytes@);
    out.push(0xff);
    assert(out@ =~= start + text_bytes(s@));
}

/// Appends the eight bytes of `n`, lowest first.
fn push_le_u64(out: &mut Vec<u8>, n: u64)
    ensures
        final(out)@ == old(out)@ + le_bytes(n as nat, 8),
{
    let ghost start = out@;
    let mut x = n;
    let mut i: usize = 0;
    assert(out@ + le_bytes(x as nat, 8) =~= start + le_bytes(n as nat, 8));
    while i < 8
        invariant
            0 <= i <= 8,
            out@ + le_bytes(x as nat, (8 - i) as nat) == start + le_bytes(n as nat, 8),
        decreases 8 - i,
    {
        let ghost rest = le_bytes((x / 256) as nat, (8 - i - 1) as nat);
        assert(le_bytes(x as nat, (8 - i) as nat) == seq![(x % 256) as u8] + rest);
        out.push((x % 256) as u8);
        assert(out@ + rest =~= (out@.drop_last() + seq![(x % 256) as u8]) + rest);
        assert(out@.drop_last() + le_bytes(x as nat, (8 - i) as nat) =~= out@ + rest);
        x = x / 256;
        i += 1;
    }
    assert(out@ + le_bytes(x as nat, 0) =~= out@);
}

/// The bytes that identify the metric with `name` and the tags `tags`.
pub fn identity(name: &str, tags: &[(String, String)]) -> (bytes: Vec<u8>)
    ensures
        bytes@ == identity_bytes(name@, owned_tags_text(tags@)),
{
    let mut out: Vec<u8> = Vec::new();
    push_text(&mut out, name);
    push_le_u64(&mut out, tags.len() as u64);
    let ghost head = out@;
    let mut i: usize = 0;
    while i < tags.len()
        invariant
            0 <= i <= tags@.len(),
            out@ == head + tags_bytes(owned_tags_text(tags@).take(i as int)),
        decreases tags@.len() - i,
    {
        let ghost before = owned_tags_text(tags@).take(i as int);
        let ghost after = owned_tags_text(tags@).take(i + 1);
        assert(after.drop_last() =~= before);
        assert(after.last() == (tags@[i as int].0@, tags@[i as int].1@));
        push_text(&mut out, tags[i].0.as_str());
        push_text(&mut out, tags[i].1.as_str());
        assert(out@ =~= head + tags_bytes(after));
        i += 1;
    }
    assert(owned_tags_text(tags@).take(tags@.len() as int) =~= owned_tags_text(tags@));
    assert(out@ =~= identity_bytes(name@, owned_tags_text(tags@)));
    out
}

/// The id of the metric with `name` and the tags `tags`, given in their
/// normal form: the xxHash of its identifying bytes with `MID_SEED`.
pub fn mid(name: &str, tags: &[(String, String)]) -> (id: u64)
    ensures
        id == xxhash64(MID_SEED, identity_bytes(name@, owned_tags_text(tags@))),
{
    let bytes = identity(name, tags);
    xxhash64_oneshot(MID_SEED, bytes.as_slice())
}

/// The tags of a registered metric, in their normal form, kept inline
/// where there are few.
#[verifier::external_body]
pub struct TagList {
    items: SmallVec<[(String, String); 8]>,
}

/// The tags that a `TagList` holds, in order.
pub uninterp spec fn tag_list_items(l: TagList) -> Seq<TagText>;

/// `SmallVec::from_vec`: a small vector that holds the items of `v`, in
/// the same order.
#[verifier::external_body]
fn tag_list_from_vec(v: Vec<(String, String)>) -> (l: TagList)
    ensures
        tag_list_items(l) == owned_tags_text(v@),
{
    TagList { items: SmallVec::from_vec(v) }
}

/// `SmallVec::as_slice`: the items of the small vector, in order.
#[verifier::external_body]
fn tag_list_as_slice(l: &TagList) -> (r: &[(String, String)])
    ensures
        owned_tags_text(r@) == tag_list_items(*l),
{
    l.items.as_slice()
}

/// What the registry keeps of a metric.
pub struct MetricMetadata<M> {
    name: String,
    tags: TagList,
    kind: MetricKind,
    metric: M,
    /// When the metric was first exported, once it was.
    export_start_ts: Option<u64>,
}

/// The abstract state of a registered metric.
pub struct MetadataView<M> {
    pub name: Seq<char>,
    pub tags: Seq<TagText>,
    pub kind: MetricKind,
    pub metric: M,
    pub export_start_ts: Option<u64>,
}

impl<M> View for MetricMetadata<M> {
    type V = MetadataView<M>;

    closed spec fn view(&self) -> MetadataView<M> {
        MetadataView {
            name: self.name@,
            tags: tag_list_items(self.tags),
            kind: self.kind,
            metric: self.metric,
            export_start_ts: self.export_start_ts,
        }
    }
}

impl<M> MetricMetadata<M> {
    /// A metric as first registered, not exported yet.
    pub fn new(name: &str, tags: Vec<(String, String)>, kind: MetricKind, metric: M) -> (m: Self)
        ensures
            m@ == (MetadataView {
                name: name@,
                tags: owned_tags_text(tags@),
                kind,
                metric,
                export_start_ts: None,
            }),
    {
        MetricMetadata {
            name: name.to_owned(),
            tags: tag_list_from_vec(tags),
            kind,
            metric,
            export_start_ts: None,
        }
    }

    /// The metric's name.
    pub fn name(&self) -> (r: &str)
        ensures
            r@ == self@.name,
    {
        self.name.as_str()
    }

    /// The metric's tags, in their normal form.
    pub fn tags(&self) -> (r: &[(String, String)])
        ensures
            owned_tags_text(r@) == self@.tags,
    {
        tag_list_as_slice(&self.tags)
    }

    /// The metric's kind.
    pub fn kind(&self) -> (r: MetricKind)
        ensures
            r == self@.kind,
    {
        self.kind
    }

    /// The metric itself.
    pub fn metric(&self) -> (r: &M)
        ensures
            *r == self@.metric,
    {
        &self.metric
    }

    /// When the metric was first exported: the time recorded by an earlier
    /// call, or else `now`, which is recorded.
    pub fn export_start_ts_or(&mut self, now: u64) -> (ts: u64)
        ensures
            ts == match old(self)@.export_start_ts {
                Some(t) => t,
                None => now,
            },
            final(self)@ == (MetadataView { export_start_ts: Some(ts), ..old(self)@ }),
    {
        match self.export_start_ts {
            Some(t) => t,
            None => {
                self.export_start_ts = Some(now);
                now
            },
        }
    }
}

/// Why a metric could not be registered.
#[derive(Clone, Copy, Debug, PartialEq, Eq, Structural)]
pub enum RegisterError {
    /// A metric of another kind has the same name and tags.
    KindMismatch,
}

/// A registered metric as it is first kept.
pub open spec fn new_entry<M>(name: Seq<char>, tags: Seq<TagText>, kind: MetricKind, fresh: M) -> MetadataView<M> {
    MetadataView { name, tags, kind, metric: fresh, export_start_ts: None }
}

/// What registering `entry` under `mid` does to the registry `m`, giving
/// `m2` and the answer `r`: where `mid` is taken the registry stays as it
/// is, and the answer is the metric kept there if it is of the same kind,
/// else an error; where `mid` is free, `entry` is kept under it and its
/// metric is the answer.
pub open spec fn register_outcome<M>(
    m: Map<u64, MetricMetadata<M>>,
    m2: Map<u64, MetricMetadata<M>>,
    mid: u64,
    entry: MetadataView<M>,
    r: Result<&M, RegisterError>,
) -> bool {
    if m.contains_key(mid) {
        &&& m2 == m
        &&& m[mid]@.kind == entry.kind ==> r == Ok::<&M, RegisterError>(&m[mid]@.metric)
        &&& m[mid]@.kind != entry.kind ==> r == Err::<&M, RegisterError>(RegisterError::KindMismatch)
    } else {
        &&& m2.dom() == m.dom().insert(mid)
        &&& forall|k: u64| k != mid && m.contains_key(k) ==> m2[k] == m[k]
        &&& m2[mid]@ == entry
        &&& r == Ok::<&M, RegisterError>(&entry.metric)
    }
}

/// Every metric of a process, by id.
pub struct Registry<M> {
    metrics: HashMap<u64, MetricMetadata<M>>,
}

impl<M> View for Registry<M> {
    type V = Map<u64, MetricMetadata<M>>;

    closed spec fn view(&self) -> Map<u64, MetricMetadata<M>> {
        self.metrics@
    }
}

impl<M> Registry<M> {
    /// An empty registry.
    pub fn new() -> (r: Self)
        ensures
            r@ == Map::<u64, MetricMetadata<M>>::empty(),
    {
        Registry { metrics: HashMap::new() }
    }

    /// The number of metrics registered.
    pub fn len(&self) -> (n: usize)
        ensures
            n == self@.len(),
    {
        self.metrics.len()
    }

    /// The metric registered under `mid`, if any.
    pub fn get(&self, mid: u64) -> (r: Option<&MetricMetadata<M>>)
        ensures
            match r {
                Some(m) => self@.contains_key(mid) && *m == self@[mid],
                None => !self@.contains_key(mid),
            },
    {
        self.metrics.get(&mid)
    }

    /// Registers a metric under the id `mid`, which `mid` computes from
    /// `name` and `tags`: where no metric has that id, `fresh` is kept,
    /// with `name`, `tags` and `kind`, and handed back; where one has it,
    /// that one is handed back if it is of `kind`, and it is an error if not.
    pub fn register_with_id(
        &mut self,
        mid: u64,
        name: &str,
        tags: Vec<(String, String)>,
        kind: MetricKind,
        fresh: M,
    ) -> (r: Result<&M, RegisterError>)
        ensures
            register_outcome(
                old(self)@,
                final(self)@,
                mid,
                new_entry(name@, owned_tags_text(tags@), kind, fresh),
                r,
            ),
    {
        if !self.metrics.contains_key(&mid) {
            let meta = MetricMetadata::new(name, tags, kind, fresh);
            self.metrics.insert(mid, meta);
        }
        match self.metrics.get(&mid) {
            Some(meta) => {
                if meta.kind == kind {
                    Ok(&meta.metric)
                } else {
                    Err(RegisterError::KindMismatch)
                }
            },
            None => Err(RegisterError::KindMismatch),
        }
    }

    /// Registers a metric by its name and tags: the tags are put in their
    /// normal form (sorted, each once) and the id is the hash of the name
    /// and of those tags. Where no metric has that id, `fresh` is kept and
    /// handed back; where one has it, that one is handed back if it is of
    /// `kind`, and it is an error if not.
    pub fn register(&mut self, name: &str, tags: &[(&str, &str)], kind: MetricKind, fresh: M) -> (r: Result<
        &M,
        RegisterError,
    >)
        ensures
            register_outcome(
                old(self)@,
                final(self)@,
                metric_key(name@, tags_text(tags@)),
                new_entry(name@, normal_tags(tags_text(tags@)), kind, fresh),
                r,
            ),
    {
        let normal = normalize_tags(tags);
        let id = mid(name, normal.as_slice());
        self.register_with_id(id, name, normal, kind, fresh)
    }

    /// When the metric `mid` was first exported: the time recorded at its
    /// first export, or else `now`, which is recorded. Nothing where no
    /// metric has the id.
    pub fn export_start_ts(&mut self, mid: u64, now: u64) -> (ts: Option<u64>)
        ensures
            !old(self)@.contains_key(mid) ==> ts is None && final(self)@ == old(self)@,
            old(self)@.contains_key(mid) ==> {
                &&& ts == Some(
                    match old(self)@[mid]@.export_start_ts {
                        Some(t) => t,
                        None => now,
                    },
                )
                &&& final(self)@.dom() == old(self)@.dom()
                &&& forall|k: u64| k != mid && old(self)@.contains_key(k) ==> final(self)@[k] == old(self)@[k]
                &&& final(self)@[mid]@ == (MetadataView { export_start_ts: ts, ..old(self)@[mid]@ })
            },
    {
        match self.metrics.remove(&mid) {
            Some(mut meta) => {
                let t = meta.export_start_ts_or(now);
                self.metrics.insert(mid, meta);
                Some(t)
            },
            None => None,
        }
    }

    /// The ids of all metrics, each once, in no particular order.
    pub fn metric_ids(&self) -> (ids: Vec<u64>)
        ensures
            ids@.to_set() == self@.dom(),
            ids@.no_duplicates(),
    {
        let mut ids: Vec<u64> = Vec::new();
        let ghost keys = self.metrics.keys();
        for id in it: self.metrics.keys()
            invariant
                ids@ == it.seq().take(it.index()).map_values(|k: &u64| *k),
        {
            ids.push(*id);
            proof {
                assert(it.seq().take(it.index() + 1).map_values(|k: &u64| *k) =~= ids@);
            }
        }
        proof {
            assert(ids@ =~= keys.remaining().unref());
        }
        ids
    }
}

/// A metric name with tag lists that hold the same tags, in whatever order
/// and however often, has one id.
pub proof fn lemma_metric_key_same_tags(name: Seq<char>, a: Seq<TagText>, b: Seq<TagText>)
    requires
        same_tags(a, b),
    ensures
        metric_key(name, a) == metric_key(name, b),
{
    lemma_normal_tags_same(a, b);
}

/// Registering again, with the same kind, under the id of a metric that
/// was registered leaves the registry as it is and hands back the metric
/// that the first registration handed back.
pub proof fn lemma_register_again<M>(
    m0: Map<u64, MetricMetadata<M>>,
    m1: Map<u64, MetricMetadata<M>>,
    m2: Map<u64, MetricMetadata<M>>,
    mid: u64,
    first: MetadataView<M>,
    second: MetadataView<M>,
    r1: Result<&M, RegisterError>,
    r2: Result<&M, RegisterError>,
)
    requires
        register_outcome(m0, m1, mid, first, r1),
        r1 is Ok,
        register_outcome(m1, m2, mid, second, r2),
        second.kind == first.kind,
    ensures
        m2 == m1,
        r2 == r1,
{
    assert(m1.contains_key(mid));
}

/// Registering, under the id of a metric of one kind, a metric of another
/// kind is refused and leaves the registry as it is.
pub proof fn lemma_register_other_kind<M>(
    m0: Map<u64, MetricMetadata<M>>,
    m1: Map<u64, MetricMetadata<M>>,
    mid: u64,
    entry: MetadataView<M>,
    r: Result<&M, RegisterError>,
)
    requires
        register_outcome(m0, m1, mid, entry, r),
        m0.contains_key(mid),
        m0[mid]@.kind != entry.kind,
    ensures
        m1 == m0,
        r == Err::<&M, RegisterError>(RegisterError::KindMismatch),
{
}

} // verus!
