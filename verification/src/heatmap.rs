//! The heat-descriptor data model: layers, timelines, tenants, and the pure
//! operations over them (hot filtering, aggregate statistics, access-time
//! normalization, indexing by timeline id).

use vstd::prelude::*;
use std::collections::HashMap;

verus! {

broadcast use {vstd::std_specs::hash::group_hash_axioms, vstd::seq_lib::group_seq_properties};

/// Identifier of the timeline a descriptor belongs to, as a 128-bit value.
/// On the wire it appears in its canonical string form: 32 lowercase hex
/// digits, zero-padded.
pub type TimelineId = u128;

/// Token of the attached location (primary) that produced a descriptor.
/// Advisory only: it lets a secondary detect that two primaries are both
/// publishing, without enforcing anything itself.
pub type Generation = u32;

/// A byte of a layer name as it may appear on the wire without escaping:
/// printable ASCII that is neither a double quote nor a backslash.
pub open spec fn name_byte_ok(b: u8) -> bool {
    32 <= b <= 126 && b != 34 && b != 92
}

/// Validity of a layer name: every byte is printable ASCII with no double
/// quote and no backslash, so the name embeds in the wire form verbatim.
pub open spec fn name_wf(s: Seq<u8>) -> bool {
    forall|i: int| 0 <= i < s.len() ==> name_byte_ok(#[trigger] s[i])
}

/// Opaque, semantically unique identifier of a layer file within its
/// timeline. Treated here as a string of printable ASCII bytes.
#[derive(Debug, PartialEq)]
pub struct LayerName {
    pub bytes: Vec<u8>,
}

impl View for LayerName {
    type V = Seq<u8>;

    open spec fn view(&self) -> Seq<u8> {
        self.bytes@
    }
}

impl LayerName {
    /// Wraps the given bytes as a layer name. Validity (printable ASCII,
    /// no quote, no backslash) is the caller's responsibility: layer names
    /// come from file names, which satisfy it by construction.
    pub fn new(bytes: Vec<u8>) -> (r: LayerName)
        requires
            name_wf(bytes@),
        ensures
            r@ == bytes@,
    {
        LayerName { bytes }
    }

    /// The bytes of the name.
    pub fn as_bytes(&self) -> (r: &Vec<u8>)
        ensures
            r@ == self@,
    {
        &self.bytes
    }
}

/// Descriptive attributes of a layer file, owned by the metadata component.
/// Only its byte size is read here (by the aggregate statistics).
#[derive(Debug, PartialEq)]
pub struct LayerFileMetadata {
    pub file_size: u64,
}

/// Mathematical model of one layer descriptor.
#[verifier::ext_equal]
pub ghost struct LayerV {
    pub name: Seq<u8>,
    pub file_size: u64,
    pub access_time: i64,
    pub cold: bool,
}

/// One physical layer file: identity, metadata, last observed access time on
/// the primary (seconds since the epoch), and the hot/cold classification.
#[derive(Debug, PartialEq)]
pub struct HeatMapLayer {
    pub name: LayerName,
    pub metadata: LayerFileMetadata,
    pub access_time: i64,
    pub cold: bool,
}

impl View for HeatMapLayer {
    type V = LayerV;

    open spec fn view(&self) -> LayerV {
        LayerV {
            name: self.name@,
            file_size: self.metadata.file_size,
            access_time: self.access_time,
            cold: self.cold,
        }
    }
}

impl HeatMapLayer {
    /// Constructs a layer descriptor from its parts. No validation happens
    /// here: name collisions and the like are the producer's responsibility.
    pub fn new(name: LayerName, metadata: LayerFileMetadata, access_time: i64, cold: bool) -> (r:
        HeatMapLayer)
        ensures
            r@ == (LayerV { name: name@, file_size: metadata.file_size, access_time, cold }),
    {
        HeatMapLayer { name, metadata, access_time, cold }
    }
}

/// Mathematical model of one timeline descriptor.
#[verifier::ext_equal]
pub ghost struct TimelineV {
    pub timeline_id: TimelineId,
    pub layers: Seq<LayerV>,
}

/// The layers of a sequence that are classified hot, in their original
/// relative order.
pub open spec fn hot_of(layers: Seq<LayerV>) -> Seq<LayerV> {
    layers.filter(|l: LayerV| !l.cold)
}

/// An ordered collection of layer descriptors belonging to one timeline.
/// The order carries no meaning beyond stable serialization.
#[derive(Debug, PartialEq)]
pub struct HeatMapTimeline {
    pub timeline_id: TimelineId,
    pub layers: Vec<HeatMapLayer>,
}

impl View for HeatMapTimeline {
    type V = TimelineV;

    open spec fn view(&self) -> TimelineV {
        TimelineV {
            timeline_id: self.timeline_id,
            layers: self.layers@.map_values(|l: HeatMapLayer| l@),
        }
    }
}

impl HeatMapTimeline {
    /// Constructs a timeline descriptor. No deduplication or reordering.
    pub fn new(timeline_id: TimelineId, layers: Vec<HeatMapLayer>) -> (r: HeatMapTimeline)
        ensures
            r@ == (TimelineV {
                timeline_id,
                layers: layers@.map_values(|l: HeatMapLayer| l@),
            }),
    {
        HeatMapTimeline { timeline_id, layers }
    }

    /// Every layer descriptor of this timeline, in storage order.
    pub fn all_layers(&self) -> (r: &Vec<HeatMapLayer>)
        ensures
            r@.map_values(|l: HeatMapLayer| l@) == self@.layers,
    {
        &self.layers
    }

    /// The hot layers of this timeline, borrowed, in storage order: exactly
    /// the layers of `all_layers` whose `cold` flag is false.
    pub fn hot_layers(&self) -> (r: Vec<&HeatMapLayer>)
        ensures
            r@.map_values(|l: &HeatMapLayer| l@) == hot_of(self@.layers),
    {
        let ghost vs = self@.layers;
        let mut r: Vec<&HeatMapLayer> = Vec::new();
        let n = self.layers.len();
        for j in 0..n
            invariant
                n == self.layers.len(),
                vs == self@.layers,
                r@.map_values(|l: &HeatMapLayer| l@) == hot_of(vs.take(j as int)),
        {
            proof {
                assert(vs.take(j + 1) =~= vs.take(j as int).push(vs[j as int]));
                lemma_filter_push(vs.take(j as int), vs[j as int], |l: LayerV| !l.cold);
            }
            let ghost r_old = r@;
            if !self.layers[j].cold {
                r.push(&self.layers[j]);
                proof {
                    assert(r@.map_values(|l: &HeatMapLayer| l@) =~= r_old.map_values(
                        |l: &HeatMapLayer| l@,
                    ).push(vs[j as int]));
                    assert(r@.map_values(|l: &HeatMapLayer| l@) =~= hot_of(vs.take(j + 1)));
                }
            } else {
                proof {
                    assert(r@.map_values(|l: &HeatMapLayer| l@) =~= hot_of(vs.take(j + 1)));
                }
            }
        }
        proof {
            assert(vs.take(n as int) =~= vs);
        }
        r
    }

    /// The hot layers of this timeline, moved out of it, in storage order.
    /// Yields the same elements in the same order as `hot_layers` would on
    /// the same state.
    pub fn into_hot_layers(self) -> (r: Vec<HeatMapLayer>)
        ensures
            r@.map_values(|l: HeatMapLayer| l@) == hot_of(self@.layers),
    {
        let ghost vs = self@.layers;
        let mut rest = self.layers;
        let mut r: Vec<HeatMapLayer> = Vec::new();
        let mut k: usize = 0;
        proof {
            assert(vs.len() == rest.len());
        }
        while rest.len() > 0
            invariant
                k + rest.len() == vs.len(),
                vs.len() <= usize::MAX,
                rest@.map_values(|l: HeatMapLayer| l@) == vs.skip(k as int),
                r@.map_values(|l: HeatMapLayer| l@) == hot_of(vs.take(k as int)),
            decreases rest.len(),
        {
            proof {
                assert(vs.take(k + 1) =~= vs.take(k as int).push(vs[k as int]));
                lemma_filter_push(vs.take(k as int), vs[k as int], |l: LayerV| !l.cold);
                assert(rest@.map_values(|l: HeatMapLayer| l@)[0] == vs.skip(k as int)[0]);
                assert(vs.skip(k as int)[0] == vs[k as int]);
            }
            let ghost rest_old = rest@;
            let ghost r_old = r@;
            let l = rest.remove(0);
            proof {
                assert(l@ == rest_old.map_values(|l: HeatMapLayer| l@)[0]);
                assert(rest@.map_values(|l: HeatMapLayer| l@) =~= vs.skip(k + 1));
            }
            if !l.cold {
                r.push(l);
                proof {
                    assert(r@.map_values(|l: HeatMapLayer| l@) =~= r_old.map_values(
                        |l: HeatMapLayer| l@,
                    ).push(vs[k as int]));
                    assert(r@.map_values(|l: HeatMapLayer| l@) =~= hot_of(vs.take(k + 1)));
                }
            } else {
                proof {
                    assert(r@.map_values(|l: HeatMapLayer| l@) =~= hot_of(vs.take(k + 1)));
                }
            }
            k = k + 1;
        }
        proof {
            assert(vs.take(k as int) =~= vs);
        }
        r
    }
}

/// Filtering a sequence with one more element at its end keeps the filtered
/// prefix and appends the element exactly when it satisfies the predicate.
proof fn lemma_filter_push<A>(s: Seq<A>, x: A, p: spec_fn(A) -> bool)
    ensures
        s.push(x).filter(p) == s.filter(p) + (if p(x) {
            seq![x]
        } else {
            Seq::<A>::empty()
        }),
{
    reveal(Seq::filter);
    assert(s.push(x).drop_last() =~= s);
    assert(s.push(x).last() == x);
    if p(x) {
        assert(s.filter(p).push(x) =~= s.filter(p) + seq![x]);
    } else {
        assert(s.filter(p) =~= s.filter(p) + Seq::<A>::empty());
    }
}

/// Every element of a filtered sequence occurs in the sequence it was
/// filtered from.
proof fn lemma_filter_members<A>(s: Seq<A>, p: spec_fn(A) -> bool)
    ensures
        forall|i: int| 0 <= i < s.filter(p).len() ==> s.contains(#[trigger] s.filter(p)[i]),
    decreases s.len(),
{
    reveal(Seq::filter);
    if s.len() > 0 {
        lemma_filter_members(s.drop_last(), p);
        let f = s.filter(p);
        let fd = s.drop_last().filter(p);
        assert forall|i: int| 0 <= i < f.len() implies s.contains(f[i]) by {
            if i < fd.len() {
                assert(s.drop_last().contains(fd[i]));
                let j = choose|j: int|
                    0 <= j < s.drop_last().len() && s.drop_last()[j] == fd[i];
                assert(s[j] == fd[i]);
            } else {
                assert(f[i] == s.last());
                assert(s[s.len() - 1] == s.last());
            }
        }
    }
}

/// The hot filter yields exactly the subset of a timeline's layers whose
/// `cold` flag is false: every yielded layer is hot and occurs in the
/// original sequence, every hot layer of the original occurs in the yield,
/// and the yield is never longer than the original. The filter definition
/// itself fixes the relative order: it walks the original left to right.
pub proof fn lemma_hot_filter(layers: Seq<LayerV>)
    ensures
        forall|i: int|
            0 <= i < hot_of(layers).len() ==> !(#[trigger] hot_of(layers)[i]).cold && layers.contains(
                hot_of(layers)[i],
            ),
        forall|i: int|
            0 <= i < layers.len() && !(#[trigger] layers[i]).cold ==> hot_of(layers).contains(
                layers[i],
            ),
        hot_of(layers).len() <= layers.len(),
{
    broadcast use vstd::seq_lib::group_filter_ensures;

    lemma_filter_members(layers, |l: LayerV| !l.cold);
}

/// Mathematical model of one tenant descriptor.
#[verifier::ext_equal]
pub ghost struct TenantV {
    pub generation: Generation,
    pub timelines: Seq<TimelineV>,
    pub upload_period_ms: Option<u128>,
}

/// The top-level descriptor a primary publishes: a generation hint, an
/// optional advertised upload period in milliseconds (absent means no
/// periodic schedule is configured), and the timelines.
#[derive(Debug, PartialEq)]
pub struct HeatMapTenant {
    pub generation: Generation,
    pub timelines: Vec<HeatMapTimeline>,
    pub upload_period_ms: Option<u128>,
}

impl View for HeatMapTenant {
    type V = TenantV;

    open spec fn view(&self) -> TenantV {
        TenantV {
            generation: self.generation,
            timelines: self.timelines@.map_values(|t: HeatMapTimeline| t@),
            upload_period_ms: self.upload_period_ms,
        }
    }
}

/// Aggregate statistics over the hot layers of a tenant descriptor.
#[derive(Debug, PartialEq)]
pub struct HeatMapStats {
    pub bytes: u64,
    pub layers: usize,
}

/// Total byte size of the hot layers of one sequence of layers.
pub open spec fn sum_hot_bytes(layers: Seq<LayerV>) -> nat
    decreases layers.len(),
{
    if layers.len() == 0 {
        0
    } else {
        sum_hot_bytes(layers.drop_last()) + (if !layers.last().cold {
            layers.last().file_size as nat
        } else {
            0
        })
    }
}

/// Number of hot layers of one sequence of layers.
pub open spec fn count_hot(layers: Seq<LayerV>) -> nat
    decreases layers.len(),
{
    if layers.len() == 0 {
        0
    } else {
        count_hot(layers.drop_last()) + (if !layers.last().cold {
            1nat
        } else {
            0
        })
    }
}

/// Total byte size of the hot layers over all timelines of a tenant.
pub open spec fn tenant_hot_bytes(timelines: Seq<TimelineV>) -> nat
    decreases timelines.len(),
{
    if timelines.len() == 0 {
        0
    } else {
        tenant_hot_bytes(timelines.drop_last()) + sum_hot_bytes(timelines.last().layers)
    }
}

/// Number of hot layers over all timelines of a tenant.
pub open spec fn tenant_hot_count(timelines: Seq<TimelineV>) -> nat
    decreases timelines.len(),
{
    if timelines.len() == 0 {
        0
    } else {
        tenant_hot_count(timelines.drop_last()) + count_hot(timelines.last().layers)
    }
}

proof fn lemma_sum_take_step(layers: Seq<LayerV>, j: int)
    requires
        0 <= j < layers.len(),
    ensures
        sum_hot_bytes(layers.take(j + 1)) == sum_hot_bytes(layers.take(j)) + (if !layers[j].cold {
            layers[j].file_size as nat
        } else {
            0
        }),
        count_hot(layers.take(j + 1)) == count_hot(layers.take(j)) + (if !layers[j].cold {
            1nat
        } else {
            0
        }),
{
    assert(layers.take(j + 1).drop_last() =~= layers.take(j));
    assert(layers.take(j + 1).last() == layers[j]);
}

proof fn lemma_tenant_take_step(timelines: Seq<TimelineV>, i: int)
    requires
        0 <= i < timelines.len(),
    ensures
        tenant_hot_bytes(timelines.take(i + 1)) == tenant_hot_bytes(timelines.take(i))
            + sum_hot_bytes(timelines[i].layers),
        tenant_hot_count(timelines.take(i + 1)) == tenant_hot_count(timelines.take(i)) + count_hot(
            timelines[i].layers,
        ),
{
    assert(timelines.take(i + 1).drop_last() =~= timelines.take(i));
    assert(timelines.take(i + 1).last() == timelines[i]);
}

proof fn lemma_sum_take_le(layers: Seq<LayerV>, j: int)
    requires
        0 <= j <= layers.len(),
    ensures
        sum_hot_bytes(layers.take(j)) <= sum_hot_bytes(layers),
        count_hot(layers.take(j)) <= count_hot(layers),
    decreases layers.len() - j,
{
    if j == layers.len() {
        assert(layers.take(j) =~= layers);
    } else {
        lemma_sum_take_step(layers, j);
        lemma_sum_take_le(layers, j + 1);
    }
}

proof fn lemma_tenant_take_le(timelines: Seq<TimelineV>, i: int)
    requires
        0 <= i <= timelines.len(),
    ensures
        tenant_hot_bytes(timelines.take(i)) <= tenant_hot_bytes(timelines),
        tenant_hot_count(timelines.take(i)) <= tenant_hot_count(timelines),
    decreases timelines.len() - i,
{
    if i == timelines.len() {
        assert(timelines.take(i) =~= timelines);
    } else {
        lemma_tenant_take_step(timelines, i);
        lemma_tenant_take_le(timelines, i + 1);
    }
}

/// The aggregate statistics count exactly the hot layers: the hot count of
/// a layer sequence is the length of its hot filter, and its hot byte total
/// is unchanged by first discarding the cold layers.
pub proof fn lemma_stats_count_hot_filter(layers: Seq<LayerV>)
    ensures
        count_hot(layers) == hot_of(layers).len(),
        sum_hot_bytes(layers) == sum_hot_bytes(hot_of(layers)),
    decreases layers.len(),
{
    reveal(Seq::filter);
    if layers.len() > 0 {
        lemma_stats_count_hot_filter(layers.drop_last());
        if !layers.last().cold {
            assert(hot_of(layers) == hot_of(layers.drop_last()).push(layers.last()));
            assert(hot_of(layers).drop_last() =~= hot_of(layers.drop_last()));
            assert(hot_of(layers).last() == layers.last());
        } else {
            assert(hot_of(layers) == hot_of(layers.drop_last()));
        }
    }
}

/// The recursive index of a sequence of timelines by their ids, later
/// entries overwriting earlier ones (last wins).
pub open spec fn timelines_index(timelines: Seq<TimelineV>) -> Map<TimelineId, TimelineV>
    decreases timelines.len(),
{
    if timelines.len() == 0 {
        Map::empty()
    } else {
        timelines_index(timelines.drop_last()).insert(
            timelines.last().timeline_id,
            timelines.last(),
        )
    }
}


/// The timeline index is exact and last-wins: an id is present exactly when
/// some timeline carries it, and each id maps to the timeline at its last
/// occurrence in source order.
pub proof fn lemma_timelines_index_last_wins(timelines: Seq<TimelineV>)
    ensures
        forall|id: TimelineId|
            timelines_index(timelines).contains_key(id) <==> exists|k: int|
                0 <= k < timelines.len() && (#[trigger] timelines[k]).timeline_id == id,
        forall|k: int|
            0 <= k < timelines.len() && (forall|m: int|
                k < m < timelines.len() ==> (#[trigger] timelines[m]).timeline_id
                    != timelines[k].timeline_id) ==> timelines_index(timelines)[(
            #[trigger] timelines[k]).timeline_id] == timelines[k],
    decreases timelines.len(),
{
    if timelines.len() > 0 {
        let prefix = timelines.drop_last();
        let last = timelines.last();
        let n = timelines.len() as int;
        lemma_timelines_index_last_wins(prefix);
        assert(timelines_index(timelines) == timelines_index(prefix).insert(
            last.timeline_id,
            last,
        ));
        assert forall|id: TimelineId| timelines_index(timelines).contains_key(id) implies exists|
            k: int,
        | 0 <= k < timelines.len() && (#[trigger] timelines[k]).timeline_id == id by {
            if id == last.timeline_id {
                assert(timelines[n - 1].timeline_id == id);
            } else {
                assert(timelines_index(prefix).contains_key(id));
                let k = choose|k: int|
                    0 <= k < prefix.len() && (#[trigger] prefix[k]).timeline_id == id;
                assert(prefix[k] == timelines[k]);
                assert(timelines[k].timeline_id == id);
            }
        }
        assert forall|id: TimelineId|
            (exists|k: int|
                0 <= k < timelines.len() && (#[trigger] timelines[k]).timeline_id
                    == id) implies timelines_index(timelines).contains_key(id) by {
            let k = choose|k: int|
                0 <= k < timelines.len() && (#[trigger] timelines[k]).timeline_id == id;
            if k < n - 1 {
                assert(prefix[k] == timelines[k]);
                assert(prefix[k].timeline_id == id);
                assert(timelines_index(prefix).contains_key(id));
            } else {
                assert(id == last.timeline_id);
            }
        }
        assert forall|k: int|
            0 <= k < timelines.len() && (forall|m: int|
                k < m < timelines.len() ==> (#[trigger] timelines[m]).timeline_id
                    != timelines[k].timeline_id) implies timelines_index(timelines)[(
        timelines[k]).timeline_id] == timelines[k] by {
            if k == n - 1 {
                assert(timelines_index(timelines)[last.timeline_id] == last);
            } else {
                assert(prefix[k] == timelines[k]);
                assert(forall|m: int|
                    k < m < prefix.len() ==> (#[trigger] prefix[m]).timeline_id
                        != prefix[k].timeline_id);
                assert(timelines_index(prefix)[prefix[k].timeline_id] == prefix[k]);
                assert(timelines[n - 1].timeline_id != timelines[k].timeline_id);
                assert(last.timeline_id != prefix[k].timeline_id);
            }
        }
    }
}

impl HeatMapTenant {
    /// Consumes the descriptor and indexes its timelines by id. If two
    /// timelines share an id, the later one in the source order wins;
    /// producers are expected never to emit duplicates, and this is
    /// accepted rather than rejected.
    pub fn into_timelines_index(self) -> (r: HashMap<TimelineId, HeatMapTimeline>)
        ensures
            r@.map_values(|t: HeatMapTimeline| t@) == timelines_index(self@.timelines),
    {
        let ghost ts = self@.timelines;
        let mut rest = self.timelines;
        let mut r: HashMap<TimelineId, HeatMapTimeline> = HashMap::new();
        let mut k: usize = 0;
        proof {
            assert(ts.len() == rest.len());
        }
        while rest.len() > 0
            invariant
                k + rest.len() == ts.len(),
                ts.len() <= usize::MAX,
                rest@.map_values(|t: HeatMapTimeline| t@) == ts.skip(k as int),
                r@.map_values(|t: HeatMapTimeline| t@) == timelines_index(ts.take(k as int)),
            decreases rest.len(),
        {
            proof {
                assert(rest@.map_values(|t: HeatMapTimeline| t@)[0] == ts.skip(k as int)[0]);
                assert(ts.skip(k as int)[0] == ts[k as int]);
            }
            let ghost rest_old = rest@;
            let ghost r_old = r@;
            let tl = rest.remove(0);
            proof {
                assert(tl@ == rest_old.map_values(|t: HeatMapTimeline| t@)[0]);
                assert(rest@.map_values(|t: HeatMapTimeline| t@) =~= ts.skip(k + 1));
            }
            r.insert(tl.timeline_id, tl);
            proof {
                assert(ts.take(k + 1).drop_last() =~= ts.take(k as int));
                assert(ts.take(k + 1).last() == ts[k as int]);
                assert(r@.map_values(|t: HeatMapTimeline| t@) =~= timelines_index(
                    ts.take(k as int),
                ).insert(ts[k as int].timeline_id, ts[k as int]));
            }
            k = k + 1;
        }
        proof {
            assert(ts.take(k as int) =~= ts);
        }
        r
    }

    /// Aggregate statistics over the hot layers: their count and their total
    /// byte size. Cold layers are excluded by definition. Read-only.
    ///
    /// The totals must fit the machine's widths; at fleet scale a 64-bit
    /// byte total holds exabytes, so this is not a practical restriction.
    pub fn get_stats(&self) -> (r: HeatMapStats)
        requires
            tenant_hot_bytes(self@.timelines) <= u64::MAX,
            tenant_hot_count(self@.timelines) <= usize::MAX,
        ensures
            r.bytes == tenant_hot_bytes(self@.timelines),
            r.layers == tenant_hot_count(self@.timelines),
    {
        let ghost ts = self@.timelines;
        let mut bytes: u64 = 0;
        let mut layers: usize = 0;
        let n = self.timelines.len();
        for i in 0..n
            invariant
                n == self.timelines.len(),
                ts == self@.timelines,
                tenant_hot_bytes(ts) <= u64::MAX,
                tenant_hot_count(ts) <= usize::MAX,
                bytes == tenant_hot_bytes(ts.take(i as int)),
                layers == tenant_hot_count(ts.take(i as int)),
        {
            let tl = &self.timelines[i];
            proof {
                assert(self.timelines@.map_values(|t: HeatMapTimeline| t@)[i as int] == tl@);
            }
            let ghost ls = tl@.layers;
            let m = tl.layers.len();
            for j in 0..m
                invariant
                    m == tl.layers.len(),
                    ls == tl@.layers,
                    ts == self@.timelines,
                    0 <= i < ts.len(),
                    ts[i as int] == tl@,
                    tenant_hot_bytes(ts) <= u64::MAX,
                    tenant_hot_count(ts) <= usize::MAX,
                    bytes == tenant_hot_bytes(ts.take(i as int)) + sum_hot_bytes(
                        ls.take(j as int),
                    ),
                    layers == tenant_hot_count(ts.take(i as int)) + count_hot(ls.take(j as int)),
            {
                proof {
                    assert(tl.layers@.map_values(|l: HeatMapLayer| l@)[j as int] == tl.layers@[j as int]@);
                    lemma_sum_take_step(ls, j as int);
                    lemma_sum_take_le(ls, j + 1);
                    lemma_tenant_take_step(ts, i as int);
                    lemma_tenant_take_le(ts, i + 1);
                }
                if !tl.layers[j].cold {
                    bytes = bytes + tl.layers[j].metadata.file_size;
                    layers = layers + 1;
                }
            }
            proof {
                assert(ls.take(m as int) =~= ls);
                lemma_tenant_take_step(ts, i as int);
            }
        }
        proof {
            assert(ts.take(n as int) =~= ts);
        }
        HeatMapStats { bytes, layers }
    }

    /// Consumes the descriptor and returns it with every layer's access
    /// time reset to the epoch start. Generation, upload period, and the
    /// order and content of timelines and layers are untouched.
    pub fn strip_atimes(self) -> (r: HeatMapTenant)
        ensures
            r@ == strip_tenant(self@),
    {
        let ghost ts = self@.timelines;
        let generation = self.generation;
        let upload_period_ms = self.upload_period_ms;
        let mut rest = self.timelines;
        let mut out: Vec<HeatMapTimeline> = Vec::new();
        let mut k: usize = 0;
        proof {
            assert(ts.len() == rest.len());
        }
        while rest.len() > 0
            invariant
                k + rest.len() == ts.len(),
                ts.len() <= usize::MAX,
                rest@.map_values(|t: HeatMapTimeline| t@) == ts.skip(k as int),
                out@.map_values(|t: HeatMapTimeline| t@) == ts.take(k as int).map_values(
                    |t: TimelineV| strip_timeline(t),
                ),
            decreases rest.len(),
        {
            proof {
                assert(rest@.map_values(|t: HeatMapTimeline| t@)[0] == ts.skip(k as int)[0]);
                assert(ts.skip(k as int)[0] == ts[k as int]);
            }
            let ghost rest_old = rest@;
            let ghost out_old = out@;
            let tl = rest.remove(0);
            proof {
                assert(tl@ == rest_old.map_values(|t: HeatMapTimeline| t@)[0]);
                assert(rest@.map_values(|t: HeatMapTimeline| t@) =~= ts.skip(k + 1));
            }
            let stripped = tl.strip_atimes_tl();
            out.push(stripped);
            proof {
                assert(out@.map_values(|t: HeatMapTimeline| t@) =~= out_old.map_values(
                    |t: HeatMapTimeline| t@,
                ).push(strip_timeline(ts[k as int])));
                assert(out@.map_values(|t: HeatMapTimeline| t@) =~= ts.take(k + 1).map_values(
                    |t: TimelineV| strip_timeline(t),
                ));
            }
            k = k + 1;
        }
        proof {
            assert(ts.take(k as int) =~= ts);
        }
        let r = HeatMapTenant { generation, timelines: out, upload_period_ms };
        proof {
            assert(r@ =~= strip_tenant(self@));
        }
        r
    }
}

impl HeatMapTimeline {
    /// One timeline of `strip_atimes`: the same layers with every access
    /// time reset to the epoch start.
    fn strip_atimes_tl(self) -> (r: HeatMapTimeline)
        ensures
            r@ == strip_timeline(self@),
    {
        let ghost ls = self@.layers;
        let timeline_id = self.timeline_id;
        let mut rest = self.layers;
        let mut out: Vec<HeatMapLayer> = Vec::new();
        let mut k: usize = 0;
        proof {
            assert(ls.len() == rest.len());
        }
        while rest.len() > 0
            invariant
                k + rest.len() == ls.len(),
                ls.len() <= usize::MAX,
                rest@.map_values(|l: HeatMapLayer| l@) == ls.skip(k as int),
                out@.map_values(|l: HeatMapLayer| l@) == ls.take(k as int).map_values(
                    |l: LayerV| strip_layer(l),
                ),
            decreases rest.len(),
        {
            proof {
                assert(rest@.map_values(|l: HeatMapLayer| l@)[0] == ls.skip(k as int)[0]);
                assert(ls.skip(k as int)[0] == ls[k as int]);
            }
            let ghost rest_old = rest@;
            let ghost out_old = out@;
            let l = rest.remove(0);
            proof {
                assert(l@ == rest_old.map_values(|l: HeatMapLayer| l@)[0]);
                assert(rest@.map_values(|l: HeatMapLayer| l@) =~= ls.skip(k + 1));
            }
            let stripped = HeatMapLayer {
                name: l.name,
                metadata: l.metadata,
                access_time: 0,
                cold: l.cold,
            };
            out.push(stripped);
            proof {
                assert(out@.map_values(|l: HeatMapLayer| l@) =~= out_old.map_values(
                    |l: HeatMapLayer| l@,
                ).push(strip_layer(ls[k as int])));
                assert(out@.map_values(|l: HeatMapLayer| l@) =~= ls.take(k + 1).map_values(
                    |l: LayerV| strip_layer(l),
                ));
            }
            k = k + 1;
        }
        proof {
            assert(ls.take(k as int) =~= ls);
        }
        let r = HeatMapTimeline { timeline_id, layers: out };
        proof {
            assert(r@ =~= strip_timeline(self@));
        }
        r
    }
}

/// One layer after access-time normalization: the access time is the epoch
/// start, everything else is unchanged.
pub open spec fn strip_layer(l: LayerV) -> LayerV {
    LayerV { name: l.name, file_size: l.file_size, access_time: 0, cold: l.cold }
}

/// One timeline after access-time normalization.
pub open spec fn strip_timeline(t: TimelineV) -> TimelineV {
    TimelineV { timeline_id: t.timeline_id, layers: t.layers.map_values(|l: LayerV| strip_layer(l)) }
}

/// A tenant descriptor after access-time normalization.
pub open spec fn strip_tenant(t: TenantV) -> TenantV {
    TenantV {
        generation: t.generation,
        timelines: t.timelines.map_values(|tl: TimelineV| strip_timeline(tl)),
        upload_period_ms: t.upload_period_ms,
    }
}

/// Access-time normalization is idempotent: a second pass changes nothing.
/// After one pass every layer's access time is the epoch start, and the
/// generation and the upload period are those of the input.
pub proof fn lemma_strip_atimes_idempotent(t: TenantV)
    ensures
        strip_tenant(strip_tenant(t)) == strip_tenant(t),
        strip_tenant(t).generation == t.generation,
        strip_tenant(t).upload_period_ms == t.upload_period_ms,
        forall|i: int, j: int|
            0 <= i < strip_tenant(t).timelines.len() && 0 <= j
                < strip_tenant(t).timelines[i].layers.len() ==> (#[trigger] strip_tenant(
                t,
            ).timelines[i].layers[j]).access_time == 0,
{
    let s = strip_tenant(t);
    assert forall|i: int| 0 <= i < s.timelines.len() implies #[trigger] strip_timeline(
        s.timelines[i],
    ) == s.timelines[i] by {
        assert(s.timelines[i].layers =~= t.timelines[i].layers.map_values(
            |l: LayerV| strip_layer(l),
        ));
        assert(strip_timeline(s.timelines[i]).layers =~= s.timelines[i].layers);
    }
    assert(strip_tenant(s).timelines =~= s.timelines);
    assert(strip_tenant(s) =~= s);
}

} // verus!
