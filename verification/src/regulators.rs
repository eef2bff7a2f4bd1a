use vstd::prelude::*;
use vstd::string::*;

use crate::types::Urgency;

verus! {

// Readings and zone bounds are handled by their order keys: integers that
// order as the readings do, with `None` for a reading that compares with
// nothing (not a number).

/// `a` comes no later than `b` when zones are ordered by their lower bound;
/// unordered bounds come last.
pub open spec fn key_le(a: Option<i64>, b: Option<i64>) -> bool {
    match (a, b) {
        (Some(x), Some(y)) => x <= y,
        (_, None) => true,
        (None, Some(_)) => false,
    }
}

/// A band of readings, from `low` included to `high` excluded, and the
/// action that it calls for.
#[derive(Debug, Clone)]
pub struct Zone {
    pub low: Option<i64>,
    pub high: Option<i64>,
    pub action: String,
}

/// The mathematical content of a [`Zone`].
pub struct ZoneView {
    pub low: Option<i64>,
    pub high: Option<i64>,
    pub action: Seq<char>,
}

impl View for Zone {
    type V = ZoneView;

    open spec fn view(&self) -> ZoneView {
        ZoneView { low: self.low, high: self.high, action: self.action@ }
    }
}

/// The views of a sequence of zones.
pub open spec fn zone_views(zones: Seq<Zone>) -> Seq<ZoneView> {
    zones.map_values(|z: Zone| z@)
}

/// The reading `current` lies in zone `z`.
pub open spec fn in_zone(z: ZoneView, current: Option<i64>) -> bool {
    match (z.low, z.high, current) {
        (Some(lo), Some(hi), Some(c)) => lo <= c && c < hi,
        _ => false,
    }
}

/// `p` places the zones of `input` at the positions of `out`: `out[i]` is
/// `input[p[i]]`, and every zone of `input` is placed exactly once.
pub open spec fn is_arrangement(input: Seq<ZoneView>, out: Seq<ZoneView>, p: Seq<int>) -> bool {
    &&& out.len() == input.len()
    &&& p.len() == input.len()
    &&& forall|i: int| 0 <= i < p.len() ==> 0 <= #[trigger] p[i] < input.len()
    &&& forall|i: int, j: int| 0 <= i < j < p.len() ==> #[trigger] p[i] != #[trigger] p[j]
    &&& forall|i: int| 0 <= i < out.len() ==> #[trigger] out[i] == input[p[i]]
}

/// `out` is `input` ordered by lower bound, zones with the same lower bound
/// keeping their order in `input`, through the arrangement `p`.
pub open spec fn is_stable_sort_by(input: Seq<ZoneView>, out: Seq<ZoneView>, p: Seq<int>) -> bool {
    &&& is_arrangement(input, out, p)
    &&& forall|i: int, j: int|
        0 <= i < j < out.len() ==> key_le(#[trigger] out[i].low, #[trigger] out[j].low)
    &&& forall|i: int, j: int|
        0 <= i < j < out.len() && #[trigger] out[i].low == #[trigger] out[j].low ==> p[i] < p[j]
}

/// `out` is `input` ordered by lower bound, stably.
pub open spec fn sorted_by_low(input: Seq<ZoneView>, out: Seq<ZoneView>) -> bool {
    exists|p: Seq<int>| is_stable_sort_by(input, out, p)
}

/// `i` is the first zone of `zones` in which `current` lies.
pub open spec fn first_zone_with(zones: Seq<ZoneView>, current: Option<i64>, i: int) -> bool {
    &&& 0 <= i < zones.len()
    &&& in_zone(zones[i], current)
    &&& forall|j: int| 0 <= j < i ==> !in_zone(zones[j], current)
}

/// The action named when a reading lies in no zone.
pub open spec fn unknown_zone_action() -> Seq<char> {
    seq!['u', 'n', 'k', 'n', 'o', 'w', 'n', '_', 'z', 'o', 'n', 'e']
}

/// Maps a reading to the action of the zone it lies in.
#[derive(Debug, Clone)]
pub struct ThresholdRegulator {
    pub metric: String,
    pub zones: Vec<Zone>,
}

impl ThresholdRegulator {
    /// A regulator for `metric` whose zones are ordered by lower bound; zones
    /// with the same lower bound keep the order in which they were given.
    pub fn new(metric: String, zones: Vec<Zone>) -> (r: ThresholdRegulator)
        ensures
            r.metric@ == metric@,
            sorted_by_low(zone_views(zones@), zone_views(r.zones@)),
            forall|i: int, j: int|
                0 <= i < j < r.zones@.len() && r.zones@[i].low is Some && r.zones@[j].low is Some
                    ==> r.zones@[i].low->0 <= r.zones@[j].low->0,
            forall|i: int, j: int|
                0 <= i < j < r.zones@.len() && r.zones@[i].low is None ==> r.zones@[j].low is None,
    {
        let ghost input = zone_views(zones@);
        let ghost n = zones.len();
        let mut pending = zones;
        let mut sorted: Vec<Zone> = Vec::new();
        let ghost mut p: Seq<int> = Seq::empty();
        let mut k: usize = 0;
        while pending.len() > 0
            invariant
                k + pending.len() == n,
                n == input.len(),
                zone_views(pending@) == input.skip(k as int),
                is_stable_sort_by(input.take(k as int), zone_views(sorted@), p),
            decreases pending.len(),
        {
            let ghost rest = pending@;
            let ghost before = zone_views(sorted@);
            let z = pending.remove(0);
            let ghost zv = z@;
            assert(zv == input[k as int]) by {
                assert(rest[0]@ == input.skip(k as int)[0]);
            }
            let pos = insertion_point(&sorted, z.low);
            sorted.insert(pos, z);
            proof {
                lemma_insert_keeps_stable_sort(input, k as int, before, p, pos as int);
                p = p.insert(pos as int, k as int);
                assert(zone_views(sorted@) =~= before.insert(pos as int, zv));
                assert forall|j: int| 0 <= j < pending@.len() implies pending@[j]@ == input.skip(
                    k + 1,
                )[j] by {
                    assert(pending@[j] == rest[j + 1]);
                    assert(rest[j + 1]@ == input.skip(k as int)[j + 1]);
                }
                assert(zone_views(pending@) =~= input.skip(k + 1));
            }
            k = k + 1;
        }
        assert(input.take(n as int) =~= input);
        proof {
            law_sorted_zones_ascend(input, zone_views(sorted@));
            assert forall|i: int, j: int|
                0 <= i < j < sorted@.len() && sorted@[i].low is Some && sorted@[j].low is Some
                    implies sorted@[i].low->0 <= sorted@[j].low->0 by {
                assert(zone_views(sorted@)[i] == sorted@[i]@);
                assert(zone_views(sorted@)[j] == sorted@[j]@);
            }
            assert forall|i: int, j: int|
                0 <= i < j < sorted@.len() && sorted@[i].low is None implies sorted@[j].low is None by {
                assert(zone_views(sorted@)[i] == sorted@[i]@);
                assert(zone_views(sorted@)[j] == sorted@[j]@);
            }
        }
        ThresholdRegulator { metric, zones: sorted }
    }

    /// The metric this regulator watches.
    pub fn metric_name(&self) -> (name: &str)
        ensures
            name@ == self.metric@,
    {
        self.metric.as_str()
    }

    /// The action of the first zone in which `current` lies, at medium
    /// urgency; when it lies in none, "unknown_zone" at critical urgency.
    pub fn regulate(&self, current: Option<i64>) -> (res: (String, Urgency))
        ensures
            forall|i: int|
                first_zone_with(zone_views(self.zones@), current, i) ==> res.0@ == zone_views(
                    self.zones@,
                )[i].action && res.1 == Urgency::Medium,
            (forall|i: int|
                0 <= i < self.zones@.len() ==> !in_zone(zone_views(self.zones@)[i], current)) ==> (
            res.0@ == unknown_zone_action() && res.1 == Urgency::Critical),
            res.1 == Urgency::Medium || res.1 == Urgency::Critical,
            res.1 == Urgency::Medium ==> exists|i: int|
                0 <= i < self.zones@.len() && #[trigger] self.zones@[i].low is Some
                    && self.zones@[i].high is Some && current is Some
                    && self.zones@[i].low->0 <= current->0 && current->0 < self.zones@[i].high->0
                    && res.0@ == self.zones@[i].action@ && forall|j: int|
                    0 <= j < i ==> !(self.zones@[j].low is Some && self.zones@[j].high is Some
                        && current is Some && self.zones@[j].low->0 <= current->0 && current->0
                        < self.zones@[j].high->0),
            res.1 == Urgency::Critical ==> res.0@ == unknown_zone_action(),
    {
        let ghost zs = zone_views(self.zones@);
        let mut i: usize = 0;
        while i < self.zones.len()
            invariant
                i <= self.zones.len(),
                zs == zone_views(self.zones@),
                forall|j: int| 0 <= j < i ==> !in_zone(zs[j], current),
            decreases self.zones.len() - i,
        {
            let z = &self.zones[i];
            let hit = match (z.low, z.high, current) {
                (Some(lo), Some(hi), Some(c)) => lo <= c && c < hi,
                _ => false,
            };
            if hit {
                assert(first_zone_with(zs, current, i as int));
                assert(self.zones@[i as int].low is Some);
                assert forall|j: int| 0 <= j < i implies !(self.zones@[j].low is Some
                    && self.zones@[j].high is Some && current is Some && self.zones@[j].low->0
                    <= current->0 && current->0 < self.zones@[j].high->0) by {
                    assert(zs[j] == self.zones@[j]@);
                }
                return (z.action.clone(), Urgency::Medium);
            }
            i = i + 1;
        }
        proof {
            reveal_strlit("unknown_zone");
        }
        (String::from_str("unknown_zone"), Urgency::Critical)
    }
}

/// The position before the first zone of `sorted` whose lower bound comes
/// strictly after `low`.
fn insertion_point(sorted: &Vec<Zone>, low: Option<i64>) -> (pos: usize)
    ensures
        pos <= sorted.len(),
        forall|j: int| 0 <= j < pos ==> key_le(#[trigger] sorted@[j]@.low, low),
        pos < sorted.len() ==> !key_le(sorted@[pos as int]@.low, low),
{
    let mut i: usize = 0;
    while i < sorted.len()
        invariant
            i <= sorted.len(),
            forall|j: int| 0 <= j < i ==> key_le(#[trigger] sorted@[j]@.low, low),
        decreases sorted.len() - i,
    {
        let before_or_tie = match (sorted[i].low, low) {
            (Some(x), Some(y)) => x <= y,
            (_, None) => true,
            (None, Some(_)) => false,
        };
        if !before_or_tie {
            return i;
        }
        i = i + 1;
    }
    i
}

/// Once the zones are ordered by lower bound, the zone that a reading is
/// regulated by has the lowest lower bound among the zones that hold it.
pub proof fn law_regulated_zone_has_lowest_bound(
    given: Seq<ZoneView>,
    zones: Seq<ZoneView>,
    current: Option<i64>,
    i: int,
    j: int,
)
    requires
        sorted_by_low(given, zones),
        first_zone_with(zones, current, i),
        0 <= j < zones.len(),
        in_zone(zones[j], current),
    ensures
        key_le(zones[i].low, zones[j].low),
{
    if i < j {
        let p = choose|p: Seq<int>| is_stable_sort_by(given, zones, p);
        assert(key_le(zones[i].low, zones[j].low));
    } else if i == j {
        assert(key_le(zones[i].low, zones[i].low));
    }
}

/// Zones ordered by lower bound ascend: a zone with an ordered lower bound
/// never follows one with a greater lower bound, and zones whose lower bound
/// is unordered come after all the others.
pub proof fn law_sorted_zones_ascend(given: Seq<ZoneView>, zones: Seq<ZoneView>)
    requires
        sorted_by_low(given, zones),
    ensures
        forall|i: int, j: int|
            0 <= i < j < zones.len() && zones[i].low is Some && zones[j].low is Some
                ==> #[trigger] zones[i].low->0 <= #[trigger] zones[j].low->0,
        forall|i: int, j: int|
            0 <= i < j < zones.len() && #[trigger] zones[i].low is None ==> #[trigger] zones[j].low
                is None,
{
    let p = choose|p: Seq<int>| is_stable_sort_by(given, zones, p);
    assert forall|i: int, j: int|
        0 <= i < j < zones.len() && zones[i].low is Some && zones[j].low is Some implies
        #[trigger] zones[i].low->0 <= #[trigger] zones[j].low->0 by {
        assert(key_le(zones[i].low, zones[j].low));
    }
    assert forall|i: int, j: int|
        0 <= i < j < zones.len() && #[trigger] zones[i].low is None implies #[trigger] zones[j].low
        is None by {
        assert(key_le(zones[i].low, zones[j].low));
    }
}

/// Ordering the zones neither drops nor invents any: the zones are the
/// given ones, as many of them.
pub proof fn law_sorted_zones_are_the_given_ones(given: Seq<ZoneView>, zones: Seq<ZoneView>)
    requires
        sorted_by_low(given, zones),
    ensures
        zones.len() == given.len(),
        forall|j: int| 0 <= j < zones.len() ==> given.contains(#[trigger] zones[j]),
        forall|i: int| 0 <= i < given.len() ==> zones.contains(#[trigger] given[i]),
{
    let p = choose|p: Seq<int>| is_stable_sort_by(given, zones, p);
    assert forall|j: int| 0 <= j < zones.len() implies given.contains(#[trigger] zones[j]) by {
        assert(zones[j] == given[p[j]]);
    }
    assert forall|i: int| 0 <= i < given.len() implies zones.contains(#[trigger] given[i]) by {
        lemma_arrangement_onto(p, given.len() as int, i);
        let j = choose|j: int| 0 <= j < p.len() && p[j] == i;
        assert(zones[j] == given[i]);
    }
}

/// Distinct positions in `0..n`, `n` of them, take every value of `0..n`.
proof fn lemma_arrangement_onto(p: Seq<int>, n: int, v: int)
    requires
        p.len() == n,
        forall|i: int| 0 <= i < p.len() ==> 0 <= #[trigger] p[i] < n,
        forall|i: int, j: int| 0 <= i < j < p.len() ==> #[trigger] p[i] != #[trigger] p[j],
        0 <= v < n,
    ensures
        exists|j: int| 0 <= j < p.len() && p[j] == v,
{
    if !(exists|j: int| 0 <= j < p.len() && p[j] == v) {
        // Then p maps n positions into the n - 1 values other than v.
        let s = p.to_set();
        let r = Set::new(|x: int| 0 <= x < n && x != v);
        assert(s.subset_of(r)) by {
            assert forall|x: int| s.contains(x) implies r.contains(x) by {
                let j = choose|j: int| 0 <= j < p.len() && p[j] == x;
            }
        }
        p.unique_seq_to_set();
        assert(r =~= vstd::set_lib::set_int_range(0, n).remove(v));
        vstd::set_lib::lemma_int_range(0, n);
        vstd::set_lib::lemma_len_subset(s, r);
    }
}

/// A reading below the lower bound of every zone lies in no zone, and so is
/// regulated as an unknown zone.
pub proof fn law_below_every_zone_is_outside(zones: Seq<ZoneView>, c: i64)
    requires
        forall|i: int| 0 <= i < zones.len() && #[trigger] zones[i].low is Some ==> c < zones[i].low->0,
    ensures
        forall|i: int| 0 <= i < zones.len() ==> !in_zone(#[trigger] zones[i], Some(c)),
{
}

/// A reading at or above the upper bound of every zone lies in no zone.
pub proof fn law_above_every_zone_is_outside(zones: Seq<ZoneView>, c: i64)
    requires
        forall|i: int|
            0 <= i < zones.len() && #[trigger] zones[i].high is Some ==> zones[i].high->0 <= c,
    ensures
        forall|i: int| 0 <= i < zones.len() ==> !in_zone(#[trigger] zones[i], Some(c)),
{
}

/// An unordered reading lies in no zone.
pub proof fn law_unordered_reading_is_outside(z: ZoneView)
    ensures
        !in_zone(z, None),
{
}

proof fn lemma_insert_keeps_stable_sort(
    input: Seq<ZoneView>,
    k: int,
    before: Seq<ZoneView>,
    p: Seq<int>,
    pos: int,
)
    requires
        0 <= k < input.len(),
        is_stable_sort_by(input.take(k), before, p),
        0 <= pos <= before.len(),
        forall|j: int| 0 <= j < pos ==> key_le(#[trigger] before[j].low, input[k].low),
        pos < before.len() ==> !key_le(before[pos].low, input[k].low),
    ensures
        is_stable_sort_by(input.take(k + 1), before.insert(pos, input[k]), p.insert(pos, k)),
{
    let inp = input.take(k + 1);
    let out = before.insert(pos, input[k]);
    let q = p.insert(pos, k);
    let e = input[k];
    // Zones after the insertion point come strictly after the inserted one.
    assert forall|j: int| pos <= j < before.len() implies !key_le(
        #[trigger] before[j].low,
        e.low,
    ) by {
        if j > pos {
            assert(key_le(before[pos].low, before[j].low));
        }
    }
    assert forall|i: int| 0 <= i < out.len() implies #[trigger] out[i] == inp[q[i]] by {
        if i < pos {
            assert(out[i] == before[i] && q[i] == p[i]);
        } else if i > pos {
            assert(out[i] == before[i - 1] && q[i] == p[i - 1]);
        }
    }
    assert forall|i: int| 0 <= i < q.len() implies 0 <= #[trigger] q[i] < inp.len() by {
        if i < pos {
            assert(q[i] == p[i]);
        } else if i > pos {
            assert(q[i] == p[i - 1]);
        }
    }
    assert forall|i: int, j: int| 0 <= i < j < q.len() implies #[trigger] q[i] != #[trigger] q[j] by {
        if i < pos {
            assert(q[i] == p[i]);
        } else if i > pos {
            assert(q[i] == p[i - 1]);
        }
        if j < pos {
            assert(q[j] == p[j]);
        } else if j > pos {
            assert(q[j] == p[j - 1]);
        }
    }
    assert forall|i: int, j: int| 0 <= i < j < out.len() implies key_le(
        #[trigger] out[i].low,
        #[trigger] out[j].low,
    ) by {
        if j < pos {
            assert(out[i] == before[i] && out[j] == before[j]);
        } else if j == pos {
            assert(out[i] == before[i]);
        } else if i == pos {
            assert(out[j] == before[j - 1]);
        } else if i < pos {
            assert(out[i] == before[i] && out[j] == before[j - 1]);
        } else {
            assert(out[i] == before[i - 1] && out[j] == before[j - 1]);
        }
    }
    assert forall|i: int, j: int|
        0 <= i < j < out.len() && #[trigger] out[i].low == #[trigger] out[j].low implies q[i]
        < q[j] by {
        if j < pos {
            assert(out[i] == before[i] && out[j] == before[j]);
            assert(q[i] == p[i] && q[j] == p[j]);
        } else if j == pos {
            assert(q[i] == p[i]);
        } else if i == pos {
            assert(out[j] == before[j - 1]);
            assert(key_le(e.low, e.low));
        } else if i < pos {
            assert(out[i] == before[i] && out[j] == before[j - 1]);
            assert(q[i] == p[i] && q[j] == p[j - 1]);
        } else {
            assert(out[i] == before[i - 1] && out[j] == before[j - 1]);
            assert(q[i] == p[i - 1] && q[j] == p[j - 1]);
        }
    }
}

} // verus!
