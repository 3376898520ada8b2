//! Pairing up the points of two series so that they can be correlated.

use vstd::prelude::*;
use crate::btsf::{BinaryTimeSeries, Point};

verus! {

/// Two series need at least this many points, and this many paired points, to be
/// compared.
pub const MIN_OVERLAP: usize = 5;

/// How the value of the other series is found for one point of the base series.
/// Values are float32 bit patterns; offsets are in the series' time unit.
#[derive(Clone, Copy, PartialEq, Eq, Structural, Debug)]
pub enum Pairing {
    /// The other series has a point at the same time, holding `other`.
    Exact { base: u32, other: u32 },
    /// The time lies after a point of the other series holding `before` and not
    /// after the next one, holding `after`: the value is interpolated with the ratio
    /// `time_offset / point_offset`.
    Between { base: u32, before: u32, after: u32, time_offset: i64, point_offset: i64 },
}

/// Where the search in `other` stops for time `t` when it starts at `s`: it moves
/// forward while the current point is earlier than `t`, there is a next point, and
/// that next point is not later than `t`.
pub open spec fn advance(other: Seq<Point>, s: int, t: i32) -> int
    decreases other.len() - s,
{
    if 0 <= s < other.len() - 1 && other[s].t < t && other[s + 1].t <= t {
        advance(other, s + 1, t)
    } else {
        s
    }
}

/// The pairing produced for base point `p` when the search in `other` stands at `s`.
pub open spec fn pairing_for(other: Seq<Point>, s: int, p: Point) -> Seq<Pairing> {
    if other[s].t == p.t {
        seq![Pairing::Exact { base: p.val, other: other[s].val }]
    } else if s < other.len() - 1 && other[s].t < p.t {
        seq![
            Pairing::Between {
                base: p.val,
                before: other[s].val,
                after: other[s + 1].val,
                time_offset: (p.t - other[s].t) as i64,
                point_offset: (other[s + 1].t - other[s].t) as i64,
            },
        ]
    } else {
        seq![]
    }
}

/// The search position and the pairings after the first `k` base points.
pub open spec fn scan(base: Seq<Point>, other: Seq<Point>, k: nat) -> (int, Seq<Pairing>)
    decreases k,
{
    if k == 0 {
        (0, seq![])
    } else {
        let (s0, out) = scan(base, other, (k - 1) as nat);
        let s = advance(other, s0, base[k - 1].t);
        (s, out + pairing_for(other, s, base[k - 1]))
    }
}

proof fn lemma_advance_range(other: Seq<Point>, s: int, t: i32)
    requires
        0 <= s < other.len(),
    ensures
        s <= advance(other, s, t) < other.len(),
    decreases other.len() - s,
{
    if 0 <= s < other.len() - 1 && other[s].t < t && other[s + 1].t <= t {
        lemma_advance_range(other, s + 1, t);
    }
}

/// Pairs each point of `base`, in order, with a value of `other`: the value at the
/// same time, or one interpolated between the two points around it. The search in
/// `other` only moves forward, so points are found as in a merge of two series
/// sorted by time.
pub fn interpolate(base: &[Point], other: &[Point]) -> (r: Vec<Pairing>)
    requires
        other@.len() > 0,
    ensures
        r@ == scan(base@, other@, base@.len()).1,
{
    let mut base_data: Vec<Pairing> = Vec::new();
    let mut search_index: usize = 0;
    let mut k: usize = 0;
    while k < base.len()
        invariant
            k <= base@.len(),
            other@.len() > 0,
            search_index < other@.len(),
            search_index == scan(base@, other@, k as nat).0,
            base_data@ == scan(base@, other@, k as nat).1,
        decreases base@.len() - k,
    {
        let data_point = base[k];
        let ghost target = advance(other@, search_index as int, data_point.t);
        while other[search_index].t < data_point.t && search_index < other.len() - 1
            && other[search_index + 1].t <= data_point.t
            invariant
                search_index < other@.len(),
                advance(other@, search_index as int, data_point.t) == target,
            decreases other@.len() - search_index,
        {
            search_index = search_index + 1;
        }
        let ghost before = base_data@;
        if other[search_index].t == data_point.t {
            base_data.push(Pairing::Exact { base: data_point.val, other: other[search_index].val });
        } else if search_index < other.len() - 1 && other[search_index].t < data_point.t {
            let lo = other[search_index];
            let hi = other[search_index + 1];
            base_data.push(
                Pairing::Between {
                    base: data_point.val,
                    before: lo.val,
                    after: hi.val,
                    time_offset: (data_point.t as i64) - (lo.t as i64),
                    point_offset: (hi.t as i64) - (lo.t as i64),
                },
            );
        }
        proof {
            let s = search_index as int;
            assert(base_data@ =~= before + pairing_for(other@, s, data_point));
        }
        k = k + 1;
    }
    proof {
        assert(base@.subrange(0, base@.len() as int) =~= base@);
    }
    base_data
}

/// What `pairinate` gives: nothing when either series has fewer than
/// `MIN_OVERLAP` points or fewer than that many points get paired, else the
/// pairings.
pub open spec fn pairinate_spec(base: Seq<Point>, other: Seq<Point>) -> Option<Seq<Pairing>> {
    if base.len() < MIN_OVERLAP || other.len() < MIN_OVERLAP {
        None
    } else {
        let ps = scan(base, other, base.len()).1;
        if ps.len() < MIN_OVERLAP {
            None
        } else {
            Some(ps)
        }
    }
}

/// Pairs the points of `base` with values of `other`, when there is enough of
/// both to compare them.
pub fn pairinate(base: &BinaryTimeSeries, other: &BinaryTimeSeries) -> (r: Option<Vec<Pairing>>)
    ensures
        pairinate_spec(base.data@, other.data@) == (match r {
            Some(v) => Some(v@),
            None => None,
        }),
{
    if base.data.len() < MIN_OVERLAP || other.data.len() < MIN_OVERLAP {
        return None;
    }
    let bs = interpolate(base.data.as_slice(), other.data.as_slice());
    if bs.len() < MIN_OVERLAP {
        return None;
    }
    Some(bs)
}

/// Times strictly increase along the series.
pub open spec fn strictly_increasing(ps: Seq<Point>) -> bool {
    forall|i: int, j: int| 0 <= i < j < ps.len() ==> ps[i].t < ps[j].t
}

/// Times never decrease along the series.
pub open spec fn nondecreasing(ps: Seq<Point>) -> bool {
    forall|i: int, j: int| 0 <= i < j < ps.len() ==> ps[i].t <= ps[j].t
}

/// The index of the last of the first `n` points of `other` that is not later than
/// `t`, or 0 when there is none.
pub open spec fn last_at_or_before(other: Seq<Point>, t: i32, n: nat) -> int
    decreases n,
{
    if n == 0 {
        0
    } else if other[n - 1].t <= t {
        n - 1
    } else {
        last_at_or_before(other, t, (n - 1) as nat)
    }
}

/// The point of `other` that time `t` is measured from.
pub open spec fn bracket(other: Seq<Point>, t: i32) -> int {
    last_at_or_before(other, t, other.len())
}

/// Each of the first `k` base points paired from its own bracket in `other`.
pub open spec fn bracket_pairings(base: Seq<Point>, other: Seq<Point>, k: nat) -> Seq<Pairing>
    decreases k,
{
    if k == 0 {
        seq![]
    } else {
        bracket_pairings(base, other, (k - 1) as nat) + pairing_for(
            other,
            bracket(other, base[k - 1].t),
            base[k - 1],
        )
    }
}

proof fn lemma_last_at_or_before(other: Seq<Point>, t: i32, n: nat)
    requires
        0 < n <= other.len(),
    ensures
        0 <= last_at_or_before(other, t, n) < n,
        other[last_at_or_before(other, t, n)].t <= t || (last_at_or_before(other, t, n) == 0
            && forall|j: int| 0 <= j < n ==> other[j].t > t),
        forall|j: int| last_at_or_before(other, t, n) < j < n ==> other[j].t > t,
    decreases n,
{
    if n == 1 {
        assert(last_at_or_before(other, t, 0) == 0);
    } else if other[n - 1].t > t {
        lemma_last_at_or_before(other, t, (n - 1) as nat);
    }
}

proof fn lemma_advance_to_bracket(other: Seq<Point>, s: int, t: i32)
    requires
        other.len() > 0,
        strictly_increasing(other),
        0 <= s <= bracket(other, t),
    ensures
        advance(other, s, t) == bracket(other, t),
    decreases other.len() - s,
{
    lemma_last_at_or_before(other, t, other.len());
    let b = bracket(other, t);
    if s < b {
        assert(other[s].t < other[s + 1].t);
        assert(other[s + 1].t <= other[b].t);
        lemma_advance_to_bracket(other, s + 1, t);
    } else {
        if b < other.len() - 1 {
            assert(other[b + 1].t > t);
        }
    }
}

proof fn lemma_bracket_monotone(other: Seq<Point>, t1: i32, t2: i32)
    requires
        other.len() > 0,
        strictly_increasing(other),
        t1 <= t2,
    ensures
        bracket(other, t1) <= bracket(other, t2),
{
    lemma_last_at_or_before(other, t1, other.len());
    lemma_last_at_or_before(other, t2, other.len());
}

/// For a base series whose times never decrease and another whose times strictly
/// increase, every base point is paired as it would be on its own, from the last
/// point of the other series that is not later than it: the forward-only search
/// misses nothing.
pub proof fn lemma_sorted_pairings(base: Seq<Point>, other: Seq<Point>)
    requires
        other.len() > 0,
        nondecreasing(base),
        strictly_increasing(other),
    ensures
        scan(base, other, base.len()).1 == bracket_pairings(base, other, base.len()),
{
    lemma_sorted_scan(base, other, base.len());
}

proof fn lemma_sorted_scan(base: Seq<Point>, other: Seq<Point>, k: nat)
    requires
        other.len() > 0,
        k <= base.len(),
        nondecreasing(base),
        strictly_increasing(other),
    ensures
        scan(base, other, k).1 == bracket_pairings(base, other, k),
        k > 0 ==> scan(base, other, k).0 == bracket(other, base[k - 1].t),
        k == 0 ==> scan(base, other, k).0 == 0,
    decreases k,
{
    if k > 0 {
        lemma_sorted_scan(base, other, (k - 1) as nat);
        let t = base[k - 1].t;
        let s0 = scan(base, other, (k - 1) as nat).0;
        lemma_last_at_or_before(other, t, other.len());
        if k > 1 {
            assert(base[k - 2].t <= base[k - 1].t);
            lemma_bracket_monotone(other, base[k - 2].t, t);
            lemma_last_at_or_before(other, base[k - 2].t, other.len());
        }
        lemma_advance_to_bracket(other, s0, t);
    }
}

/// For another series whose times strictly increase, the pairing of a base point
/// is: the value of the other series at the same time when there is one; else the
/// interpolation between the two neighbouring points around its time; and nothing
/// when its time lies before the first or after the last point.
pub proof fn lemma_bracket_pairing(other: Seq<Point>, p: Point)
    requires
        other.len() > 0,
        strictly_increasing(other),
    ensures
        forall|j: int|
            0 <= j < other.len() && #[trigger] other[j].t == p.t ==> pairing_for(
                other,
                bracket(other, p.t),
                p,
            ) == seq![Pairing::Exact { base: p.val, other: other[j].val }],
        forall|j: int|
            0 <= j < other.len() - 1 && #[trigger] other[j].t < p.t < other[j + 1].t
                ==> pairing_for(other, bracket(other, p.t), p) == seq![
                Pairing::Between {
                    base: p.val,
                    before: other[j].val,
                    after: other[j + 1].val,
                    time_offset: (p.t - other[j].t) as i64,
                    point_offset: (other[j + 1].t - other[j].t) as i64,
                },
            ],
        p.t < other[0].t || p.t > other[other.len() - 1].t ==> pairing_for(
            other,
            bracket(other, p.t),
            p,
        ) == Seq::<Pairing>::empty(),
{
    lemma_last_at_or_before(other, p.t, other.len());
    let b = bracket(other, p.t);
    assert forall|j: int|
        0 <= j < other.len() && #[trigger] other[j].t == p.t implies b == j by {
        if j < b {
            assert(other[j].t < other[b].t);
        }
    }
    assert forall|j: int|
        0 <= j < other.len() - 1 && #[trigger] other[j].t < p.t < other[j + 1].t implies b == j by {
        if b > j + 1 {
            assert(other[j + 1].t < other[b].t);
        }
    }
    if p.t > other[other.len() - 1].t {
        assert(b == other.len() - 1);
    }
}

/// The first `k` base points whose time lies within the time span of `other`
/// (from its first to its last point), in order.
pub open spec fn points_in_span(base: Seq<Point>, other: Seq<Point>, k: nat) -> Seq<Point>
    decreases k,
{
    if k == 0 {
        seq![]
    } else if other[0].t <= base[k - 1].t <= other[other.len() - 1].t {
        points_in_span(base, other, (k - 1) as nat).push(base[k - 1])
    } else {
        points_in_span(base, other, (k - 1) as nat)
    }
}

proof fn lemma_bracket_in_span(other: Seq<Point>, p: Point)
    requires
        other.len() > 0,
        strictly_increasing(other),
    ensures
        pairing_for(other, bracket(other, p.t), p).len() == (if other[0].t <= p.t <= other[other.len()
            - 1].t {
            1int
        } else {
            0int
        }),
{
    lemma_last_at_or_before(other, p.t, other.len());
    let b = bracket(other, p.t);
    if p.t > other[other.len() - 1].t {
        assert(b == other.len() - 1);
    }
    if other[0].t <= p.t <= other[other.len() - 1].t {
        assert(other[b].t <= p.t);
        if other[b].t < p.t && b == other.len() - 1 {
            assert(false);
        }
    }
}

proof fn lemma_bracket_pairings_in_span(base: Seq<Point>, other: Seq<Point>, k: nat)
    requires
        other.len() > 0,
        k <= base.len(),
        strictly_increasing(other),
    ensures
        bracket_pairings(base, other, k) =~= points_in_span(base, other, k).map_values(
            (|p: Point| pairing_for(other, bracket(other, p.t), p)[0]),
        ),
    decreases k,
{
    if k > 0 {
        lemma_bracket_pairings_in_span(base, other, (k - 1) as nat);
        let p = base[k - 1];
        lemma_bracket_in_span(other, p);
        let one = pairing_for(other, bracket(other, p.t), p);
        if other[0].t <= p.t <= other[other.len() - 1].t {
            assert(one =~= seq![one[0]]);
        } else {
            assert(one =~= Seq::<Pairing>::empty());
        }
    }
}

/// The base points within the time span of `other`, in order.
pub open spec fn span_points(base: Seq<Point>, other: Seq<Point>) -> Seq<Point> {
    points_in_span(base, other, base.len())
}

/// Base point `p` paired with the value of other point `q` at the same time.
pub open spec fn exact_pairing(p: Point, q: Point) -> Pairing {
    Pairing::Exact { base: p.val, other: q.val }
}

/// Base point `p` paired between the other points `lo` and `hi` around its time.
pub open spec fn between_pairing(p: Point, lo: Point, hi: Point) -> Pairing {
    Pairing::Between {
        base: p.val,
        before: lo.val,
        after: hi.val,
        time_offset: (p.t - lo.t) as i64,
        point_offset: (hi.t - lo.t) as i64,
    }
}

/// For a base series whose times never decrease and another whose times strictly
/// increase, both with at least `MIN_OVERLAP` points, `pairinate` gives a pairing
/// exactly when at least `MIN_OVERLAP` base points lie within the other's time span.
/// The pairing then has one entry per such base point, in order: the value of the
/// other series at the same time when it has one, else the interpolation between
/// the two neighbouring points of the other series around that time.
pub proof fn lemma_pairinate_sorted(base: Seq<Point>, other: Seq<Point>)
    requires
        base.len() >= MIN_OVERLAP,
        other.len() >= MIN_OVERLAP,
        nondecreasing(base),
        strictly_increasing(other),
    ensures
        pairinate_spec(base, other) is Some <==> span_points(base, other).len() >= MIN_OVERLAP,
        pairinate_spec(base, other) matches Some(ps) ==> ps.len() == span_points(base, other).len(),
        pairinate_spec(base, other) matches Some(ps) ==> forall|k: int, j: int|
            #![trigger ps[k], other[j]]
            0 <= k < ps.len() && 0 <= j < other.len() && other[j].t == span_points(base, other)[k].t
                ==> ps[k] == exact_pairing(span_points(base, other)[k], other[j]),
        pairinate_spec(base, other) matches Some(ps) ==> forall|k: int, j: int|
            #![trigger ps[k], other[j]]
            0 <= k < ps.len() && 0 <= j < other.len() - 1 && other[j].t < span_points(base, other)[k].t
                < other[j + 1].t ==> ps[k] == between_pairing(
                span_points(base, other)[k],
                other[j],
                other[j + 1],
            ),
{
    lemma_sorted_pairings(base, other);
    lemma_bracket_pairings_in_span(base, other, base.len());
    let inside = span_points(base, other);
    let ps = scan(base, other, base.len()).1;
    assert(ps.len() == inside.len());
    assert forall|k: int, j: int|
        #![trigger ps[k], other[j]]
        0 <= k < ps.len() && 0 <= j < other.len() && other[j].t == inside[k].t implies ps[k]
            == exact_pairing(inside[k], other[j]) by {
        lemma_point_pairing(other, inside[k], ps[k]);
    }
    assert forall|k: int, j: int|
        #![trigger ps[k], other[j]]
        0 <= k < ps.len() && 0 <= j < other.len() - 1 && other[j].t < inside[k].t < other[j + 1].t
            implies ps[k] == between_pairing(inside[k], other[j], other[j + 1]) by {
        lemma_point_pairing(other, inside[k], ps[k]);
    }
}

proof fn lemma_point_pairing(other: Seq<Point>, p: Point, x: Pairing)
    requires
        other.len() > 0,
        strictly_increasing(other),
        x == pairing_for(other, bracket(other, p.t), p)[0],
    ensures
        forall|j: int|
            0 <= j < other.len() && #[trigger] other[j].t == p.t ==> x == exact_pairing(p, other[j]),
        forall|j: int|
            0 <= j < other.len() - 1 && #[trigger] other[j].t < p.t < other[j + 1].t ==> x
                == between_pairing(p, other[j], other[j + 1]),
{
    lemma_last_at_or_before(other, p.t, other.len());
    let b = bracket(other, p.t);
    assert forall|j: int|
        0 <= j < other.len() && #[trigger] other[j].t == p.t implies x == exact_pairing(p, other[j]) by {
        if j < b {
            assert(other[j].t < other[b].t);
        }
        assert(b == j);
    }
    assert forall|j: int|
        0 <= j < other.len() - 1 && #[trigger] other[j].t < p.t < other[j + 1].t implies x
            == between_pairing(p, other[j], other[j + 1]) by {
        if b > j + 1 {
            assert(other[j + 1].t < other[b].t);
        }
        assert(b == j);
    }
}

} // verus!
