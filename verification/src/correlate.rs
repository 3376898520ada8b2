//! Preparing a query series for correlation against many others.

use vstd::prelude::*;
use crate::btsf::{BinaryTimeSeries, Point};

verus! {

/// Query series with at least this many points are thinned out before they are
/// correlated.
pub const QUERY_SERIES_SIZE_THRESH: usize = 256;

/// The points a query series is correlated with: all of them when there are fewer
/// than the threshold; else every `skip`-th point, starting with the first, where
/// `skip` is the number of points divided by the threshold.
pub open spec fn query_points(data: Seq<Point>) -> Seq<Point> {
    if data.len() < QUERY_SERIES_SIZE_THRESH {
        data
    } else {
        let skip: int = data.len() as int / QUERY_SERIES_SIZE_THRESH as int;
        Seq::new(((data.len() + skip - 1) / skip) as nat, |k: int| data[k * skip])
    }
}

proof fn lemma_thinned_count(len: int, skip: int, k: int)
    by (nonlinear_arith)
    requires
        len >= 256,
        skip == len / 256,
        k * skip >= len,
        (k - 1) * skip < len,
    ensures
        k == (len + skip - 1) / skip,
        256 <= k <= 511,
{
    assert(skip >= 1);
    assert(len < 256 * skip + 256);
}

/// The series a query is correlated with: the same name, and its points thinned
/// out as `query_points` says, so that a long query holds 256 to 511 points.
pub fn query_series(data: &BinaryTimeSeries) -> (r: BinaryTimeSeries)
    ensures
        r@.name == data@.name,
        r@.data == query_points(data@.data),
        data@.data.len() >= QUERY_SERIES_SIZE_THRESH ==> 256 <= r@.data.len() <= 511,
{
    let len = data.data.len();
    if len < QUERY_SERIES_SIZE_THRESH {
        return BinaryTimeSeries { name: data.name.clone(), data: data.data.clone() };
    }
    let skip = len / QUERY_SERIES_SIZE_THRESH;
    let mut downsampled: Vec<Point> = Vec::new();
    let mut i: usize = 0;
    let ghost mut k: int = 0;
    while i < len
        invariant
            len == data.data@.len(),
            len >= 256,
            skip == len / 256,
            skip >= 1,
            i <= len,
            i < len ==> i == k * skip,
            i == len ==> k * skip >= len,
            k == 0 || (k - 1) * skip < len,
            k >= 0,
            downsampled@ =~= Seq::new(k as nat, |m: int| data.data@[m * skip]),
        decreases len - i,
    {
        downsampled.push(data.data[i]);
        proof {
            assert((k + 1) * skip == k * skip + skip) by (nonlinear_arith);
            k = k + 1;
        }
        if len - i <= skip {
            i = len;
        } else {
            i = i + skip;
        }
    }
    proof {
        if k == 0 {
            assert(k * skip == 0) by (nonlinear_arith)
                requires
                    k == 0,
            ;
        }
        lemma_thinned_count(len as int, skip as int, k);
    }
    BinaryTimeSeries { name: data.name.clone(), data: downsampled }
}

} // verus!
