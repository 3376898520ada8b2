//! The decisions of the web server: reading a query chart, and finding data sets by
//! name.

use vstd::prelude::*;
use vstd::utf8::{valid_utf8, decode_utf8, encode_utf8};
use memmem::{Searcher, TwoWaySearcher};
use url::percent_encoding::percent_decode;
use crate::btsf::{BinaryTimeSeries, BtsfError, SeriesView, btsf_contents, read_btsf_file};

verus! {

/// How many data sets one response holds at most.
pub const PER_PAGE: usize = 100;

/// The key under which the server keeps its one shared correlation cache.
#[derive(Clone, Copy)]
pub struct CorrCache;

/// `needle` occurs in `hay` starting at byte `i`.
pub open spec fn occurs_at(needle: Seq<u8>, hay: Seq<u8>, i: int) -> bool {
    0 <= i && i + needle.len() <= hay.len() && hay.subrange(i, i + needle.len()) == needle
}

/// `needle` occurs somewhere in `hay`.
pub open spec fn contains_bytes(hay: Seq<u8>, needle: Seq<u8>) -> bool {
    exists|i: int| occurs_at(needle, hay, i)
}

/// `TwoWaySearcher::new(needle).search_in(haystack)` of memmem: the start of a
/// match of `needle` in `haystack` when there is one, and `None` when there is none.
#[verifier::external_body]
fn find_bytes(needle: &[u8], haystack: &[u8]) -> (r: Option<usize>)
    ensures
        r is Some <==> contains_bytes(haystack@, needle@),
        r matches Some(i) ==> occurs_at(needle@, haystack@, i as int),
{
    TwoWaySearcher::new(needle).search_in(haystack)
}

/// What `percent_decode(input).decode_utf8_lossy()` of url's percent_encoding gives:
/// the characters of the percent-decoded bytes, invalid UTF-8 replaced.
pub uninterp spec fn percent_decode_lossy(input: Seq<u8>) -> Seq<char>;

/// `percent_decode(input).decode_utf8_lossy()` of url's percent_encoding. Bytes
/// without a `%` that are valid UTF-8 come back as the characters they encode.
#[verifier::external_body]
fn decode_query(input: &[u8]) -> (r: String)
    ensures
        r@ == percent_decode_lossy(input@),
        (forall|i: int| 0 <= i < input@.len() ==> input@[i] != 37u8) && valid_utf8(input@) ==> r@
            == decode_utf8(input@),
{
    percent_decode(input).decode_utf8_lossy().into_owned()
}

/// A byte with ASCII upper case letters mapped to lower case.
pub open spec fn ascii_lower_byte(b: u8) -> u8 {
    if 65 <= b <= 90 {
        (b + 32) as u8
    } else {
        b
    }
}

/// Bytes with ASCII upper case letters mapped to lower case. On UTF-8 text this
/// lowers ASCII letters and leaves every other character as it is.
pub open spec fn ascii_lower(s: Seq<u8>) -> Seq<u8> {
    s.map_values(|b: u8| ascii_lower_byte(b))
}

/// The bytes with ASCII upper case letters mapped to lower case.
pub fn ascii_lowercase(bytes: &[u8]) -> (r: Vec<u8>)
    ensures
        r@ == ascii_lower(bytes@),
{
    let mut out: Vec<u8> = Vec::new();
    let mut i: usize = 0;
    while i < bytes.len()
        invariant
            i <= bytes@.len(),
            out@ =~= ascii_lower(bytes@.subrange(0, i as int)),
        decreases bytes@.len() - i,
    {
        let b = bytes[i];
        let lower = if 65 <= b && b <= 90 {
            b + 32
        } else {
            b
        };
        out.push(lower);
        i = i + 1;
    }
    proof {
        assert(bytes@.subrange(0, bytes@.len() as int) =~= bytes@);
    }
    out
}

/// The UTF-8 bytes of a request's query string, none when there is no query.
pub open spec fn query_bytes(query: Option<&str>) -> Seq<u8> {
    match query {
        Some(q) => encode_utf8(q@),
        None => Seq::empty(),
    }
}

/// The name filter of a request: its query string (empty when there is none),
/// percent-decoded, then lowered. A query without `%` is just lowered, so no
/// query gives an empty filter.
pub fn filter_text(query: Option<&str>) -> (r: Vec<u8>)
    ensures
        r@ == ascii_lower(encode_utf8(percent_decode_lossy(query_bytes(query)))),
        (forall|i: int| 0 <= i < query_bytes(query).len() ==> query_bytes(query)[i] != 37u8) ==> r@
            == ascii_lower(query_bytes(query)),
{
    let q: &str = match query {
        Some(q) => q,
        None => "",
    };
    proof {
        reveal_strlit("");
        assert(encode_utf8(Seq::<char>::empty()) =~= Seq::<u8>::empty());
    }
    let qb = q.as_bytes();
    proof {
        vstd::utf8::encode_utf8_valid_utf8(q@);
        assert(qb@ == query_bytes(query));
    }
    let decoded = decode_query(qb);
    proof {
        if forall|i: int| 0 <= i < qb@.len() ==> qb@[i] != 37u8 {
            vstd::utf8::decode_utf8_encode_utf8(qb@);
        }
    }
    ascii_lowercase(decoded.as_str().as_bytes())
}

/// The lowered UTF-8 names of the data sets, in order.
pub fn lowercase_names(sets: &[BinaryTimeSeries]) -> (r: Vec<Vec<u8>>)
    ensures
        r@.len() == sets@.len(),
        forall|i: int| 0 <= i < sets@.len() ==> #[trigger] r@[i]@ == ascii_lower(encode_utf8(sets@[i].name@)),
{
    let mut out: Vec<Vec<u8>> = Vec::new();
    let mut i: usize = 0;
    while i < sets.len()
        invariant
            i <= sets@.len(),
            out@.len() == i,
            forall|j: int| 0 <= j < i ==> #[trigger] out@[j]@ == ascii_lower(encode_utf8(sets@[j].name@)),
        decreases sets@.len() - i,
    {
        let lowered = ascii_lowercase(sets[i].name.as_str().as_bytes());
        out.push(lowered);
        i = i + 1;
    }
    out
}

/// The indices, in increasing order, of the first `n` names that contain `filter`.
pub open spec fn matches_upto(names: Seq<Seq<u8>>, filter: Seq<u8>, n: nat) -> Seq<usize>
    decreases n,
{
    if n == 0 {
        seq![]
    } else if contains_bytes(names[n - 1], filter) {
        matches_upto(names, filter, (n - 1) as nat).push((n - 1) as usize)
    } else {
        matches_upto(names, filter, (n - 1) as nat)
    }
}

/// The first `limit` elements of `s`, or all of them when there are fewer.
pub open spec fn first_n<T>(s: Seq<T>, limit: nat) -> Seq<T> {
    if s.len() <= limit {
        s
    } else {
        s.subrange(0, limit as int)
    }
}

/// The views of a list of names.
pub open spec fn name_views(names: Seq<Vec<u8>>) -> Seq<Seq<u8>> {
    names.map_values(|n: Vec<u8>| n@)
}

/// The indices of the names that contain `filter` (every index when the filter is
/// empty), in increasing order, at most `limit` of them.
pub fn matching_indices(names: &[Vec<u8>], filter: &[u8], limit: usize) -> (r: Vec<usize>)
    ensures
        r@ == first_n(matches_upto(name_views(names@), filter@, names@.len()), limit as nat),
{
    let ghost views = name_views(names@);
    let mut out: Vec<usize> = Vec::new();
    let mut i: usize = 0;
    while i < names.len()
        invariant
            i <= names@.len(),
            views == name_views(names@),
            out@ == first_n(matches_upto(views, filter@, i as nat), limit as nat),
        decreases names@.len() - i,
    {
        let hit = if filter.len() == 0 {
            proof {
                assert(views[i as int].subrange(0, 0) =~= filter@);
                assert(occurs_at(filter@, views[i as int], 0));
            }
            true
        } else {
            find_bytes(filter, names[i].as_slice()).is_some()
        };
        proof {
            assert(views[i as int] == names@[i as int]@);
        }
        let ghost before = matches_upto(views, filter@, i as nat);
        if hit && out.len() < limit {
            out.push(i);
        }
        proof {
            let after = matches_upto(views, filter@, (i + 1) as nat);
            if hit {
                assert(after == before.push(i));
                if before.len() >= limit {
                    assert(first_n(after, limit as nat) =~= first_n(before, limit as nat));
                } else {
                    assert(out@ =~= first_n(after, limit as nat));
                }
            }
        }
        i = i + 1;
    }
    out
}

/// Why a request does not hold a query chart.
#[derive(Clone, Copy, PartialEq, Eq, Structural, Debug)]
pub enum QueryError {
    /// The body is not a btsf file that can be read.
    Malformed(BtsfError),
    /// The file holds no chart, or more than one.
    NotOneChart,
}

/// The one chart that a request body holds as a btsf file.
pub fn parse_query_chart(body: &[u8]) -> (r: Result<BinaryTimeSeries, QueryError>)
    ensures
        match r {
            Ok(x) => btsf_contents(body@) == Ok::<_, BtsfError>(seq![x@]),
            Err(QueryError::Malformed(e)) => btsf_contents(body@) == Err::<Seq<SeriesView>, _>(e),
            Err(QueryError::NotOneChart) => btsf_contents(body@) matches Ok(s) && s.len() != 1,
        },
{
    match read_btsf_file(body) {
        Err(e) => Err(QueryError::Malformed(e)),
        Ok(mut charts) => {
            if charts.len() != 1 {
                return Err(QueryError::NotOneChart);
            }
            let ghost views = crate::btsf::series_views(charts@);
            let chart = charts.pop().unwrap();
            proof {
                assert(views =~= seq![chart@]);
            }
            Ok(chart)
        },
    }
}

/// ASCII lowering keeps the length and, at every position, keeps the byte unless it
/// is an upper case ASCII letter, which becomes its lower case letter.
pub proof fn lemma_ascii_lower_bytes(s: Seq<u8>)
    ensures
        ascii_lower(s).len() == s.len(),
        forall|i: int|
            0 <= i < s.len() ==> #[trigger] ascii_lower(s)[i] == (if 65 <= s[i] && s[i] <= 90 {
                (s[i] + 32) as u8
            } else {
                s[i]
            }),
        forall|i: int| 0 <= i < s.len() ==> !(65 <= #[trigger] ascii_lower(s)[i] <= 90),
{
}

/// `filter` occurs in `name` as a run of consecutive bytes, at some position.
pub open spec fn has_substring(name: Seq<u8>, filter: Seq<u8>) -> bool {
    exists|j: int|
        0 <= j && j + filter.len() <= name.len() && #[trigger] name.subrange(j, j + filter.len()) == filter
}

proof fn lemma_matches_upto(names: Seq<Seq<u8>>, filter: Seq<u8>, n: nat)
    requires
        n <= names.len(),
        names.len() <= usize::MAX,
    ensures
        forall|m: int|
            0 <= m < matches_upto(names, filter, n).len() ==> (#[trigger] matches_upto(
                names,
                filter,
                n,
            )[m]) < n && has_substring(names[matches_upto(names, filter, n)[m] as int], filter),
        forall|m1: int, m2: int|
            0 <= m1 < m2 < matches_upto(names, filter, n).len() ==> #[trigger] matches_upto(
                names,
                filter,
                n,
            )[m1] < #[trigger] matches_upto(names, filter, n)[m2],
        forall|i: int|
            0 <= i < n && has_substring(#[trigger] names[i], filter) ==> exists|m: int|
                0 <= m < matches_upto(names, filter, n).len() && matches_upto(names, filter, n)[m]
                    == i,
    decreases n,
{
    if n > 0 {
        lemma_matches_upto(names, filter, (n - 1) as nat);
        let prev = matches_upto(names, filter, (n - 1) as nat);
        let cur = matches_upto(names, filter, n);
        let last = names[n - 1];
        assert(contains_bytes(last, filter) == has_substring(last, filter)) by {
            if contains_bytes(last, filter) {
                let j = choose|j: int| occurs_at(filter, last, j);
                assert(0 <= j && j + filter.len() <= last.len() && last.subrange(j, j + filter.len())
                    == filter);
            }
            if has_substring(last, filter) {
                let j = choose|j: int|
                    0 <= j && j + filter.len() <= last.len() && #[trigger] last.subrange(
                        j,
                        j + filter.len(),
                    ) == filter;
                assert(occurs_at(filter, last, j));
            }
        }
        assert forall|i: int|
            0 <= i < n && has_substring(#[trigger] names[i], filter) implies exists|m: int|
                0 <= m < cur.len() && cur[m] == i by {
            if i < n - 1 {
                let m = choose|m: int| 0 <= m < prev.len() && prev[m] == i;
                assert(cur[m] == i);
            } else {
                assert(cur[cur.len() - 1] == i);
            }
        }
    }
}

/// The indices `matching_indices` gives are, in increasing order, those of the
/// names that hold the filter as a run of consecutive bytes: every index given
/// names a data set that holds it, and a data set that holds it is left out only
/// when `limit` indices, all smaller than its own, were given already.
pub proof fn lemma_matching_indices(names: Seq<Seq<u8>>, filter: Seq<u8>, limit: nat)
    requires
        names.len() <= usize::MAX,
    ensures
        first_n(matches_upto(names, filter, names.len()), limit).len() <= limit,
        forall|m: int|
            0 <= m < first_n(matches_upto(names, filter, names.len()), limit).len() ==> (
            #[trigger] first_n(matches_upto(names, filter, names.len()), limit)[m]) < names.len()
                && has_substring(
                names[first_n(matches_upto(names, filter, names.len()), limit)[m] as int],
                filter,
            ),
        forall|m1: int, m2: int|
            0 <= m1 < m2 < first_n(matches_upto(names, filter, names.len()), limit).len()
                ==> #[trigger] first_n(matches_upto(names, filter, names.len()), limit)[m1]
                < #[trigger] first_n(matches_upto(names, filter, names.len()), limit)[m2],
        forall|i: int|
            0 <= i < names.len() && has_substring(#[trigger] names[i], filter) && !first_n(
                matches_upto(names, filter, names.len()),
                limit,
            ).contains(i as usize) ==> first_n(matches_upto(names, filter, names.len()), limit).len()
                == limit && forall|m: int|
                0 <= m < limit ==> first_n(matches_upto(names, filter, names.len()), limit)[m] < i,
{
    let all = matches_upto(names, filter, names.len());
    lemma_matches_upto(names, filter, names.len());
    let r = first_n(all, limit);
    assert forall|m: int| 0 <= m < r.len() implies r[m] == all[m] by {}
    assert forall|i: int|
        0 <= i < names.len() && has_substring(#[trigger] names[i], filter) && !r.contains(
            i as usize,
        ) implies r.len() == limit && forall|m: int| 0 <= m < limit ==> r[m] < i by {
        let p = choose|p: int| 0 <= p < all.len() && all[p] == i;
        if p < r.len() {
            assert(r[p] == i as usize);
        }
        assert forall|m: int| 0 <= m < limit implies r[m] < i by {
            assert(all[m] < all[p]);
        }
    }
}

} // verus!
