use dayder::btsf::{BinaryTimeSeries, Point};
use dayder::caching::{series_key, CorrelationCache};
use dayder::correlate::query_series;

fn series(name: &str, n: usize) -> BinaryTimeSeries {
    BinaryTimeSeries {
        name: name.to_string(),
        data: (0..n).map(|i| Point { t: i as i32, val: i as u32 }).collect(),
    }
}

#[test]
fn short_query_is_kept_whole() {
    let s = series("q", 255);
    let q = query_series(&s);
    assert_eq!(q.name, "q");
    assert_eq!(q.data, s.data);
}

#[test]
fn long_query_keeps_every_skip_th_point() {
    let s = series("q", 600);
    let q = query_series(&s);
    // skip is 600 / 256 = 2
    assert_eq!(q.data.len(), 300);
    assert_eq!(q.data[0].t, 0);
    assert_eq!(q.data[1].t, 2);
    assert_eq!(q.data[299].t, 598);
    let s = series("q", 767);
    let q = query_series(&s);
    assert_eq!(q.data.len(), 384);
    let s = series("q", 511);
    assert_eq!(query_series(&s).data.len(), 511);
    let s = series("q", 256);
    assert_eq!(query_series(&s).data.len(), 256);
}

#[test]
fn keys_tell_series_apart() {
    let a = series("a", 3);
    let b = series("b", 3);
    let c = series("a", 4);
    assert_ne!(series_key(&a), series_key(&b));
    assert_ne!(series_key(&a), series_key(&c));
    assert_eq!(series_key(&a), series_key(&series("a", 3)));
    let k = series_key(&series("ab", 1));
    let mut expected = 1u64.to_le_bytes().to_vec();
    expected.extend_from_slice(&2u64.to_le_bytes());
    expected.extend_from_slice(b"ab");
    expected.extend_from_slice(&[0, 0, 0, 0, 0, 0, 0, 0]);
    assert_eq!(k, expected);
}

fn correlate_with(cache: &mut CorrelationCache, s: &BinaryTimeSeries, calls: &mut u32, value: Vec<u32>) -> Vec<u32> {
    match cache.correlate(s) {
        Some(c) => c,
        None => {
            *calls += 1;
            cache.remember(s, value)
        }
    }
}

#[test]
fn cache_computes_once_per_series() {
    let mut cache = CorrelationCache::new();
    let a = series("a", 3);
    let mut calls = 0;
    assert_eq!(cache.correlate(&a), None);
    let r1 = correlate_with(&mut cache, &a, &mut calls, vec![1, 2]);
    let r2 = correlate_with(&mut cache, &a, &mut calls, vec![9]);
    assert_eq!(r1, vec![1, 2]);
    assert_eq!(r2, vec![1, 2]);
    assert_eq!(calls, 1);
    assert_eq!(cache.correlate(&a), Some(vec![1, 2]));
}

#[test]
fn remember_overwrites_and_returns_its_argument() {
    let mut cache = CorrelationCache::new();
    let a = series("a", 3);
    assert_eq!(cache.remember(&a, vec![1]), vec![1]);
    assert_eq!(cache.remember(&a, vec![2, 3]), vec![2, 3]);
    assert_eq!(cache.correlate(&a), Some(vec![2, 3]));
}

#[test]
fn cache_forgets_least_recently_used_beyond_five() {
    let mut cache = CorrelationCache::new();
    let sets: Vec<BinaryTimeSeries> = (0..7).map(|i| series("s", i)).collect();
    let mut calls = 0;
    for (i, s) in sets.iter().take(5).enumerate() {
        let _ = correlate_with(&mut cache, s, &mut calls, vec![i as u32]);
    }
    assert_eq!(calls, 5);
    // a hit makes series 0 the most recently used one
    assert_eq!(cache.correlate(&sets[0]), Some(vec![0]));
    // a sixth series drops the least recently used: series 1
    let _ = correlate_with(&mut cache, &sets[5], &mut calls, vec![5]);
    assert_eq!(calls, 6);
    assert_eq!(cache.correlate(&sets[1]), None);
    assert_eq!(cache.correlate(&sets[0]), Some(vec![0]));
    assert_eq!(cache.correlate(&sets[2]), Some(vec![2]));
    // the next new series drops series 3, now the least recently used
    let _ = correlate_with(&mut cache, &sets[6], &mut calls, vec![6]);
    assert_eq!(cache.correlate(&sets[3]), None);
    assert_eq!(cache.correlate(&sets[4]), Some(vec![4]));
    assert_eq!(cache.correlate(&sets[5]), Some(vec![5]));
}
