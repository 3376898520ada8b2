use dayder::btsf::{BinaryTimeSeries, Point};
use dayder::stats::{interpolate, pairinate, Pairing};

fn pts(times: &[i32]) -> Vec<Point> {
    times.iter().map(|&t| Point { t, val: (t as f32).to_bits() }).collect()
}

#[test]
fn exact_and_interpolated_pairings() {
    let base = pts(&[0, 5, 10, 15]);
    let other = vec![
        Point { t: 0, val: 100 },
        Point { t: 10, val: 200 },
        Point { t: 20, val: 300 },
    ];
    let r = interpolate(&base, &other);
    assert_eq!(
        r,
        vec![
            Pairing::Exact { base: base[0].val, other: 100 },
            Pairing::Between {
                base: base[1].val,
                before: 100,
                after: 200,
                time_offset: 5,
                point_offset: 10
            },
            Pairing::Exact { base: base[2].val, other: 200 },
            Pairing::Between {
                base: base[3].val,
                before: 200,
                after: 300,
                time_offset: 5,
                point_offset: 10
            },
        ]
    );
}

#[test]
fn points_outside_the_other_span_are_not_paired() {
    let base = pts(&[-5, 0, 30]);
    let other = pts(&[0, 10, 20]);
    let r = interpolate(&base, &other);
    assert_eq!(r, vec![Pairing::Exact { base: base[1].val, other: other[0].val }]);
}

#[test]
fn search_only_moves_forward() {
    // a base series that goes back in time does not find the earlier point again
    let base = pts(&[20, 0]);
    let other = pts(&[0, 20]);
    let r = interpolate(&base, &other);
    assert_eq!(r, vec![Pairing::Exact { base: base[0].val, other: other[1].val }]);
}

#[test]
fn pairinate_needs_enough_points() {
    let short = BinaryTimeSeries { name: "s".to_string(), data: pts(&[0, 1, 2, 3]) };
    let long = BinaryTimeSeries { name: "l".to_string(), data: pts(&[0, 1, 2, 3, 4, 5]) };
    assert!(pairinate(&short, &long).is_none());
    assert!(pairinate(&long, &short).is_none());
    let far = BinaryTimeSeries { name: "f".to_string(), data: pts(&[100, 101, 102, 103, 104]) };
    assert!(pairinate(&long, &far).is_none());
    let r = pairinate(&long, &long).unwrap();
    assert_eq!(r.len(), 6);
    assert!(r.iter().all(|p| matches!(p, Pairing::Exact { .. })));
}

#[test]
fn sorted_series_pair_every_point_in_span() {
    let base = pts(&[1, 2, 3, 4, 5, 6, 7, 8]);
    let other = pts(&[0, 3, 6, 9]);
    let r = interpolate(&base, &other);
    assert_eq!(r.len(), 8);
    assert_eq!(r[2], Pairing::Exact { base: base[2].val, other: other[1].val });
    assert_eq!(
        r[6],
        Pairing::Between {
            base: base[6].val,
            before: other[2].val,
            after: other[3].val,
            time_offset: 1,
            point_offset: 3
        }
    );
}
