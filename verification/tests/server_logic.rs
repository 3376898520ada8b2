use dayder::btsf::{write_correlated_btsf_file, BinaryTimeSeries, BtsfError, CorrelatedTimeSeries, Point};
use dayder::index::build_index;
use dayder::server::{
    ascii_lowercase, filter_text, lowercase_names, matching_indices, parse_query_chart, QueryError,
    PER_PAGE,
};

fn named(name: &str) -> BinaryTimeSeries {
    BinaryTimeSeries { name: name.to_string(), data: vec![Point { t: 1, val: 2 }] }
}

#[test]
fn lowercase_only_touches_ascii_letters() {
    assert_eq!(ascii_lowercase(b"AbZ@[`az09"), b"abz@[`az09".to_vec());
    assert_eq!(ascii_lowercase("\u{c9}T\u{c9}".as_bytes()), "\u{c9}t\u{c9}".as_bytes().to_vec());
}

#[test]
fn filter_text_decodes_and_lowers() {
    assert_eq!(filter_text(Some("Heart%20Disease")), b"heart disease".to_vec());
    assert_eq!(filter_text(Some("%C3%89T%C3%89")), "\u{c9}t\u{c9}".as_bytes().to_vec());
    assert_eq!(filter_text(Some("%ff")), "\u{fffd}".as_bytes().to_vec());
    assert_eq!(filter_text(None), Vec::<u8>::new());
}

#[test]
fn names_are_lowered_in_order() {
    let sets = vec![named("Cancer"), named("GDP Alberta")];
    assert_eq!(lowercase_names(&sets), vec![b"cancer".to_vec(), b"gdp alberta".to_vec()]);
}

#[test]
fn matching_finds_substrings_in_order() {
    let names = vec![b"cancer".to_vec(), b"gdp alberta".to_vec(), b"lung cancer".to_vec()];
    assert_eq!(matching_indices(&names, b"cancer", PER_PAGE), vec![0, 2]);
    assert_eq!(matching_indices(&names, b"cancer", 1), vec![0]);
    assert_eq!(matching_indices(&names, b"", PER_PAGE), vec![0, 1, 2]);
    assert_eq!(matching_indices(&names, b"", 2), vec![0, 1]);
    assert_eq!(matching_indices(&names, b"zebra", PER_PAGE), Vec::<usize>::new());
}

#[test]
fn query_chart_must_be_exactly_one() {
    let a = named("a");
    let b = named("b");
    let one = write_correlated_btsf_file(&[CorrelatedTimeSeries { series: &a, correlation: 0 }]);
    let chart = parse_query_chart(&one).unwrap();
    assert_eq!(chart.name, "a");
    let two = write_correlated_btsf_file(&[
        CorrelatedTimeSeries { series: &a, correlation: 0 },
        CorrelatedTimeSeries { series: &b, correlation: 0 },
    ]);
    assert_eq!(parse_query_chart(&two).unwrap_err(), QueryError::NotOneChart);
    assert_eq!(
        parse_query_chart(&[1, 2, 3]).unwrap_err(),
        QueryError::Malformed(BtsfError::Truncated)
    );
}

#[test]
fn index_holds_its_three_names() {
    let bytes = build_index().unwrap();
    let map = fst::Map::new(bytes).unwrap();
    assert_eq!(map.len(), 3);
    assert_eq!(map.get("bruce"), Some(1));
    assert_eq!(map.get("clarence"), Some(2));
    assert_eq!(map.get("stevie"), Some(3));
    assert_eq!(map.get("max"), None);
}
