use alpha_vantage::crypto::{CryptoHelper, Data, DataHelper, MetaData};
use alpha_vantage::error::Error;
use alpha_vantage::vec_trait::FindData;

fn collection(samples: &[(&str, f64)]) -> Vec<Data> {
    let entries = samples
        .iter()
        .map(|(time, open)| {
            (
                String::from(*time),
                DataHelper {
                    open: Some(open.to_bits()),
                    high: Some(0),
                    low: Some(0),
                    close: Some(0),
                    volume: Some(0),
                },
            )
        })
        .collect();
    let helper = CryptoHelper {
        information: None,
        error_message: None,
        note: None,
        meta_data: Some(MetaData::default()),
        data: Some(vec![(String::from("Time Series"), entries)]),
    };
    helper.convert().unwrap().data().clone()
}

fn three() -> Vec<Data> {
    collection(&[("2023-01-01", 1.0), ("2023-01-03", 3.0), ("2023-01-02", 2.0)])
}

fn times(list: &[&Data]) -> Vec<String> {
    list.iter().map(|d| d.time().to_string()).collect()
}

#[test]
fn latest_of_three() {
    let latest = three().latest();
    assert_eq!(latest.time(), "2023-01-03");
    assert_eq!(f64::from_bits(latest.open()), 3.0);
}

#[test]
fn latest_two_of_three() {
    let data = three();
    let list = data.latest_n(2).unwrap();
    assert_eq!(times(&list), vec!["2023-01-03", "2023-01-02"]);
    assert_eq!(f64::from_bits(list[0].open()), 3.0);
    assert_eq!(f64::from_bits(list[1].open()), 2.0);
}

#[test]
fn latest_five_of_three_fails_with_the_count() {
    let data = three();
    assert!(matches!(data.latest_n(5), Err(Error::DesiredNumberOfDataNotPresent(3))));
}

#[test]
fn latest_four_of_three_fails_with_the_count() {
    let data = three();
    assert!(matches!(data.latest_n(4), Err(Error::DesiredNumberOfDataNotPresent(3))));
}

#[test]
fn latest_all_of_three() {
    let data = three();
    let list = data.latest_n(3).unwrap();
    assert_eq!(times(&list), vec!["2023-01-03", "2023-01-02", "2023-01-01"]);
}

#[test]
fn latest_none_is_empty() {
    let data = three();
    assert!(data.latest_n(0).unwrap().is_empty());
    let nothing: Vec<Data> = Vec::new();
    assert!(nothing.latest_n(0).unwrap().is_empty());
}

#[test]
fn latest_one_of_none_fails_with_zero() {
    let nothing: Vec<Data> = Vec::new();
    assert!(matches!(nothing.latest_n(1), Err(Error::DesiredNumberOfDataNotPresent(0))));
}

#[test]
fn latest_n_twice_gives_the_same() {
    let data = collection(&[
        ("2023-01-05", 5.0),
        ("2023-01-01", 1.0),
        ("2023-01-04", 4.0),
        ("2023-01-02", 2.0),
        ("2023-01-03", 3.0),
    ]);
    for n in 0..=5 {
        let first = data.latest_n(n).unwrap();
        let second = data.latest_n(n).unwrap();
        assert_eq!(times(&first), times(&second));
        assert_eq!(first.len(), n);
        for (a, b) in first.iter().zip(second.iter()) {
            assert!(std::ptr::eq(*a, *b));
        }
    }
    assert!(matches!(data.latest_n(6), Err(Error::DesiredNumberOfDataNotPresent(5))));
    assert!(matches!(data.latest_n(6), Err(Error::DesiredNumberOfDataNotPresent(5))));
}

#[test]
fn latest_n_orders_many_records() {
    let days: Vec<String> = (1..=28).map(|d| format!("2023-02-{:02}", (d * 11) % 29)).collect();
    let samples: Vec<(&str, f64)> = days.iter().map(|d| (d.as_str(), 0.0)).collect();
    let data = collection(&samples);
    let list = data.latest_n(28).unwrap();
    let mut expected = days.clone();
    expected.sort();
    expected.reverse();
    assert_eq!(times(&list), expected);
}

#[test]
fn latest_n_with_time_of_day() {
    let data = collection(&[
        ("2023-01-01 09:30:00", 1.0),
        ("2023-01-01", 0.0),
        ("2023-01-01 10:00:00", 2.0),
        ("2022-12-31 23:59:59", -1.0),
    ]);
    let list = data.latest_n(4).unwrap();
    assert_eq!(
        times(&list),
        vec!["2023-01-01 10:00:00", "2023-01-01 09:30:00", "2023-01-01", "2022-12-31 23:59:59"]
    );
}

#[test]
fn shared_time_resolves_to_the_first_record() {
    let data = collection(&[("b", 1.0), ("a", 2.0), ("b", 3.0)]);
    let list = data.latest_n(3).unwrap();
    assert_eq!(times(&list), vec!["b", "b", "a"]);
    assert_eq!(f64::from_bits(list[0].open()), 1.0);
    assert_eq!(f64::from_bits(list[1].open()), 1.0);
    assert_eq!(f64::from_bits(data.latest().open()), 1.0);
    assert_eq!(f64::from_bits(data.find("b").unwrap().open()), 1.0);
}

#[test]
fn find_missing_key_is_absent() {
    let data = three();
    assert!(data.find("2023-01-04").is_none());
    assert!(data.find("").is_none());
    assert!(data.find("2023-01-0").is_none());
    assert!(data.find("2023-01-011").is_none());
    let nothing: Vec<Data> = Vec::new();
    assert!(nothing.find("2023-01-01").is_none());
}

#[test]
fn find_present_key() {
    let data = three();
    let found = data.find("2023-01-02").unwrap();
    assert_eq!(found.time(), "2023-01-02");
    assert_eq!(f64::from_bits(found.open()), 2.0);
    assert!(std::ptr::eq(found, &data[2]));
}

#[test]
fn latest_of_none_is_the_blank_record() {
    let nothing: Vec<Data> = Vec::new();
    let blank = nothing.latest();
    assert_eq!(blank.time(), "");
    assert_eq!(blank.open(), 0);
    assert_eq!(blank.high(), 0);
    assert_eq!(blank.low(), 0);
    assert_eq!(blank.close(), 0);
    assert_eq!(blank.volume(), 0);
    assert_eq!(f64::from_bits(blank.open()), 0.0);
}

#[test]
fn default_record_is_blank() {
    let blank = Data::default();
    assert_eq!(blank.time(), "");
    assert_eq!(
        (blank.open(), blank.high(), blank.low(), blank.close(), blank.volume()),
        (0, 0, 0, 0, 0)
    );
}

#[test]
fn latest_of_one() {
    let data = collection(&[("2023-01-01", 7.0)]);
    assert_eq!(data.latest().time(), "2023-01-01");
    assert_eq!(f64::from_bits(data.latest().open()), 7.0);
}

#[test]
fn latest_of_records_without_time_is_the_first() {
    let data = collection(&[("", 7.0), ("", 8.0)]);
    let latest = data.latest();
    assert_eq!(latest.time(), "");
    assert_eq!(f64::from_bits(latest.open()), 7.0);
}

#[test]
fn latest_is_first_of_latest_n() {
    let data = three();
    let latest = data.latest();
    let list = data.latest_n(1).unwrap();
    assert_eq!(list[0].time(), latest.time());
    assert_eq!(list[0].open(), latest.open());
}

#[test]
fn record_clone_is_equal() {
    let data = three();
    let c = data[1].clone();
    assert_eq!(c.time(), "2023-01-03");
    assert_eq!(f64::from_bits(c.open()), 3.0);
    assert_eq!(c.high(), data[1].high());
    assert_eq!(c.low(), data[1].low());
    assert_eq!(c.close(), data[1].close());
    assert_eq!(c.volume(), data[1].volume());
}
