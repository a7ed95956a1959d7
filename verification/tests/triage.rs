use alpha_vantage::crypto::{CryptoHelper, DataHelper, MetaData};
use alpha_vantage::error::{detect_common_helper_error, Error, ErrorHolder};

fn meta() -> MetaData {
    MetaData {
        information: String::from("Daily Prices and Volumes for Digital Currency"),
        digital_code: String::from("BTC"),
        digital_name: String::from("Bitcoin"),
        market_code: String::from("EUR"),
        market_name: String::from("Euro"),
        last_refreshed: String::from("2023-01-03 00:00:00"),
        time_zone: String::from("UTC"),
    }
}

fn sample(time: &str, open: f64) -> (String, DataHelper) {
    (
        String::from(time),
        DataHelper {
            open: Some(open.to_bits()),
            high: Some((open + 1.0).to_bits()),
            low: Some((open - 0.5).to_bits()),
            close: Some((open + 0.5).to_bits()),
            volume: Some(100.0f64.to_bits()),
        },
    )
}

fn envelope(
    information: Option<&str>,
    error_message: Option<&str>,
    note: Option<&str>,
) -> CryptoHelper {
    CryptoHelper {
        information: information.map(String::from),
        error_message: error_message.map(String::from),
        note: note.map(String::from),
        meta_data: Some(meta()),
        data: Some(vec![(String::from("Time Series"), vec![sample("2023-01-01", 1.0)])]),
    }
}

#[test]
fn information_wins_over_error_message() {
    let r = envelope(Some("invalid symbol"), Some("bad call"), None).convert();
    match r {
        Err(Error::AlphaVantageInformation(m)) => assert_eq!(m, "invalid symbol"),
        _ => panic!("the information must be reported"),
    }
}

#[test]
fn information_wins_over_everything() {
    let r = envelope(Some("a"), Some("b"), Some("c")).convert();
    assert!(matches!(r, Err(Error::AlphaVantageInformation(m)) if m == "a"));
}

#[test]
fn error_message_wins_over_note() {
    let r = envelope(None, Some("bad call"), Some("slow down")).convert();
    assert!(matches!(r, Err(Error::AlphaVantageErrorMessage(m)) if m == "bad call"));
}

#[test]
fn note_alone_is_reported() {
    let r = envelope(None, None, Some("slow down")).convert();
    assert!(matches!(r, Err(Error::AlphaVantageNote(m)) if m == "slow down"));
}

#[test]
fn empty_message_is_still_a_message() {
    let r = envelope(None, Some(""), Some("slow down")).convert();
    assert!(matches!(r, Err(Error::AlphaVantageErrorMessage(m)) if m.is_empty()));
}

#[test]
fn message_hides_missing_payload() {
    let mut h = envelope(None, None, Some("slow down"));
    h.meta_data = None;
    h.data = None;
    assert!(matches!(h.convert(), Err(Error::AlphaVantageNote(m)) if m == "slow down"));
}

#[test]
fn message_hides_undecoded_field() {
    let mut h = envelope(Some("invalid symbol"), None, None);
    let mut broken = sample("2023-01-02", 2.0);
    broken.1.close = None;
    h.data = Some(vec![(String::from("Time Series"), vec![broken])]);
    assert!(matches!(h.convert(), Err(Error::AlphaVantageInformation(m)) if m == "invalid symbol"));
}

#[test]
fn missing_meta_data_is_empty_response() {
    let mut h = envelope(None, None, None);
    h.meta_data = None;
    assert!(matches!(h.convert(), Err(Error::EmptyResponse)));
}

#[test]
fn missing_series_is_empty_response() {
    let mut h = envelope(None, None, None);
    h.data = None;
    assert!(matches!(h.convert(), Err(Error::EmptyResponse)));
}

#[test]
fn missing_payload_comes_before_undecoded_field() {
    let mut h = envelope(None, None, None);
    let mut broken = sample("2023-01-02", 2.0);
    broken.1.open = None;
    h.data = Some(vec![(String::from("Time Series"), vec![broken])]);
    h.meta_data = None;
    assert!(matches!(h.convert(), Err(Error::EmptyResponse)));
}

#[test]
fn envelope_without_message_is_data() {
    assert!(envelope(None, None, None).convert().is_ok());
}

#[test]
fn detect_reports_in_order() {
    let s = |t: &str| Some(String::from(t));
    assert!(detect_common_helper_error(None, None, None).is_ok());
    assert!(matches!(
        detect_common_helper_error(s("i"), s("e"), s("n")),
        Err(Error::AlphaVantageInformation(m)) if m == "i"
    ));
    assert!(matches!(
        detect_common_helper_error(None, s("e"), s("n")),
        Err(Error::AlphaVantageErrorMessage(m)) if m == "e"
    ));
    assert!(matches!(
        detect_common_helper_error(None, None, s("n")),
        Err(Error::AlphaVantageNote(m)) if m == "n"
    ));
}

#[test]
fn holder_hands_out_data() {
    let h = ErrorHolder { information: None, error_message: None, note: None, data: Some(7u32) };
    assert!(matches!(h.handle_common_error(), Ok(7)));
}

#[test]
fn holder_without_data_is_invalid() {
    let h: ErrorHolder<u32> =
        ErrorHolder { information: None, error_message: None, note: None, data: None };
    assert!(matches!(h.handle_common_error(), Err(Error::AlphaVantageInvalidData)));
}

#[test]
fn holder_reports_messages_in_order() {
    let s = |t: &str| Some(String::from(t));
    let h = ErrorHolder { information: s("i"), error_message: s("e"), note: s("n"), data: Some(1u8) };
    assert!(matches!(h.handle_common_error(), Err(Error::AlphaVantageInformation(m)) if m == "i"));
    let h = ErrorHolder { information: None, error_message: s("e"), note: s("n"), data: Some(1u8) };
    assert!(matches!(h.handle_common_error(), Err(Error::AlphaVantageErrorMessage(m)) if m == "e"));
    let h = ErrorHolder { information: None, error_message: None, note: s("n"), data: Some(1u8) };
    assert!(matches!(h.handle_common_error(), Err(Error::AlphaVantageNote(m)) if m == "n"));
}
