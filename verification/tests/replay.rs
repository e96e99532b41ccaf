use home_iptv_proxy::failure::Status;
use home_iptv_proxy::listing::base_url;
use home_iptv_proxy::replay::{expand_catchup, fill_template, settle_replay, Stamps};
use home_iptv_proxy::weburl::Url;

#[test]
fn aptv_replay_template() {
    let url = "http://gitv/catchup/CCTV1?start=${(b)timestamp}&end=${(e)timestamp}";
    assert_eq!(
        expand_catchup(url, 1700000000, 1700003600).unwrap(),
        "http://gitv/catchup/CCTV1?start=1700000000&end=1700003600"
    );
}

#[test]
fn universal_times_are_written_in_full() {
    let url = "http://a/${(b)yyyyMMddHHmmss:utc}-${(e)yyyyMMddHHmmss:utc}/{utc:YmdHMS}-{utcend:YmdHMS}";
    assert_eq!(
        expand_catchup(url, 1700000000, 1700003600).unwrap(),
        "http://a/20231114221320-20231114231320/20231114221320-20231114231320"
    );
}

#[test]
fn local_times_are_written_with_fourteen_digits() {
    let url = "http://a/?b=${(b)yyyyMMddHHmmss}&e=${(e)yyyyMMddHHmmss}";
    let filled = expand_catchup(url, 1700000000, 1700003600).unwrap();
    let query = filled.strip_prefix("http://a/?b=").unwrap();
    let (begin, end) = query.split_once("&e=").unwrap();
    assert_eq!(begin.len(), 14);
    assert_eq!(end.len(), 14);
    assert!(begin.starts_with("202311"));
    assert!(begin.chars().chain(end.chars()).all(|c| c.is_ascii_digit()));
    assert!(begin < end);
}

#[test]
fn every_occurrence_is_filled() {
    let stamps = Stamps {
        start_utc: "SU".to_string(),
        start_local: "SL".to_string(),
        end_utc: "EU".to_string(),
        end_local: "EL".to_string(),
    };
    let template = "${(b)timestamp} ${(b)timestamp} ${(b)yyyyMMddHHmmss} ${(b)yyyyMMddHHmmss:utc} \
                    ${(e)timestamp} ${(e)yyyyMMddHHmmss} ${(e)yyyyMMddHHmmss:utc} \
                    {utc:YmdHMS} {utcend:YmdHMS} ${other}";
    assert_eq!(
        fill_template(template, -5, 10, &stamps),
        "-5 -5 SL SU 10 EL EU SU EU ${other}"
    );
}

#[test]
fn times_beyond_the_calendar_are_refused() {
    let last = 8_210_266_876_799;
    assert!(expand_catchup("http://a/", 1, last).is_ok());
    let refusal = expand_catchup("http://a/", 1, last + 1).unwrap_err();
    assert_eq!(refusal.0, Status::BadRequest);
    assert_eq!(refusal.1, "invalid replay time");
    assert!(expand_catchup("http://a/", -8_334_601_228_800, 1).is_ok());
    assert!(expand_catchup("http://a/", -8_334_601_228_801, 1).is_err());
}

#[test]
fn long_years_are_written_with_a_sign() {
    assert_eq!(
        expand_catchup("http://a/{utcend:YmdHMS}", 1, 253_402_300_800).unwrap(),
        "http://a/+100000101000000"
    );
}

#[test]
fn unknown_placeholders_are_refused() {
    for template in [
        "http://a/${(b)hours}",
        "http://a/{utc:Ymd}",
        "http://a/{utcend:Ymd}",
    ] {
        let refusal = expand_catchup(template, 1, 2).unwrap_err();
        assert_eq!(refusal.0, Status::BadRequest);
        assert_eq!(refusal.1, "unsupported replay template");
    }
}

#[test]
fn replay_addresses_are_web_addresses() {
    for template in ["ftp://a/x", "/relative", ""] {
        let refusal = expand_catchup(template, 1, 2).unwrap_err();
        assert_eq!(refusal.0, Status::BadRequest);
        assert_eq!(refusal.1, "invalid replay URL");
    }
    let kept = "http://A/%zz b";
    assert_eq!(expand_catchup(kept, 1, 2).unwrap(), kept);
}

#[test]
fn a_settled_address_is_the_text_itself() {
    let parsed = Url::parse("https://other/");
    assert_eq!(settle_replay("anything".to_string(), parsed).unwrap(), "anything");
    assert!(settle_replay("anything".to_string(), None).is_err());
    assert!(settle_replay("a${".to_string(), Url::parse("http://a/")).is_err());
}

#[test]
fn the_listed_replay_address_is_filled_by_players() {
    let base = base_url(None, Some("tv:28788"));
    let listed = format!("{base}/catchup/0123?start=${{(b)timestamp}}&end=${{(e)timestamp}}");
    assert_eq!(
        expand_catchup(&listed, 10, 20).unwrap(),
        "http://tv:28788/catchup/0123?start=10&end=20"
    );
}
