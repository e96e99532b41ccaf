use home_iptv_proxy::weburl::{valid_url, Url};

#[test]
fn addresses_are_serialized() {
    let url = Url::parse("HTTP://Host:80/a/../b c").unwrap();
    assert_eq!(url.text, "http://host/b%20c");
    assert_eq!(url.scheme, "http");
    assert!(url.is_web());
    assert!(Url::parse("no address").is_none());
}

#[test]
fn references_are_resolved() {
    let base = Url::parse("https://host/dir/list.m3u?x=1").unwrap();
    assert_eq!(base.join("one.ts").unwrap().text, "https://host/dir/one.ts");
    assert_eq!(base.join("//other/two").unwrap().text, "https://other/two");
    let call = base.join("rtp://239.0.0.1:5000").unwrap();
    assert_eq!(call.scheme, "rtp");
    assert!(!call.is_web());
    assert!(base.join("http://").is_none());
}

#[test]
fn sources_are_fetched_from_web_addresses_only() {
    assert!(valid_url("http://host/tv.m3u"));
    assert!(valid_url("https://host/tv.m3u"));
    assert!(!valid_url("ftp://host/tv.m3u"));
    assert!(!valid_url("httpx://host/tv.m3u"));
    assert!(!valid_url("host/tv.m3u"));
    assert!(!valid_url(""));
}
