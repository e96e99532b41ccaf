use home_iptv_proxy::model::{Mode, Source};
use home_iptv_proxy::playlist::{
    accepts_length, fetch_source, media_channel, parse_source, source_base, PLAYLIST_LIMIT,
};
use home_iptv_proxy::weburl::Url;

fn source(id: &str, url: &str) -> Source {
    Source {
        id: id.to_string(),
        name: "GITV".to_string(),
        url: url.to_string(),
        mode: Mode::Proxy,
        enabled: true,
        upstream_base_url: Some("http://inner:8097".to_string()),
    }
}

#[test]
fn channels_are_read_from_their_two_lines() {
    let from = source("s1", "http://host/list/tv.m3u");
    let base = Url::parse(&from.url).unwrap();
    let text = "#EXTM3U x-tvg-url=\"http://e/1.xml,,http://e/2.xml\" url-tvg=\"http://e/3.xml\"\r\n\
        #EXTINF:-1 catchup-source=\"http://o/r?s=${(b)timestamp}\",CCTV1\r\n\
        # a remark\n\
        \n\
        one.ts\n\
        orphan.ts\n\
        \t#EXTINF:-1,lost\n\
        #EXTINF:-1,CCTV2  \n\
        https://other/two.ts\n\
        #EXTINF:-1,radio\n\
        rtp://239.0.0.1:5000\n\
        after-radio.ts\n\
        #EXTINF:-1,broken\n\
        http://\n\
        #EXTM3U x-tvg-url=\"http://e/4.xml\"\n\
        #EXTINF:-1,open";
    let (channels, guides) = parse_source(text, &base, &from);
    assert_eq!(
        guides,
        ["http://e/1.xml", "http://e/2.xml", "http://e/3.xml", "http://e/4.xml"]
    );
    assert_eq!(channels.len(), 2);
    let first = &channels[0];
    assert_eq!(first.id, "007e5e06a49eebaae5fbfcaa");
    assert_eq!(first.url, "http://host/list/one.ts");
    assert_eq!(
        first.extinf,
        "#EXTINF:-1 catchup-source=\"http://o/r?s=${(b)timestamp}\",CCTV1"
    );
    assert_eq!(first.catchup.as_deref(), Some("http://o/r?s=${(b)timestamp}"));
    let second = &channels[1];
    assert_eq!(second.url, "https://other/two.ts");
    assert_eq!(second.extinf, "#EXTINF:-1,CCTV2");
    assert_eq!(second.catchup, None);
    for channel in &channels {
        assert_eq!(channel.source_id, "s1");
        assert_eq!(channel.source_name, "GITV");
        assert_eq!(channel.mode, Mode::Proxy);
        assert_eq!(channel.upstream_base_url.as_deref(), Some("http://inner:8097"));
    }
}

#[test]
fn nothing_is_read_from_an_empty_playlist() {
    let from = source("s1", "http://host/");
    let base = Url::parse(&from.url).unwrap();
    let (channels, guides) = parse_source("", &base, &from);
    assert!(channels.is_empty());
    assert!(guides.is_empty());
}

#[test]
fn a_channel_needs_an_address_that_can_be_fetched() {
    let from = source("s1", "http://host/");
    let channel = media_channel(&from, "#EXTINF:-1,x", Url::parse("https://a/b")).unwrap();
    assert_eq!(channel.url, "https://a/b");
    assert_eq!(channel.id.len(), 24);
    assert!(media_channel(&from, "#EXTINF:-1,x", Url::parse("udp://a/b")).is_none());
    assert!(media_channel(&from, "#EXTINF:-1,x", None).is_none());
}

#[test]
fn sources_have_a_web_address() {
    assert_eq!(source_base(&source("s", "HTTP://host")).unwrap().text, "http://host/");
    assert!(source_base(&source("s", "file:///etc/tv.m3u")).is_none());
    assert!(source_base(&source("s", "tv.m3u")).is_none());
}

#[test]
fn long_answers_are_refused() {
    assert!(accepts_length(None));
    assert!(accepts_length(Some(0)));
    assert!(accepts_length(Some(PLAYLIST_LIMIT)));
    assert!(!accepts_length(Some(PLAYLIST_LIMIT + 1)));
    let from = source("s1", "http://host/");
    let base = Url::parse(&from.url).unwrap();
    assert!(fetch_source(vec![b'#'; 10_000_001], &base, &from).is_none());
}

#[test]
fn a_playlist_is_text() {
    let from = source("s1", "http://host/");
    let base = Url::parse(&from.url).unwrap();
    let (channels, _) = fetch_source("#EXTINF:-1,央视\n/a".as_bytes().to_vec(), &base, &from).unwrap();
    assert_eq!(channels[0].extinf, "#EXTINF:-1,央视");
    assert_eq!(channels[0].url, "http://host/a");
    assert!(fetch_source(vec![b'#', 0xff], &base, &from).is_none());
}
