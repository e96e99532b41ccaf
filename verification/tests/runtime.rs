use home_iptv_proxy::attributes::attribute;
use home_iptv_proxy::listing::{base_url, health, list_m3u, Health};
use home_iptv_proxy::model::{Channel, Mode, Source};
use home_iptv_proxy::playlist::parse_source;
use home_iptv_proxy::runtime::{refresh, Runtime};
use home_iptv_proxy::weburl::Url;

fn source(id: &str, enabled: bool) -> Source {
    Source {
        id: id.to_string(),
        name: id.to_uppercase(),
        url: "http://host/".to_string(),
        mode: Mode::Direct,
        enabled,
        upstream_base_url: None,
    }
}

fn channel(id: &str, source_id: &str, mode: Mode, extinf: &str, catchup: Option<&str>) -> Channel {
    Channel {
        id: id.to_string(),
        source_id: source_id.to_string(),
        source_name: source_id.to_uppercase(),
        mode,
        extinf: extinf.to_string(),
        url: format!("http://up/{id}.ts"),
        catchup: catchup.map(str::to_string),
        upstream_base_url: None,
    }
}

fn plain(id: &str, source_id: &str) -> Channel {
    channel(id, source_id, Mode::Direct, "#EXTINF:-1,x", None)
}

fn texts(list: &[&str]) -> Vec<String> {
    list.iter().map(|text| text.to_string()).collect()
}

#[test]
fn before_the_first_refresh_nothing_is_known() {
    let runtime = Runtime::new();
    assert!(runtime.channels().is_empty());
    assert!(runtime.epg_urls().is_empty());
    assert!(runtime.channel("x").is_none());
    assert_eq!(runtime.status("x").count, 0);
    assert!(!runtime.status("x").error);
    assert_eq!(health(&runtime), Health { ok: true, channels: 0, sources: 0 });
    assert_eq!(list_m3u(&runtime, "http://tv").body, "#EXTM3U\n");
}

#[test]
fn a_refresh_takes_what_was_fetched() {
    let sources = vec![source("a", true), source("off", false), source("b", true)];
    let outcomes = vec![
        Some((vec![plain("1", "a"), plain("2", "a")], texts(&["http://e/z", "http://e/m"]))),
        Some((vec![plain("9", "off")], texts(&["http://e/off"]))),
        Some((vec![plain("3", "b")], texts(&["http://e/m", "http://e/a"]))),
    ];
    let runtime = refresh(&sources, outcomes, &Runtime::new());
    let ids: Vec<_> = runtime.channels().iter().map(|c| c.id.clone()).collect();
    assert_eq!(ids, ["1", "2", "3"]);
    assert_eq!(*runtime.epg_urls(), ["http://e/a", "http://e/m", "http://e/z"]);
    assert_eq!(runtime.status("a").count, 2);
    assert_eq!(runtime.status("b").count, 1);
    assert_eq!(runtime.status("off").count, 0);
    assert!(!runtime.status("a").error);
    assert_eq!(runtime.source_count(), 2);
    assert_eq!(health(&runtime), Health { ok: true, channels: 3, sources: 2 });
    assert!(runtime.channel("9").is_none());
    assert_eq!(runtime.channel("3").unwrap().source_id, "b");
}

#[test]
fn a_source_that_fails_keeps_what_it_had() {
    let sources = vec![source("a", true), source("b", true)];
    let first = refresh(
        &sources,
        vec![
            Some((vec![plain("1", "a")], texts(&["http://e/a"]))),
            Some((vec![plain("2", "b")], texts(&["http://e/b"]))),
        ],
        &Runtime::new(),
    );
    let second = refresh(
        &sources,
        vec![None, Some((vec![plain("3", "b"), plain("4", "b")], texts(&[])))],
        &first,
    );
    let ids: Vec<_> = second.channels().iter().map(|c| c.id.clone()).collect();
    assert_eq!(ids, ["1", "3", "4"]);
    assert_eq!(*second.epg_urls(), ["http://e/a"]);
    assert!(second.status("a").error);
    assert_eq!(second.status("a").count, 1);
    assert!(!second.status("b").error);
    let third = refresh(&sources, vec![None, None], &second);
    let ids: Vec<_> = third.channels().iter().map(|c| c.id.clone()).collect();
    assert_eq!(ids, ["1", "3", "4"]);
    assert_eq!(third.status("b").count, 2);
    let gone = refresh(&vec![source("a", false)], vec![None], &third);
    assert!(gone.channels().is_empty());
    assert_eq!(gone.source_count(), 0);
}

#[test]
fn a_new_source_that_fails_has_nothing() {
    let runtime = refresh(&vec![source("a", true)], vec![None], &Runtime::new());
    assert!(runtime.channels().is_empty());
    assert!(runtime.epg_urls().is_empty());
    assert!(runtime.status("a").error);
    assert_eq!(runtime.status("a").count, 0);
    assert_eq!(runtime.source_count(), 1);
}

#[test]
fn the_last_channel_with_an_identifier_is_found() {
    let mut later = plain("1", "a");
    later.url = "http://later/".to_string();
    let runtime = refresh(
        &vec![source("a", true)],
        vec![Some((vec![plain("1", "a"), plain("2", "a"), later], texts(&[])))],
        &Runtime::new(),
    );
    assert_eq!(runtime.channel("1").unwrap().url, "http://later/");
    assert_eq!(runtime.channel("2").unwrap().url, "http://up/2.ts");
    assert_eq!(runtime.channels().len(), 3);
}

#[test]
fn guides_are_sorted_by_their_bytes() {
    let runtime = refresh(
        &vec![source("a", true)],
        vec![Some((vec![], texts(&["b", "a中", "aZ", "a", "B", "a𐀀", "a\u{ffff}", "a"])))],
        &Runtime::new(),
    );
    let mut expected = texts(&["b", "a中", "aZ", "a", "B", "a𐀀", "a\u{ffff}", "a"]);
    expected.sort();
    expected.dedup();
    assert_eq!(*runtime.epg_urls(), expected);
}

#[test]
fn the_list_leads_relayed_channels_through_the_service() {
    let replay = "#EXTINF:-1 catchup=\"append\" catchup-source=\"?s=${(b)timestamp}\",CCTV1";
    let sources = vec![source("a", true), source("b", true)];
    let runtime = refresh(
        &sources,
        vec![
            Some((
                vec![
                    channel("1", "a", Mode::Direct, replay, Some("?s=${(b)timestamp}")),
                    channel("2", "a", Mode::Direct, "#EXTINF:-1", None),
                ],
                texts(&["http://e/2", "http://e/1"]),
            )),
            Some((
                vec![
                    channel("3", "b", Mode::Proxy, replay, Some("?s=${(b)timestamp}")),
                    channel("4", "b", Mode::Proxy, "#EXTINF:-1,CCTV4", None),
                ],
                texts(&[]),
            )),
        ],
        &Runtime::new(),
    );
    let list = list_m3u(&runtime, "http://tv:28788");
    assert_eq!(list.content_type, "application/x-mpegURL; charset=utf-8");
    assert_eq!(list.cache_control, "no-store");
    assert_eq!(
        list.body,
        "#EXTM3U x-tvg-url=\"http://e/1,http://e/2\"\n\
         #EXTINF:-1 catchup=\"append\" catchup-source=\"?s=${(b)timestamp}\" source-name=\"A\" access-mode=\"direct\",CCTV1\n\
         http://up/1.ts\n\
         #EXTINF:-1\n\
         http://up/2.ts\n\
         #EXTINF:-1 catchup=\"default\" catchup-source=\"http://tv:28788/catchup/3?start=${(b)timestamp}&end=${(e)timestamp}\" source-name=\"B\" access-mode=\"proxy\",CCTV1\n\
         http://tv:28788/live/3\n\
         #EXTINF:-1 source-name=\"B\" access-mode=\"proxy\",CCTV4\n\
         http://tv:28788/live/4\n"
    );
    assert_eq!(list.body.lines().count(), 1 + 2 * 4);
}

#[test]
fn the_service_is_reached_where_it_is_configured_or_asked() {
    assert_eq!(base_url(Some("https://tv.example//"), Some("host")), "https://tv.example");
    assert_eq!(base_url(Some("https://tv.example/x/"), None), "https://tv.example/x");
    assert_eq!(base_url(None, Some("10.0.0.1:28788")), "http://10.0.0.1:28788");
    assert_eq!(base_url(None, None), "http://127.0.0.1:8787");
}

#[test]
fn the_list_can_be_read_as_a_playlist() {
    let from = source("a", true);
    let base = Url::parse("http://host/").unwrap();
    let text = "#EXTM3U x-tvg-url=\"http://e/2,http://e/1\"\n#EXTINF:-1 tvg-id=\"1\",One\none.ts\n#EXTINF:-1,Two\ntwo.ts\n";
    let found = parse_source(text, &base, &from);
    let runtime = refresh(&vec![from.clone()], vec![Some(found)], &Runtime::new());
    let list = list_m3u(&runtime, "http://tv");
    let (channels, guides) = parse_source(&list.body, &base, &from);
    assert_eq!(guides, ["http://e/1", "http://e/2"]);
    let urls: Vec<_> = channels.iter().map(|c| c.url.clone()).collect();
    assert_eq!(urls, ["http://host/one.ts", "http://host/two.ts"]);
    assert_eq!(
        channels[0].extinf,
        "#EXTINF:-1 tvg-id=\"1\" source-name=\"A\" access-mode=\"direct\",One"
    );
}

#[test]
fn the_list_keeps_replay_attributes_with_commas() {
    let replay = "#EXTINF:-1 catchup-source=\"http://o/r?a=1,2\",CCTV1";
    let mut named = channel("1", "a", Mode::Direct, replay, Some("http://o/r?a=1,2"));
    named.source_name = "A, B".to_string();
    let relayed = channel("2", "a", Mode::Proxy, replay, Some("http://o/r?a=1,2"));
    let runtime = refresh(
        &vec![source("a", true)],
        vec![Some((vec![named, relayed], texts(&[])))],
        &Runtime::new(),
    );
    assert_eq!(
        list_m3u(&runtime, "http://tv").body,
        "#EXTM3U\n\
         #EXTINF:-1 catchup-source=\"http://o/r?a=1,2\" access-mode=\"direct\" source-name=\"A, B\",CCTV1\n\
         http://up/1.ts\n\
         #EXTINF:-1 catchup-source=\"http://tv/catchup/2?start=${(b)timestamp}&end=${(e)timestamp}\" catchup=\"default\" source-name=\"A\" access-mode=\"proxy\",CCTV1\n\
         http://tv/live/2\n"
    );
}

#[test]
fn replay_attributes_stay_whatever_the_source_is_called() {
    for name in [
        "a\"b",
        "\"",
        "a,b\"c",
        "access-mode=",
        "x\" access-mode=",
        "catchup-source=",
        "x\" catchup-source=\"e",
        "x\" catchup-source=\"e,f",
        "x\" access-mode=\"y, \"",
    ] {
        for extinf in [
            "#EXTINF:-1 catchup-source=\"http://o/r?a=1,2\",CCTV1",
            "#EXTINF:-1 catchup=\"x\" catchup-source=\"http://o/r?a=1,2\" tvg-id=\"1\",CCTV \"1\", HD",
            "#EXTINF:-1 tvg-id=\"1\" catchup-source=\"http://o/r?a=1,2\"",
            "#EXTINF:-1 tvg-id=\"1\" catchup-source=\"http://o/r?a=1,2\" catchup=\"x\",C \"1\"",
        ] {
            let mut direct = channel("1", "a", Mode::Direct, extinf, Some("http://o/r?a=1,2"));
            direct.source_name = name.to_string();
            let runtime = refresh(
                &vec![source("a", true)],
                vec![Some((vec![direct], texts(&[])))],
                &Runtime::new(),
            );
            let list = list_m3u(&runtime, "http://tv").body;
            let info = list.lines().nth(1).unwrap();
            assert!(info.contains("catchup-source=\"http://o/r?a=1,2\""), "{info}");
            assert_eq!(
                attribute(info, "catchup-source").as_deref(),
                Some("http://o/r?a=1,2"),
                "{info}"
            );
            assert_eq!(info.contains("catchup=\"x\""), extinf.contains("catchup=\"x\""), "{info}");
            assert!(info.contains("access-mode=\"direct\""), "{info}");
        }
    }
}

#[test]
fn a_relayed_channel_without_a_name_is_replayed_through_the_service() {
    let extinf = "#EXTINF:-1 tvg-name=\"a,b\" catchup-source=\"http://up/r\"";
    let runtime = refresh(
        &vec![source("a", true)],
        vec![Some((
            vec![channel("1", "a", Mode::Proxy, extinf, Some("http://up/r"))],
            texts(&[]),
        ))],
        &Runtime::new(),
    );
    let list = list_m3u(&runtime, "http://tv").body;
    let info = list.lines().nth(1).unwrap();
    assert_eq!(
        info,
        "#EXTINF:-1 tvg-name=\"a catchup=\"default\" catchup-source=\"http://tv/catchup/1?start=${(b)timestamp}&end=${(e)timestamp}\" source-name=\"A\" access-mode=\"proxy\",b\" catchup-source=\"http://up/r\""
    );
    assert_eq!(
        attribute(info, "catchup-source").as_deref(),
        Some("http://tv/catchup/1?start=${(b)timestamp}&end=${(e)timestamp}")
    );
}

#[test]
fn a_replay_attribute_behind_a_told_source_stays() {
    let extinf = "#EXTINF:-1 source-name=\"o\" catchup-source=\"http://o/r?a=1,2\",CCTV1";
    let mut direct = channel("1", "a", Mode::Direct, extinf, Some("http://o/r?a=1,2"));
    direct.source_name = "a\"b".to_string();
    let runtime = refresh(
        &vec![source("a", true)],
        vec![Some((vec![direct], texts(&[])))],
        &Runtime::new(),
    );
    assert_eq!(
        list_m3u(&runtime, "http://tv").body.lines().nth(1),
        Some("#EXTINF:-1 source-name=\"a\"b\" catchup-source=\"http://o/r?a=1,2\" access-mode=\"direct\",CCTV1")
    );
}
