use home_iptv_proxy::failure::{AppError, Status};
use home_iptv_proxy::model::{Channel, Mode, Source};
use home_iptv_proxy::relay::{
    admit_signed, catchup, forwarded_request, forwarded_response, live, lookup, media_target,
    move_address, passed_on, passing, proxy, relay_playlist, settle_media, Answer, Header, Passing,
};
use home_iptv_proxy::runtime::{refresh, Runtime};
use home_iptv_proxy::signing::{proxy_url, sign};
use home_iptv_proxy::weburl::Url;

fn channel(id: &str, mode: Mode, catchup: Option<&str>) -> Channel {
    Channel {
        id: id.to_string(),
        source_id: "s".to_string(),
        source_name: "S".to_string(),
        mode,
        extinf: "#EXTINF:-1,x".to_string(),
        url: format!("http://up/{id}.m3u8"),
        catchup: catchup.map(str::to_string),
        upstream_base_url: None,
    }
}

fn runtime() -> Runtime {
    let source = Source {
        id: "s".to_string(),
        name: "S".to_string(),
        url: "http://up/".to_string(),
        mode: Mode::Proxy,
        enabled: true,
        upstream_base_url: None,
    };
    let channels = vec![
        channel("live", Mode::Proxy, None),
        channel("replay", Mode::Proxy, Some("http://up/r?b=${(b)timestamp}&e=${(e)timestamp}")),
        channel("odd", Mode::Proxy, Some("http://up/${unknown}")),
        channel("direct", Mode::Direct, Some("http://up/r")),
    ];
    refresh(&vec![source], vec![Some((channels, vec![]))], &Runtime::new())
}

fn refused(e: AppError, status: Status, text: &str) {
    assert_eq!(e.0, status);
    assert_eq!(e.1, text);
}

fn header(name: &str, value: &str) -> Header {
    Header { name: name.to_string(), value: value.as_bytes().to_vec() }
}

fn pairs(headers: &[Header]) -> Vec<(String, String)> {
    headers
        .iter()
        .map(|h| (h.name.clone(), String::from_utf8(h.value.clone()).unwrap()))
        .collect()
}

#[test]
fn only_relayed_channels_are_served() {
    let runtime = runtime();
    assert_eq!(lookup(&runtime, "live").unwrap().url, "http://up/live.m3u8");
    refused(lookup(&runtime, "direct").unwrap_err(), Status::NotFound, "channel unavailable");
    refused(lookup(&runtime, "none").unwrap_err(), Status::NotFound, "channel unavailable");
    let task = live(&runtime, "live").ok().unwrap();
    assert_eq!(task.target, "http://up/live.m3u8");
    assert_eq!(task.channel.id, "live");
    refused(live(&runtime, "direct").err().unwrap(), Status::NotFound, "channel unavailable");
}

#[test]
fn replays_have_a_window_and_a_template() {
    let runtime = runtime();
    let task = catchup(&runtime, "replay", 10, 20).ok().unwrap();
    assert_eq!(task.target, "http://up/r?b=10&e=20");
    assert_eq!(task.channel.id, "replay");
    for (start, end) in [(0, 5), (-1, 5), (5, 5), (5, 4)] {
        for id in ["replay", "none"] {
            refused(
                catchup(&runtime, id, start, end).err().unwrap(),
                Status::BadRequest,
                "invalid replay window",
            );
        }
    }
    refused(
        catchup(&runtime, "direct", 1, 2).err().unwrap(),
        Status::NotFound,
        "channel unavailable",
    );
    refused(
        catchup(&runtime, "live", 1, 2).err().unwrap(),
        Status::NotFound,
        "replay unavailable",
    );
    refused(
        catchup(&runtime, "odd", 1, 2).err().unwrap(),
        Status::BadRequest,
        "unsupported replay template",
    );
    refused(
        catchup(&runtime, "replay", 1, i64::MAX).err().unwrap(),
        Status::BadRequest,
        "invalid replay time",
    );
}

#[test]
fn links_are_admitted_with_their_signature_alone() {
    let runtime = runtime();
    let target = "http://up/seg 1.ts?x=1&y=2";
    let link = proxy_url("http://tv", "secret", "live", target);
    let given = link.split_once("&s=").unwrap().1;
    let task = proxy(&runtime, "secret", "live", target, given).ok().unwrap();
    assert_eq!(task.target, target);
    assert_eq!(task.channel.id, "live");
    for (secret, id, other) in [
        ("secret2", "live", target),
        ("secret", "replay", target),
        ("secret", "live", "http://up/other.ts"),
    ] {
        refused(
            proxy(&runtime, secret, id, other, given).err().unwrap(),
            Status::Forbidden,
            "invalid signature",
        );
    }
    refused(
        proxy(&runtime, "secret", "live", target, "").err().unwrap(),
        Status::Forbidden,
        "invalid signature",
    );
    let direct = sign("secret", "direct", target);
    refused(
        proxy(&runtime, "secret", "direct", target, &direct).err().unwrap(),
        Status::NotFound,
        "channel unavailable",
    );
}

#[test]
fn a_signature_is_compared_as_a_whole() {
    let admitted = admit_signed(channel("c", Mode::Proxy, None), "t", "abc", "abc");
    assert_eq!(admitted.ok().unwrap().target, "t");
    for given in ["ab", "abcd", "abC", ""] {
        let refusal = admit_signed(channel("c", Mode::Proxy, None), "t", "abc", given);
        refused(refusal.err().unwrap(), Status::Forbidden, "invalid signature");
    }
}

#[test]
fn media_are_fetched_from_web_addresses() {
    assert_eq!(media_target("HTTP://up/a b", &None).unwrap(), "http://up/a%20b");
    for target in ["rtp://up/x", "seg.ts", ""] {
        refused(
            media_target(target, &None).unwrap_err(),
            Status::BadRequest,
            "invalid media URL",
        );
    }
}

#[test]
fn an_upstream_base_takes_the_place_of_the_origin() {
    let base = Some("http://10.10.10.20:8097".to_string());
    let moved = media_target("https://tv.example/a/b.m3u8?t=http://x/#y", &base).unwrap();
    assert_eq!(moved, "http://10.10.10.20:8097/a/b.m3u8?t=http://x/#y");
    assert_eq!(media_target(&moved, &base).unwrap(), moved);
    assert_eq!(
        media_target("https://tv.example?x", &Some("http://in/ignored/path".to_string())).unwrap(),
        "http://in/?x"
    );
    for place in ["rtp://up/", "inner"] {
        refused(
            media_target("http://up/", &Some(place.to_string())).unwrap_err(),
            Status::BadRequest,
            "invalid media URL",
        );
    }
    refused(
        media_target("ftp://up/", &base).unwrap_err(),
        Status::BadRequest,
        "invalid media URL",
    );
    assert_eq!(move_address("http://a:1/x", "https://u:p@b:2/y?z"), "https://u:p@b:2/x");
    assert_eq!(move_address("http://a", "https://b#c"), "https://b");
    assert_eq!(move_address("nothing", "https://b/"), "https://b");
}

#[test]
fn range_requests_are_passed_on() {
    let sent = vec![
        header("host", "tv"),
        header("accept", "*/*"),
        header("range", "bytes=0-9"),
        header("range", "bytes=10-"),
        header("referer", "http://r/"),
        header("if-range", "\"tag\""),
        header("cookie", "x"),
    ];
    assert_eq!(
        pairs(&forwarded_request(&sent)),
        [
            ("range".to_string(), "bytes=0-9".to_string()),
            ("if-range".to_string(), "\"tag\"".to_string()),
            ("accept".to_string(), "*/*".to_string()),
            ("referer".to_string(), "http://r/".to_string()),
        ]
    );
    assert!(forwarded_request(&vec![header("cookie", "x")]).is_empty());
}

#[test]
fn the_description_of_media_is_passed_on() {
    let got = vec![
        header("server", "x"),
        header("cache-control", "max-age=1"),
        header("accept-ranges", "bytes"),
        header("content-range", "bytes 0-9/10"),
        header("content-length", "10"),
        header("content-type", "video/mp2t"),
        header("set-cookie", "x"),
    ];
    assert_eq!(
        pairs(&forwarded_response(&got)),
        [
            ("content-type".to_string(), "video/mp2t".to_string()),
            ("content-length".to_string(), "10".to_string()),
            ("content-range".to_string(), "bytes 0-9/10".to_string()),
            ("accept-ranges".to_string(), "bytes".to_string()),
            ("cache-control".to_string(), "max-age=1".to_string()),
        ]
    );
}

#[test]
fn playlists_are_told_from_streams() {
    let answer = |status: u16, content_type: Option<&str>, path: &str| Answer {
        status,
        content_type: content_type.map(str::to_string),
        path: path.to_string(),
    };
    let playlist = [
        answer(200, Some("application/x-mpegurl"), "/x"),
        answer(206, Some("application/vnd.apple.mpegurl; charset=utf-8"), "/x.ts"),
        answer(200, None, "/live/INDEX.M3U8"),
        answer(200, Some("application/x-mpegURL"), "/live/CCTV1"),
        answer(206, Some("Audio/MPEGURL"), "/"),
        answer(299, Some("text/plain"), "/a.m3u8"),
    ];
    for head in &playlist {
        assert_eq!(passing(Some(head)).unwrap(), Passing::Playlist);
    }
    let stream = [
        answer(200, Some("video/mpeg"), "/url"),
        answer(206, Some("video/mp2t"), "/x.ts"),
        answer(200, None, "/a.m3u8/seg"),
        answer(204, None, ""),
    ];
    for head in &stream {
        assert_eq!(passing(Some(head)).unwrap(), Passing::Stream);
    }
    refused(passing(None).unwrap_err(), Status::BadGateway, "upstream unavailable");
    for status in [100, 199, 300, 304, 404, 500] {
        refused(
            passing(Some(&answer(status, None, "/a.m3u8"))).unwrap_err(),
            Status::BadGateway,
            "upstream rejected request",
        );
    }
}

#[test]
fn relayed_playlists_are_rewritten_and_not_stored() {
    let origin = Url::parse("http://up/live/index.m3u8").unwrap();
    let document = relay_playlist(Some("seg.ts"), &origin, "http://tv", "secret", "c").ok().unwrap();
    assert_eq!(document.content_type, "application/vnd.apple.mpegurl");
    assert_eq!(document.cache_control, "no-store");
    assert_eq!(
        document.body,
        format!("{}\n", proxy_url("http://tv", "secret", "c", "http://up/live/seg.ts"))
    );
    for text in [None, Some("http://")] {
        refused(
            relay_playlist(text, &origin, "http://tv", "secret", "c").err().unwrap(),
            Status::BadGateway,
            "invalid upstream playlist",
        );
    }
}

#[test]
fn media_are_settled_by_what_the_addresses_read_as() {
    let web = || Url::parse("http://a/x");
    let place = || Url::parse("https://b:1/");
    let call = || Url::parse("rtp://c/");
    assert_eq!(settle_media(web(), false, None).unwrap(), "http://a/x");
    assert_eq!(settle_media(web(), true, place()).unwrap(), "https://b:1/x");
    for (target, elsewhere, at) in [
        (None, false, None),
        (call(), false, None),
        (web(), true, None),
        (web(), true, call()),
        (None, true, place()),
    ] {
        refused(
            settle_media(target, elsewhere, at).unwrap_err(),
            Status::BadRequest,
            "invalid media URL",
        );
    }
}

#[test]
fn a_part_is_passed_on_as_a_part() {
    let got = vec![
        header("content-type", "video/mp2t"),
        header("content-range", "bytes 0-3/10"),
        header("set-cookie", "k=v"),
    ];
    let reply = passed_on(206, &got);
    assert_eq!(reply.status, 206);
    assert_eq!(
        pairs(&reply.headers),
        [
            ("content-type".to_string(), "video/mp2t".to_string()),
            ("content-range".to_string(), "bytes 0-3/10".to_string()),
        ]
    );
    assert_eq!(passed_on(200, &vec![]).status, 200);
}
