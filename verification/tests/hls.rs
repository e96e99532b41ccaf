use home_iptv_proxy::failure::Status;
use home_iptv_proxy::hls::{put_link, reference_of, rewrite_hls};
use home_iptv_proxy::weburl::Url;

fn chars(text: &str) -> Vec<char> {
    text.chars().collect()
}

#[test]
fn hls_rewrites_keys_segments_and_variants() {
    let origin = Url::parse("http://host/master/index.m3u8").unwrap();
    let text = "#EXTM3U\n#EXT-X-KEY:METHOD=AES-128,URI=\"key.bin\"\n#EXT-X-STREAM-INF:BANDWIDTH=1000\nlow/index.m3u8\nseg.ts\n";
    let result = rewrite_hls(text, &origin, "http://local", "secret", "channel").unwrap();
    assert!(result.contains("u=http%3A%2F%2Fhost%2Fmaster%2Fkey.bin"));
    assert!(result.contains("u=http%3A%2F%2Fhost%2Fmaster%2Flow%2Findex.m3u8"));
    assert!(result.contains("u=http%3A%2F%2Fhost%2Fmaster%2Fseg.ts"));
}

#[test]
fn a_playlist_is_rewritten_line_by_line() {
    let origin = Url::parse("http://host/master/index.m3u8").unwrap();
    let text = "#EXTM3U\r\n#EXT-X-KEY:METHOD=AES-128,URI=\"key.bin\",IV=1\n\n  seg.ts  \n#EXT-X-ENDLIST";
    let result = rewrite_hls(text, &origin, "http://local", "secret", "channel").unwrap();
    let expected = "#EXTM3U\n\
        #EXT-X-KEY:METHOD=AES-128,URI=\"http://local/proxy/channel?u=http%3A%2F%2Fhost%2Fmaster%2Fkey.bin&s=pxN2gKTks_ItCzba7rNLA59so_J6SBi2qpTqOd0ynnc\",IV=1\n\
        \n\
        http://local/proxy/channel?u=http%3A%2F%2Fhost%2Fmaster%2Fseg.ts&s=rpoNxcl45KFgO2DtXlVkW6npylcEb6PUcw0YV5etcpY\n\
        #EXT-X-ENDLIST\n";
    assert_eq!(result, expected);
    let before: Vec<_> = text.lines().collect();
    let after: Vec<_> = result.lines().collect();
    assert_eq!(before.len(), after.len());
    for (old, new) in before.iter().zip(&after) {
        let referred = reference_of(&chars(old)).is_some();
        let link: Option<String> = reference_of(&chars(new)).map(|c| c.into_iter().collect());
        assert_eq!(referred, link.is_some());
        if let Some(link) = link {
            assert!(link.starts_with("http://local/proxy/channel?u=http%3A%2F%2Fhost%2Fmaster%2F"));
        }
    }
}

#[test]
fn absolute_and_rooted_references_are_resolved() {
    let origin = Url::parse("https://host/a/b.m3u8").unwrap();
    let result = rewrite_hls("/root.ts\nhttp://other/x.ts\n../up.ts", &origin, "", "k", "i").unwrap();
    let targets: Vec<_> = result
        .lines()
        .map(|line| line.split_once("&s=").unwrap().0.to_string())
        .collect();
    assert_eq!(
        targets,
        [
            "/proxy/i?u=https%3A%2F%2Fhost%2Froot.ts",
            "/proxy/i?u=http%3A%2F%2Fother%2Fx.ts",
            "/proxy/i?u=https%3A%2F%2Fhost%2Fup.ts",
        ]
    );
}

#[test]
fn a_reference_that_cannot_be_resolved_fails_the_playlist() {
    let origin = Url::parse("http://host/a/b.m3u8").unwrap();
    for text in ["ok.ts\nhttp://\n", "#EXT-X-MAP:URI=\"http://[\"\n"] {
        let refusal = rewrite_hls(text, &origin, "http://local", "secret", "channel").unwrap_err();
        assert_eq!(refusal.0, Status::BadGateway);
        assert_eq!(refusal.1, "invalid upstream playlist");
    }
}

#[test]
fn an_empty_playlist_stays_empty() {
    let origin = Url::parse("http://host/").unwrap();
    assert_eq!(rewrite_hls("", &origin, "b", "s", "i").unwrap(), "");
    assert_eq!(rewrite_hls("\n \n", &origin, "b", "s", "i").unwrap(), "\n\n");
}

#[test]
fn a_link_that_is_put_in_is_read_back() {
    for raw in ["seg.ts", "  seg.ts\t", " #EXT-X-MAP:URI=\"init.mp4\",X=1", "#URI=\"\""] {
        let after = put_link(&chars(raw), &chars("http://l/p?u=1"));
        let read: String = reference_of(&after).unwrap().into_iter().collect();
        assert_eq!(read, "http://l/p?u=1");
    }
    assert_eq!(put_link(&chars("#EXTM3U"), &chars("link")), chars("#EXTM3U"));
    assert_eq!(put_link(&chars("#X URI=\"open"), &chars("link")), chars("#X URI=\"open"));
    assert!(put_link(&chars("   "), &chars("link")).is_empty());
    assert!(reference_of(&chars("#X URI=\"open")).is_none());
}
