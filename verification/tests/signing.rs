use home_iptv_proxy::signing::{hex_id, proxy_link, proxy_url, short_id, sign};

#[test]
fn identifiers_are_the_beginning_of_the_digest() {
    assert_eq!(hex_id("abc"), "ba7816bf8f01cfea414140de");
    assert_eq!(hex_id(""), "e3b0c44298fc1c149afbf4c8");
    assert_eq!(hex_id("源"), "f4e2ebc162b202b154a48691");
}

#[test]
fn digests_are_written_in_hexadecimal() {
    let digest = [0u8, 1, 15, 16, 127, 128, 159, 160, 171, 205, 239, 255, 7];
    assert_eq!(short_id(&digest), "00010f107f809fa0abcdefff");
}

#[test]
fn signatures_cover_secret_channel_and_target() {
    assert_eq!(
        sign("secret", "channel", "http://host/master/low/index.m3u8"),
        "IPW8Lf-Pmxoltz1V-q6KoUYa7bxXuvKXcVT60Cw94Ew"
    );
    assert_eq!(
        sign("秘密", "a", "b"),
        "P41Y-b-QVYEnogeyC-0llXXdRsJ-o0H5-9tXOrP93to"
    );
    let base = sign("secret", "a", "b");
    assert_eq!(base.len(), 43);
    assert_ne!(base, sign("secret2", "a", "b"));
    assert_ne!(base, sign("secret", "b", "b"));
    assert_ne!(base, sign("secret", "a", "c"));
    assert_ne!(sign("secret", "ab", "c"), sign("secret", "a", "bc"));
}

#[test]
fn an_empty_secret_signs_too() {
    assert_eq!(sign("", "", "").len(), 43);
}

#[test]
fn targets_are_percent_encoded() {
    assert_eq!(
        proxy_link("http://tv", "id", "http://a/中 文?x=1&y=~-._", "SIG"),
        "http://tv/proxy/id?u=http%3A%2F%2Fa%2F%E4%B8%AD%20%E6%96%87%3Fx%3D1%26y%3D~-._&s=SIG"
    );
    assert_ne!(
        proxy_link("b", "i", "a%2F", "s"),
        proxy_link("b", "i", "a/", "s")
    );
}

#[test]
fn links_carry_their_signature() {
    let link = proxy_url("http://tv", "secret", "channel", "http://host/master/seg.ts");
    assert_eq!(
        link,
        "http://tv/proxy/channel?u=http%3A%2F%2Fhost%2Fmaster%2Fseg.ts&s=rpoNxcl45KFgO2DtXlVkW6npylcEb6PUcw0YV5etcpY"
    );
    let odd = proxy_url("http://tv", "secret", "channel", "http://h/\"\n\r,");
    assert!(!odd.contains(['"', '\n', '\r', ',']));
}
