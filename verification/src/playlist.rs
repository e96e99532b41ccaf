//! Reading the playlist of a source.

use vstd::prelude::*;

use crate::attributes::{attribute, attribute_chars, attribute_value};
use crate::model::{
    channel_views, copy_optional, optional_text, Channel, ChannelView, Source, SourceView,
};
use crate::signing::{hex_id, identifier};
use crate::text::{
    begins_with, chars_of, lines, parts, push_parts, split_lines, starts_with_chars,
    string_from_utf8, string_of, texts, trim_chars, trimmed, utf8_text, views,
};
use crate::weburl::{scheme_of, url_joined, url_parsed, web_address, web_scheme, Url};

verus! {

/// What has been read so far: the channel line that waits for its address, the
/// channels and the programme guides.
#[verifier::ext_equal]
pub struct Reading {
    pub info: Option<Seq<char>>,
    pub channels: Seq<ChannelView>,
    pub guides: Seq<Seq<char>>,
}

/// The programme guides in a comma-separated attribute.
pub open spec fn guides_in(line: Seq<char>, name: Seq<char>) -> Seq<Seq<char>> {
    match attribute_value(line, name) {
        Some(value) => parts(value, ','),
        None => seq![],
    }
}

/// The text whose identifier names a channel.
pub open spec fn channel_key(
    source_id: Seq<char>,
    extinf: Seq<char>,
    url: Seq<char>,
) -> Seq<char> {
    source_id + "\n"@ + extinf + "\n"@ + url
}

/// The channel that a source offers under an address.
pub open spec fn channel_of(
    source: SourceView,
    extinf: Seq<char>,
    url: Seq<char>,
) -> ChannelView {
    ChannelView {
        id: identifier(channel_key(source.id, extinf, url)),
        source_id: source.id,
        source_name: source.name,
        mode: source.mode,
        extinf: extinf,
        url: url,
        catchup: attribute_value(extinf, "catchup-source"@),
        upstream_base_url: source.upstream_base_url,
    }
}

/// The channel of an address that has been resolved, if it can be fetched.
pub open spec fn offered(
    source: SourceView,
    extinf: Seq<char>,
    resolved: Option<Seq<char>>,
) -> Seq<ChannelView> {
    match resolved {
        Some(url) => if web_scheme(scheme_of(url)) {
            seq![channel_of(source, extinf, url)]
        } else {
            seq![]
        },
        None => seq![],
    }
}

/// Reads one more line. A `#EXTM3U` line names programme guides, a `#EXTINF:`
/// line describes the channel whose address follows, and other lines that
/// begin with `#` say nothing. An address without a description is passed over.
pub open spec fn read_line(
    state: Reading,
    raw: Seq<char>,
    base: Seq<char>,
    source: SourceView,
) -> Reading {
    let line = trimmed(raw);
    if begins_with(line, "#EXTM3U"@) {
        Reading {
            guides: state.guides + guides_in(line, "x-tvg-url"@) + guides_in(line, "url-tvg"@),
            ..state
        }
    } else if begins_with(line, "#EXTINF:"@) {
        Reading { info: Some(line), ..state }
    } else if line.len() > 0 && line[0] != '#' {
        match state.info {
            Some(extinf) => Reading {
                info: None,
                channels: state.channels + offered(source, extinf, url_joined(base, line)),
                ..state
            },
            None => state,
        }
    } else {
        state
    }
}

/// What the given lines hold.
pub open spec fn read_lines(
    list: Seq<Seq<char>>,
    base: Seq<char>,
    source: SourceView,
) -> Reading
    decreases list.len(),
{
    if list.len() == 0 {
        Reading { info: None, channels: seq![], guides: seq![] }
    } else {
        read_line(read_lines(list.drop_last(), base, source), list.last(), base, source)
    }
}

/// The channel of an address that has been resolved, if it can be fetched.
pub fn media_channel(source: &Source, extinf: &str, resolved: Option<Url>) -> (r: Option<Channel>)
    ensures
        match resolved {
            Some(url) => match r {
                Some(channel) => web_scheme(url.scheme@) && channel@ == channel_of(
                    source@,
                    extinf@,
                    url.text@,
                ),
                None => !web_scheme(url.scheme@),
            },
            None => r is None,
        },
{
    match resolved {
        None => None,
        Some(url) => {
            if !url.is_web() {
                return None;
            }
            let mut key = source.id.clone();
            key.append("\n");
            key.append(extinf);
            key.append("\n");
            key.append(url.text.as_str());
            Some(
                Channel {
                    id: hex_id(key.as_str()),
                    source_id: source.id.clone(),
                    source_name: source.name.clone(),
                    mode: source.mode,
                    extinf: extinf.to_owned(),
                    url: url.text,
                    catchup: attribute(extinf, "catchup-source"),
                    upstream_base_url: copy_optional(&source.upstream_base_url),
                },
            )
        },
    }
}

fn push_guides(out: &mut Vec<String>, line: &[char], name: &str)
    ensures
        texts(final(out)@) == texts(old(out)@) + guides_in(line@, name@),
{
    match attribute_chars(line, name) {
        Some(value) => {
            push_parts(out, &value, ',');
        },
        None => {
            assert(texts(out@) =~= texts(old(out)@) + guides_in(line@, name@));
        },
    }
}

/// The channels and the programme guides in the playlist of a source; `base` is
/// the address that the playlist came from.
pub fn parse_source(text: &str, base: &Url, source: &Source) -> (r: (Vec<Channel>, Vec<String>))
    ensures
        channel_views(r.0@) == read_lines(lines(text@), base.text@, source@).channels,
        texts(r.1@) == read_lines(lines(text@), base.text@, source@).guides,
{
    let mut channels: Vec<Channel> = Vec::new();
    let mut guides: Vec<String> = Vec::new();
    let mut info: Option<String> = None;
    let chars = chars_of(text);
    let list = split_lines(&chars);
    let ghost all = lines(text@);
    let mut i: usize = 0;
    assert(channel_views(channels@) =~= seq![]);
    assert(texts(guides@) =~= seq![]);
    assert(all.take(0) =~= seq![]);
    while i < list.len()
        invariant
            i <= list.len(),
            views(list@) == all,
            channel_views(channels@) == read_lines(
                all.take(i as int),
                base.text@,
                source@,
            ).channels,
            texts(guides@) == read_lines(all.take(i as int), base.text@, source@).guides,
            optional_text(info) == read_lines(all.take(i as int), base.text@, source@).info,
        decreases list.len() - i,
    {
        let ghost state = read_lines(all.take(i as int), base.text@, source@);
        let ghost raw = all[i as int];
        assert(raw == list@[i as int]@);
        assert(all.take(i + 1).drop_last() =~= all.take(i as int));
        assert(all.take(i + 1).last() == raw);
        let line = trim_chars(&list[i]);
        if starts_with_chars(line, &chars_of("#EXTM3U")) {
            push_guides(&mut guides, line, "x-tvg-url");
            push_guides(&mut guides, line, "url-tvg");
        } else if starts_with_chars(line, &chars_of("#EXTINF:")) {
            info = Some(string_of(line));
        } else if line.len() > 0 && line[0] != '#' {
            let waiting = info.take();
            match waiting {
                Some(extinf) => {
                    let resolved = base.join(string_of(line).as_str());
                    let ghost before = channels@;
                    match media_channel(source, extinf.as_str(), resolved) {
                        Some(channel) => {
                            channels.push(channel);
                        },
                        None => {},
                    }
                    assert(channel_views(channels@) =~= channel_views(before) + offered(
                        source@,
                        extinf@,
                        url_joined(base.text@, line@),
                    ));
                },
                None => {},
            }
        }
        i += 1;
    }
    assert(all.take(i as int) =~= all);
    (channels, guides)
}

/// The most bytes that a playlist may have.
pub const PLAYLIST_LIMIT: u64 = 10_000_000;

/// The address to fetch a source from, if it is one that can be fetched.
pub fn source_base(source: &Source) -> (r: Option<Url>)
    ensures
        match r {
            Some(url) => {
                &&& url_parsed(source@.url) == Some(url.text@)
                &&& web_scheme(url.scheme@)
                &&& url.wf()
            },
            None => !web_address(source@.url),
        },
{
    match Url::parse(source.url.as_str()) {
        Some(url) => {
            if url.is_web() {
                Some(url)
            } else {
                None
            }
        },
        None => None,
    }
}

/// Whether an answer that announces this length is read at all; one that
/// announces none is.
pub fn accepts_length(announced: Option<u64>) -> (r: bool)
    ensures
        r == (announced matches Some(length) ==> length <= PLAYLIST_LIMIT),
{
    match announced {
        Some(length) => length <= PLAYLIST_LIMIT,
        None => true,
    }
}

/// What a fetched playlist holds: nothing if it is too long or not UTF-8.
pub open spec fn fetched(body: Seq<u8>, base: Seq<char>, source: SourceView) -> Option<Reading> {
    if body.len() > PLAYLIST_LIMIT {
        None
    } else {
        match utf8_text(body) {
            Some(text) => Some(read_lines(lines(text), base, source)),
            None => None,
        }
    }
}

/// The channels and the programme guides in the answer of a source.
pub fn fetch_source(body: Vec<u8>, base: &Url, source: &Source) -> (r: Option<
    (Vec<Channel>, Vec<String>),
>)
    ensures
        match r {
            Some(found) => fetched(body@, base.text@, source@) matches Some(reading)
                && channel_views(found.0@) == reading.channels && texts(found.1@)
                == reading.guides,
            None => fetched(body@, base.text@, source@) is None,
        },
{
    if body.len() as u64 > PLAYLIST_LIMIT {
        return None;
    }
    match string_from_utf8(body) {
        Some(text) => Some(parse_source(text.as_str(), base, source)),
        None => None,
    }
}

} // verus!
