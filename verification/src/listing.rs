//! The aggregated playlist that players subscribe to.

use vstd::prelude::*;

use crate::attributes::{set_attribute, with_attribute};
use crate::model::{channel_views, Channel, ChannelView, Mode};
use crate::runtime::Runtime;
use crate::text::{chars_of, join_strings, joined, string_of, strip_trailing, without_trailing};

verus! {

/// An answer with a text body.
pub struct Document {
    pub content_type: &'static str,
    pub cache_control: &'static str,
    pub body: String,
}

/// The address under which players reach the service: the configured one
/// without trailing slashes, or else the host that the request names.
pub open spec fn service_address(
    public_base_url: Option<Seq<char>>,
    host: Option<Seq<char>>,
) -> Seq<char> {
    match public_base_url {
        Some(base) => without_trailing(base, '/'),
        None => match host {
            Some(name) => "http://"@ + name,
            None => "http://"@ + "127.0.0.1:8787"@,
        },
    }
}

/// The address under which players reach the service.
pub fn base_url(public_base_url: Option<&str>, host: Option<&str>) -> (r: String)
    ensures
        r@ == service_address(
            match public_base_url {
                Some(s) => Some(s@),
                None => None,
            },
            match host {
                Some(s) => Some(s@),
                None => None,
            },
        ),
{
    match public_base_url {
        Some(base) => string_of(strip_trailing(&chars_of(base), '/')),
        None => {
            let mut r = "http://".to_owned();
            match host {
                Some(name) => {
                    r.append(name);
                },
                None => {
                    r.append("127.0.0.1:8787");
                },
            }
            r
        },
    }
}

/// The replay address that players are given for a relayed channel.
pub open spec fn replay_link(base: Seq<char>, id: Seq<char>) -> Seq<char> {
    base + "/catchup/"@ + id + "?start=${(b)timestamp}&end=${(e)timestamp}"@
}

/// The description of a channel with the replay of a relayed one led through the
/// service.
pub open spec fn replay_info(channel: ChannelView, base: Seq<char>) -> Seq<char> {
    if channel.mode == Mode::Proxy && channel.catchup is Some {
        with_attribute(
            with_attribute(channel.extinf, "catchup"@, "default"@),
            "catchup-source"@,
            replay_link(base, channel.id),
        )
    } else {
        channel.extinf
    }
}

/// The description of a channel in the list.
pub open spec fn listed_info(channel: ChannelView, base: Seq<char>) -> Seq<char> {
    with_attribute(
        with_attribute(replay_info(channel, base), "source-name"@, channel.source_name),
        "access-mode"@,
        channel.mode.access_text(),
    )
}

/// The address of a channel in the list.
pub open spec fn listed_address(channel: ChannelView, base: Seq<char>) -> Seq<char> {
    match channel.mode {
        Mode::Direct => channel.url,
        Mode::Proxy => base + "/live/"@ + channel.id,
    }
}

/// The two lines of a channel in the list.
pub open spec fn listed(channel: ChannelView, base: Seq<char>) -> Seq<char> {
    listed_info(channel, base) + "\n"@ + listed_address(channel, base) + "\n"@
}

/// The first line of the list.
pub open spec fn heading(guides: Seq<Seq<char>>) -> Seq<char> {
    if guides.len() == 0 {
        "#EXTM3U"@ + "\n"@
    } else {
        "#EXTM3U"@ + " x-tvg-url=\""@ + joined(guides, ","@) + "\""@ + "\n"@
    }
}

/// The list: its first line, then the channels.
pub open spec fn list_text(
    guides: Seq<Seq<char>>,
    channels: Seq<ChannelView>,
    base: Seq<char>,
) -> Seq<char>
    decreases channels.len(),
{
    if channels.len() == 0 {
        heading(guides)
    } else {
        list_text(guides, channels.drop_last(), base) + listed(channels.last(), base)
    }
}

/// The description of a channel in the list.
pub fn channel_info(channel: &Channel, base: &str) -> (r: String)
    ensures
        r@ == listed_info(channel@, base@),
{
    let mut info = channel.extinf.clone();
    if channel.mode == Mode::Proxy && channel.catchup.is_some() {
        let mut link = base.to_owned();
        link.append("/catchup/");
        link.append(channel.id.as_str());
        link.append("?start=${(b)timestamp}&end=${(e)timestamp}");
        info = set_attribute(info.as_str(), "catchup", "default");
        info = set_attribute(info.as_str(), "catchup-source", link.as_str());
    }
    info = set_attribute(info.as_str(), "source-name", channel.source_name.as_str());
    set_attribute(info.as_str(), "access-mode", channel.mode.access())
}

fn push_channel(body: &mut String, channel: &Channel, base: &str)
    ensures
        final(body)@ == old(body)@ + listed(channel@, base@),
{
    body.append(channel_info(channel, base).as_str());
    body.append("\n");
    match channel.mode {
        Mode::Direct => {
            body.append(channel.url.as_str());
        },
        Mode::Proxy => {
            let mut address = base.to_owned();
            address.append("/live/");
            address.append(channel.id.as_str());
            body.append(address.as_str());
        },
    }
    body.append("\n");
    assert(body@ =~= old(body)@ + listed(channel@, base@));
}

/// The aggregated playlist, for players that reach the service under `base`.
pub fn list_m3u(runtime: &Runtime, base: &str) -> (r: Document)
    ensures
        r.body@ == list_text(runtime.guides(), runtime@.channels, base@),
        r.content_type@ == "application/x-mpegURL; charset=utf-8"@,
        r.cache_control@ == "no-store"@,
{
    let guides = runtime.epg_urls();
    let channels = runtime.channels();
    let mut body = "#EXTM3U".to_owned();
    if guides.len() > 0 {
        body.append(" x-tvg-url=\"");
        body.append(join_strings(guides, ",").as_str());
        body.append("\"");
    }
    body.append("\n");
    let ghost all = runtime@.channels;
    let mut i: usize = 0;
    assert(all.take(0) =~= seq![]);
    while i < channels.len()
        invariant
            i <= channels.len(),
            channel_views(channels@) == all,
            body@ == list_text(runtime.guides(), all.take(i as int), base@),
        decreases channels.len() - i,
    {
        assert(all.take(i + 1).drop_last() =~= all.take(i as int));
        assert(all.take(i + 1).last() == channels@[i as int]@);
        push_channel(&mut body, &channels[i], base);
        i += 1;
    }
    assert(all.take(i as int) =~= all);
    Document {
        content_type: "application/x-mpegURL; charset=utf-8",
        cache_control: "no-store",
        body,
    }
}

/// What is told of the state of the service.
#[derive(Debug, Clone, Copy, PartialEq, Eq, Structural)]
pub struct Health {
    pub ok: bool,
    pub channels: usize,
    pub sources: usize,
}

/// The state of the service: the numbers of channels and of sources that were
/// tried.
pub fn health(runtime: &Runtime) -> (r: Health)
    requires
        runtime.wf(),
    ensures
        r.ok,
        r.channels == runtime@.channels.len(),
        r.sources == runtime@.source_status.dom().len(),
{
    let channels = runtime.channels();
    assert(channel_views(channels@).len() == channels@.len());
    Health { ok: true, channels: channels.len(), sources: runtime.source_count() }
}

} // verus!
