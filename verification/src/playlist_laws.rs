//! What every channel that is read from a playlist is like.

use vstd::prelude::*;

use crate::attributes::attribute_value;
use crate::model::{ChannelView, SourceView};
use crate::playlist::{channel_key, channel_of, read_line, read_lines};
use crate::runtime_laws::all_from;
use crate::signing::identifier;
use crate::text::begins_with;
use crate::weburl::{scheme_of, web_scheme};

verus! {

/// A channel of a source as a playlist describes it: it has the description and
/// an address that can be fetched, and all else follows from these and from the
/// source.
pub open spec fn described(channel: ChannelView, source: SourceView) -> bool {
    &&& channel == channel_of(source, channel.extinf, channel.url)
    &&& begins_with(channel.extinf, "#EXTINF:"@)
    &&& web_scheme(scheme_of(channel.url))
}

/// Reading keeps to channels that the playlist describes.
proof fn lemma_read_channels(list: Seq<Seq<char>>, base: Seq<char>, source: SourceView)
    ensures
        forall|k: int|
            0 <= k < read_lines(list, base, source).channels.len() ==> described(
                #[trigger] read_lines(list, base, source).channels[k],
                source,
            ),
        read_lines(list, base, source).info matches Some(extinf) ==> begins_with(
            extinf,
            "#EXTINF:"@,
        ),
    decreases list.len(),
{
    if list.len() > 0 {
        let before = read_lines(list.drop_last(), base, source);
        let after = read_lines(list, base, source);
        lemma_read_channels(list.drop_last(), base, source);
        assert(after == read_line(before, list.last(), base, source));
        assert forall|k: int| 0 <= k < after.channels.len() implies described(
            #[trigger] after.channels[k],
            source,
        ) by {
            if k < before.channels.len() {
                assert(after.channels[k] == before.channels[k]);
            }
        }
    }
}

/// Every channel of a playlist belongs to the source and has its name and its way
/// of playing, the address is one that can be fetched, and the replay template is
/// the one of the description: none is made up.
pub proof fn law_channels_described(
    list: Seq<Seq<char>>,
    base: Seq<char>,
    source: SourceView,
    k: int,
)
    requires
        0 <= k < read_lines(list, base, source).channels.len(),
    ensures
        ({
            let channel = read_lines(list, base, source).channels[k];
            &&& channel.source_id == source.id
            &&& channel.source_name == source.name
            &&& channel.mode == source.mode
            &&& channel.upstream_base_url == source.upstream_base_url
            &&& channel.id == identifier(channel_key(source.id, channel.extinf, channel.url))
            &&& channel.catchup == attribute_value(channel.extinf, "catchup-source"@)
            &&& begins_with(channel.extinf, "#EXTINF:"@)
            &&& web_scheme(scheme_of(channel.url))
        }),
{
    lemma_read_channels(list, base, source);
    assert(described(read_lines(list, base, source).channels[k], source));
}

/// The channels of a playlist come from its source.
pub proof fn law_channels_from_source(list: Seq<Seq<char>>, base: Seq<char>, source: SourceView)
    ensures
        all_from(read_lines(list, base, source).channels, source.id),
{
    let channels = read_lines(list, base, source).channels;
    assert forall|k: int| 0 <= k < channels.len() implies (#[trigger] channels[k]).source_id
        == source.id by {
        law_channels_described(list, base, source, k);
    }
}

} // verus!
