//! What a refresh makes of every source, and where channels are found afterwards.

use vstd::prelude::*;

use crate::model::{
    channel_views, optional_text, source_views, Channel, ChannelView, Config, Source, SourceView,
};
use crate::ordered::{ascending, precedes};
use crate::playlist::PLAYLIST_LIMIT;
use crate::runtime::{
    channels_of, guide_of_some, last_with_id, outcome_views, refreshed, Runtime, RuntimeView,
    SourceStatus,
};
use crate::startup::{refresh_interval, SECRET_LENGTH};
use crate::text::texts;

verus! {

/// A refresh goes source by source: the channels of the first sources come before
/// those of the last, and what is known of a source that comes twice is what its
/// last place gave.
pub proof fn law_refreshed_in_parts(
    one: Seq<SourceView>,
    two: Seq<SourceView>,
    first: Seq<Option<(Seq<ChannelView>, Seq<Seq<char>>)>>,
    last: Seq<Option<(Seq<ChannelView>, Seq<Seq<char>>)>>,
    previous: RuntimeView,
)
    requires
        one.len() == first.len(),
        two.len() == last.len(),
    ensures
        ({
            let a = refreshed(one, first, previous);
            let b = refreshed(two, last, previous);
            let both = refreshed(one + two, first + last, previous);
            &&& both.channels == a.channels + b.channels
            &&& both.source_status == a.source_status.union_prefer_right(b.source_status)
            &&& both.epg_by_source == a.epg_by_source.union_prefer_right(b.epg_by_source)
        }),
    decreases two.len(),
{
    let a = refreshed(one, first, previous);
    let b = refreshed(two, last, previous);
    let both = refreshed(one + two, first + last, previous);
    if two.len() == 0 {
        assert(one + two =~= one);
        assert(first + last =~= first);
        assert(a.channels + b.channels =~= a.channels);
        assert(a.source_status.union_prefer_right(b.source_status) =~= a.source_status);
        assert(a.epg_by_source.union_prefer_right(b.epg_by_source) =~= a.epg_by_source);
    } else {
        law_refreshed_in_parts(one, two.drop_last(), first, last.drop_last(), previous);
        assert((one + two).drop_last() =~= one + two.drop_last());
        assert((first + last).drop_last() =~= first + last.drop_last());
        assert((one + two).last() == two.last());
        assert((first + last).last() == last.last());
        assert(both.channels =~= a.channels + b.channels);
        assert(both.source_status =~= a.source_status.union_prefer_right(b.source_status));
        assert(both.epg_by_source =~= a.epg_by_source.union_prefer_right(b.epg_by_source));
    }
}

/// What one source adds: nothing if it is disabled; what it holds now if it was
/// fetched; and if that failed, the channels and programme guides that it had,
/// with the failure noted.
pub proof fn law_one_refreshed(
    source: SourceView,
    outcome: Option<(Seq<ChannelView>, Seq<Seq<char>>)>,
    previous: RuntimeView,
)
    ensures
        ({
            let after = refreshed(seq![source], seq![outcome], previous);
            let stale = channels_of(previous.channels, source.id);
            &&& !source.enabled ==> {
                &&& after.channels == Seq::<ChannelView>::empty()
                &&& forall|id: Seq<char>| !after.source_status.contains_key(id)
                &&& forall|id: Seq<char>| !after.epg_by_source.contains_key(id)
            }
            &&& source.enabled ==> {
                &&& forall|id: Seq<char>|
                    after.source_status.contains_key(id) <==> id == source.id
                &&& after.source_status[source.id].error <==> outcome is None
                &&& after.source_status[source.id].count == after.channels.len()
            }
            &&& source.enabled ==> match outcome {
                Some((channels, guides)) => {
                    &&& after.channels == channels
                    &&& forall|id: Seq<char>|
                        after.epg_by_source.contains_key(id) <==> id == source.id
                    &&& after.epg_by_source[source.id] == guides
                },
                None => {
                    &&& after.channels == stale
                    &&& forall|id: Seq<char>|
                        after.epg_by_source.contains_key(id) <==> id == source.id
                            && previous.epg_by_source.contains_key(source.id)
                    &&& previous.epg_by_source.contains_key(source.id)
                        ==> after.epg_by_source[source.id] == previous.epg_by_source[source.id]
                },
            }
        }),
{
    assert(seq![source].drop_last() =~= seq![]);
    assert(seq![outcome].drop_last() =~= seq![]);
    let nothing = refreshed(seq![source].drop_last(), seq![outcome].drop_last(), previous);
    assert(nothing == RuntimeView::nothing());
    let after = refreshed(seq![source], seq![outcome], previous);
    let stale = channels_of(previous.channels, source.id);
    assert(Seq::<ChannelView>::empty() + stale =~= stale);
    match outcome {
        Some((channels, _)) => {
            assert(Seq::<ChannelView>::empty() + channels =~= channels);
        },
        None => {},
    }
}

/// The channels that a source had are those that name it, in their order.
pub proof fn law_channels_of(
    one: Seq<ChannelView>,
    two: Seq<ChannelView>,
    channel: ChannelView,
    id: Seq<char>,
)
    ensures
        channels_of(one + two, id) == channels_of(one, id) + channels_of(two, id),
        channels_of(seq![channel], id) == if channel.source_id == id {
            seq![channel]
        } else {
            seq![]
        },
        channels_of(seq![], id) == Seq::<ChannelView>::empty(),
    decreases two.len(),
{
    assert(seq![channel].drop_last() =~= seq![]);
    assert(channels_of(seq![channel].drop_last(), id) =~= seq![]);
    assert(Seq::<ChannelView>::empty().push(channel) =~= seq![channel]);
    if two.len() == 0 {
        assert(one + two =~= one);
        assert(channels_of(one, id) + channels_of(two, id) =~= channels_of(one, id));
    } else {
        law_channels_of(one, two.drop_last(), channel, id);
        assert((one + two).drop_last() =~= one + two.drop_last());
        assert((one + two).last() == two.last());
        assert(channels_of(one + two, id) =~= channels_of(one, id) + channels_of(two, id));
    }
}

/// A channel is found under its identifier exactly if no later one has it, and
/// nothing is found under an identifier that no channel has.
pub proof fn law_last_with_id(channels: Seq<ChannelView>, id: Seq<char>)
    ensures
        match last_with_id(channels, id) {
            Some(i) => {
                &&& 0 <= i < channels.len()
                &&& channels[i].id == id
                &&& forall|j: int| i < j < channels.len() ==> (#[trigger] channels[j]).id != id
            },
            None => forall|j: int|
                0 <= j < channels.len() ==> (#[trigger] channels[j]).id != id,
        },
    decreases channels.len(),
{
    if channels.len() > 0 && channels.last().id != id {
        let front = channels.drop_last();
        law_last_with_id(front, id);
        match last_with_id(front, id) {
            Some(i) => {
                assert(front[i] == channels[i]);
                assert forall|j: int| i < j < channels.len() implies (#[trigger] channels[j]).id
                    != id by {
                    if j < front.len() {
                        assert(front[j] == channels[j]);
                    }
                }
            },
            None => {
                assert forall|j: int| 0 <= j < channels.len() implies (#[trigger] channels[j]).id
                    != id by {
                    if j < front.len() {
                        assert(front[j] == channels[j]);
                    }
                }
            },
        }
    }
}

/// A source names this programme guide.
pub open spec fn named_by_some(
    guides: Map<Seq<char>, Seq<Seq<char>>>,
    url: Seq<char>,
) -> bool {
    exists|id: Seq<char>, j: int|
        {
            &&& guides.contains_key(id)
            &&& 0 <= j < guides[id].len()
            &&& #[trigger] guides[id][j] == url
        }
}

/// The programme guides that are told are those of all sources, each once, in the
/// order of their characters.
pub proof fn law_guides_told(runtime: Runtime)
    requires
        runtime.wf(),
    ensures
        forall|id: Seq<char>, k: int|
            #![trigger runtime@.epg_by_source[id][k]]
            runtime@.epg_by_source.contains_key(id) && 0 <= k
                < runtime@.epg_by_source[id].len() ==> runtime.guides().contains(
                runtime@.epg_by_source[id][k],
            ),
        forall|k: int|
            #![trigger runtime.guides()[k]]
            0 <= k < runtime.guides().len() ==> named_by_some(
                runtime@.epg_by_source,
                runtime.guides()[k],
            ),
        forall|i: int, j: int|
            0 <= i < j < runtime.guides().len() ==> precedes(
                #[trigger] runtime.guides()[i],
                #[trigger] runtime.guides()[j],
            ),
{
    runtime.lemma_guides();
    assert forall|id: Seq<char>, k: int|
        #![trigger runtime@.epg_by_source[id][k]]
        runtime@.epg_by_source.contains_key(id) && 0 <= k
            < runtime@.epg_by_source[id].len() implies runtime.guides().contains(
        runtime@.epg_by_source[id][k],
    ) by {
        let url = runtime@.epg_by_source[id][k];
        assert(runtime@.epg_by_source[id].contains(url));
        assert(guide_of_some(runtime@.epg_by_source, url));
    }
    assert forall|k: int|
        #![trigger runtime.guides()[k]]
        0 <= k < runtime.guides().len() implies named_by_some(
        runtime@.epg_by_source,
        runtime.guides()[k],
    ) by {
        let url = runtime.guides()[k];
        assert(runtime.guides().contains(url));
        assert(guide_of_some(runtime@.epg_by_source, url));
        let id = choose|id: Seq<char>| #[trigger]
            runtime@.epg_by_source.contains_key(id) && runtime@.epg_by_source[id].contains(url);
        let j = choose|j: int|
            0 <= j < runtime@.epg_by_source[id].len() && runtime@.epg_by_source[id][j] == url;
        assert(runtime@.epg_by_source[id][j] == url);
    }
    assert(ascending(runtime.guides()));
}

/// A text comes before another if it is a proper beginning of the other, or if it
/// has the smaller character at the first place where they differ.
pub proof fn law_precedes(a: Seq<char>, b: Seq<char>)
    ensures
        precedes(a, b) <==> exists|k: int| #[trigger] differ_at(a, b, k) && k < b.len() && (k
            == a.len() || a[k] < b[k]),
    decreases a.len(),
{
    if a.len() > 0 && b.len() > 0 && a[0] == b[0] {
        let x = a.drop_first();
        let y = b.drop_first();
        law_precedes(x, y);
        if precedes(x, y) {
            let k = choose|k: int| #[trigger] differ_at(x, y, k) && k < y.len() && (k == x.len()
                || x[k] < y[k]);
            assert forall|j: int| 0 <= j < k + 1 implies a[j] == #[trigger] b[j] by {
                if j > 0 {
                    assert(x[j - 1] == y[j - 1]);
                }
            }
            assert(differ_at(a, b, k + 1));
        }
        if exists|k: int| #[trigger] differ_at(a, b, k) && k < b.len() && (k == a.len() || a[k]
            < b[k]) {
            let k = choose|k: int| #[trigger] differ_at(a, b, k) && k < b.len() && (k == a.len()
                || a[k] < b[k]);
            assert forall|j: int| 0 <= j < k - 1 implies x[j] == #[trigger] y[j] by {
                assert(a[j + 1] == b[j + 1]);
            }
            assert(differ_at(x, y, k - 1));
        }
    } else if b.len() > 0 {
        assert(differ_at(a, b, 0));
        if exists|k: int| #[trigger] differ_at(a, b, k) && k < b.len() && (k == a.len() || a[k]
            < b[k]) {
            let k = choose|k: int| #[trigger] differ_at(a, b, k) && k < b.len() && (k == a.len()
                || a[k] < b[k]);
            if k > 0 {
                assert(a[0] == b[0]);
            }
        }
    }
}

/// The texts are the same up to position `k`.
pub open spec fn differ_at(a: Seq<char>, b: Seq<char>, k: int) -> bool {
    &&& 0 <= k <= a.len()
    &&& k <= b.len()
    &&& forall|j: int| 0 <= j < k ==> a[j] == #[trigger] b[j]
}

/// What is said of a value is said of its fields as they are.
pub proof fn law_contents(source: Source, channel: Channel, config: Config)
    ensures
        source@.id == source.id@,
        source@.name == source.name@,
        source@.url == source.url@,
        source@.mode == source.mode,
        source@.enabled == source.enabled,
        source.upstream_base_url is None <==> source@.upstream_base_url is None,
        source.upstream_base_url matches Some(place) ==> source@.upstream_base_url == Some(place@),
        channel@.id == channel.id@,
        channel@.source_id == channel.source_id@,
        channel@.source_name == channel.source_name@,
        channel@.mode == channel.mode,
        channel@.extinf == channel.extinf@,
        channel@.url == channel.url@,
        channel.catchup is None <==> channel@.catchup is None,
        channel.catchup matches Some(template) ==> channel@.catchup == Some(template@),
        channel.upstream_base_url is None <==> channel@.upstream_base_url is None,
        channel.upstream_base_url matches Some(place) ==> channel@.upstream_base_url == Some(
            place@,
        ),
        config@.bind == config.bind@,
        config.public_base_url is None <==> config@.public_base_url is None,
        config.public_base_url matches Some(base) ==> config@.public_base_url == Some(base@),
        config@.refresh_minutes == config.refresh_minutes,
        config@.signing_secret == config.signing_secret@,
        config@.sources == source_views(config.sources@),
{
}

/// What is said of a list is said of its members, one for one.
pub proof fn law_list_contents(
    sources: Seq<Source>,
    channels: Seq<Channel>,
    strings: Seq<String>,
    outcomes: Seq<Option<(Vec<Channel>, Vec<String>)>>,
    given: Option<String>,
)
    ensures
        source_views(sources).len() == sources.len(),
        forall|i: int|
            0 <= i < sources.len() ==> #[trigger] source_views(sources)[i] == sources[i]@,
        channel_views(channels).len() == channels.len(),
        forall|i: int|
            0 <= i < channels.len() ==> #[trigger] channel_views(channels)[i] == channels[i]@,
        texts(strings).len() == strings.len(),
        forall|i: int| 0 <= i < strings.len() ==> #[trigger] texts(strings)[i] == strings[i]@,
        outcome_views(outcomes).len() == outcomes.len(),
        forall|i: int|
            0 <= i < outcomes.len() ==> match outcomes[i] {
                Some(found) => #[trigger] outcome_views(outcomes)[i] == Some(
                    (channel_views(found.0@), texts(found.1@)),
                ),
                None => outcome_views(outcomes)[i] is None,
            },
        given is None <==> optional_text(given) is None,
        given matches Some(text) ==> optional_text(given) == Some(text@),
{
}

/// How a refresh went is told as it is noted.
pub proof fn law_status_contents(status: SourceStatus)
    ensures
        status.deep_view().count == status.count,
        status.deep_view().error == status.error,
{
}

/// The limits of the service: a playlist has at most ten million bytes, the secret
/// at least 32 characters, and two refreshes are at least a minute apart.
pub proof fn law_limits(minutes: u64)
    ensures
        PLAYLIST_LIMIT == 10_000_000,
        SECRET_LENGTH == 32,
        minutes >= 1 ==> refresh_interval(minutes) == minutes,
        minutes == 0 ==> refresh_interval(minutes) == 1,
{
}

} // verus!
