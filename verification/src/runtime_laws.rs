//! What a refresh gives each source, and which channels can be found.

use vstd::prelude::*;

use crate::model::{ChannelView, SourceView};
use crate::ordered::lemma_ascending_unique;
use crate::runtime::{
    absorbed, channels_of, last_with_id, refreshed, Runtime, RuntimeView, StatusView,
};

verus! {

/// No two sources share an identifier.
pub open spec fn distinct_ids(sources: Seq<SourceView>) -> bool {
    forall|i: int, j: int|
        0 <= i < j < sources.len() ==> (#[trigger] sources[i]).id != (#[trigger] sources[j]).id
}

/// All channels come from one source.
pub open spec fn all_from(channels: Seq<ChannelView>, id: Seq<char>) -> bool {
    forall|k: int| 0 <= k < channels.len() ==> (#[trigger] channels[k]).source_id == id
}

/// What was fetched for a source came from it.
pub open spec fn attributed(
    sources: Seq<SourceView>,
    outcomes: Seq<Option<(Seq<ChannelView>, Seq<Seq<char>>)>>,
) -> bool {
    &&& outcomes.len() == sources.len()
    &&& forall|i: int|
        0 <= i < sources.len() ==> (#[trigger] outcomes[i] matches Some((channels, _)) ==> all_from(
            channels,
            sources[i].id,
        ))
}

/// A source with this identifier is tried.
pub open spec fn tried(sources: Seq<SourceView>, id: Seq<char>) -> bool {
    exists|i: int| 0 <= i < sources.len() && (#[trigger] sources[i]).id == id && sources[i].enabled
}

proof fn lemma_channels_of_concat(a: Seq<ChannelView>, b: Seq<ChannelView>, id: Seq<char>)
    ensures
        channels_of(a + b, id) == channels_of(a, id) + channels_of(b, id),
    decreases b.len(),
{
    if b.len() == 0 {
        assert(a + b =~= a);
        assert(channels_of(a, id) + channels_of(b, id) =~= channels_of(a, id));
    } else {
        assert((a + b).drop_last() =~= a + b.drop_last());
        lemma_channels_of_concat(a, b.drop_last(), id);
        assert(channels_of(a + b, id) =~= channels_of(a, id) + channels_of(b, id));
    }
}

/// The channels of a source are those that it is given as its own.
pub proof fn lemma_channels_of(channels: Seq<ChannelView>, id: Seq<char>)
    ensures
        all_from(channels_of(channels, id), id),
        all_from(channels, id) ==> channels_of(channels, id) == channels,
    decreases channels.len(),
{
    if channels.len() > 0 {
        let front = channels.drop_last();
        lemma_channels_of(front, id);
        if all_from(channels, id) {
            assert forall|k: int| 0 <= k < front.len() implies (#[trigger] front[k]).source_id
                == id by {
                assert(front[k] == channels[k]);
            }
            assert(channels[channels.len() - 1].source_id == id);
            assert(front.push(channels.last()) =~= channels);
        }
    }
}

proof fn lemma_channels_of_other(channels: Seq<ChannelView>, id: Seq<char>, other: Seq<char>)
    requires
        all_from(channels, other),
        id != other,
    ensures
        channels_of(channels, id) == Seq::<ChannelView>::empty(),
    decreases channels.len(),
{
    if channels.len() > 0 {
        let front = channels.drop_last();
        assert forall|k: int| 0 <= k < front.len() implies (#[trigger] front[k]).source_id
            == other by {
            assert(front[k] == channels[k]);
        }
        assert(channels[channels.len() - 1].source_id == other);
        lemma_channels_of_other(front, id, other);
    }
}

/// Taking in one source leaves the others as they are.
proof fn lemma_absorbed_other(
    state: RuntimeView,
    source: SourceView,
    outcome: Option<(Seq<ChannelView>, Seq<Seq<char>>)>,
    previous: RuntimeView,
    id: Seq<char>,
)
    requires
        outcome matches Some((channels, _)) ==> all_from(channels, source.id),
        source.id != id || !source.enabled,
    ensures
        ({
            let after = absorbed(state, source, outcome, previous);
            &&& channels_of(after.channels, id) == channels_of(state.channels, id)
            &&& after.source_status.contains_key(id) == state.source_status.contains_key(id)
            &&& after.source_status[id] == state.source_status[id]
            &&& after.epg_by_source.contains_key(id) == state.epg_by_source.contains_key(id)
            &&& after.epg_by_source[id] == state.epg_by_source[id]
        }),
{
    if source.enabled {
        let added = match outcome {
            Some((channels, _)) => channels,
            None => channels_of(previous.channels, source.id),
        };
        lemma_channels_of(previous.channels, source.id);
        lemma_channels_of_concat(state.channels, added, id);
        lemma_channels_of_other(added, id, source.id);
        assert(channels_of(state.channels, id) + channels_of(added, id) =~= channels_of(
            state.channels,
            id,
        ));
    }
}

proof fn lemma_attributed_front(
    sources: Seq<SourceView>,
    outcomes: Seq<Option<(Seq<ChannelView>, Seq<Seq<char>>)>>,
)
    requires
        attributed(sources, outcomes),
        sources.len() > 0,
    ensures
        attributed(sources.drop_last(), outcomes.drop_last()),
        outcomes.last() matches Some((channels, _)) ==> all_from(channels, sources.last().id),
{
    assert forall|i: int| 0 <= i < sources.drop_last().len() implies (
    #[trigger] outcomes.drop_last()[i] matches Some((channels, _)) ==> all_from(
        channels,
        sources.drop_last()[i].id,
    )) by {
        assert(outcomes.drop_last()[i] == outcomes[i]);
    }
    assert(outcomes.last() == outcomes[sources.len() - 1]);
}

/// After a refresh nothing is left of a source that was not tried, be it deleted
/// or disabled.
pub proof fn law_refresh_forgets_untried(
    sources: Seq<SourceView>,
    outcomes: Seq<Option<(Seq<ChannelView>, Seq<Seq<char>>)>>,
    previous: RuntimeView,
    id: Seq<char>,
)
    requires
        attributed(sources, outcomes),
        !tried(sources, id),
    ensures
        ({
            let after = refreshed(sources, outcomes, previous);
            &&& channels_of(after.channels, id) == Seq::<ChannelView>::empty()
            &&& !after.source_status.contains_key(id)
            &&& !after.epg_by_source.contains_key(id)
        }),
    decreases sources.len(),
{
    if sources.len() > 0 {
        let front = sources.drop_last();
        lemma_attributed_front(sources, outcomes);
        assert(!tried(front, id)) by {
            if tried(front, id) {
                let i = choose|i: int|
                    0 <= i < front.len() && (#[trigger] front[i]).id == id && front[i].enabled;
                assert(sources[i] == front[i]);
            }
        }
        law_refresh_forgets_untried(front, outcomes.drop_last(), previous, id);
        assert(sources[sources.len() - 1].id != id || !sources[sources.len() - 1].enabled);
        lemma_absorbed_other(
            refreshed(front, outcomes.drop_last(), previous),
            sources.last(),
            outcomes.last(),
            previous,
            id,
        );
    }
}

/// After a refresh each source that was tried has what it holds now if it was
/// fetched. If it failed, it keeps the channels and the programme guides that it
/// had, and the failure is on record.
pub proof fn law_refresh_by_source(
    sources: Seq<SourceView>,
    outcomes: Seq<Option<(Seq<ChannelView>, Seq<Seq<char>>)>>,
    previous: RuntimeView,
    i: int,
)
    requires
        attributed(sources, outcomes),
        distinct_ids(sources),
        0 <= i < sources.len(),
        sources[i].enabled,
    ensures
        ({
            let after = refreshed(sources, outcomes, previous);
            let id = sources[i].id;
            &&& after.source_status.contains_key(id)
            &&& match outcomes[i] {
                Some((channels, guides)) => {
                    &&& channels_of(after.channels, id) == channels
                    &&& after.source_status[id] == StatusView {
                        count: channels.len(),
                        error: false,
                    }
                    &&& after.epg_by_source.contains_key(id)
                    &&& after.epg_by_source[id] == guides
                },
                None => {
                    let stale = channels_of(previous.channels, id);
                    &&& channels_of(after.channels, id) == stale
                    &&& after.source_status[id] == StatusView { count: stale.len(), error: true }
                    &&& after.epg_by_source.contains_key(id)
                        == previous.epg_by_source.contains_key(id)
                    &&& previous.epg_by_source.contains_key(id) ==> after.epg_by_source[id]
                        == previous.epg_by_source[id]
                },
            }
        }),
    decreases sources.len(),
{
    let front = sources.drop_last();
    let last = sources.last();
    let state = refreshed(front, outcomes.drop_last(), previous);
    let id = sources[i].id;
    lemma_attributed_front(sources, outcomes);
    assert forall|a: int, b: int| 0 <= a < b < front.len() implies (#[trigger] front[a]).id != (
    #[trigger] front[b]).id by {
        assert(front[a] == sources[a]);
        assert(front[b] == sources[b]);
    }
    if i < front.len() {
        assert(front[i] == sources[i]);
        law_refresh_by_source(front, outcomes.drop_last(), previous, i);
        assert(sources[i].id != sources[sources.len() - 1].id);
        lemma_absorbed_other(state, last, outcomes.last(), previous, id);
    } else {
        assert(!tried(front, id)) by {
            if tried(front, id) {
                let j = choose|j: int|
                    0 <= j < front.len() && (#[trigger] front[j]).id == id && front[j].enabled;
                assert(front[j] == sources[j]);
                assert(sources[j].id != sources[i].id);
            }
        }
        law_refresh_forgets_untried(front, outcomes.drop_last(), previous, id);
        let added = match outcomes.last() {
            Some((channels, _)) => channels,
            None => channels_of(previous.channels, id),
        };
        lemma_channels_of(previous.channels, id);
        lemma_channels_of(added, id);
        lemma_channels_of_concat(state.channels, added, id);
        assert(Seq::<ChannelView>::empty() + added =~= added);
    }
}

/// The list of programme guides depends on nothing but those of the sources.
pub proof fn law_guides_determined(a: Runtime, b: Runtime)
    requires
        a.wf(),
        b.wf(),
        a@.epg_by_source == b@.epg_by_source,
    ensures
        a.guides() == b.guides(),
{
    a.lemma_guides();
    b.lemma_guides();
    assert forall|url: Seq<char>| #[trigger]
        a.guides().contains(url) <==> b.guides().contains(url) by {
        assert(a.guides().contains(url) <==> crate::runtime::guide_of_some(a@.epg_by_source, url));
        assert(b.guides().contains(url) <==> crate::runtime::guide_of_some(b@.epg_by_source, url));
    }
    lemma_ascending_unique(a.guides(), b.guides());
}

/// Every channel of the list is found by its identifier, or one that comes later
/// and has the same; where identifiers differ, it is the channel itself.
pub proof fn law_listed_channel_found(channels: Seq<ChannelView>, i: int)
    requires
        0 <= i < channels.len(),
    ensures
        last_with_id(channels, channels[i].id) matches Some(j) && i <= j < channels.len()
            && channels[j].id == channels[i].id,
        (forall|j: int| i < j < channels.len() ==> (#[trigger] channels[j]).id != channels[i].id)
            ==> last_with_id(channels, channels[i].id) == Some(i),
    decreases channels.len(),
{
    let front = channels.drop_last();
    let id = channels[i].id;
    if channels.last().id != id {
        assert(front[i] == channels[i]);
        law_listed_channel_found(front, i);
        let j = last_with_id(front, id)->0;
        assert(front[j] == channels[j]);
    } else if i < channels.len() - 1 {
        assert(channels[channels.len() - 1].id == id);
    }
}

} // verus!
