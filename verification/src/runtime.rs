//! The aggregated channels and how a refresh renews them.

use vstd::hash_map::StringHashMap;
use vstd::prelude::*;

use crate::keyed::{has_key, key_index, map_of, TextMap};
use crate::model::{
    channel_views, copy_strings, source_views, Channel, ChannelView, Source, SourceView,
};
use crate::ordered::{ascending, insert_ascending};
use crate::text::{same_text, texts};

verus! {

/// How the last refresh of a source went.
#[derive(Debug, Clone, Copy)]
pub struct SourceStatus {
    /// The channels that the source has in the list.
    pub count: usize,
    /// The source could not be fetched.
    pub error: bool,
}

/// The contents of a `SourceStatus`.
#[verifier::ext_equal]
pub struct StatusView {
    pub count: nat,
    pub error: bool,
}

impl DeepView for SourceStatus {
    type V = StatusView;

    open spec fn deep_view(&self) -> StatusView {
        StatusView { count: self.count as nat, error: self.error }
    }
}

/// The position of the last channel with an identifier.
pub open spec fn last_with_id(channels: Seq<ChannelView>, id: Seq<char>) -> Option<int>
    decreases channels.len(),
{
    if channels.len() == 0 {
        None
    } else if channels.last().id == id {
        Some(channels.len() - 1)
    } else {
        last_with_id(channels.drop_last(), id)
    }
}

/// What the service knows of its sources.
pub struct Runtime {
    channels: Vec<Channel>,
    by_id: StringHashMap<usize>,
    source_status: TextMap<SourceStatus>,
    epg_by_source: TextMap<Vec<String>>,
    epg_urls: Vec<String>,
}

/// The contents of a `Runtime`.
#[verifier::ext_equal]
pub struct RuntimeView {
    pub channels: Seq<ChannelView>,
    pub source_status: Map<Seq<char>, StatusView>,
    pub epg_by_source: Map<Seq<char>, Seq<Seq<char>>>,
}

/// Some source has this programme guide.
pub open spec fn guide_of_some(
    guides: Map<Seq<char>, Seq<Seq<char>>>,
    url: Seq<char>,
) -> bool {
    exists|id: Seq<char>| #[trigger] guides.contains_key(id) && guides[id].contains(url)
}

impl View for Runtime {
    type V = RuntimeView;

    closed spec fn view(&self) -> RuntimeView {
        RuntimeView {
            channels: channel_views(self.channels@),
            source_status: self.source_status.map(),
            epg_by_source: self.epg_by_source.map(),
        }
    }
}

impl RuntimeView {
    /// Nothing known yet.
    pub open spec fn nothing() -> RuntimeView {
        RuntimeView {
            channels: seq![],
            source_status: Map::empty(),
            epg_by_source: Map::empty(),
        }
    }
}

/// What fetching a source gave: its channels and programme guides, or nothing
/// if it failed.
pub open spec fn outcome_view(outcome: Option<(Vec<Channel>, Vec<String>)>) -> Option<
    (Seq<ChannelView>, Seq<Seq<char>>),
> {
    match outcome {
        Some(found) => Some((channel_views(found.0@), texts(found.1@))),
        None => None,
    }
}

/// The channels that a source had.
pub open spec fn channels_of(channels: Seq<ChannelView>, id: Seq<char>) -> Seq<ChannelView>
    decreases channels.len(),
{
    if channels.len() == 0 {
        seq![]
    } else if channels.last().source_id == id {
        channels_of(channels.drop_last(), id).push(channels.last())
    } else {
        channels_of(channels.drop_last(), id)
    }
}

/// What is known after one more source has been tried. A disabled source adds
/// nothing. One that was fetched adds what it holds now; one that failed keeps
/// the channels and programme guides that it had before.
pub open spec fn absorbed(
    state: RuntimeView,
    source: SourceView,
    outcome: Option<(Seq<ChannelView>, Seq<Seq<char>>)>,
    previous: RuntimeView,
) -> RuntimeView {
    if !source.enabled {
        state
    } else {
        match outcome {
            Some((channels, guides)) => RuntimeView {
                channels: state.channels + channels,
                source_status: state.source_status.insert(
                    source.id,
                    StatusView { count: channels.len(), error: false },
                ),
                epg_by_source: state.epg_by_source.insert(source.id, guides),
            },
            None => {
                let stale = channels_of(previous.channels, source.id);
                RuntimeView {
                    channels: state.channels + stale,
                    source_status: state.source_status.insert(
                        source.id,
                        StatusView { count: stale.len(), error: true },
                    ),
                    epg_by_source: if previous.epg_by_source.contains_key(source.id) {
                        state.epg_by_source.insert(source.id, previous.epg_by_source[source.id])
                    } else {
                        state.epg_by_source
                    },
                }
            },
        }
    }
}

/// What is known after all sources have been tried, from the first to the last.
pub open spec fn refreshed(
    sources: Seq<SourceView>,
    outcomes: Seq<Option<(Seq<ChannelView>, Seq<Seq<char>>)>>,
    previous: RuntimeView,
) -> RuntimeView
    decreases sources.len(),
{
    if sources.len() == 0 {
        RuntimeView::nothing()
    } else {
        absorbed(
            refreshed(sources.drop_last(), outcomes.drop_last(), previous),
            sources.last(),
            outcomes.last(),
            previous,
        )
    }
}

proof fn lemma_deep_texts(list: Vec<String>)
    ensures
        list.deep_view() == texts(list@),
{
    assert(list.deep_view() =~= texts(list@));
}

impl Runtime {
    /// The maps hold no key twice.
    closed spec fn maps_wf(&self) -> bool {
        self.source_status.wf() && self.epg_by_source.wf()
    }

    /// The index leads from each identifier to the last channel that has it, and
    /// the list of programme guides holds those of all sources, each once, in
    /// ascending order.
    pub closed spec fn wf(&self) -> bool {
        &&& self.maps_wf()
        &&& forall|id: Seq<char>| #[trigger]
            self.by_id@.contains_key(id) <==> last_with_id(self@.channels, id) is Some
        &&& forall|id: Seq<char>| #[trigger]
            self.by_id@.contains_key(id) ==> last_with_id(self@.channels, id) == Some(
                self.by_id@[id] as int,
            )
        &&& ascending(texts(self.epg_urls@))
        &&& forall|url: Seq<char>| #[trigger]
            texts(self.epg_urls@).contains(url) <==> guide_of_some(self@.epg_by_source, url)
    }

    /// The programme guides of all sources.
    pub closed spec fn guides(&self) -> Seq<Seq<char>> {
        texts(self.epg_urls@)
    }

    /// The programme guides of all sources: each once, in ascending order.
    pub proof fn lemma_guides(&self)
        requires
            self.wf(),
        ensures
            ascending(self.guides()),
            forall|url: Seq<char>| #[trigger]
                self.guides().contains(url) <==> guide_of_some(self@.epg_by_source, url),
    {
    }

    /// What is known before the first refresh.
    pub fn new() -> (r: Runtime)
        ensures
            r.wf(),
            r@ == RuntimeView::nothing(),
            r.guides() == Seq::<Seq<char>>::empty(),
    {
        let r = Runtime {
            channels: Vec::new(),
            by_id: StringHashMap::new(),
            source_status: TextMap::new(),
            epg_by_source: TextMap::new(),
            epg_urls: Vec::new(),
        };
        assert(r@ =~= RuntimeView::nothing());
        assert(texts(r.epg_urls@) =~= Seq::<Seq<char>>::empty());
        r
    }

    /// The channels in the order of their sources.
    pub fn channels(&self) -> (r: &Vec<Channel>)
        ensures
            channel_views(r@) == self@.channels,
    {
        &self.channels
    }

    /// The programme guides of all sources.
    pub fn epg_urls(&self) -> (r: &Vec<String>)
        ensures
            texts(r@) == self.guides(),
    {
        &self.epg_urls
    }

    /// The number of sources that the last refresh tried.
    pub fn source_count(&self) -> (r: usize)
        requires
            self.wf(),
        ensures
            r == self@.source_status.dom().len(),
    {
        self.source_status.len()
    }

    /// How the last refresh of a source went; a source that it did not try has
    /// no channels and no error.
    pub fn status(&self, id: &str) -> (r: SourceStatus)
        requires
            self.wf(),
        ensures
            r.deep_view() == if self@.source_status.contains_key(id@) {
                self@.source_status[id@]
            } else {
                StatusView { count: 0, error: false }
            },
    {
        match self.source_status.get(id) {
            Some(status) => *status,
            None => SourceStatus { count: 0, error: false },
        }
    }

    /// The last channel with an identifier.
    pub fn channel(&self, id: &str) -> (r: Option<&Channel>)
        requires
            self.wf(),
        ensures
            match r {
                Some(channel) => last_with_id(self@.channels, id@) matches Some(i) && channel@
                    == self@.channels[i],
                None => last_with_id(self@.channels, id@) is None,
            },
    {
        match self.by_id.get(id) {
            Some(i) => {
                proof {
                    lemma_last_with_id(self@.channels, id@);
                }
                Some(&self.channels[*i])
            },
            None => None,
        }
    }

    /// Takes in one more source.
    fn absorb(
        &mut self,
        source: &Source,
        outcome: Option<(Vec<Channel>, Vec<String>)>,
        previous: &Runtime,
    )
        requires
            old(self).maps_wf(),
            previous.maps_wf(),
        ensures
            final(self).maps_wf(),
            final(self)@ == absorbed(old(self)@, source@, outcome_view(outcome), previous@),
    {
        if !source.enabled {
            return ;
        }
        match outcome {
            Some((mut channels, guides)) => {
                proof {
                    lemma_deep_texts(guides);
                }
                let ghost added = channels@;
                self.epg_by_source.insert(source.id.clone(), guides);
                self.source_status.insert(
                    source.id.clone(),
                    SourceStatus { count: channels.len(), error: false },
                );
                self.channels.append(&mut channels);
                assert(channel_views(self.channels@) =~= channel_views(old(self).channels@)
                    + channel_views(added));
            },
            None => {
                let mut stale = copy_channels_of(&previous.channels, source.id.as_str());
                match previous.epg_by_source.get(source.id.as_str()) {
                    Some(guides) => {
                        let copy = copy_strings(guides);
                        proof {
                            lemma_deep_texts(*guides);
                            lemma_deep_texts(copy);
                        }
                        self.epg_by_source.insert(source.id.clone(), copy);
                    },
                    None => {},
                }
                let ghost added = stale@;
                self.source_status.insert(
                    source.id.clone(),
                    SourceStatus { count: stale.len(), error: true },
                );
                self.channels.append(&mut stale);
                assert(channel_views(self.channels@) =~= channel_views(old(self).channels@)
                    + channel_views(added));
            },
        }
    }

    /// Indexes the channels by identifier.
    fn index_channels(&mut self)
        ensures
            final(self)@ == old(self)@,
            final(self).source_status == old(self).source_status,
            final(self).epg_by_source == old(self).epg_by_source,
            final(self).channels == old(self).channels,
            forall|id: Seq<char>| #[trigger]
                final(self).by_id@.contains_key(id) <==> last_with_id(
                    final(self)@.channels,
                    id,
                ) is Some,
            forall|id: Seq<char>| #[trigger]
                final(self).by_id@.contains_key(id) ==> last_with_id(final(self)@.channels, id)
                    == Some(final(self).by_id@[id] as int),
    {
        let mut index: StringHashMap<usize> = StringHashMap::new();
        let ghost all = channel_views(self.channels@);
        let mut i: usize = 0;
        while i < self.channels.len()
            invariant
                i <= self.channels.len(),
                *self == *old(self),
                all == channel_views(self.channels@),
                forall|id: Seq<char>| #[trigger]
                    index@.contains_key(id) <==> last_with_id(all.take(i as int), id) is Some,
                forall|id: Seq<char>| #[trigger]
                    index@.contains_key(id) ==> last_with_id(all.take(i as int), id) == Some(
                        index@[id] as int,
                    ),
            decreases self.channels.len() - i,
        {
            assert(all.take(i + 1).drop_last() =~= all.take(i as int));
            assert(all.take(i + 1).last() == self.channels@[i as int]@);
            index.insert(self.channels[i].id.clone(), i);
            i += 1;
        }
        assert(all.take(i as int) =~= all);
        self.by_id = index;
    }

    /// Collects the programme guides of all sources.
    fn collect_guides(&mut self)
        requires
            old(self).maps_wf(),
        ensures
            final(self)@ == old(self)@,
            final(self).source_status == old(self).source_status,
            final(self).epg_by_source == old(self).epg_by_source,
            final(self).channels == old(self).channels,
            final(self).by_id == old(self).by_id,
            ascending(texts(final(self).epg_urls@)),
            forall|url: Seq<char>| #[trigger]
                texts(final(self).epg_urls@).contains(url) <==> guide_of_some(
                    final(self)@.epg_by_source,
                    url,
                ),
    {
        let mut urls: Vec<String> = Vec::new();
        let ghost pairs = self.epg_by_source.pairs();
        let mut i: usize = 0;
        assert(texts(urls@) =~= seq![]);
        while i < self.epg_by_source.len()
            invariant
                i <= pairs.len(),
                *self == *old(self),
                self.epg_by_source.wf(),
                pairs == self.epg_by_source.pairs(),
                ascending(texts(urls@)),
                forall|url: Seq<char>| #[trigger]
                    texts(urls@).contains(url) <==> listed_before(pairs, i as int, url),
            decreases pairs.len() - i,
        {
            let guides = self.epg_by_source.value_at(i);
            let ghost known = texts(urls@);
            proof {
                lemma_deep_texts(*guides);
            }
            let mut j: usize = 0;
            while j < guides.len()
                invariant
                    j <= guides.len(),
                    texts(guides@) == pairs[i as int].1,
                    ascending(texts(urls@)),
                    forall|url: Seq<char>| #[trigger]
                        texts(urls@).contains(url) <==> known.contains(url) || texts(
                            guides@,
                        ).take(j as int).contains(url),
                decreases guides.len() - j,
            {
                let ghost before = texts(urls@);
                insert_ascending(&mut urls, guides[j].as_str());
                let ghost list = texts(guides@);
                assert forall|url: Seq<char>| #[trigger]
                    texts(urls@).contains(url) <==> known.contains(url) || list.take(
                        j + 1,
                    ).contains(url) by {
                    assert(list.take(j + 1) =~= list.take(j as int).push(list[j as int]));
                    lemma_push_contains(list.take(j as int), list[j as int], url);
                    assert(texts(urls@).contains(url) <==> before.contains(url) || url
                        == list[j as int]);
                }
                j += 1;
            }
            assert(texts(guides@).take(j as int) =~= texts(guides@));
            assert forall|url: Seq<char>| #[trigger]
                texts(urls@).contains(url) <==> listed_before(pairs, i + 1, url) by {
                assert(known.contains(url) <==> listed_before(pairs, i as int, url));
                lemma_listed_before(pairs, i as int, url);
            }
            i += 1;
        }
        assert forall|url: Seq<char>| #[trigger]
            texts(urls@).contains(url) <==> guide_of_some(self@.epg_by_source, url) by {
            lemma_listed(pairs, url);
        }
        self.epg_urls = urls;
    }
}

/// One of the first `n` sources has this programme guide.
spec fn listed_before(
    pairs: Seq<(Seq<char>, Seq<Seq<char>>)>,
    n: int,
    url: Seq<char>,
) -> bool {
    exists|i: int| 0 <= i < n && (#[trigger] pairs[i]).1.contains(url)
}

proof fn lemma_listed_before(
    pairs: Seq<(Seq<char>, Seq<Seq<char>>)>,
    n: int,
    url: Seq<char>,
)
    requires
        0 <= n < pairs.len(),
    ensures
        listed_before(pairs, n + 1, url) <==> listed_before(pairs, n, url)
            || pairs[n].1.contains(url),
{
    if listed_before(pairs, n + 1, url) {
        let i = choose|i: int| 0 <= i < n + 1 && (#[trigger] pairs[i]).1.contains(url);
        if i < n {
            assert(pairs[i].1.contains(url));
        }
    }
}

proof fn lemma_listed(pairs: Seq<(Seq<char>, Seq<Seq<char>>)>, url: Seq<char>)
    requires
        crate::keyed::distinct_keys(pairs),
    ensures
        listed_before(pairs, pairs.len() as int, url) <==> guide_of_some(map_of(pairs), url),
{
    let guides = map_of(pairs);
    if listed_before(pairs, pairs.len() as int, url) {
        let i = choose|i: int| 0 <= i < pairs.len() && (#[trigger] pairs[i]).1.contains(url);
        let key = pairs[i].0;
        assert(has_key(pairs, key));
        assert(pairs[key_index(pairs, key)].0 == key);
        assert(guides.contains_key(key));
    }
    if guide_of_some(guides, url) {
        let key = choose|key: Seq<char>| #[trigger]
            guides.contains_key(key) && guides[key].contains(url);
        assert(pairs[key_index(pairs, key)].1.contains(url));
    }
}

proof fn lemma_push_contains(list: Seq<Seq<char>>, last: Seq<char>, url: Seq<char>)
    ensures
        list.push(last).contains(url) <==> list.contains(url) || url == last,
{
    let after = list.push(last);
    if after.contains(url) {
        let k = choose|k: int| 0 <= k < after.len() && after[k] == url;
        if k < list.len() {
            assert(list[k] == url);
        }
    }
    if list.contains(url) {
        let k = choose|k: int| 0 <= k < list.len() && list[k] == url;
        assert(after[k] == url);
    }
    assert(after[list.len() as int] == last);
}

/// The position of a channel is one of the list, and the channel there has the
/// identifier.
pub proof fn lemma_last_with_id(channels: Seq<ChannelView>, id: Seq<char>)
    ensures
        last_with_id(channels, id) matches Some(i) ==> 0 <= i < channels.len() && channels[i].id
            == id,
    decreases channels.len(),
{
    if channels.len() > 0 && channels.last().id != id {
        lemma_last_with_id(channels.drop_last(), id);
    }
}

fn copy_channels_of(channels: &Vec<Channel>, id: &str) -> (r: Vec<Channel>)
    ensures
        channel_views(r@) == channels_of(channel_views(channels@), id@),
{
    let mut r: Vec<Channel> = Vec::new();
    let ghost all = channel_views(channels@);
    let mut i: usize = 0;
    assert(all.take(0) =~= seq![]);
    assert(channel_views(r@) =~= seq![]);
    while i < channels.len()
        invariant
            i <= channels.len(),
            all == channel_views(channels@),
            channel_views(r@) == channels_of(all.take(i as int), id@),
        decreases channels.len() - i,
    {
        assert(all.take(i + 1).drop_last() =~= all.take(i as int));
        assert(all.take(i + 1).last() == channels@[i as int]@);
        let ghost before = r@;
        if same_text(channels[i].source_id.as_str(), id) {
            let copy = channels[i].clone();
            r.push(copy);
            assert(channel_views(r@) =~= channel_views(before).push(copy@));
        }
        i += 1;
    }
    assert(all.take(i as int) =~= all);
    r
}

/// The contents of a list of outcomes.
pub open spec fn outcome_views(
    outcomes: Seq<Option<(Vec<Channel>, Vec<String>)>>,
) -> Seq<Option<(Seq<ChannelView>, Seq<Seq<char>>)>> {
    outcomes.map_values(|o: Option<(Vec<Channel>, Vec<String>)>| outcome_view(o))
}

/// What is known after a refresh. `outcomes` holds for each source what fetching
/// it gave; that of a disabled source is not looked at.
pub fn refresh(
    sources: &Vec<Source>,
    outcomes: Vec<Option<(Vec<Channel>, Vec<String>)>>,
    previous: &Runtime,
) -> (r: Runtime)
    requires
        outcomes@.len() == sources@.len(),
        previous.wf(),
    ensures
        r.wf(),
        r@ == refreshed(source_views(sources@), outcome_views(outcomes@), previous@),
{
    let mut runtime = Runtime::new();
    let ghost all = source_views(sources@);
    let ghost results = outcome_views(outcomes@);
    let total: usize = sources.len();
    let mut i: usize = 0;
    for outcome in it: outcomes
        invariant
            i == it.index(),
            total == sources@.len(),
            it.seq() == outcomes@,
            outcomes@.len() == sources@.len(),
            all == source_views(sources@),
            results == outcome_views(outcomes@),
            previous.wf(),
            runtime.maps_wf(),
            runtime@ == refreshed(all.take(i as int), results.take(i as int), previous@),
    {
        assert(all.take(i + 1).drop_last() =~= all.take(i as int));
        assert(all.take(i + 1).last() == sources@[i as int]@);
        assert(results.take(i + 1).drop_last() =~= results.take(i as int));
        assert(results.take(i + 1).last() == outcome_view(outcome));
        runtime.absorb(&sources[i], outcome, previous);
        i += 1;
    }
    assert(all.take(i as int) =~= all);
    assert(results.take(i as int) =~= results);
    runtime.index_channels();
    runtime.collect_guides();
    runtime
}

} // verus!
