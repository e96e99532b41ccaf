//! What is read from a playlist, told by the places of its lines.

use vstd::prelude::*;
use vstd::utf8::{encode_utf8, encode_utf8_decode_utf8, encode_utf8_valid_utf8, valid_utf8};

use crate::attributes::attribute_value;
use crate::model::{ChannelView, SourceView};
use crate::playlist::{channel_of, fetched, read_line, read_lines};
use crate::signing::identifier;
use crate::text::{begins_with, lines, parts, trimmed};
use crate::weburl::{scheme_of, url_joined, web_scheme};

verus! {

/// A line that describes a channel.
pub open spec fn describes(raw: Seq<char>) -> bool {
    begins_with(trimmed(raw), "#EXTINF:"@)
}

/// A line that is an address: it is not blank and does not begin with `#`.
pub open spec fn addressed(raw: Seq<char>) -> bool {
    trimmed(raw).len() > 0 && trimmed(raw)[0] != '#'
}

/// Line `i` describes the channel whose address is line `j`: every line between
/// them is blank or begins with `#`, and describes no channel.
pub open spec fn pair(list: Seq<Seq<char>>, i: int, j: int) -> bool {
    &&& 0 <= i < j < list.len()
    &&& describes(list[i])
    &&& addressed(list[j])
    &&& forall|k: int|
        i < k < j ==> !describes(#[trigger] list[k]) && !addressed(list[k])
}

/// Line `i` describes the channel whose address is line `j`, and the address can
/// be fetched.
pub open spec fn read_pair(list: Seq<Seq<char>>, base: Seq<char>, i: int, j: int) -> bool {
    &&& pair(list, i, j)
    &&& url_joined(base, trimmed(list[j])) matches Some(url) && web_scheme(scheme_of(url))
}

/// The channel of a description and an address.
pub open spec fn channel_from(
    list: Seq<Seq<char>>,
    base: Seq<char>,
    source: SourceView,
    i: int,
    j: int,
) -> ChannelView {
    let info = trimmed(list[i]);
    let url = url_joined(base, trimmed(list[j]))->0;
    ChannelView {
        id: identifier(source.id + "\n"@ + info + "\n"@ + url),
        source_id: source.id,
        source_name: source.name,
        mode: source.mode,
        extinf: info,
        url: url,
        catchup: attribute_value(info, "catchup-source"@),
        upstream_base_url: source.upstream_base_url,
    }
}

/// Line `i` describes a channel whose address has not come yet.
pub open spec fn waiting(list: Seq<Seq<char>>, i: int) -> bool {
    &&& 0 <= i < list.len()
    &&& describes(list[i])
    &&& forall|k: int|
        i < k < list.len() ==> !describes(#[trigger] list[k]) && !addressed(list[k])
}

proof fn lemma_line_kinds(raw: Seq<char>)
    ensures
        describes(raw) ==> !addressed(raw) && !begins_with(trimmed(raw), "#EXTM3U"@),
        begins_with(trimmed(raw), "#EXTM3U"@) ==> !addressed(raw),
{
    reveal_strlit("#EXTINF:");
    reveal_strlit("#EXTM3U");
    let line = trimmed(raw);
    if describes(raw) {
        assert(line.take(8)[0] == line[0]);
        assert(line.take(8)[4] == line[4]);
    }
    if begins_with(line, "#EXTM3U"@) {
        assert(line.take(7)[0] == line[0]);
        assert(line.take(7)[4] == line[4]);
    }
}

/// The description that waits for its address is the last one without.
proof fn lemma_waiting(list: Seq<Seq<char>>, base: Seq<char>, source: SourceView)
    ensures
        read_lines(list, base, source).info matches Some(info) ==> exists|i: int| #[trigger]
            waiting(list, i) && info == trimmed(list[i]),
        forall|i: int| #[trigger]
            waiting(list, i) ==> read_lines(list, base, source).info == Some(trimmed(list[i])),
    decreases list.len(),
{
    if list.len() > 0 {
        let front = list.drop_last();
        let raw = list.last();
        let n = list.len() - 1;
        lemma_waiting(front, base, source);
        lemma_line_kinds(raw);
        let before = read_lines(front, base, source);
        let after = read_lines(list, base, source);
        assert(after == read_line(before, raw, base, source));
        if describes(raw) {
            assert(waiting(list, n));
        } else if !addressed(raw) {
            assert(after.info == before.info);
            assert forall|i: int| #[trigger] waiting(front, i) implies waiting(list, i) by {
                assert(front[i] == list[i]);
                assert forall|k: int| i < k < list.len() implies !describes(#[trigger] list[k])
                    && !addressed(list[k]) by {
                    if k < n {
                        assert(front[k] == list[k]);
                    }
                }
            }
        }
        assert forall|i: int| #[trigger] waiting(list, i) implies after.info == Some(
            trimmed(list[i]),
        ) by {
            if i < n {
                assert(!describes(list[n]) && !addressed(list[n]));
                assert(waiting(front, i)) by {
                    assert(front[i] == list[i]);
                    assert forall|k: int|
                        i < k < front.len() implies !describes(#[trigger] front[k])
                        && !addressed(front[k]) by {
                        assert(front[k] == list[k]);
                    }
                }
            }
        }
        if after.info is Some {
            if !describes(raw) {
                assert(!addressed(raw));
                let i = choose|i: int| #[trigger] waiting(front, i) && before.info == Some(
                    trimmed(front[i]),
                );
                assert(waiting(list, i));
                assert(front[i] == list[i]);
            }
        }
    }
}

/// The places of the lines from which channels are read, those of the descriptions
/// and those of the addresses.
pub open spec fn read_at(
    list: Seq<Seq<char>>,
    base: Seq<char>,
    source: SourceView,
    infos: Seq<int>,
    places: Seq<int>,
) -> bool {
    let channels = read_lines(list, base, source).channels;
    &&& infos.len() == channels.len()
    &&& places.len() == channels.len()
    &&& forall|k: int|
        #![trigger channels[k]]
        0 <= k < channels.len() ==> {
            &&& read_pair(list, base, infos[k], places[k])
            &&& channels[k] == channel_from(list, base, source, infos[k], places[k])
        }
    &&& forall|k: int, l: int|
        0 <= k < l < channels.len() ==> #[trigger] places[k] < #[trigger] places[l]
    &&& forall|i: int, j: int| #[trigger]
        read_pair(list, base, i, j) ==> places.contains(j)
}

proof fn lemma_pair_kept(list: Seq<Seq<char>>, base: Seq<char>, i: int, j: int)
    requires
        list.len() > 0,
        j < list.len() - 1,
    ensures
        read_pair(list, base, i, j) <==> read_pair(list.drop_last(), base, i, j),
{
    let front = list.drop_last();
    if 0 <= i < j {
        assert(front[i] == list[i]);
        assert(front[j] == list[j]);
        if pair(list, i, j) {
            assert forall|k: int| i < k < j implies !describes(#[trigger] front[k])
                && !addressed(front[k]) by {
                assert(front[k] == list[k]);
            }
        }
        if pair(front, i, j) {
            assert forall|k: int| i < k < j implies !describes(#[trigger] list[k])
                && !addressed(list[k]) by {
                assert(front[k] == list[k]);
            }
        }
    }
}

/// A playlist is read completely and in order: there is one channel for each
/// description with an address that can be fetched, in the order of the addresses,
/// and there is no other.
pub proof fn law_read_completely(
    list: Seq<Seq<char>>,
    base: Seq<char>,
    source: SourceView,
) -> (r: (Seq<int>, Seq<int>))
    ensures
        read_at(list, base, source, r.0, r.1),
    decreases list.len(),
{
    if list.len() == 0 {
        assert(read_at(list, base, source, seq![], seq![]));
        (seq![], seq![])
    } else {
        let front = list.drop_last();
        let raw = list.last();
        let n = list.len() - 1;
        let (infos, places) = law_read_completely(front, base, source);
        lemma_line_kinds(raw);
        lemma_waiting(front, base, source);
        let before = read_lines(front, base, source);
        let after = read_lines(list, base, source);
        assert(after == read_line(before, raw, base, source));
        if addressed(raw) && before.info is Some && (url_joined(base, trimmed(raw)) matches Some(
            url,
        ) && web_scheme(scheme_of(url))) {
            let w = choose|i: int| #[trigger] waiting(front, i) && before.info == Some(
                trimmed(front[i]),
            );
            lemma_read_more(list, base, source, infos, places, w);
            (infos.push(w), places.push(n))
        } else {
            lemma_read_no_more(list, base, source, infos, places);
            (infos, places)
        }
    }
}

proof fn lemma_read_more(
    list: Seq<Seq<char>>,
    base: Seq<char>,
    source: SourceView,
    infos: Seq<int>,
    places: Seq<int>,
    w: int,
)
    requires
        list.len() > 0,
        read_at(list.drop_last(), base, source, infos, places),
        waiting(list.drop_last(), w),
        addressed(list.last()),
        url_joined(base, trimmed(list.last())) matches Some(url) && web_scheme(scheme_of(url)),
    ensures
        read_at(list, base, source, infos.push(w), places.push(list.len() - 1)),
{
    let front = list.drop_last();
    let raw = list.last();
    let n = list.len() - 1;
    lemma_line_kinds(raw);
    lemma_waiting(front, base, source);
    let before = read_lines(front, base, source);
    let after = read_lines(list, base, source);
    let new = channel_from(list, base, source, w, n);
    assert(front[w] == list[w]);
    assert(after.channels =~= before.channels.push(new));
    assert(read_pair(list, base, w, n)) by {
        assert forall|k: int| w < k < n implies !describes(#[trigger] list[k]) && !addressed(
            list[k],
        ) by {
            assert(front[k] == list[k]);
        }
    }
    let all = places.push(n);
    assert forall|k: int| #![trigger after.channels[k]] 0 <= k < after.channels.len() implies ({
        &&& read_pair(list, base, infos.push(w)[k], all[k])
        &&& after.channels[k] == channel_from(list, base, source, infos.push(w)[k], all[k])
    }) by {
        if k < before.channels.len() {
            assert(before.channels[k] == after.channels[k]);
            lemma_pair_kept(list, base, infos[k], places[k]);
            assert(front[infos[k]] == list[infos[k]]);
            assert(front[places[k]] == list[places[k]]);
        }
    }
    assert forall|k: int, l: int| 0 <= k < l < after.channels.len() implies #[trigger] all[k]
        < #[trigger] all[l] by {
        if l == before.channels.len() {
            assert(before.channels[k] == before.channels[k]);
            assert(read_pair(front, base, infos[k], places[k]));
        }
    }
    assert forall|i: int, j: int| #[trigger] read_pair(list, base, i, j) implies all.contains(
        j,
    ) by {
        if j < n {
            lemma_pair_kept(list, base, i, j);
            assert(read_pair(front, base, i, j));
            let k = choose|k: int| 0 <= k < places.len() && places[k] == j;
            assert(all[k] == j);
        } else {
            assert(all[places.len() as int] == n);
        }
    }
}

proof fn lemma_read_no_more(
    list: Seq<Seq<char>>,
    base: Seq<char>,
    source: SourceView,
    infos: Seq<int>,
    places: Seq<int>,
)
    requires
        list.len() > 0,
        read_at(list.drop_last(), base, source, infos, places),
        !(addressed(list.last()) && read_lines(list.drop_last(), base, source).info is Some && (
        url_joined(base, trimmed(list.last())) matches Some(url) && web_scheme(scheme_of(url)))),
    ensures
        read_at(list, base, source, infos, places),
{
    let front = list.drop_last();
    let raw = list.last();
    let n = list.len() - 1;
    lemma_line_kinds(raw);
    lemma_waiting(front, base, source);
    let before = read_lines(front, base, source);
    let after = read_lines(list, base, source);
    assert(after.channels =~= before.channels);
    assert forall|k: int| #![trigger after.channels[k]] 0 <= k < after.channels.len() implies ({
        &&& read_pair(list, base, infos[k], places[k])
        &&& after.channels[k] == channel_from(list, base, source, infos[k], places[k])
    }) by {
        assert(before.channels[k] == after.channels[k]);
        lemma_pair_kept(list, base, infos[k], places[k]);
        assert(front[infos[k]] == list[infos[k]]);
        assert(front[places[k]] == list[places[k]]);
    }
    assert forall|i: int, j: int| #[trigger] read_pair(list, base, i, j) implies places.contains(
        j,
    ) by {
        if j < n {
            lemma_pair_kept(list, base, i, j);
            assert(read_pair(front, base, i, j));
        } else {
            assert(waiting(front, i)) by {
                assert(front[i] == list[i]);
                assert forall|k: int| i < k < front.len() implies !describes(#[trigger] front[k])
                    && !addressed(front[k]) by {
                    assert(front[k] == list[k]);
                }
            }
        }
    }
}

/// Every description with an address that can be fetched gives a channel with this
/// description and this address.
pub proof fn law_pair_is_read(
    list: Seq<Seq<char>>,
    base: Seq<char>,
    source: SourceView,
    i: int,
    j: int,
)
    requires
        pair(list, i, j),
        url_joined(base, trimmed(list[j])) matches Some(url) && web_scheme(scheme_of(url)),
    ensures
        exists|k: int|
            0 <= k < read_lines(list, base, source).channels.len() && #[trigger] read_lines(
                list,
                base,
                source,
            ).channels[k] == channel_from(list, base, source, i, j),
{
    let (infos, places) = law_read_completely(list, base, source);
    let channels = read_lines(list, base, source).channels;
    assert(read_pair(list, base, i, j));
    let k = choose|k: int| 0 <= k < places.len() && places[k] == j;
    assert(channels[k] == channel_from(list, base, source, infos[k], j));
    assert(read_pair(list, base, infos[k], j));
    lemma_pair_unique(list, infos[k], i, j);
}

proof fn lemma_pair_unique(list: Seq<Seq<char>>, a: int, b: int, j: int)
    requires
        pair(list, a, j),
        pair(list, b, j),
    ensures
        a == b,
{
    if a < b {
        assert(!describes(list[b]));
    } else if b < a {
        assert(!describes(list[a]));
    }
}

/// Every channel is read from a description and the address behind it.
pub proof fn law_channel_is_pair(
    list: Seq<Seq<char>>,
    base: Seq<char>,
    source: SourceView,
    k: int,
)
    requires
        0 <= k < read_lines(list, base, source).channels.len(),
    ensures
        exists|i: int, j: int| #[trigger]
            read_pair(list, base, i, j) && read_lines(list, base, source).channels[k]
                == channel_from(list, base, source, i, j),
{
    let (infos, places) = law_read_completely(list, base, source);
    let channel = read_lines(list, base, source).channels[k];
    assert(read_pair(list, base, infos[k], places[k]));
}

/// A channel has its description and its address, what the description says of its
/// replay, and all else from its source; its identifier is that of the source, the
/// description and the address together.
pub proof fn law_channel_of(source: SourceView, extinf: Seq<char>, url: Seq<char>)
    ensures
        ({
            let channel = channel_of(source, extinf, url);
            &&& channel.id == identifier(source.id + "\n"@ + extinf + "\n"@ + url)
            &&& channel.source_id == source.id
            &&& channel.source_name == source.name
            &&& channel.mode == source.mode
            &&& channel.extinf == extinf
            &&& channel.url == url
            &&& channel.catchup == attribute_value(extinf, "catchup-source"@)
            &&& channel.upstream_base_url == source.upstream_base_url
        }),
{
}

/// The programme guides of a playlist are read line by line, whatever stands
/// before.
pub proof fn law_guides_read_in_parts(
    one: Seq<Seq<char>>,
    two: Seq<Seq<char>>,
    base: Seq<char>,
    source: SourceView,
)
    ensures
        read_lines(one + two, base, source).guides == read_lines(one, base, source).guides
            + read_lines(two, base, source).guides,
    decreases two.len(),
{
    if two.len() == 0 {
        assert(one + two =~= one);
    } else {
        law_guides_read_in_parts(one, two.drop_last(), base, source);
        assert((one + two).drop_last() =~= one + two.drop_last());
        assert((one + two).last() == two.last());
        let a = read_lines(one + two.drop_last(), base, source);
        let b = read_lines(two.drop_last(), base, source);
        assert(read_lines(one + two, base, source).guides =~= read_lines(one, base, source).guides
            + read_lines(two, base, source).guides);
    }
}

/// The programme guides that a line names.
pub open spec fn named_guides(line: Seq<char>, name: Seq<char>) -> Seq<Seq<char>> {
    match attribute_value(line, name) {
        Some(value) => parts(value, ','),
        None => seq![],
    }
}

/// A line names programme guides exactly if it begins with `#EXTM3U`: those of
/// `x-tvg-url`, then those of `url-tvg`, each a list with commas.
pub proof fn law_guides_of_line(raw: Seq<char>, base: Seq<char>, source: SourceView)
    ensures
        begins_with(trimmed(raw), "#EXTM3U"@) ==> read_lines(seq![raw], base, source).guides
            == named_guides(trimmed(raw), "x-tvg-url"@) + named_guides(
            trimmed(raw),
            "url-tvg"@,
        ),
        !begins_with(trimmed(raw), "#EXTM3U"@) ==> read_lines(seq![raw], base, source).guides
            == Seq::<Seq<char>>::empty(),
        read_lines(seq![], base, source).guides == Seq::<Seq<char>>::empty(),
{
    assert(seq![raw].drop_last() =~= seq![]);
    let nothing = read_lines(seq![raw].drop_last(), base, source);
    assert(nothing.guides =~= seq![]);
    if begins_with(trimmed(raw), "#EXTM3U"@) {
        assert(read_lines(seq![raw], base, source).guides =~= named_guides(
            trimmed(raw),
            "x-tvg-url"@,
        ) + named_guides(trimmed(raw), "url-tvg"@));
    }
}

/// An answer of at most ten million bytes that is UTF-8 is read as the text that
/// it encodes, and every other one is refused.
pub proof fn law_answer_read(
    body: Seq<u8>,
    text: Seq<char>,
    base: Seq<char>,
    source: SourceView,
)
    ensures
        body == encode_utf8(text) && body.len() <= 10_000_000 ==> fetched(body, base, source)
            == Some(read_lines(lines(text), base, source)),
        body.len() > 10_000_000 ==> fetched(body, base, source) is None,
        !valid_utf8(body) ==> fetched(body, base, source) is None,
{
    if body == encode_utf8(text) {
        encode_utf8_valid_utf8(text);
        encode_utf8_decode_utf8(text);
    }
}

} // verus!
