//! What the aggregated playlist keeps of its sources and what it adds.

use vstd::prelude::*;

use crate::attribute_laws::{
    law_set_keeps_others, law_set_then_read, lemma_absent_in_part, lemma_around_in_front,
    lemma_behind_quote, lemma_comma_in_front, lemma_opening, lemma_opening_plain, lemma_place,
    lemma_read_in_front, lemma_replay_around, lemma_replay_around_at, lemma_same_occurrence,
    lemma_span_of_part, lemma_unopened_behind, lemma_value_span, plain, replay_name, settable,
    undisturbed,
};
use crate::attributes::{
    attribute_value, opening, place, replay_around, value_span, with_attribute, Place,
};
use crate::listing::{
    heading, list_text, listed_address, listed_info, replay_info, replay_link,
};
use crate::model::{ChannelView, Mode, SourceView};
use crate::playlist::{guides_in, read_line, read_lines};
use crate::searching::{
    lemma_find_char, lemma_find_char_at, lemma_found_behind, lemma_lines_push, lemma_occurs_chars,
};
use crate::text::{
    begins_with, find, has_text, joined, lemma_find, lines, occurs_at, parts, unless_empty,
    without_return,
};

verus! {

/// A line does not tell yet where the channel comes from and how it is played.
pub open spec fn untold(line: Seq<char>) -> bool {
    &&& find(line, opening("source-name"@)) is None
    &&& find(line, opening("access-mode"@)) is None
}

/// What is read as `other` stands before the place where a line is told where the
/// channel comes from.
pub open spec fn read_before(line: Seq<char>, other: Seq<char>) -> bool {
    place(line, "source-name"@) matches Some(Place::Behind(i)) ==> value_span(line.take(i), other)
        is Some
}

/// Where writing at a place begins to change a line.
spec fn changed_from(place: Place) -> int {
    match place {
        Place::Value(start, _) => start,
        Place::Behind(i) => i,
        Place::Front(i) => i,
    }
}

/// Writing leaves what stands before the place.
proof fn lemma_beginning_stays(line: Seq<char>, name: Seq<char>, value: Seq<char>, n: int)
    requires
        0 <= n <= line.len(),
        place(line, name) matches Some(p) ==> n <= changed_from(p),
    ensures
        n <= with_attribute(line, name, value).len(),
        with_attribute(line, name, value).take(n) == line.take(n),
{
    lemma_place(line, name);
    assert(with_attribute(line, name, value).take(n) =~= line.take(n));
}

/// The names of the attributes that the list adds are plain, and so are those of
/// replay.
proof fn lemma_names()
    ensures
        plain("source-name"@),
        plain("access-mode"@),
        plain("catchup"@),
        plain("catchup-source"@),
{
    reveal_strlit("source-name");
    reveal_strlit("access-mode");
    reveal_strlit("catchup");
    reveal_strlit("catchup-source");
    assert forall|x: Seq<char>|
        x == "source-name"@ || x == "access-mode"@ || x == "catchup"@ || x
            == "catchup-source"@ implies #[trigger] plain(x) by {
        assert forall|k: int| 0 <= k < x.len() implies x[k] != '"' && x[k] != ',' && x[k]
            != ' ' by {}
    }
}

/// What is added to a line begins with a space, which no name crosses.
proof fn lemma_not_across(
    line: Seq<char>,
    after: Seq<char>,
    n: int,
    name: Seq<char>,
    i: int,
)
    requires
        plain(name),
        0 <= n <= line.len(),
        n < after.len(),
        after.take(n) == line.take(n),
        after[n] == ' ',
        find(line, opening(name)) is None,
        occurs_at(after, opening(name), i),
    ensures
        i >= n,
{
    let pat = opening(name);
    lemma_opening_plain(name);
    lemma_find(line, pat);
    if i < n {
        if i + pat.len() <= n {
            lemma_same_occurrence(line, after, pat, i, n);
        } else {
            lemma_occurs_chars(after, pat, i);
            assert(pat[n - i] == after[i + (n - i)]);
        }
    }
}

/// The way of playing is told behind the place where the source is told, if that
/// is the first comma.
proof fn lemma_second_behind_comma(line: Seq<char>, source_name: Seq<char>)
    requires
        untold(line),
        find(line, seq![',']) matches Some(comma) && place(line, "source-name"@) == Some(
            Place::Behind(comma),
        ),
    ensures
        ({
            let comma = find(line, seq![','])->0;
            let named = with_attribute(line, "source-name"@, source_name);
            place(named, "access-mode"@) matches Some(p) ==> comma <= changed_from(p)
        }),
{
    let comma = find(line, seq![','])->0;
    let named = with_attribute(line, "source-name"@, source_name);
    let name = "access-mode"@;
    lemma_names();
    lemma_find_char(line, ',');
    lemma_place(named, name);
    lemma_beginning_stays(line, "source-name"@, source_name, comma);
    reveal_strlit(" ");
    reveal_strlit("source-name");
    lemma_opening("source-name"@);
    let pat = opening("source-name"@);
    assert(named[comma] == ' ');
    assert forall|k: int| 0 <= k < pat.len() implies named[comma + 1 + k] == #[trigger] pat[k] by {}
    lemma_opening_plain("source-name"@);
    let quote = comma + pat.len();
    assert(named[quote] == '"') by {
        assert(named[comma + 1 + (pat.len() - 1)] == pat[pat.len() - 1]);
    }
    lemma_find_char(named, ',');
    assert forall|j: int| 0 <= j <= quote implies named[j] != ',' by {
        if j < comma {
            assert(named[j] == named.take(comma)[j]);
            assert(line[j] == line.take(comma)[j]);
        } else if j > comma {
            assert(named[comma + 1 + (j - comma - 1)] == pat[j - comma - 1]);
        }
    }
    match place(named, name) {
        Some(Place::Value(start, _)) => {
            lemma_not_across(line, named, comma, name, start - opening(name).len());
        },
        Some(_) => {
            let second = find(named, seq![','])->0;
            lemma_replay_around(named, second);
            lemma_behind_quote(named, second);
            match replay_around(named, second) {
                None => {},
                Some((at, start, end)) => {
                    let r = choose|r: Seq<char>| #[trigger]
                        replay_name(r) && occurs_at(named, opening(r), at) && at + opening(r).len()
                            == start;
                    lemma_opening_plain(r);
                    assert(start > quote);
                    if at < comma {
                        lemma_occurs_chars(named, opening(r), at);
                        assert(opening(r)[comma - at] == named[at + (comma - at)]);
                    }
                },
            }
        },
        None => {},
    }
}

/// The way of playing is told behind the replay attribute around the first comma,
/// as the source is.
proof fn lemma_second_behind_replay(line: Seq<char>, source_name: Seq<char>)
    requires
        untold(line),
        find(line, seq![',']) matches Some(comma) && replay_around(line, comma) is Some,
    ensures
        ({
            let (_, _, end) = replay_around(line, find(line, seq![','])->0)->0;
            let named = with_attribute(line, "source-name"@, source_name);
            place(named, "access-mode"@) == Some(Place::Behind(end + 1))
        }),
{
    let comma = find(line, seq![','])->0;
    let (at, start, end) = replay_around(line, comma)->0;
    let n = end + 1;
    let named = with_attribute(line, "source-name"@, source_name);
    let name = "access-mode"@;
    lemma_find_char(line, ',');
    lemma_replay_around(line, comma);
    lemma_unopened_behind(line, "source-name"@);
    lemma_unopened_behind(line, name);
    lemma_beginning_stays(line, "source-name"@, source_name, n);
    lemma_comma_in_front(line, named, n);
    lemma_around_in_front(line, named, comma, n);
    assert(named.take(comma) =~= named.take(n).take(comma));
    assert(line.take(comma) =~= line.take(n).take(comma));
    assert(named.subrange(start, end) =~= named.take(n).subrange(start, end));
    assert(line.subrange(start, end) =~= line.take(n).subrange(start, end));
    lemma_absent_in_part(line, opening(name), comma);
    lemma_same_occurrence(line, named, opening(name), start - opening(name).len(), n);
    lemma_find(line, opening(name));
    reveal_strlit(" ");
    reveal_strlit("source-name");
    reveal_strlit("access-mode");
    lemma_opening("source-name"@);
    lemma_opening(name);
    let rest = named.skip(n);
    assert(rest[1] == named[n + 1]);
    assert(named[n + 1] == opening("source-name"@)[0]);
    assert(!begins_with(rest, " "@ + opening(name))) by {
        if begins_with(rest, " "@ + opening(name)) {
            assert(rest.take((" "@ + opening(name)).len() as int)[1] == rest[1]);
            assert((" "@ + opening(name))[1] == opening(name)[0]);
        }
    }
}

/// Whatever the source is called, what is read before the place where the line
/// tells it is read as before.
proof fn lemma_told_keeps(
    line: Seq<char>,
    source_name: Seq<char>,
    access: Seq<char>,
    other: Seq<char>,
)
    requires
        untold(line),
        read_before(line, other),
    ensures
        attribute_value(
            with_attribute(
                with_attribute(line, "source-name"@, source_name),
                "access-mode"@,
                access,
            ),
            other,
        ) == attribute_value(line, other),
{
    let named = with_attribute(line, "source-name"@, source_name);
    let told = with_attribute(named, "access-mode"@, access);
    lemma_unopened_behind(line, "source-name"@);
    lemma_unopened_behind(line, "access-mode"@);
    lemma_find_char(line, ',');
    match place(line, "source-name"@) {
        Some(Place::Behind(n)) => {
            let comma = find(line, seq![','])->0;
            lemma_place(line, "source-name"@);
            lemma_replay_around(line, comma);
            match replay_around(line, comma) {
                None => {
                    lemma_second_behind_comma(line, source_name);
                },
                Some(_) => {
                    lemma_second_behind_replay(line, source_name);
                },
            }
            lemma_beginning_stays(line, "source-name"@, source_name, n);
            lemma_beginning_stays(named, "access-mode"@, access, n);
            lemma_read_in_front(line.take(n), line.skip(n), other);
            lemma_read_in_front(line.take(n), told.skip(n), other);
            assert(line.take(n) + line.skip(n) =~= line);
            assert(told.take(n) + told.skip(n) =~= told);
        },
        _ => {},
    }
}

/// What is read as `other` in a line stays when the list sets the name of the
/// source and the way of playing: it is read before they are told, whatever the
/// name is, or neither of them disturbs it.
pub open spec fn kept_in_list(line: Seq<char>, channel: ChannelView, other: Seq<char>) -> bool {
    let named = with_attribute(line, "source-name"@, channel.source_name);
    ||| untold(line) && read_before(line, other)
    ||| {
        &&& undisturbed(line, "source-name"@, channel.source_name, other)
        &&& undisturbed(named, "access-mode"@, channel.mode.access_text(), other)
    }
}

/// A description keeps what it says but for the two attributes that tell where
/// the channel comes from and how it is played.
pub proof fn law_list_keeps_attributes(channel: ChannelView, base: Seq<char>, other: Seq<char>)
    requires
        kept_in_list(replay_info(channel, base), channel, other),
    ensures
        attribute_value(listed_info(channel, base), other) == attribute_value(
            replay_info(channel, base),
            other,
        ),
{
    let line = replay_info(channel, base);
    let named = with_attribute(line, "source-name"@, channel.source_name);
    if untold(line) && read_before(line, other) {
        lemma_told_keeps(line, channel.source_name, channel.mode.access_text(), other);
    } else {
        law_set_keeps_others(line, "source-name"@, channel.source_name, other);
        law_set_keeps_others(named, "access-mode"@, channel.mode.access_text(), other);
    }
}

/// An attribute that is opened before the first comma of a line.
pub open spec fn opened_before_comma(line: Seq<char>, name: Seq<char>) -> bool {
    &&& value_span(line, name) matches Some((start, _))
    &&& find(line, seq![',']) matches Some(comma) ==> start <= comma
}

/// What is opened before the first comma is read before the source is told: a
/// value ends before the comma, or it is one of replay and stays whole.
proof fn lemma_opened_read_before(line: Seq<char>, name: Seq<char>)
    requires
        untold(line),
        opened_before_comma(line, name),
        replay_name(name) || (value_span(line, name) matches Some((_, end)) && (find(
            line,
            seq![','],
        ) matches Some(comma) ==> end < comma)),
    ensures
        read_before(line, name),
{
    lemma_unopened_behind(line, "source-name"@);
    lemma_place(line, "source-name"@);
    lemma_value_span(line, name);
    lemma_find_char(line, ',');
    match place(line, "source-name"@) {
        Some(Place::Behind(n)) => {
            let comma = find(line, seq![','])->0;
            let (start, end) = value_span(line, name)->0;
            lemma_replay_around(line, comma);
            if end > comma {
                lemma_replay_around_at(line, comma, name, start, end);
            }
            lemma_span_of_part(line, n, name);
        },
        _ => {},
    }
}

/// A channel of a direct source keeps its address and its replay attributes,
/// whatever the source is called and whatever their values hold.
pub proof fn law_direct_keeps_replay(channel: ChannelView, base: Seq<char>, name: Seq<char>)
    requires
        channel.mode == Mode::Direct,
        replay_name(name),
        untold(channel.extinf),
        opened_before_comma(channel.extinf, name),
    ensures
        listed_address(channel, base) == channel.url,
        attribute_value(listed_info(channel, base), name) == attribute_value(channel.extinf, name),
        has_text(
            listed_info(channel, base),
            opening(name) + attribute_value(channel.extinf, name)->0 + "\""@,
        ),
{
    lemma_opened_read_before(channel.extinf, name);
    law_list_keeps_attributes(channel, base, name);
    let line = listed_info(channel, base);
    let value = attribute_value(channel.extinf, name)->0;
    let text = opening(name) + value + "\""@;
    lemma_value_span(line, name);
    let (start, end) = value_span(line, name)->0;
    let at = start - opening(name).len();
    reveal_strlit("\"");
    assert(line.subrange(at, end + 1) =~= line.subrange(at, start) + line.subrange(start, end)
        + seq![line[end]]);
    assert(text =~= opening(name) + value + seq!['"']);
    assert(occurs_at(line, text, at));
}

/// A channel keeps every attribute that ends before the first comma of its
/// description, whatever its source is called; a relayed one that can be replayed
/// gets its replay attributes from the service.
pub proof fn law_list_keeps_before_comma(channel: ChannelView, base: Seq<char>, other: Seq<char>)
    requires
        channel.mode == Mode::Direct || channel.catchup is None,
        untold(channel.extinf),
        value_span(channel.extinf, other) matches Some((_, end)) && (find(
            channel.extinf,
            seq![','],
        ) matches Some(comma) ==> end < comma),
    ensures
        attribute_value(listed_info(channel, base), other) == attribute_value(
            channel.extinf,
            other,
        ),
{
    lemma_value_span(channel.extinf, other);
    lemma_opened_read_before(channel.extinf, other);
    law_list_keeps_attributes(channel, base, other);
}

/// No replay is made up: a channel whose source offers none is listed without
/// one, relayed or not.
pub proof fn law_no_replay_made_up(channel: ChannelView, base: Seq<char>)
    requires
        channel.catchup == attribute_value(channel.extinf, "catchup-source"@),
        channel.catchup is None,
        kept_in_list(channel.extinf, channel, "catchup-source"@),
    ensures
        attribute_value(listed_info(channel, base), "catchup-source"@) is None,
{
    law_list_keeps_attributes(channel, base, "catchup-source"@);
}

/// The description of a channel with the kind of its replay set.
pub open spec fn with_replay_kind(channel: ChannelView) -> Seq<char> {
    with_attribute(channel.extinf, "catchup"@, "default"@)
}

/// A relayed channel that can be replayed is listed with the addresses of the
/// service, for its live stream and for its replay.
pub proof fn law_relayed_replay_through_service(channel: ChannelView, base: Seq<char>)
    requires
        channel.mode == Mode::Proxy,
        channel.catchup is Some,
        settable(with_replay_kind(channel), "catchup-source"@, replay_link(base, channel.id)),
        kept_in_list(replay_info(channel, base), channel, "catchup-source"@),
    ensures
        listed_address(channel, base) == base + "/live/"@ + channel.id,
        attribute_value(listed_info(channel, base), "catchup-source"@) == Some(
            replay_link(base, channel.id),
        ),
{
    law_set_then_read(
        with_replay_kind(channel),
        "catchup-source"@,
        replay_link(base, channel.id),
    );
    law_list_keeps_attributes(channel, base, "catchup-source"@);
}

/// A relayed channel that can be replayed is listed with the kind of replay for
/// which players fill in the times.
pub proof fn law_relayed_replay_kind(channel: ChannelView, base: Seq<char>)
    requires
        channel.mode == Mode::Proxy,
        channel.catchup is Some,
        settable(channel.extinf, "catchup"@, "default"@),
        undisturbed(
            with_replay_kind(channel),
            "catchup-source"@,
            replay_link(base, channel.id),
            "catchup"@,
        ),
        kept_in_list(replay_info(channel, base), channel, "catchup"@),
    ensures
        attribute_value(listed_info(channel, base), "catchup"@) == Some("default"@),
{
    law_set_then_read(channel.extinf, "catchup"@, "default"@);
    law_set_keeps_others(
        with_replay_kind(channel),
        "catchup-source"@,
        replay_link(base, channel.id),
        "catchup"@,
    );
    law_list_keeps_attributes(channel, base, "catchup"@);
}

/// The list tells where each channel comes from and how it is played.
pub proof fn law_list_tells_source(channel: ChannelView, base: Seq<char>)
    requires
        settable(replay_info(channel, base), "source-name"@, channel.source_name),
        undisturbed(
            with_attribute(replay_info(channel, base), "source-name"@, channel.source_name),
            "access-mode"@,
            channel.mode.access_text(),
            "source-name"@,
        ),
        settable(
            with_attribute(replay_info(channel, base), "source-name"@, channel.source_name),
            "access-mode"@,
            channel.mode.access_text(),
        ),
    ensures
        attribute_value(listed_info(channel, base), "source-name"@) == Some(channel.source_name),
        attribute_value(listed_info(channel, base), "access-mode"@) == Some(
            channel.mode.access_text(),
        ),
{
    let line = replay_info(channel, base);
    let named = with_attribute(line, "source-name"@, channel.source_name);
    law_set_then_read(line, "source-name"@, channel.source_name);
    law_set_keeps_others(named, "access-mode"@, channel.mode.access_text(), "source-name"@);
    law_set_then_read(named, "access-mode"@, channel.mode.access_text());
}

/// The address of a programme guide as playlists name it.
pub open spec fn guide_like(url: Seq<char>) -> bool {
    url.len() > 0 && !url.contains(',') && !url.contains('"')
}

/// The parts between commas are not empty and hold no comma.
proof fn lemma_parts_like(s: Seq<char>, k: int)
    requires
        !s.contains('"'),
        0 <= k < parts(s, ',').len(),
    ensures
        guide_like(parts(s, ',')[k]),
    decreases s.len(),
{
    lemma_find_char(s, ',');
    match find(s, seq![',']) {
        None => {},
        Some(i) => {
            let first = s.take(i);
            let rest = s.skip(i + 1);
            assert(!first.contains(',') && !first.contains('"')) by {
                assert forall|j: int| 0 <= j < first.len() implies first[j] != ',' && first[j]
                    != '"' by {
                    assert(s.contains(s[j]));
                }
            }
            if k < unless_empty(first).len() {
            } else {
                assert(!rest.contains('"')) by {
                    assert forall|j: int| 0 <= j < rest.len() implies rest[j] != '"' by {
                        assert(s.contains(s[j + i + 1]));
                    }
                }
                lemma_parts_like(rest, k - unless_empty(first).len());
            }
        },
    }
}

proof fn lemma_guides_in_like(line: Seq<char>, name: Seq<char>, k: int)
    requires
        0 <= k < guides_in(line, name).len(),
    ensures
        guide_like(guides_in(line, name)[k]),
{
    lemma_value_span(line, name);
    let (start, end) = value_span(line, name)->0;
    let value = line.subrange(start, end);
    assert(!value.contains('"')) by {
        assert forall|j: int| 0 <= j < value.len() implies value[j] != '"' by {
            assert(line[start + j] != '"');
        }
    }
    lemma_parts_like(value, k);
}

/// The programme guides that are read from a playlist have the form that the list
/// can name.
pub proof fn law_guides_read_fit(
    list: Seq<Seq<char>>,
    base: Seq<char>,
    source: SourceView,
    k: int,
)
    requires
        0 <= k < read_lines(list, base, source).guides.len(),
    ensures
        guide_like(read_lines(list, base, source).guides[k]),
    decreases list.len(),
{
    let before = read_lines(list.drop_last(), base, source);
    let after = read_lines(list, base, source);
    let line = crate::text::trimmed(list.last());
    assert(after == read_line(before, list.last(), base, source));
    if k < before.guides.len() {
        law_guides_read_fit(list.drop_last(), base, source, k);
        assert(after.guides[k] == before.guides[k]);
    } else {
        let one = guides_in(line, "x-tvg-url"@);
        let two = guides_in(line, "url-tvg"@);
        let j = k - before.guides.len();
        assert(after.guides =~= before.guides + one + two);
        if j < one.len() {
            lemma_guides_in_like(line, "x-tvg-url"@, j);
            assert(after.guides[k] == one[j]);
        } else {
            lemma_guides_in_like(line, "url-tvg"@, j - one.len());
            assert(after.guides[k] == two[j - one.len()]);
        }
    }
}

/// Texts that are joined begin with the first of them.
proof fn lemma_joined_first(list: Seq<Seq<char>>, sep: Seq<char>)
    requires
        list.len() >= 2,
    ensures
        joined(list, sep) == list[0] + sep + joined(list.drop_first(), sep),
    decreases list.len(),
{
    if list.len() == 2 {
        assert(list.drop_last().len() == 1);
        assert(list.drop_first().len() == 1);
        assert(joined(list.drop_last(), sep) == list[0]);
        assert(joined(list.drop_first(), sep) == list[1]);
    } else {
        lemma_joined_first(list.drop_last(), sep);
        assert(list.drop_last().drop_first() =~= list.drop_first().drop_last());
        assert(joined(list, sep) =~= list[0] + sep + joined(list.drop_first(), sep));
    }
}

/// Joining with commas can be undone.
proof fn lemma_parts_joined(list: Seq<Seq<char>>)
    requires
        list.len() > 0,
        forall|k: int| 0 <= k < list.len() ==> guide_like(#[trigger] list[k]),
    ensures
        parts(joined(list, ","@), ',') == list,
        !joined(list, ","@).contains('"'),
    decreases list.len(),
{
    reveal_strlit(",");
    let whole = joined(list, ","@);
    assert(guide_like(list[0]));
    if list.len() == 1 {
        lemma_find_char(whole, ',');
        assert(parts(whole, ',') =~= list);
    } else {
        let first = list[0];
        let tail = list.drop_first();
        let rest = joined(tail, ","@);
        lemma_joined_first(list, ","@);
        assert forall|k: int| 0 <= k < tail.len() implies guide_like(#[trigger] tail[k]) by {
            assert(tail[k] == list[k + 1]);
        }
        lemma_parts_joined(tail);
        assert forall|j: int| 0 <= j < first.len() implies whole[j] != ',' by {
            assert(first.contains(first[j]));
        }
        lemma_find_char_at(whole, ',', first.len() as int);
        assert(whole.take(first.len() as int) =~= first);
        assert(whole.skip(first.len() as int + 1) =~= rest);
        assert(parts(whole, ',') =~= list);
        assert forall|j: int| 0 <= j < whole.len() implies whole[j] != '"' by {
            if j < first.len() {
                assert(first.contains(first[j]));
            } else if j > first.len() {
                assert(whole[j] == rest[j - first.len() - 1]);
                assert(rest.contains(whole[j]));
            }
        }
    }
}

/// The list names the programme guides of its sources: who reads it finds all of
/// them, and no other.
pub proof fn law_list_keeps_guides(guides: Seq<Seq<char>>)
    requires
        forall|k: int| 0 <= k < guides.len() ==> guide_like(#[trigger] guides[k]),
    ensures
        guides_in(heading(guides), "x-tvg-url"@) == guides,
{
    reveal_strlit("#EXTM3U");
    reveal_strlit("\n");
    reveal_strlit("x-tvg-url");
    reveal_strlit("=\"");
    let text = heading(guides);
    let pat = opening("x-tvg-url"@);
    if guides.len() == 0 {
        lemma_find(text, pat);
        assert(guides_in(text, "x-tvg-url"@) =~= guides);
    } else {
        reveal_strlit(" x-tvg-url=\"");
        reveal_strlit("\"");
        let lead = "#EXTM3U"@.push(' ');
        let value = joined(guides, ","@);
        let tail = value + "\""@ + "\n"@;
        lemma_parts_joined(guides);
        assert(text =~= lead + pat + tail);
        assert(!lead.contains(pat[0])) by {
            assert forall|k: int| 0 <= k < lead.len() implies lead[k] != 'x' by {}
        }
        lemma_found_behind(lead, pat, tail);
        let start: int = lead.len() as int + pat.len();
        assert(text.skip(start) =~= tail);
        assert forall|j: int| 0 <= j < value.len() implies tail[j] != '"' by {
            assert(value.contains(value[j]));
        }
        lemma_find_char_at(tail, '"', value.len() as int);
        assert(text.subrange(start, start + value.len()) =~= value);
    }
}

/// The line that introduces the list.
proof fn lemma_heading_line(guides: Seq<Seq<char>>)
    requires
        !joined(guides, ","@).contains('\n'),
    ensures
        heading(guides).len() > 0,
        heading(guides).last() == '\n',
        lines(heading(guides)) == seq![heading(guides).drop_last()],
{
    reveal_strlit("\n");
    reveal_strlit("#EXTM3U");
    reveal_strlit(" x-tvg-url=\"");
    reveal_strlit("\"");
    let nothing = Seq::<char>::empty();
    let line = heading(guides).drop_last();
    let value = joined(guides, ","@);
    assert(heading(guides) =~= (nothing + line).push('\n'));
    assert(line.last() == 'U' || line.last() == '"');
    assert(!line.contains('\n')) by {
        assert forall|k: int| 0 <= k < line.len() implies line[k] != '\n' by {
            if 19 <= k < 19 + value.len() && guides.len() > 0 {
                assert(line[k] == value[k - 19]);
                assert(value.contains(value[k - 19]));
            }
        }
    }
    lemma_lines_push(nothing, line);
    lemma_find_char(nothing, '\n');
    assert(lines(nothing) =~= seq![]);
    assert(lines(heading(guides)) =~= seq![line]);
}

/// A text with two more lines.
proof fn lemma_two_lines(head: Seq<char>, info: Seq<char>, address: Seq<char>)
    requires
        head.len() > 0,
        head.last() == '\n',
        !info.contains('\n'),
        !address.contains('\n'),
    ensures
        ({
            let text = head + (info + "\n"@ + address + "\n"@);
            &&& text.len() > 0
            &&& text.last() == '\n'
            &&& lines(text) == lines(head).push(without_return(info)).push(without_return(address))
        }),
{
    reveal_strlit("\n");
    let middle = (head + info).push('\n');
    lemma_lines_push(head, info);
    lemma_lines_push(middle, address);
    assert(head + (info + "\n"@ + address + "\n"@) =~= (middle + address).push('\n'));
}

/// A first text and pairs of lines behind it.
spec fn paired_text(first: Seq<char>, infos: Seq<Seq<char>>, addresses: Seq<Seq<char>>) -> Seq<char>
    decreases infos.len(),
{
    if infos.len() == 0 {
        first
    } else {
        paired_text(first, infos.drop_last(), addresses.drop_last()) + (infos.last() + "\n"@
            + addresses.last() + "\n"@)
    }
}

/// The lines of pairs of lines.
proof fn lemma_paired_lines(
    first: Seq<char>,
    infos: Seq<Seq<char>>,
    addresses: Seq<Seq<char>>,
)
    requires
        first.len() > 0,
        first.last() == '\n',
        lines(first).len() == 1,
        infos.len() == addresses.len(),
        forall|i: int| 0 <= i < infos.len() ==> !(#[trigger] infos[i]).contains('\n'),
        forall|i: int| 0 <= i < addresses.len() ==> !(#[trigger] addresses[i]).contains('\n'),
    ensures
        ({
            let text = paired_text(first, infos, addresses);
            &&& text.len() > 0
            &&& text.last() == '\n'
            &&& lines(text).len() == 1 + 2 * infos.len()
            &&& lines(text)[0] == lines(first)[0]
            &&& forall|i: int|
                #![trigger infos[i]]
                0 <= i < infos.len() ==> {
                    &&& lines(text)[1 + 2 * i] == without_return(infos[i])
                    &&& lines(text)[2 + 2 * i] == without_return(addresses[i])
                }
        }),
    decreases infos.len(),
{
    if infos.len() > 0 {
        let text = paired_text(first, infos, addresses);
        let front = infos.drop_last();
        let places = addresses.drop_last();
        let head = paired_text(first, front, places);
        assert forall|i: int| 0 <= i < front.len() implies !(#[trigger] front[i]).contains(
            '\n',
        ) by {
            assert(front[i] == infos[i]);
        }
        assert forall|i: int| 0 <= i < places.len() implies !(#[trigger] places[i]).contains(
            '\n',
        ) by {
            assert(places[i] == addresses[i]);
        }
        lemma_paired_lines(first, front, places);
        assert(!infos[infos.len() - 1].contains('\n'));
        assert(!addresses[infos.len() - 1].contains('\n'));
        lemma_two_lines(head, infos.last(), addresses.last());
        assert forall|i: int| #![trigger infos[i]] 0 <= i < infos.len() implies lines(text)[1 + 2
            * i] == without_return(infos[i]) && lines(text)[2 + 2 * i] == without_return(
            addresses[i],
        ) by {
            if i < front.len() {
                assert(front[i] == infos[i]);
                assert(places[i] == addresses[i]);
                assert(lines(text)[1 + 2 * i] == lines(head)[1 + 2 * i]);
                assert(lines(text)[2 + 2 * i] == lines(head)[2 + 2 * i]);
            }
        }
    }
}

/// The description of each channel in the list.
pub open spec fn infos(channels: Seq<ChannelView>, base: Seq<char>) -> Seq<Seq<char>> {
    channels.map_values(|channel: ChannelView| listed_info(channel, base))
}

/// The address of each channel in the list.
pub open spec fn addresses(channels: Seq<ChannelView>, base: Seq<char>) -> Seq<Seq<char>> {
    channels.map_values(|channel: ChannelView| listed_address(channel, base))
}

proof fn lemma_list_paired(guides: Seq<Seq<char>>, channels: Seq<ChannelView>, base: Seq<char>)
    ensures
        list_text(guides, channels, base) == paired_text(
            heading(guides),
            infos(channels, base),
            addresses(channels, base),
        ),
    decreases channels.len(),
{
    if channels.len() > 0 {
        let front = channels.drop_last();
        lemma_list_paired(guides, front, base);
        assert(infos(channels, base).drop_last() =~= infos(front, base));
        assert(addresses(channels, base).drop_last() =~= addresses(front, base));
    }
}

/// The list is one line that introduces it and two lines for each channel: its
/// description and its address.
pub proof fn law_list_lines(
    guides: Seq<Seq<char>>,
    channels: Seq<ChannelView>,
    base: Seq<char>,
)
    requires
        !joined(guides, ","@).contains('\n'),
        forall|i: int|
            0 <= i < channels.len() ==> !(#[trigger] infos(channels, base)[i]).contains('\n'),
        forall|i: int|
            0 <= i < channels.len() ==> !(#[trigger] addresses(channels, base)[i]).contains('\n'),
    ensures
        lines(list_text(guides, channels, base)).len() == 1 + 2 * channels.len(),
        lines(list_text(guides, channels, base))[0].push('\n') == heading(guides),
        forall|i: int|
            #![trigger infos(channels, base)[i]]
            0 <= i < channels.len() ==> {
                &&& lines(list_text(guides, channels, base))[1 + 2 * i] == without_return(
                    infos(channels, base)[i],
                )
                &&& lines(list_text(guides, channels, base))[2 + 2 * i] == without_return(
                    addresses(channels, base)[i],
                )
            },
{
    lemma_heading_line(guides);
    lemma_list_paired(guides, channels, base);
    let all = infos(channels, base);
    let places = addresses(channels, base);
    assert(all.len() == channels.len());
    assert(places.len() == channels.len());
    lemma_paired_lines(heading(guides), all, places);
    let text = list_text(guides, channels, base);
    assert forall|i: int| #![trigger all[i]] 0 <= i < channels.len() implies lines(text)[1 + 2 * i]
        == without_return(all[i]) && lines(text)[2 + 2 * i] == without_return(places[i]) by {
        assert(lines(text)[1 + 2 * i] == without_return(all[i]));
    }
    assert(lines(heading(guides))[0].push('\n') =~= heading(guides));
}

} // verus!
