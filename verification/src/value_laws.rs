//! Reading and setting attributes, told by the places in the line.

use vstd::prelude::*;

use crate::attribute_laws::{
    lemma_opening, lemma_replay_around, lemma_replay_around_at, lemma_value_span, replay_name,
};
use crate::attributes::{
    attribute_value, before_comma, opening, replay_around, value_span, with_attribute,
};
use crate::searching::{lemma_find_char, lemma_find_char_at, lemma_occurs_chars};
use crate::text::{begins_with, ends_in, find, first_at, lemma_find, lemma_find_some, occurs_at};

verus! {

/// The value of the leftmost attribute `name` of a line stands from `start` to
/// the quote at `end`.
pub open spec fn value_at(line: Seq<char>, name: Seq<char>, start: int, end: int) -> bool {
    &&& first_at(line, name + "=\""@, start - name.len() - 2)
    &&& start <= end < line.len()
    &&& line[end] == '"'
    &&& forall|j: int| start <= j < end ==> #[trigger] line[j] != '"'
}

/// The value of an attribute is found where it stands.
pub proof fn law_value_span(line: Seq<char>, name: Seq<char>, start: int, end: int)
    ensures
        value_span(line, name) == Some((start, end)) <==> value_at(line, name, start, end),
{
    lemma_opening(name);
    lemma_find(line, opening(name));
    lemma_value_span(line, name);
    if value_at(line, name, start, end) {
        let at = start - name.len() - 2;
        lemma_find_some(line, opening(name), at);
        lemma_occurs_chars(line, opening(name), at);
        assert forall|j: int| 0 <= j < end - start implies line.skip(start)[j] != '"' by {
            assert(line[start + j] != '"');
        }
        assert(line.skip(start)[end - start] == '"');
        lemma_find_char_at(line.skip(start), '"', end - start);
    }
}

/// The value of an attribute stands between the quote that opens it and the next
/// one. There is none where it is not opened, or not closed.
pub proof fn law_attribute_read(line: Seq<char>, name: Seq<char>)
    ensures
        forall|start: int, end: int| #[trigger]
            value_at(line, name, start, end) ==> attribute_value(line, name) == Some(
                line.subrange(start, end),
            ),
        attribute_value(line, name) is Some ==> exists|start: int, end: int| #[trigger]
            value_at(line, name, start, end),
{
    assert forall|start: int, end: int| #[trigger]
        value_at(line, name, start, end) implies attribute_value(line, name) == Some(
        line.subrange(start, end),
    ) by {
        law_value_span(line, name, start, end);
    }
    match value_span(line, name) {
        Some((start, end)) => {
            law_value_span(line, name, start, end);
            assert(value_at(line, name, start, end));
        },
        None => {},
    }
}

/// The value of an attribute is what was written between its quotes, if the
/// attribute is not opened before.
pub proof fn law_written_is_read(
    before: Seq<char>,
    name: Seq<char>,
    value: Seq<char>,
    rest: Seq<char>,
)
    requires
        first_at(before + name + "=\""@ + value + "\""@ + rest, name + "=\""@, before.len() as int),
        !value.contains('"'),
    ensures
        attribute_value(before + name + "=\""@ + value + "\""@ + rest, name) == Some(value),
{
    let line = before + name + "=\""@ + value + "\""@ + rest;
    reveal_strlit("=\"");
    reveal_strlit("\"");
    let start = (before.len() + name.len() + 2) as int;
    let end = start + value.len();
    assert forall|j: int| start <= j < end implies #[trigger] line[j] != '"' by {
        assert(line[j] == value[j - start]);
        assert(value.contains(value[j - start]));
    }
    assert(line[end] == '"');
    assert(value_at(line, name, start, end));
    law_attribute_read(line, name);
    assert(line.subrange(start, end) =~= value);
}

/// The first comma of a line.
pub open spec fn first_comma(line: Seq<char>, comma: int) -> bool {
    &&& 0 <= comma < line.len()
    &&& line[comma] == ','
    &&& forall|j: int| 0 <= j < comma ==> #[trigger] line[j] != ','
}

/// No value of the attribute can be read.
pub open spec fn unread(line: Seq<char>, name: Seq<char>) -> bool {
    forall|start: int, end: int| !#[trigger] value_at(line, name, start, end)
}

/// A value of a `catchup` or `catchup-source` attribute stands from `start` to the
/// quote at `end`.
pub open spec fn replay_value_at(line: Seq<char>, start: int, end: int) -> bool {
    &&& occurs_at(line, "catchup=\""@, start - 9) || occurs_at(
        line,
        "catchup-source=\""@,
        start - 16,
    )
    &&& start <= end < line.len()
    &&& line[end] == '"'
    &&& forall|j: int| start <= j < end ==> #[trigger] line[j] != '"'
}

proof fn lemma_replay_openings()
    ensures
        opening("catchup"@) == "catchup=\""@,
        opening("catchup-source"@) == "catchup-source=\""@,
        "catchup=\""@.len() == 9,
        "catchup-source=\""@.len() == 16,
        replay_name("catchup"@),
        replay_name("catchup-source"@),
{
    reveal_strlit("=\"");
    reveal_strlit("catchup");
    reveal_strlit("catchup-source");
    reveal_strlit("catchup=\"");
    reveal_strlit("catchup-source=\"");
    assert(opening("catchup"@) =~= "catchup=\""@);
    assert(opening("catchup-source"@) =~= "catchup-source=\""@);
}

proof fn lemma_unread(line: Seq<char>, name: Seq<char>)
    requires
        unread(line, name),
    ensures
        value_span(line, name) is None,
{
    match value_span(line, name) {
        Some((start, end)) => {
            law_value_span(line, name, start, end);
            assert(value_at(line, name, start, end));
        },
        None => {},
    }
}

proof fn lemma_first_comma(line: Seq<char>, comma: int)
    requires
        first_comma(line, comma),
    ensures
        find(line, seq![',']) == Some(comma),
{
    lemma_find_char_at(line, ',', comma);
}

/// Setting an attribute leaves a line without a comma as it is.
pub proof fn law_set_without_comma(line: Seq<char>, name: Seq<char>, value: Seq<char>)
    requires
        !line.contains(','),
    ensures
        with_attribute(line, name, value) == line,
{
    lemma_find_char(line, ',');
}

/// A value that is closed before the first comma is replaced; what stands before
/// and behind it stays.
pub proof fn law_set_replaces_value(
    line: Seq<char>,
    name: Seq<char>,
    value: Seq<char>,
    comma: int,
    start: int,
    end: int,
)
    requires
        first_comma(line, comma),
        value_at(line.take(comma), name, start, end),
    ensures
        with_attribute(line, name, value) == line.take(start) + value + line.skip(end),
{
    lemma_first_comma(line, comma);
    law_value_span(line.take(comma), name, start, end);
}

/// An attribute without a value before the first comma is added right before the
/// comma, unless the comma lies in a replay value; all else stays.
pub proof fn law_set_adds_before_comma(
    line: Seq<char>,
    name: Seq<char>,
    value: Seq<char>,
    comma: int,
)
    requires
        first_comma(line, comma),
        unread(line.take(comma), name),
        forall|start: int, end: int| #[trigger]
            replay_value_at(line, start, end) ==> !(start <= comma < end),
    ensures
        with_attribute(line, name, value) == line.take(comma) + " "@ + name + "=\""@ + value
            + "\""@ + line.skip(comma),
{
    lemma_first_comma(line, comma);
    lemma_unread(line.take(comma), name);
    lemma_replay_around(line, comma);
    lemma_replay_openings();
    match replay_around(line, comma) {
        Some((at, start, end)) => {
            let r = choose|r: Seq<char>| #[trigger]
                replay_name(r) && occurs_at(line, opening(r), at) && at + opening(r).len() == start;
            assert(replay_value_at(line, start, end));
        },
        None => {},
    }
    assert(with_attribute(line, name, value) =~= line.take(comma) + " "@ + name + "=\""@ + value
        + "\""@ + line.skip(comma));
}

proof fn lemma_replay_value(line: Seq<char>, comma: int, start: int, end: int)
    requires
        first_comma(line, comma),
        replay_value_at(line, start, end),
        start <= comma < end,
    ensures
        replay_around(line, comma) == Some(
            (
                if occurs_at(line, "catchup-source=\""@, start - 16) {
                    start - 16
                } else {
                    start - 9
                },
                start,
                end,
            ),
        ),
{
    lemma_replay_openings();
    if occurs_at(line, "catchup-source=\""@, start - 16) {
        lemma_replay_around_at(line, comma, "catchup-source"@, start, end);
    } else {
        lemma_replay_around_at(line, comma, "catchup"@, start, end);
    }
}

/// A replay value in which the first comma lies is replaced whole where it is the
/// value to set.
pub proof fn law_set_replaces_replay_value(
    line: Seq<char>,
    name: Seq<char>,
    value: Seq<char>,
    comma: int,
    start: int,
    end: int,
)
    requires
        first_comma(line, comma),
        unread(line.take(comma), name),
        replay_value_at(line, start, end),
        start <= comma < end,
        occurs_at(line, name + "=\""@, start - name.len() - 2),
    ensures
        with_attribute(line, name, value) == line.take(start) + value + line.skip(end),
{
    lemma_first_comma(line, comma);
    lemma_unread(line.take(comma), name);
    lemma_replay_value(line, comma, start, end);
    lemma_opening(name);
}

/// Beside a replay value in which the first comma lies, another attribute is added
/// right behind it. It goes in front of the replay attribute where the end of the
/// value reads as the beginning of the attribute. All else stays.
pub proof fn law_set_adds_beside_replay_value(
    line: Seq<char>,
    name: Seq<char>,
    value: Seq<char>,
    comma: int,
    start: int,
    end: int,
)
    requires
        first_comma(line, comma),
        unread(line.take(comma), name),
        replay_value_at(line, start, end),
        start <= comma < end,
        !occurs_at(line, name + "=\""@, start - name.len() - 2),
    ensures
        !ends_in(line.subrange(start, end), name + "="@) && !begins_with(
            line.skip(end + 1),
            " "@ + name + "=\""@,
        ) ==> with_attribute(line, name, value) == line.take(end + 1) + " "@ + name + "=\""@ + value
            + "\""@ + line.skip(end + 1),
        ends_in(line.subrange(start, end), name + "="@) ==> {
            let at = if occurs_at(line, "catchup-source=\""@, start - 16) {
                start - 16
            } else {
                start - 9
            };
            with_attribute(line, name, value) == line.take(at) + name + "=\""@ + value + "\" "@
                + line.skip(at)
        },
{
    lemma_first_comma(line, comma);
    lemma_unread(line.take(comma), name);
    lemma_replay_value(line, comma, start, end);
    lemma_opening(name);
    assert(" "@ + opening(name) =~= " "@ + name + "=\""@);
    if ends_in(line.subrange(start, end), name + "="@) {
        let at = if occurs_at(line, "catchup-source=\""@, start - 16) {
            start - 16
        } else {
            start - 9
        };
        assert(with_attribute(line, name, value) =~= line.take(at) + name + "=\""@ + value + "\" "@
            + line.skip(at));
    } else if !begins_with(line.skip(end + 1), " "@ + name + "=\""@) {
        assert(with_attribute(line, name, value) =~= line.take(end + 1) + " "@ + name + "=\""@
            + value + "\""@ + line.skip(end + 1));
    }
}

/// An attribute that stands right behind a replay value in which the first comma
/// lies has its value replaced there, if that is closed before the next comma, and
/// is added in front of it otherwise.
pub proof fn law_set_again_beside_replay_value(
    line: Seq<char>,
    name: Seq<char>,
    value: Seq<char>,
    comma: int,
    start: int,
    end: int,
    from: int,
    to: int,
)
    requires
        first_comma(line, comma),
        unread(line.take(comma), name),
        replay_value_at(line, start, end),
        start <= comma < end,
        !occurs_at(line, name + "=\""@, start - name.len() - 2),
        !ends_in(line.subrange(start, end), name + "="@),
        begins_with(line.skip(end + 1), " "@ + name + "=\""@),
    ensures
        value_at(before_comma(line.skip(end + 1)), name, from, to) ==> with_attribute(
            line,
            name,
            value,
        ) == line.take(end + 1 + from) + value + line.skip(end + 1 + to),
        unread(before_comma(line.skip(end + 1)), name) ==> with_attribute(line, name, value)
            == line.take(end + 1) + " "@ + name + "=\""@ + value + "\""@ + line.skip(end + 1),
{
    lemma_first_comma(line, comma);
    lemma_unread(line.take(comma), name);
    lemma_replay_value(line, comma, start, end);
    lemma_opening(name);
    assert(" "@ + opening(name) =~= " "@ + name + "=\""@);
    let rest = before_comma(line.skip(end + 1));
    if value_at(rest, name, from, to) {
        law_value_span(rest, name, from, to);
    }
    if unread(rest, name) {
        lemma_unread(rest, name);
        assert(with_attribute(line, name, value) =~= line.take(end + 1) + " "@ + name + "=\""@
            + value + "\""@ + line.skip(end + 1));
    }
}

/// What stands before the first comma of a text.
pub proof fn law_before_comma(s: Seq<char>)
    ensures
        forall|comma: int| #[trigger] first_comma(s, comma) ==> before_comma(s) == s.take(comma),
        !s.contains(',') ==> before_comma(s) == s,
{
    lemma_find_char(s, ',');
    assert forall|comma: int| #[trigger] first_comma(s, comma) implies before_comma(s) == s.take(
        comma,
    ) by {
        lemma_first_comma(s, comma);
    }
}

} // verus!
