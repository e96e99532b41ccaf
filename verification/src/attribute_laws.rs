//! What setting an attribute does to the attributes of a playlist line.

use vstd::prelude::*;

use crate::attributes::{
    attribute_value, before_comma, behind_quote, opening, place, place_beside, replay_around,
    value_span, with_attribute, written_at, Place,
};
use crate::searching::{
    lemma_find_char, lemma_find_char_at, lemma_find_left, lemma_find_right, lemma_occurs_chars,
    lemma_occurs_left,
};
use crate::text::{
    begins_with, ends_in, find, has_text, lemma_find, lemma_find_some, occurs_at,
};

verus! {

/// A name without quotes, commas and spaces.
pub open spec fn plain(name: Seq<char>) -> bool {
    !name.contains('"') && !name.contains(',') && !name.contains(' ')
}

/// The characters of what stands before a value.
pub proof fn lemma_opening(name: Seq<char>)
    ensures
        opening(name).len() == name.len() + 2,
        forall|k: int| 0 <= k < name.len() ==> #[trigger] opening(name)[k] == name[k],
        opening(name)[name.len() as int] == '=',
        opening(name)[name.len() as int + 1] == '"',
{
    reveal_strlit("=\"");
}

/// Only the last character of what stands before a value is a quote, and none is
/// a comma or a space.
pub proof fn lemma_opening_plain(name: Seq<char>)
    requires
        plain(name),
    ensures
        forall|k: int|
            0 <= k < opening(name).len() - 1 ==> #[trigger] opening(name)[k] != '"',
        forall|k: int|
            0 <= k < opening(name).len() ==> #[trigger] opening(name)[k] != ','
                && opening(name)[k] != ' ',
{
    lemma_opening(name);
    assert forall|k: int| 0 <= k < opening(name).len() implies #[trigger] opening(name)[k] != ','
        && opening(name)[k] != ' ' && (k < opening(name).len() - 1 ==> opening(name)[k] != '"') by {
        if k < name.len() {
            assert(name.contains(name[k]));
        }
    }
}

/// Where a value lies.
pub proof fn lemma_value_span(line: Seq<char>, name: Seq<char>)
    ensures
        value_span(line, name) matches Some((start, end)) ==> {
            &&& opening(name).len() <= start <= end < line.len()
            &&& find(line, opening(name)) == Some(start - opening(name).len())
            &&& occurs_at(line, opening(name), start - opening(name).len())
            &&& line[start - 1] == '"'
            &&& line[end] == '"'
            &&& forall|j: int| start <= j < end ==> #[trigger] line[j] != '"'
        },
{
    lemma_opening(name);
    lemma_find(line, opening(name));
    match find(line, opening(name)) {
        Some(at) => {
            let start = at + opening(name).len();
            lemma_occurs_chars(line, opening(name), at);
            lemma_find_char(line.skip(start), '"');
            assert(opening(name)[name.len() as int + 1] == line[at + (name.len() + 1)]);
            match find(line.skip(start), seq!['"']) {
                Some(length) => {
                    assert(line.skip(start)[length] == line[start + length]);
                    assert forall|j: int| start <= j < start + length implies #[trigger] line[j]
                        != '"' by {
                        assert(line.skip(start)[j - start] == line[j]);
                    }
                },
                None => {},
            }
        },
        None => {},
    }
}

/// No occurrence of `pat` touches the middle part or the seams around it.
spec fn clear_between(a: Seq<char>, x: Seq<char>, b: Seq<char>, pat: Seq<char>) -> bool {
    forall|i: int|
        a.len() < i + pat.len() && 0 <= i < a.len() + x.len() ==> !#[trigger] occurs_at(
            a + x + b,
            pat,
            i,
        )
}

/// What is read in the first part is read in the whole.
pub proof fn lemma_read_in_front(a: Seq<char>, y: Seq<char>, name: Seq<char>)
    requires
        value_span(a, name) is Some,
    ensures
        attribute_value(a + y, name) == attribute_value(a, name),
        find(a + y, opening(name)) is Some,
{
    let pat = opening(name);
    let whole = a + y;
    lemma_opening(name);
    lemma_find(a, pat);
    lemma_find_left(a, y, pat);
    let start = find(a, pat)->0 + pat.len();
    lemma_find_left(a.skip(start), y, seq!['"']);
    assert(a.skip(start) + y =~= whole.skip(start));
    lemma_value_span(a, name);
    let end = start + find(a.skip(start), seq!['"'])->0;
    assert(whole.subrange(start, end) =~= a.subrange(start, end));
}

/// What is read does not depend on a middle part that no occurrence touches.
proof fn lemma_read_around(a: Seq<char>, x: Seq<char>, b: Seq<char>, name: Seq<char>)
    requires
        clear_between(a, x, b, opening(name)),
        find(a, opening(name)) is Some ==> value_span(a, name) is Some,
    ensures
        attribute_value(a + x + b, name) == if value_span(a, name) is Some {
            attribute_value(a, name)
        } else {
            attribute_value(b, name)
        },
        find(a + x + b, opening(name)) is Some <==> find(a, opening(name)) is Some || find(
            b,
            opening(name),
        ) is Some,
{
    let pat = opening(name);
    let whole = a + x + b;
    lemma_opening(name);
    lemma_find(a, pat);
    match find(a, pat) {
        Some(_) => {
            lemma_read_in_front(a, x + b, name);
            assert(a + (x + b) =~= whole);
        },
        None => {
            assert forall|i: int| 0 <= i < (a + x).len() implies !#[trigger] occurs_at(
                whole,
                pat,
                i,
            ) by {
                if i + pat.len() <= a.len() {
                    lemma_occurs_left(a, x + b, pat, i);
                    assert(a + (x + b) =~= whole);
                }
            }
            lemma_find_right(a + x, b, pat);
            lemma_find(b, pat);
            match find(b, pat) {
                Some(j) => {
                    let start = j + pat.len();
                    let shift = (a + x).len();
                    assert(whole.skip(start + shift) =~= b.skip(start));
                    match find(b.skip(start), seq!['"']) {
                        Some(length) => {
                            lemma_value_span(b, name);
                            assert(whole.subrange(start + shift, start + shift + length)
                                =~= b.subrange(start, start + length));
                        },
                        None => {},
                    }
                },
                None => {},
            }
        },
    }
}

/// A value that reads, between its quotes, as if it held an attribute.
pub open spec fn speaks_of(value: Seq<char>, name: Seq<char>) -> bool {
    has_text(value.push('"'), opening(name))
}

/// An occurrence between two places is one of what stands there.
proof fn lemma_occurs_between(
    whole: Seq<char>,
    part: Seq<char>,
    from: int,
    pat: Seq<char>,
    i: int,
)
    requires
        0 <= from <= i,
        i + pat.len() <= from + part.len() <= whole.len(),
        whole.subrange(from, from + part.len()) == part,
        occurs_at(whole, pat, i),
    ensures
        occurs_at(part, pat, i - from),
{
    assert(part.subrange(i - from, i - from + pat.len()) =~= whole.subrange(i, i + pat.len()));
}

/// Nothing to read in a quoted part that does not speak of the attribute.
proof fn lemma_clear_in_quotes(a: Seq<char>, x: Seq<char>, b: Seq<char>, name: Seq<char>)
    requires
        plain(name),
        a.len() > 0,
        a.last() == '"',
        b.len() > 0,
        b[0] == '"',
        !speaks_of(x, name),
    ensures
        clear_between(a, x, b, opening(name)),
{
    let pat = opening(name);
    let whole = a + x + b;
    let seam: int = a.len() as int + x.len();
    lemma_opening(name);
    lemma_opening_plain(name);
    assert(whole.subrange(a.len() as int, seam + 1) =~= x.push('"'));
    assert forall|i: int|
        a.len() < i + pat.len() && 0 <= i < a.len() + x.len() implies !#[trigger] occurs_at(
        whole,
        pat,
        i,
    ) by {
        if occurs_at(whole, pat, i) {
            lemma_occurs_chars(whole, pat, i);
            if i < a.len() {
                assert(whole[a.len() - 1] == a.last());
                assert(pat[a.len() - 1 - i] == whole[i + (a.len() - 1 - i)]);
            } else if i + pat.len() - 1 > seam {
                assert(whole[seam] == b[0]);
                assert(pat[seam - i] == whole[i + (seam - i)]);
            } else {
                lemma_occurs_between(whole, x.push('"'), a.len() as int, pat, i);
            }
        }
    }
}

/// Nothing to read across a quote or a comma.
proof fn lemma_clear_at_seam(a: Seq<char>, b: Seq<char>, name: Seq<char>)
    requires
        plain(name),
        (a.len() > 0 && a.last() == '"') || (b.len() > 0 && b[0] == ','),
    ensures
        clear_between(a, seq![], b, opening(name)),
{
    let pat = opening(name);
    let whole = a + Seq::<char>::empty() + b;
    lemma_opening_plain(name);
    assert forall|i: int| a.len() < i + pat.len() && 0 <= i < a.len() implies !#[trigger] occurs_at(
        whole,
        pat,
        i,
    ) by {
        if occurs_at(whole, pat, i) {
            lemma_occurs_chars(whole, pat, i);
            assert(pat[a.len() - i] == whole[i + (a.len() - i)]);
            assert(pat[a.len() - 1 - i] == whole[i + (a.len() - 1 - i)]);
            assert(whole[a.len() - 1] == a.last());
            if b.len() > 0 {
                assert(whole[a.len() as int] == b[0]);
            }
        }
    }
}

/// Nothing to read in an attribute of another name that is added.
proof fn lemma_clear_in_added(
    a: Seq<char>,
    added: Seq<char>,
    value: Seq<char>,
    b: Seq<char>,
    name: Seq<char>,
)
    requires
        plain(name),
        plain(added),
        !ends_in(added, name),
        !speaks_of(value, name),
    ensures
        clear_between(a, " "@ + opening(added) + value + "\""@, b, opening(name)),
{
    let pat = opening(name);
    let front = opening(added);
    let x = " "@ + front + value + "\""@;
    let whole = a + x + b;
    let seam: int = a.len() as int + x.len();
    let first: int = a.len() as int + front.len();
    lemma_opening(name);
    lemma_opening_plain(name);
    lemma_opening(added);
    lemma_opening_plain(added);
    reveal_strlit(" ");
    reveal_strlit("\"");
    assert(whole.subrange(first + 1, seam) =~= value.push('"'));
    assert forall|i: int|
        a.len() < i + pat.len() && 0 <= i < a.len() + x.len() implies !#[trigger] occurs_at(
        whole,
        pat,
        i,
    ) by {
        if occurs_at(whole, pat, i) {
            lemma_occurs_chars(whole, pat, i);
            let q = i + pat.len() - 1;
            assert(pat[pat.len() - 1] == whole[i + (pat.len() - 1)]);
            if q >= seam {
                assert(whole[seam - 1] == x[x.len() - 1]);
                assert(pat[seam - 1 - i] == whole[i + (seam - 1 - i)]);
            } else if i <= a.len() {
                assert(whole[a.len() as int] == x[0]);
                assert(pat[a.len() - i] == whole[i + (a.len() - i)]);
            } else if q < first {
                assert(whole[q] == x[q - a.len()]);
                assert(x[q - a.len()] == front[q - a.len() - 1]);
            } else if q == first {
                assert forall|k: int| 0 <= k < name.len() implies added.skip(
                    added.len() - name.len(),
                )[k] == name[k] by {
                    assert(pat[k] == whole[i + k]);
                    assert(whole[i + k] == x[i + k - a.len()]);
                    assert(x[i + k - a.len()] == front[i + k - a.len() - 1]);
                }
                assert(added.skip(added.len() - name.len()) =~= name);
            } else if i <= first {
                assert(whole[first] == x[front.len() as int]);
                assert(x[front.len() as int] == front[front.len() - 1]);
                assert(pat[first - i] == whole[i + (first - i)]);
            } else {
                lemma_occurs_between(whole, value.push('"'), first + 1, pat, i);
            }
        }
    }
}

/// Names of which neither is read in the other.
pub open spec fn apart(name: Seq<char>, other: Seq<char>) -> bool {
    plain(name) && plain(other) && !ends_in(name, other) && !ends_in(other, name)
}

/// Setting `name` to `value` in `line` has no part in what is read as `other`:
/// either `other` is read before the place of the value, or it is not begun
/// there, and neither the value nor the one that it replaces speaks of it.
pub open spec fn undisturbed(
    line: Seq<char>,
    name: Seq<char>,
    value: Seq<char>,
    other: Seq<char>,
) -> bool {
    match place(line, name) {
        None => true,
        Some(Place::Value(start, end)) => value_span(line.take(start), other) is Some || {
            &&& apart(name, other)
            &&& !speaks_of(value, other)
            &&& !speaks_of(line.subrange(start, end), other)
        },
        Some(Place::Behind(i)) => value_span(line.take(i), other) is Some || {
            &&& find(line.take(i), opening(other)) is None
            &&& apart(name, other)
            &&& !speaks_of(value, other)
        },
        Some(Place::Front(i)) => value_span(line.take(i), other) is Some,
    }
}

/// Putting one part in place of another leaves what is read as `name`, where it is
/// read before the place or neither part touches it.
proof fn lemma_read_with_part_changed(
    a: Seq<char>,
    x: Seq<char>,
    y: Seq<char>,
    b: Seq<char>,
    name: Seq<char>,
)
    requires
        value_span(a, name) is Some || {
            &&& find(a, opening(name)) is None
            &&& clear_between(a, x, b, opening(name))
            &&& clear_between(a, y, b, opening(name))
        },
    ensures
        attribute_value(a + x + b, name) == attribute_value(a + y + b, name),
{
    if value_span(a, name) is Some {
        lemma_read_in_front(a, x + b, name);
        lemma_read_in_front(a, y + b, name);
        assert(a + (x + b) =~= a + x + b);
        assert(a + (y + b) =~= a + y + b);
    } else {
        lemma_read_around(a, x, b, name);
        lemma_read_around(a, y, b, name);
    }
}

/// The last quote before a position.
pub proof fn lemma_behind_quote(line: Seq<char>, i: int)
    requires
        0 <= i <= line.len(),
    ensures
        0 <= behind_quote(line, i) <= i,
        behind_quote(line, i) > 0 ==> line[behind_quote(line, i) - 1] == '"',
        forall|j: int| behind_quote(line, i) <= j < i ==> #[trigger] line[j] != '"',
    decreases i,
{
    if i > 0 && line[i - 1] != '"' {
        lemma_behind_quote(line, i - 1);
    }
}

/// Where the last quote is.
proof fn lemma_behind_quote_at(line: Seq<char>, i: int, k: int)
    requires
        0 < k <= i <= line.len(),
        line[k - 1] == '"',
        forall|j: int| k <= j < i ==> #[trigger] line[j] != '"',
    ensures
        behind_quote(line, i) == k,
    decreases i,
{
    if k < i {
        assert(line[i - 1] != '"');
        lemma_behind_quote_at(line, i - 1, k);
    }
}

/// The names of the replay attributes.
pub open spec fn replay_name(name: Seq<char>) -> bool {
    name == "catchup"@ || name == "catchup-source"@
}

/// The replay attribute around a comma.
pub proof fn lemma_replay_around(line: Seq<char>, i: int)
    requires
        0 <= i < line.len(),
        line[i] == ',',
    ensures
        replay_around(line, i) matches Some((at, start, end)) ==> {
            &&& 0 <= at < start <= i < end < line.len()
            &&& start == behind_quote(line, i)
            &&& exists|r: Seq<char>| #[trigger]
                replay_name(r) && occurs_at(line, opening(r), at) && at + opening(r).len() == start
            &&& line[start - 1] == '"'
            &&& line[end] == '"'
            &&& forall|j: int| start <= j < end ==> #[trigger] line[j] != '"'
        },
{
    let start = behind_quote(line, i);
    lemma_behind_quote(line, i);
    match replay_around(line, i) {
        Some((at, _, end)) => {
            lemma_find_char(line.skip(start), '"');
            lemma_opening("catchup"@);
            lemma_opening("catchup-source"@);
            let length = find(line.skip(start), seq!['"'])->0;
            assert(line.skip(start)[length] == line[end]);
            assert forall|j: int| start <= j < end implies #[trigger] line[j] != '"' by {
                assert(line.skip(start)[j - start] == line[j]);
            }
            assert(replay_name("catchup"@));
            assert(replay_name("catchup-source"@));
        },
        None => {},
    }
}

/// The replay attribute around a comma is found by what it is.
pub proof fn lemma_replay_around_at(line: Seq<char>, i: int, name: Seq<char>, start: int, end: int)
    requires
        replay_name(name),
        opening(name).len() <= start <= i < end < line.len(),
        occurs_at(line, opening(name), start - opening(name).len()),
        line[end] == '"',
        forall|j: int| start <= j < end ==> #[trigger] line[j] != '"',
    ensures
        replay_around(line, i) matches Some((_, s, e)) && s == start && e == end,
{
    lemma_opening(name);
    lemma_occurs_chars(line, opening(name), start - opening(name).len());
    let at = start - opening(name).len();
    assert(opening(name)[opening(name).len() - 1] == line[at + (opening(name).len() - 1)]);
    lemma_behind_quote_at(line, i, start);
    assert(line.skip(start)[end - start] == '"');
    assert forall|j: int| 0 <= j < end - start implies line.skip(start)[j] != '"' by {
        assert(line[start + j] != '"');
    }
    lemma_find_char_at(line.skip(start), '"', end - start);
}

/// What is found in a part up to a position is found in the line.
proof fn lemma_span_in_front(line: Seq<char>, i: int, name: Seq<char>)
    requires
        0 <= i <= line.len(),
        value_span(line.take(i), name) is Some,
    ensures
        value_span(line, name) == value_span(line.take(i), name),
{
    let a = line.take(i);
    let pat = opening(name);
    assert(a + line.skip(i) =~= line);
    lemma_find_left(a, line.skip(i), pat);
    lemma_find(a, pat);
    lemma_opening(name);
    let start = find(a, pat)->0 + pat.len();
    lemma_find_left(a.skip(start), line.skip(i), seq!['"']);
    assert(a.skip(start) + line.skip(i) =~= line.skip(start));
}

/// Where an attribute is written.
pub proof fn lemma_place(line: Seq<char>, name: Seq<char>)
    ensures
        match place(line, name) {
            None => !line.contains(','),
            Some(Place::Value(start, end)) => {
                &&& opening(name).len() <= start <= end < line.len()
                &&& occurs_at(line, opening(name), start - opening(name).len())
                &&& line[end] == '"'
                &&& forall|j: int| start <= j < end ==> #[trigger] line[j] != '"'
            },
            Some(Place::Behind(i)) => {
                &&& 0 <= i <= line.len()
                &&& (i > 0 && line[i - 1] == '"') || (i < line.len() && line[i] == ',')
            },
            Some(Place::Front(i)) => 0 <= i < line.len(),
        },
{
    lemma_find_char(line, ',');
    match find(line, seq![',']) {
        None => {},
        Some(comma) => {
            let before = line.take(comma);
            lemma_value_span(before, name);
            match value_span(before, name) {
                Some((start, end)) => {
                    lemma_span_in_front(line, comma, name);
                    lemma_value_span(line, name);
                },
                None => {
                    lemma_replay_around(line, comma);
                    match replay_around(line, comma) {
                        None => {},
                        Some((at, start, end)) => {
                            let rest = line.skip(end + 1);
                            let front = before_comma(rest);
                            lemma_find_char(rest, ',');
                            lemma_value_span(front, name);
                            match place_beside(line, name, at, start, end) {
                                Place::Value(from, to) => {
                                    if from != start {
                                        lemma_next_value(line, name, end + 1);
                                    } else if occurs_at(
                                        line,
                                        opening(name),
                                        start - opening(name).len(),
                                    ) {
                                        lemma_opening(name);
                                    }
                                },
                                _ => {},
                            }
                        },
                    }
                },
            }
        },
    }
}

/// The value of an attribute that is read in what follows a position.
proof fn lemma_next_value(line: Seq<char>, name: Seq<char>, i: int)
    requires
        0 <= i <= line.len(),
        value_span(before_comma(line.skip(i)), name) is Some,
    ensures
        ({
            let (from, to) = value_span(before_comma(line.skip(i)), name)->0;
            &&& opening(name).len() <= i + from <= i + to < line.len()
            &&& occurs_at(line, opening(name), i + from - opening(name).len())
            &&& line[i + to] == '"'
            &&& forall|j: int| i + from <= j < i + to ==> #[trigger] line[j] != '"'
        }),
{
    let rest = line.skip(i);
    let front = before_comma(rest);
    lemma_find_char(rest, ',');
    lemma_value_span(front, name);
    let (from, to) = value_span(front, name)->0;
    let at = from - opening(name).len();
    lemma_occurs_chars(front, opening(name), at);
    lemma_occurs_chars(line, opening(name), i + at);
    assert forall|k: int| 0 <= k < opening(name).len() implies #[trigger] opening(name)[k] == line[i
        + at + k] by {
        assert(opening(name)[k] == front[at + k]);
    }
    assert(front[to] == line[i + to]);
    assert forall|j: int| i + from <= j < i + to implies #[trigger] line[j] != '"' by {
        assert(front[j - i] == line[j]);
    }
}

/// Replacing a value leaves the other attributes as they are.
proof fn lemma_replaced_keeps_others(
    line: Seq<char>,
    name: Seq<char>,
    start: int,
    end: int,
    value: Seq<char>,
    other: Seq<char>,
)
    requires
        opening(name).len() <= start <= end < line.len(),
        occurs_at(line, opening(name), start - opening(name).len()),
        line[end] == '"',
        value_span(line.take(start), other) is Some || {
            &&& apart(name, other)
            &&& !speaks_of(value, other)
            &&& !speaks_of(line.subrange(start, end), other)
        },
    ensures
        attribute_value(line.take(start) + value + line.skip(end), other) == attribute_value(
            line,
            other,
        ),
{
    let a = line.take(start);
    let w = line.subrange(start, end);
    let b = line.skip(end);
    lemma_opening(name);
    assert(a + w + b =~= line);
    if value_span(a, other) is None {
        let at = start - opening(name).len();
        lemma_occurs_chars(line, opening(name), at);
        assert(opening(name)[opening(name).len() - 1] == line[at + (opening(name).len() - 1)]);
        assert(a.last() == '"');
        assert(b[0] == line[end]);
        lemma_clear_in_quotes(a, w, b, other);
        lemma_clear_in_quotes(a, value, b, other);
        lemma_read_before_value(line, name, other, start);
    }
    lemma_read_with_part_changed(a, w, value, b, other);
}

/// Adding an attribute leaves the other attributes as they are.
proof fn lemma_added_keeps_others(
    before: Seq<char>,
    rest: Seq<char>,
    name: Seq<char>,
    value: Seq<char>,
    other: Seq<char>,
)
    requires
        (before.len() > 0 && before.last() == '"') || (rest.len() > 0 && rest[0] == ','),
        value_span(before, other) is Some || {
            &&& find(before, opening(other)) is None
            &&& apart(name, other)
            &&& !speaks_of(value, other)
        },
    ensures
        attribute_value(before + (" "@ + opening(name) + value + "\""@) + rest, other)
            == attribute_value(before + rest, other),
{
    let x = " "@ + opening(name) + value + "\""@;
    let nothing = Seq::<char>::empty();
    assert(before + nothing + rest =~= before + rest);
    if value_span(before, other) is None {
        lemma_clear_at_seam(before, rest, other);
        lemma_clear_in_added(before, name, value, rest, other);
    }
    lemma_read_with_part_changed(before, nothing, x, rest, other);
}

/// Setting an attribute leaves the other attributes as they are.
pub proof fn law_set_keeps_others(
    line: Seq<char>,
    name: Seq<char>,
    value: Seq<char>,
    other: Seq<char>,
)
    requires
        undisturbed(line, name, value, other),
    ensures
        attribute_value(with_attribute(line, name, value), other) == attribute_value(line, other),
{
    lemma_place(line, name);
    match place(line, name) {
        None => {},
        Some(Place::Value(start, end)) => {
            lemma_replaced_keeps_others(line, name, start, end, value, other);
        },
        Some(Place::Behind(i)) => {
            assert(line.take(i) + line.skip(i) =~= line);
            lemma_added_keeps_others(line.take(i), line.skip(i), name, value, other);
        },
        Some(Place::Front(i)) => {
            let x = opening(name) + value + "\" "@;
            let nothing = Seq::<char>::empty();
            assert(line.take(i) + nothing + line.skip(i) =~= line);
            lemma_read_with_part_changed(line.take(i), nothing, x, line.skip(i), other);
        },
    }
}

/// What begins to be read before a value of another name is closed before it.
proof fn lemma_read_before_value(
    line: Seq<char>,
    name: Seq<char>,
    other: Seq<char>,
    start: int,
)
    requires
        apart(name, other),
        opening(name).len() <= start <= line.len(),
        occurs_at(line, opening(name), start - opening(name).len()),
    ensures
        find(line.take(start), opening(other)) is Some ==> value_span(line.take(start), other)
            is Some,
{
    let a = line.take(start);
    let pat = opening(other);
    lemma_opening(other);
    lemma_opening(name);
    lemma_find(a, pat);
    lemma_occurs_chars(line, opening(name), start - opening(name).len());
    assert(opening(name)[opening(name).len() - 1] == line[start - opening(name).len() + (opening(
        name,
    ).len() - 1)]);
    match find(a, pat) {
        Some(i) => {
            lemma_occurs_chars(a, pat, i);
            let from = i + pat.len();
            if from < start {
                assert(a.skip(from)[start - 1 - from] == line[start - 1]);
                assert(a.skip(from).contains('"'));
                lemma_find_char(a.skip(from), '"');
            } else if other.len() <= name.len() {
                assert forall|k: int| 0 <= k < other.len() implies name.skip(
                    name.len() - other.len(),
                )[k] == other[k] by {
                    assert(pat[k] == a[i + k]);
                    let at = name.len() - other.len() + k;
                    assert(opening(name)[at] == line[start - opening(name).len() + at]);
                }
                assert(name.skip(name.len() - other.len()) =~= other);
            } else {
                assert forall|k: int| 0 <= k < name.len() implies other.skip(
                    other.len() - name.len(),
                )[k] == name[k] by {
                    assert(opening(name)[k] == line[start - opening(name).len() + k]);
                    let at = other.len() - name.len() + k;
                    assert(pat[at] == a[i + at]);
                }
                assert(other.skip(other.len() - name.len()) =~= name);
            }
        },
        None => {},
    }
}

/// An attribute that is opened in a text is closed in it.
pub open spec fn closed_in(head: Seq<char>, name: Seq<char>) -> bool {
    find(head, opening(name)) is Some ==> value_span(head, name) is Some
}

/// The first comma of a line lies in the value of this attribute, which is one of
/// replay.
pub open spec fn holds_comma(line: Seq<char>, name: Seq<char>) -> bool {
    &&& find(line, seq![',']) matches Some(comma)
    &&& replay_around(line, comma) matches Some((_, start, _))
    &&& occurs_at(line, opening(name), start - opening(name).len())
}

/// A value can be set in a line and read back: the line has a comma, neither the
/// name nor the value has quotes, and the attribute is not opened before the first
/// comma without being closed there, unless it is a replay attribute whose value
/// holds this comma.
pub open spec fn settable(line: Seq<char>, name: Seq<char>, value: Seq<char>) -> bool {
    &&& line.contains(',')
    &&& !name.contains('"')
    &&& !value.contains('"')
    &&& closed_in(before_comma(line), name) || holds_comma(line, name)
}

/// A value that is put in place of another one is read back, whatever follows.
#[verifier::rlimit(30)]
pub proof fn lemma_value_in_place(
    line: Seq<char>,
    name: Seq<char>,
    value: Seq<char>,
    rest: Seq<char>,
)
    requires
        value_span(line, name) is Some,
        !value.contains('"'),
    ensures
        ({
            let (start, end) = value_span(line, name)->0;
            let after = line.take(start) + value + line.skip(end) + rest;
            &&& attribute_value(after, name) == Some(value)
            &&& value_span(after, name) == Some((start, start + value.len()))
        }),
{
    let (start, end) = value_span(line, name)->0;
    let pat = opening(name);
    let a = line.take(start);
    let b = line.skip(end) + rest;
    let after = line.take(start) + value + line.skip(end) + rest;
    lemma_opening(name);
    lemma_value_span(line, name);
    assert(after =~= a + (value + b));
    let at = start - pat.len();
    lemma_occurs_left(a, line.skip(start), pat, at);
    assert(a + line.skip(start) =~= line);
    lemma_find(line, pat);
    assert forall|j: int| 0 <= j < at implies !#[trigger] occurs_at(a, pat, j) by {
        lemma_occurs_left(a, line.skip(start), pat, j);
        assert(!occurs_at(line, pat, j));
    }
    lemma_find_some(a, pat, at);
    lemma_find_left(a, value + b, pat);
    assert(after.skip(start) =~= value + b);
    assert((value + b)[value.len() as int] == line[end]);
    assert forall|j: int| 0 <= j < value.len() implies (value + b)[j] != '"' by {
        assert(value.contains(value[j]));
    }
    lemma_find_char_at(value + b, '"', value.len() as int);
    assert(after.subrange(start, start + value.len()) =~= value);
}

/// A value that is added is read back, whatever follows.
#[verifier::rlimit(30)]
proof fn lemma_value_added(
    before: Seq<char>,
    name: Seq<char>,
    value: Seq<char>,
    rest: Seq<char>,
)
    requires
        find(before, opening(name)) is None,
        !name.contains(' ') || !name.contains('"'),
        !value.contains('"'),
    ensures
        attribute_value(before + " "@ + opening(name) + value + "\""@ + rest, name) == Some(value),
        value_span(before + " "@ + opening(name) + value + "\""@ + rest, name) == Some(
            (
                before.len() as int + 1 + opening(name).len(),
                before.len() as int + 1 + opening(name).len() + value.len(),
            ),
        ),
{
    let pat = opening(name);
    reveal_strlit(" ");
    reveal_strlit("\"");
    lemma_opening(name);
    let lead = before + " "@;
    let tail = value + "\""@ + rest;
    let after = before + " "@ + pat + value + "\""@ + rest;
    assert(after =~= lead + (pat + tail));
    assert forall|i: int| 0 <= i < lead.len() implies !#[trigger] occurs_at(
        lead + (pat + tail),
        pat,
        i,
    ) by {
        if occurs_at(after, pat, i) {
            if i + pat.len() <= before.len() {
                lemma_occurs_left(before, " "@ + (pat + tail), pat, i);
                assert(before + (" "@ + (pat + tail)) =~= after);
                lemma_find(before, pat);
            } else {
                lemma_occurs_chars(after, pat, i);
                if !name.contains(' ') {
                    let k = before.len() - i;
                    assert(after[before.len() as int] == ' ');
                    assert(pat[k] == after[i + k]);
                    assert(name.contains(name[k]));
                } else {
                    let q = i + pat.len() - 1;
                    assert(pat[pat.len() - 1] == after[i + (pat.len() - 1)]);
                    if q > before.len() {
                        let k = q - lead.len();
                        assert(after[q] == pat[k]);
                        if k < name.len() {
                            assert(name.contains(name[k]));
                        }
                    }
                }
            }
        }
    }
    lemma_find_right(lead, pat + tail, pat);
    assert(occurs_at(pat + tail, pat, 0)) by {
        assert((pat + tail).subrange(0, pat.len() as int) =~= pat);
    }
    lemma_find_some(pat + tail, pat, 0);
    let start: int = lead.len() as int + pat.len();
    assert(after.skip(start) =~= tail);
    assert(tail[value.len() as int] == '"');
    assert forall|j: int| 0 <= j < value.len() implies tail[j] != '"' by {
        assert(value.contains(value[j]));
    }
    lemma_find_char_at(tail, '"', value.len() as int);
    assert(after.subrange(start, start + value.len()) =~= value);
}

/// A value that is added in front is read back, whatever follows.
proof fn lemma_value_led(before: Seq<char>, name: Seq<char>, value: Seq<char>, rest: Seq<char>)
    requires
        find(before, opening(name)) is None,
        !name.contains('"'),
        !value.contains('"'),
    ensures
        value_span(before + (opening(name) + value + "\" "@) + rest, name) == Some(
            (
                before.len() as int + opening(name).len(),
                before.len() as int + opening(name).len() + value.len(),
            ),
        ),
{
    let pat = opening(name);
    reveal_strlit("\" ");
    lemma_opening(name);
    let tail = value + "\" "@ + rest;
    let after = before + (pat + value + "\" "@) + rest;
    assert(after =~= before + (pat + tail));
    assert forall|i: int| 0 <= i < before.len() implies !#[trigger] occurs_at(
        before + (pat + tail),
        pat,
        i,
    ) by {
        if occurs_at(after, pat, i) {
            lemma_occurs_chars(after, pat, i);
            let q = i + pat.len() - 1;
            assert(pat[pat.len() - 1] == after[i + (pat.len() - 1)]);
            if q < before.len() {
                lemma_occurs_left(before, pat + tail, pat, i);
                lemma_find(before, pat);
            } else {
                let k = q - before.len();
                assert(after[q] == pat[k]);
                if k < name.len() {
                    assert(name.contains(name[k]));
                }
            }
        }
    }
    lemma_find_right(before, pat + tail, pat);
    assert(occurs_at(pat + tail, pat, 0)) by {
        assert((pat + tail).subrange(0, pat.len() as int) =~= pat);
    }
    lemma_find_some(pat + tail, pat, 0);
    let start: int = before.len() as int + pat.len();
    assert(after.skip(start) =~= tail);
    assert forall|j: int| 0 <= j < value.len() implies tail[j] != '"' by {
        assert(value.contains(value[j]));
    }
    lemma_find_char_at(tail, '"', value.len() as int);
}

/// Where no attribute begins in the value of a replay attribute, none begins
/// between what stands before the comma in it and its end.
proof fn lemma_absent_through(
    line: Seq<char>,
    name: Seq<char>,
    comma: int,
    start: int,
    end: int,
)
    requires
        0 < start <= comma < end < line.len(),
        line[start - 1] == '"',
        line[end] == '"',
        forall|j: int| start <= j < end ==> #[trigger] line[j] != '"',
        !name.contains('"'),
        find(line.take(comma), opening(name)) is None,
        !ends_in(line.subrange(start, end), name + "="@),
    ensures
        find(line.take(end + 1), opening(name)) is None,
{
    let pat = opening(name);
    let a = line.take(end + 1);
    let before = line.take(comma);
    lemma_opening(name);
    lemma_find(a, pat);
    lemma_find(before, pat);
    reveal_strlit("=");
    match find(a, pat) {
        None => {},
        Some(i) => {
            lemma_occurs_chars(a, pat, i);
            let q = i + pat.len() - 1;
            assert(pat[pat.len() - 1] == a[i + (pat.len() - 1)]);
            assert(line[q] == '"');
            if q < start {
                assert(before + line.subrange(comma, end + 1) =~= a);
                lemma_occurs_left(before, line.subrange(comma, end + 1), pat, i);
            } else {
                assert(q == end);
                if i < start {
                    let k = start - 1 - i;
                    assert(pat[k] == a[i + k]);
                    if k < name.len() {
                        assert(name.contains(name[k]));
                    }
                } else {
                    let value = line.subrange(start, end);
                    let last = name + "="@;
                    assert forall|k: int| 0 <= k < last.len() implies value.skip(
                        value.len() - last.len(),
                    )[k] == last[k] by {
                        assert(pat[k] == a[i + k]);
                    }
                    assert(value.skip(value.len() - last.len()) =~= last);
                }
            }
        },
    }
}

/// Before the place at which an attribute is written, it is not begun.
proof fn lemma_first_there(line: Seq<char>, name: Seq<char>)
    requires
        line.contains(','),
        !name.contains('"'),
        closed_in(before_comma(line), name) || holds_comma(line, name),
    ensures
        match place(line, name) {
            None => false,
            Some(Place::Value(start, end)) => value_span(line, name) == Some((start, end)),
            Some(Place::Behind(i)) => find(line.take(i), opening(name)) is None,
            Some(Place::Front(i)) => find(line.take(i), opening(name)) is None,
        },
{
    let pat = opening(name);
    lemma_find_char(line, ',');
    let comma = find(line, seq![','])->0;
    let before = line.take(comma);
    lemma_place(line, name);
    lemma_opening(name);
    if value_span(before, name) is Some {
        lemma_span_in_front(line, comma, name);
    } else {
        lemma_replay_around(line, comma);
        match replay_around(line, comma) {
            None => {},
            Some((at, start, end)) => {
                if occurs_at(line, pat, start - pat.len()) {
                    lemma_own_value_first(line, name, comma, start, end);
                } else {
                    assert(find(before, pat) is None);
                    lemma_absent_in_part(before, pat, at);
                    assert(before.take(at) =~= line.take(at));
                    if !ends_in(line.subrange(start, end), name + "="@) {
                        lemma_absent_through(line, name, comma, start, end);
                        lemma_next_first(line, name, end + 1);
                    }
                }
            },
        }
    }
}

/// What stands nowhere in a text stands nowhere in its beginning.
pub proof fn lemma_absent_in_part(s: Seq<char>, pat: Seq<char>, i: int)
    requires
        0 <= i <= s.len(),
        find(s, pat) is None,
    ensures
        find(s.take(i), pat) is None,
{
    lemma_find(s, pat);
    lemma_find(s.take(i), pat);
    match find(s.take(i), pat) {
        None => {},
        Some(k) => {
            assert(s.take(i) + s.skip(i) =~= s);
            lemma_occurs_left(s.take(i), s.skip(i), pat, k);
        },
    }
}

/// The value in which the first comma lies is the one that is read.
proof fn lemma_own_value_first(
    line: Seq<char>,
    name: Seq<char>,
    comma: int,
    start: int,
    end: int,
)
    requires
        opening(name).len() <= start <= comma < end < line.len(),
        occurs_at(line, opening(name), start - opening(name).len()),
        line[end] == '"',
        forall|j: int| start <= j < end ==> #[trigger] line[j] != '"',
        value_span(line.take(comma), name) is None,
    ensures
        value_span(line, name) == Some((start, end)),
{
    let pat = opening(name);
    let before = line.take(comma);
    let at = start - pat.len();
    lemma_opening(name);
    assert(before + line.skip(comma) =~= line);
    lemma_occurs_left(before, line.skip(comma), pat, at);
    lemma_find(before, pat);
    let i = find(before, pat)->0;
    if i < at {
        lemma_occurs_chars(before, pat, at);
        assert(pat[pat.len() - 1] == before[at + (pat.len() - 1)]);
        let from = i + pat.len();
        assert(before.skip(from)[start - 1 - from] == '"');
        assert(before.skip(from).contains('"'));
        lemma_find_char(before.skip(from), '"');
    } else if i > at {
        assert(!occurs_at(before, pat, at));
    }
    lemma_find_left(before, line.skip(comma), pat);
    assert(line.skip(start)[end - start] == '"');
    assert forall|j: int| 0 <= j < end - start implies line.skip(start)[j] != '"' by {
        assert(line[start + j] != '"');
    }
    lemma_find_char_at(line.skip(start), '"', end - start);
}

/// An attribute that stands right behind a position, and not before it, is the
/// one that is read.
proof fn lemma_next_first(line: Seq<char>, name: Seq<char>, i: int)
    requires
        0 < i <= line.len(),
        line[i - 1] == '"',
        !name.contains('"'),
        find(line.take(i), opening(name)) is None,
    ensures
        begins_with(line.skip(i), " "@ + opening(name)) ==> (value_span(
            before_comma(line.skip(i)),
            name,
        ) matches Some((from, to)) ==> from == 1 + opening(name).len() && value_span(line, name)
            == Some((i + from, i + to))),
{
    let pat = opening(name);
    let rest = line.skip(i);
    let front = before_comma(rest);
    if begins_with(rest, " "@ + pat) && value_span(front, name) is Some {
        reveal_strlit(" ");
        lemma_opening(name);
        lemma_find_char(rest, ',');
        lemma_next_value(line, name, i);
        lemma_value_span(front, name);
        let (from, to) = value_span(front, name)->0;
        assert(rest.take((" "@ + pat).len() as int) == " "@ + pat);
        assert forall|k: int| 0 <= k < pat.len() implies #[trigger] pat[k] == line[i + 1 + k] by {
            assert((" "@ + pat)[k + 1] == rest[k + 1]);
        }
        assert((" "@ + pat)[0] == rest[0]);
        lemma_occurs_chars(line, pat, i + 1);
        assert forall|j: int| 0 <= j < i + 1 implies !#[trigger] occurs_at(line, pat, j) by {
            if occurs_at(line, pat, j) {
                lemma_occurs_chars(line, pat, j);
                let q = j + pat.len() - 1;
                assert(pat[pat.len() - 1] == line[j + (pat.len() - 1)]);
                if q < i {
                    assert(line.take(i) + rest =~= line);
                    lemma_occurs_left(line.take(i), rest, pat, j);
                    lemma_find(line.take(i), pat);
                } else if q > i {
                    let k = q - i - 1;
                    assert(pat[k] == line[i + 1 + k]);
                    if k < name.len() {
                        assert(name.contains(name[k]));
                    }
                }
            }
        }
        lemma_find_some(line, pat, i + 1);
        // The attribute is the first in what follows, too.
        let at = from - pat.len();
        lemma_occurs_chars(front, pat, at);
        lemma_occurs_chars(line, pat, i + at);
        assert(at >= 1) by {
            if at < 1 {
                assert(!occurs_at(line, pat, i + at));
            }
        }
        assert(at == 1) by {
            if at > 1 {
                lemma_find(front, pat);
                assert(front.len() >= to);
                lemma_occurs_chars(front, pat, 1);
                assert forall|k: int| 0 <= k < pat.len() implies #[trigger] pat[k] == front[1
                    + k] by {
                    assert(pat[k] == line[i + 1 + k]);
                }
                assert(!occurs_at(front, pat, 1));
            }
        }
        let tail = line.skip(i + from);
        assert(tail[to - from] == '"');
        assert forall|j: int| 0 <= j < to - from implies tail[j] != '"' by {
            assert(line[i + from + j] != '"');
        }
        lemma_find_char_at(tail, '"', to - from);
    }
}

/// An attribute that has been set is read back.
pub proof fn law_set_then_read(line: Seq<char>, name: Seq<char>, value: Seq<char>)
    requires
        settable(line, name, value),
    ensures
        attribute_value(with_attribute(line, name, value), name) == Some(value),
{
    lemma_place(line, name);
    lemma_first_there(line, name);
    let after = with_attribute(line, name, value);
    match place(line, name) {
        Some(Place::Value(start, end)) => {
            lemma_value_in_place(line, name, value, seq![]);
            assert(line.take(start) + value + line.skip(end) + Seq::<char>::empty() =~= after);
        },
        Some(Place::Behind(i)) => {
            lemma_value_added(line.take(i), name, value, line.skip(i));
            assert(line.take(i) + " "@ + opening(name) + value + "\""@ + line.skip(i) =~= after);
        },
        Some(Place::Front(i)) => {
            lemma_value_led(line.take(i), name, value, line.skip(i));
            let start = i + opening(name).len();
            assert(after.subrange(start, start + value.len()) =~= value);
        },
        None => {},
    }
}

/// The first comma stays where it was behind a common beginning.
pub proof fn lemma_comma_in_front(line: Seq<char>, after: Seq<char>, n: int)
    requires
        0 <= n <= line.len(),
        n <= after.len(),
        after.take(n) == line.take(n),
        find(line, seq![',']) matches Some(comma) && comma < n,
    ensures
        find(after, seq![',']) == find(line, seq![',']),
{
    lemma_find_char(line, ',');
    let comma = find(line, seq![','])->0;
    assert(after[comma] == after.take(n)[comma]);
    assert(line[comma] == line.take(n)[comma]);
    assert forall|j: int| 0 <= j < comma implies after[j] != ',' by {
        assert(after[j] == after.take(n)[j]);
        assert(line[j] == line.take(n)[j]);
    }
    lemma_find_char_at(after, ',', comma);
}

/// A replay attribute around a comma stays behind a common beginning.
pub proof fn lemma_around_in_front(line: Seq<char>, after: Seq<char>, comma: int, n: int)
    requires
        0 <= comma < n <= line.len(),
        n <= after.len(),
        after.take(n) == line.take(n),
        line[comma] == ',',
        replay_around(line, comma) matches Some((_, _, end)) && end < n,
    ensures
        replay_around(after, comma) == replay_around(line, comma),
{
    lemma_replay_around(line, comma);
    let (at, start, end) = replay_around(line, comma)->0;
    assert forall|j: int| 0 <= j < n implies after[j] == line[j] by {
        assert(after[j] == after.take(n)[j]);
        assert(line[j] == line.take(n)[j]);
    }
    lemma_behind_quote(line, comma);
    lemma_behind_quote_at(after, comma, start);
    lemma_opening("catchup"@);
    lemma_opening("catchup-source"@);
    lemma_same_occurrence(line, after, opening("catchup"@), start - opening("catchup"@).len(), n);
    lemma_same_occurrence(
        line,
        after,
        opening("catchup-source"@),
        start - opening("catchup-source"@).len(),
        n,
    );
    let tail = after.skip(start);
    assert(tail[end - start] == '"');
    assert forall|j: int| 0 <= j < end - start implies tail[j] != '"' by {
        assert(line[start + j] != '"');
    }
    lemma_find_char_at(tail, '"', end - start);
}

/// What stands in a common beginning stands in both lines.
pub proof fn lemma_same_occurrence(
    line: Seq<char>,
    after: Seq<char>,
    pat: Seq<char>,
    i: int,
    n: int,
)
    requires
        0 <= n <= line.len(),
        n <= after.len(),
        after.take(n) == line.take(n),
        i + pat.len() <= n,
    ensures
        occurs_at(line, pat, i) == occurs_at(after, pat, i),
{
    if 0 <= i {
        assert(line.subrange(i, i + pat.len()) =~= line.take(n).subrange(i, i + pat.len()));
        assert(after.subrange(i, i + pat.len()) =~= after.take(n).subrange(i, i + pat.len()));
    }
}

/// An attribute that is added has a comma only in its name or its value.
proof fn lemma_added_comma(name: Seq<char>, value: Seq<char>)
    requires
        !name.contains(','),
        !value.contains(','),
    ensures
        !(" "@ + opening(name) + value + "\""@).contains(','),
        !(opening(name) + value + "\" "@).contains(','),
{
    let pat = opening(name);
    reveal_strlit(" ");
    reveal_strlit("\"");
    reveal_strlit("\" ");
    lemma_opening(name);
    assert(!pat.contains(',')) by {
        assert forall|k: int| 0 <= k < pat.len() implies pat[k] != ',' by {
            if k < name.len() {
                assert(name.contains(name[k]));
            }
        }
    }
    let x = " "@ + pat + value + "\""@;
    assert forall|k: int| 0 <= k < x.len() implies x[k] != ',' by {
        if 0 < k <= pat.len() {
            assert(x[k] == pat[k - 1]);
            assert(pat.contains(pat[k - 1]));
        } else if pat.len() < k < x.len() - 1 {
            assert(x[k] == value[k - 1 - pat.len()]);
            assert(value.contains(x[k]));
        }
    }
    let y = pat + value + "\" "@;
    assert forall|k: int| 0 <= k < y.len() implies y[k] != ',' by {
        if k < pat.len() {
            assert(pat.contains(pat[k]));
        } else if k < pat.len() + value.len() {
            assert(y[k] == value[k - pat.len()]);
            assert(value.contains(y[k]));
        }
    }
}

/// The first comma behind a part without one.
proof fn lemma_comma_behind(a: Seq<char>, b: Seq<char>)
    requires
        !a.contains(','),
    ensures
        find(a + b, seq![',']) == match find(b, seq![',']) {
            Some(comma) => Some(a.len() + comma),
            None => None::<int>,
        },
        before_comma(a + b) == a + before_comma(b),
{
    let s = a + b;
    lemma_find_char(b, ',');
    lemma_find_char(s, ',');
    match find(b, seq![',']) {
        Some(comma) => {
            assert forall|j: int| 0 <= j < a.len() + comma implies s[j] != ',' by {
                if j < a.len() {
                    assert(a.contains(a[j]));
                }
            }
            lemma_find_char_at(s, ',', a.len() + comma);
            assert(s.take(a.len() + comma) =~= a + b.take(comma));
        },
        None => {
            assert(!s.contains(',')) by {
                assert forall|j: int| 0 <= j < s.len() implies s[j] != ',' by {
                    if j < a.len() {
                        assert(a.contains(a[j]));
                    } else {
                        assert(b.contains(b[j - a.len()]));
                    }
                }
            }
        },
    }
}

/// Where the value begins that is written at a place.
spec fn value_at(place: Place, name: Seq<char>) -> int {
    match place {
        Place::Value(start, _) => start,
        Place::Behind(i) => i + 1 + opening(name).len(),
        Place::Front(i) => i + opening(name).len(),
    }
}

/// What was written is found again, where it was written before the first comma.
proof fn lemma_found_again_before(
    line: Seq<char>,
    name: Seq<char>,
    value: Seq<char>,
    head: Seq<char>,
    rest: Seq<char>,
)
    requires
        with_attribute(line, name, value) == head + rest,
        rest.len() > 0 && rest[0] == ',',
        !head.contains(','),
        value_span(head, name) is Some,
    ensures
        ({
            let (start, end) = value_span(head, name)->0;
            place(with_attribute(line, name, value), name) == Some(Place::Value(start, end))
        }),
{
    lemma_comma_behind(head, rest);
    lemma_find_char_at(rest, ',', 0);
    assert((head + rest).take(head.len() as int) =~= head);
}

/// A value that replaced another one before the first comma is found again.
proof fn lemma_found_again_replaced(
    line: Seq<char>,
    name: Seq<char>,
    value: Seq<char>,
    comma: int,
    start: int,
    end: int,
)
    requires
        !value.contains('"') && !value.contains(','),
        find(line, seq![',']) == Some(comma),
        value_span(line.take(comma), name) == Some((start, end)),
    ensures
        place(with_attribute(line, name, value), name) == Some(
            Place::Value(start, start + value.len()),
        ),
{
    let before = line.take(comma);
    let tail = line.skip(comma);
    let nothing = Seq::<char>::empty();
    let head = before.take(start) + value + before.skip(end);
    lemma_find_char(line, ',');
    lemma_value_span(before, name);
    assert(line.take(start) + value + line.skip(end) =~= head + tail);
    lemma_value_in_place(before, name, value, nothing);
    assert(head + nothing =~= head);
    assert(!head.contains(',')) by {
        assert forall|j: int| 0 <= j < head.len() implies head[j] != ',' by {
            if j < start {
                assert(line[j] != ',');
            } else if j < start + value.len() {
                assert(head[j] == value[j - start]);
                assert(value.contains(value[j - start]));
            } else {
                assert(head[j] == line[j - start - value.len() + end]);
                assert(line[j - start - value.len() + end] != ',');
            }
        }
    }
    lemma_found_again_before(line, name, value, head, tail);
}

/// An attribute that was added before the first comma is found again.
proof fn lemma_found_again_behind(
    line: Seq<char>,
    name: Seq<char>,
    value: Seq<char>,
    comma: int,
)
    requires
        !name.contains('"') && !name.contains(','),
        !value.contains('"') && !value.contains(','),
        find(line, seq![',']) == Some(comma),
        find(line.take(comma), opening(name)) is None,
        place(line, name) == Some(Place::Behind(comma)),
    ensures
        place(with_attribute(line, name, value), name) == Some(
            Place::Value(
                comma + 1 + opening(name).len(),
                comma + 1 + opening(name).len() + value.len(),
            ),
        ),
{
    let pat = opening(name);
    let before = line.take(comma);
    let nothing = Seq::<char>::empty();
    let x = " "@ + pat + value + "\""@;
    let head = before + x;
    lemma_find_char(line, ',');
    lemma_added_comma(name, value);
    lemma_value_added(before, name, value, nothing);
    assert(before + " "@ + pat + value + "\""@ + nothing =~= head);
    assert(!before.contains(',')) by {
        assert forall|j: int| 0 <= j < before.len() implies before[j] != ',' by {
            assert(line[j] != ',');
        }
    }
    lemma_comma_behind(before, x);
    lemma_find_char(x, ',');
    lemma_find_char(head, ',');
    lemma_found_again_before(line, name, value, head, line.skip(comma));
}

/// What was written is found again.
proof fn lemma_found_again(line: Seq<char>, name: Seq<char>, value: Seq<char>)
    requires
        !name.contains('"') && !name.contains(','),
        !value.contains('"') && !value.contains(','),
        closed_in(before_comma(line), name),
        line.contains(','),
    ensures
        place(with_attribute(line, name, value), name) == Some(
            Place::Value(
                value_at(place(line, name)->0, name),
                value_at(place(line, name)->0, name) + value.len(),
            ),
        ),
{
    lemma_find_char(line, ',');
    let comma = find(line, seq![','])->0;
    match value_span(line.take(comma), name) {
        Some((start, end)) => {
            lemma_found_again_replaced(line, name, value, comma, start, end);
        },
        None => {
            match replay_around(line, comma) {
                None => {
                    lemma_found_again_behind(line, name, value, comma);
                },
                Some((at, start, end)) => {
                    lemma_found_again_beside(line, name, value, comma, at, start, end);
                },
            }
        },
    }
}

/// Behind a replay attribute that stays, an attribute is found by what follows.
proof fn lemma_place_behind(
    line: Seq<char>,
    after: Seq<char>,
    name: Seq<char>,
    comma: int,
    at: int,
    start: int,
    end: int,
    from: int,
    to: int,
)
    requires
        find(line, seq![',']) == Some(comma),
        find(line.take(comma), opening(name)) is None,
        replay_around(line, comma) == Some((at, start, end)),
        !occurs_at(line, opening(name), start - opening(name).len()),
        !ends_in(line.subrange(start, end), name + "="@),
        end < after.len(),
        after.take(end + 1) == line.take(end + 1),
        begins_with(after.skip(end + 1), " "@ + opening(name)),
        value_span(before_comma(after.skip(end + 1)), name) == Some((from, to)),
    ensures
        place(after, name) == Some(Place::Value(end + 1 + from, end + 1 + to)),
{
    let n = end + 1;
    lemma_find_char(line, ',');
    lemma_replay_around(line, comma);
    lemma_comma_in_front(line, after, n);
    lemma_around_in_front(line, after, comma, n);
    assert(after.take(comma) =~= after.take(n).take(comma));
    assert(line.take(comma) =~= line.take(n).take(comma));
    lemma_same_occurrence(line, after, opening(name), start - opening(name).len(), n);
    assert(after.subrange(start, end) =~= after.take(n).subrange(start, end));
    assert(line.subrange(start, end) =~= line.take(n).subrange(start, end));
    assert(value_span(line.take(comma), name) is None);
}

/// Where nothing is opened, no value lies.
proof fn lemma_not_own(line: Seq<char>, name: Seq<char>, comma: int, start: int)
    requires
        0 <= start <= comma <= line.len(),
        find(line.take(comma), opening(name)) is None,
    ensures
        !occurs_at(line, opening(name), start - opening(name).len()),
{
    let before = line.take(comma);
    let pat = opening(name);
    if occurs_at(line, pat, start - pat.len()) {
        assert(before + line.skip(comma) =~= line);
        lemma_occurs_left(before, line.skip(comma), pat, start - pat.len());
        lemma_find(before, pat);
    }
}

/// What was written in front of a replay attribute is found again.
#[verifier::rlimit(30)]
proof fn lemma_found_again_front(
    line: Seq<char>,
    name: Seq<char>,
    value: Seq<char>,
    comma: int,
    at: int,
)
    requires
        !name.contains('"') && !name.contains(','),
        !value.contains('"') && !value.contains(','),
        find(line, seq![',']) == Some(comma),
        find(line.take(comma), opening(name)) is None,
        0 <= at <= comma,
        place(line, name) == Some(Place::Front(at)),
    ensures
        place(with_attribute(line, name, value), name) == Some(
            Place::Value(at + opening(name).len(), at + opening(name).len() + value.len()),
        ),
{
    let pat = opening(name);
    let after = with_attribute(line, name, value);
    let before = line.take(comma);
    lemma_find_char(line, ',');
    lemma_added_comma(name, value);
    let x = pat + value + "\" "@;
    let part = line.subrange(at, comma);
    let head = line.take(at) + x + part;
    assert(after =~= head + line.skip(comma));
    lemma_absent_in_part(before, pat, at);
    assert(before.take(at) =~= line.take(at));
    lemma_value_led(line.take(at), name, value, part);
    assert(!head.contains(',')) by {
        assert forall|j: int| 0 <= j < head.len() implies head[j] != ',' by {
            if j < at {
                assert(line[j] != ',');
            } else if j < at + x.len() {
                assert(head[j] == x[j - at]);
                assert(x.contains(x[j - at]));
            } else {
                assert(head[j] == line[j - x.len()]);
                assert(line[j - x.len()] != ',');
            }
        }
    }
    lemma_found_again_before(line, name, value, head, line.skip(comma));
}

/// What was written in place of the value behind a replay attribute is found
/// again.
proof fn lemma_found_again_next(
    rest: Seq<char>,
    name: Seq<char>,
    value: Seq<char>,
    from: int,
    to: int,
)
    requires
        !value.contains('"') && !value.contains(','),
        begins_with(rest, " "@ + opening(name)),
        value_span(before_comma(rest), name) == Some((from, to)),
        from == 1 + opening(name).len(),
    ensures
        ({
            let after = rest.take(from) + value + rest.skip(to);
            &&& begins_with(after, " "@ + opening(name))
            &&& value_span(before_comma(after), name) == Some((from, from + value.len()))
        }),
{
    let front = before_comma(rest);
    let nothing = Seq::<char>::empty();
    lemma_find_char(rest, ',');
    lemma_value_span(front, name);
    let after = rest.take(from) + value + rest.skip(to);
    let head = front.take(from) + value + front.skip(to);
    let tail = rest.skip(front.len() as int);
    reveal_strlit(" ");
    assert(front + tail =~= rest);
    assert(after =~= head + tail);
    lemma_value_in_place(front, name, value, nothing);
    assert(head + nothing =~= head);
    assert(!head.contains(',')) by {
        assert forall|j: int| 0 <= j < head.len() implies head[j] != ',' by {
            if j < from {
                assert(front[j] != ',');
            } else if j < from + value.len() {
                assert(head[j] == value[j - from]);
                assert(value.contains(value[j - from]));
            } else {
                assert(head[j] == front[j - from - value.len() + to]);
                assert(front[j - from - value.len() + to] != ',');
            }
        }
    }
    lemma_comma_behind(head, tail);
    assert(before_comma(tail) =~= nothing) by {
        lemma_find_char(tail, ',');
        if tail.len() > 0 {
            assert(tail[0] == rest[front.len() as int]);
            lemma_find_char_at(tail, ',', 0);
        }
    }
    assert(head + before_comma(tail) =~= head);
    let n = (" "@ + opening(name)).len() as int;
    assert(after.take(n) =~= rest.take(n));
}

/// What was written behind a replay attribute is found again.
proof fn lemma_found_again_added(rest: Seq<char>, name: Seq<char>, value: Seq<char>)
    requires
        !name.contains('"') && !name.contains(','),
        !value.contains('"') && !value.contains(','),
    ensures
        ({
            let after = " "@ + opening(name) + value + "\""@ + rest;
            &&& begins_with(after, " "@ + opening(name))
            &&& value_span(before_comma(after), name) == Some(
                (1 + opening(name).len() as int, 1 + opening(name).len() as int + value.len()),
            )
        }),
{
    let pat = opening(name);
    let x = " "@ + pat + value + "\""@;
    let after = x + rest;
    let nothing = Seq::<char>::empty();
    reveal_strlit(" ");
    lemma_added_comma(name, value);
    lemma_opening(name);
    lemma_comma_behind(x, rest);
    lemma_find(nothing, pat);
    lemma_value_added(nothing, name, value, before_comma(rest));
    assert(nothing + " "@ + pat + value + "\""@ + before_comma(rest) =~= x + before_comma(rest));
    assert(after.take((" "@ + pat).len() as int) =~= " "@ + pat);
}

/// The part of a line behind a position, after a value in it has been replaced.
proof fn lemma_skip_replaced(line: Seq<char>, n: int, value: Seq<char>, from: int, to: int)
    requires
        0 <= n,
        0 <= from <= to,
        n + to <= line.len(),
    ensures
        ({
            let after = line.take(n + from) + value + line.skip(n + to);
            &&& after.take(n) == line.take(n)
            &&& after.skip(n) == line.skip(n).take(from) + value + line.skip(n).skip(to)
        }),
{
    let after = line.take(n + from) + value + line.skip(n + to);
    assert(after.take(n) =~= line.take(n));
    assert(after.skip(n) =~= line.skip(n).take(from) + value + line.skip(n).skip(to));
}

/// What was written next to a replay attribute is found again.
#[verifier::rlimit(30)]
proof fn lemma_found_again_beside(
    line: Seq<char>,
    name: Seq<char>,
    value: Seq<char>,
    comma: int,
    at: int,
    start: int,
    end: int,
)
    requires
        !name.contains('"') && !name.contains(','),
        !value.contains('"') && !value.contains(','),
        find(line, seq![',']) == Some(comma),
        find(line.take(comma), opening(name)) is None,
        replay_around(line, comma) == Some((at, start, end)),
    ensures
        place(with_attribute(line, name, value), name) == Some(
            Place::Value(
                value_at(place(line, name)->0, name),
                value_at(place(line, name)->0, name) + value.len(),
            ),
        ),
{
    let pat = opening(name);
    lemma_find_char(line, ',');
    lemma_replay_around(line, comma);
    lemma_not_own(line, name, comma, start);
    assert(value_span(line.take(comma), name) is None);
    assert(place(line, name) == Some(place_beside(line, name, at, start, end)));
    if ends_in(line.subrange(start, end), name + "="@) {
        lemma_found_again_front(line, name, value, comma, at);
    } else {
        let n = end + 1;
        let rest = line.skip(n);
        if begins_with(rest, " "@ + pat) && value_span(before_comma(rest), name) is Some {
            let (from, to) = value_span(before_comma(rest), name)->0;
            lemma_absent_through(line, name, comma, start, end);
            lemma_next_first(line, name, n);
            lemma_next_value(line, name, n);
            let after = line.take(n + from) + value + line.skip(n + to);
            assert(with_attribute(line, name, value) == after);
            lemma_found_again_next(rest, name, value, from, to);
            lemma_skip_replaced(line, n, value, from, to);
            lemma_place_behind(
                line,
                after,
                name,
                comma,
                at,
                start,
                end,
                from,
                from + value.len(),
            );
        } else {
            let x = " "@ + pat + value + "\""@;
            let after = line.take(n) + x + line.skip(n);
            assert(with_attribute(line, name, value) == after);
            lemma_found_again_added(rest, name, value);
            lemma_skip_added(line, n, x);
            lemma_place_behind(
                line,
                after,
                name,
                comma,
                at,
                start,
                end,
                1 + pat.len() as int,
                1 + pat.len() as int + value.len(),
            );
        }
    }
}

/// The part of a line behind a position, after a text has been added there.
proof fn lemma_skip_added(line: Seq<char>, n: int, x: Seq<char>)
    requires
        0 <= n <= line.len(),
    ensures
        (line.take(n) + x + line.skip(n)).take(n) == line.take(n),
        (line.take(n) + x + line.skip(n)).skip(n) == x + line.skip(n),
{
    assert((line.take(n) + x + line.skip(n)).take(n) =~= line.take(n));
    assert((line.take(n) + x + line.skip(n)).skip(n) =~= x + line.skip(n));
}

/// Writing over what was written at a place is writing at the place.
proof fn lemma_written_over(
    line: Seq<char>,
    place: Place,
    name: Seq<char>,
    first: Seq<char>,
    last: Seq<char>,
)
    requires
        match place {
            Place::Value(start, end) => 0 <= start <= end <= line.len(),
            Place::Behind(i) => 0 <= i <= line.len(),
            Place::Front(i) => 0 <= i <= line.len(),
        },
    ensures
        written_at(
            written_at(line, place, name, first),
            Place::Value(value_at(place, name), value_at(place, name) + first.len()),
            name,
            last,
        ) == written_at(line, place, name, last),
{
    reveal_strlit(" ");
    let start = value_at(place, name);
    let after = written_at(line, place, name, first);
    match place {
        Place::Value(_, end) => {
            assert(after.take(start) =~= line.take(start));
            assert(after.skip(start + first.len()) =~= line.skip(end));
        },
        Place::Behind(i) => {
            assert(after.take(start) =~= line.take(i) + (" "@ + opening(name)));
            assert(after.skip(start + first.len()) =~= "\""@ + line.skip(i));
            assert(line.take(i) + (" "@ + opening(name)) + last + ("\""@ + line.skip(i))
                =~= line.take(i) + (" "@ + opening(name) + last + "\""@) + line.skip(i));
        },
        Place::Front(i) => {
            assert(after.take(start) =~= line.take(i) + opening(name));
            assert(after.skip(start + first.len()) =~= "\" "@ + line.skip(i));
            assert(line.take(i) + opening(name) + last + ("\" "@ + line.skip(i)) =~= line.take(i)
                + (opening(name) + last + "\" "@) + line.skip(i));
        },
    }
}

/// The attributes of a line end at its first comma: a value that is closed before
/// it is replaced, and otherwise the attribute is added before it. Only where the
/// comma lies in the value of a replay attribute is the attribute added elsewhere.
pub proof fn law_set_before_first_comma(
    before: Seq<char>,
    rest: Seq<char>,
    name: Seq<char>,
    value: Seq<char>,
)
    requires
        !before.contains(','),
        value_span(before, name) is Some || replay_around(
            before + ","@ + rest,
            before.len() as int,
        ) is None,
    ensures
        with_attribute(before + ","@ + rest, name, value) == match value_span(before, name) {
            Some((start, end)) => before.take(start) + value + before.skip(end) + ","@ + rest,
            None => before + " "@ + opening(name) + value + "\""@ + ","@ + rest,
        },
{
    let line = before + ","@ + rest;
    let comma = before.len() as int;
    reveal_strlit(",");
    assert forall|j: int| 0 <= j < comma implies line[j] != ',' by {
        assert(before.contains(before[j]));
    }
    lemma_find_char_at(line, ',', comma);
    assert(line.take(comma) =~= before);
    assert(line.skip(comma) =~= ","@ + rest);
    lemma_value_span(before, name);
    match value_span(before, name) {
        Some((start, end)) => {
            assert(line.take(start) + value + line.skip(end) =~= before.take(start) + value
                + before.skip(end) + ","@ + rest);
        },
        None => {
            assert(before + (" "@ + opening(name) + value + "\""@) + (","@ + rest) =~= before
                + " "@ + opening(name) + value + "\""@ + ","@ + rest);
        },
    }
}

/// The last write wins: setting an attribute twice is setting it once to the last
/// value, and it is never doubled.
pub proof fn law_last_write_wins(
    line: Seq<char>,
    name: Seq<char>,
    first: Seq<char>,
    last: Seq<char>,
)
    requires
        !name.contains('"') && !name.contains(','),
        !first.contains('"') && !first.contains(','),
        closed_in(before_comma(line), name),
    ensures
        with_attribute(with_attribute(line, name, first), name, last) == with_attribute(
            line,
            name,
            last,
        ),
{
    lemma_find_char(line, ',');
    if line.contains(',') {
        lemma_place(line, name);
        lemma_found_again(line, name, first);
        lemma_written_over(line, place(line, name)->0, name, first, last);
    }
}

/// A value that ends like the beginning of an attribute, with the quote behind
/// it, opens the attribute.
proof fn lemma_end_opens(line: Seq<char>, name: Seq<char>, start: int, end: int)
    requires
        0 <= start <= end < line.len(),
        line[end] == '"',
        ends_in(line.subrange(start, end), name + "="@),
    ensures
        find(line, opening(name)) is Some,
{
    let pat = opening(name);
    let value = line.subrange(start, end);
    let last = name + "="@;
    lemma_opening(name);
    reveal_strlit("=");
    let i = end - last.len();
    assert forall|k: int| 0 <= k < pat.len() implies #[trigger] pat[k] == line[i + k] by {
        if k < last.len() {
            assert(value.skip(value.len() - last.len())[k] == last[k]);
            assert(pat[k] == last[k]);
        }
    }
    lemma_occurs_chars(line, pat, i);
    lemma_find(line, pat);
}

/// An attribute that a line does not open is added to it.
pub proof fn lemma_unopened_behind(line: Seq<char>, name: Seq<char>)
    requires
        find(line, opening(name)) is None,
    ensures
        match place(line, name) {
            None => !line.contains(','),
            Some(Place::Behind(i)) => {
                &&& find(line, seq![',']) matches Some(comma)
                &&& match replay_around(line, comma) {
                    None => i == comma,
                    Some((_, _, end)) => i == end + 1,
                }
            },
            _ => false,
        },
{
    lemma_place(line, name);
    lemma_find(line, opening(name));
    lemma_find_char(line, ',');
    match find(line, seq![',']) {
        None => {},
        Some(comma) => {
            lemma_absent_in_part(line, opening(name), comma);
            lemma_replay_around(line, comma);
            match replay_around(line, comma) {
                None => {},
                Some((at, start, end)) => {
                    if ends_in(line.subrange(start, end), name + "="@) {
                        lemma_end_opens(line, name, start, end);
                    }
                    let rest = line.skip(end + 1);
                    if value_span(before_comma(rest), name) is Some {
                        lemma_next_value(line, name, end + 1);
                    }
                },
            }
        },
    }
}

/// A value that ends before a position is read in what stands before it.
pub proof fn lemma_span_of_part(line: Seq<char>, i: int, name: Seq<char>)
    requires
        value_span(line, name) matches Some((_, end)) && end < i <= line.len(),
    ensures
        value_span(line.take(i), name) == value_span(line, name),
{
    let pat = opening(name);
    let a = line.take(i);
    lemma_value_span(line, name);
    lemma_opening(name);
    let (start, end) = value_span(line, name)->0;
    let at = start - pat.len();
    assert(a + line.skip(i) =~= line);
    lemma_occurs_left(a, line.skip(i), pat, at);
    lemma_find(line, pat);
    assert forall|j: int| 0 <= j < at implies !#[trigger] occurs_at(a, pat, j) by {
        lemma_occurs_left(a, line.skip(i), pat, j);
        assert(!occurs_at(line, pat, j));
    }
    lemma_find_some(a, pat, at);
    let tail = a.skip(start);
    assert(tail[end - start] == '"');
    assert forall|j: int| 0 <= j < end - start implies tail[j] != '"' by {
        assert(line[start + j] != '"');
    }
    lemma_find_char_at(tail, '"', end - start);
}

} // verus!
