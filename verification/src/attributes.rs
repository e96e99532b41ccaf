//! The `name="value"` attributes of playlist lines.

use vstd::prelude::*;
use vstd::slice::slice_subrange;

use crate::text::{
    begins_with, chars_of, copy_chars, ends_in, ends_with_chars, find, find_chars, occurs_at,
    push_chars, starts_with_chars, string_of,
};

verus! {

/// What stands before the value of an attribute.
pub open spec fn opening(name: Seq<char>) -> Seq<char> {
    name + "=\""@
}

/// The start and the end of the value of the leftmost attribute `name`: the
/// value runs to the next quote, and there is none if no quote follows.
pub open spec fn value_span(line: Seq<char>, name: Seq<char>) -> Option<(int, int)> {
    match find(line, opening(name)) {
        None => None,
        Some(at) => {
            let start = at + opening(name).len();
            match find(line.skip(start), seq!['"']) {
                None => None,
                Some(length) => Some((start, start + length)),
            }
        },
    }
}

/// The value of an attribute.
pub open spec fn attribute_value(line: Seq<char>, name: Seq<char>) -> Option<Seq<char>> {
    match value_span(line, name) {
        None => None,
        Some((start, end)) => Some(line.subrange(start, end)),
    }
}

/// The position behind the last quote before position `i`, or 0.
pub open spec fn behind_quote(line: Seq<char>, i: int) -> int
    decreases i,
{
    if i <= 0 {
        0
    } else if line[i - 1] == '"' {
        i
    } else {
        behind_quote(line, i - 1)
    }
}

/// Where the replay attribute begins whose value begins at position `i`.
pub open spec fn replay_begins(line: Seq<char>, i: int) -> Option<int> {
    if occurs_at(line, opening("catchup-source"@), i - opening("catchup-source"@).len()) {
        Some(i - opening("catchup-source"@).len())
    } else if occurs_at(line, opening("catchup"@), i - opening("catchup"@).len()) {
        Some(i - opening("catchup"@).len())
    } else {
        None
    }
}

/// The replay attribute in whose value position `i` lies: where it begins, and
/// the start and the end of the value.
pub open spec fn replay_around(line: Seq<char>, i: int) -> Option<(int, int, int)> {
    let start = behind_quote(line, i);
    match (replay_begins(line, start), find(line.skip(start), seq!['"'])) {
        (Some(at), Some(length)) => Some((at, start, start + length)),
        _ => None,
    }
}

/// What stands before the first comma of a text, or all of it.
pub open spec fn before_comma(s: Seq<char>) -> Seq<char> {
    match find(s, seq![',']) {
        Some(comma) => s.take(comma),
        None => s,
    }
}

/// Where an attribute is written.
pub enum Place {
    /// In place of the value between the two positions.
    Value(int, int),
    /// As a new attribute behind the text up to the position.
    Behind(int),
    /// As a new attribute in front of the text from the position on.
    Front(int),
}

/// Where an attribute is written in a line whose first comma lies in the value of
/// a replay attribute. That value is replaced if it is the one to write. Else it
/// stays whole, and the attribute is written next to it: behind it, or in front
/// where the end of the value reads as the beginning of the attribute.
pub open spec fn place_beside(
    line: Seq<char>,
    name: Seq<char>,
    at: int,
    start: int,
    end: int,
) -> Place {
    let rest = line.skip(end + 1);
    if occurs_at(line, opening(name), start - opening(name).len()) {
        Place::Value(start, end)
    } else if ends_in(line.subrange(start, end), name + "="@) {
        Place::Front(at)
    } else if begins_with(rest, " "@ + opening(name)) {
        match value_span(before_comma(rest), name) {
            Some((from, to)) => Place::Value(end + 1 + from, end + 1 + to),
            None => Place::Behind(end + 1),
        }
    } else {
        Place::Behind(end + 1)
    }
}

/// Where an attribute is written: in place of its value before the first comma,
/// or behind what stands before the first comma. A comma in the value of a replay
/// attribute is none between the attributes and the name of the channel.
pub open spec fn place(line: Seq<char>, name: Seq<char>) -> Option<Place> {
    match find(line, seq![',']) {
        None => None,
        Some(comma) => Some(
            match value_span(line.take(comma), name) {
                Some((start, end)) => Place::Value(start, end),
                None => match replay_around(line, comma) {
                    None => Place::Behind(comma),
                    Some((at, start, end)) => place_beside(line, name, at, start, end),
                },
            },
        ),
    }
}

/// `line` with an attribute written at a place.
pub open spec fn written_at(
    line: Seq<char>,
    place: Place,
    name: Seq<char>,
    value: Seq<char>,
) -> Seq<char> {
    match place {
        Place::Value(start, end) => line.take(start) + value + line.skip(end),
        Place::Behind(i) => line.take(i) + (" "@ + opening(name) + value + "\""@) + line.skip(i),
        Place::Front(i) => line.take(i) + (opening(name) + value + "\" "@) + line.skip(i),
    }
}

/// `line` with the attribute `name` set to `value`. A line without a comma stays
/// as it is.
pub open spec fn with_attribute(
    line: Seq<char>,
    name: Seq<char>,
    value: Seq<char>,
) -> Seq<char> {
    match place(line, name) {
        None => line,
        Some(place) => written_at(line, place, name, value),
    }
}

/// The characters before the value of an attribute.
fn opening_chars(name: &str) -> (r: Vec<char>)
    ensures
        r@ == opening(name@),
{
    let mut r = chars_of(name);
    let tail = chars_of("=\"");
    push_chars(&mut r, &tail);
    r
}

/// The start and the end of the value of an attribute.
pub(crate) fn find_value(line: &[char], name: &str) -> (r: Option<(usize, usize)>)
    ensures
        match r {
            Some((start, end)) => {
                &&& value_span(line@, name@) == Some((start as int, end as int))
                &&& start <= end <= line@.len()
            },
            None => value_span(line@, name@) is None,
        },
{
    let pattern = opening_chars(name);
    let total: usize = line.len();
    match find_chars(line, &pattern) {
        None => None,
        Some(at) => {
            let start: usize = at + pattern.len();
            let tail = slice_subrange(line, start, total);
            assert(tail@ =~= line@.skip(start as int));
            let quote: Vec<char> = vec!['"'];
            assert(quote@ =~= seq!['"']);
            match find_chars(tail, &quote) {
                None => None,
                Some(length) => Some((start, start + length)),
            }
        },
    }
}

/// The value of an attribute, on characters.
pub fn attribute_chars(line: &[char], name: &str) -> (r: Option<Vec<char>>)
    ensures
        match r {
            Some(value) => attribute_value(line@, name@) == Some(value@),
            None => attribute_value(line@, name@) is None,
        },
{
    match find_value(line, name) {
        None => None,
        Some((start, end)) => Some(copy_chars(slice_subrange(line, start, end))),
    }
}

/// The value of the leftmost attribute `name` of a playlist line.
pub fn attribute(line: &str, name: &str) -> (r: Option<String>)
    ensures
        match r {
            Some(value) => attribute_value(line@, name@) == Some(value@),
            None => attribute_value(line@, name@) is None,
        },
{
    let chars = chars_of(line);
    match attribute_chars(&chars, name) {
        None => None,
        Some(value) => Some(string_of(&value)),
    }
}

fn find_behind_quote(line: &[char], i: usize) -> (r: usize)
    requires
        i <= line@.len(),
    ensures
        r == behind_quote(line@, i as int),
        r <= i,
{
    let mut k: usize = i;
    while k > 0 && line[k - 1] != '"'
        invariant
            k <= i <= line@.len(),
            behind_quote(line@, i as int) == behind_quote(line@, k as int),
        decreases k,
    {
        k -= 1;
    }
    k
}

/// Whether a text ends at a position of a line, and where it begins.
fn begins_before(line: &[char], i: usize, pattern: &[char]) -> (r: Option<usize>)
    requires
        i <= line@.len(),
    ensures
        match r {
            Some(at) => occurs_at(line@, pattern@, i - pattern@.len()) && at == i - pattern@.len(),
            None => !occurs_at(line@, pattern@, i - pattern@.len()),
        },
{
    if pattern.len() > i {
        return None;
    }
    let at: usize = i - pattern.len();
    let head = slice_subrange(line, 0, i);
    assert(head@ =~= line@.take(i as int));
    assert(head@.skip(head@.len() - pattern@.len()) =~= line@.subrange(at as int, i as int));
    if ends_with_chars(head, pattern) {
        Some(at)
    } else {
        None
    }
}

fn find_replay_around(line: &[char], i: usize) -> (r: Option<(usize, usize, usize)>)
    requires
        i <= line@.len(),
    ensures
        match r {
            Some((at, start, end)) => {
                &&& replay_around(line@, i as int) == Some((at as int, start as int, end as int))
                &&& at <= start <= end < line@.len()
            },
            None => replay_around(line@, i as int) is None,
        },
{
    let start = find_behind_quote(line, i);
    let begins = match begins_before(line, start, &opening_chars("catchup-source")) {
        Some(at) => Some(at),
        None => begins_before(line, start, &opening_chars("catchup")),
    };
    match begins {
        None => None,
        Some(at) => {
            let tail = slice_subrange(line, start, line.len());
            assert(tail@ =~= line@.skip(start as int));
            let quote: Vec<char> = vec!['"'];
            assert(quote@ =~= seq!['"']);
            match find_chars(tail, &quote) {
                None => None,
                Some(length) => Some((at, start, start + length)),
            }
        },
    }
}

/// A place as positions of characters.
enum Spot {
    Value(usize, usize),
    Behind(usize),
    Front(usize),
}

impl Spot {
    spec fn shows(&self, place: Place, line: Seq<char>) -> bool {
        match *self {
            Spot::Value(start, end) => place == Place::Value(start as int, end as int) && start
                <= end <= line.len(),
            Spot::Behind(i) => place == Place::Behind(i as int) && i <= line.len(),
            Spot::Front(i) => place == Place::Front(i as int) && i <= line.len(),
        }
    }
}

fn spot_beside(line: &[char], name: &str, at: usize, start: usize, end: usize) -> (r: Spot)
    requires
        at <= start <= end < line@.len(),
    ensures
        r.shows(place_beside(line@, name@, at as int, start as int, end as int), line@),
{
    let total: usize = line.len();
    let pattern = opening_chars(name);
    if begins_before(line, start, &pattern).is_some() {
        return Spot::Value(start, end);
    }
    let mut tail = chars_of(name);
    push_chars(&mut tail, &chars_of("="));
    if ends_with_chars(slice_subrange(line, start, end), &tail) {
        return Spot::Front(at);
    }
    let rest = slice_subrange(line, end + 1, total);
    assert(rest@ =~= line@.skip(end + 1));
    let mut next = chars_of(" ");
    push_chars(&mut next, &pattern);
    if starts_with_chars(rest, &next) {
        let comma: Vec<char> = vec![','];
        assert(comma@ =~= seq![',']);
        let front = match find_chars(rest, &comma) {
            Some(i) => slice_subrange(rest, 0, i),
            None => rest,
        };
        assert(front@ =~= before_comma(rest@));
        match find_value(front, name) {
            Some((from, to)) => Spot::Value(end + 1 + from, end + 1 + to),
            None => Spot::Behind(end + 1),
        }
    } else {
        Spot::Behind(end + 1)
    }
}

/// A playlist line with an attribute set.
pub fn set_attribute(line: &str, name: &str, value: &str) -> (r: String)
    ensures
        r@ == with_attribute(line@, name@, value@),
{
    let chars = chars_of(line);
    let separator: Vec<char> = vec![','];
    assert(separator@ =~= seq![',']);
    let comma: usize = match find_chars(&chars, &separator) {
        None => {
            return line.to_owned();
        },
        Some(comma) => comma,
    };
    let before = slice_subrange(&chars, 0, comma);
    assert(before@ =~= line@.take(comma as int));
    let spot = match find_value(before, name) {
        Some((start, end)) => Spot::Value(start, end),
        None => match find_replay_around(&chars, comma) {
            None => Spot::Behind(comma),
            Some((at, start, end)) => spot_beside(&chars, name, at, start, end),
        },
    };
    let mut r: Vec<char> = Vec::new();
    match spot {
        Spot::Value(start, end) => {
            push_chars(&mut r, slice_subrange(&chars, 0, start));
            push_chars(&mut r, &chars_of(value));
            push_chars(&mut r, slice_subrange(&chars, end, chars.len()));
        },
        Spot::Behind(i) => {
            push_chars(&mut r, slice_subrange(&chars, 0, i));
            push_chars(&mut r, &chars_of(" "));
            push_chars(&mut r, &opening_chars(name));
            push_chars(&mut r, &chars_of(value));
            push_chars(&mut r, &chars_of("\""));
            push_chars(&mut r, slice_subrange(&chars, i, chars.len()));
        },
        Spot::Front(i) => {
            push_chars(&mut r, slice_subrange(&chars, 0, i));
            push_chars(&mut r, &opening_chars(name));
            push_chars(&mut r, &chars_of(value));
            push_chars(&mut r, &chars_of("\" "));
            push_chars(&mut r, slice_subrange(&chars, i, chars.len()));
        },
    }
    assert(r@ =~= with_attribute(line@, name@, value@));
    string_of(&r)
}

} // verus!
