//! What is served, and from where it is fetched.

use vstd::prelude::*;

use crate::model::Mode;
use crate::relay::{
    authority_end, first_header, media_address, moved, origin_len, picked, relayed_channel, Header,
};
use crate::runtime::{lemma_last_with_id, RuntimeView};
use crate::runtime_laws::law_listed_channel_found;
use crate::searching::{lemma_find_left, lemma_occurs_left};
use crate::text::{find, lemma_find, lemma_find_some, occurs_at};

verus! {

/// What is served under an identifier is a channel of the list that has it and is
/// to be relayed: nothing is served of a source that is played directly.
pub proof fn law_served_is_relayed(runtime: RuntimeView, id: Seq<char>)
    ensures
        relayed_channel(runtime, id) matches Some(channel) ==> {
            &&& channel.id == id
            &&& channel.mode == Mode::Proxy
            &&& runtime.channels.contains(channel)
        },
{
    lemma_last_with_id(runtime.channels, id);
}

/// Every relayed channel of the list is served, unless its identifier is also
/// that of a later one.
pub proof fn law_listed_is_served(runtime: RuntimeView, i: int)
    requires
        0 <= i < runtime.channels.len(),
        runtime.channels[i].mode == Mode::Proxy,
        forall|j: int|
            i < j < runtime.channels.len() ==> (#[trigger] runtime.channels[j]).id
                != runtime.channels[i].id,
    ensures
        relayed_channel(runtime, runtime.channels[i].id) == Some(runtime.channels[i]),
{
    law_listed_channel_found(runtime.channels, i);
}

/// The authority ends at a delimiter or with the text, and holds no delimiter.
proof fn lemma_authority_end(text: Seq<char>, i: int)
    requires
        0 <= i <= text.len(),
    ensures
        i <= authority_end(text, i) <= text.len(),
        authority_end(text, i) < text.len() ==> {
            let c = text[authority_end(text, i)];
            c == '/' || c == '?' || c == '#'
        },
        forall|j: int|
            i <= j < authority_end(text, i) ==> (#[trigger] text[j] != '/' && text[j] != '?'
                && text[j] != '#'),
    decreases text.len() - i,
{
    if i < text.len() && text[i] != '/' && text[i] != '?' && text[i] != '#' {
        lemma_authority_end(text, i + 1);
    }
}

/// The authority ends where nothing but a delimiter or the end can follow.
proof fn lemma_authority_end_at(text: Seq<char>, i: int, k: int)
    requires
        0 <= i <= k <= text.len(),
        k < text.len() ==> text[k] == '/' || text[k] == '?' || text[k] == '#',
        forall|j: int|
            i <= j < k ==> (#[trigger] text[j] != '/' && text[j] != '?' && text[j] != '#'),
    ensures
        authority_end(text, i) == k,
    decreases k - i,
{
    if i < k {
        assert(text[i] != '/' && text[i] != '?' && text[i] != '#');
        lemma_authority_end_at(text, i + 1, k);
    }
}

proof fn lemma_origin_len(text: Seq<char>)
    ensures
        0 <= origin_len(text) <= text.len(),
        origin_len(text) < text.len() ==> {
            let c = text[origin_len(text)];
            c == '/' || c == '?' || c == '#'
        },
{
    lemma_find(text, "://"@);
    reveal_strlit("://");
    match find(text, "://"@) {
        Some(i) => {
            lemma_authority_end(text, i + 3);
        },
        None => {},
    }
}

/// What is fetched for a source that is reached elsewhere is fetched from there:
/// the address has the scheme and the authority of that place, and after them
/// all that the target has.
pub proof fn law_fetched_from_upstream(text: Seq<char>, onto: Seq<char>)
    requires
        media_address(Some(text), true, Some(onto)) is Some,
    ensures
        ({
            let address = media_address(Some(text), true, Some(onto))->0;
            let n = origin_len(onto);
            &&& address.take(n) == onto.take(n)
            &&& address.skip(n) == text.skip(origin_len(text))
        }),
{
    let address = moved(text, onto);
    let n = origin_len(onto);
    lemma_origin_len(onto);
    lemma_origin_len(text);
    assert(address.take(n) =~= onto.take(n));
    assert(address.skip(n) =~= text.skip(origin_len(text)));
}

/// Moving an address to where it already is changes nothing: what a playlist from
/// there refers to is fetched from there.
pub proof fn law_moved_twice(text: Seq<char>, onto: Seq<char>)
    requires
        find(onto, "://"@) is Some,
    ensures
        moved(moved(text, onto), onto) == moved(text, onto),
{
    reveal_strlit("://");
    let pat = "://"@;
    lemma_find(onto, pat);
    let i = find(onto, pat)->0;
    let k = origin_len(onto);
    lemma_authority_end(onto, i + 3);
    lemma_origin_len(text);
    let front = onto.take(k);
    let rest = text.skip(origin_len(text));
    let whole = moved(text, onto);
    assert(front + onto.skip(k) =~= onto);
    lemma_occurs_left(front, onto.skip(k), pat, i);
    assert forall|j: int| 0 <= j < i implies !#[trigger] occurs_at(front, pat, j) by {
        lemma_occurs_left(front, onto.skip(k), pat, j);
        assert(!occurs_at(onto, pat, j));
    }
    lemma_find_some(front, pat, i);
    lemma_find_left(front, rest, pat);
    assert forall|j: int| i + 3 <= j < k implies (#[trigger] whole[j] != '/' && whole[j] != '?'
        && whole[j] != '#') by {
        assert(whole[j] == onto[j]);
    }
    if k < whole.len() {
        assert(whole[k] == rest[0]);
        assert(rest[0] == text[origin_len(text)]);
    }
    lemma_authority_end_at(whole, i + 3, k);
    assert(moved(whole, onto) =~= whole);
}

/// A header whose name is passed on is passed on with its value.
pub proof fn law_named_header_passes(headers: Seq<Header>, names: Seq<Seq<char>>, name: Seq<char>)
    requires
        names.contains(name),
        first_header(headers, name) is Some,
    ensures
        picked(headers, names).contains((name, headers[first_header(headers, name)->0].value@)),
    decreases names.len(),
{
    let front = names.drop_last();
    let value = headers[first_header(headers, name)->0].value@;
    let all = picked(headers, names);
    if names.last() == name {
        assert(all[all.len() - 1] == (name, value));
    } else {
        let k = choose|k: int| 0 <= k < names.len() && names[k] == name;
        assert(front[k] == name);
        law_named_header_passes(headers, front, name);
        let rest = picked(headers, front);
        let j = choose|j: int| 0 <= j < rest.len() && rest[j] == (name, value);
        assert(all[j] == rest[j]);
    }
}

/// Nothing is passed on but headers with the given names, each with the value of
/// the first header of its name.
pub proof fn law_other_headers_stay(headers: Seq<Header>, names: Seq<Seq<char>>, k: int)
    requires
        0 <= k < picked(headers, names).len(),
    ensures
        ({
            let (name, value) = picked(headers, names)[k];
            &&& names.contains(name)
            &&& first_header(headers, name) matches Some(i) && headers[i].value@ == value
        }),
    decreases names.len(),
{
    let front = names.drop_last();
    let rest = picked(headers, front);
    if k < rest.len() {
        assert(picked(headers, names)[k] == rest[k]);
        law_other_headers_stay(headers, front, k);
        let name = rest[k].0;
        let j = choose|j: int| 0 <= j < front.len() && front[j] == name;
        assert(names[j] == name);
    } else {
        assert(names[names.len() - 1] == names.last());
    }
}

} // verus!
