//! What every request is answered, told from the request and what is known.

use vstd::prelude::*;
use vstd::utf8::encode_utf8;

use crate::encoding::{base64_url, hex};
use crate::failure::{AppError, Status};
use crate::model::{ChannelView, Mode};
use crate::refreshing_laws::law_last_with_id;
use crate::relay::{
    authority_end, fetched_address, first_header, header_pairs, moved, origin_len, picked,
    playlist_answer, proxies, relayed_channel, replays, request_names, response_names, Header,
    Task,
};
use crate::replay::expands;
use crate::runtime::{last_with_id, RuntimeView};
use crate::searching::{lemma_find_char, lemma_find_char_at, lemma_occurs_chars};
use crate::signing::{hmac_sha256, identifier, sha256};
use crate::text::{
    begins_with, ends_in, find, has_text, lemma_find, lemma_find_some, lowered, occurs_at,
};
use crate::text_laws::{law_lowered, law_stands_in};
use crate::weburl::{scheme_of, url_parsed, web_address, web_scheme};

verus! {

/// The last channel with an identifier.
pub open spec fn last_at(channels: Seq<ChannelView>, id: Seq<char>, i: int) -> bool {
    &&& 0 <= i < channels.len()
    &&& channels[i].id == id
    &&& forall|j: int| i < j < channels.len() ==> (#[trigger] channels[j]).id != id
}

/// A request gets the last channel with the identifier that it names, if that is
/// relayed, and nothing otherwise.
pub proof fn law_relayed(runtime: RuntimeView, id: Seq<char>)
    ensures
        forall|i: int| #[trigger]
            last_at(runtime.channels, id, i) && runtime.channels[i].mode == Mode::Proxy
                ==> relayed_channel(runtime, id) == Some(runtime.channels[i]),
        forall|i: int| #[trigger]
            last_at(runtime.channels, id, i) && runtime.channels[i].mode == Mode::Direct
                ==> relayed_channel(runtime, id) is None,
        (forall|i: int| !#[trigger] last_at(runtime.channels, id, i)) ==> relayed_channel(
            runtime,
            id,
        ) is None,
{
    law_last_with_id(runtime.channels, id);
    assert forall|i: int| #[trigger] last_at(runtime.channels, id, i) implies last_with_id(
        runtime.channels,
        id,
    ) == Some(i) by {
        match last_with_id(runtime.channels, id) {
            Some(k) => {
                if k < i {
                    assert(runtime.channels[i].id != id);
                } else if i < k {
                    assert(runtime.channels[k].id != id);
                }
            },
            None => {},
        }
    }
    match last_with_id(runtime.channels, id) {
        Some(k) => {
            assert(last_at(runtime.channels, id, k));
        },
        None => {},
    }
}

/// A replay is refused for a window that does not lie after the year 1970 began or
/// does not end after it starts, for a channel that is not relayed, and for one
/// that cannot be replayed; every other one is what its template gives.
pub proof fn law_replay_request(
    runtime: RuntimeView,
    id: Seq<char>,
    start: i64,
    end: i64,
    r: Result<Task, AppError>,
)
    requires
        replays(runtime, id, start, end, r),
    ensures
        start <= 0 || end <= start ==> (r matches Err(e) && e.says(
            Status::BadRequest,
            "invalid replay window"@,
        )),
        0 < start < end && relayed_channel(runtime, id) is None ==> (r matches Err(e) && e.says(
            Status::NotFound,
            "channel unavailable"@,
        )),
        forall|i: int| #[trigger]
            last_at(runtime.channels, id, i) && runtime.channels[i].mode == Mode::Proxy && 0
                < start < end && runtime.channels[i].catchup is None ==> (r matches Err(e)
                && e.says(Status::NotFound, "replay unavailable"@)),
        forall|i: int| #[trigger]
            last_at(runtime.channels, id, i) && runtime.channels[i].mode == Mode::Proxy && 0
                < start < end && runtime.channels[i].catchup is Some ==> match r {
                Ok(task) => task.channel@ == runtime.channels[i] && expands(
                    runtime.channels[i].catchup->0,
                    start,
                    end,
                    Ok(task.target),
                ),
                Err(e) => expands(runtime.channels[i].catchup->0, start, end, Err(e)),
            },
{
    law_relayed(runtime, id);
}

/// A signed link is followed exactly if it bears the HMAC of channel and target
/// with the secret: the target is fetched for the channel. Any other is refused,
/// and so is one to a channel that is not relayed.
pub proof fn law_link_request(
    runtime: RuntimeView,
    secret: Seq<char>,
    id: Seq<char>,
    target: Seq<char>,
    given: Seq<char>,
    r: Result<Task, AppError>,
)
    requires
        proxies(runtime, secret, id, target, given, r),
    ensures
        relayed_channel(runtime, id) is None ==> (r matches Err(e) && e.says(
            Status::NotFound,
            "channel unavailable"@,
        )),
        forall|i: int| #[trigger]
            last_at(runtime.channels, id, i) && runtime.channels[i].mode == Mode::Proxy ==> {
                let owed = base64_url(
                    hmac_sha256(
                        encode_utf8(secret),
                        encode_utf8(id) + seq![10u8] + encode_utf8(target),
                    ),
                );
                &&& given == owed ==> (r matches Ok(task) && task.channel@ == runtime.channels[i]
                    && task.target@ == target)
                &&& given != owed ==> (r matches Err(e) && e.says(
                    Status::Forbidden,
                    "invalid signature"@,
                ))
            },
{
    law_relayed(runtime, id);
}

/// A refusal says what it was given.
pub proof fn law_refusal(e: AppError, status: Status, message: Seq<char>)
    ensures
        e.says(status, message) <==> e.0 == status && e.1@ == message,
{
}

proof fn lemma_authority_end_found(text: Seq<char>, i: int, end: int)
    requires
        0 <= i <= end <= text.len(),
        forall|j: int|
            i <= j < end ==> (#[trigger] text[j] != '/' && text[j] != '?' && text[j] != '#'),
        end < text.len() ==> (text[end] == '/' || text[end] == '?' || text[end] == '#'),
    ensures
        authority_end(text, i) == end,
    decreases end - i,
{
    if i < end {
        assert(text[i] != '/');
        lemma_authority_end_found(text, i + 1, end);
    }
}

/// The parts of an address: a scheme without a colon, an authority without a
/// slash, a question mark or a number sign, and what follows these.
pub open spec fn address_parts(scheme: Seq<char>, authority: Seq<char>, rest: Seq<char>) -> bool {
    &&& !scheme.contains(':')
    &&& !authority.contains('/') && !authority.contains('?') && !authority.contains('#')
    &&& rest.len() > 0 ==> rest[0] == '/' || rest[0] == '?' || rest[0] == '#'
}

/// The origin of an address ends with its authority.
pub proof fn law_origin(scheme: Seq<char>, authority: Seq<char>, rest: Seq<char>)
    requires
        address_parts(scheme, authority, rest),
    ensures
        origin_len(scheme + "://"@ + authority + rest) == scheme.len() + 3 + authority.len(),
{
    reveal_strlit("://");
    let text = scheme + "://"@ + authority + rest;
    let n = scheme.len() as int;
    assert forall|j: int| 0 <= j < n implies !#[trigger] occurs_at(text, "://"@, j) by {
        lemma_occurs_chars(text, "://"@, j);
        if occurs_at(text, "://"@, j) {
            assert("://"@[0] == text[j + 0]);
            assert(scheme.contains(scheme[j]));
        }
    }
    assert(text.subrange(n, n + 3) =~= "://"@);
    lemma_find_some(text, "://"@, n);
    let end = n + 3 + authority.len();
    assert forall|j: int| n + 3 <= j < end implies (#[trigger] text[j] != '/' && text[j] != '?'
        && text[j] != '#') by {
        assert(text[j] == authority[j - n - 3]);
        assert(authority.contains(text[j]));
    }
    if end < text.len() {
        assert(text[end] == rest[0]);
    }
    lemma_authority_end_found(text, n + 3, end);
}

/// An address without an authority is all origin.
pub proof fn law_origin_without_authority(text: Seq<char>)
    requires
        !has_text(text, "://"@),
    ensures
        origin_len(text) == text.len(),
{
    lemma_find(text, "://"@);
}

/// Moving an address exchanges its scheme and its authority for those of another
/// address and nothing else: the path, the query and the fragment stay, and those
/// of the other address are left out.
pub proof fn law_moved(
    scheme: Seq<char>,
    authority: Seq<char>,
    rest: Seq<char>,
    other_scheme: Seq<char>,
    other_authority: Seq<char>,
    other_rest: Seq<char>,
)
    requires
        address_parts(scheme, authority, rest),
        address_parts(other_scheme, other_authority, other_rest),
    ensures
        moved(
            scheme + "://"@ + authority + rest,
            other_scheme + "://"@ + other_authority + other_rest,
        ) == other_scheme + "://"@ + other_authority + rest,
{
    law_origin(scheme, authority, rest);
    law_origin(other_scheme, other_authority, other_rest);
    reveal_strlit("://");
    let text = scheme + "://"@ + authority + rest;
    let onto = other_scheme + "://"@ + other_authority + other_rest;
    assert(text.skip(origin_len(text)) =~= rest);
    assert(onto.take(origin_len(onto)) =~= other_scheme + "://"@ + other_authority);
}

/// What is fetched for a target is the target as it reads, moved to the place where
/// the source is reached if there is one. Both have to be web addresses.
pub proof fn law_fetched_address(target: Seq<char>, place: Seq<char>)
    ensures
        web_address(target) ==> fetched_address(target, None) == url_parsed(target),
        !web_address(target) ==> fetched_address(target, None) is None,
        web_address(target) && web_address(place) ==> fetched_address(target, Some(place)) == Some(
            moved(url_parsed(target)->0, url_parsed(place)->0),
        ),
        !web_address(target) || !web_address(place) ==> fetched_address(
            target,
            Some(place),
        ) is None,
{
}

/// A web address is one that reads as an absolute address and begins with `http:`
/// or `https:` as it reads.
pub proof fn law_web_address(input: Seq<char>, text: Seq<char>)
    ensures
        web_address(input) <==> (url_parsed(input) matches Some(read) && web_scheme(
            scheme_of(read),
        )),
        text.contains(':') ==> (web_scheme(scheme_of(text)) <==> begins_with(text, "http:"@)
            || begins_with(text, "https:"@)),
        !text.contains(':') ==> (web_scheme(scheme_of(text)) <==> text == "http"@ || text
            == "https"@),
{
    reveal_strlit("http");
    reveal_strlit("https");
    reveal_strlit("http:");
    reveal_strlit("https:");
    lemma_find_char(text, ':');
    match find(text, seq![':']) {
        Some(i) => {
            assert(text.take(i).len() == i);
            if text.take(i) == "http"@ {
                assert(text.take(5) =~= "http:"@) by {
                    assert forall|k: int| 0 <= k < 5 implies text[k] == "http:"@[k] by {
                        if k < 4 {
                            assert(text.take(i)[k] == text[k]);
                        }
                    }
                }
            }
            if text.take(i) == "https"@ {
                assert(text.take(6) =~= "https:"@) by {
                    assert forall|k: int| 0 <= k < 6 implies text[k] == "https:"@[k] by {
                        if k < 5 {
                            assert(text.take(i)[k] == text[k]);
                        }
                    }
                }
            }
            if begins_with(text, "http:"@) {
                assert forall|k: int| 0 <= k < 5 implies text[k] == "http:"@[k] by {
                    assert(text.take(5)[k] == text[k]);
                }
                lemma_find_char_at(text, ':', 4);
                assert(text.take(4) =~= "http"@);
            }
            if begins_with(text, "https:"@) {
                assert forall|k: int| 0 <= k < 6 implies text[k] == "https:"@[k] by {
                    assert(text.take(6)[k] == text[k]);
                }
                lemma_find_char_at(text, ':', 5);
                assert(text.take(5) =~= "https"@);
            }
        },
        None => {},
    }
}

/// The first header with a name.
pub open spec fn first_named(headers: Seq<Header>, name: Seq<char>, i: int) -> bool {
    &&& 0 <= i < headers.len()
    &&& headers[i].name@ == name
    &&& forall|j: int| 0 <= j < i ==> (#[trigger] headers[j]).name@ != name
}

proof fn lemma_first_named(headers: Seq<Header>, name: Seq<char>)
    ensures
        match first_header(headers, name) {
            Some(i) => first_named(headers, name, i),
            None => forall|j: int| 0 <= j < headers.len() ==> (#[trigger] headers[j]).name@
                != name,
        },
    decreases headers.len(),
{
    if headers.len() > 0 {
        let front = headers.drop_last();
        lemma_first_named(front, name);
        match first_header(front, name) {
            Some(i) => {
                assert(front[i] == headers[i]);
                assert forall|j: int| 0 <= j < i implies (#[trigger] headers[j]).name@ != name by {
                    assert(front[j] == headers[j]);
                }
            },
            None => {
                assert forall|j: int| 0 <= j < front.len() implies (#[trigger] headers[j]).name@
                    != name by {
                    assert(front[j] == headers[j]);
                }
            },
        }
    }
}

/// For each name in turn the first header with this name is passed on with its
/// value, if there is one.
pub proof fn law_picked(headers: Seq<Header>, names: Seq<Seq<char>>, name: Seq<char>)
    ensures
        picked(headers, seq![]) == Seq::<(Seq<char>, Seq<u8>)>::empty(),
        forall|i: int| #[trigger]
            first_named(headers, name, i) ==> picked(headers, names.push(name)) == picked(
                headers,
                names,
            ).push((name, headers[i].value@)),
        (forall|i: int| !#[trigger] first_named(headers, name, i)) ==> picked(
            headers,
            names.push(name),
        ) == picked(headers, names),
{
    assert(names.push(name).drop_last() =~= names);
    lemma_first_named(headers, name);
    assert forall|i: int| #[trigger] first_named(headers, name, i) implies first_header(
        headers,
        name,
    ) == Some(i) by {
        match first_header(headers, name) {
            Some(k) => {
                assert(first_named(headers, name, k));
                if k < i {
                    assert(headers[k].name@ != name);
                } else if i < k {
                    assert(headers[i].name@ != name);
                }
            },
            None => {
                assert(headers[i].name@ != name);
            },
        }
    }
    match first_header(headers, name) {
        Some(k) => {
            assert(first_named(headers, name, k));
        },
        None => {},
    }
}

/// The headers that are passed on: of a request the range, the condition on it,
/// what is accepted and where the player comes from; of an answer the type, the
/// length, the range, whether ranges can be asked for, and how long it may be kept.
pub proof fn law_passed_names()
    ensures
        request_names().len() == 4,
        request_names().contains("range"@),
        request_names().contains("if-range"@),
        request_names().contains("accept"@),
        request_names().contains("referer"@),
        response_names().len() == 5,
        response_names().contains("content-type"@),
        response_names().contains("content-length"@),
        response_names().contains("content-range"@),
        response_names().contains("accept-ranges"@),
        response_names().contains("cache-control"@),
{
    assert(request_names()[0] == "range"@);
    assert(request_names()[1] == "if-range"@);
    assert(request_names()[2] == "accept"@);
    assert(request_names()[3] == "referer"@);
    assert(response_names()[0] == "content-type"@);
    assert(response_names()[1] == "content-length"@);
    assert(response_names()[2] == "content-range"@);
    assert(response_names()[3] == "accept-ranges"@);
    assert(response_names()[4] == "cache-control"@);
}

/// The headers of an answer are told as pairs of name and value, one for one.
pub proof fn law_header_pairs(headers: Seq<Header>)
    ensures
        header_pairs(headers).len() == headers.len(),
        forall|i: int|
            0 <= i < headers.len() ==> #[trigger] header_pairs(headers)[i] == (
                headers[i].name@,
                headers[i].value@,
            ),
{
}

/// The letters of `word`, which has no upper case, stand in `s` from `i` on, each
/// in upper or lower case.
pub open spec fn letters_at(s: Seq<char>, word: Seq<char>, i: int) -> bool {
    &&& 0 <= i
    &&& i + word.len() <= s.len()
    &&& forall|k: int|
        0 <= k < word.len() ==> (s[i + k] == #[trigger] word[k] || ('a' <= word[k] <= 'z'
            && s[i + k] as int == word[k] as int - 32))
}

proof fn lemma_letters(s: Seq<char>, word: Seq<char>, i: int)
    requires
        forall|k: int| 0 <= k < word.len() ==> !('A' <= #[trigger] word[k] <= 'Z'),
    ensures
        occurs_at(lowered(s), word, i) <==> letters_at(s, word, i),
{
    law_lowered(s);
    lemma_occurs_chars(lowered(s), word, i);
    if occurs_at(lowered(s), word, i) {
        assert forall|k: int| 0 <= k < word.len() implies (s[i + k] == #[trigger] word[k] || ('a'
            <= word[k] <= 'z' && s[i + k] as int == word[k] as int - 32)) by {
            assert(word[k] == lowered(s)[i + k]);
        }
    }
    if letters_at(s, word, i) {
        assert forall|k: int| 0 <= k < word.len() implies #[trigger] word[k] == lowered(s)[i
            + k] by {
            let c = s[i + k];
            assert(lowered(s)[i + k] as int == if 65 <= c as int <= 90 {
                c as int + 32
            } else {
                c as int
            });
        }
    }
}

/// An answer is an HLS playlist exactly if the letters `mpegurl` stand in its
/// content type, or its path ends in `.m3u8`, in upper or lower case.
pub proof fn law_playlist_answer(name: Seq<char>, path: Seq<char>)
    ensures
        playlist_answer(Some(name), path) <==> (exists|i: int| #[trigger]
            letters_at(name, "mpegurl"@, i)) || letters_at(path, ".m3u8"@, path.len() - 5),
        playlist_answer(None, path) <==> letters_at(path, ".m3u8"@, path.len() - 5),
{
    reveal_strlit("mpegurl");
    reveal_strlit(".m3u8");
    law_lowered(path);
    law_stands_in(lowered(path), ".m3u8"@);
    assert(ends_in(lowered(path), ".m3u8"@) <==> occurs_at(
        lowered(path),
        ".m3u8"@,
        path.len() - 5,
    ));
    lemma_letters(path, ".m3u8"@, path.len() - 5);
    if has_text(lowered(name), "mpegurl"@) {
        let i = choose|i: int| #[trigger] occurs_at(lowered(name), "mpegurl"@, i);
        lemma_letters(name, "mpegurl"@, i);
        assert(letters_at(name, "mpegurl"@, i));
    }
    if exists|i: int| #[trigger] letters_at(name, "mpegurl"@, i) {
        let i = choose|i: int| #[trigger] letters_at(name, "mpegurl"@, i);
        lemma_letters(name, "mpegurl"@, i);
        assert(occurs_at(lowered(name), "mpegurl"@, i));
    }
}

/// The value of a hexadecimal digit.
pub open spec fn digit_value(c: char) -> int {
    if '0' <= c <= '9' {
        c as int - 48
    } else {
        c as int - 87
    }
}

/// Every byte is written as two lower-case hexadecimal digits, in order.
pub proof fn law_hex(bytes: Seq<u8>)
    ensures
        hex(bytes).len() == 2 * bytes.len(),
        forall|k: int|
            0 <= k < hex(bytes).len() ==> ('0' <= #[trigger] hex(bytes)[k] <= '9' || 'a'
                <= hex(bytes)[k] <= 'f'),
        forall|k: int|
            0 <= k < bytes.len() ==> 16 * digit_value(hex(bytes)[2 * k]) + digit_value(
                hex(bytes)[2 * k + 1],
            ) == #[trigger] bytes[k],
    decreases bytes.len(),
{
    if bytes.len() > 0 {
        let front = bytes.drop_last();
        law_hex(front);
        let b = bytes.last() as int;
        let n = hex(front).len() as int;
        assert(b == 16 * (b / 16) + b % 16);
        assert forall|k: int| 0 <= k < hex(bytes).len() implies ('0' <= #[trigger] hex(bytes)[k]
            <= '9' || 'a' <= hex(bytes)[k] <= 'f') by {
            if k < n {
                assert(hex(bytes)[k] == hex(front)[k]);
            }
        }
        assert forall|k: int| 0 <= k < bytes.len() implies 16 * digit_value(hex(bytes)[2 * k])
            + digit_value(hex(bytes)[2 * k + 1]) == #[trigger] bytes[k] by {
            if k < front.len() {
                assert(hex(bytes)[2 * k] == hex(front)[2 * k]);
                assert(hex(bytes)[2 * k + 1] == hex(front)[2 * k + 1]);
                assert(front[k] == bytes[k]);
            }
        }
    }
}

/// An identifier is the first twelve bytes of the digest of a text in hexadecimal.
pub proof fn law_identifier(input: Seq<char>)
    ensures
        identifier(input) == hex(sha256(encode_utf8(input)).take(12)),
{
}

} // verus!
