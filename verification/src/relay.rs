//! Relaying channels: which requests are admitted, what is fetched for them and
//! how the answer is passed on.

use vstd::prelude::*;
use vstd::slice::slice_subrange;

use crate::failure::{AppError, Status};
use crate::hls::{rewrite_hls, rewritten};
use crate::listing::Document;
use crate::model::{optional_text, Channel, ChannelView, Mode};
use crate::replay::{expand_catchup, expands};
use crate::runtime::{last_with_id, Runtime, RuntimeView};
use crate::signing::{sign, signature};
use crate::text::{
    chars_of, contains_chars, copy_chars, ends_in, ends_with_chars, find, find_chars, has_text,
    lines, lower_chars, lowered, push_chars, same_text, string_of,
};
use crate::weburl::{scheme_of, url_parsed, web_scheme, Url};

verus! {

/// The channel that a request for `id` gets: the last one with this identifier,
/// if it is relayed.
pub open spec fn relayed_channel(runtime: RuntimeView, id: Seq<char>) -> Option<ChannelView> {
    match last_with_id(runtime.channels, id) {
        Some(i) => if runtime.channels[i].mode == Mode::Proxy {
            Some(runtime.channels[i])
        } else {
            None
        },
        None => None,
    }
}

/// The channel that a request for `id` gets.
pub fn lookup(runtime: &Runtime, id: &str) -> (r: Result<Channel, AppError>)
    requires
        runtime.wf(),
    ensures
        match r {
            Ok(channel) => relayed_channel(runtime@, id@) == Some(channel@),
            Err(e) => relayed_channel(runtime@, id@) is None && e.says(
                Status::NotFound,
                "channel unavailable"@,
            ),
        },
{
    match runtime.channel(id) {
        Some(channel) => {
            if channel.mode == Mode::Proxy {
                Ok(channel.clone())
            } else {
                Err(AppError(Status::NotFound, "channel unavailable"))
            }
        },
        None => Err(AppError(Status::NotFound, "channel unavailable")),
    }
}

/// An address to fetch on behalf of a channel.
pub struct Task {
    pub channel: Channel,
    pub target: String,
}

/// What a request for the live stream of a channel fetches.
pub fn live(runtime: &Runtime, id: &str) -> (r: Result<Task, AppError>)
    requires
        runtime.wf(),
    ensures
        match r {
            Ok(task) => relayed_channel(runtime@, id@) == Some(task.channel@) && task.target@
                == task.channel@.url,
            Err(e) => relayed_channel(runtime@, id@) is None && e.says(
                Status::NotFound,
                "channel unavailable"@,
            ),
        },
{
    match lookup(runtime, id) {
        Ok(channel) => {
            let target = channel.url.clone();
            Ok(Task { channel, target })
        },
        Err(e) => Err(e),
    }
}

/// `r` is what comes of a request for a replay.
pub open spec fn replays(
    runtime: RuntimeView,
    id: Seq<char>,
    start: i64,
    end: i64,
    r: Result<Task, AppError>,
) -> bool {
    if start <= 0 || end <= start {
        r matches Err(e) && e.says(Status::BadRequest, "invalid replay window"@)
    } else {
        match relayed_channel(runtime, id) {
            None => r matches Err(e) && e.says(Status::NotFound, "channel unavailable"@),
            Some(channel) => match channel.catchup {
                None => r matches Err(e) && e.says(Status::NotFound, "replay unavailable"@),
                Some(template) => match r {
                    Ok(task) => task.channel@ == channel && expands(
                        template,
                        start,
                        end,
                        Ok(task.target),
                    ),
                    Err(e) => expands(template, start, end, Err(e)),
                },
            },
        }
    }
}

/// What a request for the replay of a channel fetches.
pub fn catchup(runtime: &Runtime, id: &str, start: i64, end: i64) -> (r: Result<Task, AppError>)
    requires
        runtime.wf(),
    ensures
        replays(runtime@, id@, start, end, r),
{
    if start <= 0 || end <= start {
        return Err(AppError(Status::BadRequest, "invalid replay window"));
    }
    let channel = match lookup(runtime, id) {
        Ok(channel) => channel,
        Err(e) => {
            return Err(e);
        },
    };
    let expanded = match &channel.catchup {
        Some(template) => expand_catchup(template.as_str(), start, end),
        None => {
            return Err(AppError(Status::NotFound, "replay unavailable"));
        },
    };
    match expanded {
        Ok(target) => Ok(Task { channel, target }),
        Err(e) => Err(e),
    }
}

/// What a request for a signed link fetches, given the signature that it should
/// have.
pub fn admit_signed(channel: Channel, target: &str, expected: &str, given: &str) -> (r: Result<
    Task,
    AppError,
>)
    ensures
        match r {
            Ok(task) => expected@ == given@ && task.channel@ == channel@ && task.target@
                == target@,
            Err(e) => expected@ != given@ && e.says(Status::Forbidden, "invalid signature"@),
        },
{
    if same_text(expected, given) {
        Ok(Task { channel, target: target.to_owned() })
    } else {
        Err(AppError(Status::Forbidden, "invalid signature"))
    }
}

/// `r` is what comes of a request for a signed link.
pub open spec fn proxies(
    runtime: RuntimeView,
    secret: Seq<char>,
    id: Seq<char>,
    target: Seq<char>,
    given: Seq<char>,
    r: Result<Task, AppError>,
) -> bool {
    match relayed_channel(runtime, id) {
        None => r matches Err(e) && e.says(Status::NotFound, "channel unavailable"@),
        Some(channel) => if given == signature(secret, id, target) {
            r matches Ok(task) && task.channel@ == channel && task.target@ == target
        } else {
            r matches Err(e) && e.says(Status::Forbidden, "invalid signature"@)
        },
    }
}

/// What a request for a signed link fetches.
pub fn proxy(runtime: &Runtime, secret: &str, id: &str, target: &str, given: &str) -> (r: Result<
    Task,
    AppError,
>)
    requires
        runtime.wf(),
    ensures
        proxies(runtime@, secret@, id@, target@, given@, r),
{
    match lookup(runtime, id) {
        Ok(channel) => admit_signed(channel, target, sign(secret, id, target).as_str(), given),
        Err(e) => Err(e),
    }
}

/// The first position from `i` on at which the authority of an address ends.
pub open spec fn authority_end(text: Seq<char>, i: int) -> int
    decreases text.len() - i,
{
    if i >= text.len() || text[i] == '/' || text[i] == '?' || text[i] == '#' {
        i
    } else {
        authority_end(text, i + 1)
    }
}

/// The length of the scheme and the authority of an address.
pub open spec fn origin_len(text: Seq<char>) -> int {
    match find(text, "://"@) {
        Some(i) => authority_end(text, i + 3),
        None => text.len() as int,
    }
}

/// An address moved to another origin: the scheme and the authority of `onto`,
/// and all that follows them in `text`.
pub open spec fn moved(text: Seq<char>, onto: Seq<char>) -> Seq<char> {
    onto.take(origin_len(onto)) + text.skip(origin_len(text))
}

fn find_origin_len(text: &[char]) -> (r: usize)
    ensures
        r == origin_len(text@),
        r <= text@.len(),
{
    proof {
        reveal_strlit("://");
    }
    let total: usize = text.len();
    match find_chars(text, &chars_of("://")) {
        None => total,
        Some(at) => {
            let mut i: usize = at + 3;
            while i < total && text[i] != '/' && text[i] != '?' && text[i] != '#'
                invariant
                    at + 3 <= i <= total,
                    total == text@.len(),
                    authority_end(text@, at + 3) == authority_end(text@, i as int),
                decreases total - i,
            {
                i += 1;
            }
            i
        },
    }
}

/// The address that is fetched for a target: the target itself, or, for a source
/// that is reached elsewhere, the target moved there. `None` if the target, or
/// the place, is no address that can be fetched.
pub open spec fn fetched_address(
    target: Seq<char>,
    upstream_base_url: Option<Seq<char>>,
) -> Option<Seq<char>> {
    media_address(url_parsed(target), upstream_base_url is Some, match upstream_base_url {
        Some(base) => url_parsed(base),
        None => None,
    })
}

/// The address that is fetched, given what the target and the place read as.
pub open spec fn media_address(
    target: Option<Seq<char>>,
    elsewhere: bool,
    place: Option<Seq<char>>,
) -> Option<Seq<char>> {
    match target {
        None => None,
        Some(text) => if !web_scheme(scheme_of(text)) {
            None
        } else if !elsewhere {
            Some(text)
        } else {
            match place {
                None => None,
                Some(onto) => if web_scheme(scheme_of(onto)) {
                    Some(moved(text, onto))
                } else {
                    None
                },
            }
        },
    }
}

/// An address moved to another origin.
pub fn move_address(text: &str, onto: &str) -> (r: String)
    ensures
        r@ == moved(text@, onto@),
{
    let from = chars_of(text);
    let to = chars_of(onto);
    let from_len: usize = find_origin_len(&from);
    let to_len: usize = find_origin_len(&to);
    let mut r = copy_chars(slice_subrange(&to, 0, to_len));
    push_chars(&mut r, slice_subrange(&from, from_len, from.len()));
    assert(r@ =~= moved(text@, onto@));
    string_of(&r)
}

/// The address that is fetched, given what the target and, for a source that is
/// reached elsewhere, the place read as.
pub fn settle_media(target: Option<Url>, elsewhere: bool, place: Option<Url>) -> (r: Result<
    String,
    AppError,
>)
    ensures
        match r {
            Ok(address) => target matches Some(url) && web_scheme(url.scheme@) && (if elsewhere {
                place matches Some(onto) && web_scheme(onto.scheme@) && address@ == moved(
                    url.text@,
                    onto.text@,
                )
            } else {
                address@ == url.text@
            }),
            Err(e) => {
                &&& !(target matches Some(url) && web_scheme(url.scheme@)) || (elsewhere && !(
                place matches Some(onto) && web_scheme(onto.scheme@)))
                &&& e.says(Status::BadRequest, "invalid media URL"@)
            },
        },
{
    let url = match target {
        Some(url) => url,
        None => {
            return Err(AppError(Status::BadRequest, "invalid media URL"));
        },
    };
    if !url.is_web() {
        return Err(AppError(Status::BadRequest, "invalid media URL"));
    }
    if !elsewhere {
        return Ok(url.text);
    }
    match place {
        Some(onto) => {
            if onto.is_web() {
                Ok(move_address(url.text.as_str(), onto.text.as_str()))
            } else {
                Err(AppError(Status::BadRequest, "invalid media URL"))
            }
        },
        None => Err(AppError(Status::BadRequest, "invalid media URL")),
    }
}

/// The address that is fetched for a target.
pub fn media_target(target: &str, upstream_base_url: &Option<String>) -> (r: Result<
    String,
    AppError,
>)
    ensures
        match r {
            Ok(address) => fetched_address(target@, optional_text(*upstream_base_url)) == Some(
                address@,
            ),
            Err(e) => {
                &&& fetched_address(target@, optional_text(*upstream_base_url)) is None
                &&& e.says(Status::BadRequest, "invalid media URL"@)
            },
        },
{
    let place = match upstream_base_url {
        Some(base) => Url::parse(base.as_str()),
        None => None,
    };
    settle_media(Url::parse(target), upstream_base_url.is_some(), place)
}

/// A header: its name in lower case, and its value.
#[derive(Debug)]
pub struct Header {
    pub name: String,
    pub value: Vec<u8>,
}

/// The position of the first header with a name.
pub open spec fn first_header(headers: Seq<Header>, name: Seq<char>) -> Option<int>
    decreases headers.len(),
{
    if headers.len() == 0 {
        None
    } else {
        match first_header(headers.drop_last(), name) {
            Some(i) => Some(i),
            None => if headers.last().name@ == name {
                Some(headers.len() - 1)
            } else {
                None
            },
        }
    }
}

/// The first header with each of the names, in the order of the names, as pairs
/// of name and value.
pub open spec fn picked(headers: Seq<Header>, names: Seq<Seq<char>>) -> Seq<(Seq<char>, Seq<u8>)>
    decreases names.len(),
{
    if names.len() == 0 {
        seq![]
    } else {
        let rest = picked(headers, names.drop_last());
        match first_header(headers, names.last()) {
            Some(i) => rest.push((names.last(), headers[i].value@)),
            None => rest,
        }
    }
}

/// The contents of a list of headers.
pub open spec fn header_pairs(headers: Seq<Header>) -> Seq<(Seq<char>, Seq<u8>)> {
    headers.map_values(|h: Header| (h.name@, h.value@))
}

fn push_header(out: &mut Vec<Header>, headers: &Vec<Header>, name: &str)
    ensures
        header_pairs(final(out)@) == match first_header(headers@, name@) {
            Some(i) => header_pairs(old(out)@).push((name@, headers@[i].value@)),
            None => header_pairs(old(out)@),
        },
{
    let mut i: usize = 0;
    assert(headers@.take(0) =~= seq![]);
    while i < headers.len()
        invariant
            i <= headers.len(),
            *out == *old(out),
            first_header(headers@.take(i as int), name@) is None,
        decreases headers.len() - i,
    {
        assert(headers@.take(i + 1).drop_last() =~= headers@.take(i as int));
        if same_text(headers[i].name.as_str(), name) {
            proof {
                lemma_first_header(headers@, i as int, name@);
            }
            let value = headers[i].value.clone();
            assert(value@ =~= headers@[i as int].value@);
            out.push(Header { name: name.to_owned(), value });
            assert(header_pairs(out@) =~= header_pairs(old(out)@).push(
                (name@, headers@[i as int].value@),
            ));
            return ;
        }
        i += 1;
    }
    assert(headers@.take(i as int) =~= headers@);
}

proof fn lemma_first_header(headers: Seq<Header>, i: int, name: Seq<char>)
    requires
        0 <= i < headers.len(),
        first_header(headers.take(i + 1), name) == Some(i),
    ensures
        first_header(headers, name) == Some(i),
    decreases headers.len(),
{
    if i + 1 == headers.len() {
        assert(headers.take(i + 1) =~= headers);
    } else {
        assert(headers.drop_last().take(i + 1) =~= headers.take(i + 1));
        lemma_first_header(headers.drop_last(), i, name);
    }
}

/// The headers of a player's request that are passed on upstream.
pub open spec fn request_names() -> Seq<Seq<char>> {
    seq!["range"@, "if-range"@, "accept"@, "referer"@]
}

/// The headers of an upstream answer that are passed on to the player.
pub open spec fn response_names() -> Seq<Seq<char>> {
    seq!["content-type"@, "content-length"@, "content-range"@, "accept-ranges"@, "cache-control"@]
}

/// What of the headers of a player's request is passed on upstream.
pub fn forwarded_request(headers: &Vec<Header>) -> (r: Vec<Header>)
    ensures
        header_pairs(r@) == picked(headers@, request_names()),
{
    let mut r: Vec<Header> = Vec::new();
    push_header(&mut r, headers, "range");
    push_header(&mut r, headers, "if-range");
    push_header(&mut r, headers, "accept");
    push_header(&mut r, headers, "referer");
    proof {
        let names = request_names();
        reveal_with_fuel(picked, 5);
        assert(names.drop_last() =~= seq!["range"@, "if-range"@, "accept"@]);
        assert(names.drop_last().drop_last() =~= seq!["range"@, "if-range"@]);
        assert(names.drop_last().drop_last().drop_last() =~= seq!["range"@]);
        assert(names.drop_last().drop_last().drop_last().drop_last() =~= seq![]);
        assert(header_pairs(Seq::<Header>::empty()) =~= seq![]);
    }
    r
}

/// What of the headers of an upstream answer is passed on to the player.
pub fn forwarded_response(headers: &Vec<Header>) -> (r: Vec<Header>)
    ensures
        header_pairs(r@) == picked(headers@, response_names()),
{
    let mut r: Vec<Header> = Vec::new();
    push_header(&mut r, headers, "content-type");
    push_header(&mut r, headers, "content-length");
    push_header(&mut r, headers, "content-range");
    push_header(&mut r, headers, "accept-ranges");
    push_header(&mut r, headers, "cache-control");
    proof {
        let names = response_names();
        reveal_with_fuel(picked, 6);
        assert(names.drop_last() =~= seq![
            "content-type"@,
            "content-length"@,
            "content-range"@,
            "accept-ranges"@,
        ]);
        assert(names.drop_last().drop_last() =~= seq![
            "content-type"@,
            "content-length"@,
            "content-range"@,
        ]);
        assert(names.drop_last().drop_last().drop_last() =~= seq![
            "content-type"@,
            "content-length"@,
        ]);
        assert(names.drop_last().drop_last().drop_last().drop_last() =~= seq!["content-type"@]);
        assert(names.drop_last().drop_last().drop_last().drop_last().drop_last() =~= seq![]);
        assert(header_pairs(Seq::<Header>::empty()) =~= seq![]);
    }
    r
}

/// The beginning of the answer that a player gets for media.
pub struct Reply {
    pub status: u16,
    pub headers: Vec<Header>,
}

/// The beginning of the answer for media that are passed on byte for byte: the
/// status is the one of the upstream answer, so a part stays a part.
pub fn passed_on(status: u16, headers: &Vec<Header>) -> (r: Reply)
    ensures
        r.status == status,
        header_pairs(r.headers@) == picked(headers@, response_names()),
{
    Reply { status, headers: forwarded_response(headers) }
}

/// How an upstream answer is passed on.
#[derive(Debug, Clone, Copy, PartialEq, Eq, Structural)]
pub enum Passing {
    /// As an HLS playlist, rewritten.
    Playlist,
    /// Byte for byte.
    Stream,
}

/// The beginning of an upstream answer.
pub struct Answer {
    pub status: u16,
    pub content_type: Option<String>,
    /// The path of the address that the answer came from.
    pub path: String,
}

/// Whether an answer is an HLS playlist, by its content type or by the end of
/// the path that it came from, in upper or lower case.
pub open spec fn playlist_answer(content_type: Option<Seq<char>>, path: Seq<char>) -> bool {
    (content_type matches Some(name) && has_text(lowered(name), "mpegurl"@)) || ends_in(
        lowered(path),
        ".m3u8"@,
    )
}

/// How an upstream answer is passed on; `None` stands for no answer.
pub fn passing(answer: Option<&Answer>) -> (r: Result<Passing, AppError>)
    ensures
        match answer {
            None => r matches Err(e) && e.says(Status::BadGateway, "upstream unavailable"@),
            Some(head) => if head.status < 200 || head.status >= 300 {
                r matches Err(e) && e.says(Status::BadGateway, "upstream rejected request"@)
            } else {
                r == Ok::<Passing, AppError>(
                    if playlist_answer(optional_text(head.content_type), head.path@) {
                        Passing::Playlist
                    } else {
                        Passing::Stream
                    },
                )
            },
        },
{
    let head = match answer {
        Some(head) => head,
        None => {
            return Err(AppError(Status::BadGateway, "upstream unavailable"));
        },
    };
    if head.status < 200 || head.status >= 300 {
        return Err(AppError(Status::BadGateway, "upstream rejected request"));
    }
    let named = match &head.content_type {
        Some(name) => contains_chars(
            &lower_chars(&chars_of(name.as_str())),
            &chars_of("mpegurl"),
        ),
        None => false,
    };
    let path = lower_chars(&chars_of(head.path.as_str()));
    if named || ends_with_chars(&path, &chars_of(".m3u8")) {
        Ok(Passing::Playlist)
    } else {
        Ok(Passing::Stream)
    }
}

/// The answer for an HLS playlist that came from `origin`; `None` stands for a
/// text that could not be read.
pub fn relay_playlist(
    text: Option<&str>,
    origin: &Url,
    base: &str,
    secret: &str,
    id: &str,
) -> (r: Result<Document, AppError>)
    ensures
        match r {
            Ok(document) => {
                &&& text matches Some(playlist) && rewritten(
                    lines(playlist@),
                    origin.text@,
                    base@,
                    secret@,
                    id@,
                ) == Some(document.body@)
                &&& document.content_type@ == "application/vnd.apple.mpegurl"@
                &&& document.cache_control@ == "no-store"@
            },
            Err(e) => {
                &&& text matches Some(playlist) ==> rewritten(
                    lines(playlist@),
                    origin.text@,
                    base@,
                    secret@,
                    id@,
                ) is None
                &&& e.says(Status::BadGateway, "invalid upstream playlist"@)
            },
        },
{
    match text {
        None => Err(AppError(Status::BadGateway, "invalid upstream playlist")),
        Some(playlist) => match rewrite_hls(playlist, origin, base, secret, id) {
            Ok(body) => Ok(
                Document {
                    content_type: "application/vnd.apple.mpegurl",
                    cache_control: "no-store",
                    body,
                },
            ),
            Err(e) => Err(e),
        },
    }
}

} // verus!
