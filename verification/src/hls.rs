//! Rewriting HLS playlists so that everything in them is fetched through the
//! service.

use vstd::prelude::*;
use vstd::slice::slice_subrange;

use crate::attributes::{attribute_value, find_value, value_span};
use crate::failure::{AppError, Status};
use crate::signing::{proxy_url, proxy_url_text};
use crate::text::{
    chars_of, copy_chars, lines, push_chars, split_lines, string_of, trim_chars, trimmed, views,
};
use crate::weburl::{url_joined, Url};

verus! {

/// A line whose first character that is not white space is `#`.
pub open spec fn tag_line(raw: Seq<char>) -> bool {
    trimmed(raw).len() > 0 && trimmed(raw)[0] == '#'
}

/// What a line refers to: the `URI` attribute of a tag, or the line itself if it
/// is neither a tag nor blank.
pub open spec fn reference(raw: Seq<char>) -> Option<Seq<char>> {
    if tag_line(raw) {
        attribute_value(raw, "URI"@)
    } else if trimmed(raw).len() > 0 {
        Some(trimmed(raw))
    } else {
        None
    }
}

/// A line with a link in place of its reference. A line without a reference
/// stays if it is a tag, and is emptied if it is blank.
pub open spec fn with_link(raw: Seq<char>, link: Seq<char>) -> Seq<char> {
    if tag_line(raw) {
        match value_span(raw, "URI"@) {
            Some((start, end)) => raw.take(start) + link + raw.skip(end),
            None => raw,
        }
    } else if trimmed(raw).len() > 0 {
        link
    } else {
        seq![]
    }
}

/// A line with the signed link of its target in place of its reference, or
/// `None` if the reference cannot be resolved.
pub open spec fn rewritten_line(
    raw: Seq<char>,
    origin: Seq<char>,
    base: Seq<char>,
    secret: Seq<char>,
    id: Seq<char>,
) -> Option<Seq<char>> {
    match reference(raw) {
        None => Some(with_link(raw, seq![])),
        Some(target) => match url_joined(origin, target) {
            None => None,
            Some(absolute) => Some(with_link(raw, proxy_url_text(base, secret, id, absolute))),
        },
    }
}

/// The lines rewritten, each followed by a line feed, or `None` if one of them
/// cannot be.
pub open spec fn rewritten(
    list: Seq<Seq<char>>,
    origin: Seq<char>,
    base: Seq<char>,
    secret: Seq<char>,
    id: Seq<char>,
) -> Option<Seq<char>>
    decreases list.len(),
{
    if list.len() == 0 {
        Some(seq![])
    } else {
        match (
            rewritten(list.drop_last(), origin, base, secret, id),
            rewritten_line(list.last(), origin, base, secret, id),
        ) {
            (Some(head), Some(line)) => Some((head + line).push('\n')),
            _ => None,
        }
    }
}

/// What a line refers to.
pub fn reference_of(raw: &[char]) -> (r: Option<Vec<char>>)
    ensures
        match r {
            Some(target) => reference(raw@) == Some(target@),
            None => reference(raw@) is None,
        },
{
    let line = trim_chars(raw);
    if line.len() > 0 && line[0] == '#' {
        match find_value(raw, "URI") {
            Some((start, end)) => Some(copy_chars(slice_subrange(raw, start, end))),
            None => None,
        }
    } else if line.len() > 0 {
        Some(copy_chars(line))
    } else {
        None
    }
}

/// Puts a link in place of the reference of a line.
pub fn put_link(raw: &[char], link: &[char]) -> (r: Vec<char>)
    ensures
        r@ == with_link(raw@, link@),
{
    let line = trim_chars(raw);
    if line.len() > 0 && line[0] == '#' {
        match find_value(raw, "URI") {
            Some((start, end)) => {
                let mut r = copy_chars(slice_subrange(raw, 0, start));
                push_chars(&mut r, link);
                push_chars(&mut r, slice_subrange(raw, end, raw.len()));
                assert(r@ =~= raw@.take(start as int) + link@ + raw@.skip(end as int));
                r
            },
            None => copy_chars(raw),
        }
    } else if line.len() > 0 {
        copy_chars(link)
    } else {
        let r: Vec<char> = Vec::new();
        assert(r@ =~= seq![]);
        r
    }
}

/// Rewrites an HLS playlist that came from `origin`: every address in it becomes
/// a signed link of this service to the channel `id`. One address that cannot be
/// resolved fails the playlist.
pub fn rewrite_hls(text: &str, origin: &Url, base: &str, secret: &str, id: &str) -> (r: Result<
    String,
    AppError,
>)
    ensures
        match r {
            Ok(output) => rewritten(lines(text@), origin.text@, base@, secret@, id@) == Some(
                output@,
            ),
            Err(e) => {
                &&& rewritten(lines(text@), origin.text@, base@, secret@, id@) is None
                &&& e.says(Status::BadGateway, "invalid upstream playlist"@)
            },
        },
{
    let mut output: Vec<char> = Vec::new();
    let chars = chars_of(text);
    let list = split_lines(&chars);
    let ghost all = lines(text@);
    let mut i: usize = 0;
    assert(all.take(0) =~= seq![]);
    assert(output@ =~= seq![]);
    while i < list.len()
        invariant
            i <= list.len(),
            views(list@) == all,
            all == lines(text@),
            rewritten(all.take(i as int), origin.text@, base@, secret@, id@) == Some(output@),
        decreases list.len() - i,
    {
        let ghost raw = all[i as int];
        assert(raw == list@[i as int]@);
        assert(all.take(i + 1).drop_last() =~= all.take(i as int));
        assert(all.take(i + 1).last() == raw);
        let line = match reference_of(&list[i]) {
            None => {
                let nothing: Vec<char> = Vec::new();
                assert(nothing@ =~= seq![]);
                put_link(&list[i], &nothing)
            },
            Some(target) => match origin.join(string_of(&target).as_str()) {
                None => {
                    proof {
                        lemma_rewritten_prefix(
                            all,
                            i + 1,
                            origin.text@,
                            base@,
                            secret@,
                            id@,
                        );
                    }
                    return Err(AppError(Status::BadGateway, "invalid upstream playlist"));
                },
                Some(absolute) => {
                    let link = proxy_url(base, secret, id, absolute.text.as_str());
                    put_link(&list[i], &chars_of(link.as_str()))
                },
            },
        };
        push_chars(&mut output, &line);
        output.push('\n');
        i += 1;
    }
    assert(all.take(i as int) =~= all);
    Ok(string_of(&output))
}

/// A playlist that can be rewritten can be rewritten up to any line.
proof fn lemma_rewritten_prefix(
    list: Seq<Seq<char>>,
    n: int,
    origin: Seq<char>,
    base: Seq<char>,
    secret: Seq<char>,
    id: Seq<char>,
)
    requires
        0 <= n <= list.len(),
        rewritten(list.take(n), origin, base, secret, id) is None,
    ensures
        rewritten(list, origin, base, secret, id) is None,
    decreases list.len(),
{
    if n == list.len() {
        assert(list.take(n) =~= list);
    } else {
        assert(list.drop_last().take(n) =~= list.take(n));
        lemma_rewritten_prefix(list.drop_last(), n, origin, base, secret, id);
    }
}

} // verus!
