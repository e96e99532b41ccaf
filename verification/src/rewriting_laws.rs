//! What becomes of every line of a rewritten HLS playlist, told by the places in
//! the line.

use vstd::prelude::*;
use vstd::utf8::encode_utf8;

use crate::attributes::value_span;
use crate::encoding::{base64_url, percent_encoded};
use crate::hls::{reference, rewritten, rewritten_line, tag_line, with_link};
use crate::hls_laws::lemma_rewritten_lines;
use crate::searching::lemma_lines_whole;
use crate::signing::{hmac_sha256, proxy_link_text, proxy_url_text, signature};
use crate::signing_laws::lemma_link_ends;
use crate::text::{lines, white_space, without_return};
use crate::text_laws::{blank, core_at, law_trimmed, law_trimmed_first, lemma_core};
use crate::value_laws::{law_value_span, value_at};
use crate::weburl::url_joined;

verus! {

/// The first character of a line that is not white space is the `#` at `p`.
pub open spec fn tag_at(raw: Seq<char>, p: int) -> bool {
    &&& 0 <= p < raw.len()
    &&& raw[p] == '#'
    &&& forall|j: int| 0 <= j < p ==> white_space(#[trigger] raw[j])
}

/// A tag is told by its first character that is not white space.
pub proof fn law_tag_line(raw: Seq<char>)
    ensures
        tag_line(raw) <==> exists|p: int| #[trigger] tag_at(raw, p),
        blank(raw) ==> !tag_line(raw),
{
    law_trimmed(raw);
    if !blank(raw) {
        let (from, to) = lemma_core(raw);
        assert(core_at(raw, from, to));
        law_trimmed_first(raw, from, to);
        if tag_line(raw) {
            assert(tag_at(raw, from));
        }
        if exists|p: int| #[trigger] tag_at(raw, p) {
            let p = choose|p: int| #[trigger] tag_at(raw, p);
            if p < from {
                assert(white_space(raw[p]));
            } else if from < p {
                assert(white_space(raw[from]));
            }
        }
    } else if exists|p: int| #[trigger] tag_at(raw, p) {
        let p = choose|p: int| #[trigger] tag_at(raw, p);
        assert(white_space(raw[p]));
    }
}

/// A line refers to `target`: as a tag by the value of its `URI` attribute, and
/// otherwise by what stands in it besides the white space around.
pub open spec fn refers_to(raw: Seq<char>, target: Seq<char>) -> bool {
    if exists|p: int| #[trigger] tag_at(raw, p) {
        exists|start: int, end: int| #[trigger]
            value_at(raw, "URI"@, start, end) && target == raw.subrange(start, end)
    } else {
        exists|from: int, to: int| #[trigger]
            core_at(raw, from, to) && target == raw.subrange(from, to)
    }
}

/// What a line refers to is told by the places in it.
pub proof fn law_reference(raw: Seq<char>, target: Seq<char>)
    ensures
        reference(raw) == Some(target) <==> refers_to(raw, target),
{
    law_tag_line(raw);
    law_trimmed(raw);
    if tag_line(raw) {
        match value_span(raw, "URI"@) {
            Some((start, end)) => {
                law_value_span(raw, "URI"@, start, end);
                assert(value_at(raw, "URI"@, start, end));
            },
            None => {},
        }
        if refers_to(raw, target) {
            let (start, end) = choose|start: int, end: int| #[trigger]
                value_at(raw, "URI"@, start, end) && target == raw.subrange(start, end);
            law_value_span(raw, "URI"@, start, end);
        }
    } else {
        if refers_to(raw, target) {
            let (from, to) = choose|from: int, to: int| #[trigger]
                core_at(raw, from, to) && target == raw.subrange(from, to);
            law_trimmed_first(raw, from, to);
        }
        if !blank(raw) {
            let (from, to) = lemma_core(raw);
            assert(core_at(raw, from, to));
        }
    }
}

/// A link takes the place of what a line refers to, whatever the link is: of the
/// `URI` value in a tag, and of the whole line otherwise. A tag without such a
/// value stays, and a blank line is emptied.
pub proof fn law_link_put(raw: Seq<char>, link: Seq<char>)
    ensures
        blank(raw) ==> with_link(raw, link) == Seq::<char>::empty(),
        forall|p: int| #[trigger]
            tag_at(raw, p) && (forall|start: int, end: int|
                !#[trigger] value_at(raw, "URI"@, start, end)) ==> with_link(raw, link) == raw,
        forall|p: int, start: int, end: int|
            #![trigger tag_at(raw, p), value_at(raw, "URI"@, start, end)]
            tag_at(raw, p) && value_at(raw, "URI"@, start, end) ==> with_link(raw, link)
                == raw.take(start) + link + raw.skip(end),
        forall|from: int, to: int| #[trigger]
            core_at(raw, from, to) && raw[from] != '#' ==> with_link(raw, link) == link,
{
    law_tag_line(raw);
    law_trimmed(raw);
    match value_span(raw, "URI"@) {
        Some((start, end)) => {
            law_value_span(raw, "URI"@, start, end);
            assert(value_at(raw, "URI"@, start, end));
        },
        None => {},
    }
    assert forall|p: int, start: int, end: int|
        #![trigger tag_at(raw, p), value_at(raw, "URI"@, start, end)]
        tag_at(raw, p) && value_at(raw, "URI"@, start, end) implies with_link(raw, link)
        == raw.take(start) + link + raw.skip(end) by {
        law_value_span(raw, "URI"@, start, end);
    }
    assert forall|from: int, to: int| #[trigger]
        core_at(raw, from, to) && raw[from] != '#' implies with_link(raw, link) == link by {
        law_trimmed_first(raw, from, to);
    }
}

/// The signed link to a target: the address of the service, the channel, the
/// target percent-encoded, and the HMAC of channel and target.
pub proof fn law_link_text(
    base: Seq<char>,
    secret: Seq<char>,
    id: Seq<char>,
    target: Seq<char>,
    signed: Seq<char>,
)
    ensures
        proxy_link_text(base, id, target, signed) == base + "/proxy/"@ + id + "?u="@
            + percent_encoded(encode_utf8(target)) + "&s="@ + signed,
        proxy_url_text(base, secret, id, target) == base + "/proxy/"@ + id + "?u="@
            + percent_encoded(encode_utf8(target)) + "&s="@ + base64_url(
            hmac_sha256(encode_utf8(secret), encode_utf8(id) + seq![10u8] + encode_utf8(target)),
        ),
        signature(secret, id, target) == base64_url(
            hmac_sha256(encode_utf8(secret), encode_utf8(id) + seq![10u8] + encode_utf8(target)),
        ),
{
}

/// A playlist is rewritten in parts: what comes of two parts together is what
/// comes of the one and what comes of the other.
pub proof fn law_rewritten_in_parts(
    one: Seq<Seq<char>>,
    two: Seq<Seq<char>>,
    origin: Seq<char>,
    base: Seq<char>,
    secret: Seq<char>,
    id: Seq<char>,
)
    ensures
        rewritten(one + two, origin, base, secret, id) == match (
            rewritten(one, origin, base, secret, id),
            rewritten(two, origin, base, secret, id),
        ) {
            (Some(a), Some(b)) => Some(a + b),
            _ => None,
        },
    decreases two.len(),
{
    if two.len() == 0 {
        assert(one + two =~= one);
        match rewritten(one, origin, base, secret, id) {
            Some(a) => {
                assert(a + Seq::<char>::empty() =~= a);
            },
            None => {},
        }
    } else {
        law_rewritten_in_parts(one, two.drop_last(), origin, base, secret, id);
        assert((one + two).drop_last() =~= one + two.drop_last());
        assert((one + two).last() == two.last());
        match (
            rewritten(one, origin, base, secret, id),
            rewritten(two.drop_last(), origin, base, secret, id),
            rewritten_line(two.last(), origin, base, secret, id),
        ) {
            (Some(a), Some(b), Some(line)) => {
                assert((a + b + line).push('\n') =~= a + (b + line).push('\n'));
            },
            _ => {},
        }
    }
}

proof fn lemma_one_line(
    raw: Seq<char>,
    origin: Seq<char>,
    base: Seq<char>,
    secret: Seq<char>,
    id: Seq<char>,
)
    ensures
        rewritten(seq![raw], origin, base, secret, id) == match rewritten_line(
            raw,
            origin,
            base,
            secret,
            id,
        ) {
            Some(line) => Some(line + seq!['\n']),
            None => None,
        },
{
    assert(seq![raw].drop_last() =~= seq![]);
    assert(rewritten(seq![raw].drop_last(), origin, base, secret, id) == Some(
        Seq::<char>::empty(),
    ));
    match rewritten_line(raw, origin, base, secret, id) {
        Some(line) => {
            assert((Seq::<char>::empty() + line).push('\n') =~= line + seq!['\n']);
        },
        None => {},
    }
}

/// A tag without a closed `URI` attribute is written as it is.
pub proof fn law_plain_tag_stays(
    raw: Seq<char>,
    p: int,
    origin: Seq<char>,
    base: Seq<char>,
    secret: Seq<char>,
    id: Seq<char>,
)
    requires
        tag_at(raw, p),
        forall|start: int, end: int| !#[trigger] value_at(raw, "URI"@, start, end),
    ensures
        rewritten(seq![raw], origin, base, secret, id) == Some(raw + seq!['\n']),
{
    law_tag_line(raw);
    lemma_one_line(raw, origin, base, secret, id);
    match value_span(raw, "URI"@) {
        Some((start, end)) => {
            law_value_span(raw, "URI"@, start, end);
            assert(value_at(raw, "URI"@, start, end));
        },
        None => {},
    }
}

/// In a tag with a `URI` attribute the value becomes the signed link to what it
/// means at the origin, and what stands before and behind the value stays.
pub proof fn law_tag_keeps_all_but_value(
    raw: Seq<char>,
    p: int,
    start: int,
    end: int,
    origin: Seq<char>,
    base: Seq<char>,
    secret: Seq<char>,
    id: Seq<char>,
)
    requires
        tag_at(raw, p),
        value_at(raw, "URI"@, start, end),
    ensures
        rewritten(seq![raw], origin, base, secret, id) == match url_joined(
            origin,
            raw.subrange(start, end),
        ) {
            Some(absolute) => Some(
                raw.take(start) + proxy_url_text(base, secret, id, absolute) + raw.skip(end)
                    + seq!['\n'],
            ),
            None => None,
        },
{
    law_tag_line(raw);
    lemma_one_line(raw, origin, base, secret, id);
    law_value_span(raw, "URI"@, start, end);
}

/// A line that is neither a tag nor blank becomes the signed link to what it means
/// at the origin.
pub proof fn law_address_becomes_link(
    raw: Seq<char>,
    from: int,
    to: int,
    origin: Seq<char>,
    base: Seq<char>,
    secret: Seq<char>,
    id: Seq<char>,
)
    requires
        core_at(raw, from, to),
        raw[from] != '#',
    ensures
        rewritten(seq![raw], origin, base, secret, id) == match url_joined(
            origin,
            raw.subrange(from, to),
        ) {
            Some(absolute) => Some(proxy_url_text(base, secret, id, absolute) + seq!['\n']),
            None => None,
        },
{
    lemma_one_line(raw, origin, base, secret, id);
    law_trimmed(raw);
    law_trimmed_first(raw, from, to);
}

/// A blank line becomes an empty one.
pub proof fn law_blank_line_is_emptied(
    raw: Seq<char>,
    origin: Seq<char>,
    base: Seq<char>,
    secret: Seq<char>,
    id: Seq<char>,
)
    requires
        blank(raw),
    ensures
        rewritten(seq![raw], origin, base, secret, id) == Some(seq!['\n']),
{
    law_trimmed(raw);
    lemma_one_line(raw, origin, base, secret, id);
    assert(Seq::<char>::empty() + seq!['\n'] =~= seq!['\n']);
}

/// A playlist is rewritten exactly if everything that its lines refer to has a
/// meaning at the origin.
pub proof fn law_rewritten_if_all_resolve(
    list: Seq<Seq<char>>,
    origin: Seq<char>,
    base: Seq<char>,
    secret: Seq<char>,
    id: Seq<char>,
)
    ensures
        rewritten(list, origin, base, secret, id) is Some <==> (forall|i: int, target: Seq<char>|
            0 <= i < list.len() && #[trigger] refers_to(list[i], target) ==> url_joined(
                origin,
                target,
            ) is Some),
    decreases list.len(),
{
    if list.len() > 0 {
        let front = list.drop_last();
        law_rewritten_if_all_resolve(front, origin, base, secret, id);
        let raw = list.last();
        if rewritten(list, origin, base, secret, id) is Some {
            assert forall|i: int, target: Seq<char>|
                0 <= i < list.len() && #[trigger] refers_to(
                    list[i],
                    target,
                ) implies url_joined(origin, target) is Some by {
                if i < front.len() {
                    assert(front[i] == list[i]);
                    assert(refers_to(front[i], target));
                } else {
                    law_reference(raw, target);
                }
            }
        }
        if forall|i: int, target: Seq<char>|
            0 <= i < list.len() && #[trigger] refers_to(list[i], target) ==> url_joined(
                origin,
                target,
            ) is Some {
            assert forall|i: int, target: Seq<char>|
                0 <= i < front.len() && #[trigger] refers_to(
                    front[i],
                    target,
                ) implies url_joined(origin, target) is Some by {
                assert(refers_to(list[i], target));
            }
            match reference(raw) {
                Some(target) => {
                    law_reference(raw, target);
                    assert(refers_to(list[list.len() - 1], target));
                },
                None => {},
            }
        }
    }
}

/// Line by line, a rewritten playlist differs from the playlist in nothing but
/// what it refers to.
///
/// A tag without a closed `URI` attribute stays; in a tag with one, what stands
/// before the value and from its end on stays, and the signed link to what the
/// value means at the origin stands between; an address gives way to such a link;
/// a blank line is emptied. A carriage return at the end of a line belongs to the
/// line break.
///
/// The address of the service and the identifier hold no line break.
pub proof fn law_lines_rewritten(
    text: Seq<char>,
    output: Seq<char>,
    origin: Seq<char>,
    base: Seq<char>,
    secret: Seq<char>,
    id: Seq<char>,
    i: int,
)
    requires
        rewritten(lines(text), origin, base, secret, id) == Some(output),
        !base.contains('\n'),
        !id.contains('\n'),
        0 <= i < lines(text).len(),
    ensures
        lines(output).len() == lines(text).len(),
        blank(lines(text)[i]) ==> lines(output)[i] == Seq::<char>::empty(),
        forall|p: int| #[trigger]
            tag_at(lines(text)[i], p) && (forall|start: int, end: int|
                !#[trigger] value_at(lines(text)[i], "URI"@, start, end)) ==> lines(output)[i]
                == without_return(lines(text)[i]),
        forall|p: int, start: int, end: int|
            #![trigger tag_at(lines(text)[i], p), value_at(lines(text)[i], "URI"@, start, end)]
            tag_at(lines(text)[i], p) && value_at(lines(text)[i], "URI"@, start, end) ==> {
                let link = proxy_url_text(
                    base,
                    secret,
                    id,
                    url_joined(origin, lines(text)[i].subrange(start, end))->0,
                );
                &&& url_joined(origin, lines(text)[i].subrange(start, end)) is Some
                &&& lines(output)[i] == without_return(
                    lines(text)[i].take(start) + link + lines(text)[i].skip(end),
                )
            },
        forall|from: int, to: int| #[trigger]
            core_at(lines(text)[i], from, to) && lines(text)[i][from] != '#' ==> {
                &&& url_joined(origin, lines(text)[i].subrange(from, to)) is Some
                &&& lines(output)[i] == proxy_url_text(
                    base,
                    secret,
                    id,
                    url_joined(origin, lines(text)[i].subrange(from, to))->0,
                )
            },
{
    let list = lines(text);
    let raw = list[i];
    let new = lines(output)[i];
    assert forall|k: int| 0 <= k < list.len() implies !(#[trigger] list[k]).contains('\n') by {
        lemma_lines_whole(text, k);
    }
    lemma_rewritten_lines(list, origin, base, secret, id, i);
    let line = rewritten_line(raw, origin, base, secret, id)->0;
    assert(new == without_return(line));
    law_tag_line(raw);
    law_trimmed(raw);
    assert forall|p: int| #[trigger]
        tag_at(raw, p) && (forall|start: int, end: int|
            !#[trigger] value_at(raw, "URI"@, start, end)) implies new == without_return(raw) by {
        match value_span(raw, "URI"@) {
            Some((start, end)) => {
                law_value_span(raw, "URI"@, start, end);
                assert(value_at(raw, "URI"@, start, end));
            },
            None => {},
        }
    }
    assert forall|p: int, start: int, end: int|
        #![trigger tag_at(raw, p), value_at(raw, "URI"@, start, end)]
        tag_at(raw, p) && value_at(raw, "URI"@, start, end) implies ({
        let link = proxy_url_text(
            base,
            secret,
            id,
            url_joined(origin, raw.subrange(start, end))->0,
        );
        &&& url_joined(origin, raw.subrange(start, end)) is Some
        &&& new == without_return(raw.take(start) + link + raw.skip(end))
    }) by {
        law_value_span(raw, "URI"@, start, end);
    }
    assert forall|from: int, to: int| #[trigger]
        core_at(raw, from, to) && raw[from] != '#' implies ({
        &&& url_joined(origin, raw.subrange(from, to)) is Some
        &&& new == proxy_url_text(base, secret, id, url_joined(origin, raw.subrange(from, to))->0)
    }) by {
        law_trimmed_first(raw, from, to);
        let absolute = url_joined(origin, raw.subrange(from, to))->0;
        lemma_link_ends(base, secret, id, absolute);
    }
}

} // verus!
