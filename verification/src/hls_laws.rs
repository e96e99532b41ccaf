//! What a rewritten HLS playlist refers to.

use vstd::prelude::*;

use crate::attribute_laws::{lemma_value_in_place, lemma_value_span};
use crate::attributes::{attribute_value, opening, value_span};
use crate::hls::{reference, rewritten, rewritten_line, tag_line, with_link};
use crate::searching::{
    lemma_find_char, lemma_find_left, lemma_lines_push, lemma_lines_whole, lemma_occurs_chars,
    lemma_occurs_left,
};
use crate::signing::proxy_url_text;
use crate::signing_laws::{law_link_plain, lemma_link_ends};
use crate::text::{find, lemma_find, lines, trim_end, trimmed, white_space, without_return};
use crate::weburl::url_joined;

verus! {

/// A text that begins with something else than white space keeps its beginning
/// when its end is trimmed.
proof fn lemma_trim_end_first(s: Seq<char>)
    requires
        s.len() > 0,
        !white_space(s[0]),
    ensures
        trim_end(s).len() > 0,
        trim_end(s)[0] == s[0],
    decreases s.len(),
{
    if white_space(s.last()) {
        lemma_trim_end_first(s.drop_last());
    }
}

/// The first character of a trimmed text is its first that is not white space.
proof fn lemma_trimmed_first(s: Seq<char>, p: int)
    requires
        0 <= p < s.len(),
        !white_space(s[p]),
        forall|j: int| 0 <= j < p ==> white_space(#[trigger] s[j]),
    ensures
        trimmed(s).len() > 0,
        trimmed(s)[0] == s[p],
    decreases p,
{
    if p == 0 {
        lemma_trim_end_first(s);
    } else {
        assert forall|j: int| 0 <= j < p - 1 implies white_space(#[trigger] s.drop_first()[j]) by {
            assert(s.drop_first()[j] == s[j + 1]);
        }
        assert(white_space(s[0]));
        lemma_trimmed_first(s.drop_first(), p - 1);
    }
}

/// The place of the first character that trimming keeps.
proof fn lemma_trimmed_from(s: Seq<char>) -> (p: int)
    requires
        trimmed(s).len() > 0,
    ensures
        0 <= p < s.len(),
        !white_space(s[p]),
        forall|j: int| 0 <= j < p ==> white_space(#[trigger] s[j]),
        trimmed(s)[0] == s[p],
    decreases s.len(),
{
    if s.len() > 0 && white_space(s[0]) {
        let q = lemma_trimmed_from(s.drop_first());
        assert(s.drop_first()[q] == s[q + 1]);
        assert forall|j: int| 0 <= j < q + 1 implies white_space(#[trigger] s[j]) by {
            if j > 0 {
                assert(s.drop_first()[j - 1] == s[j]);
            }
        }
        q + 1
    } else {
        if s.len() > 0 {
            lemma_trim_end_first(s);
        }
        0
    }
}

/// A carriage return at the end is trimmed.
proof fn lemma_trimmed_return(s: Seq<char>)
    requires
        s.len() > 0,
        s.last() == '\r',
    ensures
        trimmed(s) == trimmed(s.drop_last()),
    decreases s.len(),
{
    if white_space(s[0]) {
        if s.len() == 1 {
            assert(s.drop_first() =~= s.drop_last());
        } else {
            assert(s.drop_first().drop_last() =~= s.drop_last().drop_first());
            lemma_trimmed_return(s.drop_first());
            assert(s.drop_last()[0] == s[0]);
        }
    } else {
        assert(s.len() > 1);
        assert(s.drop_last()[0] == s[0]);
    }
}

/// A carriage return at the end plays no part in an attribute.
proof fn lemma_value_return(s: Seq<char>, name: Seq<char>)
    requires
        s.len() > 0,
        s.last() == '\r',
    ensures
        attribute_value(s, name) == attribute_value(s.drop_last(), name),
{
    let x = s.drop_last();
    let end = seq!['\r'];
    let pat = opening(name);
    reveal_strlit("=\"");
    assert(x + end =~= s);
    lemma_find(x, pat);
    lemma_find(s, pat);
    match find(x, pat) {
        Some(at) => {
            lemma_find_left(x, end, pat);
            let start = at + pat.len();
            assert(x.skip(start) + end =~= s.skip(start));
            match find(x.skip(start), seq!['"']) {
                Some(length) => {
                    lemma_find_char(x.skip(start), '"');
                    lemma_find_left(x.skip(start), end, seq!['"']);
                    assert(s.subrange(start, start + length) =~= x.subrange(start, start + length));
                },
                None => {
                    lemma_find_char(x.skip(start), '"');
                    lemma_find_char(s.skip(start), '"');
                    if s.skip(start).contains('"') {
                        let k = choose|k: int|
                            0 <= k < s.skip(start).len() && s.skip(start)[k] == '"';
                        assert(x.skip(start)[k] == '"');
                    }
                },
            }
        },
        None => {
            match find(s, pat) {
                Some(at) => {
                    lemma_occurs_chars(s, pat, at);
                    assert(pat[pat.len() - 1] == s[at + (pat.len() - 1)]);
                    lemma_occurs_left(x, end, pat, at);
                },
                None => {},
            }
        },
    }
}

/// A carriage return at the end plays no part in what a line refers to.
proof fn lemma_reference_return(s: Seq<char>)
    ensures
        reference(without_return(s)) == reference(s),
{
    if s.len() > 0 && s.last() == '\r' {
        lemma_trimmed_return(s);
        lemma_value_return(s, "URI"@);
    }
}

/// A text that begins and ends with something else than white space is what it
/// is when trimmed.
proof fn lemma_trimmed_already(s: Seq<char>)
    requires
        s.len() > 0,
        !white_space(s[0]),
        !white_space(s.last()),
    ensures
        trimmed(s) == s,
{
}

/// Where a line has a link in place of its reference, it refers to the link.
pub proof fn law_link_is_read_back(raw: Seq<char>, link: Seq<char>)
    requires
        reference(raw) is Some,
        link.len() > 0,
        link[0] != '#',
        !white_space(link[0]),
        !white_space(link.last()),
        !link.contains('"'),
    ensures
        reference(with_link(raw, link)) == Some(link),
{
    let line = with_link(raw, link);
    if tag_line(raw) {
        let (start, end) = value_span(raw, "URI"@)->0;
        lemma_value_span(raw, "URI"@);
        lemma_value_in_place(raw, "URI"@, link, seq![]);
        assert(line + Seq::<char>::empty() =~= line);
        let at = start - opening("URI"@).len();
        lemma_occurs_chars(raw, opening("URI"@), at);
        reveal_strlit("URI");
        reveal_strlit("=\"");
        assert(opening("URI"@)[0] == raw[at + 0]);
        let p = lemma_trimmed_from(raw);
        assert(p < at) by {
            if p > at {
                assert(white_space(raw[at]));
            }
        }
        assert forall|j: int| 0 <= j < p implies white_space(#[trigger] line[j]) by {
            assert(line[j] == raw[j]);
        }
        assert(line[p] == raw[p]);
        lemma_trimmed_first(line, p);
    } else {
        lemma_trimmed_already(link);
    }
}

/// The lines that are written for the lines of a playlist.
#[verifier::opaque]
spec fn new_lines(
    list: Seq<Seq<char>>,
    origin: Seq<char>,
    base: Seq<char>,
    secret: Seq<char>,
    id: Seq<char>,
) -> Seq<Seq<char>> {
    list.map_values(|raw: Seq<char>| rewritten_line(raw, origin, base, secret, id)->0)
}

/// The lines of a playlist as one text.
spec fn text_of(list: Seq<Seq<char>>) -> Seq<char>
    decreases list.len(),
{
    if list.len() == 0 {
        seq![]
    } else {
        (text_of(list.drop_last()) + list.last()).push('\n')
    }
}

/// The lines of a text made of lines.
proof fn lemma_text_of_lines(list: Seq<Seq<char>>)
    requires
        forall|i: int| 0 <= i < list.len() ==> !(#[trigger] list[i]).contains('\n'),
    ensures
        text_of(list).len() > 0 ==> text_of(list).last() == '\n',
        lines(text_of(list)).len() == list.len(),
        forall|i: int|
            0 <= i < list.len() ==> #[trigger] lines(text_of(list))[i] == without_return(list[i]),
    decreases list.len(),
{
    if list.len() == 0 {
        lemma_find_char(text_of(list), '\n');
    } else {
        let front = list.drop_last();
        assert forall|i: int| 0 <= i < front.len() implies !(#[trigger] front[i]).contains(
            '\n',
        ) by {
            assert(front[i] == list[i]);
        }
        lemma_text_of_lines(front);
        assert(!list[list.len() - 1].contains('\n'));
        lemma_lines_push(text_of(front), list.last());
        assert forall|i: int| 0 <= i < list.len() implies #[trigger] lines(text_of(list))[i]
            == without_return(list[i]) by {
            if i < front.len() {
                assert(front[i] == list[i]);
                assert(lines(text_of(list))[i] == lines(text_of(front))[i]);
            }
        }
    }
}

/// A rewritten playlist is made of the rewritten lines.
proof fn lemma_rewritten_text(
    list: Seq<Seq<char>>,
    origin: Seq<char>,
    base: Seq<char>,
    secret: Seq<char>,
    id: Seq<char>,
)
    requires
        rewritten(list, origin, base, secret, id) is Some,
    ensures
        rewritten(list, origin, base, secret, id) == Some(
            text_of(new_lines(list, origin, base, secret, id)),
        ),
        forall|i: int|
            0 <= i < list.len() ==> rewritten_line(
                #[trigger] list[i],
                origin,
                base,
                secret,
                id,
            ) is Some,
    decreases list.len(),
{
    reveal(new_lines);
    if list.len() > 0 {
        let front = list.drop_last();
        lemma_rewritten_text(front, origin, base, secret, id);
        assert(new_lines(list, origin, base, secret, id).drop_last() =~= new_lines(
            front,
            origin,
            base,
            secret,
            id,
        ));
        assert forall|i: int| 0 <= i < list.len() implies rewritten_line(
            #[trigger] list[i],
            origin,
            base,
            secret,
            id,
        ) is Some by {
            if i < front.len() {
                assert(front[i] == list[i]);
            }
        }
    } else {
        assert(new_lines(list, origin, base, secret, id) =~= seq![]);
    }
}

/// The lines of a rewritten playlist are the rewritten lines.
pub proof fn lemma_rewritten_lines(
    list: Seq<Seq<char>>,
    origin: Seq<char>,
    base: Seq<char>,
    secret: Seq<char>,
    id: Seq<char>,
    i: int,
)
    requires
        rewritten(list, origin, base, secret, id) is Some,
        forall|k: int| 0 <= k < list.len() ==> !(#[trigger] list[k]).contains('\n'),
        !base.contains('\n'),
        !id.contains('\n'),
    ensures
        ({
            let output = rewritten(list, origin, base, secret, id)->0;
            &&& lines(output).len() == list.len()
            &&& 0 <= i < list.len() ==> {
                &&& rewritten_line(list[i], origin, base, secret, id) is Some
                &&& lines(output)[i] == without_return(
                    rewritten_line(list[i], origin, base, secret, id)->0,
                )
            }
        }),
{
    let news = new_lines(list, origin, base, secret, id);
    lemma_rewritten_text(list, origin, base, secret, id);
    assert(news.len() == list.len()) by {
        reveal(new_lines);
    }
    assert forall|k: int| 0 <= k < news.len() implies !(#[trigger] news[k]).contains('\n') by {
        reveal(new_lines);
        assert(!list[k].contains('\n'));
        lemma_rewritten_line_whole(list[k], origin, base, secret, id);
    }
    lemma_text_of_lines(news);
    if 0 <= i < list.len() {
        reveal(new_lines);
        assert(lines(text_of(news))[i] == without_return(news[i]));
    }
}

/// A rewritten line is one line.
proof fn lemma_rewritten_line_whole(
    raw: Seq<char>,
    origin: Seq<char>,
    base: Seq<char>,
    secret: Seq<char>,
    id: Seq<char>,
)
    requires
        rewritten_line(raw, origin, base, secret, id) is Some,
        !raw.contains('\n'),
        !base.contains('\n'),
        !id.contains('\n'),
    ensures
        !(rewritten_line(raw, origin, base, secret, id)->0).contains('\n'),
{
    let line = rewritten_line(raw, origin, base, secret, id)->0;
    let link = match reference(raw) {
        None => Seq::<char>::empty(),
        Some(target) => {
            let absolute = url_joined(origin, target)->0;
            law_link_plain(base, secret, id, absolute, '\n');
            proxy_url_text(base, secret, id, absolute)
        },
    };
    assert(line == with_link(raw, link));
    assert(!link.contains('\n'));
    lemma_value_span(raw, "URI"@);
    if line.contains('\n') {
        let k = choose|k: int| 0 <= k < line.len() && line[k] == '\n';
        if tag_line(raw) {
            match value_span(raw, "URI"@) {
                Some((start, end)) => {
                    if k < start {
                        assert(raw[k] == '\n');
                    } else if k < start + link.len() {
                        assert(link[k - start] == '\n');
                    } else {
                        assert(raw[k - start - link.len() + end] == '\n');
                    }
                },
                None => {},
            }
        }
    }
}

/// A playlist is rewritten line by line, and every address in it becomes the
/// signed link to what the address means at the origin; nothing else in it
/// becomes one.
///
/// The address of the service has no quote and no line break, and does not begin
/// like a tag or with white space; the identifier has no quote and no line break.
pub proof fn law_playlist_goes_through_service(
    text: Seq<char>,
    origin: Seq<char>,
    base: Seq<char>,
    secret: Seq<char>,
    id: Seq<char>,
)
    requires
        rewritten(lines(text), origin, base, secret, id) is Some,
        !base.contains('"') && !base.contains('\n'),
        !id.contains('"') && !id.contains('\n'),
        base.len() > 0 ==> base[0] != '#' && !white_space(base[0]),
    ensures
        ({
            let output = rewritten(lines(text), origin, base, secret, id)->0;
            &&& lines(output).len() == lines(text).len()
            &&& forall|i: int|
                0 <= i < lines(text).len() ==> reference(#[trigger] lines(output)[i])
                    == match reference(lines(text)[i]) {
                    None => None,
                    Some(target) => match url_joined(origin, target) {
                        None => None,
                        Some(absolute) => Some(proxy_url_text(base, secret, id, absolute)),
                    },
                }
            &&& forall|i: int|
                0 <= i < lines(text).len() ==> (reference(#[trigger] lines(text)[i]) matches Some(
                    target,
                ) ==> url_joined(origin, target) is Some)
        }),
{
    let list = lines(text);
    let output = rewritten(list, origin, base, secret, id)->0;
    assert forall|i: int| 0 <= i < list.len() implies !(#[trigger] list[i]).contains('\n') by {
        lemma_lines_whole(text, i);
    }
    lemma_rewritten_lines(list, origin, base, secret, id, 0);
    assert forall|i: int| 0 <= i < list.len() implies reference(#[trigger] lines(output)[i])
        == match reference(list[i]) {
        None => None,
        Some(target) => match url_joined(origin, target) {
            None => None,
            Some(absolute) => Some(proxy_url_text(base, secret, id, absolute)),
        },
    } && (reference(list[i]) matches Some(target) ==> url_joined(origin, target) is Some) by {
        let raw = list[i];
        let line = rewritten_line(raw, origin, base, secret, id)->0;
        lemma_rewritten_lines(list, origin, base, secret, id, i);
        lemma_reference_return(line);
        match reference(raw) {
            Some(target) => {
                let absolute = url_joined(origin, target)->0;
                let link = proxy_url_text(base, secret, id, absolute);
                law_link_plain(base, secret, id, absolute, '"');
                lemma_link_ends(base, secret, id, absolute);
                law_link_is_read_back(raw, link);
            },
            None => {
                if !tag_line(raw) {
                    assert(trimmed(Seq::<char>::empty()) =~= seq![]);
                }
            },
        }
    }
    assert forall|i: int| 0 <= i < list.len() implies (reference(#[trigger] list[i]) matches Some(
        target,
    ) ==> url_joined(origin, target) is Some) by {
        assert(lines(output)[i] == lines(output)[i]);
    }
}

} // verus!
