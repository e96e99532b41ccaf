//! What the list says of every channel, told from the channel alone.

use vstd::prelude::*;

use crate::attributes::with_attribute;
use crate::listing::{heading, list_text, listed_address, listed_info, service_address};
use crate::listing_laws::{addresses, infos, law_list_lines};
use crate::model::{ChannelView, Mode};
use crate::searching::{lemma_occurs_chars, lemma_occurs_left};
use crate::text::{
    begins_with, has_text, joined, lines, occurs_at, without_return, without_trailing,
};
use crate::text_laws::law_without_trailing;
use crate::value_laws::{
    first_comma, law_set_adds_before_comma, law_set_without_comma, replay_value_at, unread,
    value_at,
};

verus! {

/// Every relayed channel is listed with the address of its live stream at the
/// service, and every direct one with its own address, whether or not it can be
/// replayed.
pub proof fn law_listed_address(channel: ChannelView, base: Seq<char>)
    ensures
        channel.mode == Mode::Proxy ==> listed_address(channel, base) == base + "/live/"@
            + channel.id,
        channel.mode == Mode::Direct ==> listed_address(channel, base) == channel.url,
{
}

/// The list up to a channel goes on with the two lines of the channel: its
/// description, and the address of its live stream at the service or its own
/// address. Nothing stands between the channels, and they keep their order.
pub proof fn law_channel_in_list(
    guides: Seq<Seq<char>>,
    channels: Seq<ChannelView>,
    base: Seq<char>,
    i: int,
)
    requires
        0 <= i < channels.len(),
    ensures
        ({
            let front = list_text(guides, channels.take(i), base);
            let upto = list_text(guides, channels.take(i + 1), base);
            let info = listed_info(channels[i], base);
            &&& channels[i].mode == Mode::Proxy ==> upto == front + info + "\n"@ + (base
                + "/live/"@ + channels[i].id) + "\n"@
            &&& channels[i].mode == Mode::Direct ==> upto == front + info + "\n"@
                + channels[i].url + "\n"@
            &&& begins_with(list_text(guides, channels, base), upto)
        }),
{
    assert(channels.take(i + 1).drop_last() =~= channels.take(i));
    assert(channels.take(i + 1).last() == channels[i]);
    lemma_two_lines_behind(
        list_text(guides, channels.take(i), base),
        listed_info(channels[i], base),
        listed_address(channels[i], base),
        "\n"@,
    );
    lemma_list_begins(guides, channels, base, i + 1);
}

proof fn lemma_two_lines_behind(
    front: Seq<char>,
    info: Seq<char>,
    address: Seq<char>,
    feed: Seq<char>,
)
    ensures
        front + (info + feed + address + feed) == front + info + feed + address + feed,
{
    assert(front + (info + feed + address + feed) =~= front + info + feed + address + feed);
}

proof fn lemma_list_begins(
    guides: Seq<Seq<char>>,
    channels: Seq<ChannelView>,
    base: Seq<char>,
    n: int,
)
    requires
        0 <= n <= channels.len(),
    ensures
        begins_with(
            list_text(guides, channels, base),
            list_text(guides, channels.take(n), base),
        ),
    decreases channels.len(),
{
    let whole = list_text(guides, channels, base);
    let part = list_text(guides, channels.take(n), base);
    if n == channels.len() {
        assert(channels.take(n) =~= channels);
        assert(whole.take(whole.len() as int) =~= whole);
    } else {
        let front = channels.drop_last();
        lemma_list_begins(guides, front, base, n);
        assert(front.take(n) =~= channels.take(n));
        assert(whole.take(part.len() as int) =~= list_text(guides, front, base).take(
            part.len() as int,
        ));
    }
}

/// The list without channels is its first line, which names the programme guides
/// if there are any.
pub proof fn law_list_without_channels(guides: Seq<Seq<char>>, base: Seq<char>)
    ensures
        guides.len() == 0 ==> list_text(guides, seq![], base) == "#EXTM3U"@ + "\n"@,
        guides.len() > 0 ==> list_text(guides, seq![], base) == "#EXTM3U"@ + " x-tvg-url=\""@
            + joined(guides, ","@) + "\""@ + "\n"@,
        heading(guides) == list_text(guides, seq![], base),
{
}

/// In the lines of the list the address of every relayed channel is that of its
/// live stream at the service, and that of every direct one its own.
pub proof fn law_address_lines(
    guides: Seq<Seq<char>>,
    channels: Seq<ChannelView>,
    base: Seq<char>,
    i: int,
)
    requires
        !joined(guides, ","@).contains('\n'),
        forall|k: int|
            0 <= k < channels.len() ==> !(#[trigger] infos(channels, base)[k]).contains('\n'),
        forall|k: int|
            0 <= k < channels.len() ==> !(#[trigger] addresses(channels, base)[k]).contains('\n'),
        0 <= i < channels.len(),
    ensures
        lines(list_text(guides, channels, base)).len() == 1 + 2 * channels.len(),
        channels[i].mode == Mode::Proxy ==> lines(list_text(guides, channels, base))[2 + 2 * i]
            == without_return(base + "/live/"@ + channels[i].id),
        channels[i].mode == Mode::Direct ==> lines(list_text(guides, channels, base))[2 + 2 * i]
            == without_return(channels[i].url),
        lines(list_text(guides, channels, base))[1 + 2 * i] == without_return(
            listed_info(channels[i], base),
        ),
{
    law_list_lines(guides, channels, base);
    assert(infos(channels, base)[i] == listed_info(channels[i], base));
    assert(addresses(channels, base)[i] == listed_address(channels[i], base));
    law_listed_address(channels[i], base);
}

/// The description of a channel in the list is that of its source with the name of
/// the source and the way of playing set; for a relayed channel that can be
/// replayed, the replay is set before to the one through the service.
pub proof fn law_listed_info(channel: ChannelView, base: Seq<char>)
    ensures
        channel.mode == Mode::Direct ==> listed_info(channel, base) == with_attribute(
            with_attribute(channel.extinf, "source-name"@, channel.source_name),
            "access-mode"@,
            "direct"@,
        ),
        channel.mode == Mode::Proxy && channel.catchup is None ==> listed_info(channel, base)
            == with_attribute(
            with_attribute(channel.extinf, "source-name"@, channel.source_name),
            "access-mode"@,
            "proxy"@,
        ),
        channel.mode == Mode::Proxy && channel.catchup is Some ==> listed_info(channel, base)
            == with_attribute(
            with_attribute(
                with_attribute(
                    with_attribute(channel.extinf, "catchup"@, "default"@),
                    "catchup-source"@,
                    base + "/catchup/"@ + channel.id
                        + "?start=${(b)timestamp}&end=${(e)timestamp}"@,
                ),
                "source-name"@,
                channel.source_name,
            ),
            "access-mode"@,
            "proxy"@,
        ),
{
}

/// A description without a comma is listed as it is.
pub proof fn law_info_without_comma(channel: ChannelView, base: Seq<char>)
    requires
        !channel.extinf.contains(','),
    ensures
        listed_info(channel, base) == channel.extinf,
{
    let line = channel.extinf;
    law_set_without_comma(line, "catchup"@, "default"@);
    law_set_without_comma(
        line,
        "catchup-source"@,
        base + "/catchup/"@ + channel.id + "?start=${(b)timestamp}&end=${(e)timestamp}"@,
    );
    law_set_without_comma(line, "source-name"@, channel.source_name);
    law_set_without_comma(line, "access-mode"@, "direct"@);
    law_set_without_comma(line, "access-mode"@, "proxy"@);
    law_listed_info(channel, base);
}

/// A name that is written into a line as it is.
pub open spec fn simple(name: Seq<char>) -> bool {
    !name.contains('"') && !name.contains(',') && !name.contains('=')
}

/// The description of a channel whose replay the service leaves alone is listed
/// whole: the name of the source and the way of playing are written right before
/// its first comma, and everything in it stays, the name of the channel behind the
/// comma too.
pub proof fn law_info_listed_whole(channel: ChannelView, base: Seq<char>, comma: int)
    requires
        channel.mode == Mode::Direct || channel.catchup is None,
        first_comma(channel.extinf, comma),
        forall|start: int, end: int| #[trigger]
            replay_value_at(channel.extinf, start, end) ==> !(start <= comma < end),
        unread(channel.extinf.take(comma), "source-name"@),
        !has_text(channel.extinf.take(comma), "access-mode=\""@),
        simple(channel.source_name),
    ensures
        channel.mode == Mode::Direct ==> listed_info(channel, base) == channel.extinf.take(comma)
            + " source-name=\""@ + channel.source_name + "\" access-mode=\"direct\""@
            + channel.extinf.skip(comma),
        channel.mode == Mode::Proxy ==> listed_info(channel, base) == channel.extinf.take(comma)
            + " source-name=\""@ + channel.source_name + "\" access-mode=\"proxy\""@
            + channel.extinf.skip(comma),
{
    let line = channel.extinf;
    let name = channel.source_name;
    law_listed_info(channel, base);
    lemma_source_written(line, name, comma);
    lemma_named_comma(line, name, comma);
    lemma_access_written(line.take(comma), name, line.skip(comma), "direct"@);
    lemma_access_written(line.take(comma), name, line.skip(comma), "proxy"@);
    lemma_access_texts(line.take(comma), name, line.skip(comma));
}

/// Where the name of the source is written.
proof fn lemma_source_written(line: Seq<char>, name: Seq<char>, comma: int)
    requires
        first_comma(line, comma),
        forall|start: int, end: int| #[trigger]
            replay_value_at(line, start, end) ==> !(start <= comma < end),
        unread(line.take(comma), "source-name"@),
    ensures
        with_attribute(line, "source-name"@, name) == line.take(comma) + (" source-name=\""@ + name
            + "\""@) + line.skip(comma),
{
    law_set_adds_before_comma(line, "source-name"@, name, comma);
    reveal_strlit(" ");
    reveal_strlit("=\"");
    reveal_strlit("source-name");
    reveal_strlit(" source-name=\"");
    assert(" source-name=\""@ =~= " "@ + "source-name"@ + "=\""@);
    assert(line.take(comma) + " "@ + "source-name"@ + "=\""@ + name + "\""@ + line.skip(comma)
        =~= line.take(comma) + (" source-name=\""@ + name + "\""@) + line.skip(comma));
}

/// Where the way of playing is written behind the name of the source.
proof fn lemma_access_written(text: Seq<char>, name: Seq<char>, rest: Seq<char>, access: Seq<char>)
    requires
        !has_text(text, "access-mode=\""@),
        simple(name),
        first_comma(
            text + (" source-name=\""@ + name + "\""@) + rest,
            (text.len() + (" source-name=\""@ + name + "\""@).len()) as int,
        ),
    ensures
        with_attribute(
            text + (" source-name=\""@ + name + "\""@) + rest,
            "access-mode"@,
            access,
        ) == text + (" source-name=\""@ + name + "\""@) + " "@ + "access-mode"@ + "=\""@ + access
            + "\""@ + rest,
{
    let added = " source-name=\""@ + name + "\""@;
    let named = text + added + rest;
    let second = (text.len() + added.len()) as int;
    assert(named.take(second) =~= text + added);
    assert(named.skip(second) =~= rest);
    assert(unread(named.take(second), "access-mode"@)) by {
        assert forall|start: int, end: int| !#[trigger] value_at(
            named.take(second),
            "access-mode"@,
            start,
            end,
        ) by {
            reveal_strlit("=\"");
            reveal_strlit("access-mode");
            reveal_strlit("access-mode=\"");
            assert("access-mode"@ + "=\""@ =~= "access-mode=\""@);
            lemma_access_unopened(text, name, start - 13);
        }
    }
    assert forall|start: int, end: int| #[trigger]
        replay_value_at(named, start, end) implies !(start <= second < end) by {
        reveal_strlit("\"");
        assert(named[second - 1] == '"');
        lemma_no_replay_ending(text, name, rest);
    }
    law_set_adds_before_comma(named, "access-mode"@, access, second);
}

proof fn lemma_access_texts(text: Seq<char>, name: Seq<char>, rest: Seq<char>)
    ensures
        text + (" source-name=\""@ + name + "\""@) + " "@ + "access-mode"@ + "=\""@ + "direct"@
            + "\""@ + rest == text + " source-name=\""@ + name + "\" access-mode=\"direct\""@
            + rest,
        text + (" source-name=\""@ + name + "\""@) + " "@ + "access-mode"@ + "=\""@ + "proxy"@
            + "\""@ + rest == text + " source-name=\""@ + name + "\" access-mode=\"proxy\""@ + rest,
{
    reveal_strlit(" ");
    reveal_strlit("=\"");
    reveal_strlit("\"");
    reveal_strlit("access-mode");
    reveal_strlit("\" access-mode=\"direct\"");
    reveal_strlit("\" access-mode=\"proxy\"");
    reveal_strlit("direct");
    reveal_strlit("proxy");
    let one = "\""@ + " "@ + "access-mode"@ + "=\""@ + "direct"@ + "\""@;
    let two = "\""@ + " "@ + "access-mode"@ + "=\""@ + "proxy"@ + "\""@;
    assert(one =~= "\" access-mode=\"direct\""@);
    assert(two =~= "\" access-mode=\"proxy\""@);
    let front = " source-name=\""@;
    lemma_regrouped(text, front, name, "\""@, " "@, "access-mode"@, "=\""@, "direct"@, rest);
    lemma_regrouped(text, front, name, "\""@, " "@, "access-mode"@, "=\""@, "proxy"@, rest);
}

proof fn lemma_regrouped(
    text: Seq<char>,
    front: Seq<char>,
    name: Seq<char>,
    quote: Seq<char>,
    space: Seq<char>,
    mode: Seq<char>,
    opened: Seq<char>,
    access: Seq<char>,
    rest: Seq<char>,
)
    ensures
        text + (front + name + quote) + space + mode + opened + access + quote + rest == text
            + front + name + (quote + space + mode + opened + access + quote) + rest,
{
    assert(text + (front + name + quote) + space + mode + opened + access + quote + rest =~= text
        + front + name + (quote + space + mode + opened + access + quote) + rest);
}

proof fn lemma_named_comma(line: Seq<char>, name: Seq<char>, comma: int)
    requires
        first_comma(line, comma),
        simple(name),
    ensures
        ({
            let added = " source-name=\""@ + name + "\""@;
            first_comma(line.take(comma) + added + line.skip(comma), comma + added.len())
        }),
{
    reveal_strlit(" source-name=\"");
    reveal_strlit("\"");
    let front = " source-name=\""@;
    let added = front + name + "\""@;
    let named = line.take(comma) + added + line.skip(comma);
    assert forall|j: int| 0 <= j < comma + added.len() implies #[trigger] named[j] != ',' by {
        if j < comma {
            assert(named[j] == line[j]);
        } else if j < comma + front.len() {
            assert(named[j] == front[j - comma]);
        } else if j < comma + front.len() + name.len() {
            assert(named[j] == name[j - comma - front.len()]);
            assert(name.contains(named[j]));
        }
    }
    assert(named[comma + added.len()] == line[comma]);
}

/// The way of playing is opened neither in a text in which it is not, nor in the
/// name that is added behind it.
proof fn lemma_access_unopened(text: Seq<char>, name: Seq<char>, i: int)
    requires
        !has_text(text, "access-mode=\""@),
        simple(name),
    ensures
        !occurs_at(text + (" source-name=\""@ + name + "\""@), "access-mode=\""@, i),
{
    reveal_strlit(" source-name=\"");
    reveal_strlit("\"");
    reveal_strlit("access-mode=\"");
    let pat = "access-mode=\""@;
    let front = " source-name=\""@;
    let added = front + name + "\""@;
    let s = text + added;
    let n = text.len() as int;
    if occurs_at(s, pat, i) {
        lemma_occurs_chars(s, pat, i);
        if i + 13 <= n {
            lemma_occurs_left(text, added, pat, i);
        } else if i <= n {
            assert(s[n] == ' ');
            assert(pat[n - i] == s[i + (n - i)]);
        } else {
            // The `=` of the pattern lies in what is added.
            let e = i + 11;
            assert(pat[11] == s[i + 11]);
            assert(pat[12] == s[i + 12]);
            assert(pat[0] == s[i + 0]);
            let k = e - n;
            if k < front.len() {
                assert(s[e] == front[k]);
                assert(k == 12);
                assert(s[i] == front[1]);
            } else if k < front.len() + name.len() {
                assert(s[e] == name[k - front.len()]);
                assert(name.contains(s[e]));
            } else {
                assert(s[e] == '"');
            }
        }
    }
}

/// No replay attribute is opened by the quote behind the name.
proof fn lemma_no_replay_ending(text: Seq<char>, name: Seq<char>, rest: Seq<char>)
    requires
        simple(name),
    ensures
        ({
            let added = " source-name=\""@ + name + "\""@;
            let s = text + added + rest;
            let n = text.len() + added.len();
            !occurs_at(s, "catchup=\""@, n - 9) && !occurs_at(s, "catchup-source=\""@, n - 16)
        }),
{
    reveal_strlit(" source-name=\"");
    reveal_strlit("\"");
    reveal_strlit("catchup=\"");
    reveal_strlit("catchup-source=\"");
    let front = " source-name=\""@;
    let added = front + name + "\""@;
    let s = text + added + rest;
    let n = text.len() + added.len();
    lemma_occurs_chars(s, "catchup=\""@, n - 9);
    lemma_occurs_chars(s, "catchup-source=\""@, n - 16);
    if occurs_at(s, "catchup=\""@, n - 9) {
        assert("catchup=\""@[7] == s[n - 9 + 7]);
    }
    if occurs_at(s, "catchup-source=\""@, n - 16) {
        assert("catchup-source=\""@[14] == s[n - 16 + 14]);
    }
    if name.len() > 0 {
        assert(s[n - 2] == name[name.len() - 1]);
        assert(name.contains(name[name.len() - 1]));
    } else {
        assert(s[n - 2] == front[13]);
    }
}

/// Players reach the service under the configured address without the slashes at
/// its end, or else under the host that they name, or else on this machine.
pub proof fn law_service_address(base: Seq<char>, host: Seq<char>)
    ensures
        service_address(None, Some(host)) == "http://"@ + host,
        service_address(None, None) == "http://"@ + "127.0.0.1:8787"@,
        ({
            let r = service_address(Some(base), Some(host));
            &&& service_address(Some(base), None) == r
            &&& r.len() <= base.len() && base.take(r.len() as int) == r
            &&& forall|k: int| r.len() <= k < base.len() ==> #[trigger] base[k] == '/'
            &&& r.len() > 0 ==> r.last() != '/'
        }),
{
    law_without_trailing(base, '/');
    assert(service_address(Some(base), Some(host)) == without_trailing(base, '/'));
}

} // verus!
