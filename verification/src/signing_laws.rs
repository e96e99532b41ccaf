//! What signatures and signed links tell apart, and what they are made of.

use vstd::prelude::*;
use vstd::utf8::{encode_utf8, encode_utf8_decode_utf8, is_ascii_chars_encode_utf8};

use crate::encoding::{base64_url, hex_digit, lemma_six_bits_range, percent_encoded, unreserved};
use crate::relay::{proxies, relayed_channel, Task};
use crate::failure::AppError;
use crate::runtime::RuntimeView;
use crate::signing::{proxy_url_text, signature, signed_message};
use crate::text::white_space;

verus! {

/// The encoding of two texts one after the other.
proof fn lemma_encode_concat(a: Seq<char>, b: Seq<char>)
    ensures
        encode_utf8(a + b) == encode_utf8(a) + encode_utf8(b),
    decreases a.len(),
{
    if a.len() == 0 {
        assert(a + b =~= b);
        assert(encode_utf8(a) + encode_utf8(b) =~= encode_utf8(b));
    } else {
        assert((a + b).drop_first() =~= a.drop_first() + b);
        lemma_encode_concat(a.drop_first(), b);
        assert(encode_utf8(a + b) =~= encode_utf8(a) + encode_utf8(b));
    }
}

/// Different texts have different encodings.
pub proof fn lemma_encode_injective(a: Seq<char>, b: Seq<char>)
    requires
        encode_utf8(a) == encode_utf8(b),
    ensures
        a == b,
{
    encode_utf8_decode_utf8(a);
    encode_utf8_decode_utf8(b);
}

/// A signature covers the channel and the target: what is signed is the same for
/// no two pairs of them, as an identifier has no line feed.
pub proof fn law_signed_message_unambiguous(
    id: Seq<char>,
    target: Seq<char>,
    other_id: Seq<char>,
    other_target: Seq<char>,
)
    requires
        !id.contains('\n'),
        !other_id.contains('\n'),
        signed_message(id, target) == signed_message(other_id, other_target),
    ensures
        id == other_id,
        target == other_target,
{
    let feed = seq!['\n'];
    is_ascii_chars_encode_utf8(feed);
    assert(encode_utf8(feed) =~= seq![10u8]);
    lemma_encode_concat(id, feed);
    lemma_encode_concat(id + feed, target);
    lemma_encode_concat(other_id, feed);
    lemma_encode_concat(other_id + feed, other_target);
    let one = id + feed + target;
    let two = other_id + feed + other_target;
    lemma_encode_injective(one, two);
    if id.len() < other_id.len() {
        assert(one[id.len() as int] == '\n');
        assert(two[id.len() as int] == other_id[id.len() as int]);
        assert(other_id.contains(other_id[id.len() as int]));
    }
    if other_id.len() < id.len() {
        assert(two[other_id.len() as int] == '\n');
        assert(one[other_id.len() as int] == id[other_id.len() as int]);
        assert(id.contains(id[other_id.len() as int]));
    }
    assert(one.take(id.len() as int) =~= id);
    assert(two.take(id.len() as int) =~= other_id);
    assert(one.skip(id.len() as int + 1) =~= target);
    assert(two.skip(id.len() as int + 1) =~= other_target);
}

/// A request with the link that the service made for a target of a relayed
/// channel is admitted for this target.
pub proof fn law_signed_link_admitted(
    runtime: RuntimeView,
    secret: Seq<char>,
    id: Seq<char>,
    target: Seq<char>,
    r: Result<Task, AppError>,
)
    requires
        relayed_channel(runtime, id) is Some,
        proxies(runtime, secret, id, target, signature(secret, id, target), r),
    ensures
        r matches Ok(task) && task.target@ == target && relayed_channel(runtime, id) == Some(
            task.channel@,
        ),
{
}

/// A request that is admitted has the signature of the very channel and target
/// that it asks for.
pub proof fn law_admitted_is_signed(
    runtime: RuntimeView,
    secret: Seq<char>,
    id: Seq<char>,
    target: Seq<char>,
    given: Seq<char>,
    r: Result<Task, AppError>,
)
    requires
        proxies(runtime, secret, id, target, given, r),
        r is Ok,
    ensures
        given == signature(secret, id, target),
        relayed_channel(runtime, id) is Some,
        r matches Ok(task) && task.target@ == target,
{
}

/// The characters of a percent-encoded text.
pub open spec fn link_safe(c: char) -> bool {
    ||| '0' <= c <= '9'
    ||| 'A' <= c <= 'Z'
    ||| 'a' <= c <= 'z'
    ||| c == '-'
    ||| c == '.'
    ||| c == '_'
    ||| c == '~'
    ||| c == '%'
}

/// What stands for one byte in a percent-encoded text.
spec fn percent_byte(b: u8) -> Seq<char> {
    if unreserved(b) {
        seq![b as char]
    } else {
        seq!['%', hex_digit(b as int / 16, 'A'), hex_digit(b as int % 16, 'A')]
    }
}

/// A percent-encoded text has letters, digits and a few signs only, none of which
/// means anything in a query or a playlist line.
pub proof fn law_percent_encoded_safe(bytes: Seq<u8>)
    ensures
        forall|i: int|
            0 <= i < percent_encoded(bytes).len() ==> link_safe(
                #[trigger] percent_encoded(bytes)[i],
            ),
    decreases bytes.len(),
{
    if bytes.len() > 0 {
        let head = percent_encoded(bytes.drop_last());
        let tail = percent_byte(bytes.last());
        law_percent_encoded_safe(bytes.drop_last());
        assert(percent_encoded(bytes) == head + tail);
        assert forall|i: int| 0 <= i < percent_encoded(bytes).len() implies link_safe(
            #[trigger] percent_encoded(bytes)[i],
        ) by {
            if i < head.len() {
                assert(percent_encoded(bytes)[i] == head[i]);
            } else {
                assert(percent_encoded(bytes)[i] == tail[i - head.len()]);
            }
        }
    }
}

proof fn lemma_percent_first(bytes: Seq<u8>)
    requires
        bytes.len() > 0,
    ensures
        percent_encoded(bytes) == percent_byte(bytes[0]) + percent_encoded(bytes.drop_first()),
    decreases bytes.len(),
{
    if bytes.len() == 1 {
        assert(bytes.drop_last() =~= seq![]);
        assert(bytes.drop_first() =~= seq![]);
        assert(percent_encoded(bytes) =~= percent_byte(bytes[0]) + percent_encoded(
            bytes.drop_first(),
        ));
    } else {
        lemma_percent_first(bytes.drop_last());
        assert(bytes.drop_last().drop_first() =~= bytes.drop_first().drop_last());
        assert(percent_encoded(bytes) =~= percent_byte(bytes[0]) + percent_encoded(
            bytes.drop_first(),
        ));
    }
}

/// Different byte sequences have different percent-encoded forms.
pub proof fn law_percent_encoded_injective(a: Seq<u8>, b: Seq<u8>)
    requires
        percent_encoded(a) == percent_encoded(b),
    ensures
        a == b,
    decreases a.len(),
{
    if a.len() > 0 {
        lemma_percent_first(a);
    }
    if b.len() > 0 {
        lemma_percent_first(b);
    }
    if a.len() == 0 || b.len() == 0 {
        assert(percent_encoded(a).len() == percent_encoded(b).len());
        assert(a.len() > 0 ==> percent_encoded(a).len() > 0);
        assert(b.len() > 0 ==> percent_encoded(b).len() > 0);
        assert(a =~= b);
    } else {
        let x = percent_encoded(a);
        let y = percent_encoded(b);
        let p = percent_byte(a[0]);
        let q = percent_byte(b[0]);
        assert(x[0] == p[0]);
        assert(y[0] == q[0]);
        if !unreserved(a[0]) && !unreserved(b[0]) {
            assert(x[1] == p[1]);
            assert(y[1] == q[1]);
            assert(x[2] == p[2]);
            assert(y[2] == q[2]);
        }
        assert(a[0] == b[0]);
        assert(x.skip(p.len() as int) =~= percent_encoded(a.drop_first()));
        assert(y.skip(p.len() as int) =~= percent_encoded(b.drop_first()));
        law_percent_encoded_injective(a.drop_first(), b.drop_first());
        assert(a =~= seq![a[0]] + a.drop_first());
        assert(b =~= seq![b[0]] + b.drop_first());
    }
}

/// The signature of a link has letters, digits, `-` and `_` only.
pub proof fn law_signature_safe(secret: Seq<char>, id: Seq<char>, target: Seq<char>)
    ensures
        forall|i: int|
            0 <= i < signature(secret, id, target).len() ==> link_safe(
                #[trigger] signature(secret, id, target)[i],
            ),
{
    let code = crate::signing::hmac_sha256(encode_utf8(secret), signed_message(id, target));
    let text = base64_url(code);
    assert forall|i: int| 0 <= i < text.len() implies link_safe(#[trigger] text[i]) by {
        lemma_six_bits_range(code, i);
    }
}

/// A link holds no quote and no line break, unless the address of the service or
/// the identifier does.
pub proof fn law_link_plain(
    base: Seq<char>,
    secret: Seq<char>,
    id: Seq<char>,
    target: Seq<char>,
    c: char,
)
    requires
        c == '"' || c == '\n' || c == '\r',
        !base.contains(c),
        !id.contains(c),
    ensures
        !proxy_url_text(base, secret, id, target).contains(c),
{
    reveal_strlit("/proxy/");
    reveal_strlit("?u=");
    reveal_strlit("&s=");
    let encoded = percent_encoded(encode_utf8(target));
    let signed = signature(secret, id, target);
    law_percent_encoded_safe(encode_utf8(target));
    law_signature_safe(secret, id, target);
    let link = proxy_url_text(base, secret, id, target);
    let a = base.len() as int;
    let b = a + 7;
    let d = b + id.len();
    let e = d + 3;
    let f = e + encoded.len();
    let g = f + 3;
    assert forall|k: int| 0 <= k < link.len() implies link[k] != c by {
        if k < a {
            assert(link[k] == base[k]);
            assert(base.contains(base[k]));
        } else if k < b {
            assert(link[k] == "/proxy/"@[k - a]);
        } else if k < d {
            assert(link[k] == id[k - b]);
            assert(id.contains(id[k - b]));
        } else if k < e {
            assert(link[k] == "?u="@[k - d]);
        } else if k < f {
            assert(link[k] == encoded[k - e]);
        } else if k < g {
            assert(link[k] == "&s="@[k - f]);
        } else {
            assert(link[k] == signed[k - g]);
        }
    }
}

/// The ends of a link: it begins as the address of the service does, and does not
/// end in white space.
pub proof fn lemma_link_ends(
    base: Seq<char>,
    secret: Seq<char>,
    id: Seq<char>,
    target: Seq<char>,
)
    ensures
        proxy_url_text(base, secret, id, target).len() > base.len(),
        base.len() > 0 ==> proxy_url_text(base, secret, id, target)[0] == base[0],
        base.len() == 0 ==> proxy_url_text(base, secret, id, target)[0] == '/',
        !white_space(proxy_url_text(base, secret, id, target).last()),
{
    reveal_strlit("/proxy/");
    reveal_strlit("?u=");
    reveal_strlit("&s=");
    let signed = signature(secret, id, target);
    law_signature_safe(secret, id, target);
    let link = proxy_url_text(base, secret, id, target);
    let front = base + "/proxy/"@ + id + "?u="@ + percent_encoded(encode_utf8(target)) + "&s="@;
    assert(link =~= front + signed);
    assert(front.last() == "&s="@[2]);
    if signed.len() > 0 {
        assert(link.last() == signed[signed.len() - 1]);
    } else {
        assert(link.last() == front.last());
    }
    if base.len() == 0 {
        assert(link[0] == "/proxy/"@[0]);
    }
}

} // verus!
