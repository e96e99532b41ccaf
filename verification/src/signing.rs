//! Identifiers, signatures and the signed links of relayed media.

use vstd::prelude::*;
use vstd::utf8::encode_utf8;

use crate::encoding::{
    base64_url, encode_base64_url, encode_percent, hex, lemma_hex_shape, percent_encoded, push_hex,
};

verus! {

/// The SHA-256 digest of a byte sequence, as `sha2::Sha256::digest` computes it.
pub uninterp spec fn sha256(bytes: Seq<u8>) -> Seq<u8>;

/// The HMAC of a message with SHA-256, as `hmac::Hmac<sha2::Sha256>` computes it.
pub uninterp spec fn hmac_sha256(key: Seq<u8>, message: Seq<u8>) -> Seq<u8>;

/// Calls `sha2::Sha256::digest`. The digest, named `sha256`, has 32 bytes.
#[verifier::external_body]
fn digest_sha256(bytes: &[u8]) -> (r: Vec<u8>)
    ensures
        r@ == sha256(bytes@),
        r@.len() == 32,
{
    <sha2::Sha256 as sha2::Digest>::digest(bytes).to_vec()
}

/// Runs `hmac::Hmac<sha2::Sha256>` over a message: `new_from_slice`, which takes
/// a key of any length, `update` and `finalize`. The code, named `hmac_sha256`,
/// has 32 bytes.
#[verifier::external_body]
fn authenticate(key: &[u8], message: &[u8]) -> (r: Vec<u8>)
    ensures
        r@ == hmac_sha256(key@, message@),
        r@.len() == 32,
{
    let mut mac = <hmac::Hmac<sha2::Sha256> as hmac::Mac>::new_from_slice(key)
        .expect("valid HMAC key");
    hmac::Mac::update(&mut mac, message);
    hmac::Mac::finalize(mac).into_bytes().to_vec()
}

/// The identifier of a text: the first twelve bytes of its digest.
pub open spec fn identifier(input: Seq<char>) -> Seq<char> {
    hex(sha256(encode_utf8(input)).take(12))
}

/// The identifier made of a digest.
pub fn short_id(digest: &[u8]) -> (r: String)
    requires
        digest@.len() >= 12,
    ensures
        r@ == hex(digest@.take(12)),
{
    let mut r = String::new();
    push_hex(&mut r, digest, 12);
    assert(r@ =~= hex(digest@.take(12)));
    r
}

/// The identifier of a text.
pub fn hex_id(input: &str) -> (r: String)
    ensures
        r@ == identifier(input@),
        r@.len() == 24,
        forall|i: int|
            0 <= i < r@.len() ==> ('0' <= #[trigger] r@[i] <= '9' || 'a' <= r@[i] <= 'f'),
{
    let digest = digest_sha256(input.as_bytes());
    proof {
        lemma_hex_shape(digest@.take(12));
    }
    short_id(digest.as_slice())
}

/// The bytes that a signature covers.
pub open spec fn signed_message(id: Seq<char>, target: Seq<char>) -> Seq<u8> {
    encode_utf8(id) + seq![10u8] + encode_utf8(target)
}

/// The signature of a target on a channel.
pub open spec fn signature(secret: Seq<char>, id: Seq<char>, target: Seq<char>) -> Seq<char> {
    base64_url(hmac_sha256(encode_utf8(secret), signed_message(id, target)))
}

fn push_bytes(out: &mut Vec<u8>, tail: &[u8])
    ensures
        final(out)@ == old(out)@ + tail@,
{
    let mut i: usize = 0;
    while i < tail.len()
        invariant
            i <= tail.len(),
            out@ == old(out)@ + tail@.take(i as int),
        decreases tail.len() - i,
    {
        out.push(tail[i]);
        i += 1;
        assert(tail@.take(i as int) =~= tail@.take(i - 1).push(tail@[i - 1]));
    }
    assert(tail@.take(i as int) =~= tail@);
}

/// The signature of a target on a channel.
pub fn sign(secret: &str, id: &str, target: &str) -> (r: String)
    ensures
        r@ == signature(secret@, id@, target@),
        r@.len() == 43,
{
    let mut message: Vec<u8> = Vec::new();
    push_bytes(&mut message, id.as_bytes());
    message.push(10u8);
    push_bytes(&mut message, target.as_bytes());
    assert(message@ =~= signed_message(id@, target@));
    let code = authenticate(secret.as_bytes(), message.as_slice());
    encode_base64_url(code.as_slice())
}

/// The link under which a target is relayed, with the given signature.
pub open spec fn proxy_link_text(
    base: Seq<char>,
    id: Seq<char>,
    target: Seq<char>,
    signed: Seq<char>,
) -> Seq<char> {
    base + "/proxy/"@ + id + "?u="@ + percent_encoded(encode_utf8(target)) + "&s="@ + signed
}

/// The signed link under which a target is relayed.
pub open spec fn proxy_url_text(
    base: Seq<char>,
    secret: Seq<char>,
    id: Seq<char>,
    target: Seq<char>,
) -> Seq<char> {
    proxy_link_text(base, id, target, signature(secret, id, target))
}

/// The link under which a target is relayed, with the given signature.
pub fn proxy_link(base: &str, id: &str, target: &str, signed: &str) -> (r: String)
    ensures
        r@ == proxy_link_text(base@, id@, target@, signed@),
{
    let mut r = base.to_owned();
    r.append("/proxy/");
    r.append(id);
    r.append("?u=");
    r.append(encode_percent(target).as_str());
    r.append("&s=");
    r.append(signed);
    r
}

/// The signed link under which a target is relayed.
pub fn proxy_url(base: &str, secret: &str, id: &str, target: &str) -> (r: String)
    ensures
        r@ == proxy_url_text(base@, secret@, id@, target@),
        signature(secret@, id@, target@).len() == 43,
{
    proxy_link(base, id, target, sign(secret, id, target).as_str())
}

} // verus!
