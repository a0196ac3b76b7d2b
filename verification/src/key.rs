//! Store keys. A text is stored as its byte length in eight little-endian
//! bytes followed by its UTF-8 bytes; the key of a URL is the stored form of
//! its domain, a separator byte, and the stored form of the URL.

use crate::bytes::is_prefix;
use vstd::bytes::{lemma_auto_spec_u64_to_from_le_bytes, spec_u64_from_le_bytes, spec_u64_to_le_bytes};
use vstd::prelude::*;
use vstd::slice::slice_subrange;
use vstd::utf8::{decode_utf8, encode_utf8, encode_utf8_decode_utf8, encode_utf8_valid_utf8, valid_utf8};

verus! {

/// The byte between the domain and the URL in a composite key.
pub const SEPARATOR: u8 = 0x2F;

/// Whether the UTF-8 form of a text is short enough for its length to be stored.
pub open spec fn storable(text: Seq<char>) -> bool {
    encode_utf8(text).len() <= u64::MAX
}

/// The stored form of a text.
pub open spec fn text_encoding(text: Seq<char>) -> Seq<u8> {
    spec_u64_to_le_bytes(encode_utf8(text).len() as u64) + encode_utf8(text)
}

/// Whether a byte string starts with the stored form of some text: eight
/// bytes of length, then at least that many bytes, which are valid UTF-8.
pub open spec fn holds_text(bytes: Seq<u8>) -> bool {
    &&& bytes.len() >= 8
    &&& spec_u64_from_le_bytes(bytes.subrange(0, 8)) <= bytes.len() - 8
    &&& valid_utf8(bytes.subrange(8, 8 + spec_u64_from_le_bytes(bytes.subrange(0, 8))))
}

/// The text whose stored form a byte string starts with.
pub open spec fn held_text(bytes: Seq<u8>) -> Seq<char> {
    decode_utf8(bytes.subrange(8, 8 + spec_u64_from_le_bytes(bytes.subrange(0, 8))))
}

/// What every key of a domain starts with: the stored domain and the separator.
pub open spec fn domain_prefix(domain: Seq<char>) -> Seq<u8> {
    text_encoding(domain).push(SEPARATOR)
}

/// The key under which the state of a URL of a domain is stored.
pub open spec fn composite_key(domain: Seq<char>, url: Seq<char>) -> Seq<u8> {
    domain_prefix(domain) + text_encoding(url)
}

/// A stored text, whatever follows it, is read back as that text.
pub proof fn lemma_text_round_trip(text: Seq<char>, rest: Seq<u8>)
    requires
        storable(text),
    ensures
        holds_text(text_encoding(text) + rest),
        held_text(text_encoding(text) + rest) == text,
{
    lemma_auto_spec_u64_to_from_le_bytes();
    encode_utf8_valid_utf8(text);
    encode_utf8_decode_utf8(text);
    let n = encode_utf8(text).len() as u64;
    let bytes = text_encoding(text) + rest;
    assert(bytes.subrange(0, 8) =~= spec_u64_to_le_bytes(n));
    assert(bytes.subrange(8, 8 + n) =~= encode_utf8(text));
}

/// Stored forms tell texts apart, even when other bytes follow them.
pub proof fn lemma_text_encoding_injective(a: Seq<char>, ra: Seq<u8>, b: Seq<char>, rb: Seq<u8>)
    requires
        storable(a),
        storable(b),
        text_encoding(a) + ra == text_encoding(b) + rb,
    ensures
        a == b,
        ra == rb,
{
    lemma_text_round_trip(a, ra);
    lemma_text_round_trip(b, rb);
    let whole = text_encoding(a) + ra;
    assert(ra =~= whole.subrange(text_encoding(a).len() as int, whole.len() as int));
    assert(rb =~= whole.subrange(text_encoding(b).len() as int, whole.len() as int));
}

/// A composite key belongs to one domain and one URL only.
pub proof fn lemma_composite_key_injective(d1: Seq<char>, u1: Seq<char>, d2: Seq<char>, u2: Seq<char>)
    requires
        storable(d1),
        storable(u1),
        storable(d2),
        storable(u2),
        composite_key(d1, u1) == composite_key(d2, u2),
    ensures
        d1 == d2,
        u1 == u2,
{
    let r1 = seq![SEPARATOR] + text_encoding(u1);
    let r2 = seq![SEPARATOR] + text_encoding(u2);
    assert(composite_key(d1, u1) =~= text_encoding(d1) + r1);
    assert(composite_key(d2, u2) =~= text_encoding(d2) + r2);
    lemma_text_encoding_injective(d1, r1, d2, r2);
    assert(text_encoding(u1) =~= r1.subrange(1, r1.len() as int));
    assert(text_encoding(u2) =~= r2.subrange(1, r2.len() as int));
    assert(text_encoding(u1) + Seq::<u8>::empty() =~= text_encoding(u1));
    assert(text_encoding(u2) + Seq::<u8>::empty() =~= text_encoding(u2));
    lemma_text_encoding_injective(u1, Seq::empty(), u2, Seq::empty());
}

/// Every key of a domain starts with the domain's prefix, and what follows
/// the prefix is read back as the URL.
pub proof fn lemma_composite_key_parts(domain: Seq<char>, url: Seq<char>)
    requires
        storable(url),
    ensures
        is_prefix(domain_prefix(domain), composite_key(domain, url)),
        composite_key(domain, url).subrange(
            domain_prefix(domain).len() as int,
            composite_key(domain, url).len() as int,
        ) == text_encoding(url),
        holds_text(text_encoding(url)),
        held_text(text_encoding(url)) == url,
{
    let p = domain_prefix(domain);
    let k = composite_key(domain, url);
    assert(k.subrange(0, p.len() as int) =~= p);
    assert(k.subrange(p.len() as int, k.len() as int) =~= text_encoding(url));
    lemma_text_round_trip(url, Seq::empty());
    assert(text_encoding(url) + Seq::<u8>::empty() =~= text_encoding(url));
}

/// Keys of different domains never share a domain prefix.
pub proof fn lemma_prefix_tells_domain(d1: Seq<char>, d2: Seq<char>, key: Seq<u8>)
    requires
        storable(d1),
        storable(d2),
        is_prefix(domain_prefix(d1), key),
        is_prefix(domain_prefix(d2), key),
    ensures
        d1 == d2,
{
    let first = domain_prefix(d1);
    let second = domain_prefix(d2);
    let rest_first = key.subrange(text_encoding(d1).len() as int, key.len() as int);
    let rest_second = key.subrange(text_encoding(d2).len() as int, key.len() as int);
    assert(text_encoding(d1) =~= first.subrange(0, text_encoding(d1).len() as int));
    assert(text_encoding(d2) =~= second.subrange(0, text_encoding(d2).len() as int));
    assert(key =~= text_encoding(d1) + rest_first) by {
        assert(forall|i: int| 0 <= i < first.len() ==> key[i] == key.subrange(0, first.len() as int)[i]);
    }
    assert(key =~= text_encoding(d2) + rest_second) by {
        assert(forall|i: int| 0 <= i < second.len() ==> key[i] == key.subrange(0, second.len() as int)[i]);
    }
    lemma_text_encoding_injective(d1, rest_first, d2, rest_second);
}

/// Calls `bincode::serialize` on a string. For a string it writes the byte
/// length as eight little-endian bytes and then the UTF-8 bytes; it has no
/// size limit and writes to memory, so it does not fail.
#[verifier::external_body]
fn encode_text(text: &String) -> (bytes: Vec<u8>)
    ensures
        bytes@ == text_encoding(text@),
{
    bincode::serialize(text).expect("a string has a stored form")
}

/// Calls `bincode::deserialize` for a string. It succeeds exactly when the
/// bytes start with eight bytes of little-endian length followed by at least
/// that many bytes which are valid UTF-8, and then gives the decoded text;
/// bytes after the text are ignored.
#[verifier::external_body]
fn decode_text(bytes: &[u8]) -> (text: Option<String>)
    ensures
        text is Some <==> holds_text(bytes@),
        text matches Some(t) ==> t@ == held_text(bytes@),
{
    bincode::deserialize::<String>(bytes).ok()
}

/// The stored form of a text.
pub fn text_key(text: &String) -> (key: Vec<u8>)
    ensures
        key@ == text_encoding(text@),
        storable(text@),
{
    let key = encode_text(text);
    let stored: usize = key.len();
    proof {
        lemma_auto_spec_u64_to_from_le_bytes();
        assert(stored == 8 + encode_utf8(text@).len());
        assert(usize::MAX <= u64::MAX);
    }
    key
}

/// The text that a byte string stores at its front, if it stores one.
pub fn text_of_key(key: &Vec<u8>) -> (text: Option<String>)
    ensures
        text is Some <==> holds_text(key@),
        text matches Some(t) ==> t@ == held_text(key@),
{
    decode_text(key.as_slice())
}

/// The prefix shared by the keys of a domain.
pub fn prefix_of_domain(domain: &String) -> (prefix: Vec<u8>)
    ensures
        prefix@ == domain_prefix(domain@),
        storable(domain@),
{
    let mut prefix = text_key(domain);
    prefix.push(SEPARATOR);
    prefix
}

/// The key of a URL of a domain.
pub fn key_of_url(domain: &String, url: &String) -> (key: Vec<u8>)
    ensures
        key@ == composite_key(domain@, url@),
        storable(domain@),
        storable(url@),
{
    let mut key = prefix_of_domain(domain);
    let mut tail = text_key(url);
    key.append(&mut tail);
    key
}

/// Reads the URL out of a key, given the length of the domain prefix in front
/// of it. A key that is too short, or whose rest is not a stored text, gives
/// nothing.
pub fn url_of_key(key: &Vec<u8>, prefix_len: usize) -> (url: Option<String>)
    ensures
        url is Some <==> prefix_len <= key@.len() && holds_text(
            key@.subrange(prefix_len as int, key@.len() as int),
        ),
        url matches Some(u) ==> u@ == held_text(key@.subrange(prefix_len as int, key@.len() as int)),
{
    if prefix_len > key.len() {
        return None;
    }
    decode_text(slice_subrange(key.as_slice(), prefix_len, key.len()))
}

} // verus!
