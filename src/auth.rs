use vstd::prelude::*;
use base64::Engine;
use crate::text::{find_char, first_index_of, same_text};
use vstd::string::StrSliceExecFns;

verus! {

/// What the standard base64 alphabet (with padding) decodes `s` to, `None`
/// where `s` is no such encoding.
pub uninterp spec fn base64_decoded(s: Seq<char>) -> Option<Seq<u8>>;

/// The text whose UTF-8 encoding is `b`, `None` where `b` is not UTF-8.
pub uninterp spec fn utf8_decoded(b: Seq<u8>) -> Option<Seq<char>>;

/// Relies on `base64::engine::general_purpose::STANDARD.decode`: it returns
/// the decoded bytes, or an error where the text is no valid encoding.
#[verifier::external_body]
fn decode_base64(s: &str) -> (r: Option<Vec<u8>>)
    ensures
        match r {
            Some(v) => base64_decoded(s@) == Some(v@),
            None => base64_decoded(s@) is None,
        },
{
    base64::engine::general_purpose::STANDARD.decode(s).ok()
}

/// Relies on `String::from_utf8`: the text the bytes encode, or an error
/// where they are not UTF-8.
#[verifier::external_body]
fn utf8_text(b: Vec<u8>) -> (r: Option<String>)
    ensures
        match r {
            Some(t) => utf8_decoded(b@) == Some(t@),
            None => utf8_decoded(b@) is None,
        },
{
    String::from_utf8(b).ok()
}

/// The user name and password of `user:password`: the text before the
/// first colon, and the rest (empty where there is no colon).
pub open spec fn split_credentials(s: Seq<char>) -> (Seq<char>, Seq<char>) {
    match first_index_of(s, ':') {
        Some(i) => (s.subrange(0, i), s.subrange(i + 1, s.len() as int)),
        None => (s, Seq::empty()),
    }
}

pub open spec fn credentials_ok(decoded: Seq<char>, user: Seq<char>, pass: Seq<char>) -> bool {
    split_credentials(decoded).0 == user && split_credentials(decoded).1 == pass
}

/// The text of an `Authorization` header after `Basic `, if it starts so.
pub open spec fn basic_payload(header: Seq<char>) -> Option<Seq<char>> {
    if header.len() >= 6 && header.subrange(0, 6) == "Basic "@ {
        Some(header.subrange(6, header.len() as int))
    } else {
        None
    }
}

/// Whether `header` grants access to `user` with `pass`.
pub open spec fn basic_auth_ok(header: Seq<char>, user: Seq<char>, pass: Seq<char>) -> bool {
    match basic_payload(header) {
        Some(p) => match base64_decoded(p) {
            Some(bytes) => match utf8_decoded(bytes) {
                Some(text) => credentials_ok(text, user, pass),
                None => false,
            },
            None => false,
        },
        None => false,
    }
}

/// Whether the decoded `user:password` text names `user` and `pass`.
pub fn credentials_match(decoded: &str, user: &str, pass: &str) -> (r: bool)
    ensures
        r == credentials_ok(decoded@, user@, pass@),
{
    proof {
        reveal_strlit("");
        assert(""@ =~= Seq::<char>::empty());
    }
    let n = decoded.unicode_len();
    match find_char(decoded, ':') {
        Some(i) => {
            let name = decoded.substring_char(0, i);
            let word = decoded.substring_char(i + 1, n);
            same_text(name, user) && same_text(word, pass)
        },
        None => same_text(decoded, user) && same_text("", pass),
    }
}

/// Whether an `Authorization` header value grants access: it reads
/// `Basic ` and then base64 of the UTF-8 text `user:password`.
pub fn check_basic_auth(header: &str, user: &str, pass: &str) -> (r: bool)
    ensures
        r == basic_auth_ok(header@, user@, pass@),
{
    proof {
        reveal_strlit("Basic ");
    }
    let n = header.unicode_len();
    if n < 6 {
        return false;
    }
    let head = header.substring_char(0, 6);
    if !same_text(head, "Basic ") {
        return false;
    }
    let payload = header.substring_char(6, n);
    match decode_base64(payload) {
        Some(bytes) => match utf8_text(bytes) {
            Some(text) => credentials_match(text.as_str(), user, pass),
            None => false,
        },
        None => false,
    }
}

} // verus!
