//! Validation of client-supplied text: room names, nicks, identity strings
//! and message content. A text is accepted when it is free of control bytes,
//! within its length bound, and non-empty after trimming spaces.

use vstd::prelude::*;

verus! {

use vstd::string::StringSliceAdditionalSpecFns;

/// Longest accepted nick, in bytes of its UTF-8 encoding.
pub const MAX_NICK_LEN: usize = 64;

/// Longest accepted room name, in bytes of its UTF-8 encoding.
pub const MAX_ROOM_LEN: usize = 64;

/// Longest accepted identity string, in bytes of its UTF-8 encoding.
pub const MAX_IDENTITY_LEN: usize = 1024;

/// Longest accepted message content, in bytes of its UTF-8 encoding.
pub const MAX_CONTENT_LEN: usize = 4096;

/// An ASCII control byte; multi-byte UTF-8 sequences never contain one.
pub open spec fn is_control_byte(b: u8) -> bool {
    b < 0x20 || b == 0x7f
}

/// No byte of the encoding is a control byte.
pub open spec fn control_free(s: Seq<u8>) -> bool {
    forall|i: int| 0 <= i < s.len() ==> !is_control_byte(#[trigger] s[i])
}

/// Some byte is not a space, so the text is non-empty after trimming.
pub open spec fn has_content(s: Seq<u8>) -> bool {
    exists|i: int| 0 <= i < s.len() && #[trigger] s[i] != 0x20
}

/// A text is valid when it is control-free, within the length bound, and
/// non-empty after trimming.
pub open spec fn valid_text(s: Seq<u8>, max: nat) -> bool {
    control_free(s) && s.len() <= max && has_content(s)
}

/// The UTF-8 encoding of a string's characters.
pub open spec fn bytes_of(s: Seq<char>) -> Seq<u8> {
    vstd::utf8::encode_utf8(s)
}

pub open spec fn valid_nick(s: Seq<char>) -> bool {
    valid_text(bytes_of(s), MAX_NICK_LEN as nat)
}

pub open spec fn valid_room(s: Seq<char>) -> bool {
    valid_text(bytes_of(s), MAX_ROOM_LEN as nat)
}

pub open spec fn valid_identity(s: Seq<char>) -> bool {
    valid_text(bytes_of(s), MAX_IDENTITY_LEN as nat)
}

pub open spec fn valid_content(s: Seq<char>) -> bool {
    valid_text(bytes_of(s), MAX_CONTENT_LEN as nat)
}

/// The reason given for each way a text can be rejected.
pub open spec fn rejection_of(s: Seq<u8>, max: nat) -> Seq<char> {
    if !control_free(s) {
        "contains control characters"@
    } else if s.len() > max {
        "too long"@
    } else {
        "empty"@
    }
}

/// Checks one text against the three rules; `None` means accepted, `Some`
/// carries the reason for the first rule broken, in the order: control
/// characters, length, emptiness.
fn check_text(s: &str, max: usize) -> (r: Option<String>)
    ensures
        r is None <==> valid_text(s.spec_bytes(), max as nat),
        r matches Some(m) ==> m@ == rejection_of(s.spec_bytes(), max as nat),
{
    let bytes = s.as_bytes();
    let mut i: usize = 0;
    let mut found_content: bool = false;
    while i < bytes.len()
        invariant
            i <= bytes@.len(),
            bytes@ == s.spec_bytes(),
            forall|j: int| 0 <= j < i ==> !is_control_byte(#[trigger] bytes@[j]),
            found_content <==> exists|j: int| 0 <= j < i && #[trigger] bytes@[j] != 0x20,
        decreases bytes@.len() - i,
    {
        let b = bytes[i];
        if b < 0x20 || b == 0x7f {
            return Some("contains control characters".to_owned());
        }
        if b != 0x20 {
            found_content = true;
        }
        i = i + 1;
    }
    if bytes.len() > max {
        return Some("too long".to_owned());
    }
    if !found_content {
        return Some("empty".to_owned());
    }
    None
}

/// Whether two string slices hold the same characters, compared byte by
/// byte; UTF-8 encoding is lossless, so equal bytes mean equal characters.
pub fn str_eq(a: &str, b: &str) -> (r: bool)
    ensures
        r == (a@ == b@),
{
    let ab = a.as_bytes();
    let bb = b.as_bytes();
    if ab.len() != bb.len() {
        proof {
            if a@ == b@ {
                assert(a.spec_bytes() == b.spec_bytes());
            }
        }
        return false;
    }
    let mut i: usize = 0;
    while i < ab.len()
        invariant
            i <= ab@.len(),
            ab@.len() == bb@.len(),
            ab@ == a.spec_bytes(),
            bb@ == b.spec_bytes(),
            forall|j: int| 0 <= j < i ==> ab@[j] == bb@[j],
        decreases ab@.len() - i,
    {
        if ab[i] != bb[i] {
            proof {
                if a@ == b@ {
                    assert(a.spec_bytes() == b.spec_bytes());
                }
            }
            return false;
        }
        i = i + 1;
    }
    proof {
        assert(a.spec_bytes() =~= b.spec_bytes());
        vstd::utf8::encode_utf8_decode_utf8(a@);
        vstd::utf8::encode_utf8_decode_utf8(b@);
    }
    true
}

/// Checks a nick; `None` means accepted.
pub fn check_nick(nick: &str) -> (r: Option<String>)
    ensures
        r is None <==> valid_nick(nick@),
        r matches Some(m) ==> m@ == rejection_of(nick.spec_bytes(), MAX_NICK_LEN as nat),
{
    check_text(nick, MAX_NICK_LEN)
}

/// Checks a room name; `None` means accepted.
pub fn check_room(room: &str) -> (r: Option<String>)
    ensures
        r is None <==> valid_room(room@),
        r matches Some(m) ==> m@ == rejection_of(room.spec_bytes(), MAX_ROOM_LEN as nat),
{
    check_text(room, MAX_ROOM_LEN)
}

/// Checks an identity string; `None` means accepted.
pub fn check_identity(identity: &str) -> (r: Option<String>)
    ensures
        r is None <==> valid_identity(identity@),
        r matches Some(m) ==> m@ == rejection_of(identity.spec_bytes(), MAX_IDENTITY_LEN as nat),
{
    check_text(identity, MAX_IDENTITY_LEN)
}

/// Checks message content; `None` means accepted.
pub fn check_content(content: &str) -> (r: Option<String>)
    ensures
        r is None <==> valid_content(content@),
        r matches Some(m) ==> m@ == rejection_of(content.spec_bytes(), MAX_CONTENT_LEN as nat),
{
    check_text(content, MAX_CONTENT_LEN)
}

} // verus!
