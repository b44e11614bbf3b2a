//! Validation of keys and values.
//!
//! Rules are stated over the UTF-8 bytes of a key. An ASCII character is a
//! single byte below 0x80 in UTF-8, and every byte of a multi-byte character
//! is 0x80 or above, so a byte-level rule on ASCII characters (spaces,
//! control characters, dots, slashes) says the same of the characters.
use crate::error::{owned, StorageError, StorageResult};
use vstd::prelude::*;
use vstd::std_specs::iter::IteratorSpec;

verus! {

/// Largest accepted key, in bytes.
pub const MAX_KEY_BYTES: usize = 1024;

/// Largest accepted value, in bytes (1 MiB).
pub const MAX_VALUE_BYTES: usize = 1_048_576;

/// An ASCII control character: 0 to 31, or 127 (DEL).
pub open spec fn is_control_byte(b: u8) -> bool {
    b < 32 || b == 127
}

pub open spec fn contains_byte(b: Seq<u8>, x: u8) -> bool {
    exists|i: int| 0 <= i < b.len() && b[i] == x
}

pub open spec fn contains_pair(b: Seq<u8>, x: u8, y: u8) -> bool {
    exists|i: int| 0 <= i < b.len() - 1 && #[trigger] b[i] == x && b[i + 1] == y
}

pub open spec fn contains_control(b: Seq<u8>) -> bool {
    exists|i: int| 0 <= i < b.len() && is_control_byte(#[trigger] b[i])
}

/// The reserved prefix `__zephyrite_`, as bytes.
pub open spec fn reserved_prefix() -> Seq<u8> {
    seq![95u8, 95, 122, 101, 112, 104, 121, 114, 105, 116, 101, 95]
}

pub open spec fn has_prefix(b: Seq<u8>, p: Seq<u8>) -> bool {
    p.len() <= b.len() && b.subrange(0, p.len() as int) == p
}

/// Why a key is rejected, in the order in which the rules are checked.
pub enum KeyRule {
    Empty,
    TooLong,
    EdgeSpace,
    NulByte,
    LineBreak,
    Control,
    ReservedPrefix,
    DotDot,
}

/// A whitespace character (Unicode `White_Space`, as `char::is_whitespace`).
pub open spec fn is_whitespace(c: char) -> bool {
    let v = c as u32;
    (0x09 <= v <= 0x0D) || v == 0x20 || v == 0x85 || v == 0xA0 || v == 0x1680 || (0x2000 <= v <= 0x200A)
        || v == 0x2028 || v == 0x2029 || v == 0x202F || v == 0x205F || v == 0x3000
}

/// A whitespace character that is not an ASCII control character: the
/// ASCII controls among the whitespace (tab to carriage return) fall under
/// the control-character rule.
pub open spec fn is_edge_space(c: char) -> bool {
    is_whitespace(c) && !(0x09 <= c as u32 <= 0x0D)
}

/// The first rule that the key `k` breaks, if any. Lengths and bytes are
/// those of its UTF-8 encoding.
pub open spec fn broken_key_rule(k: Seq<char>) -> Option<KeyRule> {
    let b = vstd::utf8::encode_utf8(k);
    if b.len() == 0 {
        Some(KeyRule::Empty)
    } else if b.len() > MAX_KEY_BYTES {
        Some(KeyRule::TooLong)
    } else if k.len() > 0 && (is_edge_space(k[0]) || is_edge_space(k.last())) {
        Some(KeyRule::EdgeSpace)
    } else if contains_byte(b, 0) {
        Some(KeyRule::NulByte)
    } else if contains_byte(b, 10) || contains_byte(b, 13) {
        Some(KeyRule::LineBreak)
    } else if contains_control(b) {
        Some(KeyRule::Control)
    } else if has_prefix(b, reserved_prefix()) {
        Some(KeyRule::ReservedPrefix)
    } else if contains_pair(b, 46, 46) {
        Some(KeyRule::DotDot)
    } else {
        None
    }
}

/// The text reported for a broken key rule.
pub open spec fn key_rule_text(r: KeyRule) -> Seq<char> {
    match r {
        KeyRule::Empty => "Key cannot be empty"@,
        KeyRule::TooLong => "Key too long (max 1024 bytes)"@,
        KeyRule::EdgeSpace => "Key cannot start or end with spaces"@,
        KeyRule::NulByte => "Key cannot contain null bytes"@,
        KeyRule::LineBreak => "Key cannot contain line breaks"@,
        KeyRule::Control => "Key cannot contain control characters"@,
        KeyRule::ReservedPrefix => "Keys cannot start with '__zephyrite_' (reserved prefix)"@,
        KeyRule::DotDot => "Key cannot contain '..' (security risk)"@,
    }
}

/// The text reported by the stricter check, for a key that passes the
/// ordinary rules, if it fails one of the stricter ones.
pub open spec fn strict_failure(b: Seq<u8>, allow_slashes: bool, allow_dots: bool) -> Option<Seq<char>> {
    if !allow_slashes && (contains_byte(b, 47) || contains_byte(b, 92)) {
        Some("Key cannot contain path separators"@)
    } else if !allow_dots && contains_byte(b, 46) {
        Some("Key cannot contain dots"@)
    } else if contains_pair(b, 58, 58) || contains_pair(b, 45, 45) || contains_pair(b, 95, 95) {
        Some("Key cannot contain consecutive special characters"@)
    } else {
        None
    }
}

/// A key is valid when it breaks none of the rules.
pub open spec fn key_valid(k: Seq<char>) -> bool {
    broken_key_rule(k) is None
}

/// A valid key neither starts nor ends with whitespace.
pub proof fn lemma_valid_key_edges(k: Seq<char>)
    requires
        key_valid(k),
    ensures
        k.len() > 0,
        !is_whitespace(k[0]),
        !is_whitespace(k.last()),
{
    let b = vstd::utf8::encode_utf8(k);
    if k.len() == 0 {
        assert(b.len() == 0);
    }
    let c = k[0];
    if 0x09 <= c as u32 <= 0x0D {
        lemma_ascii_char_byte(k, 0);
    }
    let d = k.last();
    if 0x09 <= d as u32 <= 0x0D {
        lemma_ascii_char_byte(k, k.len() - 1);
    }
}

/// An ASCII character of `k` appears as its own byte in the encoding.
proof fn lemma_ascii_char_byte(k: Seq<char>, i: int)
    requires
        0 <= i < k.len(),
        (k[i] as u32) < 0x80,
    ensures
        exists|j: int| 0 <= j < vstd::utf8::encode_utf8(k).len() && vstd::utf8::encode_utf8(k)[j] == k[i] as u32 as u8,
    decreases k.len(),
{
    let b = vstd::utf8::encode_utf8(k);
    let first = vstd::utf8::encode_scalar(k[0] as u32);
    assert(b == first + vstd::utf8::encode_utf8(k.drop_first()));
    if i == 0 {
        let v = k[0] as u32;
        assert((v & 0x7F) as u8 == v as u8) by (bit_vector)
            requires
                v < 0x80,
        ;
        assert(b[0] == first[0]);
    } else {
        lemma_ascii_char_byte(k.drop_first(), i - 1);
        let r = vstd::utf8::encode_utf8(k.drop_first());
        let j = choose|j: int| 0 <= j < r.len() && r[j] == k.drop_first()[i - 1] as u32 as u8;
        assert(b[first.len() + j] == r[j]);
    }
}

/// What the stricter check adds: no path separators unless allowed, no dots
/// unless allowed, and no doubled `:`, `-` or `_`.
pub open spec fn strict_extra_ok(b: Seq<u8>, allow_slashes: bool, allow_dots: bool) -> bool {
    &&& (allow_slashes || (!contains_byte(b, 47) && !contains_byte(b, 92)))
    &&& (allow_dots || !contains_byte(b, 46))
    &&& !contains_pair(b, 58, 58)
    &&& !contains_pair(b, 45, 45)
    &&& !contains_pair(b, 95, 95)
}

pub open spec fn value_valid(v: Seq<char>) -> bool {
    vstd::utf8::encode_utf8(v).len() <= MAX_VALUE_BYTES
}

fn edge_space(c: char) -> (r: bool)
    ensures
        r == is_edge_space(c),
{
    let v = c as u32;
    v == 0x20 || v == 0x85 || v == 0xA0 || v == 0x1680 || (0x2000 <= v && v <= 0x200A) || v == 0x2028
        || v == 0x2029 || v == 0x202F || v == 0x205F || v == 0x3000
}

/// The first and last characters of `s`.
fn edge_chars(s: &str) -> (r: Option<(char, char)>)
    ensures
        s@.len() == 0 ==> r is None,
        s@.len() > 0 ==> r == Some((s@[0], s@.last())),
{
    let mut it = s.chars();
    let first = match it.next() {
        None => return None,
        Some(c) => c,
    };
    let mut last = first;
    let ghost mut i: int = 1;
    loop
        invariant
            1 <= i <= s@.len(),
            first == s@[0],
            last == s@[i - 1],
            it.remaining() == s@.subrange(i, s@.len() as int),
        decreases s@.len() - i,
    {
        match it.next() {
            None => {
                return Some((first, last));
            },
            Some(c) => {
                last = c;
                proof {
                    i = i + 1;
                }
            },
        }
    }
}

fn has_byte(b: &[u8], x: u8) -> (r: bool)
    ensures
        r == contains_byte(b@, x),
{
    let mut i: usize = 0;
    while i < b.len()
        invariant
            0 <= i <= b@.len(),
            forall|j: int| 0 <= j < i ==> b@[j] != x,
        decreases b@.len() - i,
    {
        if b[i] == x {
            return true;
        }
        i = i + 1;
    }
    false
}

fn has_pair(b: &[u8], x: u8, y: u8) -> (r: bool)
    ensures
        r == contains_pair(b@, x, y),
{
    let mut i: usize = 0;
    while i < b.len() && i + 1 < b.len()
        invariant
            0 <= i <= b@.len(),
            forall|j: int| 0 <= j < i && j < b@.len() - 1 ==> !(#[trigger] b@[j] == x && b@[j + 1] == y),
        decreases b@.len() - i,
    {
        if b[i] == x && b[i + 1] == y {
            return true;
        }
        i = i + 1;
    }
    false
}

fn has_control(b: &[u8]) -> (r: bool)
    ensures
        r == contains_control(b@),
{
    let mut i: usize = 0;
    while i < b.len()
        invariant
            0 <= i <= b@.len(),
            forall|j: int| 0 <= j < i ==> !is_control_byte(#[trigger] b@[j]),
        decreases b@.len() - i,
    {
        if b[i] < 32 || b[i] == 127 {
            return true;
        }
        i = i + 1;
    }
    false
}

fn has_reserved_prefix(b: &[u8]) -> (r: bool)
    ensures
        r == has_prefix(b@, reserved_prefix()),
{
    let p: [u8; 12] = [95, 95, 122, 101, 112, 104, 121, 114, 105, 116, 101, 95];
    assert(p@ == reserved_prefix());
    if b.len() < 12 {
        return false;
    }
    let mut i: usize = 0;
    while i < 12
        invariant
            0 <= i <= 12,
            12 <= b@.len(),
            p@ == reserved_prefix(),
            forall|j: int| 0 <= j < i ==> b@[j] == p@[j],
        decreases 12 - i,
    {
        if b[i] != p[i] {
            assert(b@.subrange(0, 12)[i as int] != reserved_prefix()[i as int]);
            return false;
        }
        i = i + 1;
    }
    assert(b@.subrange(0, 12) =~= reserved_prefix());
    true
}

fn invalid_key(msg: &str) -> (r: StorageError)
    ensures
        r == StorageError::InvalidKey(r.detail()),
        r.detail()@ == msg@,
{
    StorageError::InvalidKey(owned(msg))
}

/// Checks a key against the key rules.
///
/// Rejected, in this order: an empty key, one over 1024 bytes, one that
/// starts or ends with a space, one that holds NUL, a line break (CR or LF)
/// or another ASCII control character (tab and DEL included), one that
/// starts with `__zephyrite_`, and one that holds `..`. Any other UTF-8
/// text is accepted, letters outside ASCII included.
pub fn validate_key(key: &str) -> (r: StorageResult<()>)
    ensures
        r is Ok <==> key_valid(key@),
        r is Err ==> r->Err_0 is InvalidKey && r->Err_0.detail()@ == key_rule_text(
            broken_key_rule(key@)->0,
        ),
{
    let b = key.as_bytes();
    proof {
        assert(b@ == vstd::utf8::encode_utf8(key@));
    }
    if b.len() == 0 {
        return Err(invalid_key("Key cannot be empty"));
    }
    if b.len() > MAX_KEY_BYTES {
        return Err(invalid_key("Key too long (max 1024 bytes)"));
    }
    if let Some((first, last)) = edge_chars(key) {
        if edge_space(first) || edge_space(last) {
            return Err(invalid_key("Key cannot start or end with spaces"));
        }
    }
    if has_byte(b, 0) {
        return Err(invalid_key("Key cannot contain null bytes"));
    }
    if has_byte(b, 10) || has_byte(b, 13) {
        return Err(invalid_key("Key cannot contain line breaks"));
    }
    if has_control(b) {
        return Err(invalid_key("Key cannot contain control characters"));
    }
    if has_reserved_prefix(b) {
        return Err(invalid_key("Keys cannot start with '__zephyrite_' (reserved prefix)"));
    }
    if has_pair(b, 46, 46) {
        return Err(invalid_key("Key cannot contain '..' (security risk)"));
    }
    Ok(())
}

/// Checks a key against the key rules and then the stricter ones: path
/// separators (`/`, `\`) unless `allow_slashes`, dots unless `allow_dots`,
/// and any doubled `::`, `--` or `__`.
pub fn validate_key_strict(key: &str, allow_slashes: bool, allow_dots: bool) -> (r: StorageResult<()>)
    ensures
        r is Ok <==> key_valid(key@) && strict_extra_ok(
            vstd::utf8::encode_utf8(key@),
            allow_slashes,
            allow_dots,
        ),
        r is Err ==> r->Err_0 is InvalidKey,
        r is Err && key_valid(key@) ==> strict_failure(
            vstd::utf8::encode_utf8(key@),
            allow_slashes,
            allow_dots,
        ) == Some(r->Err_0.detail()@),
        key_valid(key@) ==> (strict_extra_ok(vstd::utf8::encode_utf8(key@), allow_slashes, allow_dots)
            <==> strict_failure(vstd::utf8::encode_utf8(key@), allow_slashes, allow_dots) is None),
{
    validate_key(key)?;
    let b = key.as_bytes();
    if !allow_slashes && (has_byte(b, 47) || has_byte(b, 92)) {
        return Err(invalid_key("Key cannot contain path separators"));
    }
    if !allow_dots && has_byte(b, 46) {
        return Err(invalid_key("Key cannot contain dots"));
    }
    if has_pair(b, 58, 58) || has_pair(b, 45, 45) || has_pair(b, 95, 95) {
        return Err(invalid_key("Key cannot contain consecutive special characters"));
    }
    Ok(())
}

/// Checks a value: any UTF-8 text of at most 1 MiB is accepted; control
/// characters, NUL and line breaks included.
pub fn validate_value(value: &str) -> (r: StorageResult<()>)
    ensures
        r is Ok <==> value_valid(value@),
        r is Err ==> r->Err_0 == StorageError::InvalidValue(r->Err_0.detail()) && r->Err_0.detail()@
            == "Value too large (max 1MB)"@,
{
    if value.as_bytes().len() > MAX_VALUE_BYTES {
        return Err(StorageError::InvalidValue(owned("Value too large (max 1MB)")));
    }
    Ok(())
}

} // verus!
