//! What an accepted identifier can be: the reason names and versions are
//! safe to use as single path segments.
use crate::manifest::{is_ascii_alnum, is_control, is_name_byte, is_version_byte, name_problem, version_problem};
use vstd::prelude::*;
use vstd::utf8::*;

verus! {

proof fn lemma_leading_bytes_not_ascii(c: u32)
    by (bit_vector)
    ensures
        leading_byte_width_2(c) >= 128,
        leading_byte_width_3(c) >= 128,
        leading_byte_width_4(c) >= 128,
{
}

/// Text whose UTF-8 bytes are all ASCII is made of ASCII characters, each
/// encoded as its own byte.
proof fn lemma_ascii_bytes(s: Seq<char>)
    requires
        forall|i: int| 0 <= i < encode_utf8(s).len() ==> encode_utf8(s)[i] < 128,
    ensures
        is_ascii_chars(s),
        encode_utf8(s).len() == s.len(),
        forall|i: int| 0 <= i < s.len() ==> s[i] as u8 == #[trigger] encode_utf8(s)[i],
    decreases s.len(),
{
    if s.len() > 0 {
        let c = s[0] as u32;
        char_is_scalar(s[0]);
        let rest = s.drop_first();
        let b = encode_utf8(s);
        assert(b == encode_scalar(c) + encode_utf8(rest));
        assert(b[0] == encode_scalar(c)[0]);
        lemma_leading_bytes_not_ascii(c);
        assert(has_width_1_encoding(c));
        assert(encode_scalar(c).len() == 1);
        assert forall|i: int| 0 <= i < encode_utf8(rest).len() implies encode_utf8(rest)[i] < 128 by {
            assert(encode_utf8(rest)[i] == b[i + 1]);
        }
        lemma_ascii_bytes(rest);
        assert forall|i: int| 0 <= i < s.len() implies '\0' <= #[trigger] s[i] <= '\u{7f}' by {
            if i > 0 {
                assert(s[i] == rest[i - 1]);
            } else {
                assert(c <= 0x7f);
                char_u32_cast(s[0], c);
                assert((c as char) == s[0]);
            }
        }
    }
    is_ascii_chars_encode_utf8(s);
}

/// Identifiers are not paths: an accepted package or plugin name is one
/// non-empty segment of ASCII letters, digits, `.`, `_` and `-`, beginning
/// with a letter or digit, and neither `.` nor `..`; so it holds no path
/// separator, no NUL or control character, and no absolute or drive prefix.
pub proof fn law_names_are_single_path_segments(s: Seq<char>)
    requires
        name_problem(s) is None,
    ensures
        s.len() > 0,
        s != "."@,
        s != ".."@,
        forall|i: int| 0 <= i < s.len() ==> is_name_byte(s[i] as u8) && (s[i] as u32) < 128,
        is_ascii_alnum(s[0] as u8),
        !s.contains('/'),
        !s.contains('\\'),
        !s.contains(':'),
        forall|i: int| 0 <= i < s.len() ==> !is_control(#[trigger] s[i]),
{
    let b = encode_utf8(s);
    assert forall|i: int| 0 <= i < b.len() implies b[i] < 128 by {
        assert(is_name_byte(b[i]));
    }
    lemma_ascii_bytes(s);
    assert forall|i: int| 0 <= i < s.len() implies is_name_byte(s[i] as u8) && (s[i] as u32)
        < 128 by {
        assert(is_name_byte(b[i]));
    }
    assert(b[0] == s[0] as u8);
    assert forall|i: int| 0 <= i < s.len() implies !is_control(#[trigger] s[i]) by {
        assert(is_name_byte(b[i]));
    }
    if s.contains('/') || s.contains('\\') || s.contains(':') {
        let k = choose|k: int| 0 <= k < s.len() && (s[k] == '/' || s[k] == '\\' || s[k] == ':');
        assert(is_name_byte(b[k]));
    }
}

/// An accepted version, like a name, is one non-empty segment of ASCII
/// letters, digits, `.`, `_`, `-` and `+`, neither `.` nor `..`.
pub proof fn law_versions_are_single_path_segments(s: Seq<char>)
    requires
        version_problem(s) is None,
    ensures
        s.len() > 0,
        s != "."@,
        s != ".."@,
        forall|i: int| 0 <= i < s.len() ==> is_version_byte(s[i] as u8) && (s[i] as u32) < 128,
        !s.contains('/'),
        !s.contains('\\'),
        !s.contains(':'),
        forall|i: int| 0 <= i < s.len() ==> !is_control(#[trigger] s[i]),
{
    let b = encode_utf8(s);
    assert forall|i: int| 0 <= i < b.len() implies b[i] < 128 by {
        assert(is_version_byte(b[i]));
    }
    lemma_ascii_bytes(s);
    assert forall|i: int| 0 <= i < s.len() implies is_version_byte(s[i] as u8) && (s[i] as u32)
        < 128 by {
        assert(is_version_byte(b[i]));
    }
    assert forall|i: int| 0 <= i < s.len() implies !is_control(#[trigger] s[i]) by {
        assert(is_version_byte(b[i]));
    }
    if s.contains('/') || s.contains('\\') || s.contains(':') {
        let k = choose|k: int| 0 <= k < s.len() && (s[k] == '/' || s[k] == '\\' || s[k] == ':');
        assert(is_version_byte(b[k]));
    }
}

} // verus!
