//! The package manifest (`prep.toml`) and lockfile (`prep.lock`) model:
//! validated identifiers, source declarations, locked sources, and the
//! structural checks that tie a lockfile to its manifest.
use crate::text::{
    ascii_lower_text, compare_text, concat2, concat3, concat4, contains_char, debug_quoted,
    debug_text, first_index, first_repeat, find_first_repeat, lemma_first_index, skip_chars, starts_with_text, text_eq, text_lt,
    to_ascii_lowercase, views, TextOrder,
};
use crate::text_map::TextMap;
use vstd::prelude::*;
use vstd::string::*;
use vstd::utf8::*;

verus! {

pub const MANIFEST_SCHEMA_V1: &'static str = "prep/1";

pub const LOCK_SCHEMA_V1: &'static str = "prep.lock/1";

/// A validation failure, carrying a human-readable message.
#[derive(Debug, Clone, PartialEq, Eq)]
pub struct ModelError {
    message: String,
}

impl View for ModelError {
    type V = Seq<char>;

    closed spec fn view(&self) -> Seq<char> {
        self.message@
    }
}

impl ModelError {
    fn new(message: &str) -> (r: Self)
        ensures
            r@ == message@,
    {
        ModelError { message: String::from_str(message) }
    }

    /// An error with the given message.
    pub fn from_string(message: String) -> (r: Self)
        ensures
            r@ == message@,
    {
        ModelError { message }
    }

    /// The message of this error.
    pub fn message(&self) -> (r: &str)
        ensures
            r@ == self@,
    {
        self.message.as_str()
    }
}

/// An ASCII letter or digit.
pub open spec fn is_ascii_alnum(b: u8) -> bool {
    (48 <= b <= 57) || (65 <= b <= 90) || (97 <= b <= 122)
}

/// A byte allowed in package and plugin identifiers.
pub open spec fn is_name_byte(b: u8) -> bool {
    is_ascii_alnum(b) || b == 46 || b == 95 || b == 45
}

/// A byte allowed in versions.
pub open spec fn is_version_byte(b: u8) -> bool {
    is_name_byte(b) || b == 43
}

/// A control character: general category `Cc`.
pub open spec fn is_control(c: char) -> bool {
    (c as u32) <= 0x1f || (0x7f <= (c as u32) && (c as u32) <= 0x9f)
}

/// A character with the Unicode `White_Space` property.
pub open spec fn is_whitespace(c: char) -> bool {
    let u = c as u32;
    (0x9 <= u && u <= 0xd) || u == 0x20 || u == 0x85 || u == 0xa0 || u == 0x1680 || (0x2000 <= u
        && u <= 0x200a) || u == 0x2028 || u == 0x2029 || u == 0x202f || u == 0x205f || u == 0x3000
}

/// An ASCII hexadecimal digit.
pub open spec fn is_hex_char(c: char) -> bool {
    ('0' <= c && c <= '9') || ('a' <= c && c <= 'f') || ('A' <= c && c <= 'F')
}

fn char_is_control(c: char) -> (r: bool)
    ensures
        r == is_control(c),
{
    let u = c as u32;
    u <= 0x1f || (0x7f <= u && u <= 0x9f)
}

fn char_is_whitespace(c: char) -> (r: bool)
    ensures
        r == is_whitespace(c),
{
    let u = c as u32;
    (0x9 <= u && u <= 0xd) || u == 0x20 || u == 0x85 || u == 0xa0 || u == 0x1680 || (0x2000 <= u
        && u <= 0x200a) || u == 0x2028 || u == 0x2029 || u == 0x202f || u == 0x205f || u == 0x3000
}

fn char_is_hex(c: char) -> (r: bool)
    ensures
        r == is_hex_char(c),
{
    ('0' <= c && c <= '9') || ('a' <= c && c <= 'f') || ('A' <= c && c <= 'F')
}

/// Whether every byte of `bytes` is a name byte (or, with `version`, a version byte).
fn bytes_all(bytes: &[u8], version: bool) -> (r: bool)
    ensures
        r == (forall|i: int|
            0 <= i < bytes@.len() ==> if version {
                is_version_byte(#[trigger] bytes@[i])
            } else {
                is_name_byte(bytes@[i])
            }),
{
    let mut i: usize = 0;
    while i < bytes.len()
        invariant
            i <= bytes@.len(),
            forall|k: int|
                0 <= k < i ==> if version {
                    is_version_byte(#[trigger] bytes@[k])
                } else {
                    is_name_byte(bytes@[k])
                },
        decreases bytes@.len() - i,
    {
        let b = bytes[i];
        let alnum = (48 <= b && b <= 57) || (65 <= b && b <= 90) || (97 <= b && b <= 122);
        let ok = alnum || b == 46 || b == 95 || b == 45 || (version && b == 43);
        if !ok {
            return false;
        }
        i = i + 1;
    }
    true
}

/// Whether some character of `s` is a control character (or, with
/// `whitespace`, a control or whitespace character).
fn chars_any_control(s: &str, whitespace: bool) -> (r: bool)
    ensures
        r == (exists|i: int|
            0 <= i < s@.len() && (is_control(#[trigger] s@[i]) || (whitespace && is_whitespace(
                s@[i],
            )))),
{
    let n = s.unicode_len();
    let mut i: usize = 0;
    while i < n
        invariant
            n == s@.len(),
            i <= n,
            forall|k: int|
                0 <= k < i ==> !(is_control(#[trigger] s@[k]) || (whitespace && is_whitespace(
                    s@[k],
                ))),
        decreases n - i,
    {
        let c = s.get_char(i);
        if char_is_control(c) || (whitespace && char_is_whitespace(c)) {
            return true;
        }
        i = i + 1;
    }
    false
}

/// Every character is an ASCII hexadecimal digit.
pub open spec fn all_hex(s: Seq<char>) -> bool {
    forall|i: int| 0 <= i < s.len() ==> is_hex_char(#[trigger] s[i])
}

/// Whether every character of `s` is an ASCII hexadecimal digit.
pub(crate) fn chars_all_hex(s: &str) -> (r: bool)
    ensures
        r == all_hex(s@),
{
    let n = s.unicode_len();
    let mut i: usize = 0;
    while i < n
        invariant
            n == s@.len(),
            i <= n,
            forall|k: int| 0 <= k < i ==> is_hex_char(#[trigger] s@[k]),
        decreases n - i,
    {
        if !char_is_hex(s.get_char(i)) {
            return false;
        }
        i = i + 1;
    }
    true
}

/// The problem with `s` as a package or plugin identifier, if any.
pub open spec fn name_problem(s: Seq<char>) -> Option<Seq<char>> {
    let b = encode_utf8(s);
    if s.len() == 0 {
        Some("identifier must not be empty"@)
    } else if b.len() > 128 {
        Some("identifier exceeds 128 bytes"@)
    } else if s == "."@ || s == ".."@ {
        Some("identifier must not be '.' or '..'"@)
    } else if !(forall|i: int| 0 <= i < b.len() ==> is_name_byte(#[trigger] b[i])) {
        Some("identifier may contain only ASCII letters, digits, '.', '_' and '-'"@)
    } else if !is_ascii_alnum(b[0]) {
        Some("identifier must begin with an ASCII letter or digit"@)
    } else {
        None
    }
}

/// The problem with `s` as a version, if any.
pub open spec fn version_problem(s: Seq<char>) -> Option<Seq<char>> {
    let b = encode_utf8(s);
    if s.len() == 0 {
        Some("version must not be empty"@)
    } else if b.len() > 128 {
        Some("version exceeds 128 bytes"@)
    } else if s == "."@ || s == ".."@ {
        Some("version must not be '.' or '..'"@)
    } else if !(forall|i: int| 0 <= i < b.len() ==> is_version_byte(#[trigger] b[i])) {
        Some("version contains unsupported characters"@)
    } else {
        None
    }
}

/// The problem with `s` as a source reference, if any.
pub open spec fn reference_problem(s: Seq<char>) -> Option<Seq<char>> {
    if s.len() == 0 {
        Some("source reference must not be empty"@)
    } else if encode_utf8(s).len() > 512 {
        Some("source reference exceeds 512 bytes"@)
    } else if exists|i: int| 0 <= i < s.len() && is_control(#[trigger] s[i]) {
        Some("source reference contains control characters"@)
    } else {
        None
    }
}

/// The first position at or after `i` where `"://"` begins in `b`.
pub open spec fn scheme_separator_from(b: Seq<u8>, i: int) -> Option<int>
    decreases b.len() - i,
{
    if i < 0 || i + 3 > b.len() {
        None
    } else if b[i] == 58 && b[i + 1] == 47 && b[i + 2] == 47 {
        Some(i)
    } else {
        scheme_separator_from(b, i + 1)
    }
}

/// Whether `b` has the form `<scheme>://<rest>` with a non-empty scheme and rest,
/// splitting at the first `"://"`.
pub open spec fn has_scheme(b: Seq<u8>) -> bool {
    match scheme_separator_from(b, 0) {
        Some(i) => i > 0 && i + 3 < b.len(),
        None => false,
    }
}

/// Whether `b` has the Git SSH scp form: begins with `git@` and contains `:`.
pub open spec fn is_scp_form(b: Seq<u8>) -> bool {
    b.len() >= 4 && b[0] == 103 && b[1] == 105 && b[2] == 116 && b[3] == 64 && b.contains(58)
}

/// The problem with `s` as a source URL, if any.
pub open spec fn url_problem(s: Seq<char>) -> Option<Seq<char>> {
    let b = encode_utf8(s);
    if s.len() == 0 {
        Some("source URL must not be empty"@)
    } else if b.len() > 4096 {
        Some("source URL exceeds 4096 bytes"@)
    } else if exists|i: int| 0 <= i < s.len() && (is_control(#[trigger] s[i]) || is_whitespace(s[i])) {
        Some("source URL contains whitespace or control characters"@)
    } else if !has_scheme(b) && !is_scp_form(b) {
        Some("source URL must have a scheme or Git SSH scp form"@)
    } else {
        None
    }
}

/// The problem with `s` as a local source path, if any.
pub open spec fn local_path_problem(s: Seq<char>) -> Option<Seq<char>> {
    if s.len() == 0 {
        Some("local source path must not be empty"@)
    } else if encode_utf8(s).len() > 4096 {
        Some("local source path exceeds 4096 bytes"@)
    } else if s.contains('\0') {
        Some("local source path contains NUL"@)
    } else {
        None
    }
}

/// The outcome of a check whose problem, if any, is `p`.
pub open spec fn check_outcome(r: Result<(), ModelError>, p: Option<Seq<char>>) -> bool {
    match r {
        Ok(_) => p is None,
        Err(e) => p == Some(e@),
    }
}

fn validate_name(value: &str) -> (r: Result<(), ModelError>)
    ensures
        check_outcome(r, name_problem(value@)),
{
    let bytes = value.as_bytes();
    if value.is_empty() {
        return Err(ModelError::new("identifier must not be empty"));
    }
    if bytes.len() > 128 {
        return Err(ModelError::new("identifier exceeds 128 bytes"));
    }
    if text_eq(value, ".") || text_eq(value, "..") {
        return Err(ModelError::new("identifier must not be '.' or '..'"));
    }
    if !bytes_all(bytes, false) {
        return Err(
            ModelError::new("identifier may contain only ASCII letters, digits, '.', '_' and '-'"),
        );
    }
    proof {
        assert(bytes@.len() > 0) by {
            if bytes@.len() == 0 {
                lemma_empty_encoding(value@);
            }
        }
    }
    let first = bytes[0];
    if !((48 <= first && first <= 57) || (65 <= first && first <= 90) || (97 <= first && first
        <= 122)) {
        return Err(ModelError::new("identifier must begin with an ASCII letter or digit"));
    }
    Ok(())
}

/// Only the empty text has the empty encoding.
proof fn lemma_empty_encoding(s: Seq<char>)
    requires
        encode_utf8(s).len() == 0,
    ensures
        s.len() == 0,
{
    if s.len() > 0 {
        vstd::utf8::encode_utf8_first_scalar(s);
        assert(encode_utf8(s) =~= encode_scalar(s[0] as u32) + encode_utf8(s.drop_first()));
    }
}

fn validate_version(value: &str) -> (r: Result<(), ModelError>)
    ensures
        check_outcome(r, version_problem(value@)),
{
    let bytes = value.as_bytes();
    if value.is_empty() {
        return Err(ModelError::new("version must not be empty"));
    }
    if bytes.len() > 128 {
        return Err(ModelError::new("version exceeds 128 bytes"));
    }
    if text_eq(value, ".") || text_eq(value, "..") {
        return Err(ModelError::new("version must not be '.' or '..'"));
    }
    if !bytes_all(bytes, true) {
        return Err(ModelError::new("version contains unsupported characters"));
    }
    Ok(())
}

fn validate_reference(value: &str) -> (r: Result<(), ModelError>)
    ensures
        check_outcome(r, reference_problem(value@)),
{
    if value.is_empty() {
        return Err(ModelError::new("source reference must not be empty"));
    }
    if value.as_bytes().len() > 512 {
        return Err(ModelError::new("source reference exceeds 512 bytes"));
    }
    if chars_any_control(value, false) {
        return Err(ModelError::new("source reference contains control characters"));
    }
    Ok(())
}

fn find_scheme_separator(b: &[u8]) -> (r: Option<usize>)
    ensures
        match r {
            Some(i) => scheme_separator_from(b@, 0) == Some(i as int),
            None => scheme_separator_from(b@, 0) is None,
        },
        r matches Some(i) ==> i + 3 <= b@.len(),
{
    let mut i: usize = 0;
    while i < b.len() && b.len() - i >= 3
        invariant
            scheme_separator_from(b@, 0) == scheme_separator_from(b@, i as int),
        decreases b@.len() - i,
    {
        if b[i] == 58 && b[i + 1] == 47 && b[i + 2] == 47 {
            return Some(i);
        }
        i = i + 1;
    }
    None
}

fn validate_url(value: &str) -> (r: Result<(), ModelError>)
    ensures
        check_outcome(r, url_problem(value@)),
{
    let bytes = value.as_bytes();
    if value.is_empty() {
        return Err(ModelError::new("source URL must not be empty"));
    }
    if bytes.len() > 4096 {
        return Err(ModelError::new("source URL exceeds 4096 bytes"));
    }
    if chars_any_control(value, true) {
        return Err(ModelError::new("source URL contains whitespace or control characters"));
    }
    let scheme = match find_scheme_separator(bytes) {
        Some(i) => i > 0 && i < bytes.len() - 3,
        None => false,
    };
    let scp = bytes.len() >= 4 && bytes[0] == 103 && bytes[1] == 105 && bytes[2] == 116
        && bytes[3] == 64 && slice_contains(bytes, 58);
    if !scheme && !scp {
        return Err(ModelError::new("source URL must have a scheme or Git SSH scp form"));
    }
    Ok(())
}

fn slice_contains(b: &[u8], x: u8) -> (r: bool)
    ensures
        r == b@.contains(x),
{
    let mut i: usize = 0;
    while i < b.len()
        invariant
            i <= b@.len(),
            forall|k: int| 0 <= k < i ==> b@[k] != x,
        decreases b@.len() - i,
    {
        if b[i] == x {
            return true;
        }
        i = i + 1;
    }
    false
}

fn validate_local_path(value: &str) -> (r: Result<(), ModelError>)
    ensures
        check_outcome(r, local_path_problem(value@)),
{
    if value.is_empty() {
        return Err(ModelError::new("local source path must not be empty"));
    }
    if value.as_bytes().len() > 4096 {
        return Err(ModelError::new("local source path exceeds 4096 bytes"));
    }
    if contains_char(value, '\0') {
        return Err(ModelError::new("local source path contains NUL"));
    }
    Ok(())
}

/// The outcome of parsing a validated identifier of the given problem.
pub open spec fn parse_outcome<T: View<V = Seq<char>>>(
    r: Result<T, ModelError>,
    value: Seq<char>,
    p: Option<Seq<char>>,
) -> bool {
    match r {
        Ok(v) => p is None && v@ == value,
        Err(e) => p == Some(e@),
    }
}

/// A package name: 1 to 128 bytes of ASCII letters, digits, `.`, `_` and `-`,
/// beginning with a letter or digit, and neither `.` nor `..`.
#[derive(Debug, PartialEq, Eq, PartialOrd, Ord, Hash)]
pub struct PackageName(String);

impl View for PackageName {
    type V = Seq<char>;

    closed spec fn view(&self) -> Seq<char> {
        self.0@
    }
}

impl Clone for PackageName {
    fn clone(&self) -> (r: Self)
        ensures
            r == *self,
    {
        PackageName(self.0.clone())
    }
}

impl PackageName {
    pub fn parse(value: &str) -> (r: Result<Self, ModelError>)
        ensures
            parse_outcome(r, value@, name_problem(value@)),
    {
        match validate_name(value) {
            Ok(()) => Ok(PackageName(String::from_str(value))),
            Err(e) => Err(e),
        }
    }

    pub fn as_str(&self) -> (r: &str)
        ensures
            r@ == self@,
    {
        self.0.as_str()
    }
}

/// A plugin name, under the same rules as a package name.
#[derive(Debug, PartialEq, Eq, PartialOrd, Ord, Hash)]
pub struct PluginName(String);

impl View for PluginName {
    type V = Seq<char>;

    closed spec fn view(&self) -> Seq<char> {
        self.0@
    }
}

impl Clone for PluginName {
    fn clone(&self) -> (r: Self)
        ensures
            r == *self,
    {
        PluginName(self.0.clone())
    }
}

impl PluginName {
    pub fn parse(value: &str) -> (r: Result<Self, ModelError>)
        ensures
            parse_outcome(r, value@, name_problem(value@)),
    {
        match validate_name(value) {
            Ok(()) => Ok(PluginName(String::from_str(value))),
            Err(e) => Err(e),
        }
    }

    pub fn as_str(&self) -> (r: &str)
        ensures
            r@ == self@,
    {
        self.0.as_str()
    }
}

/// A package version: 1 to 128 bytes of ASCII letters, digits, `.`, `_`, `-`
/// and `+`, and neither `.` nor `..`.
#[derive(Debug, PartialEq, Eq, PartialOrd, Ord, Hash)]
pub struct PackageVersion(String);

impl View for PackageVersion {
    type V = Seq<char>;

    closed spec fn view(&self) -> Seq<char> {
        self.0@
    }
}

impl Clone for PackageVersion {
    fn clone(&self) -> (r: Self)
        ensures
            r == *self,
    {
        PackageVersion(self.0.clone())
    }
}

impl PackageVersion {
    pub fn parse(value: &str) -> (r: Result<Self, ModelError>)
        ensures
            parse_outcome(r, value@, version_problem(value@)),
    {
        match validate_version(value) {
            Ok(()) => Ok(PackageVersion(String::from_str(value))),
            Err(e) => Err(e),
        }
    }

    pub fn as_str(&self) -> (r: &str)
        ensures
            r@ == self@,
    {
        self.0.as_str()
    }
}

/// A human source reference (branch, tag): 1 to 512 bytes, no control characters.
#[derive(Debug, PartialEq, Eq, PartialOrd, Ord, Hash)]
pub struct SourceReference(String);

impl View for SourceReference {
    type V = Seq<char>;

    closed spec fn view(&self) -> Seq<char> {
        self.0@
    }
}

impl Clone for SourceReference {
    fn clone(&self) -> (r: Self)
        ensures
            r == *self,
    {
        SourceReference(self.0.clone())
    }
}

impl SourceReference {
    pub fn parse(value: &str) -> (r: Result<Self, ModelError>)
        ensures
            parse_outcome(r, value@, reference_problem(value@)),
    {
        match validate_reference(value) {
            Ok(()) => Ok(SourceReference(String::from_str(value))),
            Err(e) => Err(e),
        }
    }

    pub fn as_str(&self) -> (r: &str)
        ensures
            r@ == self@,
    {
        self.0.as_str()
    }
}

/// A source URL: 1 to 4096 bytes without whitespace or control characters, with
/// a `scheme://rest` form or the Git SSH scp form.
#[derive(Debug, PartialEq, Eq, PartialOrd, Ord, Hash)]
pub struct SourceUrl(String);

impl View for SourceUrl {
    type V = Seq<char>;

    closed spec fn view(&self) -> Seq<char> {
        self.0@
    }
}

impl Clone for SourceUrl {
    fn clone(&self) -> (r: Self)
        ensures
            r == *self,
    {
        SourceUrl(self.0.clone())
    }
}

impl SourceUrl {
    pub fn parse(value: &str) -> (r: Result<Self, ModelError>)
        ensures
            parse_outcome(r, value@, url_problem(value@)),
    {
        match validate_url(value) {
            Ok(()) => Ok(SourceUrl(String::from_str(value))),
            Err(e) => Err(e),
        }
    }

    pub fn as_str(&self) -> (r: &str)
        ensures
            r@ == self@,
    {
        self.0.as_str()
    }
}

/// A local development source path: 1 to 4096 bytes without NUL.
#[derive(Debug, PartialEq, Eq, PartialOrd, Ord, Hash)]
pub struct LocalSourcePath(String);

impl View for LocalSourcePath {
    type V = Seq<char>;

    closed spec fn view(&self) -> Seq<char> {
        self.0@
    }
}

impl Clone for LocalSourcePath {
    fn clone(&self) -> (r: Self)
        ensures
            r == *self,
    {
        LocalSourcePath(self.0.clone())
    }
}

impl LocalSourcePath {
    pub fn parse(value: &str) -> (r: Result<Self, ModelError>)
        ensures
            parse_outcome(r, value@, local_path_problem(value@)),
    {
        match validate_local_path(value) {
            Ok(()) => Ok(LocalSourcePath(String::from_str(value))),
            Err(e) => Err(e),
        }
    }

    pub fn as_str(&self) -> (r: &str)
        ensures
            r@ == self@,
    {
        self.0.as_str()
    }
}

/// The normalized Git object ID for `s`: its ASCII lower-case form, when that
/// has 40 or 64 characters, all hexadecimal.
pub open spec fn git_commit_text(s: Seq<char>) -> Option<Seq<char>> {
    let l = ascii_lower_text(s);
    if (l.len() == 40 || l.len() == 64) && all_hex(l) {
        Some(l)
    } else {
        None
    }
}

/// A Git commit identity, stored in lower case.
#[derive(Debug, PartialEq, Eq, PartialOrd, Ord, Hash)]
pub struct GitCommit(String);

impl View for GitCommit {
    type V = Seq<char>;

    closed spec fn view(&self) -> Seq<char> {
        self.0@
    }
}

impl Clone for GitCommit {
    fn clone(&self) -> (r: Self)
        ensures
            r == *self,
    {
        GitCommit(self.0.clone())
    }
}

impl GitCommit {
    pub fn parse(value: &str) -> (r: Result<Self, ModelError>)
        ensures
            match r {
                Ok(c) => git_commit_text(value@) == Some(c@),
                Err(e) => git_commit_text(value@) is None
                    && e@ == "Git commit identity must be a 40- or 64-character hexadecimal object ID"@,
            },
    {
        let lower = to_ascii_lowercase(value);
        let n = lower.as_str().unicode_len();
        if !((n == 40 || n == 64) && chars_all_hex(lower.as_str())) {
            return Err(
                ModelError::new(
                    "Git commit identity must be a 40- or 64-character hexadecimal object ID",
                ),
            );
        }
        Ok(GitCommit(lower))
    }

    pub fn as_str(&self) -> (r: &str)
        ensures
            r@ == self@,
    {
        self.0.as_str()
    }
}

/// The 64 lower-case hexadecimal digits of a SHA-256 digest written as `s`:
/// `s` in ASCII lower case, without one leading `sha256:` tag.
pub open spec fn sha256_text(s: Seq<char>) -> Option<Seq<char>> {
    let h = untagged(ascii_lower_text(s));
    if h.len() == 64 && all_hex(h) {
        Some(h)
    } else {
        None
    }
}

/// `l` without one leading `sha256:` tag.
pub open spec fn untagged(l: Seq<char>) -> Seq<char> {
    if l.len() >= 7 && l.take(7) == "sha256:"@ {
        l.skip(7)
    } else {
        l
    }
}

/// A SHA-256 digest, stored as 64 lower-case hexadecimal digits.
#[derive(Debug, PartialEq, Eq, PartialOrd, Ord, Hash)]
pub struct Sha256Digest(String);

impl View for Sha256Digest {
    type V = Seq<char>;

    closed spec fn view(&self) -> Seq<char> {
        self.0@
    }
}

impl Clone for Sha256Digest {
    fn clone(&self) -> (r: Self)
        ensures
            r == *self,
    {
        Sha256Digest(self.0.clone())
    }
}

impl Sha256Digest {
    pub fn parse(value: &str) -> (r: Result<Self, ModelError>)
        ensures
            match r {
                Ok(d) => sha256_text(value@) == Some(d@),
                Err(e) => sha256_text(value@) is None
                    && e@ == "SHA-256 digest must contain exactly 64 hexadecimal characters"@,
            },
    {
        let lower = to_ascii_lowercase(value);
        let tagged = starts_with_text(lower.as_str(), "sha256:");
        proof {
            reveal_strlit("sha256:");
        }
        let hex = if tagged {
            String::from_str(skip_chars(lower.as_str(), 7))
        } else {
            lower
        };
        let n = hex.as_str().unicode_len();
        let ghost l = ascii_lower_text(value@);
        assert(tagged == (l.len() >= 7 && l.take(7) == "sha256:"@));
        assert(hex@ == if tagged { l.skip(7) } else { l });
        assert(hex@ == untagged(l));
        if !(n == 64 && chars_all_hex(hex.as_str())) {
            return Err(
                ModelError::new("SHA-256 digest must contain exactly 64 hexadecimal characters"),
            );
        }
        Ok(Sha256Digest(hex))
    }

    pub fn as_str(&self) -> (r: &str)
        ensures
            r@ == self@,
    {
        self.0.as_str()
    }

    /// The digest with its `sha256:` tag.
    pub fn tagged(&self) -> (r: String)
        ensures
            r@ == "sha256:"@ + self@,
    {
        concat2("sha256:", self.0.as_str())
    }
}

/// Whether `s` begins with `https://`.
pub open spec fn is_https(s: Seq<char>) -> bool {
    "https://"@.len() <= s.len() && s.take("https://"@.len() as int) == "https://"@
}

/// The name and version of the package a manifest describes.
#[derive(Debug, Clone, PartialEq, Eq)]
pub struct PackageMetadata {
    pub name: PackageName,
    pub version: PackageVersion,
}

/// The build systems a package uses and their options.
#[derive(Debug, Clone, PartialEq, Eq, Default)]
pub struct BuildDeclaration {
    pub systems: Vec<PluginName>,
    pub options: TextMap,
}

/// Where a dependency comes from, as the manifest declares it.
#[derive(Debug, Clone, PartialEq, Eq)]
pub enum SourceDeclaration {
    Git { url: SourceUrl, reference: Option<SourceReference> },
    Archive { url: SourceUrl, sha256: Option<Sha256Digest> },
    Path { path: LocalSourcePath },
}

/// The problem with a declared source, if any: archives need `https://`.
pub open spec fn declared_source_problem(s: SourceDeclaration) -> Option<Seq<char>> {
    match s {
        SourceDeclaration::Archive { url, .. } => if !is_https(url@) {
            Some("archive sources require an https:// URL in Prep 2 v1"@)
        } else {
            None
        },
        _ => None,
    }
}

impl SourceDeclaration {
    pub(crate) fn validate(&self) -> (r: Result<(), ModelError>)
        ensures
            check_outcome(r, declared_source_problem(*self)),
    {
        if let SourceDeclaration::Archive { url, .. } = self {
            if !starts_with_text(url.as_str(), "https://") {
                return Err(ModelError::new("archive sources require an https:// URL in Prep 2 v1"));
            }
        }
        Ok(())
    }
}

/// A dependency the manifest declares.
#[derive(Debug, Clone, PartialEq, Eq)]
pub struct DependencyDeclaration {
    pub name: PackageName,
    pub version: PackageVersion,
    pub source: SourceDeclaration,
}

/// A package manifest (`prep.toml`).
#[derive(Debug, Clone, PartialEq, Eq)]
pub struct Manifest {
    pub schema: String,
    pub package: PackageMetadata,
    pub build: BuildDeclaration,
    pub dependencies: Vec<DependencyDeclaration>,
}

/// The names of a list of package names.
pub open spec fn name_views(s: Seq<PackageName>) -> Seq<Seq<char>> {
    s.map_values(|n: PackageName| n@)
}

/// The names of declared dependencies, in order.
pub open spec fn dependency_names(deps: Seq<DependencyDeclaration>) -> Seq<Seq<char>> {
    deps.map_values(|d: DependencyDeclaration| d.name@)
}

/// The first problem among the first `n` declared dependencies: a source
/// problem, or a name that an earlier dependency already has.
pub open spec fn dependency_problem(deps: Seq<DependencyDeclaration>, n: nat) -> Option<Seq<char>>
    decreases n,
{
    if n == 0 {
        None
    } else {
        match dependency_problem(deps, (n - 1) as nat) {
            Some(p) => Some(p),
            None => match declared_source_problem(deps[n - 1].source) {
                Some(p) => Some(p),
                None => if dependency_names(deps).take(n - 1).contains(deps[n - 1].name@) {
                    Some("duplicate dependency "@ + deps[n - 1].name@)
                } else {
                    None
                },
            },
        }
    }
}

proof fn lemma_dependency_problem_stable(deps: Seq<DependencyDeclaration>, i: nat, n: nat)
    requires
        i <= n,
        dependency_problem(deps, i) is Some,
    ensures
        dependency_problem(deps, n) == dependency_problem(deps, i),
    decreases n,
{
    if n > i {
        lemma_dependency_problem_stable(deps, i, (n - 1) as nat);
    }
}

/// The problem with a manifest, if any: an unsupported schema or a dependency problem.
pub open spec fn manifest_problem(m: Manifest) -> Option<Seq<char>> {
    if m.schema@ != MANIFEST_SCHEMA_V1@ {
        Some(
            "unsupported manifest schema "@ + debug_quoted(m.schema@) + "; expected "@
                + MANIFEST_SCHEMA_V1@,
        )
    } else {
        dependency_problem(m.dependencies@, m.dependencies@.len())
    }
}

fn dependency_name_list(deps: &Vec<DependencyDeclaration>) -> (r: Vec<&str>)
    ensures
        views(r@) == dependency_names(deps@),
{
    let mut r: Vec<&str> = Vec::new();
    let mut i: usize = 0;
    while i < deps.len()
        invariant
            i <= deps@.len(),
            views(r@) =~= dependency_names(deps@).take(i as int),
        decreases deps@.len() - i,
    {
        r.push(deps[i].name.as_str());
        assert(dependency_names(deps@).take(i + 1) =~= dependency_names(deps@).take(i as int).push(
            deps@[i as int].name@,
        ));
        i = i + 1;
    }
    assert(dependency_names(deps@).take(deps@.len() as int) =~= dependency_names(deps@));
    r
}

pub(crate) fn package_name_list(names: &Vec<PackageName>) -> (r: Vec<&str>)
    ensures
        views(r@) == name_views(names@),
{
    let mut r: Vec<&str> = Vec::new();
    let mut i: usize = 0;
    while i < names.len()
        invariant
            i <= names@.len(),
            views(r@) =~= name_views(names@).take(i as int),
        decreases names@.len() - i,
    {
        r.push(names[i].as_str());
        assert(name_views(names@).take(i + 1) =~= name_views(names@).take(i as int).push(
            names@[i as int]@,
        ));
        i = i + 1;
    }
    assert(name_views(names@).take(names@.len() as int) =~= name_views(names@));
    r
}

fn unsupported_schema(label: &str, schema: &str, expected: &str) -> (r: ModelError)
    ensures
        r@ == label@ + debug_quoted(schema@) + "; expected "@ + expected@,
{
    let quoted = debug_text(schema);
    ModelError::from_string(concat4(label, quoted.as_str(), "; expected ", expected))
}

impl Manifest {
    /// Checks the schema and the declared dependencies.
    pub fn validate(&self) -> (r: Result<(), ModelError>)
        ensures
            check_outcome(r, manifest_problem(*self)),
    {
        if !text_eq(self.schema.as_str(), MANIFEST_SCHEMA_V1) {
            return Err(
                unsupported_schema(
                    "unsupported manifest schema ",
                    self.schema.as_str(),
                    MANIFEST_SCHEMA_V1,
                ),
            );
        }
        let names = dependency_name_list(&self.dependencies);
        assert(views(names@).len() == names@.len());
        let mut i: usize = 0;
        while i < self.dependencies.len()
            invariant
                i <= self.dependencies@.len(),
                views(names@) == dependency_names(self.dependencies@),
                names@.len() == self.dependencies@.len(),
                self.schema@ == MANIFEST_SCHEMA_V1@,
                dependency_problem(self.dependencies@, i as nat) is None,
            decreases self.dependencies@.len() - i,
        {
            let dependency = &self.dependencies[i];
            if let Err(e) = dependency.source.validate() {
                proof {
                    assert(dependency_problem(self.dependencies@, (i + 1) as nat) == Some(e@));
                    lemma_dependency_problem_stable(
                        self.dependencies@,
                        (i + 1) as nat,
                        self.dependencies@.len() as nat,
                    );
                }
                return Err(e);
            }
            if crate::text::texts_contain(&names, i, dependency.name.as_str()) {
                proof {
                    lemma_dependency_problem_stable(
                        self.dependencies@,
                        (i + 1) as nat,
                        self.dependencies@.len() as nat,
                    );
                }
                return Err(
                    ModelError::from_string(
                        concat2("duplicate dependency ", dependency.name.as_str()),
                    ),
                );
            }
            i = i + 1;
        }
        Ok(())
    }
}

/// The plugin that resolved a locked source.
#[derive(Debug, Clone, PartialEq, Eq)]
pub struct ProviderIdentity {
    pub name: PluginName,
    pub version: PackageVersion,
}

/// An immutable (or explicitly local) source identity recorded in the lockfile.
#[derive(Debug, Clone, PartialEq, Eq)]
pub enum LockedSource {
    Git {
        url: SourceUrl,
        commit: GitCommit,
        requested_ref: Option<SourceReference>,
        provider: ProviderIdentity,
    },
    Archive { url: SourceUrl, sha256: Sha256Digest, provider: ProviderIdentity },
    Path { path: LocalSourcePath },
}

/// The problem with a locked source, if any: archives need `https://`.
pub open spec fn locked_source_problem(s: LockedSource) -> Option<Seq<char>> {
    match s {
        LockedSource::Archive { url, .. } => if !is_https(url@) {
            Some("locked archive sources require an https:// URL in Prep 2 v1"@)
        } else {
            None
        },
        _ => None,
    }
}

/// The canonical text identity of a locked source.
pub open spec fn canonical_identity_text(s: LockedSource) -> Seq<char> {
    match s {
        LockedSource::Git { url, commit, .. } => "git:"@ + url@ + "@"@ + commit@,
        LockedSource::Archive { url, sha256, .. } => "archive:"@ + url@ + "#"@ + ("sha256:"@
            + sha256@),
        LockedSource::Path { path } => "local:"@ + path@,
    }
}

impl LockedSource {
    /// Git and archive sources are immutable; local paths are not.
    pub fn is_immutable(&self) -> (r: bool)
        ensures
            r == !(*self is Path),
    {
        !matches!(self, LockedSource::Path { .. })
    }

    /// Only immutable sources may populate the global result cache.
    pub fn is_globally_cacheable(&self) -> (r: bool)
        ensures
            r == !(*self is Path),
    {
        self.is_immutable()
    }

    /// `git:<url>@<commit>`, `archive:<url>#sha256:<hex>` or `local:<path>`.
    pub fn canonical_identity(&self) -> (r: String)
        ensures
            r@ == canonical_identity_text(*self),
    {
        match self {
            LockedSource::Git { url, commit, .. } => concat4(
                "git:",
                url.as_str(),
                "@",
                commit.as_str(),
            ),
            LockedSource::Archive { url, sha256, .. } => {
                let tagged = sha256.tagged();
                concat4("archive:", url.as_str(), "#", tagged.as_str())
            },
            LockedSource::Path { path } => concat2("local:", path.as_str()),
        }
    }

    pub(crate) fn validate(&self) -> (r: Result<(), ModelError>)
        ensures
            check_outcome(r, locked_source_problem(*self)),
    {
        if let LockedSource::Archive { url, .. } = self {
            if !starts_with_text(url.as_str(), "https://") {
                return Err(
                    ModelError::new("locked archive sources require an https:// URL in Prep 2 v1"),
                );
            }
        }
        Ok(())
    }
}

/// The root package of a lockfile and its direct dependencies.
#[derive(Debug, Clone, PartialEq, Eq)]
pub struct LockedRoot {
    pub name: PackageName,
    pub version: PackageVersion,
    pub dependencies: Vec<PackageName>,
}

/// One locked package with its dependency edges and source.
#[derive(Debug, Clone, PartialEq, Eq)]
pub struct LockedPackage {
    pub name: PackageName,
    pub version: PackageVersion,
    pub dependencies: Vec<PackageName>,
    pub source: LockedSource,
}

/// A lockfile (`prep.lock`).
#[derive(Debug, Clone, PartialEq, Eq)]
pub struct Lockfile {
    pub schema: String,
    pub root: LockedRoot,
    pub packages: Vec<LockedPackage>,
}

/// The names of locked packages, in order.
pub open spec fn package_names(pkgs: Seq<LockedPackage>) -> Seq<Seq<char>> {
    pkgs.map_values(|p: LockedPackage| p.name@)
}

/// The first problem among the first `n` locked packages: a source problem, a
/// name already used by an earlier package, or a repeated dependency.
pub open spec fn locked_package_problem(pkgs: Seq<LockedPackage>, n: nat) -> Option<Seq<char>>
    decreases n,
{
    if n == 0 {
        None
    } else {
        match locked_package_problem(pkgs, (n - 1) as nat) {
            Some(p) => Some(p),
            None => {
                let p = pkgs[n - 1];
                let deps = name_views(p.dependencies@);
                match locked_source_problem(p.source) {
                    Some(e) => Some(e),
                    None => if package_names(pkgs).take(n - 1).contains(p.name@) {
                        Some("duplicate locked package "@ + p.name@)
                    } else {
                        match first_repeat(deps, deps.len()) {
                            Some(k) => Some(
                                "package "@ + p.name@ + " has duplicate dependency "@ + deps[k],
                            ),
                            None => None,
                        }
                    },
                }
            },
        }
    }
}

proof fn lemma_locked_package_problem_stable(pkgs: Seq<LockedPackage>, i: nat, n: nat)
    requires
        i <= n,
        locked_package_problem(pkgs, i) is Some,
    ensures
        locked_package_problem(pkgs, n) == locked_package_problem(pkgs, i),
    decreases n,
{
    if n > i {
        lemma_locked_package_problem_stable(pkgs, i, (n - 1) as nat);
    }
}

/// The problem with a lockfile, if any.
pub open spec fn lock_problem(l: Lockfile) -> Option<Seq<char>> {
    let roots = name_views(l.root.dependencies@);
    if l.schema@ != LOCK_SCHEMA_V1@ {
        Some("unsupported lock schema "@ + debug_quoted(l.schema@) + "; expected "@ + LOCK_SCHEMA_V1@)
    } else {
        match locked_package_problem(l.packages@, l.packages@.len()) {
            Some(p) => Some(p),
            None => match first_repeat(roots, roots.len()) {
                Some(k) => Some("root has duplicate dependency "@ + roots[k]),
                None => None,
            },
        }
    }
}

/// Two lists of names hold the same set of names.
pub open spec fn same_names(a: Seq<Seq<char>>, b: Seq<Seq<char>>) -> bool {
    (forall|i: int| 0 <= i < a.len() ==> b.contains(#[trigger] a[i])) && (forall|j: int|
        0 <= j < b.len() ==> a.contains(#[trigger] b[j]))
}

/// The optional text of an optional reference.
pub open spec fn reference_view(r: Option<SourceReference>) -> Option<Seq<char>> {
    match r {
        Some(x) => Some(x@),
        None => None,
    }
}

/// Whether a locked source is what the manifest declared: same kind, same URL
/// or path, same requested reference, and the declared digest if one was given.
pub open spec fn source_matches(d: SourceDeclaration, l: LockedSource) -> bool {
    match (d, l) {
        (
            SourceDeclaration::Git { url, reference },
            LockedSource::Git { url: locked_url, requested_ref, .. },
        ) => url@ == locked_url@ && reference_view(reference) == reference_view(requested_ref),
        (
            SourceDeclaration::Archive { url, sha256 },
            LockedSource::Archive { url: locked_url, sha256: locked_digest, .. },
        ) => url@ == locked_url@ && (sha256 matches Some(x) ==> x@ == locked_digest@),
        (SourceDeclaration::Path { path }, LockedSource::Path { path: locked_path }) => path@
            == locked_path@,
        _ => false,
    }
}

/// The first locked package named `name`.
pub open spec fn find_package(pkgs: Seq<LockedPackage>, name: Seq<char>) -> Option<int> {
    first_index(package_names(pkgs), name)
}

/// How the lockfile fails to match a declared dependency, if it does.
pub open spec fn dependency_mismatch(l: Lockfile, d: DependencyDeclaration) -> Option<Seq<char>> {
    match find_package(l.packages@, d.name@) {
        None => Some("manifest dependency "@ + d.name@ + " is missing from lockfile"@),
        Some(k) => if l.packages@[k].version@ != d.version@ {
            Some("locked version for "@ + d.name@ + " does not match manifest"@)
        } else if !source_matches(d.source, l.packages@[k].source) {
            Some(
                "locked source for "@ + d.name@
                    + " does not match manifest: source kind or declared identity differs"@,
            )
        } else {
            None
        },
    }
}

/// Among the first `n` declared dependencies, the one with the least name that
/// the lockfile fails to match.
pub open spec fn least_mismatch(l: Lockfile, deps: Seq<DependencyDeclaration>, n: nat) -> Option<int>
    decreases n,
{
    if n == 0 {
        None
    } else {
        let prev = least_mismatch(l, deps, (n - 1) as nat);
        if dependency_mismatch(l, deps[n - 1]) is Some {
            match prev {
                Some(k) => if text_lt(deps[n - 1].name@, deps[k].name@) {
                    Some(n - 1)
                } else {
                    Some(k)
                },
                None => Some(n - 1),
            }
        } else {
            prev
        }
    }
}

/// The problem with a lockfile as a resolution of a manifest, if any.
pub open spec fn lock_against_problem(l: Lockfile, m: Manifest) -> Option<Seq<char>> {
    let deps = m.dependencies@;
    match lock_problem(l) {
        Some(p) => Some(p),
        None => match manifest_problem(m) {
            Some(p) => Some(p),
            None => if l.root.name@ != m.package.name@ || l.root.version@ != m.package.version@ {
                Some("lock root package identity does not match manifest"@)
            } else if !same_names(name_views(l.root.dependencies@), dependency_names(deps)) {
                Some("lock root dependency set does not match manifest dependencies"@)
            } else {
                match least_mismatch(l, deps, deps.len()) {
                    Some(k) => dependency_mismatch(l, deps[k]),
                    None => None,
                }
            },
        },
    }
}

fn option_reference_eq(a: &Option<SourceReference>, b: &Option<SourceReference>) -> (r: bool)
    ensures
        r == (reference_view(*a) == reference_view(*b)),
{
    match (a, b) {
        (Some(x), Some(y)) => text_eq(x.as_str(), y.as_str()),
        (None, None) => true,
        _ => false,
    }
}

fn validate_source_match(declaration: &SourceDeclaration, locked: &LockedSource) -> (r: Result<
    (),
    ModelError,
>)
    ensures
        match r {
            Ok(_) => source_matches(*declaration, *locked),
            Err(e) => !source_matches(*declaration, *locked) && e@
                == "source kind or declared identity differs"@,
        },
{
    let matched = match (declaration, locked) {
        (
            SourceDeclaration::Git { url, reference },
            LockedSource::Git { url: locked_url, requested_ref, .. },
        ) => text_eq(url.as_str(), locked_url.as_str()) && option_reference_eq(
            reference,
            requested_ref,
        ),
        (
            SourceDeclaration::Archive { url, sha256 },
            LockedSource::Archive { url: locked_url, sha256: locked_digest, .. },
        ) => text_eq(url.as_str(), locked_url.as_str()) && match sha256 {
            Some(digest) => text_eq(digest.as_str(), locked_digest.as_str()),
            None => true,
        },
        (SourceDeclaration::Path { path }, LockedSource::Path { path: locked_path }) => text_eq(
            path.as_str(),
            locked_path.as_str(),
        ),
        _ => false,
    };
    if matched {
        Ok(())
    } else {
        Err(ModelError::new("source kind or declared identity differs"))
    }
}

/// Whether every name of `a` occurs in `b`.
fn names_within(a: &Vec<&str>, b: &Vec<&str>) -> (r: bool)
    ensures
        r == (forall|i: int| 0 <= i < a@.len() ==> views(b@).contains(#[trigger] views(a@)[i])),
{
    let mut i: usize = 0;
    while i < a.len()
        invariant
            i <= a@.len(),
            forall|k: int| 0 <= k < i ==> views(b@).contains(#[trigger] views(a@)[k]),
        decreases a@.len() - i,
    {
        if !crate::text::texts_contain(b, b.len(), a[i]) {
            assert(views(b@).take(b@.len() as int) =~= views(b@));
            assert(views(a@)[i as int] == a@[i as int]@);
            return false;
        }
        assert(views(b@).take(b@.len() as int) =~= views(b@));
        assert(views(a@)[i as int] == a@[i as int]@);
        i = i + 1;
    }
    true
}

fn locate_package(pkgs: &Vec<LockedPackage>, name: &str) -> (r: Option<usize>)
    ensures
        match r {
            Some(k) => find_package(pkgs@, name@) == Some(k as int) && k < pkgs@.len(),
            None => find_package(pkgs@, name@) is None,
        },
{
    let mut i: usize = 0;
    while i < pkgs.len()
        invariant
            i <= pkgs@.len(),
            forall|k: int| 0 <= k < i ==> package_names(pkgs@)[k] != name@,
        decreases pkgs@.len() - i,
    {
        if text_eq(pkgs[i].name.as_str(), name) {
            proof {
                lemma_first_index(package_names(pkgs@), name@, i as int);
            }
            return Some(i);
        }
        i = i + 1;
    }
    proof {
        if package_names(pkgs@).contains(name@) {
            let j = choose|j: int| 0 <= j < package_names(pkgs@).len() && package_names(pkgs@)[j]
                == name@;
            assert(package_names(pkgs@)[j] != name@);
        }
    }
    None
}

fn check_dependency(lock: &Lockfile, d: &DependencyDeclaration) -> (r: Option<ModelError>)
    ensures
        match r {
            Some(e) => dependency_mismatch(*lock, *d) == Some(e@),
            None => dependency_mismatch(*lock, *d) is None,
        },
{
    match locate_package(&lock.packages, d.name.as_str()) {
        None => Some(
            ModelError::from_string(
                concat3("manifest dependency ", d.name.as_str(), " is missing from lockfile"),
            ),
        ),
        Some(k) => {
            let package = &lock.packages[k];
            if !text_eq(package.version.as_str(), d.version.as_str()) {
                return Some(
                    ModelError::from_string(
                        concat3("locked version for ", d.name.as_str(), " does not match manifest"),
                    ),
                );
            }
            match validate_source_match(&d.source, &package.source) {
                Ok(()) => None,
                Err(_) => Some(
                    ModelError::from_string(
                        concat3(
                            "locked source for ",
                            d.name.as_str(),
                            " does not match manifest: source kind or declared identity differs",
                        ),
                    ),
                ),
            }
        },
    }
}

impl Lockfile {
    /// Checks the schema, each package (source, unique name, unique dependency
    /// edges) and the root's unique dependency edges.
    pub fn validate(&self) -> (r: Result<(), ModelError>)
        ensures
            check_outcome(r, lock_problem(*self)),
    {
        if !text_eq(self.schema.as_str(), LOCK_SCHEMA_V1) {
            return Err(
                unsupported_schema("unsupported lock schema ", self.schema.as_str(), LOCK_SCHEMA_V1),
            );
        }
        let mut names: Vec<&str> = Vec::new();
        let mut i: usize = 0;
        while i < self.packages.len()
            invariant
                i <= self.packages@.len(),
                views(names@) =~= package_names(self.packages@).take(i as int),
                names@.len() == i,
                self.schema@ == LOCK_SCHEMA_V1@,
                locked_package_problem(self.packages@, i as nat) is None,
            decreases self.packages@.len() - i,
        {
            let package = &self.packages[i];
            if let Err(e) = package.source.validate() {
                proof {
                    assert(locked_package_problem(self.packages@, (i + 1) as nat) == Some(e@));
                    lemma_locked_package_problem_stable(
                        self.packages@,
                        (i + 1) as nat,
                        self.packages@.len() as nat,
                    );
                }
                return Err(e);
            }
            if crate::text::texts_contain(&names, i, package.name.as_str()) {
                proof {
                    assert(views(names@).take(i as int) =~= views(names@));
                    lemma_locked_package_problem_stable(
                        self.packages@,
                        (i + 1) as nat,
                        self.packages@.len() as nat,
                    );
                }
                return Err(
                    ModelError::from_string(
                        concat2("duplicate locked package ", package.name.as_str()),
                    ),
                );
            }
            proof {
                assert(views(names@).take(i as int) =~= views(names@));
            }
            let deps = package_name_list(&package.dependencies);
            if let Some(k) = find_first_repeat(&deps) {
                proof {
                    assert(views(deps@)[k as int] == deps@[k as int]@);
                    lemma_locked_package_problem_stable(
                        self.packages@,
                        (i + 1) as nat,
                        self.packages@.len() as nat,
                    );
                }
                return Err(
                    ModelError::from_string(
                        concat4(
                            "package ",
                            package.name.as_str(),
                            " has duplicate dependency ",
                            deps[k],
                        ),
                    ),
                );
            }
            names.push(package.name.as_str());
            assert(views(names@).len() == names@.len());
            assert(package_names(self.packages@).take(i + 1) =~= package_names(self.packages@).take(
                i as int,
            ).push(self.packages@[i as int].name@));
            i = i + 1;
        }
        let roots = package_name_list(&self.root.dependencies);
        if let Some(k) = find_first_repeat(&roots) {
            assert(views(roots@)[k as int] == roots@[k as int]@);
            return Err(
                ModelError::from_string(concat2("root has duplicate dependency ", roots[k])),
            );
        }
        Ok(())
    }

    /// Checks that this lockfile is a resolution of `manifest`: both valid, the
    /// same root package, the same direct dependencies, and for each declared
    /// dependency (in name order) a locked package of the declared version whose
    /// source matches the declaration.
    pub fn validate_against(&self, manifest: &Manifest) -> (r: Result<(), ModelError>)
        ensures
            check_outcome(r, lock_against_problem(*self, *manifest)),
    {
        self.validate()?;
        manifest.validate()?;
        if !text_eq(self.root.name.as_str(), manifest.package.name.as_str()) || !text_eq(
            self.root.version.as_str(),
            manifest.package.version.as_str(),
        ) {
            return Err(ModelError::new("lock root package identity does not match manifest"));
        }
        let roots = package_name_list(&self.root.dependencies);
        let declared = dependency_name_list(&manifest.dependencies);
        if !names_within(&roots, &declared) || !names_within(&declared, &roots) {
            return Err(
                ModelError::new("lock root dependency set does not match manifest dependencies"),
            );
        }
        let ghost deps = manifest.dependencies@;
        let mut best: Option<usize> = None;
        let mut best_error: Option<ModelError> = None;
        let mut i: usize = 0;
        while i < manifest.dependencies.len()
            invariant
                i <= deps.len(),
                deps == manifest.dependencies@,
                match best {
                    Some(k) => {
                        &&& least_mismatch(*self, deps, i as nat) == Some(k as int)
                        &&& k < i
                        &&& best_error matches Some(e) && dependency_mismatch(
                            *self,
                            deps[k as int],
                        ) == Some(e@)
                    },
                    None => least_mismatch(*self, deps, i as nat) is None && best_error is None,
                },
            decreases deps.len() - i,
        {
            let d = &manifest.dependencies[i];
            if let Some(e) = check_dependency(self, d) {
                let replace = match best {
                    Some(k) => compare_text(d.name.as_str(), manifest.dependencies[k].name.as_str())
                        == TextOrder::Less,
                    None => true,
                };
                if replace {
                    best = Some(i);
                    best_error = Some(e);
                }
            }
            i = i + 1;
        }
        match best_error {
            Some(e) => Err(e),
            None => Ok(()),
        }
    }
}


} // verus!
