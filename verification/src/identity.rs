//! Build-result identity: the digest of every input that can change a
//! native build's output.
use crate::manifest::{
    all_hex, is_hex_char, canonical_identity_text, sha256_text, untagged, LockedSource, PackageName,
    PackageVersion, PluginName, Sha256Digest,
};
use crate::text::{
    ascii_chars, ascii_lower, ascii_lower_text, concat2, contains_char, decimal, decimal_text, first_repeat,
    find_first_repeat, lemma_stable_sorted_permutation, skip_chars, sort_indices, sorted_indices, stable_sorted, starts_with_text,
    string_from_ascii, texts_contain, to_ascii_lowercase, views,
};
use crate::text_map::TextMap;
use vstd::prelude::*;
use vstd::string::*;
use vstd::utf8::*;

verus! {

/// A published build result's identity: `sha256:` and a SHA-256 digest.
#[derive(Debug, PartialEq, Eq, PartialOrd, Ord, Hash)]
pub struct ResultId(String);

impl View for ResultId {
    type V = Seq<char>;

    closed spec fn view(&self) -> Seq<char> {
        self.0@
    }
}

impl Clone for ResultId {
    fn clone(&self) -> (r: Self)
        ensures
            r == *self,
    {
        ResultId(self.0.clone())
    }
}

/// Why a build input has no reusable result identity.
#[derive(Debug, Clone, PartialEq, Eq)]
pub enum IdentityError {
    NonCacheableSource,
    Invalid(String),
    DuplicateDependency(String),
    DuplicateToolRole(String),
}

/// The message of an identity error.
pub open spec fn identity_error_text(e: IdentityError) -> Seq<char> {
    match e {
        IdentityError::NonCacheableSource => "local development source is not eligible for a reusable result identity"@,
        IdentityError::Invalid(m) => m@,
        IdentityError::DuplicateDependency(p) => "duplicate dependency result for "@ + p@,
        IdentityError::DuplicateToolRole(r) => "duplicate output-affecting tool role "@ + r@,
    }
}

impl IdentityError {
    /// The error's message.
    pub fn describe(&self) -> (r: String)
        ensures
            r@ == identity_error_text(*self),
    {
        match self {
            IdentityError::NonCacheableSource => String::from_str(
                "local development source is not eligible for a reusable result identity",
            ),
            IdentityError::Invalid(message) => message.clone(),
            IdentityError::DuplicateDependency(package) => concat2(
                "duplicate dependency result for ",
                package.as_str(),
            ),
            IdentityError::DuplicateToolRole(role) => concat2(
                "duplicate output-affecting tool role ",
                role.as_str(),
            ),
        }
    }
}

/// Whether `s` begins with `p`.
pub open spec fn has_prefix(s: Seq<char>, p: Seq<char>) -> bool {
    p.len() <= s.len() && s.take(p.len() as int) == p
}

/// What parsing `value` as a result identity gives: `Ok` with the normalized
/// identity, or `Err` with the message.
pub open spec fn result_id_text(value: Seq<char>) -> Result<Seq<char>, Seq<char>> {
    if !has_prefix(value, "sha256:"@) {
        Err("result identity must use sha256:<hex> form"@)
    } else {
        let digest = value.skip(7);
        if sha256_text(digest) is None {
            Err("SHA-256 digest must contain exactly 64 hexadecimal characters"@)
        } else {
            Ok("sha256:"@ + ascii_lower_text(digest))
        }
    }
}

impl ResultId {
    pub fn parse(value: &str) -> (r: Result<Self, IdentityError>)
        ensures
            match result_id_text(value@) {
                Ok(t) => r matches Ok(id) && id@ == t,
                Err(m) => r matches Err(IdentityError::Invalid(x)) && x@ == m,
            },
    {
        proof {
            reveal_strlit("sha256:");
        }
        if !starts_with_text(value, "sha256:") {
            return Err(
                IdentityError::Invalid(
                    String::from_str("result identity must use sha256:<hex> form"),
                ),
            );
        }
        let digest = skip_chars(value, 7);
        match Sha256Digest::parse(digest) {
            Err(e) => Err(IdentityError::Invalid(String::from_str(e.message()))),
            Ok(_) => {
                let lower = to_ascii_lowercase(digest);
                Ok(ResultId(concat2("sha256:", lower.as_str())))
            },
        }
    }

    pub fn as_str(&self) -> (r: &str)
        ensures
            r@ == self@,
    {
        self.0.as_str()
    }
}

/// A normalized identity of an output-affecting executable.
#[derive(Debug, Clone, PartialEq, Eq)]
pub struct ToolIdentity {
    pub role: String,
    pub executable: String,
    pub version: String,
}

/// The identity of the build plugin.
#[derive(Debug, Clone, PartialEq, Eq)]
pub struct PluginBuildIdentity {
    pub name: PluginName,
    pub version: PackageVersion,
    pub content_digest: Sha256Digest,
    pub protocol: String,
}

/// The result a dependency resolved to.
#[derive(Debug, Clone, PartialEq, Eq)]
pub struct DependencyResult {
    pub package: PackageName,
    pub result: ResultId,
}

/// Every input that determines a build result.
#[derive(Debug, Clone, PartialEq, Eq)]
pub struct BuildInput {
    pub source: LockedSource,
    pub dependencies: Vec<DependencyResult>,
    pub target: String,
    pub toolchain: ToolIdentity,
    pub build_tools: Vec<ToolIdentity>,
    pub plugin: PluginBuildIdentity,
    pub configuration: TextMap,
    pub environment: TextMap,
}

/// The problem with a scalar input named `label`, if any: it must be non-empty,
/// at most 16 KiB, and free of NUL.
pub open spec fn scalar_problem(label: Seq<char>, v: Seq<char>) -> Option<Seq<char>> {
    if v.len() == 0 {
        Some(label + " must not be empty"@)
    } else if encode_utf8(v).len() > 16 * 1024 {
        Some(label + " is unreasonably large"@)
    } else if v.contains('\0') {
        Some(label + " contains NUL"@)
    } else {
        None
    }
}

/// The problem with a tool identity, if any: role, executable, then version.
pub open spec fn tool_problem(t: ToolIdentity) -> Option<Seq<char>> {
    match scalar_problem("tool role"@, t.role@) {
        Some(m) => Some(m),
        None => match scalar_problem("tool executable"@, t.executable@) {
            Some(m) => Some(m),
            None => scalar_problem("tool version"@, t.version@),
        },
    }
}

/// Dependencies in the order of their package names.
pub open spec fn sorted_dependencies(b: BuildInput) -> Seq<DependencyResult> {
    stable_sorted(
        b.dependencies@,
        b.dependencies@.map_values(|d: DependencyResult| d.package@),
    )
}

/// Build tools in the order of their roles.
pub open spec fn sorted_tools(b: BuildInput) -> Seq<ToolIdentity> {
    stable_sorted(b.build_tools@, b.build_tools@.map_values(|t: ToolIdentity| t.role@))
}

/// A failure found while scanning tools: an invalid tool (with its message) or
/// a repeated role.
pub enum ToolFailure {
    Invalid(Seq<char>),
    DuplicateRole(Seq<char>),
}

/// The first failure among the first `n` tools.
pub open spec fn tool_scan(tools: Seq<ToolIdentity>, n: nat) -> Option<ToolFailure>
    decreases n,
{
    if n == 0 {
        None
    } else {
        match tool_scan(tools, (n - 1) as nat) {
            Some(f) => Some(f),
            None => {
                let t = tools[n - 1];
                match tool_problem(t) {
                    Some(m) => Some(ToolFailure::Invalid(m)),
                    None => if tools.take(n - 1).map_values(|u: ToolIdentity| u.role@).contains(
                        t.role@,
                    ) {
                        Some(ToolFailure::DuplicateRole(t.role@))
                    } else {
                        None
                    },
                }
            },
        }
    }
}

proof fn lemma_tool_scan_stable(tools: Seq<ToolIdentity>, i: nat, n: nat)
    requires
        i <= n,
        tool_scan(tools, i) is Some,
    ensures
        tool_scan(tools, n) == tool_scan(tools, i),
    decreases n,
{
    if n > i {
        lemma_tool_scan_stable(tools, i, (n - 1) as nat);
    }
}

/// The first problem among the first `n` key/value entries.
pub open spec fn entry_scan(e: Seq<(Seq<char>, Seq<char>)>, n: nat) -> Option<Seq<char>>
    decreases n,
{
    if n == 0 {
        None
    } else {
        match entry_scan(e, (n - 1) as nat) {
            Some(m) => Some(m),
            None => match scalar_problem("build input key"@, e[n - 1].0) {
                Some(m) => Some(m),
                None => scalar_problem("build input value"@, e[n - 1].1),
            },
        }
    }
}

proof fn lemma_entry_scan_stable(e: Seq<(Seq<char>, Seq<char>)>, i: nat, n: nat)
    requires
        i <= n,
        entry_scan(e, i) is Some,
    ensures
        entry_scan(e, n) == entry_scan(e, i),
    decreases n,
{
    if n > i {
        lemma_entry_scan_stable(e, i, (n - 1) as nat);
    }
}

/// The eight big-endian bytes of `n`.
pub open spec fn be_u64(n: nat) -> Seq<u8> {
    seq![
        (n / 0x100000000000000 % 256) as u8,
        (n / 0x1000000000000 % 256) as u8,
        (n / 0x10000000000 % 256) as u8,
        (n / 0x100000000 % 256) as u8,
        (n / 0x1000000 % 256) as u8,
        (n / 0x10000 % 256) as u8,
        (n / 0x100 % 256) as u8,
        (n % 256) as u8,
    ]
}

/// A length-prefixed byte string.
pub open spec fn framed(b: Seq<u8>) -> Seq<u8> {
    be_u64(b.len()) + b
}

/// The encoding of one labelled field.
pub open spec fn field_bytes(label: Seq<char>, value: Seq<char>) -> Seq<u8> {
    framed(encode_utf8(label)) + framed(encode_utf8(value))
}

/// The encoding of a sequence of labelled fields, in order.
pub open spec fn fields_bytes(f: Seq<(Seq<char>, Seq<char>)>) -> Seq<u8>
    decreases f.len(),
{
    if f.len() == 0 {
        Seq::empty()
    } else {
        fields_bytes(f.drop_last()) + field_bytes(f.last().0, f.last().1)
    }
}

/// The fields of a tool identity under `prefix`.
pub open spec fn tool_fields(prefix: Seq<char>, t: ToolIdentity) -> Seq<(Seq<char>, Seq<char>)> {
    seq![
        (prefix + ".role"@, t.role@),
        (prefix + ".executable"@, t.executable@),
        (prefix + ".version"@, t.version@),
    ]
}

/// The fields of the dependencies, in order.
pub open spec fn dependency_fields(d: Seq<DependencyResult>) -> Seq<(Seq<char>, Seq<char>)>
    decreases d.len(),
{
    if d.len() == 0 {
        Seq::empty()
    } else {
        dependency_fields(d.drop_last()) + seq![
            ("dependency.package"@, d.last().package@),
            ("dependency.result"@, d.last().result@),
        ]
    }
}

/// The fields of the build tools, in order.
pub open spec fn build_tool_fields(t: Seq<ToolIdentity>) -> Seq<(Seq<char>, Seq<char>)>
    decreases t.len(),
{
    if t.len() == 0 {
        Seq::empty()
    } else {
        build_tool_fields(t.drop_last()) + tool_fields("build_tool"@, t.last())
    }
}

/// The fields of a map under `prefix`: its size, then each key and value in order.
pub open spec fn map_fields(prefix: Seq<char>, e: Seq<(Seq<char>, Seq<char>)>) -> Seq<
    (Seq<char>, Seq<char>),
> {
    seq![(prefix + ".count"@, decimal(e.len()))] + entry_fields(prefix, e)
}

/// The key and value fields of map entries under `prefix`, in order.
pub open spec fn entry_fields(prefix: Seq<char>, e: Seq<(Seq<char>, Seq<char>)>) -> Seq<
    (Seq<char>, Seq<char>),
>
    decreases e.len(),
{
    if e.len() == 0 {
        Seq::empty()
    } else {
        entry_fields(prefix, e.drop_last()) + seq![
            (prefix + ".key"@, e.last().0),
            (prefix + ".value"@, e.last().1),
        ]
    }
}

/// The leading fields: schema, source, target and toolchain.
pub open spec fn header_fields(b: BuildInput) -> Seq<(Seq<char>, Seq<char>)> {
    seq![
        ("schema"@, "prep.result/1"@),
        ("source"@, canonical_identity_text(b.source)),
        ("target"@, b.target@),
    ] + tool_fields("toolchain"@, b.toolchain)
}

/// The plugin fields.
pub open spec fn plugin_fields(b: BuildInput) -> Seq<(Seq<char>, Seq<char>)> {
    seq![
        ("plugin.name"@, b.plugin.name@),
        ("plugin.version"@, b.plugin.version@),
        ("plugin.digest"@, "sha256:"@ + b.plugin.content_digest@),
        ("plugin.protocol"@, b.plugin.protocol@),
    ]
}

/// Every field of a build input that its identity covers, in hashing order.
pub open spec fn identity_fields(b: BuildInput) -> Seq<(Seq<char>, Seq<char>)> {
    let deps = sorted_dependencies(b);
    let tools = sorted_tools(b);
    header_fields(b) + seq![("dependency.count"@, decimal(deps.len()))] + dependency_fields(deps)
        + seq![("build_tool.count"@, decimal(tools.len()))] + build_tool_fields(tools)
        + plugin_fields(b) + map_fields("configuration"@, b.configuration@) + map_fields(
        "environment"@,
        b.environment@,
    )
}

/// What SHA-256 gives for `data`.
pub uninterp spec fn sha256_digest(data: Seq<u8>) -> Seq<u8>;

/// Calls `sha2::Sha256::digest`: the SHA-256 digest of `data`, 32 bytes long
/// (`Sha256`'s output size is 32 bytes).
#[verifier::external_body]
fn sha256(data: &[u8]) -> (r: Vec<u8>)
    ensures
        r@ == sha256_digest(data@),
        r@.len() == 32,
{
    <sha2::Sha256 as sha2::Digest>::digest(data).to_vec()
}

/// A lower-case hexadecimal digit for `n < 16`.
pub open spec fn hex_digit(n: u8) -> u8 {
    if n < 10 {
        (48 + n) as u8
    } else {
        (87 + n) as u8
    }
}

/// The lower-case hexadecimal rendering of bytes, two digits per byte.
pub open spec fn hex_bytes(b: Seq<u8>) -> Seq<u8>
    decreases b.len(),
{
    if b.len() == 0 {
        Seq::empty()
    } else {
        hex_bytes(b.drop_last()) + seq![hex_digit(b.last() / 16), hex_digit(b.last() % 16)]
    }
}

/// The lower-case hexadecimal text of bytes.
pub open spec fn hex_text(b: Seq<u8>) -> Seq<char> {
    ascii_chars(hex_bytes(b))
}

/// The identity of a build input whose checks pass.
pub open spec fn identity_text(b: BuildInput) -> Seq<char> {
    "sha256:"@ + hex_text(sha256_digest(fields_bytes(identity_fields(b))))
}

/// Whether `r` is what computing the identity of `b` gives: the first failed
/// check in order (source, target, toolchain, plugin protocol, duplicate
/// dependency, tools in role order, configuration and environment entries),
/// or the identity.
pub open spec fn identity_outcome(b: BuildInput, r: Result<ResultId, IdentityError>) -> bool {
    let deps = sorted_dependencies(b);
    let dep_names = deps.map_values(|d: DependencyResult| d.package@);
    let tools = sorted_tools(b);
    let entries = b.configuration@ + b.environment@;
    if b.source is Path {
        r matches Err(IdentityError::NonCacheableSource)
    } else if scalar_problem("target"@, b.target@) is Some {
        r matches Err(IdentityError::Invalid(m)) && Some(m@) == scalar_problem(
            "target"@,
            b.target@,
        )
    } else if tool_problem(b.toolchain) is Some {
        r matches Err(IdentityError::Invalid(m)) && Some(m@) == tool_problem(b.toolchain)
    } else if scalar_problem("plugin protocol"@, b.plugin.protocol@) is Some {
        r matches Err(IdentityError::Invalid(m)) && Some(m@) == scalar_problem(
            "plugin protocol"@,
            b.plugin.protocol@,
        )
    } else if first_repeat(dep_names, dep_names.len()) is Some {
        r matches Err(IdentityError::DuplicateDependency(m)) && m@ == dep_names[first_repeat(
            dep_names,
            dep_names.len(),
        )->0]
    } else if tool_scan(tools, tools.len()) is Some {
        match tool_scan(tools, tools.len()) {
            Some(ToolFailure::Invalid(x)) => r matches Err(IdentityError::Invalid(m)) && m@ == x,
            Some(ToolFailure::DuplicateRole(x)) => r matches Err(
                IdentityError::DuplicateToolRole(m),
            ) && m@ == x,
            None => false,
        }
    } else if entry_scan(entries, entries.len()) is Some {
        r matches Err(IdentityError::Invalid(m)) && Some(m@) == entry_scan(entries, entries.len())
    } else {
        r matches Ok(id) && id@ == identity_text(b)
    }
}

fn validate_scalar(label: &str, value: &str) -> (r: Result<(), IdentityError>)
    ensures
        match scalar_problem(label@, value@) {
            Some(m) => r matches Err(IdentityError::Invalid(x)) && x@ == m,
            None => r is Ok,
        },
{
    if value.is_empty() {
        return Err(IdentityError::Invalid(concat2(label, " must not be empty")));
    }
    if value.as_bytes().len() > 16 * 1024 {
        return Err(IdentityError::Invalid(concat2(label, " is unreasonably large")));
    }
    if contains_char(value, '\0') {
        return Err(IdentityError::Invalid(concat2(label, " contains NUL")));
    }
    Ok(())
}

fn validate_tool(tool: &ToolIdentity) -> (r: Result<(), IdentityError>)
    ensures
        match tool_problem(*tool) {
            Some(m) => r matches Err(IdentityError::Invalid(x)) && x@ == m,
            None => r is Ok,
        },
{
    validate_scalar("tool role", tool.role.as_str())?;
    validate_scalar("tool executable", tool.executable.as_str())?;
    validate_scalar("tool version", tool.version.as_str())
}

/// The byte stream that the identity digest covers.
struct IdentityHasher {
    bytes: Vec<u8>,
}

fn append_bytes(buffer: &mut Vec<u8>, b: &[u8])
    ensures
        final(buffer)@ == old(buffer)@ + b@,
{
    let mut i: usize = 0;
    while i < b.len()
        invariant
            i <= b@.len(),
            buffer@ == old(buffer)@ + b@.take(i as int),
        decreases b@.len() - i,
    {
        buffer.push(b[i]);
        assert(b@.take(i + 1) =~= b@.take(i as int).push(b@[i as int]));
        assert(buffer@ =~= old(buffer)@ + b@.take(i + 1));
        i = i + 1;
    }
    assert(b@.take(b@.len() as int) =~= b@);
}

impl IdentityHasher {
    fn new() -> (r: Self)
        ensures
            r.bytes@ == Seq::<u8>::empty(),
    {
        IdentityHasher { bytes: Vec::new() }
    }

    fn frame(&mut self, value: &[u8])
        ensures
            final(self).bytes@ == old(self).bytes@ + framed(value@),
    {
        let n = value.len() as u64;
        let be: [u8; 8] = [
            (n / 0x100000000000000 % 256) as u8,
            (n / 0x1000000000000 % 256) as u8,
            (n / 0x10000000000 % 256) as u8,
            (n / 0x100000000 % 256) as u8,
            (n / 0x1000000 % 256) as u8,
            (n / 0x10000 % 256) as u8,
            (n / 0x100 % 256) as u8,
            (n % 256) as u8,
        ];
        assert(be@ =~= be_u64(value@.len()));
        append_bytes(&mut self.bytes, be.as_slice());
        append_bytes(&mut self.bytes, value);
        assert(self.bytes@ =~= old(self).bytes@ + framed(value@));
    }

    fn field(&mut self, label: &str, value: &str)
        ensures
            final(self).bytes@ == old(self).bytes@ + field_bytes(label@, value@),
    {
        self.frame(label.as_bytes());
        self.frame(value.as_bytes());
        assert(self.bytes@ =~= old(self).bytes@ + field_bytes(label@, value@));
    }

    fn count(&mut self, label: &str, value: usize)
        ensures
            final(self).bytes@ == old(self).bytes@ + field_bytes(label@, decimal(value as nat)),
    {
        let text = decimal_text(value);
        self.field(label, text.as_str());
    }

    fn tool(&mut self, prefix: &str, tool: &ToolIdentity)
        ensures
            final(self).bytes@ == old(self).bytes@ + fields_bytes(tool_fields(prefix@, *tool)),
    {
        let role = concat2(prefix, ".role");
        let executable = concat2(prefix, ".executable");
        let version = concat2(prefix, ".version");
        self.field(role.as_str(), tool.role.as_str());
        self.field(executable.as_str(), tool.executable.as_str());
        self.field(version.as_str(), tool.version.as_str());
        proof {
            let f = tool_fields(prefix@, *tool);
            lemma_fields_bytes_push(f.take(2), f[2]);
            lemma_fields_bytes_push(f.take(1), f[1]);
            lemma_fields_bytes_push(f.take(0), f[0]);
            assert(f.take(2).push(f[2]) =~= f);
            assert(f.take(1).push(f[1]) =~= f.take(2));
            assert(f.take(0).push(f[0]) =~= f.take(1));
            assert(f.take(0) =~= Seq::<(Seq<char>, Seq<char>)>::empty());
            assert(self.bytes@ =~= old(self).bytes@ + fields_bytes(f));
        }
    }

    fn map(&mut self, prefix: &str, values: &TextMap)
        ensures
            final(self).bytes@ == old(self).bytes@ + fields_bytes(map_fields(prefix@, values@)),
    {
        let count_label = concat2(prefix, ".count");
        let key_label = concat2(prefix, ".key");
        let value_label = concat2(prefix, ".value");
        let n = values.len();
        self.count(count_label.as_str(), n);
        let ghost start = self.bytes@;
        let mut i: usize = 0;
        while i < n
            invariant
                i <= n,
                n == values@.len(),
                key_label@ == prefix@ + ".key"@,
                value_label@ == prefix@ + ".value"@,
                self.bytes@ == start + fields_bytes(entry_fields(prefix@, values@.take(i as int))),
            decreases n - i,
        {
            let (k, v) = values.entry(i);
            self.field(key_label.as_str(), k);
            self.field(value_label.as_str(), v);
            proof {
                let e = values@.take(i + 1);
                assert(e.drop_last() =~= values@.take(i as int));
                let pre = entry_fields(prefix@, values@.take(i as int));
                let kf = (prefix@ + ".key"@, values@[i as int].0);
                let vf = (prefix@ + ".value"@, values@[i as int].1);
                assert(entry_fields(prefix@, e) =~= pre.push(kf).push(vf));
                lemma_fields_bytes_push(pre, kf);
                lemma_fields_bytes_push(pre.push(kf), vf);
                assert(self.bytes@ =~= start + fields_bytes(entry_fields(prefix@, e)));
            }
            i = i + 1;
        }
        proof {
            assert(values@.take(n as int) =~= values@);
            let head = seq![(prefix@ + ".count"@, decimal(n as nat))];
            lemma_fields_bytes_concat(head, entry_fields(prefix@, values@));
            lemma_fields_bytes_push(Seq::empty(), head[0]);
            assert(Seq::<(Seq<char>, Seq<char>)>::empty().push(head[0]) =~= head);
            assert(self.bytes@ =~= old(self).bytes@ + fields_bytes(map_fields(prefix@, values@)));
        }
    }

    fn finish_hex(self) -> (r: String)
        ensures
            r@ == hex_text(sha256_digest(self.bytes@)),
            sha256_digest(self.bytes@).len() == 32,
    {
        let digest = sha256(self.bytes.as_slice());
        digest_hex(digest.as_slice())
    }
}

/// The lower-case hexadecimal text of `digest`, two digits per byte.
pub fn digest_hex(digest: &[u8]) -> (r: String)
    ensures
        r@ == hex_text(digest@),
{
    let mut out: Vec<u8> = Vec::new();
    let mut i: usize = 0;
    while i < digest.len()
        invariant
            i <= digest@.len(),
            out@ == hex_bytes(digest@.take(i as int)),
            forall|k: int| 0 <= k < out@.len() ==> #[trigger] out@[k] < 128,
        decreases digest@.len() - i,
    {
        let b = digest[i];
        let hi = b / 16;
        let lo = b % 16;
        out.push(if hi < 10 { 48 + hi } else { 87 + hi });
        out.push(if lo < 10 { 48 + lo } else { 87 + lo });
        assert(digest@.take(i + 1).drop_last() =~= digest@.take(i as int));
        i = i + 1;
    }
    assert(digest@.take(digest@.len() as int) =~= digest@);
    string_from_ascii(out)
}

/// Whether `b` is the byte of a lower-case hexadecimal digit.
pub open spec fn is_lower_hex_byte(b: u8) -> bool {
    (48 <= b && b <= 57) || (97 <= b && b <= 102)
}

/// Whether `c` is a lower-case hexadecimal digit.
pub open spec fn is_lower_hex_char(c: char) -> bool {
    ('0' <= c && c <= '9') || ('a' <= c && c <= 'f')
}

/// The hexadecimal rendering has two lower-case digits per byte.
pub proof fn lemma_hex_bytes_shape(d: Seq<u8>)
    ensures
        hex_bytes(d).len() == 2 * d.len(),
        forall|i: int| 0 <= i < hex_bytes(d).len() ==> is_lower_hex_byte(#[trigger] hex_bytes(d)[i]),
    decreases d.len(),
{
    if d.len() > 0 {
        lemma_hex_bytes_shape(d.drop_last());
        let p = hex_bytes(d.drop_last());
        let q = seq![hex_digit(d.last() / 16), hex_digit(d.last() % 16)];
        assert(hex_bytes(d) == p + q);
        assert forall|i: int| 0 <= i < hex_bytes(d).len() implies is_lower_hex_byte(
            #[trigger] hex_bytes(d)[i],
        ) by {
            if i < p.len() {
                assert(hex_bytes(d)[i] == p[i]);
            } else {
                assert(hex_bytes(d)[i] == q[i - p.len()]);
            }
        }
    }
}

/// The text of a 32-byte digest is `sha256:` and 64 lower-case hexadecimal
/// digits, and parsing it as a result identity gives it back unchanged.
pub proof fn lemma_digest_identity_parses(d: Seq<u8>)
    requires
        d.len() == 32,
    ensures
        ("sha256:"@ + hex_text(d)).len() == 71,
        forall|i: int| 7 <= i < 71 ==> is_lower_hex_char(#[trigger] ("sha256:"@ + hex_text(d))[i]),
        result_id_text("sha256:"@ + hex_text(d)) == Ok::<Seq<char>, Seq<char>>("sha256:"@ + hex_text(d)),
{
    reveal_strlit("sha256:");
    lemma_hex_bytes_shape(d);
    let h = hex_text(d);
    let t = "sha256:"@ + h;
    assert forall|i: int| 0 <= i < h.len() implies is_lower_hex_char(#[trigger] h[i]) by {
        assert(h[i] == (hex_bytes(d)[i] as char));
        assert(is_lower_hex_byte(hex_bytes(d)[i]));
    }
    assert forall|i: int| 7 <= i < 71 implies is_lower_hex_char(#[trigger] t[i]) by {
        assert(t[i] == h[i - 7]);
    }
    assert(t.take(7) =~= "sha256:"@);
    assert(t.skip(7) =~= h);
    assert(ascii_lower_text(h) =~= h) by {
        assert forall|i: int| 0 <= i < h.len() implies ascii_lower(h[i]) == h[i] by {
            assert(is_lower_hex_char(h[i]));
        }
    }
    assert(h[0] != 's') by {
        assert(is_lower_hex_char(h[0]));
    }
    assert(h.take(7) != "sha256:"@) by {
        assert(h.take(7)[0] == h[0]);
        assert("sha256:"@[0] == 's');
    }
    assert(untagged(h) == h);
    assert(all_hex(h)) by {
        assert forall|i: int| 0 <= i < h.len() implies is_hex_char(#[trigger] h[i]) by {
            assert(is_lower_hex_char(h[i]));
        }
    }
}

/// Parsing the printed form of a parsed result identity gives it back.
pub proof fn law_result_id_text_round_trip(value: Seq<char>)
    requires
        result_id_text(value) is Ok,
    ensures
        result_id_text(result_id_text(value)->Ok_0) == result_id_text(value),
{
    reveal_strlit("sha256:");
    let digest = value.skip(7);
    let lower = ascii_lower_text(digest);
    let t = "sha256:"@ + lower;
    assert(t.take(7) =~= "sha256:"@);
    assert(t.skip(7) =~= lower);
    assert(ascii_lower_text(lower) =~= lower) by {
        assert forall|i: int| 0 <= i < lower.len() implies ascii_lower(#[trigger] lower[i]) == lower[i] by {
            let c = digest[i];
            if 'A' <= c && c <= 'Z' {
                assert('a' <= lower[i] && lower[i] <= 'z');
            }
        }
    }
}

proof fn lemma_fields_bytes_push(f: Seq<(Seq<char>, Seq<char>)>, x: (Seq<char>, Seq<char>))
    ensures
        fields_bytes(f.push(x)) == fields_bytes(f) + field_bytes(x.0, x.1),
{
    assert(f.push(x).drop_last() =~= f);
}

pub(crate) proof fn lemma_fields_bytes_concat(a: Seq<(Seq<char>, Seq<char>)>, b: Seq<(Seq<char>, Seq<char>)>)
    ensures
        fields_bytes(a + b) == fields_bytes(a) + fields_bytes(b),
    decreases b.len(),
{
    if b.len() == 0 {
        assert(a + b =~= a);
        assert(fields_bytes(a) + fields_bytes(b) =~= fields_bytes(a));
    } else {
        lemma_fields_bytes_concat(a, b.drop_last());
        assert((a + b).drop_last() =~= a + b.drop_last());
        assert(fields_bytes(a + b) =~= fields_bytes(a) + fields_bytes(b));
    }
}

/// The dependencies of `b` in package-name order.
fn dependencies_in_order(b: &BuildInput) -> (r: Vec<&DependencyResult>)
    ensures
        r@.len() == sorted_dependencies(*b).len(),
        forall|k: int| 0 <= k < r@.len() ==> *r@[k] == sorted_dependencies(*b)[k],
{
    let ghost keys = b.dependencies@.map_values(|d: DependencyResult| d.package@);
    let mut texts: Vec<&str> = Vec::new();
    let mut i: usize = 0;
    while i < b.dependencies.len()
        invariant
            i <= b.dependencies@.len(),
            keys == b.dependencies@.map_values(|d: DependencyResult| d.package@),
            texts@.map_values(|t: &str| t@) =~= keys.take(i as int),
        decreases b.dependencies@.len() - i,
    {
        texts.push(b.dependencies[i].package.as_str());
        assert(keys.take(i + 1) =~= keys.take(i as int).push(b.dependencies@[i as int].package@));
        i = i + 1;
    }
    assert(keys.take(keys.len() as int) =~= keys);
    let order = sort_indices(&texts);
    proof {
        crate::text::lemma_sorted_indices_bounds(keys, keys.len());
    }
    let mut r: Vec<&DependencyResult> = Vec::new();
    let mut k: usize = 0;
    while k < order.len()
        invariant
            k <= order@.len(),
            order@.len() == b.dependencies@.len(),
            texts@.map_values(|t: &str| t@) == keys,
            keys == b.dependencies@.map_values(|d: DependencyResult| d.package@),
            texts@.len() == b.dependencies@.len(),
            sorted_indices(keys, keys.len()).len() == keys.len(),
            forall|m: int| 0 <= m < order@.len() ==> order@[m] < texts@.len(),
            forall|m: int|
                0 <= m < order@.len() ==> order@[m] as int == sorted_indices(
                    texts@.map_values(|t: &str| t@),
                    texts@.len(),
                )[m],
            r@.len() == k,
            forall|m: int| 0 <= m < k ==> *r@[m] == sorted_dependencies(*b)[m],
        decreases order@.len() - k,
    {
        r.push(&b.dependencies[order[k]]);
        k = k + 1;
    }
    r
}

/// The build tools of `b` in role order.
fn tools_in_order(b: &BuildInput) -> (r: Vec<&ToolIdentity>)
    ensures
        r@.len() == sorted_tools(*b).len(),
        forall|k: int| 0 <= k < r@.len() ==> *r@[k] == sorted_tools(*b)[k],
{
    let ghost keys = b.build_tools@.map_values(|t: ToolIdentity| t.role@);
    let mut texts: Vec<&str> = Vec::new();
    let mut i: usize = 0;
    while i < b.build_tools.len()
        invariant
            i <= b.build_tools@.len(),
            keys == b.build_tools@.map_values(|t: ToolIdentity| t.role@),
            texts@.map_values(|t: &str| t@) =~= keys.take(i as int),
        decreases b.build_tools@.len() - i,
    {
        texts.push(b.build_tools[i].role.as_str());
        assert(keys.take(i + 1) =~= keys.take(i as int).push(b.build_tools@[i as int].role@));
        i = i + 1;
    }
    assert(keys.take(keys.len() as int) =~= keys);
    let order = sort_indices(&texts);
    proof {
        crate::text::lemma_sorted_indices_bounds(keys, keys.len());
    }
    let mut r: Vec<&ToolIdentity> = Vec::new();
    let mut k: usize = 0;
    while k < order.len()
        invariant
            k <= order@.len(),
            order@.len() == b.build_tools@.len(),
            texts@.map_values(|t: &str| t@) == keys,
            keys == b.build_tools@.map_values(|t: ToolIdentity| t.role@),
            texts@.len() == b.build_tools@.len(),
            sorted_indices(keys, keys.len()).len() == keys.len(),
            forall|m: int| 0 <= m < order@.len() ==> order@[m] < texts@.len(),
            forall|m: int|
                0 <= m < order@.len() ==> order@[m] as int == sorted_indices(
                    texts@.map_values(|t: &str| t@),
                    texts@.len(),
                )[m],
            r@.len() == k,
            forall|m: int| 0 <= m < k ==> *r@[m] == sorted_tools(*b)[m],
        decreases order@.len() - k,
    {
        r.push(&b.build_tools[order[k]]);
        k = k + 1;
    }
    r
}

/// Rejects a package that occurs twice among the ordered dependencies.
fn check_dependencies(deps: &Vec<&DependencyResult>, Ghost(sorted): Ghost<Seq<DependencyResult>>) -> (r: Result<
    (),
    IdentityError,
>)
    requires
        deps@.len() == sorted.len(),
        forall|k: int| 0 <= k < deps@.len() ==> *deps@[k] == sorted[k],
    ensures
        ({
            let names = sorted.map_values(|d: DependencyResult| d.package@);
            match first_repeat(names, names.len()) {
                Some(k) => r matches Err(IdentityError::DuplicateDependency(m)) && m@ == names[k],
                None => r is Ok,
            }
        }),
{
    let ghost names = sorted.map_values(|d: DependencyResult| d.package@);
    let mut texts: Vec<&str> = Vec::new();
    let mut i: usize = 0;
    while i < deps.len()
        invariant
            i <= deps@.len(),
            deps@.len() == sorted.len(),
            forall|k: int| 0 <= k < deps@.len() ==> *deps@[k] == sorted[k],
            names == sorted.map_values(|d: DependencyResult| d.package@),
            views(texts@) =~= names.take(i as int),
        decreases deps@.len() - i,
    {
        texts.push(deps[i].package.as_str());
        assert(names.take(i + 1) =~= names.take(i as int).push(names[i as int]));
        i = i + 1;
    }
    assert(names.take(names.len() as int) =~= names);
    if let Some(k) = find_first_repeat(&texts) {
        assert(views(texts@)[k as int] == texts@[k as int]@);
        return Err(IdentityError::DuplicateDependency(String::from_str(texts[k])));
    }
    Ok(())
}

/// Checks the ordered tools in turn: each must be valid and have a new role.
fn check_tools(tools: &Vec<&ToolIdentity>, Ghost(sorted): Ghost<Seq<ToolIdentity>>) -> (r: Result<
    (),
    IdentityError,
>)
    requires
        tools@.len() == sorted.len(),
        forall|k: int| 0 <= k < tools@.len() ==> *tools@[k] == sorted[k],
    ensures
        match tool_scan(sorted, sorted.len()) {
            Some(ToolFailure::Invalid(x)) => r matches Err(IdentityError::Invalid(m)) && m@ == x,
            Some(ToolFailure::DuplicateRole(x)) => r matches Err(
                IdentityError::DuplicateToolRole(m),
            ) && m@ == x,
            None => r is Ok,
        },
{
    let mut roles: Vec<&str> = Vec::new();
    let mut k: usize = 0;
    while k < tools.len()
        invariant
            k <= tools@.len(),
            tools@.len() == sorted.len(),
            forall|m: int| 0 <= m < tools@.len() ==> *tools@[m] == sorted[m],
            views(roles@) =~= sorted.take(k as int).map_values(|u: ToolIdentity| u.role@),
            roles@.len() == k,
            tool_scan(sorted, k as nat) is None,
        decreases tools@.len() - k,
    {
        let tool = tools[k];
        if let Err(e) = validate_tool(tool) {
            proof {
                lemma_tool_scan_stable(sorted, (k + 1) as nat, sorted.len());
            }
            return Err(e);
        }
        if texts_contain(&roles, k, tool.role.as_str()) {
            proof {
                assert(views(roles@).take(k as int) =~= views(roles@));
                assert(tool_scan(sorted, (k + 1) as nat) == Some(
                    ToolFailure::DuplicateRole(tool.role@),
                ));
                lemma_tool_scan_stable(sorted, (k + 1) as nat, sorted.len());
            }
            return Err(IdentityError::DuplicateToolRole(tool.role.clone()));
        }
        proof {
            assert(views(roles@).take(k as int) =~= views(roles@));
        }
        roles.push(tool.role.as_str());
        assert(sorted.take(k + 1).map_values(|u: ToolIdentity| u.role@) =~= sorted.take(
            k as int,
        ).map_values(|u: ToolIdentity| u.role@).push(tool.role@));
        k = k + 1;
    }
    Ok(())
}

/// Checks every key and value of the configuration, then of the environment.
fn check_entries(configuration: &TextMap, environment: &TextMap) -> (r: Result<(), IdentityError>)
    ensures
        ({
            let entries = configuration@ + environment@;
            match entry_scan(entries, entries.len()) {
                Some(x) => r matches Err(IdentityError::Invalid(m)) && m@ == x,
                None => r is Ok,
            }
        }),
{
    let ghost entries = configuration@ + environment@;
    let nc = configuration.len();
    let mut i: usize = 0;
    while i < nc
        invariant
            i <= nc,
            nc == configuration@.len(),
            entries == configuration@ + environment@,
            entry_scan(entries, i as nat) is None,
        decreases nc - i,
    {
        let (key, value) = configuration.entry(i);
        assert(entries[i as int] == configuration@[i as int]);
        if let Err(e) = validate_scalar("build input key", key) {
            proof {
                lemma_entry_scan_stable(entries, (i + 1) as nat, entries.len());
            }
            return Err(e);
        }
        if let Err(e) = validate_scalar("build input value", value) {
            proof {
                lemma_entry_scan_stable(entries, (i + 1) as nat, entries.len());
            }
            return Err(e);
        }
        i = i + 1;
    }
    let ne = environment.len();
    let mut i: usize = 0;
    while i < ne
        invariant
            i <= ne,
            ne == environment@.len(),
            nc == configuration@.len(),
            entries == configuration@ + environment@,
            entry_scan(entries, (nc + i) as nat) is None,
        decreases ne - i,
    {
        let (key, value) = environment.entry(i);
        assert(entries[nc + i] == environment@[i as int]);
        if let Err(e) = validate_scalar("build input key", key) {
            proof {
                lemma_entry_scan_stable(entries, (nc + i + 1) as nat, entries.len());
            }
            return Err(e);
        }
        if let Err(e) = validate_scalar("build input value", value) {
            proof {
                lemma_entry_scan_stable(entries, (nc + i + 1) as nat, entries.len());
            }
            return Err(e);
        }
        i = i + 1;
    }
    Ok(())
}

impl IdentityHasher {
    fn push_field(&mut self, label: &str, value: &str, Ghost(f): Ghost<Seq<(Seq<char>, Seq<char>)>>)
        requires
            old(self).bytes@ == fields_bytes(f),
        ensures
            final(self).bytes@ == fields_bytes(f.push((label@, value@))),
    {
        self.field(label, value);
        proof {
            lemma_fields_bytes_push(f, (label@, value@));
        }
    }

    fn header(&mut self, b: &BuildInput)
        ensures
            final(self).bytes@ == old(self).bytes@ + fields_bytes(header_fields(*b)),
    {
        let ghost start = self.bytes@;
        let source = b.source.canonical_identity();
        self.field("schema", "prep.result/1");
        self.field("source", source.as_str());
        self.field("target", b.target.as_str());
        self.tool("toolchain", &b.toolchain);
        proof {
            let t = seq![
                ("schema"@, "prep.result/1"@),
                ("source"@, source@),
                ("target"@, b.target@),
            ];
            lemma_fields_bytes_push(t.take(2), t[2]);
            lemma_fields_bytes_push(t.take(1), t[1]);
            lemma_fields_bytes_push(t.take(0), t[0]);
            assert(t.take(2).push(t[2]) =~= t);
            assert(t.take(1).push(t[1]) =~= t.take(2));
            assert(t.take(0).push(t[0]) =~= t.take(1));
            assert(t.take(0) =~= Seq::<(Seq<char>, Seq<char>)>::empty());
            lemma_fields_bytes_concat(t, tool_fields("toolchain"@, b.toolchain));
            assert(self.bytes@ =~= start + fields_bytes(header_fields(*b)));
        }
    }

    fn dependencies(&mut self, deps: &Vec<&DependencyResult>, Ghost(sd): Ghost<Seq<DependencyResult>>)
        requires
            deps@.len() == sd.len(),
            forall|k: int| 0 <= k < deps@.len() ==> *deps@[k] == sd[k],
        ensures
            final(self).bytes@ == old(self).bytes@ + fields_bytes(
                seq![("dependency.count"@, decimal(sd.len()))] + dependency_fields(sd),
            ),
    {
        let ghost start = self.bytes@;
        self.count("dependency.count", deps.len());
        let ghost mid = self.bytes@;
        let mut k: usize = 0;
        while k < deps.len()
            invariant
                k <= deps@.len(),
                deps@.len() == sd.len(),
                forall|m: int| 0 <= m < deps@.len() ==> *deps@[m] == sd[m],
                self.bytes@ == mid + fields_bytes(dependency_fields(sd.take(k as int))),
            decreases deps@.len() - k,
        {
            let d = deps[k];
            self.field("dependency.package", d.package.as_str());
            self.field("dependency.result", d.result.as_str());
            proof {
                let pre = dependency_fields(sd.take(k as int));
                let pf = ("dependency.package"@, d.package@);
                let rf = ("dependency.result"@, d.result@);
                assert(sd.take(k + 1).drop_last() =~= sd.take(k as int));
                assert(dependency_fields(sd.take(k + 1)) =~= pre.push(pf).push(rf));
                lemma_fields_bytes_push(pre, pf);
                lemma_fields_bytes_push(pre.push(pf), rf);
            }
            k = k + 1;
        }
        proof {
            assert(sd.take(sd.len() as int) =~= sd);
            let head = seq![("dependency.count"@, decimal(sd.len()))];
            lemma_fields_bytes_concat(head, dependency_fields(sd));
            lemma_fields_bytes_push(Seq::empty(), head[0]);
            assert(Seq::<(Seq<char>, Seq<char>)>::empty().push(head[0]) =~= head);
            assert(self.bytes@ =~= start + fields_bytes(head + dependency_fields(sd)));
        }
    }

    fn tools(&mut self, tools: &Vec<&ToolIdentity>, Ghost(st): Ghost<Seq<ToolIdentity>>)
        requires
            tools@.len() == st.len(),
            forall|k: int| 0 <= k < tools@.len() ==> *tools@[k] == st[k],
        ensures
            final(self).bytes@ == old(self).bytes@ + fields_bytes(
                seq![("build_tool.count"@, decimal(st.len()))] + build_tool_fields(st),
            ),
    {
        let ghost start = self.bytes@;
        self.count("build_tool.count", tools.len());
        let ghost mid = self.bytes@;
        let mut k: usize = 0;
        while k < tools.len()
            invariant
                k <= tools@.len(),
                tools@.len() == st.len(),
                forall|m: int| 0 <= m < tools@.len() ==> *tools@[m] == st[m],
                self.bytes@ == mid + fields_bytes(build_tool_fields(st.take(k as int))),
            decreases tools@.len() - k,
        {
            let tool = tools[k];
            self.tool("build_tool", tool);
            proof {
                let pre = build_tool_fields(st.take(k as int));
                assert(st.take(k + 1).drop_last() =~= st.take(k as int));
                assert(build_tool_fields(st.take(k + 1)) =~= pre + tool_fields(
                    "build_tool"@,
                    *tool,
                ));
                lemma_fields_bytes_concat(pre, tool_fields("build_tool"@, *tool));
            }
            k = k + 1;
        }
        proof {
            assert(st.take(st.len() as int) =~= st);
            let head = seq![("build_tool.count"@, decimal(st.len()))];
            lemma_fields_bytes_concat(head, build_tool_fields(st));
            lemma_fields_bytes_push(Seq::empty(), head[0]);
            assert(Seq::<(Seq<char>, Seq<char>)>::empty().push(head[0]) =~= head);
            assert(self.bytes@ =~= start + fields_bytes(head + build_tool_fields(st)));
        }
    }

    fn plugin(&mut self, b: &BuildInput)
        ensures
            final(self).bytes@ == old(self).bytes@ + fields_bytes(plugin_fields(*b)),
    {
        let ghost start = self.bytes@;
        let digest = b.plugin.content_digest.tagged();
        let mut part = IdentityHasher::new();
        let ghost t = plugin_fields(*b);
        assert(part.bytes@ =~= fields_bytes(t.take(0)));
        part.push_field("plugin.name", b.plugin.name.as_str(), Ghost(t.take(0)));
        assert(t.take(0).push(t[0]) =~= t.take(1));
        part.push_field("plugin.version", b.plugin.version.as_str(), Ghost(t.take(1)));
        assert(t.take(1).push(t[1]) =~= t.take(2));
        part.push_field("plugin.digest", digest.as_str(), Ghost(t.take(2)));
        assert(t.take(2).push(t[2]) =~= t.take(3));
        part.push_field("plugin.protocol", b.plugin.protocol.as_str(), Ghost(t.take(3)));
        assert(t.take(3).push(t[3]) =~= t);
        append_bytes(&mut self.bytes, part.bytes.as_slice());
    }
}

/// The encoding of an input's fields is the encodings of its parts in order.
proof fn lemma_identity_fields_split(b: BuildInput)
    ensures
        ({
            let sd = sorted_dependencies(b);
            let st = sorted_tools(b);
            fields_bytes(identity_fields(b)) == fields_bytes(header_fields(b)) + fields_bytes(
                seq![("dependency.count"@, decimal(sd.len()))] + dependency_fields(sd),
            ) + fields_bytes(seq![("build_tool.count"@, decimal(st.len()))] + build_tool_fields(st))
                + fields_bytes(plugin_fields(b)) + fields_bytes(
                map_fields("configuration"@, b.configuration@),
            ) + fields_bytes(map_fields("environment"@, b.environment@))
        }),
{
    let sd = sorted_dependencies(b);
    let st = sorted_tools(b);
    let p1 = header_fields(b);
    let p2 = seq![("dependency.count"@, decimal(sd.len()))] + dependency_fields(sd);
    let p3 = seq![("build_tool.count"@, decimal(st.len()))] + build_tool_fields(st);
    let p4 = plugin_fields(b);
    let p5 = map_fields("configuration"@, b.configuration@);
    let p6 = map_fields("environment"@, b.environment@);
    lemma_fields_bytes_concat(p1, p2);
    lemma_fields_bytes_concat(p1 + p2, p3);
    lemma_fields_bytes_concat(p1 + p2 + p3, p4);
    lemma_fields_bytes_concat(p1 + p2 + p3 + p4, p5);
    lemma_fields_bytes_concat(p1 + p2 + p3 + p4 + p5, p6);
    assert(identity_fields(b) =~= p1 + p2 + p3 + p4 + p5 + p6);
}

/// The labelled-field byte stream of `b`, given its ordered dependencies and tools.
fn identity_bytes(
    b: &BuildInput,
    deps: &Vec<&DependencyResult>,
    tools: &Vec<&ToolIdentity>,
) -> (r: IdentityHasher)
    requires
        deps@.len() == sorted_dependencies(*b).len(),
        forall|k: int| 0 <= k < deps@.len() ==> *deps@[k] == sorted_dependencies(*b)[k],
        tools@.len() == sorted_tools(*b).len(),
        forall|k: int| 0 <= k < tools@.len() ==> *tools@[k] == sorted_tools(*b)[k],
    ensures
        r.bytes@ == fields_bytes(identity_fields(*b)),
{
    let ghost sd = sorted_dependencies(*b);
    let ghost st = sorted_tools(*b);
    let mut hasher = IdentityHasher::new();
    hasher.header(b);
    hasher.dependencies(deps, Ghost(sd));
    hasher.tools(tools, Ghost(st));
    hasher.plugin(b);
    hasher.map("configuration", &b.configuration);
    hasher.map("environment", &b.environment);
    proof {
        lemma_identity_fields_split(*b);
        assert(fields_bytes(Seq::<(Seq<char>, Seq<char>)>::empty()) =~= Seq::<u8>::empty());
        assert(hasher.bytes@ =~= fields_bytes(identity_fields(*b)));
    }
    hasher
}

impl BuildInput {
    /// The reusable identity of the result this input builds: refused for local
    /// sources and for invalid or ambiguous inputs; otherwise `sha256:` and the
    /// SHA-256 digest of every labelled input field, with dependencies ordered by
    /// package and build tools by role.
    pub fn result_identity(&self) -> (r: Result<ResultId, IdentityError>)
        ensures
            identity_outcome(*self, r),
            r matches Ok(id) ==> {
                &&& id@.len() == 71
                &&& has_prefix(id@, "sha256:"@)
                &&& forall|i: int| 7 <= i < 71 ==> is_lower_hex_char(#[trigger] id@[i])
                &&& result_id_text(id@) == Ok::<Seq<char>, Seq<char>>(id@)
            },
    {
        if !self.source.is_globally_cacheable() {
            return Err(IdentityError::NonCacheableSource);
        }
        validate_scalar("target", self.target.as_str())?;
        validate_tool(&self.toolchain)?;
        validate_scalar("plugin protocol", self.plugin.protocol.as_str())?;
        let deps = dependencies_in_order(self);
        check_dependencies(&deps, Ghost(sorted_dependencies(*self)))?;
        let tools = tools_in_order(self);
        check_tools(&tools, Ghost(sorted_tools(*self)))?;
        check_entries(&self.configuration, &self.environment)?;
        let hasher = identity_bytes(self, &deps, &tools);
        let ghost bytes = hasher.bytes@;
        let hex = hasher.finish_hex();
        proof {
            lemma_digest_identity_parses(sha256_digest(bytes));
            reveal_strlit("sha256:");
            assert(("sha256:"@ + hex@).take(7) =~= "sha256:"@);
        }
        Ok(ResultId(concat2("sha256:", hex.as_str())))
    }
}


/// The package names of a list of dependency results.
pub open spec fn dependency_packages(d: Seq<DependencyResult>) -> Seq<Seq<char>> {
    d.map_values(|x: DependencyResult| x.package@)
}

/// The roles of a list of tools.
pub open spec fn tool_roles(t: Seq<ToolIdentity>) -> Seq<Seq<char>> {
    t.map_values(|x: ToolIdentity| x.role@)
}

/// The identity of a build input does not depend on the order in which its
/// dependency results or its build tools are listed: two inputs that differ
/// only in those orders, naming each dependency package and each tool role
/// once, compute the same outcome and the same identity.
pub proof fn law_identity_ignores_input_order(
    b1: BuildInput,
    b2: BuildInput,
    r: Result<ResultId, IdentityError>,
)
    requires
        b1.dependencies@.to_multiset() == b2.dependencies@.to_multiset(),
        b1.build_tools@.to_multiset() == b2.build_tools@.to_multiset(),
        dependency_packages(b1.dependencies@).no_duplicates(),
        dependency_packages(b2.dependencies@).no_duplicates(),
        tool_roles(b1.build_tools@).no_duplicates(),
        tool_roles(b2.build_tools@).no_duplicates(),
        b1.source == b2.source,
        b1.target == b2.target,
        b1.toolchain == b2.toolchain,
        b1.plugin == b2.plugin,
        b1.configuration == b2.configuration,
        b1.environment == b2.environment,
    ensures
        identity_outcome(b1, r) == identity_outcome(b2, r),
        identity_text(b1) == identity_text(b2),
{
    let dkey = |x: DependencyResult| x.package@;
    let tkey = |x: ToolIdentity| x.role@;
    assert(b1.dependencies@.map_values(dkey) =~= dependency_packages(b1.dependencies@));
    assert(b2.dependencies@.map_values(dkey) =~= dependency_packages(b2.dependencies@));
    assert(b1.build_tools@.map_values(tkey) =~= tool_roles(b1.build_tools@));
    assert(b2.build_tools@.map_values(tkey) =~= tool_roles(b2.build_tools@));
    lemma_stable_sorted_permutation(b1.dependencies@, b2.dependencies@, dkey);
    lemma_stable_sorted_permutation(b1.build_tools@, b2.build_tools@, tkey);
    assert(b1.dependencies@.map_values(dkey) =~= b1.dependencies@.map_values(
        |d: DependencyResult| d.package@,
    ));
    assert(b2.dependencies@.map_values(dkey) =~= b2.dependencies@.map_values(
        |d: DependencyResult| d.package@,
    ));
    assert(b1.build_tools@.map_values(tkey) =~= b1.build_tools@.map_values(
        |t: ToolIdentity| t.role@,
    ));
    assert(b2.build_tools@.map_values(tkey) =~= b2.build_tools@.map_values(
        |t: ToolIdentity| t.role@,
    ));
    assert(sorted_dependencies(b1) == sorted_dependencies(b2));
    assert(sorted_tools(b1) == sorted_tools(b2));
    assert(identity_fields(b1) == identity_fields(b2));
}

} // verus!
