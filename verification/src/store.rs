//! The result store's rules that do not touch the filesystem: result
//! identities, where each directory of a store lies, transaction names,
//! result metadata, symlink containment and activation plans.
use crate::identity::has_prefix;
use crate::manifest::{all_hex, chars_all_hex, is_ascii_alnum, is_hex_char};
use crate::outside::io_error_text;
use crate::text::{
    ascii_lower, ascii_lower_text, concat2, concat3, concat4, decimal, decimal_text, hex_number,
    hex_number_text, lemma_decimal_len, lemma_digits_alnum, lemma_hex_number_len, power,
    skip_chars, starts_with_text, text_eq, to_ascii_lowercase,
};
use vstd::utf8::*;
use vstd::prelude::*;
use vstd::string::*;

verus! {

/// The schema of a published result's metadata.
pub const RESULT_SCHEMA_V1: &'static str = "prep.result/1";

/// The retention of every published result.
pub const RESULT_RETENTION_PINNED: &'static str = "pinned";

/// Why a store operation failed.
#[derive(Debug)]
pub enum StoreError {
    InvalidPath(String),
    InvalidResultId(String),
    Io { operation: &'static str, path: String, source: std::io::Error },
    Serialization(String),
    CorruptResult { path: String, message: String },
    InvalidOutput { path: String, message: String },
    CrossFilesystem,
    Activation(String),
}

/// Whether `r` is the message of `e`; an I/O error's own text comes from the
/// operating system and is not stated.
pub open spec fn store_error_message(e: StoreError, r: Seq<char>) -> bool {
    match e {
        StoreError::InvalidPath(m) => r == m@,
        StoreError::InvalidResultId(m) => r == m@,
        StoreError::Io { operation, path, .. } => has_prefix(r, operation@ + " "@ + path@ + ": "@),
        StoreError::Serialization(m) => r == m@,
        StoreError::CorruptResult { path, message } => r == "corrupt result "@ + path@ + ": "@
            + message@,
        StoreError::InvalidOutput { path, message } => r == "invalid output "@ + path@ + ": "@
            + message@,
        StoreError::CrossFilesystem => r
            == "result staging and destination are on different filesystems"@,
        StoreError::Activation(m) => r == m@,
    }
}

impl StoreError {
    /// The error's message.
    pub fn describe(&self) -> (r: String)
        ensures
            store_error_message(*self, r@),
    {
        match self {
            StoreError::InvalidPath(message) => message.clone(),
            StoreError::InvalidResultId(message) => message.clone(),
            StoreError::Io { operation, path, source } => {
                let head = concat4(operation, " ", path.as_str(), ": ");
                let detail = io_error_text(source);
                let r = concat2(head.as_str(), detail.as_str());
                assert(r@.take(head@.len() as int) =~= head@);
                r
            },
            StoreError::Serialization(message) => message.clone(),
            StoreError::CorruptResult { path, message } => {
                let head = concat3("corrupt result ", path.as_str(), ": ");
                concat2(head.as_str(), message.as_str())
            },
            StoreError::InvalidOutput { path, message } => {
                let head = concat3("invalid output ", path.as_str(), ": ");
                concat2(head.as_str(), message.as_str())
            },
            StoreError::CrossFilesystem => String::from_str(
                "result staging and destination are on different filesystems",
            ),
            StoreError::Activation(message) => message.clone(),
        }
    }
}

/// The hexadecimal part of a result identity text: `sha256:` followed by
/// exactly 64 hexadecimal digits, lower-cased; `None` for any other text.
pub open spec fn store_id_hex(v: Seq<char>) -> Option<Seq<char>> {
    if v.len() >= 7 && v.take(7) == "sha256:"@ && v.skip(7).len() == 64 && all_hex(v.skip(7)) {
        Some(ascii_lower_text(v.skip(7)))
    } else {
        None
    }
}

/// What parsing `v` as a store result identity gives.
pub open spec fn store_id_outcome(v: Seq<char>, r: Result<StoreResultId, StoreError>) -> bool {
    if !(v.len() >= 7 && v.take(7) == "sha256:"@) {
        r matches Err(StoreError::InvalidResultId(m)) && m@
            == "result identity must use sha256:<64 hex> form"@
    } else if store_id_hex(v) is None {
        r matches Err(StoreError::InvalidResultId(m)) && m@
            == "result identity must contain exactly 64 hexadecimal characters"@
    } else {
        r matches Ok(id) && Some(id@) == store_id_hex(v)
    }
}

/// The identity of a published result: 64 lower-case hexadecimal digits.
#[derive(Debug, PartialEq, Eq, PartialOrd, Ord, Hash)]
pub struct StoreResultId {
    hex: String,
}

impl View for StoreResultId {
    type V = Seq<char>;

    closed spec fn view(&self) -> Seq<char> {
        self.hex@
    }
}

impl Clone for StoreResultId {
    fn clone(&self) -> (r: Self)
        ensures
            r@ == self@,
    {
        StoreResultId { hex: self.hex.clone() }
    }
}

impl StoreResultId {
    /// Parses `sha256:<64 hex>`, keeping the digits in lower case.
    pub fn parse(value: &str) -> (r: Result<Self, StoreError>)
        ensures
            store_id_outcome(value@, r),
    {
        proof {
            reveal_strlit("sha256:");
        }
        if !starts_with_text(value, "sha256:") {
            return Err(
                StoreError::InvalidResultId(
                    String::from_str("result identity must use sha256:<64 hex> form"),
                ),
            );
        }
        let hex = skip_chars(value, 7);
        if hex.unicode_len() != 64 || !chars_all_hex(hex) {
            return Err(
                StoreError::InvalidResultId(
                    String::from_str("result identity must contain exactly 64 hexadecimal characters"),
                ),
            );
        }
        Ok(StoreResultId { hex: to_ascii_lowercase(hex) })
    }

    /// The identity as text: `sha256:` and the digits.
    pub fn as_string(&self) -> (r: String)
        ensures
            r@ == "sha256:"@ + self@,
    {
        concat2("sha256:", self.hex.as_str())
    }

    /// The 64 hexadecimal digits.
    pub fn hex(&self) -> (r: &str)
        ensures
            r@ == self@,
    {
        self.hex.as_str()
    }
}

/// Lower-casing keeps hexadecimal digits hexadecimal and is idempotent.
proof fn lemma_lower_hex(h: Seq<char>)
    requires
        all_hex(h),
    ensures
        all_hex(ascii_lower_text(h)),
        ascii_lower_text(ascii_lower_text(h)) == ascii_lower_text(h),
        ascii_lower_text(h).len() == h.len(),
{
    let l = ascii_lower_text(h);
    assert forall|i: int| 0 <= i < l.len() implies is_hex_char(#[trigger] l[i]) by {
        assert(is_hex_char(h[i]));
        assert(l[i] == ascii_lower(h[i]));
    }
    assert(ascii_lower_text(l) =~= l) by {
        assert forall|i: int| 0 <= i < l.len() implies #[trigger] ascii_lower_text(l)[i] == l[i] by {
            assert(is_hex_char(h[i]));
            assert(l[i] == ascii_lower(h[i]));
        }
    }
}

/// A parsed result identity parses back to itself from its text: the
/// canonical `sha256:` form is stable.
pub proof fn law_store_id_text_round_trip(v: Seq<char>)
    requires
        store_id_hex(v) is Some,
    ensures
        store_id_hex("sha256:"@ + store_id_hex(v)->0) == store_id_hex(v),
{
    reveal_strlit("sha256:");
    let h = v.skip(7);
    lemma_lower_hex(h);
    let w = "sha256:"@ + ascii_lower_text(h);
    assert(w.take(7) =~= "sha256:"@);
    assert(w.skip(7) =~= ascii_lower_text(h));
}

/// A result identity cannot encode a path: the part that names the result's
/// directory is exactly 64 hexadecimal digits, so it holds no separator, no
/// dot and nothing else that could leave the result root.
pub proof fn law_store_ids_are_plain_names(v: Seq<char>)
    requires
        store_id_hex(v) is Some,
    ensures
        store_id_hex(v)->0.len() == 64,
        all_hex(store_id_hex(v)->0),
        !store_id_hex(v)->0.contains('/'),
        !store_id_hex(v)->0.contains('\\'),
        !store_id_hex(v)->0.contains('.'),
{
    let h = v.skip(7);
    lemma_lower_hex(h);
    let l = ascii_lower_text(h);
    if l.contains('/') || l.contains('\\') || l.contains('.') {
        let k = choose|k: int| 0 <= k < l.len() && (l[k] == '/' || l[k] == '\\' || l[k] == '.');
        assert(is_hex_char(l[k]));
    }
}

/// Whether `p` is an absolute path: it begins at the root.
pub open spec fn is_absolute_path(p: Seq<char>) -> bool {
    p.len() > 0 && p[0] == '/'
}

/// `base` followed by the relative path `child`, with one separator between.
pub open spec fn join_path(base: Seq<char>, child: Seq<char>) -> Seq<char> {
    if base.len() > 0 && base.last() != '/' {
        base + "/"@ + child
    } else {
        base + child
    }
}

/// Joins the relative path `child` onto `base`.
fn join(base: &str, child: &str) -> (r: String)
    ensures
        r@ == join_path(base@, child@),
{
    proof {
        reveal_strlit("/");
    }
    let n = base.unicode_len();
    if n > 0 && base.get_char(n - 1) != '/' {
        let with_separator = concat2(base, "/");
        concat2(with_separator.as_str(), child)
    } else {
        concat2(base, child)
    }
}

/// Refuses a path that is not absolute, naming it by `label`.
pub fn require_absolute(label: &str, path: &str) -> (r: Result<(), StoreError>)
    ensures
        is_absolute_path(path@) ==> r is Ok,
        !is_absolute_path(path@) ==> (r matches Err(StoreError::InvalidPath(m)) && m@ == label@
            + " must be an absolute path"@),
{
    if path.unicode_len() == 0 || path.get_char(0) != '/' {
        return Err(StoreError::InvalidPath(concat2(label, " must be an absolute path")));
    }
    Ok(())
}

/// Where Prep keeps a user's data, cache and store.
#[derive(Debug, Clone, PartialEq, Eq)]
pub struct UserPaths {
    pub data_root: String,
    pub cache_root: String,
    pub store_root: String,
}

/// The first of `paths`, by position, that is given and not absolute, with
/// the error it gives.
pub open spec fn user_paths_problem(
    home: Seq<char>,
    xdg_data_home: Option<Seq<char>>,
    xdg_cache_home: Option<Seq<char>>,
) -> Option<Seq<char>> {
    if !is_absolute_path(home) {
        Some("home must be an absolute path"@)
    } else if xdg_data_home matches Some(p) && !is_absolute_path(p) {
        Some("XDG_DATA_HOME must be an absolute path"@)
    } else if xdg_cache_home matches Some(p) && !is_absolute_path(p) {
        Some("XDG_CACHE_HOME must be an absolute path"@)
    } else {
        None
    }
}

/// The text of an optional path.
pub open spec fn option_view(p: Option<&str>) -> Option<Seq<char>> {
    match p {
        Some(s) => Some(s@),
        None => None,
    }
}

impl UserPaths {
    /// Resolves the user's roots: `<data>/prep` with the store in its `store`
    /// directory and `<cache>/prep`, where `<data>` is `XDG_DATA_HOME` or
    /// `~/.local/share` and `<cache>` is `XDG_CACHE_HOME` or `~/.cache`. Every
    /// given path must be absolute.
    pub fn resolve(home: &str, xdg_data_home: Option<&str>, xdg_cache_home: Option<&str>) -> (r:
        Result<Self, StoreError>)
        ensures
            match user_paths_problem(home@, option_view(xdg_data_home), option_view(xdg_cache_home)) {
                Some(m) => r matches Err(StoreError::InvalidPath(x)) && x@ == m,
                None => r matches Ok(p) && {
                    let data = match xdg_data_home {
                        Some(d) => d@,
                        None => join_path(home@, ".local/share"@),
                    };
                    let cache = match xdg_cache_home {
                        Some(c) => c@,
                        None => join_path(home@, ".cache"@),
                    };
                    &&& p.data_root@ == join_path(data, "prep"@)
                    &&& p.cache_root@ == join_path(cache, "prep"@)
                    &&& p.store_root@ == join_path(join_path(data, "prep"@), "store"@)
                },
            },
    {
        proof {
            reveal_strlit("home");
            reveal_strlit("XDG_DATA_HOME");
            reveal_strlit("XDG_CACHE_HOME");
            reveal_strlit(" must be an absolute path");
            reveal_strlit("home must be an absolute path");
            reveal_strlit("XDG_DATA_HOME must be an absolute path");
            reveal_strlit("XDG_CACHE_HOME must be an absolute path");
        }
        if let Err(e) = require_absolute("home", home) {
            return Err(e);
        }
        if let Some(path) = xdg_data_home {
            if let Err(e) = require_absolute("XDG_DATA_HOME", path) {
                return Err(e);
            }
        }
        if let Some(path) = xdg_cache_home {
            if let Err(e) = require_absolute("XDG_CACHE_HOME", path) {
                return Err(e);
            }
        }
        let data_base = match xdg_data_home {
            Some(path) => String::from_str(path),
            None => join(home, ".local/share"),
        };
        let cache_base = match xdg_cache_home {
            Some(path) => String::from_str(path),
            None => join(home, ".cache"),
        };
        let data_root = join(data_base.as_str(), "prep");
        let cache_root = join(cache_base.as_str(), "prep");
        let store_root = join(data_root.as_str(), "store");
        Ok(UserPaths { data_root, cache_root, store_root })
    }
}

/// Where Prep keeps a project's state.
#[derive(Debug, Clone, PartialEq, Eq)]
pub struct ProjectPaths {
    pub project_root: String,
    pub state_root: String,
}

impl ProjectPaths {
    /// Resolves a project's state directory, `.prep` under its absolute root.
    pub fn resolve(project_root: &str) -> (r: Result<Self, StoreError>)
        ensures
            is_absolute_path(project_root@) ==> (r matches Ok(p) && p.project_root@
                == project_root@ && p.state_root@ == join_path(project_root@, ".prep"@)),
            !is_absolute_path(project_root@) ==> (r matches Err(StoreError::InvalidPath(m)) && m@
                == "project root must be an absolute path"@),
    {
        proof {
            reveal_strlit("project root");
            reveal_strlit(" must be an absolute path");
            reveal_strlit("project root must be an absolute path");
        }
        if let Err(e) = require_absolute("project root", project_root) {
            return Err(e);
        }
        Ok(
            ProjectPaths {
                project_root: String::from_str(project_root),
                state_root: join(project_root, ".prep"),
            },
        )
    }
}


/// A store's directories and files, all under its root.
#[derive(Debug)]
pub struct Store {
    root: String,
    staging_root: String,
    lock_root: String,
    results_sha256_root: String,
    store_lock_path: String,
}

impl View for Store {
    type V = Seq<char>;

    /// The store's root.
    closed spec fn view(&self) -> Seq<char> {
        self.root@
    }
}

impl Store {
    /// Every location of the store lies at its fixed place under the root.
    #[verifier::type_invariant]
    closed spec fn laid_out(self) -> bool {
        &&& self.staging_root@ == join_path(self.root@, ".staging"@)
        &&& self.lock_root@ == join_path(self.root@, ".locks"@)
        &&& self.results_sha256_root@ == join_path(join_path(self.root@, "results"@), "sha256"@)
        &&& self.store_lock_path@ == join_path(self.root@, ".store.lock"@)
    }

    /// The layout of a store rooted at `root`, a canonical directory.
    pub fn at_root(root: &str) -> (r: Self)
        ensures
            r@ == root@,
    {
        let results = join(root, "results");
        Store {
            root: String::from_str(root),
            staging_root: join(root, ".staging"),
            lock_root: join(root, ".locks"),
            results_sha256_root: join(results.as_str(), "sha256"),
            store_lock_path: join(root, ".store.lock"),
        }
    }

    /// The store's root.
    pub fn root(&self) -> (r: &str)
        ensures
            r@ == self@,
    {
        self.root.as_str()
    }

    /// Where transactions stage their output: `.staging` under the root.
    pub fn staging_root(&self) -> (r: &str)
        ensures
            r@ == join_path(self@, ".staging"@),
    {
        proof {
            use_type_invariant(self);
        }
        self.staging_root.as_str()
    }

    /// Where transaction leases live: `.locks` under the root.
    pub fn lock_root(&self) -> (r: &str)
        ensures
            r@ == join_path(self@, ".locks"@),
    {
        proof {
            use_type_invariant(self);
        }
        self.lock_root.as_str()
    }

    /// Where published results live: `results/sha256` under the root.
    pub fn results_root(&self) -> (r: &str)
        ensures
            r@ == join_path(join_path(self@, "results"@), "sha256"@),
    {
        proof {
            use_type_invariant(self);
        }
        self.results_sha256_root.as_str()
    }

    /// The store-wide lock file: `.store.lock` under the root.
    pub fn store_lock_path(&self) -> (r: &str)
        ensures
            r@ == join_path(self@, ".store.lock"@),
    {
        proof {
            use_type_invariant(self);
        }
        self.store_lock_path.as_str()
    }

    /// The directory of the result `id`: its digits under the result root.
    pub fn result_path(&self, id: &StoreResultId) -> (r: String)
        ensures
            r@ == join_path(join_path(join_path(self@, "results"@), "sha256"@), id@),
    {
        proof {
            use_type_invariant(self);
        }
        join(self.results_sha256_root.as_str(), id.hex())
    }

    /// The staging directory of transaction `name`.
    pub fn staging_path(&self, name: &str) -> (r: String)
        ensures
            r@ == join_path(join_path(self@, ".staging"@), name@),
    {
        proof {
            use_type_invariant(self);
        }
        join(self.staging_root.as_str(), name)
    }

    /// The lease file of transaction `name`: `<name>.lock` under the lock root.
    pub fn lease_path(&self, name: &str) -> (r: String)
        ensures
            r@ == join_path(join_path(self@, ".locks"@), name@ + ".lock"@),
    {
        proof {
            use_type_invariant(self);
        }
        let file = concat2(name, ".lock");
        join(self.lock_root.as_str(), file.as_str())
    }

    /// The published result `id` of this store: its directory and the
    /// `prefix` directory inside it.
    pub fn published(&self, id: &StoreResultId) -> (r: PublishedResult)
        ensures
            r@.0 == id@,
            r@.1 == join_path(join_path(join_path(self@, "results"@), "sha256"@), id@),
            r@.2 == join_path(r@.1, "prefix"@),
    {
        let path = self.result_path(id);
        let prefix = join(path.as_str(), "prefix");
        PublishedResult { id: id.clone(), path, prefix }
    }
}

impl Clone for Store {
    fn clone(&self) -> (r: Self)
        ensures
            r@ == self@,
    {
        proof {
            use_type_invariant(self);
        }
        Store {
            root: self.root.clone(),
            staging_root: self.staging_root.clone(),
            lock_root: self.lock_root.clone(),
            results_sha256_root: self.results_sha256_root.clone(),
            store_lock_path: self.store_lock_path.clone(),
        }
    }
}

/// A result in the store.
#[derive(Debug, Clone, PartialEq, Eq)]
pub struct PublishedResult {
    id: StoreResultId,
    path: String,
    prefix: String,
}

impl View for PublishedResult {
    type V = (Seq<char>, Seq<char>, Seq<char>);

    /// The result's identity, directory and prefix.
    closed spec fn view(&self) -> (Seq<char>, Seq<char>, Seq<char>) {
        (self.id@, self.path@, self.prefix@)
    }
}

impl PublishedResult {
    pub fn id(&self) -> (r: &StoreResultId)
        ensures
            r@ == self@.0,
    {
        &self.id
    }

    pub fn path(&self) -> (r: &str)
        ensures
            r@ == self@.1,
    {
        self.path.as_str()
    }

    pub fn prefix(&self) -> (r: &str)
        ensures
            r@ == self@.2,
    {
        self.prefix.as_str()
    }
}

/// How a commit ended: the result was published, or an equal result was
/// already there.
#[derive(Debug, Clone, PartialEq, Eq)]
pub enum PublishOutcome {
    Published(PublishedResult),
    Existing(PublishedResult),
}

impl PublishOutcome {
    /// The result the commit left in the store.
    pub fn result(&self) -> (r: &PublishedResult)
        ensures
            match self {
                PublishOutcome::Published(p) => r == p,
                PublishOutcome::Existing(p) => r == p,
            },
    {
        match self {
            PublishOutcome::Published(result) => result,
            PublishOutcome::Existing(result) => result,
        }
    }
}

/// The name of a staging transaction: `txn-`, the process id in decimal, then
/// the clock's nanoseconds and a counter in hexadecimal, joined by `-`.
pub open spec fn transaction_text(pid: nat, nanos: nat, counter: nat) -> Seq<char> {
    "txn-"@ + decimal(pid) + "-"@ + hex_number(nanos) + "-"@ + hex_number(counter)
}

/// Whether `v` names a staging transaction: `txn-` first, at most 128 bytes,
/// and only ASCII letters, digits and `-`.
pub open spec fn transaction_valid(v: Seq<char>) -> bool {
    let b = encode_utf8(v);
    &&& v.len() >= 4
    &&& v.take(4) == "txn-"@
    &&& b.len() <= 128
    &&& forall|i: int| 0 <= i < b.len() ==> is_ascii_alnum(#[trigger] b[i]) || b[i] == 45
}

/// The name of a new staging transaction, from the process id, the time in
/// nanoseconds and a per-process counter.
pub fn transaction_name(pid: u32, nanos: u128, counter: u64) -> (r: String)
    ensures
        r@ == transaction_text(pid as nat, nanos as nat, counter as nat),
{
    let process = decimal_text(pid as usize);
    let time = hex_number_text(nanos);
    let count = hex_number_text(counter as u128);
    let head = concat3("txn-", process.as_str(), "-");
    let middle = concat3(head.as_str(), time.as_str(), "-");
    let r = concat2(middle.as_str(), count.as_str());
    proof {
        assert(r@ =~= transaction_text(pid as nat, nanos as nat, counter as nat));
    }
    r
}

/// Whether `value` is a valid staging transaction name.
pub fn valid_transaction_id(value: &str) -> (r: bool)
    ensures
        r == transaction_valid(value@),
{
    proof {
        reveal_strlit("txn-");
    }
    if !starts_with_text(value, "txn-") {
        return false;
    }
    let bytes = value.as_bytes();
    if bytes.len() > 128 {
        return false;
    }
    let mut i: usize = 0;
    while i < bytes.len()
        invariant
            i <= bytes@.len(),
            bytes@ == encode_utf8(value@),
            forall|k: int| 0 <= k < i ==> is_ascii_alnum(#[trigger] bytes@[k]) || bytes@[k] == 45,
        decreases bytes@.len() - i,
    {
        let b = bytes[i];
        let alnum = (48 <= b && b <= 57) || (65 <= b && b <= 90) || (97 <= b && b <= 122);
        if !alnum && b != 45 {
            return false;
        }
        i = i + 1;
    }
    true
}

/// Every name the store gives a transaction is one that recovery accepts.
pub proof fn law_transaction_names_are_valid(pid: u32, nanos: u128, counter: u64)
    ensures
        transaction_valid(transaction_text(pid as nat, nanos as nat, counter as nat)),
{
    reveal_strlit("txn-");
    reveal_strlit("-");
    let v = transaction_text(pid as nat, nanos as nat, counter as nat);
    let d = decimal(pid as nat);
    let h1 = hex_number(nanos as nat);
    let h2 = hex_number(counter as nat);
    assert(power(10, 10) == 10000000000) by {
        reveal_with_fuel(power, 11);
    }
    assert(power(16, 32) == 0x100000000000000000000000000000000) by {
        reveal_with_fuel(power, 33);
    }
    assert(power(16, 16) == 0x10000000000000000) by {
        reveal_with_fuel(power, 17);
    }
    lemma_decimal_len(pid as nat, 10);
    lemma_hex_number_len(nanos as nat, 32);
    lemma_hex_number_len(counter as nat, 16);
    lemma_digits_alnum(pid as nat);
    lemma_digits_alnum(nanos as nat);
    lemma_digits_alnum(counter as nat);
    let a = 4 + d.len();
    let b = a + 1 + h1.len();
    assert(v.len() == b + 1 + h2.len());
    assert(v.take(4) =~= "txn-"@);
    assert forall|i: int| 0 <= i < v.len() implies ('0' <= #[trigger] v[i] <= '9') || ('a' <= v[i]
        <= 'z') || v[i] == '-' by {
        if i < 4 {
        } else if i < a {
            assert(v[i] == d[i - 4]);
        } else if i == a {
        } else if i < b {
            assert(v[i] == h1[i - a - 1]);
        } else if i == b {
        } else {
            assert(v[i] == h2[i - b - 1]);
        }
    }
    assert(is_ascii_chars(v));
    is_ascii_chars_encode_utf8(v);
    let e = encode_utf8(v);
    assert forall|i: int| 0 <= i < e.len() implies is_ascii_alnum(#[trigger] e[i]) || e[i] == 45 by {
        assert(v[i] as u8 == e[i]);
    }
}

/// The metadata recorded beside a published result.
#[derive(Debug, Clone, PartialEq, Eq)]
pub struct ResultMetadata {
    pub schema: String,
    pub result_id: String,
    pub state: String,
    pub retention: String,
}

/// Whether metadata identifies the complete, pinned result `id` in schema v1.
pub open spec fn metadata_describes(m: ResultMetadata, id: Seq<char>) -> bool {
    &&& m.schema@ == RESULT_SCHEMA_V1@
    &&& m.result_id@ == "sha256:"@ + id
    &&& m.state@ == "complete"@
    &&& m.retention@ == RESULT_RETENTION_PINNED@
}

impl ResultMetadata {
    /// The metadata written for the result `id`.
    pub fn for_result(id: &StoreResultId) -> (r: Self)
        ensures
            metadata_describes(r, id@),
    {
        ResultMetadata {
            schema: String::from_str(RESULT_SCHEMA_V1),
            result_id: id.as_string(),
            state: String::from_str("complete"),
            retention: String::from_str(RESULT_RETENTION_PINNED),
        }
    }

    /// Whether this metadata identifies the complete, pinned result `id`.
    pub fn describes(&self, id: &StoreResultId) -> (r: bool)
        ensures
            r == metadata_describes(*self, id@),
    {
        let expected = id.as_string();
        text_eq(self.schema.as_str(), RESULT_SCHEMA_V1) && text_eq(
            self.result_id.as_str(),
            expected.as_str(),
        ) && text_eq(self.state.as_str(), "complete") && text_eq(
            self.retention.as_str(),
            RESULT_RETENTION_PINNED,
        )
    }
}

/// Metadata identifies one result only.
pub proof fn law_metadata_identifies_one_result(m: ResultMetadata, a: Seq<char>, b: Seq<char>)
    requires
        metadata_describes(m, a),
        metadata_describes(m, b),
    ensures
        a == b,
{
    assert(("sha256:"@ + a).skip(7) =~= a) by {
        reveal_strlit("sha256:");
    }
    assert(("sha256:"@ + b).skip(7) =~= b) by {
        reveal_strlit("sha256:");
    }
}


/// What kind of filesystem node an entry is, without following symlinks.
#[derive(Debug, Clone, Copy, PartialEq, Eq)]
pub enum NodeKind {
    Directory,
    Symlink,
    File,
    Other,
}

/// The problem with an entry of a result prefix, if any: directories are
/// walked and symlinks checked on their own; a regular file must have one
/// link; nothing else may appear.
pub open spec fn output_entry_problem_text(kind: NodeKind, links: u64) -> Option<Seq<char>> {
    match kind {
        NodeKind::File => if links > 1 {
            Some("hard-linked regular files are not permitted in v1 results"@)
        } else {
            None
        },
        NodeKind::Other => Some("special files are not permitted in result prefixes"@),
        _ => None,
    }
}

/// Checks one entry of a result prefix by its kind and link count.
pub fn output_entry_problem(kind: NodeKind, links: u64) -> (r: Option<&'static str>)
    ensures
        match output_entry_problem_text(kind, links) {
            Some(m) => r matches Some(x) && x@ == m,
            None => r is None,
        },
{
    match kind {
        NodeKind::File => if links > 1 {
            Some("hard-linked regular files are not permitted in v1 results")
        } else {
            None
        },
        NodeKind::Other => Some("special files are not permitted in result prefixes"),
        _ => None,
    }
}

/// The problem with a lock file, if any: it must be a regular file, not a
/// symlink, with one link, so that no other name can reach it.
pub fn lock_node_problem(kind: NodeKind, links: u64) -> (r: Option<&'static str>)
    ensures
        kind != NodeKind::File ==> (r matches Some(x) && x@ == "lock path must be a regular file"@),
        kind == NodeKind::File && links != 1 ==> (r matches Some(x) && x@
            == "lock file must not have hard links"@),
        kind == NodeKind::File && links == 1 ==> r is None,
{
    match kind {
        NodeKind::File => if links == 1 {
            None
        } else {
            Some("lock file must not have hard links")
        },
        _ => Some("lock path must be a regular file"),
    }
}

/// One component of a symlink's target path.
#[derive(Debug, Clone, Copy, PartialEq, Eq)]
pub enum TargetComponent {
    /// `.`
    Current,
    /// `..`
    Parent,
    /// A name.
    Normal,
    /// The root, or a platform path prefix.
    Root,
}

/// Following `t` from a directory `depth` levels inside a prefix: the problem
/// met first, if any.
pub open spec fn target_walk(depth: int, t: Seq<TargetComponent>) -> Option<Seq<char>>
    decreases t.len(),
{
    if t.len() == 0 {
        None
    } else {
        match t[0] {
            TargetComponent::Current => target_walk(depth, t.drop_first()),
            TargetComponent::Normal => target_walk(depth + 1, t.drop_first()),
            TargetComponent::Parent => if depth <= 0 {
                Some("relative symlink target escapes the result prefix"@)
            } else {
                target_walk(depth - 1, t.drop_first())
            },
            TargetComponent::Root => Some("symlink target contains an absolute path prefix"@),
        }
    }
}

/// The problem with a symlink in a result prefix, if any: an absolute
/// target, or a relative one that leaves the prefix from the link's directory,
/// `depth` names below the prefix.
pub open spec fn symlink_problem(absolute: bool, depth: nat, t: Seq<TargetComponent>) -> Option<
    Seq<char>,
> {
    if absolute {
        Some("absolute symlink target escapes the result prefix"@)
    } else {
        target_walk(depth as int, t)
    }
}

/// Checks that a symlink whose directory lies `depth` names below the result
/// prefix points inside the prefix.
pub fn symlink_target_problem(absolute: bool, depth: usize, target: &Vec<TargetComponent>) -> (r:
    Option<&'static str>)
    requires
        depth + target@.len() <= usize::MAX,
    ensures
        match symlink_problem(absolute, depth as nat, target@) {
            Some(m) => r matches Some(x) && x@ == m,
            None => r is None,
        },
{
    if absolute {
        return Some("absolute symlink target escapes the result prefix");
    }
    let mut level = depth;
    let mut i: usize = 0;
    assert(target@.skip(0) =~= target@);
    while i < target.len()
        invariant
            i <= target@.len(),
            !absolute,
            level <= depth + i,
            depth + target@.len() <= usize::MAX,
            target_walk(depth as int, target@) == target_walk(level as int, target@.skip(i as int)),
        decreases target@.len() - i,
    {
        assert(target@.skip(i as int).drop_first() =~= target@.skip(i + 1));
        assert(target@.skip(i as int)[0] == target@[i as int]);
        match target[i] {
            TargetComponent::Current => {},
            TargetComponent::Normal => {
                level = level + 1;
            },
            TargetComponent::Parent => {
                if level == 0 {
                    return Some("relative symlink target escapes the result prefix");
                }
                level = level - 1;
            },
            TargetComponent::Root => {
                return Some("symlink target contains an absolute path prefix");
            },
        }
        i = i + 1;
    }
    assert(target@.skip(i as int).len() == 0);
    None
}

/// A relative target with no `..` and no root never leaves the prefix.
pub proof fn law_descending_targets_stay_inside(depth: int, t: Seq<TargetComponent>)
    requires
        forall|i: int|
            0 <= i < t.len() ==> #[trigger] t[i] == TargetComponent::Current || t[i]
                == TargetComponent::Normal,
    ensures
        target_walk(depth, t) is None,
    decreases t.len(),
{
    if t.len() > 0 {
        let rest = t.drop_first();
        assert forall|i: int| 0 <= i < rest.len() implies #[trigger] rest[i]
            == TargetComponent::Current || rest[i] == TargetComponent::Normal by {
            assert(rest[i] == t[i + 1]);
        }
        assert(t[0] == TargetComponent::Current || t[0] == TargetComponent::Normal);
        law_descending_targets_stay_inside(depth, rest);
        law_descending_targets_stay_inside(depth + 1, rest);
    }
}

/// What a result prefix offers to activation.
#[derive(Debug, Clone, Copy, PartialEq, Eq)]
pub struct PrefixLayout {
    /// `bin` is a directory.
    pub has_bin: bool,
    /// `lib/pkgconfig` is a directory.
    pub has_lib_pkgconfig: bool,
    /// `share/pkgconfig` is a directory.
    pub has_share_pkgconfig: bool,
}

/// A file that more than one activated result provides.
#[derive(Debug, Clone, PartialEq, Eq)]
pub struct ActivationCollision {
    pub relative_path: String,
    pub result_ids: Vec<StoreResultId>,
}

/// The environment a set of results contributes to a build.
#[derive(Debug, Clone, PartialEq, Eq)]
pub struct ActivationPlan {
    pub path_entries: Vec<String>,
    pub cmake_prefixes: Vec<String>,
    pub pkg_config_paths: Vec<String>,
    pub collisions: Vec<ActivationCollision>,
}

/// The `bin` directories of the results that have one, in order.
pub open spec fn bin_entries(results: Seq<PublishedResult>, layouts: Seq<PrefixLayout>) -> Seq<
    Seq<char>,
>
    decreases results.len(),
{
    if results.len() == 0 {
        Seq::empty()
    } else {
        let n = results.len() - 1;
        bin_entries(results.drop_last(), layouts) + if layouts[n].has_bin {
            seq![join_path(results[n]@.2, "bin"@)]
        } else {
            Seq::empty()
        }
    }
}

/// The pkg-config directories of the results, `lib` before `share`, in order.
pub open spec fn pkg_config_entries(results: Seq<PublishedResult>, layouts: Seq<PrefixLayout>) -> Seq<
    Seq<char>,
>
    decreases results.len(),
{
    if results.len() == 0 {
        Seq::empty()
    } else {
        let n = results.len() - 1;
        let p = results[n]@.2;
        pkg_config_entries(results.drop_last(), layouts) + (if layouts[n].has_lib_pkgconfig {
            seq![join_path(p, "lib/pkgconfig"@)]
        } else {
            Seq::empty()
        }) + (if layouts[n].has_share_pkgconfig {
            seq![join_path(p, "share/pkgconfig"@)]
        } else {
            Seq::empty()
        })
    }
}

/// The identities of a list of ids.
pub open spec fn id_views(ids: Seq<StoreResultId>) -> Seq<Seq<char>> {
    ids.map_values(|x: StoreResultId| x@)
}

/// A collision as plain values.
pub open spec fn collision_view(c: ActivationCollision) -> (Seq<char>, Seq<Seq<char>>) {
    (c.relative_path@, id_views(c.result_ids@))
}

/// The files provided by more than one result, in the order given.
pub open spec fn collisions_of(leaves: Seq<(Seq<char>, Seq<Seq<char>>)>) -> Seq<
    (Seq<char>, Seq<Seq<char>>),
>
    decreases leaves.len(),
{
    if leaves.len() == 0 {
        Seq::empty()
    } else {
        collisions_of(leaves.drop_last()) + if leaves.last().1.len() > 1 {
            seq![leaves.last()]
        } else {
            Seq::empty()
        }
    }
}

/// The texts of a list of strings.
pub open spec fn texts(s: Seq<String>) -> Seq<Seq<char>> {
    s.map_values(|x: String| x@)
}

/// Whether the result at `i` repeats an earlier one.
pub open spec fn repeats_earlier(results: Seq<PublishedResult>, i: int) -> bool {
    exists|j: int| 0 <= j < i && results[j]@.0 == results[i]@.0
}

/// The first of the first `n` results that repeats an earlier one or whose
/// output check failed.
pub open spec fn first_refused(
    results: Seq<PublishedResult>,
    checks: Seq<Result<(), StoreError>>,
    n: nat,
) -> Option<int>
    decreases n,
{
    if n == 0 {
        None
    } else {
        match first_refused(results, checks, (n - 1) as nat) {
            Some(i) => Some(i),
            None => if repeats_earlier(results, n - 1) || checks[n - 1] is Err {
                Some(n - 1)
            } else {
                None
            },
        }
    }
}

proof fn lemma_first_refused_stable(
    results: Seq<PublishedResult>,
    checks: Seq<Result<(), StoreError>>,
    i: nat,
    n: nat,
)
    requires
        i <= n,
        first_refused(results, checks, i) is Some,
    ensures
        first_refused(results, checks, n) == first_refused(results, checks, i),
    decreases n,
{
    if n > i {
        lemma_first_refused_stable(results, checks, i, (n - 1) as nat);
    }
}

fn clone_ids(ids: &Vec<StoreResultId>) -> (r: Vec<StoreResultId>)
    ensures
        id_views(r@) == id_views(ids@),
{
    let mut r: Vec<StoreResultId> = Vec::new();
    let mut i: usize = 0;
    while i < ids.len()
        invariant
            i <= ids@.len(),
            id_views(r@) =~= id_views(ids@).take(i as int),
        decreases ids@.len() - i,
    {
        r.push(ids[i].clone());
        assert(id_views(ids@).take(i + 1) =~= id_views(ids@).take(i as int).push(ids@[i as int]@));
        i = i + 1;
    }
    assert(id_views(ids@).take(ids@.len() as int) =~= id_views(ids@));
    r
}

impl ActivationPlan {
    /// The error for the result at `index` when an earlier result has the
    /// same identity: a plan activates each result once.
    pub fn repeated_result(results: &Vec<PublishedResult>, index: usize) -> (r: Option<StoreError>)
        requires
            index < results@.len(),
        ensures
            (exists|j: int| 0 <= j < index && results@[j]@.0 == results@[index as int]@.0) ==> (r matches Some(
                StoreError::Activation(m),
            ) && m@ == "duplicate result sha256:"@ + results@[index as int]@.0
                + " in activation plan"@),
            !(exists|j: int| 0 <= j < index && results@[j]@.0 == results@[index as int]@.0) ==> r is None,
    {
        let mut j: usize = 0;
        while j < index
            invariant
                j <= index,
                index < results@.len(),
                forall|k: int| 0 <= k < j ==> results@[k]@.0 != results@[index as int]@.0,
            decreases index - j,
        {
            if text_eq(results[j].id().hex(), results[index].id().hex()) {
                let id = results[index].id().as_string();
                proof {
                    reveal_strlit("duplicate result ");
                    reveal_strlit("sha256:");
                    reveal_strlit("duplicate result sha256:");
                    assert(("duplicate result "@ + id@ + " in activation plan"@) =~= (
                    "duplicate result sha256:"@ + results@[index as int]@.0 + " in activation plan"@));
                }
                return Some(
                    StoreError::Activation(
                        concat3("duplicate result ", id.as_str(), " in activation plan"),
                    ),
                );
            }
            j = j + 1;
        }
        None
    }

    /// Plans the activation of `results`, given what reading the store found:
    /// for each result, whether its output tree is valid and how its prefix
    /// is laid out, and the files each provides by relative path in path
    /// order. The first result that repeats an earlier one, or whose output
    /// is invalid, refuses the plan; then a failure to list the files does.
    pub fn from_results(
        results: &Vec<PublishedResult>,
        tree_checks: Vec<Result<(), StoreError>>,
        layouts: &Vec<PrefixLayout>,
        leaves: Result<Vec<(String, Vec<StoreResultId>)>, StoreError>,
    ) -> (r: Result<ActivationPlan, StoreError>)
        requires
            tree_checks@.len() == results@.len(),
            layouts@.len() == results@.len(),
        ensures
            match first_refused(results@, tree_checks@, results@.len() as nat) {
                Some(i) => {
                    if repeats_earlier(results@, i) {
                        r matches Err(StoreError::Activation(m)) && m@ == "duplicate result sha256:"@
                            + results@[i]@.0 + " in activation plan"@
                    } else {
                        match tree_checks@[i] {
                            Err(e) => r == Err::<ActivationPlan, StoreError>(e),
                            Ok(_) => false,
                        }
                    }
                },
                None => match leaves {
                    Err(e) => r == Err::<ActivationPlan, StoreError>(e),
                    Ok(l) => r matches Ok(plan) && {
                        &&& texts(plan.path_entries@) == bin_entries(results@, layouts@)
                        &&& texts(plan.cmake_prefixes@) == results@.map_values(
                            |p: PublishedResult| p@.2,
                        )
                        &&& texts(plan.pkg_config_paths@) == pkg_config_entries(results@, layouts@)
                        &&& plan.collisions@.map_values(|c: ActivationCollision| collision_view(c))
                            == collisions_of(
                            l@.map_values(|x: (String, Vec<StoreResultId>)| (x.0@, id_views(x.1@))),
                        )
                    },
                },
            },
    {
        let mut checks = tree_checks;
        let ghost all_checks = checks@;
        let mut i: usize = 0;
        while i < results.len()
            invariant
                i <= results@.len(),
                checks@.len() == results@.len() - i,
                all_checks.len() == results@.len(),
                all_checks == tree_checks@,
                checks@ == all_checks.skip(i as int),
                first_refused(results@, all_checks, i as nat) is None,
            decreases results@.len() - i,
        {
            let check = checks.remove(0);
            assert(check == all_checks[i as int]);
            assert(checks@ =~= all_checks.skip(i + 1));
            if let Some(error) = ActivationPlan::repeated_result(results, i) {
                proof {
                    assert(first_refused(results@, all_checks, (i + 1) as nat) == Some(i as int));
                    lemma_first_refused_stable(results@, all_checks, (i + 1) as nat, results@.len() as nat);
                }
                return Err(error);
            }
            if let Err(error) = check {
                proof {
                    assert(first_refused(results@, all_checks, (i + 1) as nat) == Some(i as int));
                    lemma_first_refused_stable(results@, all_checks, (i + 1) as nat, results@.len() as nat);
                }
                return Err(error);
            }
            i = i + 1;
        }
        match leaves {
            Err(error) => Err(error),
            Ok(files) => Ok(ActivationPlan::assemble(results, layouts, &files)),
        }
    }

    /// The plan for results whose prefixes have the given layouts, with the
    /// files each provides given by relative path, in path order: `bin`
    /// directories on `PATH`, every prefix for CMake, the pkg-config
    /// directories, and the files more than one result provides.
    pub fn assemble(
        results: &Vec<PublishedResult>,
        layouts: &Vec<PrefixLayout>,
        leaves: &Vec<(String, Vec<StoreResultId>)>,
    ) -> (r: ActivationPlan)
        requires
            layouts@.len() == results@.len(),
        ensures
            texts(r.path_entries@) == bin_entries(results@, layouts@),
            texts(r.cmake_prefixes@) == results@.map_values(|p: PublishedResult| p@.2),
            texts(r.pkg_config_paths@) == pkg_config_entries(results@, layouts@),
            r.collisions@.map_values(|c: ActivationCollision| collision_view(c)) == collisions_of(
                leaves@.map_values(
                    |l: (String, Vec<StoreResultId>)| (l.0@, id_views(l.1@)),
                ),
            ),
    {
        let mut path_entries: Vec<String> = Vec::new();
        let mut cmake_prefixes: Vec<String> = Vec::new();
        let mut pkg_config_paths: Vec<String> = Vec::new();
        let mut i: usize = 0;
        while i < results.len()
            invariant
                i <= results@.len(),
                layouts@.len() == results@.len(),
                texts(path_entries@) == bin_entries(results@.take(i as int), layouts@),
                texts(cmake_prefixes@) == results@.take(i as int).map_values(
                    |p: PublishedResult| p@.2,
                ),
                texts(pkg_config_paths@) == pkg_config_entries(results@.take(i as int), layouts@),
            decreases results@.len() - i,
        {
            let prefix = results[i].prefix();
            let layout = layouts[i];
            let ghost t = results@.take(i + 1);
            assert(t.drop_last() =~= results@.take(i as int));
            assert(t[i as int] == results@[i as int]);
            let ghost before_bin = path_entries@;
            let ghost before_pkg = pkg_config_paths@;
            let ghost before_cmake = cmake_prefixes@;
            if layout.has_bin {
                path_entries.push(join(prefix, "bin"));
            }
            assert(texts(path_entries@) =~= bin_entries(t, layouts@));
            let copy = String::from_str(prefix);
            assert(copy@ == t[i as int]@.2);
            cmake_prefixes.push(copy);
            assert(texts(cmake_prefixes@) =~= texts(before_cmake).push(copy@));
            assert(t.map_values(|p: PublishedResult| p@.2) =~= results@.take(i as int).map_values(
                |p: PublishedResult| p@.2,
            ).push(t[i as int]@.2));
            assert(texts(cmake_prefixes@) =~= t.map_values(|p: PublishedResult| p@.2));
            let ghost mid_pkg = pkg_config_paths@;
            if layout.has_lib_pkgconfig {
                pkg_config_paths.push(join(prefix, "lib/pkgconfig"));
            }
            let ghost lib_pkg = pkg_config_paths@;
            if layout.has_share_pkgconfig {
                pkg_config_paths.push(join(prefix, "share/pkgconfig"));
            }
            assert(texts(pkg_config_paths@) =~= pkg_config_entries(t, layouts@));
            i = i + 1;
        }
        assert(results@.take(results@.len() as int) =~= results@);
        let ghost lv = leaves@.map_values(
            |l: (String, Vec<StoreResultId>)| (l.0@, id_views(l.1@)),
        );
        let mut collisions: Vec<ActivationCollision> = Vec::new();
        let mut k: usize = 0;
        while k < leaves.len()
            invariant
                k <= leaves@.len(),
                lv == leaves@.map_values(|l: (String, Vec<StoreResultId>)| (l.0@, id_views(l.1@))),
                collisions@.map_values(|c: ActivationCollision| collision_view(c)) == collisions_of(
                    lv.take(k as int),
                ),
            decreases leaves@.len() - k,
        {
            let ghost t = lv.take(k + 1);
            assert(t.drop_last() =~= lv.take(k as int));
            assert(t.last() == lv[k as int]);
            let ghost before = collisions@;
            if leaves[k].1.len() > 1 {
                let ids = clone_ids(&leaves[k].1);
                collisions.push(
                    ActivationCollision {
                        relative_path: leaves[k].0.clone(),
                        result_ids: ids,
                    },
                );
                assert(collisions@ =~= before.push(collisions@.last()));
            }
            assert(collisions@.map_values(|c: ActivationCollision| collision_view(c))
                =~= collisions_of(t));
            k = k + 1;
        }
        assert(lv.take(leaves@.len() as int) =~= lv);
        ActivationPlan { path_entries, cmake_prefixes, pkg_config_paths, collisions }
    }
}

} // verus!
