//! Text primitives shared by the model: byte-wise ordering of strings, stable
//! ordering of keyed items, and the few std string conversions the model needs.
use vstd::prelude::*;
use vstd::string::*;
use vstd::utf8::*;

verus! {

/// Three-way outcome of comparing two texts.
#[derive(Debug, Clone, Copy, PartialEq, Eq, Structural)]
pub enum TextOrder {
    Less,
    Equal,
    Greater,
}

/// Lexicographic order on byte strings, the order of `str`.
pub open spec fn bytes_lt(a: Seq<u8>, b: Seq<u8>) -> bool
    decreases a.len(),
{
    if a.len() == 0 {
        b.len() > 0
    } else if b.len() == 0 {
        false
    } else if a[0] != b[0] {
        a[0] < b[0]
    } else {
        bytes_lt(a.drop_first(), b.drop_first())
    }
}

/// The order of two texts: byte-wise on their UTF-8 encodings.
pub open spec fn text_lt(a: Seq<char>, b: Seq<char>) -> bool {
    bytes_lt(encode_utf8(a), encode_utf8(b))
}

pub proof fn lemma_bytes_lt_irreflexive(a: Seq<u8>)
    ensures
        !bytes_lt(a, a),
    decreases a.len(),
{
    if a.len() > 0 {
        lemma_bytes_lt_irreflexive(a.drop_first());
    }
}

pub proof fn lemma_bytes_lt_transitive(a: Seq<u8>, b: Seq<u8>, c: Seq<u8>)
    requires
        bytes_lt(a, b),
        bytes_lt(b, c),
    ensures
        bytes_lt(a, c),
    decreases a.len(),
{
    if a.len() > 0 && b.len() > 0 && c.len() > 0 && a[0] == b[0] && b[0] == c[0] {
        lemma_bytes_lt_transitive(a.drop_first(), b.drop_first(), c.drop_first());
    }
}

pub proof fn lemma_bytes_lt_total(a: Seq<u8>, b: Seq<u8>)
    requires
        a != b,
    ensures
        bytes_lt(a, b) || bytes_lt(b, a),
    decreases a.len(),
{
    if a.len() == 0 {
        assert(b.len() > 0) by {
            if b.len() == 0 {
                assert(a =~= b);
            }
        }
    } else if b.len() == 0 {
    } else if a[0] == b[0] {
        if a.drop_first() == b.drop_first() {
            assert(a =~= seq![a[0]] + a.drop_first());
            assert(b =~= seq![b[0]] + b.drop_first());
        }
        lemma_bytes_lt_total(a.drop_first(), b.drop_first());
    }
}

pub proof fn lemma_bytes_lt_asymmetric(a: Seq<u8>, b: Seq<u8>)
    requires
        bytes_lt(a, b),
    ensures
        !bytes_lt(b, a),
    decreases a.len(),
{
    if a.len() > 0 && b.len() > 0 && a[0] == b[0] {
        lemma_bytes_lt_asymmetric(a.drop_first(), b.drop_first());
    }
}

/// Distinct texts have distinct encodings.
pub proof fn lemma_encode_injective(a: Seq<char>, b: Seq<char>)
    requires
        encode_utf8(a) == encode_utf8(b),
    ensures
        a == b,
{
    encode_utf8_decode_utf8(a);
    encode_utf8_decode_utf8(b);
}

pub proof fn lemma_text_lt_irreflexive(a: Seq<char>)
    ensures
        !text_lt(a, a),
{
    lemma_bytes_lt_irreflexive(encode_utf8(a));
}

pub proof fn lemma_text_lt_transitive(a: Seq<char>, b: Seq<char>, c: Seq<char>)
    requires
        text_lt(a, b),
        text_lt(b, c),
    ensures
        text_lt(a, c),
{
    lemma_bytes_lt_transitive(encode_utf8(a), encode_utf8(b), encode_utf8(c));
}

pub proof fn lemma_text_lt_total(a: Seq<char>, b: Seq<char>)
    requires
        a != b,
    ensures
        text_lt(a, b) || text_lt(b, a),
{
    if encode_utf8(a) == encode_utf8(b) {
        lemma_encode_injective(a, b);
    }
    lemma_bytes_lt_total(encode_utf8(a), encode_utf8(b));
}

pub proof fn lemma_text_lt_asymmetric(a: Seq<char>, b: Seq<char>)
    requires
        text_lt(a, b),
    ensures
        !text_lt(b, a),
{
    lemma_bytes_lt_asymmetric(encode_utf8(a), encode_utf8(b));
}

proof fn lemma_bytes_lt_common_prefix(a: Seq<u8>, b: Seq<u8>, i: int)
    requires
        0 <= i <= a.len(),
        i <= b.len(),
        a.take(i) == b.take(i),
    ensures
        bytes_lt(a, b) == bytes_lt(a.skip(i), b.skip(i)),
    decreases i,
{
    if i > 0 {
        assert(a[0] == a.take(i)[0]);
        assert(b[0] == b.take(i)[0]);
        assert(a.drop_first().take(i - 1) =~= a.take(i).drop_first());
        assert(b.drop_first().take(i - 1) =~= b.take(i).drop_first());
        lemma_bytes_lt_common_prefix(a.drop_first(), b.drop_first(), i - 1);
        assert(a.drop_first().skip(i - 1) =~= a.skip(i));
        assert(b.drop_first().skip(i - 1) =~= b.skip(i));
    } else {
        assert(a.skip(0) =~= a);
        assert(b.skip(0) =~= b);
    }
}

/// Compares two byte strings lexicographically.
pub fn compare_bytes(a: &[u8], b: &[u8]) -> (r: TextOrder)
    ensures
        (r == TextOrder::Less) == bytes_lt(a@, b@),
        (r == TextOrder::Equal) == (a@ == b@),
        (r == TextOrder::Greater) == bytes_lt(b@, a@),
{
    let mut i: usize = 0;
    while i < a.len() && i < b.len()
        invariant
            i <= a@.len(),
            i <= b@.len(),
            a@.take(i as int) == b@.take(i as int),
        decreases a@.len() - i,
    {
        if a[i] != b[i] {
            proof {
                lemma_bytes_lt_common_prefix(a@, b@, i as int);
                lemma_bytes_lt_common_prefix(b@, a@, i as int);
                assert(a@.skip(i as int)[0] == a@[i as int]);
                assert(b@.skip(i as int)[0] == b@[i as int]);
                assert(a@ != b@ ==> true);
                if a@ == b@ {
                    assert(a@[i as int] == b@[i as int]);
                }
            }
            if a[i] < b[i] {
                return TextOrder::Less;
            } else {
                return TextOrder::Greater;
            }
        }
        assert(a@.take(i + 1) =~= a@.take(i as int).push(a@[i as int]));
        assert(b@.take(i + 1) =~= b@.take(i as int).push(b@[i as int]));
        i = i + 1;
    }
    proof {
        lemma_bytes_lt_common_prefix(a@, b@, i as int);
        lemma_bytes_lt_common_prefix(b@, a@, i as int);
    }
    if a.len() == b.len() {
        proof {
            assert(a@ =~= a@.take(i as int));
            assert(b@ =~= b@.take(i as int));
            lemma_bytes_lt_irreflexive(a@);
        }
        TextOrder::Equal
    } else if a.len() < b.len() {
        proof {
            if a@ == b@ {
                assert(a@.len() == b@.len());
            }
        }
        TextOrder::Less
    } else {
        proof {
            if a@ == b@ {
                assert(a@.len() == b@.len());
            }
        }
        TextOrder::Greater
    }
}

/// Compares two texts in the order of `str`.
pub fn compare_text(a: &str, b: &str) -> (r: TextOrder)
    ensures
        (r == TextOrder::Less) == text_lt(a@, b@),
        (r == TextOrder::Equal) == (a@ == b@),
        (r == TextOrder::Greater) == text_lt(b@, a@),
{
    let r = compare_bytes(a.as_bytes(), b.as_bytes());
    proof {
        if encode_utf8(a@) == encode_utf8(b@) {
            lemma_encode_injective(a@, b@);
        }
    }
    r
}

/// Whether two texts are equal.
pub fn text_eq(a: &str, b: &str) -> (r: bool)
    ensures
        r == (a@ == b@),
{
    compare_text(a, b) == TextOrder::Equal
}

/// Whether `s` begins with `prefix`.
pub fn starts_with_text(s: &str, prefix: &str) -> (r: bool)
    ensures
        r == (prefix@.len() <= s@.len() && s@.take(prefix@.len() as int) == prefix@),
{
    let n = s.unicode_len();
    let m = prefix.unicode_len();
    if m > n {
        return false;
    }
    let mut i: usize = 0;
    while i < m
        invariant
            n == s@.len(),
            m == prefix@.len(),
            m <= n,
            i <= m,
            s@.take(i as int) == prefix@.take(i as int),
        decreases m - i,
    {
        if s.get_char(i) != prefix.get_char(i) {
            return false;
        }
        assert(s@.take(i + 1) =~= s@.take(i as int).push(s@[i as int]));
        assert(prefix@.take(i + 1) =~= prefix@.take(i as int).push(prefix@[i as int]));
        i = i + 1;
    }
    assert(prefix@.take(m as int) =~= prefix@);
    true
}

/// Whether `s` contains the character `c`.
pub fn contains_char(s: &str, c: char) -> (r: bool)
    ensures
        r == s@.contains(c),
{
    let n = s.unicode_len();
    let mut i: usize = 0;
    while i < n
        invariant
            n == s@.len(),
            i <= n,
            forall|k: int| 0 <= k < i ==> s@[k] != c,
        decreases n - i,
    {
        if s.get_char(i) == c {
            return true;
        }
        i = i + 1;
    }
    false
}

/// The text that remains of `s` after its first `k` characters.
pub fn skip_chars(s: &str, k: usize) -> (r: &str)
    requires
        k <= s@.len(),
    ensures
        r@ == s@.skip(k as int),
{
    let n = s.unicode_len();
    s.substring_char(k, n)
}

/// `a` followed by `b`.
pub fn concat2(a: &str, b: &str) -> (r: String)
    ensures
        r@ == a@ + b@,
{
    let mut r = String::from_str(a);
    r.append(b);
    r
}

/// `a`, `b` and `c` in sequence.
pub fn concat3(a: &str, b: &str, c: &str) -> (r: String)
    ensures
        r@ == a@ + b@ + c@,
{
    let mut r = String::from_str(a);
    r.append(b);
    r.append(c);
    r
}

/// `a`, `b`, `c` and `d` in sequence.
pub fn concat4(a: &str, b: &str, c: &str, d: &str) -> (r: String)
    ensures
        r@ == a@ + b@ + c@ + d@,
{
    let mut r = String::from_str(a);
    r.append(b);
    r.append(c);
    r.append(d);
    r
}

/// The ASCII lower-case form of one character.
pub open spec fn ascii_lower(c: char) -> char {
    if 'A' <= c <= 'Z' {
        ((c as u32) + 32) as char
    } else {
        c
    }
}

/// `s` with every ASCII letter mapped to lower case.
pub open spec fn ascii_lower_text(s: Seq<char>) -> Seq<char> {
    s.map_values(|c: char| ascii_lower(c))
}

/// Calls `str::to_ascii_lowercase`, which maps `A`..=`Z` to `a`..=`z` and leaves
/// every other character unchanged.
#[verifier::external_body]
pub(crate) fn to_ascii_lowercase(s: &str) -> (r: String)
    ensures
        r@ == ascii_lower_text(s@),
{
    s.to_ascii_lowercase()
}

/// The characters whose codes are the given ASCII bytes.
pub open spec fn ascii_chars(bytes: Seq<u8>) -> Seq<char> {
    bytes.map_values(|b: u8| b as char)
}

/// Calls `String::from_utf8` on bytes that are all ASCII: such bytes are valid
/// UTF-8, and each byte becomes the character with the same code.
#[verifier::external_body]
pub(crate) fn string_from_ascii(bytes: Vec<u8>) -> (r: String)
    requires
        forall|i: int| 0 <= i < bytes@.len() ==> bytes@[i] < 128,
    ensures
        r@ == ascii_chars(bytes@),
{
    match String::from_utf8(bytes) {
        Ok(text) => text,
        Err(_) => String::new(),
    }
}

/// The `{:?}` rendering that `std` gives a `str`: the text in double quotes
/// with special characters escaped.
pub uninterp spec fn debug_quoted(s: Seq<char>) -> Seq<char>;

/// Renders `s` with `format!("{s:?}")`, std's `Debug` for `str`: the result
/// is claimed to be `debug_quoted` of the text, a function of the text alone.
#[verifier::external_body]
pub(crate) fn debug_text(s: &str) -> (r: String)
    ensures
        r@ == debug_quoted(s@),
{
    format!("{s:?}")
}

/// The decimal digits of `n`, most significant first (`"0"` for zero).
pub open spec fn decimal(n: nat) -> Seq<char>
    decreases n,
{
    if n < 10 {
        seq![(48 + n) as char]
    } else {
        decimal(n / 10).push((48 + n % 10) as char)
    }
}

spec fn decimal_bytes(n: nat) -> Seq<u8>
    decreases n,
{
    if n < 10 {
        seq![(48 + n) as u8]
    } else {
        decimal_bytes(n / 10).push((48 + n % 10) as u8)
    }
}

proof fn lemma_decimal_bytes(n: nat)
    ensures
        ascii_chars(decimal_bytes(n)) == decimal(n),
        forall|i: int| 0 <= i < decimal_bytes(n).len() ==> decimal_bytes(n)[i] < 128,
    decreases n,
{
    if n >= 10 {
        lemma_decimal_bytes(n / 10);
        assert(ascii_chars(decimal_bytes(n)) =~= decimal(n));
    } else {
        assert(ascii_chars(decimal_bytes(n)) =~= decimal(n));
    }
}

/// Renders `n` in decimal, as `usize::to_string` does.
pub fn decimal_text(n: usize) -> (r: String)
    ensures
        r@ == decimal(n as nat),
{
    // Digits are produced least significant first, then reversed.
    let mut rev: Vec<u8> = Vec::new();
    let mut m = n;
    let ghost mut high: nat = n as nat;
    loop
        invariant_except_break
            m as nat == high,
            decimal_bytes(n as nat) == decimal_bytes(high) + rev@.reverse(),
        invariant
            forall|i: int| 0 <= i < rev@.len() ==> 48 <= #[trigger] rev@[i] < 58,
        ensures
            decimal_bytes(n as nat) == rev@.reverse(),
        decreases m,
    {
        let digit = (m % 10) as u8;
        let ghost old_rev = rev@;
        rev.push(48 + digit);
        assert(rev@.reverse() =~= seq![(48 + high % 10) as u8] + old_rev.reverse());
        if m < 10 {
            assert(decimal_bytes(high) =~= seq![(48 + high) as u8]);
            assert(decimal_bytes(n as nat) =~= rev@.reverse());
            break;
        }
        assert(decimal_bytes(high) =~= decimal_bytes(high / 10) + seq![(48 + high % 10) as u8]);
        m = m / 10;
        proof {
            high = high / 10;
        }
    }
    let mut out: Vec<u8> = Vec::new();
    let mut k = rev.len();
    while k > 0
        invariant
            k <= rev@.len(),
            out@ == rev@.reverse().take(rev@.len() - k),
            forall|i: int| 0 <= i < rev@.len() ==> 48 <= #[trigger] rev@[i] < 58,
        decreases k,
    {
        k = k - 1;
        out.push(rev[k]);
        assert(out@ =~= rev@.reverse().take(rev@.len() - k));
    }
    proof {
        assert(out@ =~= rev@.reverse());
        lemma_decimal_bytes(n as nat);
    }
    string_from_ascii(out)
}

/// The lower-case hexadecimal digit for `v < 16`.
pub open spec fn hex_digit_byte(v: nat) -> u8 {
    if v < 10 {
        (48 + v) as u8
    } else {
        (87 + v) as u8
    }
}

/// The lower-case hexadecimal digits of `n`, most significant first (`"0"`
/// for zero), as `format!("{n:x}")` renders them.
pub open spec fn hex_number(n: nat) -> Seq<char>
    decreases n,
{
    if n < 16 {
        seq![hex_digit_byte(n) as char]
    } else {
        hex_number(n / 16).push(hex_digit_byte(n % 16) as char)
    }
}

spec fn hex_number_bytes(n: nat) -> Seq<u8>
    decreases n,
{
    if n < 16 {
        seq![hex_digit_byte(n)]
    } else {
        hex_number_bytes(n / 16).push(hex_digit_byte(n % 16))
    }
}

proof fn lemma_hex_number_bytes(n: nat)
    ensures
        ascii_chars(hex_number_bytes(n)) == hex_number(n),
        forall|i: int| 0 <= i < hex_number_bytes(n).len() ==> hex_number_bytes(n)[i] < 128,
    decreases n,
{
    if n >= 16 {
        lemma_hex_number_bytes(n / 16);
    }
    assert(ascii_chars(hex_number_bytes(n)) =~= hex_number(n));
}

/// Renders `n` in lower-case hexadecimal without a prefix.
pub fn hex_number_text(n: u128) -> (r: String)
    ensures
        r@ == hex_number(n as nat),
{
    let mut rev: Vec<u8> = Vec::new();
    let mut m = n;
    let ghost mut high: nat = n as nat;
    loop
        invariant_except_break
            m as nat == high,
            hex_number_bytes(n as nat) == hex_number_bytes(high) + rev@.reverse(),
        invariant
            forall|i: int| 0 <= i < rev@.len() ==> #[trigger] rev@[i] < 128,
        ensures
            hex_number_bytes(n as nat) == rev@.reverse(),
        decreases m,
    {
        let v = (m % 16) as u8;
        let digit: u8 = if v < 10 {
            48 + v
        } else {
            87 + v
        };
        let ghost old_rev = rev@;
        rev.push(digit);
        assert(rev@.reverse() =~= seq![hex_digit_byte(high % 16)] + old_rev.reverse());
        if m < 16 {
            assert(hex_number_bytes(high) =~= seq![hex_digit_byte(high)]);
            assert(hex_number_bytes(n as nat) =~= rev@.reverse());
            break;
        }
        assert(hex_number_bytes(high) =~= hex_number_bytes(high / 16) + seq![
            hex_digit_byte(high % 16),
        ]);
        m = m / 16;
        proof {
            high = high / 16;
        }
    }
    let mut out: Vec<u8> = Vec::new();
    let mut k = rev.len();
    while k > 0
        invariant
            k <= rev@.len(),
            out@ == rev@.reverse().take(rev@.len() - k),
            forall|i: int| 0 <= i < rev@.len() ==> #[trigger] rev@[i] < 128,
        decreases k,
    {
        k = k - 1;
        out.push(rev[k]);
        assert(out@ =~= rev@.reverse().take(rev@.len() - k));
    }
    proof {
        assert(out@ =~= rev@.reverse());
        lemma_hex_number_bytes(n as nat);
    }
    string_from_ascii(out)
}

/// `b` raised to the power `k`.
pub open spec fn power(b: nat, k: nat) -> nat
    decreases k,
{
    if k == 0 {
        1
    } else {
        b * power(b, (k - 1) as nat)
    }
}

/// A number below `10^k` has at most `k` decimal digits.
pub proof fn lemma_decimal_len(n: nat, k: nat)
    requires
        1 <= k,
        n < power(10, k),
    ensures
        decimal(n).len() <= k,
    decreases n,
{
    if n >= 10 {
        let p = power(10, (k - 1) as nat);
        assert(k >= 2) by {
            if k == 1 {
                assert(power(10, 0) == 1);
            }
        }
        assert(n / 10 < p) by (nonlinear_arith)
            requires
                n < 10 * p,
        ;
        lemma_decimal_len(n / 10, (k - 1) as nat);
    }
}

/// A number below `16^k` has at most `k` hexadecimal digits.
pub proof fn lemma_hex_number_len(n: nat, k: nat)
    requires
        1 <= k,
        n < power(16, k),
    ensures
        hex_number(n).len() <= k,
    decreases n,
{
    if n >= 16 {
        let p = power(16, (k - 1) as nat);
        assert(k >= 2) by {
            if k == 1 {
                assert(power(16, 0) == 1);
            }
        }
        assert(n / 16 < p) by (nonlinear_arith)
            requires
                n < 16 * p,
        ;
        lemma_hex_number_len(n / 16, (k - 1) as nat);
    }
}

/// Decimal and hexadecimal digits are ASCII letters or digits.
pub proof fn lemma_digits_alnum(n: nat)
    ensures
        forall|i: int| 0 <= i < decimal(n).len() ==> '0' <= #[trigger] decimal(n)[i] <= '9',
        forall|i: int|
            0 <= i < hex_number(n).len() ==> ('0' <= #[trigger] hex_number(n)[i] <= '9') || ('a'
                <= hex_number(n)[i] <= 'f'),
    decreases n,
{
    if n >= 10 {
        lemma_digits_alnum(n / 10);
        assert forall|i: int| 0 <= i < decimal(n).len() implies '0' <= #[trigger] decimal(n)[i]
            <= '9' by {
            if i < decimal(n / 10).len() {
                assert(decimal(n)[i] == decimal(n / 10)[i]);
            }
        }
    }
    if n >= 16 {
        lemma_digits_alnum(n / 16);
        assert forall|i: int|
            0 <= i < hex_number(n).len() implies ('0' <= #[trigger] hex_number(n)[i] <= '9') || (
            'a' <= hex_number(n)[i] <= 'f') by {
            if i < hex_number(n / 16).len() {
                assert(hex_number(n)[i] == hex_number(n / 16)[i]);
            }
        }
    }
}

/// Insertion of index `x` into the index sequence `s`, after every index whose
/// key does not exceed that of `x`: one step of a stable sort.
pub open spec fn insert_index(keys: Seq<Seq<char>>, s: Seq<int>, x: int) -> Seq<int>
    decreases s.len(),
{
    if s.len() == 0 {
        seq![x]
    } else if text_lt(keys[x], keys[s.last()]) {
        insert_index(keys, s.drop_last(), x).push(s.last())
    } else {
        s.push(x)
    }
}

/// The indices `0..n` in the stable order of their keys.
pub open spec fn sorted_indices(keys: Seq<Seq<char>>, n: nat) -> Seq<int>
    decreases n,
{
    if n == 0 {
        seq![]
    } else {
        insert_index(keys, sorted_indices(keys, (n - 1) as nat), n - 1)
    }
}

/// The elements of `s` in the stable order of `keys`.
pub open spec fn stable_sorted<T>(s: Seq<T>, keys: Seq<Seq<char>>) -> Seq<T> {
    sorted_indices(keys, s.len()).map_values(|i: int| s[i])
}

proof fn lemma_insert_index_at(keys: Seq<Seq<char>>, s: Seq<int>, x: int, j: int)
    requires
        0 <= j <= s.len(),
        forall|k: int| j <= k < s.len() ==> text_lt(keys[x], keys[#[trigger] s[k]]),
        j == 0 || !text_lt(keys[x], keys[s[j - 1]]),
    ensures
        insert_index(keys, s, x) == s.take(j).push(x) + s.skip(j),
    decreases s.len(),
{
    if s.len() == 0 {
        assert(s.take(j).push(x) + s.skip(j) =~= seq![x]);
    } else if j == s.len() {
        assert(s.take(j).push(x) + s.skip(j) =~= s.push(x));
    } else {
        assert(text_lt(keys[x], keys[s[s.len() - 1]]));
        let t = s.drop_last();
        assert forall|k: int| j <= k < t.len() implies text_lt(keys[x], keys[#[trigger] t[k]]) by {
            assert(t[k] == s[k]);
        }
        lemma_insert_index_at(keys, t, x, j);
        assert(s.take(j).push(x) + s.skip(j) =~= (t.take(j).push(x) + t.skip(j)).push(s.last()));
    }
}

proof fn lemma_insert_index_bounds(keys: Seq<Seq<char>>, s: Seq<int>, x: int, n: int)
    requires
        forall|k: int| 0 <= k < s.len() ==> 0 <= #[trigger] s[k] < n,
        0 <= x < n,
    ensures
        insert_index(keys, s, x).len() == s.len() + 1,
        forall|k: int|
            0 <= k < insert_index(keys, s, x).len() ==> 0 <= #[trigger] insert_index(keys, s, x)[k]
                < n,
    decreases s.len(),
{
    if s.len() > 0 && text_lt(keys[x], keys[s.last()]) {
        lemma_insert_index_bounds(keys, s.drop_last(), x, n);
    }
}

pub proof fn lemma_sorted_indices_bounds(keys: Seq<Seq<char>>, n: nat)
    ensures
        sorted_indices(keys, n).len() == n,
        forall|k: int|
            0 <= k < n ==> 0 <= #[trigger] sorted_indices(keys, n)[k] < n,
    decreases n,
{
    if n > 0 {
        lemma_sorted_indices_bounds(keys, (n - 1) as nat);
        lemma_insert_index_bounds(keys, sorted_indices(keys, (n - 1) as nat), n - 1, n as int);
    }
}

/// The positions `0..keys.len()` in the stable order of `keys`.
pub fn sort_indices(keys: &Vec<&str>) -> (r: Vec<usize>)
    ensures
        r@.len() == keys@.len(),
        forall|k: int|
            0 <= k < r@.len() ==> r@[k] as int == sorted_indices(
                keys@.map_values(|s: &str| s@),
                keys@.len(),
            )[k],
        forall|k: int| 0 <= k < r@.len() ==> r@[k] < keys@.len(),
{
    let ghost ks = keys@.map_values(|s: &str| s@);
    let mut r: Vec<usize> = Vec::new();
    let mut n: usize = 0;
    while n < keys.len()
        invariant
            n <= keys@.len(),
            ks == keys@.map_values(|s: &str| s@),
            r@.len() == n,
            forall|k: int| 0 <= k < n ==> r@[k] as int == #[trigger] sorted_indices(ks, n as nat)[k],
            forall|k: int| 0 <= k < n ==> r@[k] < n,
        decreases keys@.len() - n,
    {
        let ghost s = sorted_indices(ks, n as nat);
        proof {
            lemma_sorted_indices_bounds(ks, n as nat);
        }
        let mut j = r.len();
        loop
            invariant
                j <= r@.len(),
                r@.len() == n,
                n < keys@.len(),
                ks == keys@.map_values(|s: &str| s@),
                s == sorted_indices(ks, n as nat),
                forall|k: int| 0 <= k < n ==> r@[k] as int == #[trigger] s[k],
                forall|k: int| 0 <= k < n ==> r@[k] < n,
                forall|k: int| j <= k < n ==> text_lt(ks[n as int], ks[#[trigger] s[k]]),
            ensures
                j <= r@.len(),
                forall|k: int| j <= k < n ==> text_lt(ks[n as int], ks[#[trigger] s[k]]),
                j == 0 || !text_lt(ks[n as int], ks[s[j - 1]]),
            decreases j,
        {
            if j == 0 {
                break;
            }
            let prev = r[j - 1];
            let ord = compare_text(keys[n], keys[prev]);
            assert(ks[n as int] == keys@[n as int]@);
            assert(ks[prev as int] == keys@[prev as int]@);
            if ord != TextOrder::Less {
                break;
            }
            j = j - 1;
        }
        proof {
            let ss = s.map_values(|i: int| i);
            assert(s =~= ss);
            lemma_insert_index_at(ks, s, n as int, j as int);
            assert(sorted_indices(ks, (n + 1) as nat) == insert_index(ks, s, n as int));
        }
        let ghost before = r@;
        r.insert(j, n);
        proof {
            let t = sorted_indices(ks, (n + 1) as nat);
            assert(t == s.take(j as int).push(n as int) + s.skip(j as int));
            assert forall|k: int| 0 <= k < n + 1 implies r@[k] as int == #[trigger] t[k] by {
                if k < j {
                    assert(r@[k] == before[k]);
                } else if k > j {
                    assert(r@[k] == before[k - 1]);
                }
            }
        }
        n = n + 1;
    }
    r
}

/// The texts of a sequence of string slices.
pub open spec fn views(s: Seq<&str>) -> Seq<Seq<char>> {
    s.map_values(|t: &str| t@)
}

/// The first position `k < n` whose text already occurs before `k`.
pub open spec fn first_repeat(s: Seq<Seq<char>>, n: nat) -> Option<int>
    decreases n,
{
    if n == 0 {
        None
    } else {
        match first_repeat(s, (n - 1) as nat) {
            Some(k) => Some(k),
            None => if s.take(n - 1).contains(s[n - 1]) {
                Some(n - 1)
            } else {
                None
            },
        }
    }
}

/// Once found, the first repeat stays the same for every longer prefix.
pub proof fn lemma_first_repeat_stable(s: Seq<Seq<char>>, i: nat, n: nat)
    requires
        i <= n,
        first_repeat(s, i) is Some,
    ensures
        first_repeat(s, n) == first_repeat(s, i),
    decreases n,
{
    if n > i {
        lemma_first_repeat_stable(s, i, (n - 1) as nat);
    }
}

/// The first position of `x` in `s`.
pub open spec fn first_index(s: Seq<Seq<char>>, x: Seq<char>) -> Option<int> {
    if s.contains(x) {
        Some(
            choose|k: int|
                0 <= k < s.len() && s[k] == x && forall|j: int| 0 <= j < k ==> s[j] != x,
        )
    } else {
        None
    }
}

/// A position holding `x` with no earlier `x` is the first position of `x`.
pub proof fn lemma_first_index(s: Seq<Seq<char>>, x: Seq<char>, i: int)
    requires
        0 <= i < s.len(),
        s[i] == x,
        forall|j: int| 0 <= j < i ==> s[j] != x,
    ensures
        first_index(s, x) == Some(i),
{
    assert(s.contains(x));
    let k = choose|k: int| 0 <= k < s.len() && s[k] == x && forall|j: int| 0 <= j < k ==> s[j] != x;
    if k < i {
        assert(s[k] != x);
    } else if k > i {
        assert(s[i] != x);
    }
}

/// Whether `x` occurs among the first `upto` texts of `names`.
pub fn texts_contain(names: &Vec<&str>, upto: usize, x: &str) -> (r: bool)
    requires
        upto <= names@.len(),
    ensures
        r == views(names@).take(upto as int).contains(x@),
{
    let mut i: usize = 0;
    while i < upto
        invariant
            upto <= names@.len(),
            i <= upto,
            forall|k: int| 0 <= k < i ==> names@[k]@ != x@,
        decreases upto - i,
    {
        if text_eq(names[i], x) {
            assert(views(names@).take(upto as int)[i as int] == x@);
            return true;
        }
        i = i + 1;
    }
    proof {
        if views(names@).take(upto as int).contains(x@) {
            let k = choose|k: int| 0 <= k < upto && views(names@).take(upto as int)[k] == x@;
            assert(names@[k]@ == x@);
        }
    }
    false
}

/// The first position of `names` whose text occurs earlier in `names`.
pub fn find_first_repeat(names: &Vec<&str>) -> (r: Option<usize>)
    ensures
        match r {
            Some(k) => first_repeat(views(names@), names@.len() as nat) == Some(k as int),
            None => first_repeat(views(names@), names@.len() as nat) is None,
        },
        r matches Some(k) ==> k < names@.len(),
{
    let mut i: usize = 0;
    while i < names.len()
        invariant
            i <= names@.len(),
            first_repeat(views(names@), i as nat) is None,
        decreases names@.len() - i,
    {
        if texts_contain(names, i, names[i]) {
            assert(views(names@)[i as int] == names@[i as int]@);
            assert(first_repeat(views(names@), (i + 1) as nat) == Some(i as int));
            proof {
                lemma_first_repeat_stable(views(names@), (i + 1) as nat, names@.len() as nat);
            }
            return Some(i);
        }
        i = i + 1;
    }
    None
}


/// Whether the indices `s` are in key order: no later key below an earlier one.
pub open spec fn keys_ordered(keys: Seq<Seq<char>>, s: Seq<int>) -> bool {
    forall|i: int, j: int|
        0 <= i < j < s.len() ==> !text_lt(keys[#[trigger] s[j]], keys[#[trigger] s[i]])
}

proof fn lemma_insert_index_props(keys: Seq<Seq<char>>, s: Seq<int>, x: int)
    requires
        keys_ordered(keys, s),
    ensures
        insert_index(keys, s, x).len() == s.len() + 1,
        forall|y: int| #[trigger] insert_index(keys, s, x).contains(y) <==> (s.contains(y) || y == x),
        keys_ordered(keys, insert_index(keys, s, x)),
        s.no_duplicates() && !s.contains(x) ==> insert_index(keys, s, x).no_duplicates(),
    decreases s.len(),
{
    let r = insert_index(keys, s, x);
    if s.len() == 0 {
        assert(r =~= seq![x]);
        assert forall|y: int| #[trigger] r.contains(y) <==> (s.contains(y) || y == x) by {
            if r.contains(y) {
                let k = choose|k: int| 0 <= k < r.len() && r[k] == y;
                assert(k == 0);
            }
            if y == x {
                assert(r[0] == x);
            }
        }
    } else if text_lt(keys[x], keys[s.last()]) {
        let t = s.drop_last();
        let last = s.last();
        assert forall|i: int, j: int| 0 <= i < j < t.len() implies !text_lt(
            keys[#[trigger] t[j]],
            keys[#[trigger] t[i]],
        ) by {
            assert(t[i] == s[i] && t[j] == s[j]);
        }
        lemma_insert_index_props(keys, t, x);
        let rt = insert_index(keys, t, x);
        assert(r == rt.push(last));
        assert(s =~= t.push(last));
        assert forall|y: int| #[trigger] r.contains(y) <==> (s.contains(y) || y == x) by {
            if r.contains(y) {
                let k = choose|k: int| 0 <= k < r.len() && r[k] == y;
                if k < rt.len() {
                    assert(rt[k] == y);
                    assert(rt.contains(y));
                    if t.contains(y) {
                        let m = choose|m: int| 0 <= m < t.len() && t[m] == y;
                        assert(s[m] == y);
                    }
                } else {
                    assert(s[s.len() - 1] == y);
                }
            }
            if s.contains(y) {
                let m = choose|m: int| 0 <= m < s.len() && s[m] == y;
                if m < t.len() {
                    assert(t[m] == y);
                    assert(rt.contains(y));
                    let k = choose|k: int| 0 <= k < rt.len() && rt[k] == y;
                    assert(r[k] == y);
                } else {
                    assert(r[rt.len() as int] == y);
                }
            }
            if y == x {
                assert(rt.contains(x));
                let k = choose|k: int| 0 <= k < rt.len() && rt[k] == x;
                assert(r[k] == x);
            }
        }
        assert forall|i: int, j: int| 0 <= i < j < r.len() implies !text_lt(
            keys[#[trigger] r[j]],
            keys[#[trigger] r[i]],
        ) by {
            if j < rt.len() {
                assert(r[i] == rt[i] && r[j] == rt[j]);
            } else {
                assert(r[j] == last);
                assert(r[i] == rt[i]);
                assert(rt.contains(rt[i]));
                if rt[i] == x {
                    lemma_text_lt_asymmetric(keys[x], keys[last]);
                } else {
                    let m = choose|m: int| 0 <= m < t.len() && t[m] == rt[i];
                    assert(s[m] == rt[i]);
                    assert(s[s.len() - 1] == last);
                }
            }
        }
        if s.no_duplicates() && !s.contains(x) {
            assert(!t.contains(x)) by {
                if t.contains(x) {
                    let m = choose|m: int| 0 <= m < t.len() && t[m] == x;
                    assert(s[m] == x);
                }
            }
            assert(t.no_duplicates()) by {
                assert forall|i: int, j: int| 0 <= i < t.len() && 0 <= j < t.len() && i != j implies t[i]
                    != t[j] by {
                    assert(t[i] == s[i] && t[j] == s[j]);
                }
            }
            assert(!rt.contains(last)) by {
                if rt.contains(last) {
                    if t.contains(last) {
                        let m = choose|m: int| 0 <= m < t.len() && t[m] == last;
                        assert(s[m] == last && s[s.len() - 1] == last);
                    } else {
                        assert(last == x);
                        assert(s[s.len() - 1] == x);
                    }
                }
            }
            assert forall|i: int, j: int| 0 <= i < r.len() && 0 <= j < r.len() && i != j implies r[i]
                != r[j] by {
                if i < rt.len() && j < rt.len() {
                    assert(r[i] == rt[i] && r[j] == rt[j]);
                } else if i < rt.len() {
                    assert(r[i] == rt[i]);
                    assert(rt.contains(rt[i]));
                } else {
                    assert(r[j] == rt[j]);
                    assert(rt.contains(rt[j]));
                }
            }
        }
    } else {
        assert(r == s.push(x));
        let last = s.last();
        assert forall|y: int| #[trigger] r.contains(y) <==> (s.contains(y) || y == x) by {
            if r.contains(y) {
                let k = choose|k: int| 0 <= k < r.len() && r[k] == y;
                if k < s.len() {
                    assert(s[k] == y);
                }
            }
            if s.contains(y) {
                let m = choose|m: int| 0 <= m < s.len() && s[m] == y;
                assert(r[m] == y);
            }
            if y == x {
                assert(r[s.len() as int] == x);
            }
        }
        assert forall|i: int, j: int| 0 <= i < j < r.len() implies !text_lt(
            keys[#[trigger] r[j]],
            keys[#[trigger] r[i]],
        ) by {
            if j < s.len() {
                assert(r[i] == s[i] && r[j] == s[j]);
            } else {
                assert(r[j] == x);
                assert(r[i] == s[i]);
                if text_lt(keys[x], keys[s[i]]) {
                    if i < s.len() - 1 {
                        assert(!text_lt(keys[s[s.len() - 1]], keys[s[i]]));
                        if keys[last] != keys[s[i]] {
                            lemma_text_lt_total(keys[last], keys[s[i]]);
                            lemma_text_lt_transitive(keys[x], keys[s[i]], keys[last]);
                        }
                    }
                }
            }
        }
        if s.no_duplicates() && !s.contains(x) {
            assert forall|i: int, j: int| 0 <= i < r.len() && 0 <= j < r.len() && i != j implies r[i]
                != r[j] by {
                if i < s.len() && j < s.len() {
                    assert(r[i] == s[i] && r[j] == s[j]);
                } else if i < s.len() {
                    assert(r[i] == s[i]);
                } else {
                    assert(r[j] == s[j]);
                }
            }
        }
    }
}

/// `sorted_indices` orders the indices `0..n` by key, each exactly once.
pub proof fn lemma_sorted_indices_permutation(keys: Seq<Seq<char>>, n: nat)
    ensures
        sorted_indices(keys, n).len() == n,
        sorted_indices(keys, n).no_duplicates(),
        forall|y: int| #[trigger] sorted_indices(keys, n).contains(y) <==> 0 <= y < n,
        keys_ordered(keys, sorted_indices(keys, n)),
    decreases n,
{
    if n > 0 {
        let s = sorted_indices(keys, (n - 1) as nat);
        lemma_sorted_indices_permutation(keys, (n - 1) as nat);
        lemma_insert_index_props(keys, s, n - 1);
    }
}


/// Whether the keys of `s` strictly increase.
pub open spec fn strictly_keyed<T>(s: Seq<T>, key: spec_fn(T) -> Seq<char>) -> bool {
    forall|i: int, j: int| 0 <= i < j < s.len() ==> text_lt(key(#[trigger] s[i]), key(#[trigger] s[j]))
}

/// Stable sorting items with distinct keys orders them strictly by key and
/// keeps exactly the same items.
pub proof fn lemma_stable_sorted_strict<T>(s: Seq<T>, key: spec_fn(T) -> Seq<char>)
    requires
        s.map_values(key).no_duplicates(),
    ensures
        strictly_keyed(stable_sorted(s, s.map_values(key)), key),
        forall|x: T| #[trigger] stable_sorted(s, s.map_values(key)).contains(x) <==> s.contains(x),
{
    let keys = s.map_values(key);
    let si = sorted_indices(keys, s.len());
    let o = stable_sorted(s, keys);
    lemma_sorted_indices_permutation(keys, s.len());
    assert forall|k: int| 0 <= k < si.len() implies 0 <= #[trigger] si[k] < s.len() by {
        assert(si.contains(si[k]));
    }
    assert forall|i: int, j: int| 0 <= i < j < o.len() implies text_lt(
        key(#[trigger] o[i]),
        key(#[trigger] o[j]),
    ) by {
        assert(o[i] == s[si[i]] && o[j] == s[si[j]]);
        assert(keys[si[i]] == key(s[si[i]]));
        assert(keys[si[j]] == key(s[si[j]]));
        assert(si[i] != si[j]);
        assert(keys[si[i]] != keys[si[j]]);
        lemma_text_lt_total(keys[si[i]], keys[si[j]]);
    }
    assert forall|x: T| #[trigger] o.contains(x) <==> s.contains(x) by {
        if o.contains(x) {
            let k = choose|k: int| 0 <= k < o.len() && o[k] == x;
            assert(o[k] == s[si[k]]);
        }
        if s.contains(x) {
            let m = choose|m: int| 0 <= m < s.len() && s[m] == x;
            assert(si.contains(m));
            let k = choose|k: int| 0 <= k < si.len() && si[k] == m;
            assert(o[k] == x);
        }
    }
}

/// Two sequences with strictly increasing keys and the same items are equal.
pub proof fn lemma_strictly_keyed_equal<T>(a: Seq<T>, b: Seq<T>, key: spec_fn(T) -> Seq<char>)
    requires
        strictly_keyed(a, key),
        strictly_keyed(b, key),
        forall|x: T| #[trigger] a.contains(x) <==> b.contains(x),
    ensures
        a == b,
    decreases a.len(),
{
    if a.len() == 0 {
        if b.len() > 0 {
            assert(b.contains(b[0]));
            assert(a.contains(b[0]));
        }
        assert(a =~= b);
    } else {
        assert(a.contains(a.last()));
        assert(b.len() > 0);
        assert(b.contains(b.last()));
        let la = a.last();
        let lb = b.last();
        if la != lb {
            assert(b.contains(la));
            assert(a.contains(lb));
            let i = choose|i: int| 0 <= i < b.len() && b[i] == la;
            let j = choose|j: int| 0 <= j < a.len() && a[j] == lb;
            assert(i < b.len() - 1);
            assert(j < a.len() - 1);
            assert(text_lt(key(b[i]), key(b[b.len() - 1])));
            assert(text_lt(key(a[j]), key(a[a.len() - 1])));
            lemma_text_lt_asymmetric(key(la), key(lb));
        }
        let ta = a.drop_last();
        let tb = b.drop_last();
        assert forall|x: T| #[trigger] ta.contains(x) <==> tb.contains(x) by {
            if ta.contains(x) {
                let k = choose|k: int| 0 <= k < ta.len() && ta[k] == x;
                assert(a[k] == x);
                assert(text_lt(key(a[k]), key(a[a.len() - 1])));
                lemma_text_lt_irreflexive(key(x));
                assert(a.contains(x));
                assert(b.contains(x));
                let m = choose|m: int| 0 <= m < b.len() && b[m] == x;
                if m == b.len() - 1 {
                    assert(x == lb);
                } else {
                    assert(tb[m] == x);
                }
            }
            if tb.contains(x) {
                let k = choose|k: int| 0 <= k < tb.len() && tb[k] == x;
                assert(b[k] == x);
                assert(text_lt(key(b[k]), key(b[b.len() - 1])));
                lemma_text_lt_irreflexive(key(x));
                assert(b.contains(x));
                assert(a.contains(x));
                let m = choose|m: int| 0 <= m < a.len() && a[m] == x;
                if m == a.len() - 1 {
                    assert(x == la);
                } else {
                    assert(ta[m] == x);
                }
            }
        }
        assert forall|i: int, j: int| 0 <= i < j < ta.len() implies text_lt(
            key(#[trigger] ta[i]),
            key(#[trigger] ta[j]),
        ) by {
            assert(ta[i] == a[i] && ta[j] == a[j]);
        }
        assert forall|i: int, j: int| 0 <= i < j < tb.len() implies text_lt(
            key(#[trigger] tb[i]),
            key(#[trigger] tb[j]),
        ) by {
            assert(tb[i] == b[i] && tb[j] == b[j]);
        }
        lemma_strictly_keyed_equal(ta, tb, key);
        assert(a =~= ta.push(la));
        assert(b =~= tb.push(lb));
    }
}

/// Stable sorting by distinct keys forgets the input order: two arrangements
/// of the same items sort to the same sequence.
pub proof fn lemma_stable_sorted_permutation<T>(
    s1: Seq<T>,
    s2: Seq<T>,
    key: spec_fn(T) -> Seq<char>,
)
    requires
        s1.to_multiset() == s2.to_multiset(),
        s1.map_values(key).no_duplicates(),
        s2.map_values(key).no_duplicates(),
    ensures
        stable_sorted(s1, s1.map_values(key)) == stable_sorted(s2, s2.map_values(key)),
{
    broadcast use vstd::seq_lib::group_to_multiset_ensures;

    lemma_stable_sorted_strict(s1, key);
    lemma_stable_sorted_strict(s2, key);
    let o1 = stable_sorted(s1, s1.map_values(key));
    let o2 = stable_sorted(s2, s2.map_values(key));
    assert forall|x: T| #[trigger] o1.contains(x) <==> o2.contains(x) by {
        assert(s1.contains(x) <==> s1.to_multiset().count(x) > 0);
        assert(s2.contains(x) <==> s2.to_multiset().count(x) > 0);
    }
    lemma_strictly_keyed_equal(o1, o2, key);
}


/// The texts of `s` with `sep` between neighbours.
pub open spec fn joined(s: Seq<Seq<char>>, sep: Seq<char>) -> Seq<char>
    decreases s.len(),
{
    if s.len() == 0 {
        Seq::empty()
    } else if s.len() == 1 {
        s[0]
    } else {
        joined(s.drop_last(), sep) + sep + s.last()
    }
}

/// Joins the texts of `parts` with `sep` between neighbours.
pub fn join_texts(parts: &Vec<String>, sep: &str) -> (r: String)
    ensures
        r@ == joined(parts@.map_values(|p: String| p@), sep@),
{
    let ghost v = parts@.map_values(|p: String| p@);
    let mut out = String::new();
    let mut i: usize = 0;
    while i < parts.len()
        invariant
            i <= parts@.len(),
            v == parts@.map_values(|p: String| p@),
            out@ == joined(v.take(i as int), sep@),
        decreases parts@.len() - i,
    {
        assert(v.take(i + 1).drop_last() =~= v.take(i as int));
        assert(v.take(i + 1).last() == parts@[i as int]@);
        if i > 0 {
            out.append(sep);
        } else {
            assert(out@ =~= Seq::<char>::empty());
        }
        out.append(parts[i].as_str());
        proof {
            if i == 0 {
                assert(v.take(1) =~= seq![v[0]]);
                assert(out@ =~= v[0]);
            }
        }
        i = i + 1;
    }
    assert(v.take(parts@.len() as int) =~= v);
    out
}


/// Whether `s` ends with `p`.
pub open spec fn has_suffix(s: Seq<char>, p: Seq<char>) -> bool {
    p.len() <= s.len() && s.skip(s.len() - p.len()) == p
}

/// The text `{:?}` gives an `i32`: its decimal digits, with `-` when negative.
pub open spec fn signed_decimal(n: i32) -> Seq<char> {
    if n < 0 {
        "-"@ + decimal((-n) as nat)
    } else {
        decimal(n as nat)
    }
}

/// Renders an `i32` in decimal.
pub fn signed_decimal_text(n: i32) -> (r: String)
    ensures
        r@ == signed_decimal(n),
{
    if n < 0 {
        let magnitude = (-(n as i64)) as usize;
        let digits = decimal_text(magnitude);
        concat2("-", digits.as_str())
    } else {
        decimal_text(n as usize)
    }
}


/// Applying `f` to the items of two arrangements of the same items gives two
/// arrangements of the same results.
pub proof fn lemma_map_permutation<A, B>(s1: Seq<A>, s2: Seq<A>, f: spec_fn(A) -> B)
    requires
        s1.to_multiset() == s2.to_multiset(),
    ensures
        s1.map_values(f).to_multiset() == s2.map_values(f).to_multiset(),
    decreases s1.len(),
{
    broadcast use vstd::seq_lib::group_to_multiset_ensures;

    if s1.len() == 0 {
        assert(s2.to_multiset().len() == 0);
        assert(s2.len() == 0);
        assert(s1.map_values(f) =~= s2.map_values(f));
    } else {
        let x = s1.last();
        let t1 = s1.drop_last();
        assert(s1 =~= t1.push(x));
        assert(s1.to_multiset() =~= t1.to_multiset().insert(x));
        assert(s1.contains(x)) by {
            assert(s1[s1.len() - 1] == x);
        }
        assert(s2.to_multiset().count(x) > 0);
        assert(s2.contains(x));
        let k = choose|k: int| 0 <= k < s2.len() && s2[k] == x;
        let t2 = s2.remove(k);
        assert(t2.to_multiset() =~= s2.to_multiset().remove(x));
        assert(t1.to_multiset() =~= t1.to_multiset().insert(x).remove(x));
        lemma_map_permutation(t1, t2, f);
        assert(s1.map_values(f) =~= t1.map_values(f).push(f(x)));
        let m2 = s2.map_values(f);
        assert(m2.remove(k) =~= t2.map_values(f));
        assert(m2[k] == f(x));
        assert(m2.remove(k).to_multiset() =~= m2.to_multiset().remove(f(x)));
        assert(m2.contains(f(x)));
        assert(m2.to_multiset().count(f(x)) > 0);
        assert(m2.to_multiset() =~= m2.to_multiset().remove(f(x)).insert(f(x)));
    }
}

/// With no repeat among the first `n` texts, those texts are distinct.
pub proof fn lemma_no_repeat_distinct(s: Seq<Seq<char>>, n: nat)
    requires
        n <= s.len(),
        first_repeat(s, n) is None,
    ensures
        s.take(n as int).no_duplicates(),
    decreases n,
{
    if n > 0 {
        lemma_no_repeat_distinct(s, (n - 1) as nat);
        let t = s.take(n as int);
        let p = s.take(n - 1);
        assert(!p.contains(s[n - 1]));
        assert forall|i: int, j: int| 0 <= i < t.len() && 0 <= j < t.len() && i != j implies t[i]
            != t[j] by {
            if i < n - 1 && j < n - 1 {
                assert(t[i] == p[i] && t[j] == p[j]);
            } else if i < n - 1 {
                assert(t[i] == p[i]);
                assert(t[j] == s[n - 1]);
            } else {
                assert(t[j] == p[j]);
                assert(t[i] == s[n - 1]);
            }
        }
    }
}

/// The stable sort of `s` holds the same elements: its `k`-th element is the
/// element of `s` at the `k`-th sorted index, and every index occurs.
pub proof fn lemma_stable_sorted_members<T>(s: Seq<T>, keys: Seq<Seq<char>>)
    requires
        keys.len() == s.len(),
    ensures
        stable_sorted(s, keys).len() == s.len(),
        sorted_indices(keys, s.len()).len() == s.len(),
        forall|k: int|
            0 <= k < s.len() ==> 0 <= sorted_indices(keys, s.len())[k] < s.len()
                && #[trigger] stable_sorted(s, keys)[k] == s[sorted_indices(keys, s.len())[k]],
        forall|j: int| 0 <= j < s.len() ==> #[trigger] sorted_indices(keys, s.len()).contains(j),
{
    let n = s.len();
    let idx = sorted_indices(keys, n);
    lemma_sorted_indices_permutation(keys, n);
    assert forall|k: int| 0 <= k < n implies 0 <= #[trigger] idx[k] < n by {
        assert(idx.contains(idx[k]));
    }
}

} // verus!
