//! The URL-safe base64 transform (RFC 4648, section 5) without padding.
use base64::Engine;
use vstd::prelude::*;

verus! {

/// The character of the URL-safe alphabet that stands for the six-bit value `v`:
/// `A`-`Z`, `a`-`z`, `0`-`9`, `-`, `_`, in that order.
pub open spec fn symbol(v: int) -> char {
    if v < 26 {
        (65 + v) as char
    } else if v < 52 {
        (97 + (v - 26)) as char
    } else if v < 62 {
        (48 + (v - 52)) as char
    } else if v == 62 {
        '-'
    } else {
        '_'
    }
}

/// Whether `c` belongs to the URL-safe alphabet.
pub open spec fn is_url_safe_char(c: char) -> bool {
    ('A' <= c && c <= 'Z') || ('a' <= c && c <= 'z') || ('0' <= c && c <= '9') || c == '-'
        || c == '_'
}

/// Whether every character of `s` belongs to the URL-safe alphabet.
pub open spec fn is_url_safe(s: Seq<char>) -> bool {
    forall|i: int| 0 <= i < s.len() ==> #[trigger] is_url_safe_char(s[i])
}

/// The four characters for the three bytes `x`, `y`, `z`.
pub open spec fn triple_chars(x: int, y: int, z: int) -> Seq<char> {
    seq![
        symbol(x / 4),
        symbol((x % 4) * 16 + y / 16),
        symbol((y % 16) * 4 + z / 64),
        symbol(z % 64),
    ]
}

/// The three characters for a trailing pair of bytes `x`, `y`.
pub open spec fn pair_chars(x: int, y: int) -> Seq<char> {
    seq![symbol(x / 4), symbol((x % 4) * 16 + y / 16), symbol((y % 16) * 4)]
}

/// The two characters for a trailing single byte `x`.
pub open spec fn single_chars(x: int) -> Seq<char> {
    seq![symbol(x / 4), symbol((x % 4) * 16)]
}

/// Base64 over the URL-safe alphabet, unpadded: each group of three bytes
/// gives four characters, a trailing single byte two, a trailing pair three.
pub open spec fn base64url(b: Seq<u8>) -> Seq<char>
    decreases b.len(),
{
    if b.len() == 0 {
        seq![]
    } else if b.len() == 1 {
        single_chars(b[0] as int)
    } else if b.len() == 2 {
        pair_chars(b[0] as int, b[1] as int)
    } else {
        triple_chars(b[0] as int, b[1] as int, b[2] as int) + base64url(b.subrange(3, b.len() as int))
    }
}

/// The length of the unpadded encoding of `n` bytes.
pub open spec fn encoded_len(n: nat) -> nat {
    (4 * n + 2) / 3
}

/// Relies on base64's `URL_SAFE_NO_PAD` engine and `Engine::encode`: the
/// RFC 4648 URL-safe alphabet with no `=` padding. `Engine::encode` panics only
/// when the output length overflows `usize`, which `requires` rules out.
#[verifier::external_body]
fn base64_url_no_pad(bytes: &[u8]) -> (r: String)
    requires
        bytes@.len() <= isize::MAX,
    ensures
        r@ == base64url(bytes@),
{
    base64::engine::general_purpose::URL_SAFE_NO_PAD.encode(bytes)
}

/// `encoded_len(n)` is the ceiling of `4 * n / 3`.
pub proof fn lemma_encoded_len_is_ceiling(n: nat)
    ensures
        3 * encoded_len(n) >= 4 * n,
        3 * encoded_len(n) < 4 * n + 3,
{
}

proof fn lemma_symbol_url_safe(v: int)
    requires
        0 <= v < 64,
    ensures
        is_url_safe_char(symbol(v)),
{
}

/// The encoding of `n` bytes has `encoded_len(n)` characters.
pub proof fn lemma_encoded_length(b: Seq<u8>)
    ensures
        base64url(b).len() == encoded_len(b.len()),
    decreases b.len(),
{
    if b.len() >= 3 {
        lemma_encoded_length(b.subrange(3, b.len() as int));
    }
}

/// Every character of an encoding belongs to the URL-safe alphabet.
pub proof fn lemma_encoding_url_safe(b: Seq<u8>)
    ensures
        is_url_safe(base64url(b)),
    decreases b.len(),
{
    if b.len() == 0 {
    } else if b.len() == 1 {
        let x = b[0] as int;
        lemma_symbol_url_safe(x / 4);
        lemma_symbol_url_safe((x % 4) * 16);
    } else if b.len() == 2 {
        let (x, y) = (b[0] as int, b[1] as int);
        lemma_symbol_url_safe(x / 4);
        lemma_symbol_url_safe((x % 4) * 16 + y / 16);
        lemma_symbol_url_safe((y % 16) * 4);
    } else {
        let (x, y, z) = (b[0] as int, b[1] as int, b[2] as int);
        let rest = b.subrange(3, b.len() as int);
        lemma_symbol_url_safe(x / 4);
        lemma_symbol_url_safe((x % 4) * 16 + y / 16);
        lemma_symbol_url_safe((y % 16) * 4 + z / 64);
        lemma_symbol_url_safe(z % 64);
        lemma_encoding_url_safe(rest);
        assert forall|i: int| 0 <= i < base64url(b).len() implies #[trigger] is_url_safe_char(
            base64url(b)[i],
        ) by {
            if i >= 4 {
                assert(base64url(b)[i] == base64url(rest)[i - 4]);
            }
        }
    }
}

proof fn lemma_symbol_injective(v: int, w: int)
    requires
        0 <= v < 64,
        0 <= w < 64,
        symbol(v) == symbol(w),
    ensures
        v == w,
{
}

proof fn lemma_triple_injective(x: int, y: int, z: int, x2: int, y2: int, z2: int)
    requires
        0 <= x < 256,
        0 <= y < 256,
        0 <= z < 256,
        0 <= x2 < 256,
        0 <= y2 < 256,
        0 <= z2 < 256,
        triple_chars(x, y, z) == triple_chars(x2, y2, z2),
    ensures
        x == x2,
        y == y2,
        z == z2,
{
    let (c, d) = (triple_chars(x, y, z), triple_chars(x2, y2, z2));
    assert(c[0] == d[0] && c[1] == d[1] && c[2] == d[2] && c[3] == d[3]);
    lemma_symbol_injective(x / 4, x2 / 4);
    lemma_symbol_injective((x % 4) * 16 + y / 16, (x2 % 4) * 16 + y2 / 16);
    lemma_symbol_injective((y % 16) * 4 + z / 64, (y2 % 16) * 4 + z2 / 64);
    lemma_symbol_injective(z % 64, z2 % 64);
}

proof fn lemma_pair_injective(x: int, y: int, x2: int, y2: int)
    requires
        0 <= x < 256,
        0 <= y < 256,
        0 <= x2 < 256,
        0 <= y2 < 256,
        pair_chars(x, y) == pair_chars(x2, y2),
    ensures
        x == x2,
        y == y2,
{
    let (c, d) = (pair_chars(x, y), pair_chars(x2, y2));
    assert(c[0] == d[0] && c[1] == d[1] && c[2] == d[2]);
    lemma_symbol_injective(x / 4, x2 / 4);
    lemma_symbol_injective((x % 4) * 16 + y / 16, (x2 % 4) * 16 + y2 / 16);
    lemma_symbol_injective((y % 16) * 4, (y2 % 16) * 4);
}

proof fn lemma_single_injective(x: int, x2: int)
    requires
        0 <= x < 256,
        0 <= x2 < 256,
        single_chars(x) == single_chars(x2),
    ensures
        x == x2,
{
    let (c, d) = (single_chars(x), single_chars(x2));
    assert(c[0] == d[0] && c[1] == d[1]);
    lemma_symbol_injective(x / 4, x2 / 4);
    lemma_symbol_injective((x % 4) * 16, (x2 % 4) * 16);
}

/// Distinct byte sequences have distinct encodings.
pub proof fn lemma_encoding_injective(a: Seq<u8>, b: Seq<u8>)
    requires
        base64url(a) == base64url(b),
    ensures
        a == b,
    decreases a.len(),
{
    lemma_encoded_length(a);
    lemma_encoded_length(b);
    assert(a.len() == b.len());
    if a.len() == 1 {
        lemma_single_injective(a[0] as int, b[0] as int);
        assert(a =~= b);
    } else if a.len() == 2 {
        lemma_pair_injective(a[0] as int, a[1] as int, b[0] as int, b[1] as int);
        assert(a =~= b);
    } else if a.len() >= 3 {
        let (ra, rb) = (a.subrange(3, a.len() as int), b.subrange(3, b.len() as int));
        let (ta, tb) = (
            triple_chars(a[0] as int, a[1] as int, a[2] as int),
            triple_chars(b[0] as int, b[1] as int, b[2] as int),
        );
        assert(base64url(a) == ta + base64url(ra));
        assert(base64url(b) == tb + base64url(rb));
        assert(ta =~= base64url(a).subrange(0, 4));
        assert(tb =~= base64url(b).subrange(0, 4));
        assert(base64url(ra) =~= base64url(a).subrange(4, base64url(a).len() as int));
        assert(base64url(rb) =~= base64url(b).subrange(4, base64url(b).len() as int));
        lemma_triple_injective(
            a[0] as int,
            a[1] as int,
            a[2] as int,
            b[0] as int,
            b[1] as int,
            b[2] as int,
        );
        lemma_encoding_injective(ra, rb);
        assert forall|i: int| 0 <= i < a.len() implies a[i] == b[i] by {
            if i >= 3 {
                assert(a[i] == ra[i - 3] && b[i] == rb[i - 3]);
            }
        }
        assert(a =~= b);
    } else {
        assert(a =~= b);
    }
}

/// Where `a` fills whole groups of three bytes, the encoding of `a + b` is
/// the encoding of `a` followed by that of `b`.
pub proof fn lemma_encoding_concat(a: Seq<u8>, b: Seq<u8>)
    requires
        a.len() % 3 == 0,
    ensures
        base64url(a + b) == base64url(a) + base64url(b),
    decreases a.len(),
{
    if a.len() == 0 {
        assert(a + b =~= b);
        assert(base64url(a) + base64url(b) =~= base64url(b));
    } else {
        let ab = a + b;
        let ra = a.subrange(3, a.len() as int);
        assert(ab.subrange(3, ab.len() as int) =~= ra + b);
        lemma_encoding_concat(ra, b);
        assert(ab[0] == a[0] && ab[1] == a[1] && ab[2] == a[2]);
        let t = triple_chars(a[0] as int, a[1] as int, a[2] as int);
        assert(base64url(ab) == t + base64url(ra + b));
        assert(base64url(a) == t + base64url(ra));
        assert(t + (base64url(ra) + base64url(b)) =~= (t + base64url(ra)) + base64url(b));
    }
}

/// Encodes `bytes` with the URL-safe base64 alphabet and no padding.
pub fn encode(bytes: &[u8]) -> (r: String)
    requires
        bytes@.len() <= isize::MAX,
    ensures
        r@ == base64url(bytes@),
        r@.len() == encoded_len(bytes@.len()),
        is_url_safe(r@),
{
    proof {
        lemma_encoded_length(bytes@);
        lemma_encoding_url_safe(bytes@);
    }
    base64_url_no_pad(bytes)
}

} // verus!
