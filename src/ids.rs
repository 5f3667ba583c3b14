//! Identifiers as text: random and time-ordered, of the default or a chosen
//! size, and the `ShortId` type that wraps one.
use vstd::prelude::*;
use vstd::arithmetic::div_mod::{
    lemma_div_is_ordered, lemma_div_plus_one, lemma_hoist_over_denominator,
};
use vstd::std_specs::convert::FromSpec;

use crate::encoding::{
    base64url, encode, encoded_len, is_url_safe, lemma_encoded_length, lemma_encoding_concat,
    lemma_encoding_injective, symbol, triple_chars,
};
use crate::source::{
    generate_ordered, generate_random, lemma_stamp_bytes_determine_residue, lemma_stamp_len,
    lemma_stamp_byte, lemma_stamp_modulus_positive, ordered_bytes, ordered_len_ok, random_bytes,
    random_len_ok, stamp_bytes, stamp_modulus, unit_micros, units_of, IdError, Precision,
    DEFAULT_BYTES,
};

verus! {

/// Whether `s` is the text of a random identifier made from `n` bytes.
pub open spec fn is_random_id(s: Seq<char>, n: nat) -> bool {
    exists|b: Seq<u8>| b.len() == n && s == base64url(b)
}

/// Whether `s` is the text of an ordered identifier made from `n` bytes: a
/// clock reading of `micros` microseconds since the Unix epoch, in units of
/// `precision`, then random bytes.
pub open spec fn is_ordered_id(s: Seq<char>, n: nat, precision: Precision) -> bool {
    exists|micros: u128, tail: Seq<u8>|
        tail.len() + precision.spec_width() == n && s == base64url(
            ordered_bytes(units_of(micros as nat, precision), precision, tail),
        )
}

/// A random identifier of fourteen characters, from ten random bytes.
pub fn short_id() -> (r: String)
    ensures
        is_random_id(r@, DEFAULT_BYTES as nat),
        r@.len() == 14,
        is_url_safe(r@),
{
    let bytes = random_bytes(DEFAULT_BYTES);
    encode(bytes.as_slice())
}

/// A random identifier made from `num_bytes` random bytes, 1 to `MAX_BYTES`;
/// other counts give `InvalidLength`.
pub fn short_id_with_bytes(num_bytes: usize) -> (r: Result<String, IdError>)
    ensures
        r is Err <==> !random_len_ok(num_bytes as nat),
        r matches Err(e) ==> e == IdError::InvalidLength,
        r matches Ok(s) ==> is_random_id(s@, num_bytes as nat) && s@.len() == encoded_len(
            num_bytes as nat,
        ) && is_url_safe(s@),
{
    match generate_random(num_bytes) {
        Ok(bytes) => Ok(encode(bytes.as_slice())),
        Err(e) => Err(e),
    }
}

/// An ordered identifier made from `num_bytes` bytes: a microsecond
/// timestamp in the first eight, random bytes after. Counts below eight or
/// above `MAX_BYTES` give `InvalidLength`; a clock set before the Unix epoch
/// gives `ClockError`.
pub fn short_id_ordered_with_bytes(num_bytes: usize) -> (r: Result<String, IdError>)
    ensures
        (r matches Err(IdError::InvalidLength)) <==> !ordered_len_ok(
            num_bytes as nat,
            Precision::Microseconds,
        ),
        r is Err ==> r == Err::<String, IdError>(IdError::InvalidLength) || r == Err::<
            String,
            IdError,
        >(IdError::ClockError),
        r matches Ok(s) ==> is_ordered_id(s@, num_bytes as nat, Precision::Microseconds)
            && s@.len() == encoded_len(num_bytes as nat) && is_url_safe(s@),
{
    match generate_ordered(num_bytes, Precision::Microseconds) {
        Ok(bytes) => Ok(encode(bytes.as_slice())),
        Err(e) => Err(e),
    }
}

/// An ordered identifier of fourteen characters: an eight-byte microsecond
/// timestamp and two random bytes. A clock set before the Unix epoch gives
/// `ClockError`.
pub fn short_id_ordered() -> (r: Result<String, IdError>)
    ensures
        r matches Err(e) ==> e == IdError::ClockError,
        r matches Ok(s) ==> is_ordered_id(s@, DEFAULT_BYTES as nat, Precision::Microseconds)
            && s@.len() == 14 && is_url_safe(s@),
{
    short_id_ordered_with_bytes(DEFAULT_BYTES)
}

/// An identifier as a type of its own. Equality, order and hashing are those
/// of the text it holds.
#[derive(Clone, PartialEq, Eq, PartialOrd, Ord, Hash, Debug)]
pub struct ShortId(String);

impl View for ShortId {
    type V = Seq<char>;

    closed spec fn view(&self) -> Seq<char> {
        self.0@
    }
}

impl ShortId {
    /// A random identifier, as `short_id` makes it.
    pub fn random() -> (r: ShortId)
        ensures
            is_random_id(r@, DEFAULT_BYTES as nat),
            r@.len() == 14,
    {
        ShortId(short_id())
    }

    /// An ordered identifier, as `short_id_ordered` makes it.
    pub fn ordered() -> (r: Result<ShortId, IdError>)
        ensures
            r matches Err(e) ==> e == IdError::ClockError,
            r matches Ok(id) ==> is_ordered_id(id@, DEFAULT_BYTES as nat, Precision::Microseconds)
                && id@.len() == 14,
    {
        match short_id_ordered() {
            Ok(s) => Ok(ShortId(s)),
            Err(e) => Err(e),
        }
    }

    /// The text of the identifier.
    pub fn as_str(&self) -> (r: &str)
        ensures
            r@ == self@,
    {
        self.0.as_str()
    }

    /// The text of the identifier, taking it out of the wrapper.
    pub fn into_string(self) -> (r: String)
        ensures
            r@ == self@,
    {
        self.0
    }

    /// A copy of the text of the identifier.
    pub fn to_string(&self) -> (r: String)
        ensures
            r@ == self@,
    {
        self.0.clone()
    }
}

impl AsRef<str> for ShortId {
    fn as_ref(&self) -> &str {
        self.0.as_str()
    }
}

impl From<String> for ShortId {
    fn from(s: String) -> (r: ShortId) {
        ShortId(s)
    }
}

impl vstd::std_specs::convert::FromSpecImpl<String> for ShortId {
    open spec fn obeys_from_spec() -> bool {
        true
    }

    closed spec fn from_spec(s: String) -> ShortId {
        ShortId(s)
    }
}

impl From<ShortId> for String {
    fn from(id: ShortId) -> (r: String) {
        id.0
    }
}

impl vstd::std_specs::convert::FromSpecImpl<ShortId> for String {
    open spec fn obeys_from_spec() -> bool {
        true
    }

    closed spec fn from_spec(id: ShortId) -> String {
        id.0
    }
}

/// Wrapping a text as a `ShortId` and taking it out again gives back the
/// same text; the wrapped identifier's view is that text.
pub proof fn lemma_wrap_round_trip(s: String)
    ensures
        <ShortId as FromSpec<String>>::from_spec(s)@ == s@,
        <String as FromSpec<ShortId>>::from_spec(<ShortId as FromSpec<String>>::from_spec(s))
            == s,
{
}

/// Two ordered identifiers whose timestamps differ by at least one unit of
/// their precision, and by less than the period after which the timestamp
/// field repeats, have different text, whatever their random bytes.
pub proof fn lemma_later_stamp_distinct_text(
    t1: nat,
    t2: nat,
    precision: Precision,
    tail1: Seq<u8>,
    tail2: Seq<u8>,
)
    requires
        t1 < t2 < t1 + stamp_modulus(precision.spec_width()),
    ensures
        base64url(ordered_bytes(t1, precision, tail1)) != base64url(
            ordered_bytes(t2, precision, tail2),
        ),
{
    let w = precision.spec_width();
    let m = stamp_modulus(w);
    let (b1, b2) = (ordered_bytes(t1, precision, tail1), ordered_bytes(t2, precision, tail2));
    if base64url(b1) == base64url(b2) {
        lemma_encoding_injective(b1, b2);
        lemma_stamp_len(t1, w);
        lemma_stamp_len(t2, w);
        assert(stamp_bytes(t1, w) =~= b1.subrange(0, w as int));
        assert(stamp_bytes(t2, w) =~= b2.subrange(0, w as int));
        lemma_stamp_bytes_determine_residue(t1, t2, w);
        lemma_stamp_modulus_positive(w);
        vstd::arithmetic::div_mod::lemma_fundamental_div_mod(t1 as int, m as int);
        vstd::arithmetic::div_mod::lemma_fundamental_div_mod(t2 as int, m as int);
        assert(false) by (nonlinear_arith)
            requires
                t1 < t2 < t1 + m,
                t1 == m * (t1 / m) + t1 % m,
                t2 == m * (t2 / m) + t2 % m,
                t1 % m == t2 % m,
                m > 0,
        ;
    }
}

/// Two ordered identifiers made from clock readings `m1` and `m2`
/// (microseconds since the Unix epoch) at least one unit of their precision
/// apart, and closer than the period after which the timestamp field
/// repeats, have different text, whatever their random bytes.
pub proof fn lemma_later_reading_distinct_text(
    m1: nat,
    m2: nat,
    precision: Precision,
    tail1: Seq<u8>,
    tail2: Seq<u8>,
)
    requires
        m1 + unit_micros(precision) <= m2,
        m2 < m1 + unit_micros(precision) * (stamp_modulus(precision.spec_width()) - 1),
    ensures
        base64url(ordered_bytes(units_of(m1, precision), precision, tail1)) != base64url(
            ordered_bytes(units_of(m2, precision), precision, tail2),
        ),
{
    let u = unit_micros(precision);
    let m = stamp_modulus(precision.spec_width());
    lemma_stamp_modulus_positive(precision.spec_width());
    assert(units_of(m1, precision) == m1 / u && units_of(m2, precision) == m2 / u);
    lemma_div_is_ordered((m1 + u) as int, m2 as int, u as int);
    lemma_div_plus_one(m1 as int, u as int);
    assert((u + m1) == (m1 + u));
    lemma_div_is_ordered(m2 as int, m1 + u * (m - 1), u as int);
    lemma_hoist_over_denominator(m1 as int, m - 1, u);
    assert((m1 + (m - 1) * u) == m1 + u * (m - 1)) by (nonlinear_arith);
    lemma_later_stamp_distinct_text(
        units_of(m1, precision),
        units_of(m2, precision),
        precision,
        tail1,
        tail2,
    );
}

/// The six-bit group `i` (0 for the highest) of a 64-bit timestamp.
pub open spec fn sextet(t: u64, i: int) -> int {
    ((t >> ((58 - 6 * i) as u64)) & 63) as int
}

/// Two ordered identifiers of microsecond precision whose 64-bit timestamps
/// agree in their top `6 * k` bits share their first `k` characters, for `k`
/// up to ten, whatever their random bytes.
pub proof fn lemma_ordered_common_prefix(
    t1: u64,
    t2: u64,
    k: u64,
    tail1: Seq<u8>,
    tail2: Seq<u8>,
)
    requires
        1 <= k <= 10,
        t1 >> ((64 - 6 * k) as u64) == t2 >> ((64 - 6 * k) as u64),
    ensures
        base64url(ordered_bytes(t1 as nat, Precision::Microseconds, tail1)).subrange(0, k as int)
            == base64url(ordered_bytes(t2 as nat, Precision::Microseconds, tail2)).subrange(
            0,
            k as int,
        ),
{
    let (e1, e2) = (
        base64url(ordered_bytes(t1 as nat, Precision::Microseconds, tail1)),
        base64url(ordered_bytes(t2 as nat, Precision::Microseconds, tail2)),
    );
    lemma_ordered_sextets(t1, tail1);
    lemma_ordered_sextets(t2, tail2);
    assert forall|i: int| 0 <= i < k implies e1[i] == e2[i] by {
        let j = i as u64;
        assert((t1 >> (58 - 6 * j) as u64) & 63 == (t2 >> (58 - 6 * j) as u64) & 63) by (bit_vector)
            requires
                j < k,
                k <= 10,
                t1 >> ((64 - 6 * k) as u64) == t2 >> ((64 - 6 * k) as u64),
        ;
        assert(sextet(t1, i) == sextet(t2, i));
    }
    assert(e1.subrange(0, k as int) =~= e2.subrange(0, k as int));
}

proof fn lemma_byte_sextets(
    t: u64,
    x0: u64,
    x1: u64,
    x2: u64,
    x3: u64,
    x4: u64,
    x5: u64,
    x6: u64,
    x7: u64,
)
    by (bit_vector)
    requires
        x0 == (t >> 56) & 0xff,
        x1 == (t >> 48) & 0xff,
        x2 == (t >> 40) & 0xff,
        x3 == (t >> 32) & 0xff,
        x4 == (t >> 24) & 0xff,
        x5 == (t >> 16) & 0xff,
        x6 == (t >> 8) & 0xff,
        x7 == t & 0xff,
    ensures
        x0 / 4 == (t >> 58) & 63,
        (x0 % 4) * 16 + x1 / 16 == (t >> 52) & 63,
        (x1 % 16) * 4 + x2 / 64 == (t >> 46) & 63,
        x2 % 64 == (t >> 40) & 63,
        x3 / 4 == (t >> 34) & 63,
        (x3 % 4) * 16 + x4 / 16 == (t >> 28) & 63,
        (x4 % 16) * 4 + x5 / 64 == (t >> 22) & 63,
        x5 % 64 == (t >> 16) & 63,
        x6 / 4 == (t >> 10) & 63,
        (x6 % 4) * 16 + x7 / 16 == (t >> 4) & 63,
{
}

proof fn lemma_stamp8_bytes(t: u64)
    ensures
        stamp_bytes(t as nat, 8).len() == 8,
        stamp_bytes(t as nat, 8)[0] as u64 == (t >> 56) & 0xff,
        stamp_bytes(t as nat, 8)[1] as u64 == (t >> 48) & 0xff,
        stamp_bytes(t as nat, 8)[2] as u64 == (t >> 40) & 0xff,
        stamp_bytes(t as nat, 8)[3] as u64 == (t >> 32) & 0xff,
        stamp_bytes(t as nat, 8)[4] as u64 == (t >> 24) & 0xff,
        stamp_bytes(t as nat, 8)[5] as u64 == (t >> 16) & 0xff,
        stamp_bytes(t as nat, 8)[6] as u64 == (t >> 8) & 0xff,
        stamp_bytes(t as nat, 8)[7] as u64 == t & 0xff,
{
    let st = stamp_bytes(t as nat, 8);
    lemma_stamp_len(t as nat, 8);
    assert(stamp_modulus(7) == 0x100000000000000) by {
        reveal_with_fuel(stamp_modulus, 8);
    }
    assert(stamp_modulus(6) == 0x1000000000000) by {
        reveal_with_fuel(stamp_modulus, 7);
    }
    assert(stamp_modulus(5) == 0x10000000000) by {
        reveal_with_fuel(stamp_modulus, 6);
    }
    assert(stamp_modulus(4) == 0x100000000) by {
        reveal_with_fuel(stamp_modulus, 5);
    }
    assert(stamp_modulus(3) == 0x1000000) by {
        reveal_with_fuel(stamp_modulus, 4);
    }
    assert(stamp_modulus(2) == 0x10000) by {
        reveal_with_fuel(stamp_modulus, 3);
    }
    assert(stamp_modulus(1) == 0x100) by {
        reveal_with_fuel(stamp_modulus, 2);
    }
    assert(stamp_modulus(0) == 1);
    lemma_stamp_byte(t as nat, 8, 0);
    lemma_stamp_byte(t as nat, 8, 1);
    lemma_stamp_byte(t as nat, 8, 2);
    lemma_stamp_byte(t as nat, 8, 3);
    lemma_stamp_byte(t as nat, 8, 4);
    lemma_stamp_byte(t as nat, 8, 5);
    lemma_stamp_byte(t as nat, 8, 6);
    lemma_stamp_byte(t as nat, 8, 7);
    assert((t / 0x100000000000000) % 256 == (t >> 56) & 0xff) by (bit_vector);
    assert((t / 0x1000000000000) % 256 == (t >> 48) & 0xff) by (bit_vector);
    assert((t / 0x10000000000) % 256 == (t >> 40) & 0xff) by (bit_vector);
    assert((t / 0x100000000) % 256 == (t >> 32) & 0xff) by (bit_vector);
    assert((t / 0x1000000) % 256 == (t >> 24) & 0xff) by (bit_vector);
    assert((t / 0x10000) % 256 == (t >> 16) & 0xff) by (bit_vector);
    assert((t / 0x100) % 256 == (t >> 8) & 0xff) by (bit_vector);
    assert(t % 256 == t & 0xff) by (bit_vector);
}

proof fn lemma_ordered_sextets(t: u64, tail: Seq<u8>)
    ensures
        base64url(ordered_bytes(t as nat, Precision::Microseconds, tail)).len() >= 10,
        forall|i: int|
            0 <= i < 10 ==> #[trigger] base64url(
                ordered_bytes(t as nat, Precision::Microseconds, tail),
            )[i] == symbol(sextet(t, i)),
{
    let st = stamp_bytes(t as nat, 8);
    lemma_stamp8_bytes(t);
    let (x0, x1, x2, x3, x4, x5, x6, x7) = (
        st[0] as u64,
        st[1] as u64,
        st[2] as u64,
        st[3] as u64,
        st[4] as u64,
        st[5] as u64,
        st[6] as u64,
        st[7] as u64,
    );
    lemma_byte_sextets(t, x0, x1, x2, x3, x4, x5, x6, x7);
    let high = st.subrange(0, 6);
    let rest = seq![st[6], st[7]] + tail;
    let bytes = ordered_bytes(t as nat, Precision::Microseconds, tail);
    assert(bytes =~= high + rest);
    lemma_encoding_concat(high, rest);
    let t0 = triple_chars(x0 as int, x1 as int, x2 as int);
    let t1 = triple_chars(x3 as int, x4 as int, x5 as int);
    let h3 = high.subrange(3, 6);
    assert(h3.subrange(3, 3) =~= Seq::<u8>::empty());
    assert(h3[0] == st[3] && h3[1] == st[4] && h3[2] == st[5]);
    assert(base64url(h3) == triple_chars(h3[0] as int, h3[1] as int, h3[2] as int) + base64url(
        h3.subrange(3, 3),
    ));
    assert(base64url(h3) =~= t1);
    assert(high.subrange(3, 6) =~= high.subrange(3, high.len() as int));
    assert(base64url(high) =~= t0 + t1);
    let er = base64url(rest);
    assert(er[0] == symbol(x6 as int / 4) && er[1] == symbol((x6 as int % 4) * 16 + x7 as int / 16)
        && er.len() >= 2) by {
        assert(rest[0] == st[6] && rest[1] == st[7]);
    }
    lemma_encoded_length(bytes);
    let e = base64url(bytes);
    assert(e == (t0 + t1) + er);
    assert(e[0] == symbol(sextet(t, 0)) && e[1] == symbol(sextet(t, 1)) && e[2] == symbol(
        sextet(t, 2),
    ) && e[3] == symbol(sextet(t, 3)));
    assert(e[4] == symbol(sextet(t, 4)) && e[5] == symbol(sextet(t, 5)) && e[6] == symbol(
        sextet(t, 6),
    ) && e[7] == symbol(sextet(t, 7)));
    assert(e[8] == symbol(sextet(t, 8)) && e[9] == symbol(sextet(t, 9)));
    assert forall|i: int| 0 <= i < 10 implies #[trigger] e[i] == symbol(sextet(t, i)) by {
        assert(i == 0 || i == 1 || i == 2 || i == 3 || i == 4 || i == 5 || i == 6 || i == 7
            || i == 8 || i == 9);
    }
}

} // verus!
