//! The byte buffers that identifiers are made from: random bytes, or a
//! big-endian timestamp followed by random bytes.
use rand::RngCore;
use vstd::prelude::*;

verus! {

/// The largest number of bytes an identifier may be made from.
pub const MAX_BYTES: usize = 32;

/// The number of bytes behind the default identifiers (fourteen characters).
pub const DEFAULT_BYTES: usize = 10;

/// Why an identifier could not be made.
#[derive(Debug, Clone, Copy, PartialEq, Eq, Structural)]
pub enum IdError {
    /// The byte count lies outside the bounds allowed for the kind of identifier.
    InvalidLength,
    /// The system clock reads earlier than the Unix epoch.
    ClockError,
}

/// The unit of the timestamp at the head of an ordered identifier.
#[derive(Debug, Clone, Copy, PartialEq, Eq, Structural)]
pub enum Precision {
    /// Whole seconds since the Unix epoch, in four bytes.
    Seconds,
    /// Whole microseconds since the Unix epoch, in eight bytes.
    Microseconds,
}

impl Precision {
    /// The number of leading bytes that hold the timestamp.
    pub open spec fn spec_width(self) -> nat {
        match self {
            Precision::Seconds => 4,
            Precision::Microseconds => 8,
        }
    }

    /// The number of leading bytes that hold the timestamp.
    pub fn width(self) -> (r: usize)
        ensures
            r == self.spec_width(),
    {
        match self {
            Precision::Seconds => 4,
            Precision::Microseconds => 8,
        }
    }
}

/// `256` to the power `width`: the period after which a timestamp field of
/// `width` bytes repeats.
pub open spec fn stamp_modulus(width: nat) -> nat
    decreases width,
{
    if width == 0 {
        1
    } else {
        256 * stamp_modulus((width - 1) as nat)
    }
}

/// The low `width` bytes of `t`, most significant first.
pub open spec fn stamp_bytes(t: nat, width: nat) -> Seq<u8>
    decreases width,
{
    if width == 0 {
        seq![]
    } else {
        stamp_bytes(t / 256, (width - 1) as nat).push((t % 256) as u8)
    }
}

/// The buffer of an ordered identifier: the timestamp `t`, in units of
/// `precision`, followed by the bytes of `tail`.
pub open spec fn ordered_bytes(t: nat, precision: Precision, tail: Seq<u8>) -> Seq<u8> {
    stamp_bytes(t, precision.spec_width()) + tail
}

/// Whether `n` is an allowed byte count for a random identifier.
pub open spec fn random_len_ok(n: nat) -> bool {
    1 <= n <= MAX_BYTES
}

/// Whether `n` is an allowed byte count for an ordered identifier.
pub open spec fn ordered_len_ok(n: nat, precision: Precision) -> bool {
    precision.spec_width() <= n <= MAX_BYTES
}

/// Relies on rand's `OsRng` through `RngCore::fill_bytes`: it overwrites the
/// bytes of `buf` from the operating system's secure source and leaves its
/// length alone. It panics only when that source itself fails.
#[verifier::external_body]
fn fill_random(buf: &mut Vec<u8>)
    ensures
        final(buf)@.len() == old(buf)@.len(),
{
    rand::rngs::OsRng.fill_bytes(buf.as_mut_slice())
}

/// `std::time::SystemTime`, carried through as an opaque value.
#[verifier::external_type_specification]
#[verifier::external_body]
pub struct ExSystemTime(std::time::SystemTime);

/// Relies on `SystemTime::now`: a reading of the system clock.
pub assume_specification[ std::time::SystemTime::now ]() -> std::time::SystemTime;

/// Relies on `SystemTime::duration_since` with `UNIX_EPOCH`: `None` when `t`
/// lies before the epoch (the call's `Err`), else the whole microseconds from
/// the epoch to `t`, as `Duration::as_micros` counts them.
#[verifier::external_body]
fn micros_since_epoch(t: &std::time::SystemTime) -> (r: Option<u128>) {
    match t.duration_since(std::time::UNIX_EPOCH) {
        Ok(d) => Some(d.as_micros()),
        Err(_) => None,
    }
}

/// `n` bytes from the secure random source.
pub(crate) fn random_bytes(n: usize) -> (r: Vec<u8>)
    ensures
        r@.len() == n,
{
    let mut buf: Vec<u8> = vec![0u8; n];
    fill_random(&mut buf);
    buf
}

/// `n` bytes from the secure random source, for `n` from 1 to `MAX_BYTES`.
pub fn generate_random(n: usize) -> (r: Result<Vec<u8>, IdError>)
    ensures
        r is Err <==> !random_len_ok(n as nat),
        r matches Err(e) ==> e == IdError::InvalidLength,
        r matches Ok(v) ==> v@.len() == n,
{
    if n == 0 || n > MAX_BYTES {
        return Err(IdError::InvalidLength);
    }
    Ok(random_bytes(n))
}

/// The number of whole `precision` units in `micros` microseconds.
pub open spec fn units_of(micros: nat, precision: Precision) -> nat {
    match precision {
        Precision::Seconds => micros / 1_000_000,
        Precision::Microseconds => micros,
    }
}

/// One unit of `precision`, in microseconds.
pub open spec fn unit_micros(precision: Precision) -> nat {
    match precision {
        Precision::Seconds => 1_000_000,
        Precision::Microseconds => 1,
    }
}

/// The timestamp for a clock reading: `reading` is the microseconds since the
/// Unix epoch, or `None` for a clock that reads before the epoch, which is a
/// `ClockError` (no timestamp is made up for it).
pub fn units_from_reading(reading: Option<u128>, precision: Precision) -> (r: Result<
    u128,
    IdError,
>)
    ensures
        reading is None ==> r == Err::<u128, IdError>(IdError::ClockError),
        reading matches Some(m) ==> r == Ok::<u128, IdError>(units_of(m as nat, precision) as u128),
{
    match reading {
        Some(micros) => match precision {
            Precision::Seconds => Ok(micros / 1_000_000),
            Precision::Microseconds => Ok(micros),
        },
        None => Err(IdError::ClockError),
    }
}

/// Appends the low `width` bytes of `t` to `out`, most significant first.
fn push_stamp(out: &mut Vec<u8>, t: u128, width: usize)
    ensures
        final(out)@ == old(out)@ + stamp_bytes(t as nat, width as nat),
    decreases width,
{
    if width > 0 {
        push_stamp(out, t / 256, width - 1);
        out.push((t % 256) as u8);
    } else {
        assert(old(out)@ + stamp_bytes(t as nat, 0) =~= old(out)@);
    }
}

/// The buffer of an ordered identifier from its parts: the timestamp `t`, in
/// units of `precision`, then the bytes of `tail`.
pub fn ordered_layout(t: u128, precision: Precision, tail: &[u8]) -> (r: Vec<u8>)
    ensures
        r@ == ordered_bytes(t as nat, precision, tail@),
{
    let mut out: Vec<u8> = Vec::new();
    push_stamp(&mut out, t, precision.width());
    assert(out@ =~= stamp_bytes(t as nat, precision.spec_width()));
    out.extend_from_slice(tail);
    assert(out@ =~= ordered_bytes(t as nat, precision, tail@));
    out
}

/// `n` bytes whose first `precision.width()` hold the current time since the
/// Unix epoch, big-endian, and whose rest come from the secure random source.
/// The count is checked before the clock is read; a clock before the epoch
/// gives `ClockError`.
pub fn generate_ordered(n: usize, precision: Precision) -> (r: Result<Vec<u8>, IdError>)
    ensures
        (r matches Err(IdError::InvalidLength)) <==> !ordered_len_ok(n as nat, precision),
        r is Err ==> r == Err::<Vec<u8>, IdError>(IdError::InvalidLength) || r == Err::<
            Vec<u8>,
            IdError,
        >(IdError::ClockError),
        r matches Ok(v) ==> v@.len() == n && exists|micros: u128, tail: Seq<u8>|
            tail.len() + precision.spec_width() == n && v@ == ordered_bytes(
                units_of(micros as nat, precision),
                precision,
                tail,
            ),
{
    if n < precision.width() || n > MAX_BYTES {
        return Err(IdError::InvalidLength);
    }
    let reading = micros_since_epoch(&std::time::SystemTime::now());
    let t = match units_from_reading(reading, precision) {
        Ok(t) => t,
        Err(e) => return Err(e),
    };
    let tail = random_bytes(n - precision.width());
    let v = ordered_layout(t, precision, tail.as_slice());
    proof {
        lemma_stamp_len(t as nat, precision.spec_width());
        let micros = reading->Some_0;
        assert(v@ == ordered_bytes(units_of(micros as nat, precision), precision, tail@));
    }
    Ok(v)
}

/// `stamp_bytes(t, width)` has `width` bytes.
pub proof fn lemma_stamp_len(t: nat, width: nat)
    ensures
        stamp_bytes(t, width).len() == width,
    decreases width,
{
    if width > 0 {
        lemma_stamp_len(t / 256, (width - 1) as nat);
    }
}

/// Timestamps with equal low `width` bytes agree modulo `stamp_modulus(width)`.
pub proof fn lemma_stamp_bytes_determine_residue(a: nat, b: nat, width: nat)
    requires
        stamp_bytes(a, width) == stamp_bytes(b, width),
    ensures
        a % stamp_modulus(width) == b % stamp_modulus(width),
    decreases width,
{
    if width > 0 {
        let w1 = (width - 1) as nat;
        let (sa, sb) = (stamp_bytes(a, width), stamp_bytes(b, width));
        assert(sa.last() == sb.last());
        assert(sa.drop_last() =~= stamp_bytes(a / 256, w1));
        assert(sb.drop_last() =~= stamp_bytes(b / 256, w1));
        lemma_stamp_bytes_determine_residue(a / 256, b / 256, w1);
        lemma_stamp_modulus_positive(w1);
        vstd::arithmetic::div_mod::lemma_mod_breakdown(a as int, 256, stamp_modulus(w1) as int);
        vstd::arithmetic::div_mod::lemma_mod_breakdown(b as int, 256, stamp_modulus(w1) as int);
    }
}

/// Byte `j` of `stamp_bytes(t, width)` is digit `width - 1 - j` of `t` in
/// base 256.
pub proof fn lemma_stamp_byte(t: nat, width: nat, j: int)
    requires
        0 <= j < width,
    ensures
        stamp_bytes(t, width)[j] == ((t / stamp_modulus((width - 1 - j) as nat)) % 256) as u8,
    decreases width,
{
    let w1 = (width - 1) as nat;
    lemma_stamp_len(t / 256, w1);
    assert(stamp_bytes(t, width) == stamp_bytes(t / 256, w1).push((t % 256) as u8));
    if j < w1 {
        assert(stamp_bytes(t, width)[j] == stamp_bytes(t / 256, w1)[j]);
        lemma_stamp_byte(t / 256, w1, j);
        let d = stamp_modulus((w1 - 1 - j) as nat);
        lemma_stamp_modulus_positive((w1 - 1 - j) as nat);
        vstd::arithmetic::div_mod::lemma_div_denominator(t as int, 256, d as int);
        assert(stamp_modulus((width - 1 - j) as nat) == 256 * d);
    } else {
        assert(stamp_modulus(0) == 1);
        assert(t / 1 == t);
    }
}

/// `stamp_modulus(width)` is positive.
pub proof fn lemma_stamp_modulus_positive(width: nat)
    ensures
        stamp_modulus(width) > 0,
    decreases width,
{
    if width > 0 {
        lemma_stamp_modulus_positive((width - 1) as nat);
    }
}

} // verus!
