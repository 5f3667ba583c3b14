use short_id::{
    encode, generate_ordered, generate_random, ordered_layout, short_id_ordered_with_bytes,
    short_id_with_bytes, units_from_reading, IdError, Precision, ShortId, MAX_BYTES,
};
use std::collections::HashSet;
use std::time::{Duration, Instant, SystemTime, UNIX_EPOCH};

fn wait(d: Duration) {
    let start = Instant::now();
    while start.elapsed() < d {}
}

fn url_safe(s: &str) -> bool {
    s.chars()
        .all(|c| c.is_ascii_alphanumeric() || c == '-' || c == '_')
}

fn ceil_four_thirds(n: usize) -> usize {
    (n * 4 + 2) / 3
}

fn leading_stamp(bytes: &[u8], width: usize) -> u64 {
    bytes[..width]
        .iter()
        .fold(0u64, |acc, b| (acc << 8) | u64::from(*b))
}

#[test]
fn random_length_law_for_every_valid_count() {
    for n in 1..=MAX_BYTES {
        let id = short_id_with_bytes(n).unwrap();
        assert_eq!(id.len(), ceil_four_thirds(n));
        assert!(url_safe(&id), "{id}");
    }
}

#[test]
fn ordered_length_law_for_every_valid_count() {
    for n in 8..=MAX_BYTES {
        let id = short_id_ordered_with_bytes(n).unwrap();
        assert_eq!(id.len(), ceil_four_thirds(n));
        assert!(url_safe(&id), "{id}");
    }
    for n in 4..=MAX_BYTES {
        let bytes = generate_ordered(n, Precision::Seconds).unwrap();
        assert_eq!(bytes.len(), n);
        assert_eq!(encode(&bytes).len(), ceil_four_thirds(n));
    }
    assert_eq!(short_id_ordered_with_bytes(10).unwrap().len(), 14);
}

#[test]
fn thousand_random_ids_are_distinct() {
    let ids: HashSet<String> = (0..1000).map(|_| short_id_with_bytes(10).unwrap()).collect();
    assert_eq!(ids.len(), 1000);
}

#[test]
fn ordered_ids_after_a_delay_differ() {
    let first = generate_ordered(10, Precision::Microseconds).unwrap();
    wait(Duration::from_millis(2));
    let second = generate_ordered(10, Precision::Microseconds).unwrap();
    assert!(leading_stamp(&second, 8) > leading_stamp(&first, 8));
    assert_ne!(encode(&first), encode(&second));
}

#[test]
fn second_precision_ids_after_a_delay_differ() {
    let first = generate_ordered(4, Precision::Seconds).unwrap();
    wait(Duration::from_millis(1100));
    let second = generate_ordered(4, Precision::Seconds).unwrap();
    assert!(leading_stamp(&second, 4) > leading_stamp(&first, 4));
    assert_ne!(encode(&first), encode(&second));
}

#[test]
fn invalid_lengths_are_rejected() {
    assert_eq!(short_id_with_bytes(0), Err(IdError::InvalidLength));
    assert_eq!(short_id_with_bytes(33), Err(IdError::InvalidLength));
    assert_eq!(generate_random(0), Err(IdError::InvalidLength));
    assert_eq!(generate_random(33), Err(IdError::InvalidLength));
    assert_eq!(short_id_ordered_with_bytes(0), Err(IdError::InvalidLength));
    assert_eq!(short_id_ordered_with_bytes(7), Err(IdError::InvalidLength));
    assert_eq!(
        generate_ordered(3, Precision::Seconds),
        Err(IdError::InvalidLength)
    );
    assert_eq!(
        generate_ordered(7, Precision::Microseconds),
        Err(IdError::InvalidLength)
    );
    assert_eq!(
        generate_ordered(33, Precision::Seconds),
        Err(IdError::InvalidLength)
    );
}

#[test]
fn boundary_lengths_are_accepted() {
    assert_eq!(generate_random(1).unwrap().len(), 1);
    assert_eq!(generate_random(32).unwrap().len(), 32);
    assert_eq!(short_id_with_bytes(1).unwrap().len(), 2);
    assert_eq!(short_id_with_bytes(32).unwrap().len(), 43);
    assert_eq!(generate_ordered(4, Precision::Seconds).unwrap().len(), 4);
    assert_eq!(generate_ordered(8, Precision::Microseconds).unwrap().len(), 8);
    assert_eq!(short_id_ordered_with_bytes(32).unwrap().len(), 43);
}

#[test]
fn wrapping_and_unwrapping_keeps_the_text() {
    for text in ["", "abc", "test_id_123456", "not an id: + / =", "héllo"] {
        let id = ShortId::from(String::from(text));
        assert_eq!(id.as_str(), text);
        assert_eq!(id.into_string(), text);
        let back: String = ShortId::from(String::from(text)).into();
        assert_eq!(back, text);
    }
}

#[test]
fn wrapped_ids_compare_by_text() {
    let a = ShortId::from(String::from("AAAA"));
    let b = ShortId::from(String::from("AAAB"));
    assert!(a < b);
    assert_eq!(a, ShortId::from(String::from("AAAA")));
}

#[test]
fn ten_random_bytes_give_fourteen_safe_characters() {
    let bytes = generate_random(10).unwrap();
    let id = encode(&bytes);
    assert_eq!(id.len(), 14);
    assert!(url_safe(&id));
}

#[test]
fn ordered_ids_a_tenth_of_a_second_apart() {
    let first = short_id_ordered_with_bytes(10).unwrap();
    wait(Duration::from_millis(100));
    let second = short_id_ordered_with_bytes(10).unwrap();
    assert_eq!(first.len(), 14);
    assert_eq!(second.len(), 14);
    assert_ne!(first, second);
    assert_eq!(first[..4], second[..4]);
}

#[test]
fn encode_known_values() {
    assert_eq!(encode(&[]), "");
    assert_eq!(encode(&[0]), "AA");
    assert_eq!(encode(&[0, 0, 0]), "AAAA");
    assert_eq!(encode(b"hello"), "aGVsbG8");
    assert_eq!(encode(&[0xfb, 0xff]), "-_8");
    assert_eq!(encode(&[0xfb, 0xff, 0xbf]), "-_-_");
    assert_eq!(encode(&[0x14, 0xfb, 0x9c, 0x03, 0xd9, 0x7e]), "FPucA9l-");
}

#[test]
fn layout_puts_the_timestamp_first() {
    assert_eq!(
        ordered_layout(258, Precision::Seconds, &[7]),
        vec![0, 0, 1, 2, 7]
    );
    assert_eq!(
        ordered_layout(0x0102_0304_0506_0708, Precision::Microseconds, &[9, 10]),
        vec![1, 2, 3, 4, 5, 6, 7, 8, 9, 10]
    );
    assert_eq!(
        ordered_layout(0x1_0000_0005, Precision::Seconds, &[]),
        vec![0, 0, 0, 5]
    );
}

#[test]
fn random_bytes_are_filled() {
    let bytes = generate_random(32).unwrap();
    assert!(bytes.iter().any(|b| *b != 0));
}

#[test]
fn ordered_bytes_hold_the_current_time() {
    let now = SystemTime::now().duration_since(UNIX_EPOCH).unwrap();
    let micros = generate_ordered(8, Precision::Microseconds).unwrap();
    let stamp = leading_stamp(&micros, 8);
    let expected = now.as_micros() as u64;
    assert!(stamp >= expected && stamp - expected < 5_000_000);
    let secs = generate_ordered(4, Precision::Seconds).unwrap();
    let stamp = leading_stamp(&secs, 4);
    assert!(stamp >= now.as_secs() && stamp - now.as_secs() < 5);
}

#[test]
fn clock_reading_becomes_units_or_clock_error() {
    assert_eq!(
        units_from_reading(None, Precision::Microseconds),
        Err(IdError::ClockError)
    );
    assert_eq!(
        units_from_reading(None, Precision::Seconds),
        Err(IdError::ClockError)
    );
    assert_eq!(
        units_from_reading(Some(2_500_000), Precision::Seconds),
        Ok(2)
    );
    assert_eq!(
        units_from_reading(Some(999_999), Precision::Seconds),
        Ok(0)
    );
    assert_eq!(
        units_from_reading(Some(2_500_000), Precision::Microseconds),
        Ok(2_500_000)
    );
}

#[test]
fn readings_a_unit_apart_give_distinct_text() {
    let tail = [0u8, 0];
    let m1: u128 = 1_700_000_000_000_000;
    for (precision, unit) in [(Precision::Microseconds, 1u128), (Precision::Seconds, 1_000_000)] {
        let t1 = units_from_reading(Some(m1), precision).unwrap();
        let t2 = units_from_reading(Some(m1 + unit), precision).unwrap();
        let a = encode(&ordered_layout(t1, precision, &tail));
        let b = encode(&ordered_layout(t2, precision, &tail));
        assert_ne!(a, b);
    }
}

#[test]
fn timestamps_sharing_high_bits_share_leading_characters() {
    let t1: u64 = 0x0123_4567_89ab_cdef;
    for k in 1..=10u32 {
        let shift = 64 - 6 * k;
        let t2 = ((t1 >> shift) << shift) | ((!t1) & ((1u64 << shift) - 1));
        assert_eq!(t1 >> shift, t2 >> shift);
        let a = encode(&ordered_layout(t1 as u128, Precision::Microseconds, &[1, 2]));
        let b = encode(&ordered_layout(t2 as u128, Precision::Microseconds, &[3]));
        assert_eq!(a[..k as usize], b[..k as usize]);
        assert_ne!(a[..11], b[..11]);
    }
}
