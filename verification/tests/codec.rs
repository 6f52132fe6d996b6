use xdelta3::{decode, decode_with_output_len, encode, encode_windowed, encode_with_output_len};
use xdelta3::Error;

fn sample_source(n: usize) -> Vec<u8> {
    let mut v = Vec::new();
    let mut i: usize = 0;
    while i < n {
        v.push(((i * 37 + 11) % 256) as u8);
        i += 1;
    }
    v
}

#[test]
fn round_trip_example_vector() {
    let target = [1u8, 2, 3, 4, 5, 6, 7];
    let source = [1u8, 2, 4, 4, 7, 6, 7];
    let delta = encode(&target, &source).unwrap();
    let out = decode(&delta, &source).unwrap();
    assert_eq!(out.as_slice(), &target);
}

#[test]
fn round_trip_empty_inputs() {
    let delta = encode(&[], &[]).unwrap();
    let out = decode(&delta, &[]).unwrap();
    assert_eq!(out.len(), 0);
}

#[test]
fn round_trip_empty_target_nonempty_source() {
    let source = sample_source(50);
    let delta = encode(&[], &source).unwrap();
    let out = decode(&delta, &source).unwrap();
    assert_eq!(out.len(), 0);
}

#[test]
fn bare_header_without_windows_rejected() {
    // A delta stream must hold at least one window.
    assert_eq!(
        decode(&[0xD6, 0xC3, 0xC4, 0x00], &[]).unwrap_err(),
        Error::MalformedWindow
    );
}

#[test]
fn noop_delta_is_small() {
    let s = sample_source(200);
    let delta = encode(&s, &s).unwrap();
    let out = decode(&delta, &s).unwrap();
    assert_eq!(out, s);
    // A self-encode is dominated by one long COPY.
    assert!(delta.len() < s.len() / 2, "delta too large: {}", delta.len());
}

#[test]
fn run_instruction_round_trip() {
    let mut t = sample_source(30);
    for _ in 0..50 {
        t.push(0);
    }
    t.extend_from_slice(&sample_source(20));
    let delta = encode(&t, &[]).unwrap();
    let out = decode(&delta, &[]).unwrap();
    assert_eq!(out, t);
}

#[test]
fn round_trip_shifted_pattern() {
    let s = sample_source(500);
    let mut t = Vec::new();
    t.extend_from_slice(&s[100..400]);
    t.extend_from_slice(b"hello world, this is new text");
    t.extend_from_slice(&s[0..250]);
    let delta = encode(&t, &s).unwrap();
    let out = decode(&delta, &s).unwrap();
    assert_eq!(out, t);
    assert!(delta.len() < t.len());
}

#[test]
fn encoding_is_deterministic() {
    let s = sample_source(300);
    let mut t = s.clone();
    t.extend_from_slice(b"tail");
    let d1 = encode(&t, &s).unwrap();
    let d2 = encode(&t, &s).unwrap();
    assert_eq!(d1, d2);
    let w1 = encode_windowed(&t, &s, 64).unwrap();
    let w2 = encode_windowed(&t, &s, 64).unwrap();
    assert_eq!(w1, w2);
}

#[test]
fn truncation_always_detected() {
    let s = sample_source(120);
    let mut t = s.clone();
    t.extend_from_slice(b"some fresh bytes");
    let delta = encode(&t, &s).unwrap();
    for i in 0..delta.len() {
        let prefix = &delta[..i];
        assert!(decode(prefix, &s).is_err(), "prefix of length {} accepted", i);
    }
}

#[test]
fn tampered_address_detected() {
    let s = sample_source(200);
    let t = &s[50..];
    let delta = encode(t, &s).unwrap();
    // The address section is last; its final byte is the COPY address.
    let mut bad = delta.clone();
    let last = bad.len() - 1;
    bad[last] = 0x01;
    let r = decode(&bad, &s);
    match r {
        Err(Error::AddressOutOfBounds) | Err(Error::ChecksumMismatch) => {}
        other => panic!("tampered delta not rejected correctly: {:?}", other),
    }
    assert_eq!(decode(&delta, &s).unwrap(), t);
}

#[test]
fn tampering_never_yields_wrong_bytes() {
    let s = sample_source(150);
    let mut t = s.clone();
    t.extend_from_slice(b"xyzzy");
    let delta = encode(&t, &s).unwrap();
    for i in 0..delta.len() {
        let mut bad = delta.clone();
        bad[i] ^= 0x40;
        match decode(&bad, &s) {
            Ok(out) => assert_eq!(out, t, "byte {} tampered silently", i),
            Err(_) => {}
        }
    }
}

#[test]
fn windowed_encode_matches_single_window() {
    let s = sample_source(400);
    let mut t = Vec::new();
    t.extend_from_slice(&s[200..400]);
    t.extend_from_slice(b"middle insert");
    t.extend_from_slice(&s[0..200]);
    let single = encode(&t, &s).unwrap();
    let windowed = encode_windowed(&t, &s, 75).unwrap();
    let out_single = decode(&single, &s).unwrap();
    let out_windowed = decode(&windowed, &s).unwrap();
    assert_eq!(out_single, t);
    assert_eq!(out_windowed, t);
}

#[test]
fn windowed_zero_size_still_works() {
    let t = sample_source(10);
    let delta = encode_windowed(&t, &[], 0).unwrap();
    assert_eq!(decode(&delta, &[]).unwrap(), t);
}

#[test]
fn bad_magic_rejected() {
    assert_eq!(decode(&[], &[]).unwrap_err(), Error::MalformedWindow);
    assert_eq!(decode(&[1, 2, 3], &[]).unwrap_err(), Error::MalformedWindow);
    assert_eq!(
        decode(&[0xD6, 0xC3, 0xC5, 0x00], &[]).unwrap_err(),
        Error::MalformedWindow
    );
}

#[test]
fn unknown_window_indicator_rejected() {
    assert_eq!(
        decode(&[0xD6, 0xC3, 0xC4, 0x00, 0xFF], &[]).unwrap_err(),
        Error::InvalidInstruction
    );
}

#[test]
fn oversized_declared_target_rejected() {
    // Window with no source whose declared target length is 2^32.
    let d = [0xD6, 0xC3, 0xC4, 0x00, 0x00, 0x90, 0x80, 0x80, 0x80, 0x00];
    assert_eq!(decode(&d, &[]).unwrap_err(), Error::TargetTooLarge);
}

#[test]
fn truncated_varint_rejected() {
    // Window header cut inside the target-length varint.
    let d = [0xD6, 0xC3, 0xC4, 0x00, 0x00, 0x90];
    assert_eq!(decode(&d, &[]).unwrap_err(), Error::MalformedVarInt);
}

#[test]
fn capacity_limits_enforced() {
    let s = sample_source(100);
    let mut t = s.clone();
    t.extend_from_slice(b"tail data");
    assert_eq!(
        encode_with_output_len(&t, &s, 2).unwrap_err(),
        Error::InsufficientOutputCapacity
    );
    let delta = encode_with_output_len(&t, &s, 10_000).unwrap();
    assert_eq!(
        decode_with_output_len(&delta, &s, 3).unwrap_err(),
        Error::InsufficientOutputCapacity
    );
    let out = decode_with_output_len(&delta, &s, 10_000).unwrap();
    assert_eq!(out, t);
}

#[test]
fn capacity_at_proved_bound_succeeds() {
    let s = sample_source(80);
    let mut t = s.clone();
    t.extend_from_slice(b"extra");
    // The encoder's proved output bound: the call must succeed at it.
    let cap = (36 + 9 * t.len()) as u32;
    let delta = encode_with_output_len(&t, &s, cap).unwrap();
    assert!(delta.len() <= cap as usize);
    assert_eq!(decode(&delta, &s).unwrap(), t);
}

#[test]
fn windowed_sizes_follow_window_size() {
    // Interior windows reconstruct exactly window_size bytes, so a windowed
    // delta differs from the single-window one and still round-trips.
    let s = sample_source(256);
    let t = sample_source(256);
    let one = encode(&t, &s).unwrap();
    let many = encode_windowed(&t, &s, 32).unwrap();
    assert_ne!(one, many);
    assert_eq!(decode(&many, &s).unwrap(), t);
    assert_eq!(decode(&one, &s).unwrap(), t);
}
