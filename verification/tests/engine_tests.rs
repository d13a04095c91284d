use novelpoly::engine::{encode, reconstruct, CodecError};
use novelpoly::tables::{f256, f2e16};
use rand::rngs::SmallRng;
use rand::{RngCore, SeedableRng};

pub const SMALL_RNG_SEED: [u8; 32] = [
    0, 6, 0xFA, 0, 0x37, 3, 19, 89, 32, 032, 0x37, 0x77, 77, 0b11, 112, 52, 12, 40, 82, 34, 0,
    0, 0, 1, 4, 4, 1, 4, 99, 127, 121, 107,
];

fn drop_random(shards: &mut Vec<Option<Vec<u8>>>, n: usize, k: usize, rng: &mut SmallRng) {
    let iv = rand::seq::index::sample(rng, shards.len(), n - k);
    for idx in iv.into_iter() {
        shards[idx] = None;
    }
    let kept = shards.iter().filter(|s| s.is_some()).count();
    assert!(kept >= k);
}

#[test]
fn novel_poly_basis_roundtrip() {
    let f = f2e16().unwrap();
    let mut rng = SmallRng::from_seed(SMALL_RNG_SEED);
    let mut payload = vec![0u8; 1337];
    rng.fill_bytes(&mut payload);

    let n = 2048;
    let shards = encode(&payload, n, &f).unwrap();
    assert_eq!(shards.len(), n);

    let mut received: Vec<Option<Vec<u8>>> = shards.into_iter().map(Some).collect();
    // n - k shards may be lost; k = 512 for n = 2048
    drop_random(&mut received, n, 512, &mut rng);

    let recovered = reconstruct(&received, n, &f).unwrap();
    assert_eq!(&recovered[..payload.len()], &payload[..]);
    assert!(recovered[payload.len()..].iter().all(|&b| b == 0));
}

#[test]
fn zero_payload_reconstructs_after_half_loss() {
    let f = f2e16().unwrap();
    let payload = vec![0u8; 128];
    let shards = encode(&payload, 256, &f).unwrap();
    assert_eq!(shards.len(), 256);
    let mut received: Vec<Option<Vec<u8>>> = shards.into_iter().map(Some).collect();
    for i in 0..128 {
        received[i] = None;
    }
    let recovered = reconstruct(&received, 256, &f).unwrap();
    assert_eq!(recovered, vec![0u8; 128]);
}

#[test]
fn reconstruct_with_no_erasures_returns_the_payload() {
    let f = f2e16().unwrap();
    let payload: Vec<u8> = (0..200u32).map(|i| (i * 7 % 256) as u8).collect();
    let shards = encode(&payload, 64, &f).unwrap();
    let received: Vec<Option<Vec<u8>>> = shards.into_iter().map(Some).collect();
    let recovered = reconstruct(&received, 64, &f).unwrap();
    assert_eq!(&recovered[..payload.len()], &payload[..]);
    assert!(recovered[payload.len()..].iter().all(|&b| b == 0));
}

#[test]
fn eight_bit_field_roundtrip() {
    let f = f256().unwrap();
    let payload: Vec<u8> = (0..37u32).map(|i| (i * 11 % 256) as u8).collect();
    let n = 64;
    let shards = encode(&payload, n, &f).unwrap();
    let mut received: Vec<Option<Vec<u8>>> = shards.into_iter().map(Some).collect();
    // k = 16 for n = 64: drop all but the last 16 shards
    for i in 0..(n - 16) {
        received[i] = None;
    }
    let recovered = reconstruct(&received, n, &f).unwrap();
    assert_eq!(&recovered[..payload.len()], &payload[..]);
}

#[test]
fn encode_rejects_bad_parameters() {
    let f = f2e16().unwrap();
    let payload = vec![1u8, 2, 3];
    assert_eq!(encode(&payload, 100, &f), Err(CodecError::NotPowerOfTwo));
    assert_eq!(encode(&payload, 131072, &f), Err(CodecError::TooManyShards));
    assert_eq!(encode(&payload, 2, &f), Err(CodecError::TooFewShards));
    assert_eq!(encode(&Vec::new(), 256, &f), Err(CodecError::PayloadEmpty));
}

#[test]
fn reconstruct_rejects_bad_shards() {
    let f = f2e16().unwrap();
    let payload = vec![7u8; 100];
    let shards = encode(&payload, 64, &f).unwrap();

    let mut too_few: Vec<Option<Vec<u8>>> = shards.iter().cloned().map(Some).collect();
    for i in 0..49 {
        too_few[i] = None;
    }
    // only 15 present, but k = 16
    assert_eq!(reconstruct(&too_few, 64, &f), Err(CodecError::NotEnoughShards));

    let mut ragged: Vec<Option<Vec<u8>>> = shards.iter().cloned().map(Some).collect();
    if let Some(v) = &mut ragged[3] {
        v.push(0);
    }
    assert_eq!(reconstruct(&ragged, 64, &f), Err(CodecError::LengthMismatch));

    let wrong_count: Vec<Option<Vec<u8>>> = shards.iter().cloned().map(Some).take(63).collect();
    assert_eq!(reconstruct(&wrong_count, 64, &f), Err(CodecError::LengthMismatch));

    assert_eq!(reconstruct(&Vec::new(), 100, &f), Err(CodecError::NotPowerOfTwo));
    assert_eq!(reconstruct(&Vec::new(), 2, &f), Err(CodecError::TooFewShards));
}

#[test]
fn shards_carry_two_bytes_per_lane() {
    let f = f2e16().unwrap();
    // 128-byte payload, k = 64 symbols: exactly one lane of two bytes
    let payload = vec![0xABu8; 128];
    let shards = encode(&payload, 256, &f).unwrap();
    assert!(shards.iter().all(|s| s.len() == 2));
    // systematic prefix: shard i < k carries message symbol i
    for i in 0..64 {
        assert_eq!(shards[i], vec![0xAB, 0xAB]);
    }
}
