use sycret::eq::EqKey;
use sycret::le::LeKey;
use sycret::partition::StreamPartition;
use sycret::stream::{eval_key_stream, generate_key_stream, key_stream_from, FSSKey, PRG};
use sycret::utils::MMO;
use sycret::{FssError, GateKind};

fn entropy(count: usize) -> Vec<u8> {
    (0..40 * count).map(|i| (i * 37 + 11) as u8).collect()
}

fn draws(entropy: &[u8], index: usize) -> (u32, u32, u128, u128) {
    let bytes = &entropy[40 * index..40 * index + 40];
    (
        u32::from_le_bytes(bytes[0..4].try_into().unwrap()),
        u32::from_le_bytes(bytes[4..8].try_into().unwrap()),
        u128::from_le_bytes(bytes[8..24].try_into().unwrap()),
        u128::from_le_bytes(bytes[24..40].try_into().unwrap()),
    )
}

#[test]
fn key_stream_from_deals_each_pair_from_its_draws() {
    let aes_keys: Vec<u128> = vec![1, 2, 3, 4];
    let entropy = entropy(3);
    let (chunk_a, chunk_b) =
        key_stream_from(&aes_keys, 3, GateKind::LessOrEqual, &entropy).unwrap();
    assert_eq!(chunk_a.len(), 3 * 1205);
    assert_eq!(chunk_b.len(), 3 * 1205);
    let mut expected_a = Vec::new();
    let mut expected_b = Vec::new();
    for index in 0..3 {
        let (alpha, mask, seed_a, seed_b) = draws(&entropy, index);
        let mut prg = MMO::from_vec(&aes_keys);
        let (k_a, k_b) = LeKey::keypair_from(&mut prg, alpha, mask, seed_a, seed_b);
        k_a.to_raw_line(&mut expected_a);
        k_b.to_raw_line(&mut expected_b);
    }
    assert_eq!(chunk_a, expected_a);
    assert_eq!(chunk_b, expected_b);

    let aes_keys: Vec<u128> = vec![8, 9];
    let (chunk_a, chunk_b) = key_stream_from(&aes_keys, 3, GateKind::Equality, &entropy).unwrap();
    let mut expected_a = Vec::new();
    let mut expected_b = Vec::new();
    for index in 0..3 {
        let (alpha, mask, seed_a, seed_b) = draws(&entropy, index);
        let mut prg = MMO::from_vec(&aes_keys);
        let (k_a, k_b) = EqKey::keypair_from(&mut prg, alpha, mask, seed_a, seed_b);
        k_a.to_raw_line(&mut expected_a);
        k_b.to_raw_line(&mut expected_b);
    }
    assert_eq!(chunk_a, expected_a);
    assert_eq!(chunk_b, expected_b);
}

#[test]
fn key_stream_from_reads_the_draws_little_endian() {
    let aes_keys: Vec<u128> = vec![8, 9];
    let mut entropy = vec![0u8; 40];
    entropy[0] = 0x10; // threshold 0x10
    entropy[4] = 0x01;
    entropy[5] = 0x02; // mask 0x0201
    entropy[8] = 0x07; // first seed 7
    entropy[39] = 0x01; // second seed 1 << 120
    let (chunk_a, chunk_b) = key_stream_from(&aes_keys, 1, GateKind::Equality, &entropy).unwrap();
    let k_a = EqKey::from_raw_line(&chunk_a).unwrap();
    let k_b = EqKey::from_raw_line(&chunk_b).unwrap();
    assert_eq!(k_a.alpha_share, 0x0201);
    assert_eq!(k_a.alpha_share.wrapping_add(k_b.alpha_share), 0x10);
    assert_eq!(k_a.s, 7);
    assert_eq!(k_b.s, 1 << 120);
}

#[test]
fn key_stream_from_of_no_records() {
    let aes_keys: Vec<u128> = vec![8, 9];
    assert_eq!(key_stream_from(&aes_keys, 0, GateKind::Equality, &[]), Ok((vec![], vec![])));
}

#[test]
fn key_stream_from_rejects_wrong_arguments() {
    let two: Vec<u128> = vec![1, 2];
    let four: Vec<u128> = vec![1, 2, 3, 4];
    let e = entropy(2);
    assert_eq!(key_stream_from(&four, 2, GateKind::Equality, &e), Err(FssError::ScheduleLength));
    assert_eq!(key_stream_from(&two, 2, GateKind::LessOrEqual, &e), Err(FssError::ScheduleLength));
    assert_eq!(key_stream_from(&two, 1, GateKind::Equality, &e), Err(FssError::Entropy));
    assert_eq!(key_stream_from(&two, 3, GateKind::Equality, &e), Err(FssError::Entropy));
    assert_eq!(key_stream_from(&two, 2, GateKind::Equality, &e[..79]), Err(FssError::Entropy));
    assert_eq!(key_stream_from(&two, 0, GateKind::Equality, &e[..1]), Err(FssError::Entropy));
    // the schedule is looked at first
    assert_eq!(key_stream_from(&four, 1, GateKind::Equality, &e), Err(FssError::ScheduleLength));
    assert!(key_stream_from(&two, 2, GateKind::Equality, &e).is_ok());
}

#[test]
fn generate_key_stream_deals_pairs_that_work() {
    let aes_keys: Vec<u128> = vec![5, 6, 7, 8];
    let stream = StreamPartition { stream_id: 3, start: 100, length: 4 };
    let (chunk_a, chunk_b) =
        generate_key_stream(&aes_keys, &stream, GateKind::LessOrEqual).unwrap();
    assert_eq!(chunk_a.len(), 4 * 1205);
    assert_eq!(chunk_b.len(), 4 * 1205);
    for index in 0..4 {
        let k_a = LeKey::from_raw_line(&chunk_a[1205 * index..1205 * (index + 1)]).unwrap();
        let k_b = LeKey::from_raw_line(&chunk_b[1205 * index..1205 * (index + 1)]).unwrap();
        let alpha = k_a.alpha_share.wrapping_add(k_b.alpha_share);
        for x in [alpha, alpha.wrapping_add(1), alpha.wrapping_sub(1), 0, u32::MAX] {
            let mut prg = MMO::from_vec(&aes_keys);
            let sum = k_a.eval(&mut prg, 0, x) + k_b.eval(&mut prg, 1, x);
            assert_eq!(sum, (x <= alpha) as i8);
        }
    }
}

#[test]
fn generate_key_stream_rejects_wrong_arguments() {
    let two: Vec<u128> = vec![1, 2];
    let stream = StreamPartition { stream_id: 0, start: 0, length: 1 };
    assert_eq!(
        generate_key_stream(&two, &stream, GateKind::LessOrEqual),
        Err(FssError::ScheduleLength)
    );
    let huge = StreamPartition { stream_id: 0, start: 0, length: usize::MAX };
    assert_eq!(generate_key_stream(&two, &huge, GateKind::Equality), Err(FssError::TooManyValues));
    let empty = StreamPartition { stream_id: 0, start: 0, length: 0 };
    assert_eq!(generate_key_stream(&two, &empty, GateKind::Equality), Ok((vec![], vec![])));
}

fn batch_of(aes_keys: &Vec<u128>, kind: GateKind, count: usize) -> (Vec<u8>, Vec<u8>) {
    let (chunk_a, chunk_b) = key_stream_from(aes_keys, count, kind, &entropy(count)).unwrap();
    let mut keys_a: Vec<u8> = aes_keys.iter().flat_map(|key| key.to_le_bytes()).collect();
    let mut keys_b = keys_a.clone();
    keys_a.extend_from_slice(&chunk_a);
    keys_b.extend_from_slice(&chunk_b);
    (keys_a, keys_b)
}

#[test]
fn eval_key_stream_evaluates_its_own_records() {
    let aes_keys: Vec<u128> = vec![1, 2, 3, 4];
    let kind = GateKind::LessOrEqual;
    let (keys_a, keys_b) = batch_of(&aes_keys, kind, 6);
    let e = entropy(6);
    let mut xs = Vec::new();
    let mut values = Vec::new();
    for index in 0..6 {
        let x = draws(&e, index).0.wrapping_add(index as u32 % 3).wrapping_sub(1);
        values.push(x);
        xs.extend_from_slice(&x.to_le_bytes());
    }
    let stream = StreamPartition { stream_id: 1, start: 2, length: 3 };
    let out_a = eval_key_stream(0, &aes_keys, &stream, &xs, &keys_a, kind).unwrap();
    let out_b = eval_key_stream(1, &aes_keys, &stream, &xs, &keys_b, kind).unwrap();
    assert_eq!(out_a.len(), 3);
    assert_eq!(out_b.len(), 3);
    for j in 0..3 {
        let index = 2 + j;
        let alpha = draws(&e, index).0;
        assert_eq!(out_a[j] + out_b[j], (values[index] <= alpha) as i64);
        let key = LeKey::from_raw_line(&keys_a[64 + 1205 * index..64 + 1205 * (index + 1)]).unwrap();
        let mut prg = MMO::from_vec(&aes_keys);
        assert_eq!(out_a[j], key.eval(&mut prg, 0, values[index]) as i64);
    }
    let nothing = StreamPartition { stream_id: 0, start: 6, length: 0 };
    assert_eq!(eval_key_stream(0, &aes_keys, &nothing, &xs, &keys_a, kind), Ok(vec![]));
}

#[test]
fn eval_key_stream_rejects_wrong_arguments() {
    let aes_keys: Vec<u128> = vec![1, 2];
    let kind = GateKind::Equality;
    let (keys_a, _) = batch_of(&aes_keys, kind, 4);
    let xs = vec![0u8; 16];
    let all = StreamPartition { stream_id: 0, start: 0, length: 4 };
    assert!(eval_key_stream(0, &aes_keys, &all, &xs, &keys_a, kind).is_ok());
    assert_eq!(eval_key_stream(2, &aes_keys, &all, &xs, &keys_a, kind), Err(FssError::BadParty));
    assert_eq!(eval_key_stream(255, &aes_keys, &all, &xs, &keys_a, kind), Err(FssError::BadParty));
    let four: Vec<u128> = vec![1, 2, 3, 4];
    assert_eq!(
        eval_key_stream(0, &four, &all, &xs, &keys_a, kind),
        Err(FssError::ScheduleLength)
    );
    let beyond = StreamPartition { stream_id: 0, start: 1, length: 4 };
    assert_eq!(
        eval_key_stream(0, &aes_keys, &beyond, &xs, &keys_a, kind),
        Err(FssError::KeyBufferTooSmall)
    );
    let wrapping = StreamPartition { stream_id: 0, start: usize::MAX, length: 2 };
    assert_eq!(
        eval_key_stream(0, &aes_keys, &wrapping, &xs, &keys_a, kind),
        Err(FssError::KeyBufferTooSmall)
    );
    let far = StreamPartition { stream_id: 0, start: usize::MAX / 2, length: 1 };
    assert_eq!(
        eval_key_stream(0, &aes_keys, &far, &xs, &keys_a, kind),
        Err(FssError::KeyBufferTooSmall)
    );
    assert_eq!(
        eval_key_stream(0, &aes_keys, &all, &xs, &keys_a[..31], kind),
        Err(FssError::KeyBufferTooSmall)
    );
    assert_eq!(
        eval_key_stream(0, &aes_keys, &all, &xs[..15], &keys_a, kind),
        Err(FssError::InputBufferTooSmall)
    );
    // the party is looked at first, the inputs last
    assert_eq!(eval_key_stream(9, &four, &beyond, &xs[..1], &keys_a, kind), Err(FssError::BadParty));
}
