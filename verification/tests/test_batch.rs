use sycret::eq::EqKey;
use sycret::le::LeKey;
use sycret::stream::{FSSKey, PRG};
use sycret::utils::MMO;
use sycret::{
    build_params, eval, keygen, read_schedule, write_schedule, FssError, GateKind, L, N,
    N_AES_STREAMS,
};

fn buffer_len(kind: GateKind, n_values: usize) -> usize {
    kind.header_len() + kind.key_len() * n_values
}

fn schedule(keys: &[u8], kind: GateKind) -> Vec<u128> {
    (0..kind.n_aes_keys())
        .map(|i| u128::from_le_bytes(keys[16 * i..16 * i + 16].try_into().unwrap()))
        .collect()
}

fn record(keys: &[u8], kind: GateKind, index: usize) -> &[u8] {
    let at = kind.header_len() + kind.key_len() * index;
    &keys[at..at + kind.key_len()]
}

fn threshold(keys_a: &[u8], keys_b: &[u8], kind: GateKind, index: usize) -> u32 {
    let a = u32::from_le_bytes(record(keys_a, kind, index)[0..4].try_into().unwrap());
    let b = u32::from_le_bytes(record(keys_b, kind, index)[0..4].try_into().unwrap());
    a.wrapping_add(b)
}

fn holds(kind: GateKind, x: u32, alpha: u32) -> bool {
    match kind {
        GateKind::Equality => x == alpha,
        GateKind::LessOrEqual => x <= alpha,
    }
}

fn single(kind: GateKind, aes_keys: &[u128], line: &[u8], party: u8, x: u32) -> i64 {
    let mut prg = MMO::from_slice(aes_keys);
    match kind {
        GateKind::Equality => EqKey::from_raw_line(line).unwrap().eval(&mut prg, party, x) as i64,
        GateKind::LessOrEqual => LeKey::from_raw_line(line).unwrap().eval(&mut prg, party, x) as i64,
    }
}

fn inputs(keys_a: &[u8], keys_b: &[u8], kind: GateKind, n_values: usize) -> (Vec<u32>, Vec<u8>) {
    let offsets = [0u32, 1, u32::MAX, 2, 0x8000_0000, 12345, u32::MAX - 1];
    let mut xs = Vec::new();
    let mut bytes = Vec::new();
    for index in 0..n_values {
        let x = threshold(keys_a, keys_b, kind, index).wrapping_add(offsets[index % 7]);
        xs.push(x);
        bytes.extend_from_slice(&x.to_le_bytes());
    }
    (xs, bytes)
}

fn run(kind: GateKind, n_values: usize, n_threads: usize) {
    let len = buffer_len(kind, n_values);
    let mut keys_a = vec![0u8; len];
    let mut keys_b = vec![0u8; len];
    assert_eq!(keygen(&mut keys_a, &mut keys_b, n_values, n_threads, kind), Ok(()));
    let header_len = kind.header_len();
    assert_eq!(&keys_a[..header_len], &keys_b[..header_len]);
    let aes_keys = schedule(&keys_a, kind);
    let (xs, x_bytes) = inputs(&keys_a, &keys_b, kind, n_values);
    let mut out_a = vec![0i64; n_values];
    let mut out_b = vec![0i64; n_values];
    assert_eq!(eval(0, &x_bytes, &keys_a, &mut out_a, n_values, n_threads, kind), Ok(()));
    assert_eq!(eval(1, &x_bytes, &keys_b, &mut out_b, n_values, n_threads, kind), Ok(()));
    for index in 0..n_values {
        let alpha = threshold(&keys_a, &keys_b, kind, index);
        assert_eq!(out_a[index] + out_b[index], holds(kind, xs[index], alpha) as i64);
        assert_eq!(out_a[index], single(kind, &aes_keys, record(&keys_a, kind, index), 0, xs[index]));
        assert_eq!(out_b[index], single(kind, &aes_keys, record(&keys_b, kind, index), 1, xs[index]));
    }
}

#[test]
fn params_of_the_two_kinds() {
    assert_eq!(build_params(GateKind::Equality), (2, 597, 128));
    assert_eq!(build_params(GateKind::LessOrEqual), (4, 1205, 128));
    assert_eq!(N_AES_STREAMS, 128);
    assert_eq!(N, 4);
    assert_eq!(L, 16);
    assert_eq!(GateKind::Equality.key_len(), 597);
    assert_eq!(GateKind::LessOrEqual.key_len(), 1205);
    assert_eq!(GateKind::Equality.n_aes_keys(), 2);
    assert_eq!(GateKind::LessOrEqual.n_aes_keys(), 4);
    assert_eq!(GateKind::Equality.header_len(), 32);
    assert_eq!(GateKind::LessOrEqual.header_len(), 64);
}

#[test]
fn kind_of_an_operation_id() {
    assert_eq!(GateKind::from_op_id(0), Some(GateKind::Equality));
    assert_eq!(GateKind::from_op_id(1), Some(GateKind::LessOrEqual));
    assert_eq!(GateKind::from_op_id(2), None);
    assert_eq!(GateKind::from_op_id(usize::MAX), None);
}

#[test]
fn batch_equality_sums_and_matches_single_evaluation() {
    for n_threads in [1usize, 2, 8] {
        for n_values in [0usize, 1, 5, 300] {
            run(GateKind::Equality, n_values, n_threads);
        }
    }
}

#[test]
fn batch_less_or_equal_sums_and_matches_single_evaluation() {
    for n_threads in [1usize, 2, 8] {
        for n_values in [0usize, 1, 5, 300] {
            run(GateKind::LessOrEqual, n_values, n_threads);
        }
    }
}

#[test]
fn batch_results_do_not_depend_on_the_number_of_threads() {
    for kind in [GateKind::Equality, GateKind::LessOrEqual] {
        let n_values = 260;
        let len = buffer_len(kind, n_values);
        let mut keys_a = vec![0u8; len];
        let mut keys_b = vec![0u8; len];
        keygen(&mut keys_a, &mut keys_b, n_values, 0, kind).unwrap();
        let (_, x_bytes) = inputs(&keys_a, &keys_b, kind, n_values);
        let mut reference = vec![0i64; n_values];
        eval(0, &x_bytes, &keys_a, &mut reference, n_values, 1, kind).unwrap();
        for n_threads in [0usize, 2, 8] {
            let mut out = vec![7i64; n_values];
            eval(0, &x_bytes, &keys_a, &mut out, n_values, n_threads, kind).unwrap();
            assert_eq!(out, reference);
        }
    }
}

#[test]
fn keygen_draws_fresh_keys_each_time() {
    let kind = GateKind::Equality;
    let len = buffer_len(kind, 3);
    let mut first_a = vec![0u8; len];
    let mut first_b = vec![0u8; len];
    let mut second_a = vec![0u8; len];
    let mut second_b = vec![0u8; len];
    keygen(&mut first_a, &mut first_b, 3, 2, kind).unwrap();
    keygen(&mut second_a, &mut second_b, 3, 2, kind).unwrap();
    assert_ne!(&first_a[..32], &second_a[..32]);
    assert_ne!(first_a, first_b);
    assert_ne!(record(&first_a, kind, 0), record(&first_a, kind, 1));
    assert_ne!(record(&first_a, kind, 0), record(&second_a, kind, 0));
}

#[test]
fn keygen_leaves_the_rest_of_the_buffers_alone() {
    let kind = GateKind::LessOrEqual;
    let n_values = 3;
    let len = buffer_len(kind, n_values);
    let mut keys_a = vec![0xaau8; len + 10];
    let mut keys_b = vec![0x55u8; len + 1];
    keygen(&mut keys_a, &mut keys_b, n_values, 2, kind).unwrap();
    assert_eq!(&keys_a[len..], &[0xaau8; 10]);
    assert_eq!(&keys_b[len..], &[0x55u8; 1]);
    assert_ne!(&keys_a[..len], &vec![0xaau8; len][..]);
}

#[test]
fn keygen_rejects_buffers_that_are_too_small() {
    for kind in [GateKind::Equality, GateKind::LessOrEqual] {
        let len = buffer_len(kind, 2);
        let mut small = vec![3u8; len - 1];
        let mut exact = vec![4u8; len];
        assert_eq!(keygen(&mut small, &mut exact, 2, 1, kind), Err(FssError::KeyBufferTooSmall));
        assert_eq!(keygen(&mut exact, &mut small, 2, 1, kind), Err(FssError::KeyBufferTooSmall));
        assert_eq!(small, vec![3u8; len - 1]);
        assert_eq!(exact, vec![4u8; len]);
        let mut empty: Vec<u8> = vec![];
        assert_eq!(keygen(&mut empty, &mut exact, 0, 1, kind), Err(FssError::KeyBufferTooSmall));
    }
}

#[test]
fn keygen_rejects_a_batch_that_fits_no_buffer() {
    let mut keys_a = vec![0u8; 64];
    let mut keys_b = vec![0u8; 64];
    for kind in [GateKind::Equality, GateKind::LessOrEqual] {
        assert_eq!(
            keygen(&mut keys_a, &mut keys_b, usize::MAX, 1, kind),
            Err(FssError::TooManyValues)
        );
        assert_eq!(
            keygen(&mut keys_a, &mut keys_b, usize::MAX / kind.key_len() + 1, 1, kind),
            Err(FssError::TooManyValues)
        );
        assert_eq!(
            keygen(&mut keys_a, &mut keys_b, usize::MAX / kind.key_len() - 1, 1, kind),
            Err(FssError::KeyBufferTooSmall)
        );
    }
    assert_eq!(keys_a, vec![0u8; 64]);
}

#[test]
fn keygen_of_no_values_writes_the_header() {
    let kind = GateKind::LessOrEqual;
    let mut keys_a = vec![0u8; 64];
    let mut keys_b = vec![0u8; 64];
    assert_eq!(keygen(&mut keys_a, &mut keys_b, 0, 1, kind), Ok(()));
    assert_eq!(keys_a, keys_b);
    assert_ne!(keys_a, vec![0u8; 64]);
}

#[test]
fn eval_rejects_what_does_not_fit() {
    let kind = GateKind::Equality;
    let n_values = 4;
    let len = buffer_len(kind, n_values);
    let mut keys_a = vec![0u8; len];
    let mut keys_b = vec![0u8; len];
    keygen(&mut keys_a, &mut keys_b, n_values, 1, kind).unwrap();
    let xs = vec![0u8; 4 * n_values];
    let mut out = vec![9i64; n_values];
    assert_eq!(eval(2, &xs, &keys_a, &mut out, n_values, 1, kind), Err(FssError::BadParty));
    assert_eq!(eval(usize::MAX, &xs, &keys_a, &mut out, n_values, 1, kind), Err(FssError::BadParty));
    assert_eq!(
        eval(0, &xs, &keys_a, &mut out, usize::MAX, 1, kind),
        Err(FssError::TooManyValues)
    );
    assert_eq!(
        eval(0, &xs, &keys_a[..len - 1], &mut out, n_values, 1, kind),
        Err(FssError::KeyBufferTooSmall)
    );
    assert_eq!(
        eval(0, &xs, &keys_a, &mut out, n_values + 1, 1, kind),
        Err(FssError::KeyBufferTooSmall)
    );
    assert_eq!(
        eval(0, &xs[..4 * n_values - 1], &keys_a, &mut out, n_values, 1, kind),
        Err(FssError::InputBufferTooSmall)
    );
    assert_eq!(
        eval(0, &xs, &keys_a, &mut out[..n_values - 1], n_values, 1, kind),
        Err(FssError::OutputBufferTooSmall)
    );
    // a buffer generated for the smaller kind is too small for the larger one
    assert_eq!(
        eval(0, &xs, &keys_a, &mut out, n_values, 1, GateKind::LessOrEqual),
        Err(FssError::KeyBufferTooSmall)
    );
    assert_eq!(out, vec![9i64; n_values]);
    assert_eq!(eval(0, &xs, &keys_a, &mut out, n_values, 1, kind), Ok(()));
}

#[test]
fn eval_leaves_the_rest_of_the_results_alone() {
    let kind = GateKind::Equality;
    let n_values = 130;
    let len = buffer_len(kind, n_values);
    let mut keys_a = vec![0u8; len];
    let mut keys_b = vec![0u8; len];
    keygen(&mut keys_a, &mut keys_b, n_values, 2, kind).unwrap();
    let (_, xs) = inputs(&keys_a, &keys_b, kind, n_values);
    let mut out = vec![1234i64; n_values + 3];
    // fewer values than the buffers hold: only the first ones are evaluated
    eval(1, &xs, &keys_b, &mut out, n_values - 1, 2, kind).unwrap();
    assert_eq!(&out[n_values - 1..], &[1234i64; 4]);
    assert!(out[..n_values - 1].iter().all(|share| (-3..=3).contains(share)));
}

#[test]
fn eval_reads_the_inputs_little_endian() {
    let kind = GateKind::LessOrEqual;
    let len = buffer_len(kind, 1);
    let mut keys_a = vec![0u8; len];
    let mut keys_b = vec![0u8; len];
    keygen(&mut keys_a, &mut keys_b, 1, 1, kind).unwrap();
    let aes_keys = schedule(&keys_a, kind);
    let xs = [0x01u8, 0x02, 0x03, 0x04];
    let mut out = [0i64; 1];
    eval(0, &xs, &keys_a, &mut out, 1, 1, kind).unwrap();
    assert_eq!(out[0], single(kind, &aes_keys, record(&keys_a, kind, 0), 0, 0x0403_0201));
}

#[test]
fn read_schedule_reads_the_header_little_endian() {
    let mut keys: Vec<u8> = (1u8..=64).collect();
    keys.extend_from_slice(&[0xee; 100]);
    let two = read_schedule(&keys, GateKind::Equality).unwrap();
    assert_eq!(
        two,
        vec![0x100f_0e0d_0c0b_0a09_0807_0605_0403_0201, 0x201f_1e1d_1c1b_1a19_1817_1615_1413_1211]
    );
    let four = read_schedule(&keys, GateKind::LessOrEqual).unwrap();
    assert_eq!(four.len(), 4);
    assert_eq!(&four[..2], &two[..]);
    assert_eq!(four[3], 0x403f_3e3d_3c3b_3a39_3837_3635_3433_3231);
    assert_eq!(read_schedule(&keys[..32], GateKind::Equality), Ok(two));
}

#[test]
fn read_schedule_checks_the_length() {
    let keys = [0u8; 64];
    assert_eq!(read_schedule(&keys[..31], GateKind::Equality), Err(FssError::KeyBufferTooSmall));
    assert_eq!(read_schedule(&keys[..63], GateKind::LessOrEqual), Err(FssError::KeyBufferTooSmall));
    assert_eq!(read_schedule(&[], GateKind::Equality), Err(FssError::KeyBufferTooSmall));
    assert_eq!(read_schedule(&keys, GateKind::LessOrEqual), Ok(vec![0, 0, 0, 0]));
}

#[test]
fn keygen_header_is_the_schedule_of_both_parties() {
    for kind in [GateKind::Equality, GateKind::LessOrEqual] {
        let len = buffer_len(kind, 2);
        let mut keys_a = vec![0u8; len];
        let mut keys_b = vec![0u8; len];
        keygen(&mut keys_a, &mut keys_b, 2, 1, kind).unwrap();
        let schedule_a = read_schedule(&keys_a, kind).unwrap();
        assert_eq!(schedule_a.len(), kind.n_aes_keys());
        assert_eq!(schedule_a, read_schedule(&keys_b, kind).unwrap());
        assert_eq!(schedule_a, schedule(&keys_a, kind));
    }
}

#[test]
fn write_schedule_writes_each_key_little_endian() {
    let aes_keys: Vec<u128> = vec![0x100f_0e0d_0c0b_0a09_0807_0605_0403_0201, 1 << 120];
    let mut keys = vec![0xeeu8; 40];
    assert_eq!(write_schedule(&aes_keys, &mut keys), Ok(()));
    let first: Vec<u8> = (1u8..=16).collect();
    assert_eq!(&keys[..16], &first[..]);
    assert_eq!(&keys[16..31], &[0u8; 15]);
    assert_eq!(keys[31], 1);
    assert_eq!(&keys[32..], &[0xeeu8; 8]);
    assert_eq!(read_schedule(&keys, GateKind::Equality), Ok(aes_keys));
}

#[test]
fn write_schedule_round_trip() {
    let aes_keys: Vec<u128> = vec![u128::MAX, 0, 0x1234_5678_9abc_def0, 77];
    let mut keys = vec![0u8; 64];
    assert_eq!(write_schedule(&aes_keys, &mut keys), Ok(()));
    assert_eq!(read_schedule(&keys, GateKind::LessOrEqual), Ok(aes_keys));
    let none: Vec<u128> = vec![];
    assert_eq!(write_schedule(&none, &mut keys[..0]), Ok(()));
}

#[test]
fn write_schedule_checks_the_length() {
    let aes_keys: Vec<u128> = vec![1, 2];
    let mut keys = vec![9u8; 31];
    assert_eq!(write_schedule(&aes_keys, &mut keys), Err(FssError::KeyBufferTooSmall));
    assert_eq!(keys, vec![9u8; 31]);
    assert_eq!(write_schedule(&aes_keys, &mut keys[..0]), Err(FssError::KeyBufferTooSmall));
}
