use rand::Rng;

use sycret::eq::EqKey;
use sycret::stream::{FSSKey, PRG};
use sycret::utils::MMO;

fn eq_sum(keys: &[u128; 2], k_a: &EqKey, k_b: &EqKey, x: u32) -> i8 {
    let mut prg = MMO::from_slice(keys);
    let a = k_a.eval(&mut prg, 0, x);
    let mut prg = MMO::from_slice(keys);
    let b = k_b.eval(&mut prg, 1, x);
    a + b
}

#[test]
fn eq_generate_and_evaluate_alpha() {
    let mut rng = rand::thread_rng();
    for _ in 0..16 {
        let aes_keys: [u128; 2] = rng.gen();
        let mut prg = MMO::from_slice(&aes_keys);
        let (k_a, k_b) = EqKey::generate_keypair(&mut prg).unwrap();
        let alpha = k_a.alpha_share.wrapping_add(k_b.alpha_share);
        assert_eq!(eq_sum(&aes_keys, &k_a, &k_b, alpha), 1);
        assert_eq!(eq_sum(&aes_keys, &k_a, &k_b, alpha.wrapping_add(1)), 0);
        assert_eq!(eq_sum(&aes_keys, &k_a, &k_b, alpha.wrapping_sub(1)), 0);
        assert_eq!(eq_sum(&aes_keys, &k_a, &k_b, !alpha), 0);
        assert_eq!(eq_sum(&aes_keys, &k_a, &k_b, alpha ^ 0x8000_0000), 0);
    }
}

#[test]
fn eq_window_around_alpha() {
    let aes_keys: [u128; 2] = [0x0123_4567_89ab_cdef, 0xfedc_ba98_7654_3210];
    let alpha: u32 = 1000;
    let mut prg = MMO::from_slice(&aes_keys);
    let (k_a, k_b) = EqKey::keypair_from(&mut prg, alpha, 77, 5, 6);
    for x in 900u32..1100 {
        assert_eq!(eq_sum(&aes_keys, &k_a, &k_b, x), (x == alpha) as i8);
    }
}

#[test]
fn eq_edges_of_the_domain() {
    let aes_keys: [u128; 2] = [17, 4711];
    for alpha in [0u32, 1, 0x7fff_ffff, 0x8000_0000, u32::MAX - 1, u32::MAX] {
        let mut prg = MMO::from_slice(&aes_keys);
        let (k_a, k_b) = EqKey::keypair_from(&mut prg, alpha, 0xdead_beef, 1 << 100, 3);
        for x in [0u32, 1, 2, 0x7fff_ffff, 0x8000_0000, 0x8000_0001, u32::MAX - 1, u32::MAX] {
            assert_eq!(eq_sum(&aes_keys, &k_a, &k_b, x), (x == alpha) as i8);
        }
        assert_eq!(eq_sum(&aes_keys, &k_a, &k_b, alpha.wrapping_add(1)), 0);
        assert_eq!(eq_sum(&aes_keys, &k_a, &k_b, alpha.wrapping_sub(1)), 0);
    }
}

#[test]
fn eq_keypair_from_splits_the_threshold() {
    let mut prg = MMO::from_slice(&[1, 2]);
    let (k_a, k_b) = EqKey::keypair_from(&mut prg, 10, 4_000_000_000, 8, 9);
    assert_eq!(k_a.alpha_share, 4_000_000_000);
    assert_eq!(k_b.alpha_share, 10u32.wrapping_sub(4_000_000_000));
    assert_eq!(k_a.alpha_share.wrapping_add(k_b.alpha_share), 10);
    assert_eq!(k_a.s, 8);
    assert_eq!(k_b.s, 9);
    assert_eq!(k_a.cw_leaf, k_b.cw_leaf);
    assert!((-2..=2).contains(&k_a.cw_leaf));
    for level in 0..32 {
        assert_eq!(k_a.cw[level].s, k_b.cw[level].s);
        assert_eq!(k_a.cw[level].t_l, k_b.cw[level].t_l);
        assert_eq!(k_a.cw[level].t_r, k_b.cw[level].t_r);
    }
}

#[test]
fn eq_keypair_from_is_a_function_of_its_draws() {
    let mut prg = MMO::from_slice(&[21, 22]);
    let (a1, b1) = EqKey::keypair_from(&mut prg, 123, 456, 789, 1011);
    let mut other = MMO::from_slice(&[21, 22]);
    let (a2, b2) = EqKey::keypair_from(&mut other, 123, 456, 789, 1011);
    let mut line1 = Vec::new();
    let mut line2 = Vec::new();
    a1.to_raw_line(&mut line1);
    b1.to_raw_line(&mut line1);
    a2.to_raw_line(&mut line2);
    b2.to_raw_line(&mut line2);
    assert_eq!(line1, line2);
    let (a3, _) = EqKey::keypair_from(&mut other, 124, 456, 789, 1011);
    let mut line3 = Vec::new();
    a3.to_raw_line(&mut line3);
    assert_ne!(&line1[..597], &line3[..]);
}

#[test]
fn eq_eval_is_deterministic() {
    let aes_keys: [u128; 2] = [99, 100];
    let mut prg = MMO::from_slice(&aes_keys);
    let (k_a, k_b) = EqKey::generate_keypair(&mut prg).unwrap();
    for x in [0u32, 5, 1 << 31, u32::MAX] {
        for (party, key) in [(0u8, &k_a), (1u8, &k_b)] {
            let mut first = MMO::from_slice(&aes_keys);
            let mut second = MMO::from_slice(&aes_keys);
            let once = key.eval(&mut first, party, x);
            let again = key.eval(&mut first, party, x);
            let fresh = key.eval(&mut second, party, x);
            assert_eq!(once, again);
            assert_eq!(once, fresh);
        }
    }
}

#[test]
fn eq_shares_stay_small() {
    let aes_keys: [u128; 2] = [5, 6];
    let mut prg = MMO::from_slice(&aes_keys);
    let (k_a, k_b) = EqKey::keypair_from(&mut prg, 42, 1, 2, 3);
    for x in 0u32..200 {
        let mut prg = MMO::from_slice(&aes_keys);
        let a = k_a.eval(&mut prg, 0, x);
        let b = k_b.eval(&mut prg, 1, x);
        assert!((-3..=3).contains(&a));
        assert!((-3..=3).contains(&b));
    }
}

#[test]
fn one_equality_share_alone_does_not_mark_the_threshold() {
    let aes_keys: [u128; 2] = [0x1357, 0x2468];
    let alpha: u32 = 40_000;
    let mut prg = MMO::from_slice(&aes_keys);
    let (k_a, k_b) = EqKey::keypair_from(&mut prg, alpha, 0x0f0f_0f0f, 0xc0ffee, 0xdecaf);
    for (party, key) in [(0u8, &k_a), (1u8, &k_b)] {
        let mut others = Vec::new();
        for x in (alpha - 64)..=(alpha + 64) {
            if x != alpha {
                let mut prg = MMO::from_slice(&aes_keys);
                others.push(key.eval(&mut prg, party, x));
            }
        }
        let mut prg = MMO::from_slice(&aes_keys);
        let at_alpha = key.eval(&mut prg, party, alpha);
        // the share takes the value it has on the threshold elsewhere too,
        // and it is not constant off the threshold
        assert!(others.contains(&at_alpha));
        assert!(others.iter().any(|v| *v != others[0]));
    }
}
