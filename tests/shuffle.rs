use braque::prng::Prng;
use braque::shuffle::{pop_rand, scaled_index, shuffle as shuffle_seq, unshuffle as unshuffle_seq};
use braque::prng::Dyadic;

#[test]
fn shuffle() {
    let arr = b"Pycasso";
    let seed = b"Pycasso";
    let res = shuffle_seq(arr, seed);

    assert_eq!(res, b"cPosysa");
}

#[test]
fn unshuffle() {
    let arr = b"cPosysa";
    let seed = b"Pycasso";
    let res = unshuffle_seq(arr, seed);

    assert_eq!(res, b"Pycasso");
}

#[test]
fn shuffle_then_unshuffle_restores() {
    let arr: Vec<u32> = (0..500).collect();
    let seed = b"round trip";
    let scrambled = shuffle_seq(&arr, seed);
    assert_ne!(scrambled, arr);
    assert_eq!(unshuffle_seq(&scrambled, seed), arr);
    let other = unshuffle_seq(&arr, seed);
    assert_eq!(shuffle_seq(&other, seed), arr);
}

#[test]
fn shuffle_is_permutation() {
    let arr: Vec<usize> = (0..257).collect();
    let mut res = shuffle_seq(&arr, b"perm");
    assert_eq!(res.len(), arr.len());
    res.sort();
    assert_eq!(res, arr);
}

#[test]
fn shuffle_empty() {
    let arr: [u8; 0] = [];
    assert!(shuffle_seq(&arr, b"seed").is_empty());
    assert!(unshuffle_seq(&arr, b"seed").is_empty());
}

#[test]
fn scaled_index_exact_values() {
    // 1/2 of 10 items is index 5; 3/4 of 4 items is index 3.
    assert_eq!(scaled_index(Dyadic { numerator: 1, exponent: 1 }, 10), 5);
    assert_eq!(scaled_index(Dyadic { numerator: 3, exponent: 2 }, 4), 3);
    assert_eq!(scaled_index(Dyadic { numerator: 0, exponent: 48 }, 7), 0);
}

#[test]
fn scaled_index_rounds_like_doubles() {
    // Fractions with 53 significant bits, checked against double products.
    let cases = [
        ((1u64 << 53) - 1, 53u32, 3usize),
        ((1u64 << 53) - 1, 53, 1_000_003),
        ((1u64 << 52) + 12345, 55, 999),
        (0x1F_FFFF_FFFF_FFF0, 53, 17),
    ];
    for (num, exp, len) in cases {
        let f = num as f64 / 2f64.powi(exp as i32);
        let expected = (f * len as f64).floor() as usize;
        assert_eq!(scaled_index(Dyadic { numerator: num, exponent: exp }, len), expected);
    }
}

#[test]
fn pop_rand_removes_drawn_item() {
    let mut prng = Prng::with_seed(b"pop");
    let mut arr = vec![10usize, 20, 30, 40];
    let v = pop_rand(&mut arr, &mut prng);
    assert_eq!(arr.len(), 3);
    assert!(!arr.contains(&v));
    assert!([10, 20, 30, 40].contains(&v));
}
