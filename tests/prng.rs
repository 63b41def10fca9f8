use braque::cipher::Arc4;
use braque::prng::{mixkey, Dyadic, Prng};

fn to_f64(d: Dyadic) -> f64 {
    d.numerator as f64 / 2f64.powi(d.exponent as i32)
}

#[test]
fn mixkey_short() {
    let key = "seed".as_bytes();
    let res = mixkey(key);

    assert_eq!(res, [b's', b'e', b'e', b'd']);
}

#[test]
fn mixkey_long() {
    let mut key = vec![b'1'; 255];
    key.push(b'2');
    key.push(b'2');
    let mut expected = vec![b'1'; 256];
    expected[255] = b'2';
    expected[0] = b'2'; // Wraparound

    let res = mixkey(&key);

    assert_eq!(res, expected);
}

#[test]
fn mixkey_empty() {
    assert!(mixkey(&[]).is_empty());
}

#[test]
fn mixkey_exactly_256() {
    let key: Vec<u8> = (0..=255u8).collect();
    assert_eq!(mixkey(&key), key);
}

#[test]
fn rand() {
    let mut prng = Prng::with_seed(b"braque");
    let expected = [
        0.12063955304223144,
        0.5166808775087299,
        0.15514044584437084,
        0.9418555792052827,
        0.5805404063693996,
        0.5518369778087185,
        0.5411486504395583,
        0.32282658448360363,
        0.7672009436485945,
        0.6170751309139755,
    ];

    for value in expected {
        assert_eq!(to_f64(prng.rand()), value);
    }
}

#[test]
fn rand_is_deterministic() {
    let mut a = Prng::with_seed(b"some seed");
    let mut b = Prng::with_seed(b"some seed");
    for _ in 0..100 {
        assert_eq!(a.rand(), b.rand());
    }
}

#[test]
fn rand_in_unit_interval() {
    let mut prng = Prng::with_seed(b"x");
    for _ in 0..1000 {
        let d = prng.rand();
        let v = to_f64(d);
        assert!((0.0..1.0).contains(&v));
        assert!(d.numerator < (1u64 << 53));
    }
}

#[test]
fn arc4_known_keystream() {
    // The classic test vector: key "Key" gives EB 9F 77 81 B7 34 CA 72 A7 19.
    let mut cipher = Arc4::with_key(b"Key");
    assert_eq!(
        cipher.generate(10),
        vec![0xEB, 0x9F, 0x77, 0x81, 0xB7, 0x34, 0xCA, 0x72, 0xA7, 0x19]
    );
}

#[test]
fn arc4_continues_keystream() {
    let mut whole = Arc4::with_key(b"Secret");
    let mut split = Arc4::with_key(b"Secret");
    let all = whole.generate(20);
    let mut parts = split.generate(7);
    parts.extend(split.generate(13));
    assert_eq!(all, parts);
}
