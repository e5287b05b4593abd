use std::str::FromStr;

use base79::{Base79, ParseError};

fn key(s: &str) -> Base79 {
    Base79::from_str(s).unwrap()
}

#[test]
fn test_from_str() {
    assert_eq!(Base79::from_str(""), Err(ParseError::EmptyNotAllowed));
    assert_eq!(Base79::from_str("한글"), Err(ParseError::InvalidChar));
    assert_eq!(Base79::from_str("R").unwrap(), Base79::mid());
}

#[test]
fn from_str_rejects_control_characters() {
    assert_eq!(Base79::from_str("R\n"), Err(ParseError::InvalidChar));
    assert_eq!(Base79::from_str("\u{7f}"), Err(ParseError::InvalidChar));
    assert_eq!(Base79::from_str("\t"), Err(ParseError::InvalidChar));
}

#[test]
fn from_str_accepts_printable_ascii_outside_the_alphabet() {
    let k = Base79::from_str(" ~").unwrap();
    assert_eq!(k.to_string(), " ~");
    assert!(!k.is_canonical());
}

#[test]
fn mid_is_thirty_nine() {
    let n1 = Base79::mid();
    assert_eq!(n1.to_string(), "R");
    assert_eq!(n1.raw_digits(), vec![39]);
    assert_eq!(Base79::mid(), Base79::mid());
}

#[test]
fn avg_with_zero_of_mid() {
    let n2 = Base79::avg_with_zero(&Base79::mid());
    assert_eq!(n2.to_string(), ">");
    assert_eq!(n2.raw_digits(), vec![19]);
}

#[test]
fn avg_with_one_of_mid() {
    let n3 = Base79::avg_with_one(&Base79::mid());
    assert_eq!(n3.to_string(), "f");
    assert_eq!(n3.raw_digits(), vec![59]);
}

#[test]
fn avg_of_two_keys() {
    let n1 = Base79::mid();
    let n2 = Base79::avg_with_zero(&n1);
    let n4 = Base79::avg(&n2, &n1);
    assert_eq!(n4.to_string(), "H");
    assert_eq!(n4.raw_digits(), vec![29]);
}

#[test]
fn avg_of_adjacent_digits_takes_a_second_digit() {
    let lo = key("R");
    let hi = key("S");
    let r = Base79::avg(&lo, &hi);
    assert_eq!(r.raw_digits(), vec![39, 39]);
    assert_eq!(r.to_string(), "RR");
    assert!(lo < r && r < hi);
}

#[test]
fn avg_after_a_run_of_top_digits() {
    let lo = key("Ry");
    let hi = key("S");
    let r = Base79::avg(&lo, &hi);
    assert_eq!(r.raw_digits(), vec![39, 78, 39]);
    assert!(lo < r && r < hi);
}

#[test]
fn avg_over_a_shared_prefix() {
    let lo = key("RR");
    let hi = key("RT");
    assert_eq!(Base79::avg(&lo, &hi).raw_digits(), vec![39, 40]);
    let lo = key("R");
    let hi = key("R,");
    assert_eq!(Base79::avg(&lo, &hi).raw_digits(), vec![39, 0, 39]);
}

#[test]
fn avg_with_one_of_the_top_digit() {
    let r = Base79::avg_with_one(&key("y"));
    assert_eq!(r.raw_digits(), vec![78, 39]);
    assert_eq!(r.to_string(), "yR");
}

#[test]
fn avg_with_zero_of_the_smallest_allowed_first_digit() {
    let r = Base79::avg_with_zero(&key("."));
    assert_eq!(r.raw_digits(), vec![1]);
    assert_eq!(r.to_string(), ",");
}

#[test]
fn avg_with_zero_below_a_small_first_digit() {
    assert_eq!(Base79::avg_with_zero(&key("-")).raw_digits(), vec![1]);
    assert_eq!(Base79::avg_with_zero(&key(",")).raw_digits(), vec![0, 39]);
    assert_eq!(Base79::avg_with_zero(&key("+,")).raw_digits(), vec![0, 0, 39]);
    assert_eq!(Base79::avg_with_zero(&key("+R")).raw_digits(), vec![0, 19]);
    let r = Base79::avg_with_zero(&key(","));
    assert_eq!(r.to_string(), "+R");
    assert!(r.is_canonical());
    assert!(r < key(","));
}

#[test]
fn repeated_insertions_at_the_front() {
    let mut front = Base79::mid();
    for _ in 0..200 {
        let k = Base79::avg_with_zero(&front);
        assert!(k.is_canonical());
        assert!(k < front);
        assert!(k.raw_digits().len() <= front.raw_digits().len() + 1);
        assert!(k.raw_digits().iter().any(|d| *d != 0));
        front = k;
    }
}

#[test]
fn raw_digits_of_a_long_key() {
    assert_eq!(key("s?Q^Z").raw_digits(), vec![72, 20, 38, 51, 47]);
}

#[test]
fn wide_gap_gives_one_digit() {
    let r = Base79::avg(&key("+,"), &key("y"));
    assert_eq!(r.raw_digits(), vec![39]);
    let r = Base79::avg(&key("-"), &key("0"));
    assert_eq!(r.raw_digits(), vec![3]);
}

#[test]
fn avg_is_deterministic() {
    let lo = key("Ab");
    let hi = key("Ac");
    assert_eq!(Base79::avg(&lo, &hi), Base79::avg(&lo, &hi));
    assert_eq!(Base79::avg_with_zero(&lo), Base79::avg_with_zero(&lo));
    assert_eq!(Base79::avg_with_one(&hi), Base79::avg_with_one(&hi));
}

#[test]
fn text_order_follows_digit_order() {
    let keys = ["+,", ",", "R", "RR", "S", "y", "yR"];
    for i in 0..keys.len() {
        for j in 0..keys.len() {
            let a = key(keys[i]);
            let b = key(keys[j]);
            let da = a.raw_digits();
            let db = b.raw_digits();
            assert_eq!(a < b, da < db);
            assert_eq!(a < b, i < j);
        }
    }
}

#[test]
fn text_round_trips_through_digits() {
    for s in ["R", "s?Q^Z", "+y", "y"] {
        let k = key(s);
        let digits = k.raw_digits();
        let text: String = digits.iter().map(|d| (d + b'+') as char).collect();
        assert_eq!(text, s);
    }
}

#[test]
fn many_insertions_stay_sorted() {
    let mut v = vec![Base79::mid()];
    for step in 0..300usize {
        let pos = (step * 7) % (v.len() + 1);
        let k = if pos == 0 {
            Base79::avg_with_zero(&v[0])
        } else if pos == v.len() {
            Base79::avg_with_one(&v[pos - 1])
        } else {
            Base79::avg(&v[pos - 1], &v[pos])
        };
        assert!(k.is_canonical());
        v.insert(pos, k);
    }
    for w in v.windows(2) {
        assert!(w[0] < w[1]);
    }
}

#[test]
fn canonical_check() {
    assert!(key("R").is_canonical());
    assert!(key("R,").is_canonical());
    assert!(!key("R+").is_canonical());
    assert!(!key("+").is_canonical());
    assert!(!key("Rz").is_canonical());
    assert!(!key("R*").is_canonical());
}
