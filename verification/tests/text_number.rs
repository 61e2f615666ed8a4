use maimai_player::number::{float_literal, FIVE_POW_150};
use maimai_player::text::{lines, parse_uint, split, trim};

fn chars(s: &str) -> Vec<char> {
    s.chars().collect()
}

fn lit(s: &str) -> Option<bool> {
    let v = chars(s);
    float_literal(&v, 0, v.len())
}

#[test]
fn trim_drops_unicode_whitespace_both_ends() {
    let v = chars("\u{3000} a b\t\r\n");
    assert_eq!(trim(&v, 0, v.len()), (2, 5));
    let w = chars("   ");
    let (a, b) = trim(&w, 0, w.len());
    assert_eq!(a, b);
}

#[test]
fn split_keeps_empty_pieces() {
    let v = chars("1,,2,");
    assert_eq!(split(&v, 0, v.len(), ','), vec![(0, 1), (2, 2), (3, 4), (5, 5)]);
    let e = chars("");
    assert_eq!(split(&e, 0, 0, ','), vec![(0, 0)]);
}

#[test]
fn lines_like_str_lines() {
    let text = "a\r\nb\n\nc\r";
    let v = chars(text);
    let got: Vec<String> = lines(&v).iter().map(|&(a, b)| v[a..b].iter().collect()).collect();
    let want: Vec<String> = text.lines().map(|s| s.to_string()).collect();
    assert_eq!(got, want);
    let v2 = chars("x\n");
    assert_eq!(lines(&v2), vec![(0, 1)]);
    assert!(lines(&chars("")).is_empty());
}

#[test]
fn parse_uint_like_std() {
    for s in ["0", "+7", "255", "256", "-1", "", "+", "12a", "0042", "4294967295", "4294967296"] {
        let v = chars(s);
        assert_eq!(parse_uint(&v, 0, v.len(), 255), s.parse::<u8>().ok().map(|x| x as u64), "u8 {s:?}");
        assert_eq!(parse_uint(&v, 0, v.len(), u32::MAX as u64), s.parse::<u32>().ok().map(|x| x as u64), "u32 {s:?}");
    }
}

#[test]
fn float_literal_matches_f32_parse() {
    let cases = [
        "120", "120.5", "1.", ".5", "+.5e1", "-3", "0", "0.000", "1e3", "1E-3", "1e+2", "inf", "-inf",
        "Infinity", "NaN", "nan", "abc", ".", "1e", "e5", "1.2.3", "", "+", "1 ", " 1", "1e-50",
        "7.1e-46", "7e-46", "1e39", "-0", "1_0", "0x10", "1e999999999999999999999", "1e-999999999999999999999",
        "00000000000000000000000000000000000000001e-45",
        "7.00649232162408535461864791644958065640130970938257885878534141944895541342930300743319094181060791015625e-46",
        "7.00649232162408535461864791644958065640130970938257885878534141944895541342930300743319094181060791015626e-46",
    ];
    for s in cases {
        let want = s.parse::<f32>().ok().map(|x| x > 0.0);
        assert_eq!(lit(s), want, "{s:?}");
    }
}

#[test]
fn threshold_is_five_to_the_150() {
    // 5^150 by repeated multiplication in base 10, least significant first.
    let mut d: Vec<u32> = vec![1];
    for _ in 0..150 {
        let mut carry = 0;
        for x in d.iter_mut() {
            let v = *x * 5 + carry;
            *x = v % 10;
            carry = v / 10;
        }
        while carry > 0 {
            d.push(carry % 10);
            carry /= 10;
        }
    }
    let s: String = d.iter().rev().map(|x| char::from_digit(*x, 10).unwrap()).collect();
    let t: String = FIVE_POW_150.iter().collect();
    assert_eq!(s, t);
}
